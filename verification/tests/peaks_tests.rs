use phantasy::peaks::{find_peaks, TOP_N};
use phantasy::spectrogram::Spectrogram;

fn spectrogram_of(rows: Vec<Vec<u32>>) -> Spectrogram {
    match Spectrogram::new(rows) {
        Ok(spectrogram) => spectrogram,
        Err(error) => panic!("refused: {:?}", error),
    }
}

#[test]
fn top_n_is_five_by_default() {
    assert_eq!(TOP_N, 5);
}

#[test]
fn peaks_are_the_loudest_bins_loudest_first() {
    // bins 0..4, two frames
    let spectrogram = spectrogram_of(vec![
        vec![10, 1],
        vec![40, 2],
        vec![20, 9],
        vec![30, 3],
    ]);
    let table = find_peaks(&spectrogram, 2);
    assert_eq!(table, vec![vec![1u16, 3], vec![2, 3]]);
    let table = find_peaks(&spectrogram, 3);
    assert_eq!(table, vec![vec![1u16, 3, 2], vec![2, 3, 1]]);
}

#[test]
fn equally_loud_bins_come_lower_bin_first() {
    let spectrogram = spectrogram_of(vec![vec![7], vec![9], vec![7], vec![9], vec![7]]);
    assert_eq!(find_peaks(&spectrogram, 4), vec![vec![1u16, 3, 0, 2]]);
    let silent = spectrogram_of(vec![vec![0, 0], vec![0, 0], vec![0, 0]]);
    assert_eq!(find_peaks(&silent, 2), vec![vec![0u16, 1], vec![0, 1]]);
}

#[test]
fn fewer_bins_than_peaks_gives_all_bins() {
    let spectrogram = spectrogram_of(vec![vec![3], vec![1], vec![2]]);
    assert_eq!(find_peaks(&spectrogram, 5), vec![vec![0u16, 2, 1]]);
    assert_eq!(find_peaks(&spectrogram, 3), vec![vec![0u16, 2, 1]]);
}

#[test]
fn no_peaks_are_asked_for() {
    let spectrogram = spectrogram_of(vec![vec![3, 4], vec![1, 5]]);
    let table = find_peaks(&spectrogram, 0);
    assert_eq!(table, vec![Vec::<u16>::new(), Vec::new()]);
}

#[test]
fn an_empty_spectrogram_has_no_frames_of_peaks() {
    let spectrogram = spectrogram_of(Vec::new());
    assert_eq!(find_peaks(&spectrogram, 5), Vec::<Vec<u16>>::new());
    let no_frames = spectrogram_of(vec![Vec::new(), Vec::new()]);
    assert_eq!(find_peaks(&no_frames, 5), Vec::<Vec<u16>>::new());
}

#[test]
fn peaks_agree_with_a_sort_on_a_larger_column() {
    let bins: usize = 300;
    let mut rows = Vec::new();
    let mut state: u32 = 12345;
    for _ in 0..bins {
        let mut row = Vec::new();
        for _ in 0..3 {
            state = state.wrapping_mul(1_664_525).wrapping_add(1_013_904_223);
            row.push((state >> 24) as u32);
        }
        rows.push(row);
    }
    let spectrogram = spectrogram_of(rows.clone());
    let table = find_peaks(&spectrogram, 7);
    assert_eq!(table.len(), 3);
    for frame in 0..3 {
        let mut order: Vec<usize> = (0..bins).collect();
        order.sort_by(|a, b| rows[*b][frame].cmp(&rows[*a][frame]));
        let expected: Vec<u16> = order.iter().take(7).map(|bin| *bin as u16).collect();
        assert_eq!(table[frame], expected);
    }
}
