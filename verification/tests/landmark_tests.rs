use phantasy::landmark::{
    extract_landmarks, pair_peaks, HashEntry, LandmarkFingerprint, FAN_VALUE, LOOKAHEAD,
};
use phantasy::spectrogram::Spectrogram;

fn entry(f1: u16, f2: u16, delta_t: u16, anchor_time: u32) -> HashEntry {
    HashEntry { f1, f2, delta_t, anchor_time }
}

#[test]
fn pairing_defaults() {
    assert_eq!(FAN_VALUE, 5);
    assert_eq!(LOOKAHEAD, 9);
}

#[test]
fn pairs_each_peak_with_the_peaks_that_follow() {
    let table = vec![vec![1u16, 2], vec![3], vec![4, 5, 6]];
    let entries = pair_peaks(&table, 2, 3);
    assert_eq!(
        entries,
        vec![
            entry(1, 3, 1, 0),
            entry(1, 4, 2, 0),
            entry(1, 5, 2, 0),
            entry(2, 3, 1, 0),
            entry(2, 4, 2, 0),
            entry(2, 5, 2, 0),
            entry(3, 4, 1, 1),
            entry(3, 5, 1, 1),
        ]
    );
}

#[test]
fn lookahead_bounds_the_frame_delta() {
    let table = vec![vec![1u16], vec![2], vec![3], vec![4]];
    assert_eq!(pair_peaks(&table, 5, 0), Vec::<HashEntry>::new());
    assert_eq!(pair_peaks(&table, 5, 1), Vec::<HashEntry>::new());
    assert_eq!(
        pair_peaks(&table, 5, 2),
        vec![entry(1, 2, 1, 0), entry(2, 3, 1, 1), entry(3, 4, 1, 2)]
    );
    assert_eq!(
        pair_peaks(&table, 5, 3),
        vec![
            entry(1, 2, 1, 0),
            entry(1, 3, 2, 0),
            entry(2, 3, 1, 1),
            entry(2, 4, 2, 1),
            entry(3, 4, 1, 2),
        ]
    );
}

#[test]
fn fan_value_bounds_the_peaks_paired_with() {
    let table = vec![vec![9u16], vec![1, 2, 3]];
    assert_eq!(pair_peaks(&table, 0, 9), Vec::<HashEntry>::new());
    assert_eq!(pair_peaks(&table, 1, 9), vec![entry(9, 1, 1, 0)]);
    assert_eq!(
        pair_peaks(&table, 7, 9),
        vec![entry(9, 1, 1, 0), entry(9, 2, 1, 0), entry(9, 3, 1, 0)]
    );
}

#[test]
fn no_frames_no_landmarks() {
    assert_eq!(pair_peaks(&Vec::new(), 5, 9), Vec::<HashEntry>::new());
    assert_eq!(pair_peaks(&vec![vec![1u16, 2, 3]], 5, 9), Vec::<HashEntry>::new());
}

#[test]
fn extract_counts_every_pairing() {
    // 8 bins, 12 frames, all levels different
    let mut rows = Vec::new();
    for bin in 0..8u32 {
        let mut row = Vec::new();
        for frame in 0..12u32 {
            row.push((bin * 31 + frame * 7) % 97 + bin);
        }
        rows.push(row);
    }
    let spectrogram = match Spectrogram::new(rows) {
        Ok(spectrogram) => spectrogram,
        Err(error) => panic!("refused: {:?}", error),
    };
    let fingerprint = extract_landmarks(&spectrogram, FAN_VALUE, LOOKAHEAD);
    assert_eq!(fingerprint.entries.len(), 1500);
    for landmark in &fingerprint.entries {
        assert!(landmark.delta_t >= 1 && landmark.delta_t <= 8);
        assert!(landmark.anchor_time + (landmark.delta_t as u32) < 12);
        assert!(landmark.f1 < 8 && landmark.f2 < 8);
    }
}

#[test]
fn extract_pairs_the_loudest_bins() {
    // bin 2 is loudest in frame 0, bin 0 in frame 1
    let spectrogram = match Spectrogram::new(vec![vec![1, 9], vec![2, 3], vec![8, 4]]) {
        Ok(spectrogram) => spectrogram,
        Err(error) => panic!("refused: {:?}", error),
    };
    let fingerprint = extract_landmarks(&spectrogram, 1, 2);
    assert_eq!(
        fingerprint,
        LandmarkFingerprint {
            entries: vec![entry(2, 0, 1, 0), entry(1, 0, 1, 0), entry(0, 0, 1, 0)],
        }
    );
}

#[test]
fn a_fingerprint_clones_to_an_equal_one() {
    let fingerprint = LandmarkFingerprint { entries: vec![entry(1, 2, 3, 4), entry(5, 6, 7, 8)] };
    assert_eq!(fingerprint.clone(), fingerprint);
}
