use phantasy::spectrogram::{
    bin_count, frame_count, frame_range, plan_spectrogram, snippet_range, Spectrogram,
    SpectrogramError, SpectrogramShape, MAX_BINS, MAX_FRAMES,
};

#[test]
fn spectrogram_limits() {
    assert_eq!(MAX_BINS, 65_536);
    assert_eq!(MAX_FRAMES, 4_294_967_296);
}

#[test]
fn a_snippet_is_cut_to_the_signal() {
    assert_eq!(snippet_range(480_000, 48_000, 144_000), (48_000, 144_000));
    assert_eq!(snippet_range(100_000, 48_000, 144_000), (48_000, 100_000));
    assert_eq!(snippet_range(10, 48_000, 144_000), (10, 10));
    assert_eq!(snippet_range(10, 0, 0), (0, 0));
    assert_eq!(snippet_range(0, 0, usize::MAX), (0, 0));
    assert_eq!(snippet_range(10, 4, 10), (4, 10));
    assert_eq!(snippet_range(10, 8, 3), (8, 3));
    assert_eq!(snippet_range(10, 80, 30), (10, 10));
}

#[test]
fn frame_count_follows_the_formula() {
    assert_eq!(frame_count(48_000, 1024, 512), 92);
    assert_eq!(frame_count(576_000, 1024, 512), 1124);
    assert_eq!(frame_count(2048, 2048, 512), 1);
    assert_eq!(frame_count(2559, 2048, 512), 1);
    assert_eq!(frame_count(2560, 2048, 512), 2);
    assert_eq!(frame_count(10, 3, 2), 4);
}

#[test]
fn frame_count_is_zero_below_one_window() {
    assert_eq!(frame_count(0, 1024, 512), 0);
    assert_eq!(frame_count(1023, 1024, 512), 0);
    assert_eq!(frame_count(1024, 1024, 512), 1);
}

#[test]
fn frame_count_reaches_the_largest_length() {
    assert_eq!(frame_count(usize::MAX, 1, 1), usize::MAX);
}

#[test]
fn bin_count_is_half_the_window() {
    assert_eq!(bin_count(2048), 1024);
    assert_eq!(bin_count(1024), 512);
    assert_eq!(bin_count(5), 2);
    assert_eq!(bin_count(1), 0);
}

#[test]
fn frame_range_covers_one_window_per_hop() {
    assert_eq!(frame_range(48_000, 1024, 512, 0), (0, 1024));
    assert_eq!(frame_range(48_000, 1024, 512, 3), (1536, 2560));
    let last = frame_count(48_000, 1024, 512) - 1;
    let (start, end) = frame_range(48_000, 1024, 512, last);
    assert_eq!(start, 46_592);
    assert_eq!(end, 47_616);
    assert!(end <= 48_000);
    assert!(end + 512 > 48_000);
}

#[test]
fn plan_fails_on_a_signal_shorter_than_a_window() {
    assert_eq!(plan_spectrogram(1000, 1024, 512), Err(SpectrogramError::SignalTooShort));
    assert_eq!(plan_spectrogram(0, 1, 1), Err(SpectrogramError::SignalTooShort));
}

#[test]
fn plan_gives_bins_and_frames() {
    assert_eq!(
        plan_spectrogram(48_000, 1024, 512),
        Ok(SpectrogramShape { bins: 512, frames: 92 })
    );
    assert_eq!(
        plan_spectrogram(96_000, 2048, 512),
        Ok(SpectrogramShape { bins: 1024, frames: 184 })
    );
}

#[test]
fn spectrogram_keeps_the_levels_it_was_given() {
    let made = Spectrogram::new(vec![vec![1, 2, 3], vec![4, 5, 6]]);
    let spectrogram = match made {
        Ok(spectrogram) => spectrogram,
        Err(error) => panic!("refused: {:?}", error),
    };
    assert_eq!(spectrogram.bin_count(), 2);
    assert_eq!(spectrogram.frame_count(), 3);
    assert_eq!(spectrogram.level(0, 0), 1);
    assert_eq!(spectrogram.level(0, 2), 3);
    assert_eq!(spectrogram.level(1, 1), 5);
}

#[test]
fn spectrogram_may_be_empty() {
    let none = match Spectrogram::new(Vec::new()) {
        Ok(spectrogram) => spectrogram,
        Err(error) => panic!("refused: {:?}", error),
    };
    assert_eq!(none.bin_count(), 0);
    assert_eq!(none.frame_count(), 0);
    let no_frames = match Spectrogram::new(vec![Vec::new(), Vec::new()]) {
        Ok(spectrogram) => spectrogram,
        Err(error) => panic!("refused: {:?}", error),
    };
    assert_eq!(no_frames.bin_count(), 2);
    assert_eq!(no_frames.frame_count(), 0);
}

#[test]
fn spectrogram_refuses_ragged_rows() {
    let made = Spectrogram::new(vec![vec![1, 2, 3], vec![4, 5]]);
    assert_eq!(made.err(), Some(SpectrogramError::RaggedRows));
    let made = Spectrogram::new(vec![vec![1], vec![4, 5]]);
    assert_eq!(made.err(), Some(SpectrogramError::RaggedRows));
}

#[test]
fn spectrogram_refuses_too_many_bins() {
    let rows: Vec<Vec<u32>> = vec![Vec::new(); MAX_BINS + 1];
    assert_eq!(Spectrogram::new(rows).err(), Some(SpectrogramError::TooManyBins));
    let rows: Vec<Vec<u32>> = vec![Vec::new(); MAX_BINS];
    assert!(Spectrogram::new(rows).is_ok());
}
