use phantasy::dense::{dense_last_start, select_dense_match};
use phantasy::landmark::{extract_landmarks, LandmarkFingerprint, FAN_VALUE, LOOKAHEAD};
use phantasy::matcher::match_landmark;
use phantasy::spectrogram::{frame_range, plan_spectrogram, Spectrogram};
use rustfft::num_complex::Complex;
use rustfft::FftPlanner;

const SAMPLE_RATE: usize = 48_000;
const HOP: usize = 512;

/// Uniform noise between -0.5 and 0.5.
fn noise(samples: usize, seed: u64) -> Vec<f32> {
    let mut state = seed;
    let mut pcm = Vec::with_capacity(samples);
    for _ in 0..samples {
        state = state
            .wrapping_mul(6_364_136_223_846_793_005)
            .wrapping_add(1_442_695_040_888_963_407);
        pcm.push((state >> 40) as f32 / 16_777_216.0 - 0.5);
    }
    pcm
}

/// A run of notes of 4096 samples, each a chord of five tones that no other
/// note has.
fn melody(samples: usize) -> Vec<f32> {
    let weights = [1.0f64, 0.9, 0.8, 0.7, 0.6];
    let mut pcm = Vec::with_capacity(samples);
    for n in 0..samples {
        let note = n / 4096;
        let mut sample = 0.0f64;
        for tone in 0..5 {
            let bin = 20 + (7 * note + 97 * tone) % 470;
            let phase = 2.0 * std::f64::consts::PI * (bin as f64) * (n as f64) / 1024.0;
            sample += 0.15 * weights[tone] * phase.sin();
        }
        pcm.push(sample as f32);
    }
    pcm
}

/// Five seconds of noise, the snippet, five seconds of noise.
fn track_around(snippet: &[f32]) -> Vec<f32> {
    let mut track = noise(5 * SAMPLE_RATE, 1);
    track.extend_from_slice(snippet);
    track.extend(noise(5 * SAMPLE_RATE, 2));
    track
}

/// Magnitudes of the windowed transform, bin by bin.
fn magnitudes(pcm: &[f32], window: usize, hop: usize) -> Vec<Vec<f32>> {
    let shape = match plan_spectrogram(pcm.len(), window, hop) {
        Ok(shape) => shape,
        Err(error) => panic!("no frames: {:?}", error),
    };
    let mut planner = FftPlanner::<f32>::new();
    let fft = planner.plan_fft_forward(window);
    let hann: Vec<f32> = (0..window)
        .map(|i| {
            (0.5 - 0.5 * (2.0 * std::f64::consts::PI * i as f64 / window as f64).cos()) as f32
        })
        .collect();
    let mut rows = vec![vec![0.0f32; shape.frames]; shape.bins];
    let mut buffer = vec![Complex::new(0.0f32, 0.0f32); window];
    for frame in 0..shape.frames {
        let (start, end) = frame_range(pcm.len(), window, hop, frame);
        assert_eq!(end - start, window);
        for i in 0..window {
            buffer[i] = Complex::new(pcm[start + i] * hann[i], 0.0);
        }
        fft.process(&mut buffer);
        for bin in 0..shape.bins {
            let value = buffer[bin];
            rows[bin][frame] = (value.re * value.re + value.im * value.im).sqrt();
        }
    }
    rows
}

/// The levels of a matrix of magnitudes: the bits of a magnitude that is not
/// negative order as the magnitude does.
fn spectrogram_of(rows: &Vec<Vec<f32>>) -> Spectrogram {
    let levels: Vec<Vec<u32>> = rows
        .iter()
        .map(|row| {
            row.iter()
                .map(|magnitude| {
                    assert!(*magnitude >= 0.0);
                    (*magnitude + 0.0).to_bits()
                })
                .collect()
        })
        .collect();
    match Spectrogram::new(levels) {
        Ok(spectrogram) => spectrogram,
        Err(error) => panic!("refused: {:?}", error),
    }
}

fn fingerprint_of(pcm: &[f32]) -> LandmarkFingerprint {
    let rows = magnitudes(pcm, 1024, HOP);
    extract_landmarks(&spectrogram_of(&rows), FAN_VALUE, LOOKAHEAD)
}

/// The level of a score: an integer that orders as the score does.
fn score_level(score: f32) -> i64 {
    let bits = (score + 0.0).to_bits() as i32;
    if bits < 0 {
        (bits ^ 0x7fff_ffff) as i64
    } else {
        bits as i64
    }
}

fn seconds(offset_frames: i64) -> f32 {
    offset_frames as f32 * HOP as f32 / SAMPLE_RATE as f32
}

#[test]
fn landmark_matching_recovers_the_offset_of_the_snippet() {
    let snippet = melody(2 * SAMPLE_RATE);
    let track = track_around(&snippet);
    assert_eq!(track.len(), 12 * SAMPLE_RATE);
    let snippet_fp = fingerprint_of(&snippet);
    let track_fp = fingerprint_of(&track);
    assert!(!snippet_fp.entries.is_empty());
    let found = match match_landmark(&snippet_fp, &track_fp) {
        Some(found) => found,
        None => panic!("the snippet was not found"),
    };
    assert!(found.collisions > 5);
    let one_hop = HOP as f32 / SAMPLE_RATE as f32;
    assert!(
        (seconds(found.offset_frames) - 5.0).abs() <= one_hop,
        "found at frame {}",
        found.offset_frames
    );
}

#[test]
fn landmark_matching_finds_a_track_in_itself() {
    let track = track_around(&melody(SAMPLE_RATE / 2));
    let fingerprint = fingerprint_of(&track[..3 * SAMPLE_RATE]);
    let found = match match_landmark(&fingerprint, &fingerprint) {
        Some(found) => found,
        None => panic!("the track was not found in itself"),
    };
    assert_eq!(found.offset_frames, 0);
    assert!(found.collisions >= fingerprint.entries.len() as u128);
}

#[test]
fn landmark_matching_does_not_find_the_snippet_in_noise() {
    let snippet_fp = fingerprint_of(&melody(SAMPLE_RATE / 4));
    let noise_fp = fingerprint_of(&noise(SAMPLE_RATE / 2, 3));
    assert_eq!(match_landmark(&snippet_fp, &noise_fp), None);
}

/// Cosine similarity of the snippet and the part of the track that begins
/// at `column`; 0 where either is all but silent.
fn similarity(snippet: &Vec<Vec<f32>>, track: &Vec<Vec<f32>>, column: usize) -> f32 {
    let frames = snippet[0].len();
    let mut dot = 0.0f32;
    let mut snippet_norm = 0.0f32;
    let mut track_norm = 0.0f32;
    for bin in 0..snippet.len() {
        let ours = &snippet[bin];
        let theirs = &track[bin][column..column + frames];
        for frame in 0..frames {
            dot += ours[frame] * theirs[frame];
            snippet_norm += ours[frame] * ours[frame];
            track_norm += theirs[frame] * theirs[frame];
        }
    }
    let norms = snippet_norm.sqrt() * track_norm.sqrt();
    if norms < 1e-12 {
        0.0
    } else {
        dot / norms
    }
}

#[test]
fn dense_matching_recovers_the_offset_of_the_snippet() {
    let snippet = melody(2 * SAMPLE_RATE);
    let track = track_around(&snippet);
    let snippet_rows = magnitudes(&snippet, 256, HOP);
    let track_rows = magnitudes(&track, 256, HOP);
    let last = match dense_last_start(snippet_rows[0].len(), track_rows[0].len()) {
        Some(last) => last,
        None => panic!("the snippet does not fit"),
    };
    assert_eq!(last, 1125 - 188);
    let scores: Vec<i64> = (0..=last)
        .map(|column| score_level(similarity(&snippet_rows, &track_rows, column)))
        .collect();
    let found = match select_dense_match(&scores, score_level(0.5)) {
        Some(found) => found,
        None => panic!("the snippet was not found"),
    };
    let one_hop = HOP as f32 / SAMPLE_RATE as f32;
    assert!(
        (seconds(found.column as i64) - 5.0).abs() <= one_hop,
        "found at column {}",
        found.column
    );
    assert!(found.score >= score_level(0.5));
}

#[test]
fn dense_matching_finds_a_track_in_itself_with_score_one() {
    let track = track_around(&melody(SAMPLE_RATE / 4));
    let rows = magnitudes(&track[..SAMPLE_RATE], 2048, HOP);
    let last = dense_last_start(rows[0].len(), rows[0].len());
    assert_eq!(last, Some(0));
    let score = similarity(&rows, &rows, 0);
    assert!((score - 1.0).abs() < 1e-3);
    let found = match select_dense_match(&vec![score_level(score)], score_level(0.5)) {
        Some(found) => found,
        None => panic!("the track was not found in itself"),
    };
    assert_eq!(found.column, 0);
    assert_eq!(found.score, score_level(score));
}

#[test]
fn score_levels_order_as_scores() {
    let scores = [-1.0f32, -0.5, -0.0, 0.0, 0.25, 0.5, 0.999, 1.0];
    for pair in scores.windows(2) {
        assert!(score_level(pair[0]) <= score_level(pair[1]));
        if pair[0] < pair[1] {
            assert!(score_level(pair[0]) < score_level(pair[1]));
        }
    }
    assert_eq!(score_level(0.5), 0x3f00_0000);
}
