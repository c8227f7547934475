use phantasy::landmark::{pair_peaks, HashEntry, LandmarkFingerprint};
use phantasy::matcher::{match_landmark, LandmarkMatch, COLLISION_THRESHOLD};

fn entry(f1: u16, f2: u16, delta_t: u16, anchor_time: u32) -> HashEntry {
    HashEntry { f1, f2, delta_t, anchor_time }
}

fn fingerprint(entries: Vec<HashEntry>) -> LandmarkFingerprint {
    LandmarkFingerprint { entries }
}

/// `count` landmarks with different keys, at anchors `first`, `first + 1`, ...
fn run_of(count: u16, first: u32) -> Vec<HashEntry> {
    let mut entries = Vec::new();
    for i in 0..count {
        entries.push(entry(100 + i, 200 + i, 1 + (i % 8), first + i as u32));
    }
    entries
}

#[test]
fn collision_threshold_is_five() {
    assert_eq!(COLLISION_THRESHOLD, 5);
}

#[test]
fn a_fingerprint_matches_itself_at_offset_zero() {
    let whole = fingerprint(run_of(40, 0));
    assert_eq!(
        match_landmark(&whole, &whole),
        Some(LandmarkMatch { offset_frames: 0, collisions: 40 })
    );
}

#[test]
fn self_match_counts_every_pair_of_equal_landmarks() {
    // three copies of each of four landmarks: 4 * 3 * 3 pairs at offset 0
    let mut entries = Vec::new();
    for _ in 0..3 {
        entries.extend(run_of(4, 0));
    }
    let whole = fingerprint(entries);
    assert_eq!(
        match_landmark(&whole, &whole),
        Some(LandmarkMatch { offset_frames: 0, collisions: 36 })
    );
}

#[test]
fn self_match_of_landmarks_that_repeat_in_time() {
    // one key at eight anchors: offset 0 has 8 votes, offset 1 has 7, ...
    let mut entries = Vec::new();
    for anchor in 0..8 {
        entries.push(entry(3, 4, 2, anchor));
    }
    let whole = fingerprint(entries);
    assert_eq!(
        match_landmark(&whole, &whole),
        Some(LandmarkMatch { offset_frames: 0, collisions: 8 })
    );
}

#[test]
fn five_collisions_are_no_match_six_are() {
    let five = fingerprint(run_of(5, 0));
    assert_eq!(match_landmark(&five, &five), None);
    let six = fingerprint(run_of(6, 0));
    assert_eq!(
        match_landmark(&six, &six),
        Some(LandmarkMatch { offset_frames: 0, collisions: 6 })
    );
}

#[test]
fn one_landmark_does_not_match_itself() {
    let one = fingerprint(run_of(1, 0));
    assert_eq!(match_landmark(&one, &one), None);
}

#[test]
fn finds_the_offset_of_the_snippet_in_the_track() {
    let snippet = fingerprint(run_of(10, 0));
    let mut track = Vec::new();
    track.push(entry(1, 2, 3, 0));
    track.push(entry(100, 200, 1, 5));
    track.extend(run_of(10, 469));
    track.push(entry(7, 8, 1, 900));
    let track = fingerprint(track);
    assert_eq!(
        match_landmark(&snippet, &track),
        Some(LandmarkMatch { offset_frames: 469, collisions: 10 })
    );
}

#[test]
fn the_offset_may_be_negative() {
    let snippet = fingerprint(run_of(7, 1000));
    let track = fingerprint(run_of(7, 10));
    assert_eq!(
        match_landmark(&snippet, &track),
        Some(LandmarkMatch { offset_frames: -990, collisions: 7 })
    );
}

#[test]
fn the_offset_spans_the_whole_range_of_anchors() {
    let mut low = Vec::new();
    let mut high = Vec::new();
    for i in 0..6u16 {
        low.push(entry(i, i, 1, 0));
        high.push(entry(i, i, 1, u32::MAX));
    }
    let low = fingerprint(low);
    let high = fingerprint(high);
    assert_eq!(
        match_landmark(&low, &high),
        Some(LandmarkMatch { offset_frames: 4_294_967_295, collisions: 6 })
    );
    assert_eq!(
        match_landmark(&high, &low),
        Some(LandmarkMatch { offset_frames: -4_294_967_295, collisions: 6 })
    );
}

#[test]
fn landmarks_with_other_keys_do_not_collide() {
    let snippet = fingerprint(run_of(20, 0));
    let mut others = Vec::new();
    for i in 0..20u16 {
        // same bins, another delta; same delta, other bins
        others.push(entry(100 + i, 200 + i, 9, i as u32));
        others.push(entry(200 + i, 100 + i, 1 + (i % 8), i as u32));
        others.push(entry(100 + i, 201 + i, 1 + (i % 8), i as u32));
    }
    assert_eq!(match_landmark(&snippet, &fingerprint(others)), None);
}

#[test]
fn empty_fingerprints_never_match() {
    let none = fingerprint(Vec::new());
    let some = fingerprint(run_of(30, 0));
    assert_eq!(match_landmark(&none, &none), None);
    assert_eq!(match_landmark(&some, &none), None);
    assert_eq!(match_landmark(&none, &some), None);
}

#[test]
fn a_snippet_longer_than_the_track_is_no_match() {
    // the snippet spans 300 frames, the track 4: they share four landmarks
    let snippet = fingerprint(run_of(300, 0));
    let track = fingerprint(run_of(4, 0));
    assert_eq!(match_landmark(&snippet, &track), None);
}

#[test]
fn the_most_voted_offset_wins() {
    let snippet = fingerprint(run_of(9, 0));
    let mut track = Vec::new();
    // six landmarks of the snippet 20 frames in, all nine of them 50 frames in
    track.extend(run_of(6, 20));
    track.extend(run_of(9, 50));
    assert_eq!(
        match_landmark(&snippet, &fingerprint(track)),
        Some(LandmarkMatch { offset_frames: 50, collisions: 9 })
    );
}

#[test]
fn of_two_offsets_with_as_many_votes_the_first_to_get_there_wins() {
    let snippet = fingerprint(run_of(6, 0));
    // every snippet landmark votes for 3, then for 7
    let mut track = Vec::new();
    for (i, landmark) in run_of(6, 0).iter().enumerate() {
        track.push(entry(landmark.f1, landmark.f2, landmark.delta_t, i as u32 + 3));
        track.push(entry(landmark.f1, landmark.f2, landmark.delta_t, i as u32 + 7));
    }
    assert_eq!(
        match_landmark(&snippet, &fingerprint(track)),
        Some(LandmarkMatch { offset_frames: 3, collisions: 6 })
    );
    // every snippet landmark votes for 7, then for 3
    let mut track = Vec::new();
    for (i, landmark) in run_of(6, 0).iter().enumerate() {
        track.push(entry(landmark.f1, landmark.f2, landmark.delta_t, i as u32 + 7));
        track.push(entry(landmark.f1, landmark.f2, landmark.delta_t, i as u32 + 3));
    }
    assert_eq!(
        match_landmark(&snippet, &fingerprint(track)),
        Some(LandmarkMatch { offset_frames: 7, collisions: 6 })
    );
}

#[test]
fn every_pair_of_equal_keys_votes() {
    // two snippet landmarks and three track landmarks of one key, all shifts 4
    let snippet = fingerprint(vec![entry(1, 2, 3, 10), entry(1, 2, 3, 10)]);
    let track = fingerprint(vec![entry(1, 2, 3, 14), entry(1, 2, 3, 14), entry(1, 2, 3, 14)]);
    assert_eq!(
        match_landmark(&snippet, &track),
        Some(LandmarkMatch { offset_frames: 4, collisions: 6 })
    );
}

#[test]
fn a_track_that_holds_the_peaks_of_the_snippet_is_matched_where_it_holds_them() {
    // peaks that never repeat: frame t of the snippet has the bins 5t .. 5t + 4
    let mut snippet_peaks: Vec<Vec<u16>> = Vec::new();
    for frame in 0..12u16 {
        snippet_peaks.push((0..5).map(|peak| 5 * frame + peak).collect());
    }
    // the track: 30 frames of other peaks, the snippet, 20 frames of other peaks
    let mut track_peaks: Vec<Vec<u16>> = Vec::new();
    for frame in 0..30u16 {
        track_peaks.push((0..5).map(|peak| 1000 + 5 * frame + peak).collect());
    }
    track_peaks.extend(snippet_peaks.iter().cloned());
    for frame in 0..20u16 {
        track_peaks.push((0..5).map(|peak| 2000 + 5 * frame + peak).collect());
    }
    let snippet = fingerprint(pair_peaks(&snippet_peaks, 5, 9));
    let track = fingerprint(pair_peaks(&track_peaks, 5, 9));
    // 25 pairings for each of 8 + 8 + 8 + 8 + 7 + 6 + ... + 1 + 0 pairs of frames
    assert_eq!(snippet.entries.len(), 25 * 60);
    assert_eq!(
        match_landmark(&snippet, &track),
        Some(LandmarkMatch { offset_frames: 30, collisions: 25 * 60 })
    );
}

#[test]
fn the_order_of_landmarks_does_not_change_the_match() {
    let snippet = run_of(10, 0);
    let mut track = run_of(4, 7);
    track.extend(run_of(10, 469));
    track.push(entry(1, 2, 3, 4));
    let mut snippet_reversed = snippet.clone();
    snippet_reversed.reverse();
    let mut track_rotated = track.clone();
    track_rotated.rotate_left(5);
    let expected = Some(LandmarkMatch { offset_frames: 469, collisions: 10 });
    assert_eq!(match_landmark(&fingerprint(snippet.clone()), &fingerprint(track.clone())), expected);
    assert_eq!(match_landmark(&fingerprint(snippet_reversed), &fingerprint(track)), expected);
    assert_eq!(match_landmark(&fingerprint(snippet), &fingerprint(track_rotated)), expected);
}

#[test]
fn the_offset_of_a_held_snippet_is_recovered_through_the_peaks_of_a_spectrogram() {
    use_levels_of_a_held_snippet(0);
    use_levels_of_a_held_snippet(17);
    use_levels_of_a_held_snippet(40);
}

/// A track of 60 frames whose levels hold those of a snippet of 20 frames
/// from frame `start` on; outside the snippet other bins are loud.
fn use_levels_of_a_held_snippet(start: usize) {
    let bins = 64;
    let snippet_frames = 20;
    let track_frames = 60;
    let mut snippet_rows = vec![vec![0u32; snippet_frames]; bins];
    for frame in 0..snippet_frames {
        for peak in 0..5 {
            // bins 0 .. 31, never the same five in two frames
            snippet_rows[(frame * 3 + peak * 7) % 32][frame] = 1000 - peak as u32;
        }
    }
    let mut track_rows = vec![vec![0u32; track_frames]; bins];
    for frame in 0..track_frames {
        if start <= frame && frame < start + snippet_frames {
            for bin in 0..bins {
                track_rows[bin][frame] = snippet_rows[bin][frame - start];
            }
        } else {
            for peak in 0..5 {
                // bins 32 .. 63
                track_rows[32 + (frame * 5 + peak * 3) % 32][frame] = 900 - peak as u32;
            }
        }
    }
    let snippet = match phantasy::spectrogram::Spectrogram::new(snippet_rows) {
        Ok(snippet) => snippet,
        Err(error) => panic!("refused: {:?}", error),
    };
    let track = match phantasy::spectrogram::Spectrogram::new(track_rows) {
        Ok(track) => track,
        Err(error) => panic!("refused: {:?}", error),
    };
    let snippet_fp = phantasy::landmark::extract_landmarks(&snippet, 5, 9);
    let track_fp = phantasy::landmark::extract_landmarks(&track, 5, 9);
    let with_itself = match match_landmark(&snippet_fp, &snippet_fp) {
        Some(found) => found,
        None => panic!("the snippet does not match itself"),
    };
    assert_eq!(with_itself.offset_frames, 0);
    assert_eq!(
        match_landmark(&snippet_fp, &track_fp),
        Some(LandmarkMatch { offset_frames: start as i64, collisions: with_itself.collisions })
    );
}
