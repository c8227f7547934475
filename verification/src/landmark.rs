//! Landmark fingerprints: peaks paired with the peaks that follow them.

use crate::peaks::{find_peaks, peak_rows, peak_table, TOP_N};
use crate::spectrogram::{Spectrogram, MAX_FRAMES};
use vstd::prelude::*;

verus! {

/// How many peaks of a later frame each peak is paired with, where the caller
/// has no other wish.
pub const FAN_VALUE: usize = 5;

/// How far ahead pairing looks, where the caller has no other wish: a peak at
/// frame `t` is paired with peaks of the frames after `t` and before
/// `t + LOOKAHEAD`.
pub const LOOKAHEAD: u16 = 9;

/// One landmark: a peak at bin `f1` of frame `anchor_time`, and a peak at bin
/// `f2` that follows it `delta_t` frames later.
#[derive(Clone, Copy, Debug, PartialEq, Eq, Hash, Structural)]
pub struct HashEntry {
    pub f1: u16,
    pub f2: u16,
    pub delta_t: u16,
    pub anchor_time: u32,
}

/// The landmarks of one recording. Their order carries no meaning.
#[derive(Debug, PartialEq, Eq)]
pub struct LandmarkFingerprint {
    pub entries: Vec<HashEntry>,
}

impl Clone for LandmarkFingerprint {
    fn clone(&self) -> (copy: Self)
        ensures
            copy@ == self@,
    {
        LandmarkFingerprint { entries: self.entries.clone() }
    }
}

impl View for LandmarkFingerprint {
    type V = Seq<HashEntry>;

    open spec fn view(&self) -> Seq<HashEntry> {
        self.entries@
    }
}

/// Number of later frames that the peaks of `frame` are paired with: those
/// less than `lookahead` frames away, as far as the recording goes.
pub open spec fn reach(frames: int, frame: int, lookahead: int) -> int {
    let ahead = lookahead - 1;
    let left = frames - 1 - frame;
    let least = if ahead <= left {
        ahead
    } else {
        left
    };
    if least < 0 {
        0
    } else {
        least
    }
}

/// Number of peaks of a later frame that one peak is paired with.
pub open spec fn fan_of(targets: int, fan_value: int) -> int {
    if fan_value <= targets {
        fan_value
    } else {
        targets
    }
}

/// The landmark from peak number `peak` of `frame` to peak number `target`
/// of the frame `delta` later.
pub open spec fn pairing(peaks: Seq<Seq<u16>>, frame: int, peak: int, delta: int, target: int) -> HashEntry {
    HashEntry {
        f1: peaks[frame][peak],
        f2: peaks[frame + delta][target],
        delta_t: delta as u16,
        anchor_time: frame as u32,
    }
}

/// The landmarks from one peak to the first `fan_value` peaks of the frame
/// `delta` later, in the order of those peaks.
pub open spec fn pairs_at_delta(
    peaks: Seq<Seq<u16>>,
    fan_value: int,
    frame: int,
    peak: int,
    delta: int,
) -> Seq<HashEntry> {
    Seq::new(
        fan_of(peaks[frame + delta].len() as int, fan_value) as nat,
        |target: int| pairing(peaks, frame, peak, delta, target),
    )
}

/// The landmark lists of one peak for the nearest `steps` later frames.
pub open spec fn delta_rows(
    peaks: Seq<Seq<u16>>,
    fan_value: int,
    frame: int,
    peak: int,
    steps: int,
) -> Seq<Seq<HashEntry>> {
    Seq::new(steps as nat, |step: int| pairs_at_delta(peaks, fan_value, frame, peak, step + 1))
}

/// The landmarks that start at one peak, nearest frame first.
pub open spec fn pairs_of_peak(
    peaks: Seq<Seq<u16>>,
    fan_value: int,
    lookahead: int,
    frame: int,
    peak: int,
) -> Seq<HashEntry> {
    delta_rows(peaks, fan_value, frame, peak, reach(peaks.len() as int, frame, lookahead)).flatten()
}

/// The landmark lists of the first `count` peaks of a frame.
pub open spec fn peak_lists(
    peaks: Seq<Seq<u16>>,
    fan_value: int,
    lookahead: int,
    frame: int,
    count: int,
) -> Seq<Seq<HashEntry>> {
    Seq::new(count as nat, |peak: int| pairs_of_peak(peaks, fan_value, lookahead, frame, peak))
}

/// The landmarks that start in one frame, peak by peak.
pub open spec fn pairs_of_frame(
    peaks: Seq<Seq<u16>>,
    fan_value: int,
    lookahead: int,
    frame: int,
) -> Seq<HashEntry> {
    peak_lists(peaks, fan_value, lookahead, frame, peaks[frame].len() as int).flatten()
}

/// The landmark lists of the first `count` frames.
pub open spec fn frame_lists(
    peaks: Seq<Seq<u16>>,
    fan_value: int,
    lookahead: int,
    count: int,
) -> Seq<Seq<HashEntry>> {
    Seq::new(count as nat, |frame: int| pairs_of_frame(peaks, fan_value, lookahead, frame))
}

/// All landmarks of a table of peaks: every peak paired with the first
/// `fan_value` peaks of each of the frames that follow it less than
/// `lookahead` frames later; frame by frame, peak by peak, nearest frame
/// first.
pub open spec fn landmark_entries(peaks: Seq<Seq<u16>>, fan_value: int, lookahead: int) -> Seq<
    HashEntry,
> {
    frame_lists(peaks, fan_value, lookahead, peaks.len() as int).flatten()
}

proof fn lemma_delta_rows_step(peaks: Seq<Seq<u16>>, fan_value: int, frame: int, peak: int, steps: int)
    requires
        steps >= 0,
    ensures
        delta_rows(peaks, fan_value, frame, peak, steps + 1).flatten() == delta_rows(
            peaks,
            fan_value,
            frame,
            peak,
            steps,
        ).flatten() + pairs_at_delta(peaks, fan_value, frame, peak, steps + 1),
{
    let shorter = delta_rows(peaks, fan_value, frame, peak, steps);
    let last = pairs_at_delta(peaks, fan_value, frame, peak, steps + 1);
    assert(delta_rows(peaks, fan_value, frame, peak, steps + 1) =~= shorter.push(last));
    shorter.lemma_flatten_push(last);
}

proof fn lemma_peak_lists_step(peaks: Seq<Seq<u16>>, fan_value: int, lookahead: int, frame: int, count: int)
    requires
        count >= 0,
    ensures
        peak_lists(peaks, fan_value, lookahead, frame, count + 1).flatten() == peak_lists(
            peaks,
            fan_value,
            lookahead,
            frame,
            count,
        ).flatten() + pairs_of_peak(peaks, fan_value, lookahead, frame, count),
{
    let shorter = peak_lists(peaks, fan_value, lookahead, frame, count);
    let last = pairs_of_peak(peaks, fan_value, lookahead, frame, count);
    assert(peak_lists(peaks, fan_value, lookahead, frame, count + 1) =~= shorter.push(last));
    shorter.lemma_flatten_push(last);
}

proof fn lemma_frame_lists_step(peaks: Seq<Seq<u16>>, fan_value: int, lookahead: int, count: int)
    requires
        count >= 0,
    ensures
        frame_lists(peaks, fan_value, lookahead, count + 1).flatten() == frame_lists(
            peaks,
            fan_value,
            lookahead,
            count,
        ).flatten() + pairs_of_frame(peaks, fan_value, lookahead, count),
{
    let shorter = frame_lists(peaks, fan_value, lookahead, count);
    let last = pairs_of_frame(peaks, fan_value, lookahead, count);
    assert(frame_lists(peaks, fan_value, lookahead, count + 1) =~= shorter.push(last));
    shorter.lemma_flatten_push(last);
}

/// Pairs the peaks of a table into landmarks.
pub fn pair_peaks(table: &Vec<Vec<u16>>, fan_value: usize, lookahead: u16) -> (entries: Vec<HashEntry>)
    requires
        table@.len() <= MAX_FRAMES,
    ensures
        entries@ == landmark_entries(peak_rows(table@), fan_value as int, lookahead as int),
{
    let ghost peaks = peak_rows(table@);
    let ghost fan = fan_value as int;
    let ghost look = lookahead as int;
    let frames = table.len();
    let mut entries: Vec<HashEntry> = Vec::new();
    let mut frame: usize = 0;
    while frame < frames
        invariant
            frame <= frames,
            frames == table@.len(),
            frames <= MAX_FRAMES,
            peaks == peak_rows(table@),
            fan == fan_value as int,
            look == lookahead as int,
            entries@ == frame_lists(peaks, fan, look, frame as int).flatten(),
        decreases frames - frame,
    {
        let ghost done_frames = entries@;
        let sources = &table[frame];
        let last = if (lookahead as usize) <= frames - frame {
            frame + lookahead as usize
        } else {
            frames
        };
        let steps = if last > frame + 1 {
            last - (frame + 1)
        } else {
            0
        };
        let mut peak: usize = 0;
        while peak < sources.len()
            invariant
                peak <= sources.len(),
                frame < frames,
                frames == table@.len(),
                frames <= MAX_FRAMES,
                peaks == peak_rows(table@),
                peaks[frame as int] == sources@,
                fan == fan_value as int,
                look == lookahead as int,
                steps == reach(frames as int, frame as int, look),
                steps < 0x1_0000,
                frame + steps < frames,
                entries@ == done_frames + peak_lists(
                    peaks,
                    fan,
                    look,
                    frame as int,
                    peak as int,
                ).flatten(),
            decreases sources.len() - peak,
        {
            let ghost done_peaks = entries@;
            let f1 = sources[peak];
            let mut step: usize = 0;
            assert(delta_rows(peaks, fan, frame as int, peak as int, 0).flatten()
                =~= Seq::<HashEntry>::empty());
            while step < steps
                invariant
                    step <= steps,
                    peak < sources.len(),
                    frame < frames,
                    frames == table@.len(),
                    frames <= MAX_FRAMES,
                    peaks == peak_rows(table@),
                    peaks[frame as int] == sources@,
                    f1 == sources@[peak as int],
                    fan == fan_value as int,
                    steps < 0x1_0000,
                    frame + steps < frames,
                    entries@ == done_peaks + delta_rows(
                        peaks,
                        fan,
                        frame as int,
                        peak as int,
                        step as int,
                    ).flatten(),
                decreases steps - step,
            {
                let ghost done_steps = entries@;
                let delta = step + 1;
                let targets = &table[frame + delta];
                let width = if fan_value <= targets.len() {
                    fan_value
                } else {
                    targets.len()
                };
                let mut target: usize = 0;
                while target < width
                    invariant
                        target <= width,
                        width == fan_of(targets@.len() as int, fan),
                        peak < sources.len(),
                        frame < frames,
                        frames <= MAX_FRAMES,
                        delta == step + 1,
                        delta < 0x1_0000,
                        frame + delta < peaks.len(),
                        peaks[frame as int] == sources@,
                        peaks[frame + delta] == targets@,
                        f1 == sources@[peak as int],
                        entries@ == done_steps + Seq::new(
                            target as nat,
                            |target: int| pairing(peaks, frame as int, peak as int, delta as int, target),
                        ),
                    decreases width - target,
                {
                    let ghost so_far = entries@;
                    entries.push(
                        HashEntry {
                            f1,
                            f2: targets[target],
                            delta_t: delta as u16,
                            anchor_time: frame as u32,
                        },
                    );
                    assert(entries@ =~= done_steps + Seq::new(
                        (target + 1) as nat,
                        |target: int| pairing(peaks, frame as int, peak as int, delta as int, target),
                    ));
                    target += 1;
                }
                proof {
                    assert(entries@ == done_steps + pairs_at_delta(
                        peaks,
                        fan,
                        frame as int,
                        peak as int,
                        delta as int,
                    ));
                    lemma_delta_rows_step(peaks, fan, frame as int, peak as int, step as int);
                    assert(entries@ =~= done_peaks + delta_rows(
                        peaks,
                        fan,
                        frame as int,
                        peak as int,
                        step + 1,
                    ).flatten());
                }
                step += 1;
            }
            proof {
                lemma_peak_lists_step(peaks, fan, look, frame as int, peak as int);
                assert(entries@ =~= done_frames + peak_lists(
                    peaks,
                    fan,
                    look,
                    frame as int,
                    peak + 1,
                ).flatten());
            }
            peak += 1;
        }
        proof {
            lemma_frame_lists_step(peaks, fan, look, frame as int);
        }
        frame += 1;
    }
    entries
}

/// Derives the landmark fingerprint of a spectrogram: the `TOP_N` loudest
/// bins of every frame, paired as `landmark_entries` says.
pub fn extract_landmarks(spectrogram: &Spectrogram, fan_value: usize, lookahead: u16) -> (fingerprint:
    LandmarkFingerprint)
    ensures
        fingerprint@ == landmark_entries(
            peak_table(spectrogram@, TOP_N as nat),
            fan_value as int,
            lookahead as int,
        ),
{
    let table = find_peaks(spectrogram, TOP_N);
    LandmarkFingerprint { entries: pair_peaks(&table, fan_value, lookahead) }
}

} // verus!
