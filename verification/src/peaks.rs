//! Spectral peaks: the loudest bins of each frame.

use crate::spectrogram::{column, matrix_frames, Spectrogram, MAX_FRAMES};
use vstd::prelude::*;

verus! {

/// How many peaks are kept per frame where the caller has no other wish.
pub const TOP_N: usize = 5;

/// Bin `a` outranks bin `b` in a column when it is louder, or as loud and
/// lower in frequency.
pub open spec fn outranks(column: Seq<u32>, a: int, b: int) -> bool {
    column[a] > column[b] || (column[a] == column[b] && a < b)
}

/// Whether `bin` is one of `peaks`.
pub open spec fn holds(peaks: Seq<u16>, bin: int) -> bool {
    exists|k: int| 0 <= k < peaks.len() && #[trigger] peaks[k] == bin
}

/// `peaks` are the `top_n` best of the first `seen` bins of a column, best
/// first: each outranks the next, and every one outranks each bin left out.
/// With fewer than `top_n` bins, all of them are peaks.
pub open spec fn is_top_of_prefix(column: Seq<u32>, seen: int, top_n: nat, peaks: Seq<u16>) -> bool {
    &&& peaks.len() == if top_n <= seen { top_n as int } else { seen }
    &&& forall|k: int| 0 <= k < peaks.len() ==> (#[trigger] peaks[k]) < seen
    &&& forall|i: int, j: int|
        #![trigger peaks[i], peaks[j]]
        0 <= i < j < peaks.len() ==> outranks(column, peaks[i] as int, peaks[j] as int)
    &&& forall|k: int, bin: int|
        #![trigger peaks[k], holds(peaks, bin)]
        0 <= k < peaks.len() && 0 <= bin < seen && !holds(peaks, bin) ==> outranks(
            column,
            peaks[k] as int,
            bin,
        )
}

/// `peaks` are the `top_n` best bins of a column, best first.
pub open spec fn is_top_peaks(column: Seq<u32>, top_n: nat, peaks: Seq<u16>) -> bool {
    is_top_of_prefix(column, column.len() as int, top_n, peaks)
}

/// The `top_n` best bins of a column, best first.
pub open spec fn top_peaks(column: Seq<u32>, top_n: nat) -> Seq<u16> {
    choose|peaks: Seq<u16>| is_top_peaks(column, top_n, peaks)
}

/// The peaks of every frame of a matrix.
pub open spec fn peak_table(levels: Seq<Seq<u32>>, top_n: nat) -> Seq<Seq<u16>> {
    Seq::new(matrix_frames(levels), |frame: int| top_peaks(column(levels, frame), top_n))
}

/// The rows that a vector of peak lists holds.
pub open spec fn peak_rows(table: Seq<Vec<u16>>) -> Seq<Seq<u16>> {
    Seq::new(table.len(), |frame: int| table[frame]@)
}

/// A column has one list of top peaks and no other.
pub proof fn lemma_top_peaks_unique(column: Seq<u32>, top_n: nat, first: Seq<u16>, second: Seq<u16>)
    requires
        is_top_peaks(column, top_n, first),
        is_top_peaks(column, top_n, second),
    ensures
        first == second,
{
    assert forall|k: int| 0 <= k < first.len() implies first[k] == second[k] by {
        lemma_same_up_to(column, top_n, first, second, k);
    }
}

proof fn lemma_same_up_to(column: Seq<u32>, top_n: nat, first: Seq<u16>, second: Seq<u16>, k: int)
    requires
        is_top_peaks(column, top_n, first),
        is_top_peaks(column, top_n, second),
        0 <= k < first.len(),
    ensures
        first[k] == second[k],
    decreases k,
{
    assert forall|i: int| 0 <= i < k implies first[i] == second[i] by {
        lemma_same_up_to(column, top_n, first, second, i);
    }
    if first[k] != second[k] {
        if outranks(column, first[k] as int, second[k] as int) {
            lemma_not_outranked_by_later(column, top_n, second, first, k);
        } else {
            lemma_not_outranked_by_later(column, top_n, first, second, k);
        }
    }
}

/// If two peak lists agree before `k`, the `k`-th of `other` does not outrank
/// the `k`-th of `peaks` unless they are the same bin.
proof fn lemma_not_outranked_by_later(
    column: Seq<u32>,
    top_n: nat,
    peaks: Seq<u16>,
    other: Seq<u16>,
    k: int,
)
    requires
        is_top_peaks(column, top_n, peaks),
        is_top_peaks(column, top_n, other),
        0 <= k < peaks.len(),
        forall|i: int| 0 <= i < k ==> peaks[i] == other[i],
        peaks[k] != other[k],
    ensures
        !outranks(column, other[k] as int, peaks[k] as int),
{
    let challenger = other[k];
    if outranks(column, challenger as int, peaks[k] as int) {
        if holds(peaks, challenger as int) {
            let at = choose|at: int| 0 <= at < peaks.len() && peaks[at] == challenger;
            if at < k {
                assert(outranks(column, other[at] as int, other[k] as int));
            } else {
                assert(outranks(column, peaks[k] as int, peaks[at] as int));
            }
        } else {
            assert(outranks(column, peaks[k] as int, challenger as int));
        }
    }
}

/// The `top_n` best bins of one frame, best first.
fn column_peaks(spectrogram: &Spectrogram, frame: usize, top_n: usize) -> (peaks: Vec<u16>)
    requires
        frame < matrix_frames(spectrogram@),
    ensures
        peaks@ == top_peaks(column(spectrogram@, frame as int), top_n as nat),
        is_top_peaks(column(spectrogram@, frame as int), top_n as nat, peaks@),
{
    let bins = spectrogram.bin_count();
    let ghost levels = column(spectrogram@, frame as int);
    let mut peaks: Vec<u16> = Vec::new();
    let mut bin: usize = 0;
    while bin < bins
        invariant
            bin <= bins,
            bins == spectrogram@.len(),
            bins == levels.len(),
            bins <= 0x1_0000,
            frame < matrix_frames(spectrogram@),
            levels == column(spectrogram@, frame as int),
            is_top_of_prefix(levels, bin as int, top_n as nat, peaks@),
        decreases bins - bin,
    {
        let level = spectrogram.level(bin, frame);
        let mut at: usize = 0;
        while at < peaks.len() && spectrogram.level(peaks[at] as usize, frame) >= level
            invariant
                at <= peaks.len(),
                bin < bins,
                bins == spectrogram@.len(),
                bins == levels.len(),
                frame < matrix_frames(spectrogram@),
                levels == column(spectrogram@, frame as int),
                level == levels[bin as int],
                is_top_of_prefix(levels, bin as int, top_n as nat, peaks@),
                forall|k: int| 0 <= k < at ==> levels[(#[trigger] peaks@[k]) as int] >= level,
            decreases peaks.len() - at,
        {
            at += 1;
        }
        let ghost before = peaks@;
        proof {
            assert forall|k: int| at <= k < before.len() implies outranks(
                levels,
                bin as int,
                (#[trigger] before[k]) as int,
            ) by {}
        }
        if at < top_n {
            peaks.insert(at, bin as u16);
            let ghost grown = peaks@;
            proof {
                assert forall|g: int| holds(before, g) implies holds(grown, g) by {
                    let k = choose|k: int| 0 <= k < before.len() && before[k] == g;
                    if k < at {
                        assert(grown[k] == g);
                    } else {
                        assert(grown[k + 1] == g);
                    }
                }
                assert(grown[at as int] == bin);
                assert forall|i: int, j: int| 0 <= i < j < grown.len() implies outranks(
                    levels,
                    grown[i] as int,
                    grown[j] as int,
                ) by {
                    if j < at {
                        assert(outranks(levels, before[i] as int, before[j] as int));
                    } else if j == at {
                        assert(levels[before[i] as int] >= level);
                    } else if i < at {
                        assert(outranks(levels, before[i] as int, before[j - 1] as int));
                    } else if i == at {
                        assert(outranks(levels, bin as int, before[j - 1] as int));
                    } else {
                        assert(outranks(levels, before[i - 1] as int, before[j - 1] as int));
                    }
                }
                assert forall|k: int, other: int|
                    0 <= k < grown.len() && 0 <= other < bin + 1 && !holds(
                        grown,
                        other,
                    ) implies outranks(levels, grown[k] as int, other) by {
                    if k < at {
                        assert(outranks(levels, before[k] as int, other));
                    } else if k == at {
                        if at < before.len() {
                            assert(outranks(levels, before[at as int] as int, other));
                        } else {
                            lemma_full_prefix_holds_all(levels, bin as int, top_n as nat, before, other);
                        }
                    } else {
                        assert(outranks(levels, before[k - 1] as int, other));
                    }
                }
            }
            if peaks.len() > top_n {
                peaks.pop();
                proof {
                    let kept = peaks@;
                    assert forall|k: int, other: int|
                        0 <= k < kept.len() && 0 <= other < bin + 1 && !holds(
                            kept,
                            other,
                        ) implies outranks(levels, kept[k] as int, other) by {
                        if holds(grown, other) {
                            let g = choose|g: int| 0 <= g < grown.len() && grown[g] == other;
                            if g < kept.len() {
                                assert(kept[g] == other);
                            }
                        } else {
                            assert(outranks(levels, grown[k] as int, other));
                        }
                    }
                }
            }
        } else {
            proof {
                assert forall|k: int, other: int|
                    0 <= k < before.len() && 0 <= other < bin + 1 && !holds(
                        before,
                        other,
                    ) implies outranks(levels, before[k] as int, other) by {
                    if other == bin {
                        assert(levels[before[k] as int] >= level);
                    } else {
                        assert(outranks(levels, before[k] as int, other));
                    }
                }
            }
        }
        bin += 1;
    }
    proof {
        lemma_top_peaks_exist(levels, top_n as nat, peaks@);
    }
    peaks
}

/// While fewer than `top_n` bins were seen, every bin seen is a peak.
proof fn lemma_full_prefix_holds_all(column: Seq<u32>, seen: int, top_n: nat, peaks: Seq<u16>, bin: int)
    requires
        is_top_of_prefix(column, seen, top_n, peaks),
        0 <= bin < seen <= column.len(),
        !holds(peaks, bin),
    ensures
        peaks.len() == top_n,
        peaks.len() < seen,
{
    if peaks.len() == seen {
        lemma_distinct_below(column, seen, top_n, peaks, bin);
    }
}

/// A strictly ranked list of `seen` bins below `seen` holds each of them.
proof fn lemma_distinct_below(column: Seq<u32>, seen: int, top_n: nat, peaks: Seq<u16>, bin: int)
    requires
        is_top_of_prefix(column, seen, top_n, peaks),
        peaks.len() == seen,
        0 <= bin < seen,
    ensures
        holds(peaks, bin),
{
    let bins = peaks.map_values(|p: u16| p as int);
    assert forall|i: int, j: int| 0 <= i < bins.len() && 0 <= j < bins.len() && i != j implies bins[i]
        != bins[j] by {
        if i < j {
            assert(outranks(column, peaks[i] as int, peaks[j] as int));
        } else {
            assert(outranks(column, peaks[j] as int, peaks[i] as int));
        }
    }
    bins.unique_seq_to_set();
    let range = Set::new(|b: int| 0 <= b < seen);
    vstd::set_lib::lemma_int_range(0, seen);
    assert(range =~= vstd::set_lib::set_int_range(0, seen));
    assert(bins.to_set().subset_of(range)) by {
        assert forall|b: int| bins.to_set().contains(b) implies range.contains(b) by {
            let k = choose|k: int| 0 <= k < bins.len() && bins[k] == b;
        }
    }
    vstd::set_lib::lemma_subset_equality(bins.to_set(), range);
    assert(bins.to_set().contains(bin));
    let k = choose|k: int| 0 <= k < bins.len() && bins[k] == bin;
}

/// What satisfies `is_top_peaks` is what `top_peaks` names.
proof fn lemma_top_peaks_exist(column: Seq<u32>, top_n: nat, peaks: Seq<u16>)
    requires
        is_top_peaks(column, top_n, peaks),
    ensures
        peaks == top_peaks(column, top_n),
{
    lemma_top_peaks_unique(column, top_n, peaks, top_peaks(column, top_n));
}

/// Picks, for every frame, the `top_n` loudest bins, loudest first; of two
/// equally loud bins the lower comes first.
pub fn find_peaks(spectrogram: &Spectrogram, top_n: usize) -> (table: Vec<Vec<u16>>)
    ensures
        peak_rows(table@) == peak_table(spectrogram@, top_n as nat),
        table@.len() == matrix_frames(spectrogram@),
        table@.len() <= MAX_FRAMES,
        forall|frame: int|
            0 <= frame < table@.len() ==> is_top_peaks(
                column(spectrogram@, frame),
                top_n as nat,
                #[trigger] table@[frame]@,
            ),
{
    let frames = spectrogram.frame_count();
    let mut table: Vec<Vec<u16>> = Vec::new();
    let mut frame: usize = 0;
    while frame < frames
        invariant
            frame <= frames,
            frames == matrix_frames(spectrogram@),
            table@.len() == frame,
            forall|t: int|
                0 <= t < frame ==> (#[trigger] table@[t])@ == top_peaks(
                    column(spectrogram@, t),
                    top_n as nat,
                ),
            forall|t: int|
                0 <= t < frame ==> is_top_peaks(
                    column(spectrogram@, t),
                    top_n as nat,
                    #[trigger] table@[t]@,
                ),
        decreases frames - frame,
    {
        let peaks = column_peaks(spectrogram, frame, top_n);
        table.push(peaks);
        frame += 1;
    }
    table
}

} // verus!
