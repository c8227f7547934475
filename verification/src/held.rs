//! The landmarks of a track that holds the peaks of a snippet: those that
//! lie within the frames held are the landmarks of the snippet, as many
//! frames later as the snippet begins into the track. With the laws on
//! recovery this gives the offset of every snippet whose keys the rest of
//! the track does not share.

use crate::embedding::{
    holds_levels_at, holds_peaks_at, lemma_held_levels_have_held_peaks, lemma_landmark_is_pairing,
};
use crate::landmark::{
    delta_rows, frame_lists, landmark_entries, pairs_at_delta, pairs_of_frame, pairs_of_peak,
    peak_lists, reach, HashEntry,
};
use crate::matcher::{collisions, is_landmark_match, votes, LandmarkMatch, COLLISION_THRESHOLD};
use crate::peaks::peak_table;
use crate::recovery::{lemma_held_fingerprint_is_found_at_start, moved_all, shares_no_key};
use crate::spectrogram::{matrix_frames, well_formed, MAX_FRAMES};
use vstd::prelude::*;

verus! {

/// Tells the landmarks that begin and end within the `frames` frames from
/// `start` on.
pub open spec fn lies_within(start: int, frames: int) -> spec_fn(HashEntry) -> bool {
    |entry: HashEntry|
        start <= entry.anchor_time && entry.anchor_time + entry.delta_t < start + frames
}

/// Tells the landmarks that begin or end outside the `frames` frames from
/// `start` on.
pub open spec fn lies_outside(start: int, frames: int) -> spec_fn(HashEntry) -> bool {
    |entry: HashEntry|
        !(start <= entry.anchor_time && entry.anchor_time + entry.delta_t < start + frames)
}

/// Each list, filtered.
pub open spec fn filtered_lists<A>(lists: Seq<Seq<A>>, keep: spec_fn(A) -> bool) -> Seq<Seq<A>> {
    Seq::new(lists.len(), |at: int| lists[at].filter(keep))
}

/// Each list of landmarks, moved.
pub open spec fn moved_lists(lists: Seq<Seq<HashEntry>>, by: int) -> Seq<Seq<HashEntry>> {
    Seq::new(lists.len(), |at: int| moved_all(lists[at], by))
}

proof fn lemma_filter_of_nothing<A>(keep: spec_fn(A) -> bool)
    ensures
        Seq::<A>::empty().filter(keep) == Seq::<A>::empty(),
{
    reveal(Seq::filter);
}

/// A filter that keeps no element of a list keeps nothing; one that keeps
/// every element keeps the list.
proof fn lemma_filter_all_or_nothing<A>(items: Seq<A>, keep: spec_fn(A) -> bool)
    ensures
        (forall|at: int| 0 <= at < items.len() ==> !keep(#[trigger] items[at])) ==> items.filter(
            keep,
        ) == Seq::<A>::empty(),
        (forall|at: int| 0 <= at < items.len() ==> keep(#[trigger] items[at])) ==> items.filter(keep)
            == items,
    decreases items.len(),
{
    if items.len() == 0 {
        lemma_filter_of_nothing(keep);
    } else {
        let rest = items.drop_last();
        let last = items.last();
        assert(rest.push(last) =~= items);
        lemma_filter_all_or_nothing(rest, keep);
        rest.lemma_filter_push(last, keep);
    }
}

/// Filtering the concatenation of lists is concatenating the filtered
/// lists.
proof fn lemma_filter_flatten<A>(lists: Seq<Seq<A>>, keep: spec_fn(A) -> bool)
    ensures
        lists.flatten().filter(keep) == filtered_lists(lists, keep).flatten(),
    decreases lists.len(),
{
    if lists.len() == 0 {
        lemma_filter_of_nothing(keep);
    } else {
        let rest = lists.drop_last();
        let last = lists.last();
        assert(rest.push(last) =~= lists);
        rest.lemma_flatten_push(last);
        lemma_filter_flatten(rest, keep);
        Seq::filter_distributes_over_add(rest.flatten(), last, keep);
        assert(filtered_lists(lists, keep) =~= filtered_lists(rest, keep).push(last.filter(keep)));
        filtered_lists(rest, keep).lemma_flatten_push(last.filter(keep));
    }
}

/// Moving the concatenation of lists is concatenating the moved lists.
proof fn lemma_moved_flatten(lists: Seq<Seq<HashEntry>>, by: int)
    ensures
        moved_all(lists.flatten(), by) == moved_lists(lists, by).flatten(),
    decreases lists.len(),
{
    if lists.len() == 0 {
        assert(moved_all(Seq::<HashEntry>::empty(), by) =~= Seq::<HashEntry>::empty());
    } else {
        let rest = lists.drop_last();
        let last = lists.last();
        assert(rest.push(last) =~= lists);
        rest.lemma_flatten_push(last);
        lemma_moved_flatten(rest, by);
        assert(moved_all(rest.flatten() + last, by) =~= moved_all(rest.flatten(), by) + moved_all(
            last,
            by,
        ));
        assert(moved_lists(lists, by) =~= moved_lists(rest, by).push(moved_all(last, by)));
        moved_lists(rest, by).lemma_flatten_push(moved_all(last, by));
    }
}

/// Lists that are empty but for a run of them concatenate to what the run
/// concatenates to.
proof fn lemma_flatten_window<A>(lists: Seq<Seq<A>>, inner: Seq<Seq<A>>, start: int)
    requires
        0 <= start,
        start + inner.len() <= lists.len(),
        forall|at: int|
            0 <= at < lists.len() && (at < start || at >= start + inner.len()) ==> (
            #[trigger] lists[at]).len() == 0,
        forall|at: int| 0 <= at < inner.len() ==> lists[at + start] == #[trigger] inner[at],
    ensures
        lists.flatten() == inner.flatten(),
    decreases lists.len(),
{
    if lists.len() == 0 {
        assert(inner.flatten() =~= Seq::<A>::empty());
    } else {
        let rest = lists.drop_last();
        let last = lists.last();
        assert(rest.push(last) =~= lists);
        rest.lemma_flatten_push(last);
        if start + inner.len() == lists.len() && inner.len() > 0 {
            let inner_rest = inner.drop_last();
            assert(inner_rest.push(inner.last()) =~= inner);
            inner_rest.lemma_flatten_push(inner.last());
            assert forall|at: int| 0 <= at < inner_rest.len() implies rest[at + start]
                == #[trigger] inner_rest[at] by {}
            assert forall|at: int|
                0 <= at < rest.len() && (at < start || at >= start + inner_rest.len()) implies (
            #[trigger] rest[at]).len() == 0 by {}
            lemma_flatten_window(rest, inner_rest, start);
        } else {
            let new_start = if start + inner.len() <= rest.len() {
                start
            } else {
                rest.len() as int
            };
            assert forall|at: int|
                0 <= at < rest.len() && (at < new_start || at >= new_start + inner.len()) implies (
            #[trigger] rest[at]).len() == 0 by {}
            assert forall|at: int| 0 <= at < inner.len() implies rest[at + new_start]
                == #[trigger] inner[at] by {}
            lemma_flatten_window(rest, inner, new_start);
        }
    }
}

/// A list of landmarks and the landmarks that a filter drops from it hold,
/// together, what the list holds.
proof fn lemma_filter_parts(items: Seq<HashEntry>, start: int, frames: int)
    ensures
        items.to_multiset() == (items.filter(lies_within(start, frames)) + items.filter(
            lies_outside(start, frames),
        )).to_multiset(),
    decreases items.len(),
{
    let keep = lies_within(start, frames);
    let drop = lies_outside(start, frames);
    if items.len() == 0 {
        assert(items =~= Seq::<HashEntry>::empty());
        lemma_filter_of_nothing(keep);
        lemma_filter_of_nothing(drop);
    } else {
        let rest = items.drop_last();
        let last = items.last();
        assert(rest.push(last) =~= items);
        lemma_filter_parts(rest, start, frames);
        rest.lemma_filter_push(last, keep);
        rest.lemma_filter_push(last, drop);
        let kept = rest.filter(keep);
        let dropped = rest.filter(drop);
        vstd::seq_lib::to_multiset_build(rest, last);
        if keep(last) {
            vstd::seq_lib::lemma_multiset_commutative(kept.push(last), dropped);
            vstd::seq_lib::lemma_multiset_commutative(kept, dropped);
            vstd::seq_lib::to_multiset_build(kept, last);
            assert((kept.push(last) + dropped).to_multiset() =~= (kept + dropped).to_multiset().insert(
                last,
            ));
        } else {
            vstd::seq_lib::to_multiset_build(kept + dropped, last);
        }
    }
}

/// The landmarks from a peak of a held frame to the peaks of a later frame
/// that is held too are the snippet's, moved.
proof fn lemma_row_held(
    snippet: Seq<Seq<u16>>,
    track: Seq<Seq<u16>>,
    fan_value: int,
    start: int,
    frame: int,
    peak: int,
    delta: int,
)
    requires
        holds_peaks_at(track, snippet, start),
        track.len() <= MAX_FRAMES,
        0 <= frame,
        1 <= delta < 0x1_0000,
        frame + delta < snippet.len(),
    ensures
        pairs_at_delta(track, fan_value, frame + start, peak, delta).filter(
            lies_within(start, snippet.len() as int),
        ) == moved_all(pairs_at_delta(snippet, fan_value, frame, peak, delta), start),
{
    let ours = pairs_at_delta(snippet, fan_value, frame, peak, delta);
    let theirs = pairs_at_delta(track, fan_value, frame + start, peak, delta);
    lemma_filter_all_or_nothing(theirs, lies_within(start, snippet.len() as int));
}

/// The landmarks of a frame that lead out of the frames held, or begin
/// outside them, do not lie within.
proof fn lemma_row_left_out(
    track: Seq<Seq<u16>>,
    fan_value: int,
    start: int,
    frames: int,
    frame: int,
    peak: int,
    delta: int,
)
    requires
        0 <= frame < MAX_FRAMES,
        0 <= delta < 0x1_0000,
        frame < start || frame + delta >= start + frames,
    ensures
        pairs_at_delta(track, fan_value, frame, peak, delta).filter(lies_within(start, frames))
            == Seq::<HashEntry>::empty(),
{
    let theirs = pairs_at_delta(track, fan_value, frame, peak, delta);
    lemma_filter_all_or_nothing(theirs, lies_within(start, frames));
}

/// Of the landmarks that start at a peak of the track, those within the
/// frames held are the snippet's from that peak, moved, if the peak's frame
/// is held, and none if not.
proof fn lemma_peak_held(
    snippet: Seq<Seq<u16>>,
    track: Seq<Seq<u16>>,
    fan_value: int,
    lookahead: int,
    start: int,
    frame: int,
    peak: int,
)
    requires
        holds_peaks_at(track, snippet, start),
        track.len() <= MAX_FRAMES,
        lookahead <= 0x1_0000,
        0 <= frame < track.len(),
    ensures
        pairs_of_peak(track, fan_value, lookahead, frame, peak).filter(
            lies_within(start, snippet.len() as int),
        ) == if start <= frame < start + snippet.len() {
            moved_all(pairs_of_peak(snippet, fan_value, lookahead, frame - start, peak), start)
        } else {
            Seq::<HashEntry>::empty()
        },
{
    let keep = lies_within(start, snippet.len() as int);
    let steps = reach(track.len() as int, frame, lookahead);
    let rows = delta_rows(track, fan_value, frame, peak, steps);
    let kept = filtered_lists(rows, keep);
    lemma_filter_flatten(rows, keep);
    if start <= frame < start + snippet.len() {
        let our_steps = reach(snippet.len() as int, frame - start, lookahead);
        let our_rows = delta_rows(snippet, fan_value, frame - start, peak, our_steps);
        let inner = moved_lists(our_rows, start);
        assert forall|at: int| 0 <= at < inner.len() implies kept[at + 0] == #[trigger] inner[at] by {
            lemma_row_held(snippet, track, fan_value, start, frame - start, peak, at + 1);
        }
        assert forall|at: int|
            0 <= at < kept.len() && (at < 0 || at >= 0 + inner.len()) implies (
        #[trigger] kept[at]).len() == 0 by {
            lemma_row_left_out(
                track,
                fan_value,
                start,
                snippet.len() as int,
                frame,
                peak,
                at + 1,
            );
        }
        lemma_flatten_window(kept, inner, 0);
        lemma_moved_flatten(our_rows, start);
    } else {
        let inner = Seq::<Seq<HashEntry>>::empty();
        assert forall|at: int| 0 <= at < kept.len() implies (#[trigger] kept[at]).len() == 0 by {
            lemma_row_left_out(
                track,
                fan_value,
                start,
                snippet.len() as int,
                frame,
                peak,
                at + 1,
            );
        }
        lemma_flatten_window(kept, inner, 0);
    }
}

/// Of the landmarks that start in a frame of the track, those within the
/// frames held are the snippet's of that frame, moved, if the frame is held,
/// and none if not.
proof fn lemma_frame_held(
    snippet: Seq<Seq<u16>>,
    track: Seq<Seq<u16>>,
    fan_value: int,
    lookahead: int,
    start: int,
    frame: int,
)
    requires
        holds_peaks_at(track, snippet, start),
        track.len() <= MAX_FRAMES,
        lookahead <= 0x1_0000,
        0 <= frame < track.len(),
    ensures
        pairs_of_frame(track, fan_value, lookahead, frame).filter(
            lies_within(start, snippet.len() as int),
        ) == if start <= frame < start + snippet.len() {
            moved_all(pairs_of_frame(snippet, fan_value, lookahead, frame - start), start)
        } else {
            Seq::<HashEntry>::empty()
        },
{
    let keep = lies_within(start, snippet.len() as int);
    let lists = peak_lists(track, fan_value, lookahead, frame, track[frame].len() as int);
    let kept = filtered_lists(lists, keep);
    lemma_filter_flatten(lists, keep);
    assert forall|peak: int| 0 <= peak < kept.len() implies #[trigger] kept[peak] == if start
        <= frame < start + snippet.len() {
        moved_all(pairs_of_peak(snippet, fan_value, lookahead, frame - start, peak), start)
    } else {
        Seq::<HashEntry>::empty()
    } by {
        lemma_peak_held(snippet, track, fan_value, lookahead, start, frame, peak);
    }
    if start <= frame < start + snippet.len() {
        let ours = peak_lists(
            snippet,
            fan_value,
            lookahead,
            frame - start,
            snippet[frame - start].len() as int,
        );
        assert(kept =~= moved_lists(ours, start));
        lemma_moved_flatten(ours, start);
    } else {
        let inner = Seq::<Seq<HashEntry>>::empty();
        lemma_flatten_window(kept, inner, 0);
    }
}

/// Of the landmarks of a track that holds the peaks of the snippet, those
/// within the frames held are the landmarks of the snippet, moved.
pub proof fn lemma_landmarks_within_are_the_snippets(
    snippet: Seq<Seq<u16>>,
    track: Seq<Seq<u16>>,
    fan_value: int,
    lookahead: int,
    start: int,
)
    requires
        holds_peaks_at(track, snippet, start),
        track.len() <= MAX_FRAMES,
        lookahead <= 0x1_0000,
    ensures
        landmark_entries(track, fan_value, lookahead).filter(
            lies_within(start, snippet.len() as int),
        ) == moved_all(landmark_entries(snippet, fan_value, lookahead), start),
{
    let keep = lies_within(start, snippet.len() as int);
    let lists = frame_lists(track, fan_value, lookahead, track.len() as int);
    let kept = filtered_lists(lists, keep);
    let ours = frame_lists(snippet, fan_value, lookahead, snippet.len() as int);
    let inner = moved_lists(ours, start);
    lemma_filter_flatten(lists, keep);
    assert forall|frame: int| 0 <= frame < kept.len() implies #[trigger] kept[frame] == if start
        <= frame < start + snippet.len() {
        moved_all(pairs_of_frame(snippet, fan_value, lookahead, frame - start), start)
    } else {
        Seq::<HashEntry>::empty()
    } by {
        lemma_frame_held(snippet, track, fan_value, lookahead, start, frame);
    }
    assert forall|at: int| 0 <= at < inner.len() implies kept[at + start] == #[trigger] inner[at] by {
        assert(kept[at + start] == moved_all(
            pairs_of_frame(snippet, fan_value, lookahead, at + start - start),
            start,
        ));
    }
    lemma_flatten_window(kept, inner, start);
    lemma_moved_flatten(ours, start);
}

/// The offset is recovered from the peaks. A track holds the peaks of the
/// snippet from frame `start` on, and those of its landmarks that begin or
/// end outside the frames held share no key with a landmark of the snippet.
/// Then the snippet is matched at `start` frames and nowhere else, with as
/// many collisions as it has with itself, where these are more than the
/// threshold.
pub proof fn lemma_held_snippet_is_found_at_start(
    snippet: Seq<Seq<u16>>,
    track: Seq<Seq<u16>>,
    fan_value: int,
    lookahead: int,
    start: int,
    found: Option<LandmarkMatch>,
)
    requires
        holds_peaks_at(track, snippet, start),
        track.len() <= MAX_FRAMES,
        lookahead <= 0x1_0000,
        fan_value >= 0,
        landmark_entries(snippet, fan_value, lookahead).len() > 0,
        shares_no_key(
            landmark_entries(snippet, fan_value, lookahead),
            landmark_entries(track, fan_value, lookahead).filter(
                lies_outside(start, snippet.len() as int),
            ),
        ),
        collisions(
            landmark_entries(snippet, fan_value, lookahead),
            landmark_entries(snippet, fan_value, lookahead),
            0,
        ) > COLLISION_THRESHOLD,
        is_landmark_match(
            votes(
                landmark_entries(snippet, fan_value, lookahead),
                landmark_entries(track, fan_value, lookahead),
            ),
            found,
        ),
    ensures
        found == Some(
            (LandmarkMatch {
                offset_frames: start as i64,
                collisions: collisions(
                    landmark_entries(snippet, fan_value, lookahead),
                    landmark_entries(snippet, fan_value, lookahead),
                    0,
                ) as u128,
            }),
        ),
{
    let ours = landmark_entries(snippet, fan_value, lookahead);
    let theirs = landmark_entries(track, fan_value, lookahead);
    let others = theirs.filter(lies_outside(start, snippet.len() as int));
    lemma_landmarks_within_are_the_snippets(snippet, track, fan_value, lookahead, start);
    lemma_filter_parts(theirs, start, snippet.len() as int);
    assert forall|at: int| 0 <= at < ours.len() implies (#[trigger] ours[at]).anchor_time + start
        <= u32::MAX by {
        let place = lemma_landmark_is_pairing(snippet, fan_value, lookahead, at);
    }
    lemma_held_fingerprint_is_found_at_start(ours, theirs, others, start, found);
}

/// The offset is recovered from the spectrograms. The track's spectrogram
/// holds the snippet's from frame `start` on, level by level, and those
/// landmarks of the track that begin or end outside the frames held share
/// no key with a landmark of the snippet. Then the fingerprints of the two
/// are matched at `start` frames and nowhere else, where the snippet has
/// more collisions with itself than the threshold.
pub proof fn lemma_held_levels_are_found_at_start(
    snippet: Seq<Seq<u32>>,
    track: Seq<Seq<u32>>,
    top_n: nat,
    fan_value: int,
    lookahead: int,
    start: int,
    found: Option<LandmarkMatch>,
)
    requires
        well_formed(snippet),
        well_formed(track),
        holds_levels_at(track, snippet, start),
        lookahead <= 0x1_0000,
        fan_value >= 0,
        landmark_entries(peak_table(snippet, top_n), fan_value, lookahead).len() > 0,
        shares_no_key(
            landmark_entries(peak_table(snippet, top_n), fan_value, lookahead),
            landmark_entries(peak_table(track, top_n), fan_value, lookahead).filter(
                lies_outside(start, matrix_frames(snippet) as int),
            ),
        ),
        collisions(
            landmark_entries(peak_table(snippet, top_n), fan_value, lookahead),
            landmark_entries(peak_table(snippet, top_n), fan_value, lookahead),
            0,
        ) > COLLISION_THRESHOLD,
        is_landmark_match(
            votes(
                landmark_entries(peak_table(snippet, top_n), fan_value, lookahead),
                landmark_entries(peak_table(track, top_n), fan_value, lookahead),
            ),
            found,
        ),
    ensures
        found == Some(
            (LandmarkMatch {
                offset_frames: start as i64,
                collisions: collisions(
                    landmark_entries(peak_table(snippet, top_n), fan_value, lookahead),
                    landmark_entries(peak_table(snippet, top_n), fan_value, lookahead),
                    0,
                ) as u128,
            }),
        ),
{
    lemma_held_levels_have_held_peaks(snippet, track, top_n, start);
    lemma_held_snippet_is_found_at_start(
        peak_table(snippet, top_n),
        peak_table(track, top_n),
        fan_value,
        lookahead,
        start,
        found,
    );
}

} // verus!
