//! A snippet that a track holds: every landmark of the snippet is a landmark
//! of the track, later by as many frames as the snippet begins into the
//! track, so that the two collide there at least once for each landmark of
//! the snippet.

use crate::landmark::{
    delta_rows, fan_of, frame_lists, landmark_entries, pairing, peak_lists, reach, HashEntry,
};
use crate::matcher::{
    collisions, entry_votes, is_landmark_match, lemma_tally_empty, lemma_vote_lists_step, tally,
    vote_lists, votes, LandmarkMatch, COLLISION_THRESHOLD,
};
use crate::classes::{
    class_of, is_offset, lemma_count_by_members, lemma_tally_of_both, lemma_votes_by_class,
};
use crate::peaks::peak_table;
use crate::spectrogram::{column, matrix_frames, well_formed, MAX_FRAMES};
use vstd::prelude::*;

verus! {

/// Whether peak number `peak` of `frame` is paired with peak number `target`
/// of the frame `delta` later.
pub open spec fn is_pairing(
    peaks: Seq<Seq<u16>>,
    fan_value: int,
    lookahead: int,
    frame: int,
    peak: int,
    delta: int,
    target: int,
) -> bool {
    &&& 0 <= frame < peaks.len()
    &&& 0 <= peak < peaks[frame].len()
    &&& 1 <= delta <= reach(peaks.len() as int, frame, lookahead)
    &&& 0 <= target < fan_of(peaks[frame + delta].len() as int, fan_value)
}

/// What a list of lists holds, the concatenation of the lists holds.
proof fn lemma_flatten_holds<A>(lists: Seq<Seq<A>>, which: int, at: int) -> (index: int)
    requires
        0 <= which < lists.len(),
        0 <= at < lists[which].len(),
    ensures
        0 <= index < lists.flatten().len(),
        lists.flatten()[index] == lists[which][at],
    decreases lists.len(),
{
    let rest = lists.drop_last();
    let last = lists.last();
    assert(rest.push(last) =~= lists);
    rest.lemma_flatten_push(last);
    if which == lists.len() - 1 {
        rest.flatten().len() + at
    } else {
        lemma_flatten_holds(rest, which, at)
    }
}

/// What the concatenation of lists holds, one of the lists holds.
proof fn lemma_flatten_origin<A>(lists: Seq<Seq<A>>, index: int) -> (place: (int, int))
    requires
        0 <= index < lists.flatten().len(),
    ensures
        0 <= place.0 < lists.len(),
        0 <= place.1 < lists[place.0].len(),
        lists[place.0][place.1] == lists.flatten()[index],
    decreases lists.len(),
{
    if lists.len() == 0 {
        (0, 0)
    } else {
        let rest = lists.drop_last();
        let last = lists.last();
        assert(rest.push(last) =~= lists);
        rest.lemma_flatten_push(last);
        if index < rest.flatten().len() {
            lemma_flatten_origin(rest, index)
        } else {
            (lists.len() - 1, index - rest.flatten().len())
        }
    }
}

/// Every landmark of a table of peaks is a pairing.
pub proof fn lemma_landmark_is_pairing(
    peaks: Seq<Seq<u16>>,
    fan_value: int,
    lookahead: int,
    index: int,
) -> (place: (int, int, int, int))
    requires
        fan_value >= 0,
        0 <= index < landmark_entries(peaks, fan_value, lookahead).len(),
    ensures
        is_pairing(peaks, fan_value, lookahead, place.0, place.1, place.2, place.3),
        landmark_entries(peaks, fan_value, lookahead)[index] == pairing(
            peaks,
            place.0,
            place.1,
            place.2,
            place.3,
        ),
{
    let frames = frame_lists(peaks, fan_value, lookahead, peaks.len() as int);
    let (frame, in_frame) = lemma_flatten_origin(frames, index);
    let of_peaks = peak_lists(peaks, fan_value, lookahead, frame, peaks[frame].len() as int);
    let (peak, in_peak) = lemma_flatten_origin(of_peaks, in_frame);
    let steps = reach(peaks.len() as int, frame, lookahead);
    let rows = delta_rows(peaks, fan_value, frame, peak, steps);
    let (step, target) = lemma_flatten_origin(rows, in_peak);
    (frame, peak, step + 1, target)
}

/// Every pairing of a table of peaks is one of its landmarks.
pub proof fn lemma_pairing_is_landmark(
    peaks: Seq<Seq<u16>>,
    fan_value: int,
    lookahead: int,
    frame: int,
    peak: int,
    delta: int,
    target: int,
) -> (index: int)
    requires
        fan_value >= 0,
        is_pairing(peaks, fan_value, lookahead, frame, peak, delta, target),
    ensures
        0 <= index < landmark_entries(peaks, fan_value, lookahead).len(),
        landmark_entries(peaks, fan_value, lookahead)[index] == pairing(
            peaks,
            frame,
            peak,
            delta,
            target,
        ),
{
    let steps = reach(peaks.len() as int, frame, lookahead);
    let rows = delta_rows(peaks, fan_value, frame, peak, steps);
    let in_peak = lemma_flatten_holds(rows, delta - 1, target);
    let of_peaks = peak_lists(peaks, fan_value, lookahead, frame, peaks[frame].len() as int);
    let in_frame = lemma_flatten_holds(of_peaks, peak, in_peak);
    let frames = frame_lists(peaks, fan_value, lookahead, peaks.len() as int);
    lemma_flatten_holds(frames, frame, in_frame)
}

/// Whether the track holds the peaks of the snippet from frame `start` on.
pub open spec fn holds_peaks_at(track: Seq<Seq<u16>>, snippet: Seq<Seq<u16>>, start: int) -> bool {
    &&& 0 <= start
    &&& start + snippet.len() <= track.len()
    &&& forall|frame: int| 0 <= frame < snippet.len() ==> track[frame + start] == #[trigger] snippet[frame]
}

/// Whether some landmark of the track is the given landmark, `offset` frames
/// later.
pub open spec fn has_partner(track: Seq<HashEntry>, entry: HashEntry, offset: int) -> bool {
    exists|at: int| 0 <= at < track.len() && class_of(#[trigger] track[at]) == class_of(entry) + offset
}

/// Where every one of the first `count` snippet landmarks has a partner in
/// the track, the two fingerprints collide `count` times at least.
proof fn lemma_partners_collide(
    snippet: Seq<HashEntry>,
    track: Seq<HashEntry>,
    offset: int,
    count: int,
)
    requires
        is_offset(offset),
        0 <= count <= snippet.len(),
        forall|at: int| 0 <= at < snippet.len() ==> has_partner(track, #[trigger] snippet[at], offset),
    ensures
        tally(vote_lists(snippet, track, count).flatten(), offset) >= count,
    decreases count,
{
    if count == 0 {
        lemma_tally_empty(offset);
    } else {
        let entry = snippet[count - 1];
        lemma_partners_collide(snippet, track, offset, count - 1);
        lemma_vote_lists_step(snippet, track, count - 1);
        lemma_tally_of_both(
            vote_lists(snippet, track, count - 1).flatten(),
            entry_votes(entry, track),
            offset,
        );
        lemma_votes_by_class(entry, track, offset);
        lemma_count_by_members(track, class_of(entry) + offset);
    }
}

/// A track that holds the peaks of the snippet from frame `start` on
/// collides with it at offset `start` at least once for each landmark of the
/// snippet.
pub proof fn lemma_held_snippet_collides(
    snippet: Seq<Seq<u16>>,
    track: Seq<Seq<u16>>,
    fan_value: int,
    lookahead: int,
    start: int,
)
    requires
        holds_peaks_at(track, snippet, start),
        track.len() <= MAX_FRAMES,
        lookahead <= 0x1_0000,
        fan_value >= 0,
    ensures
        collisions(
            landmark_entries(snippet, fan_value, lookahead),
            landmark_entries(track, fan_value, lookahead),
            start,
        ) >= landmark_entries(snippet, fan_value, lookahead).len(),
{
    let ours = landmark_entries(snippet, fan_value, lookahead);
    let theirs = landmark_entries(track, fan_value, lookahead);
    assert forall|at: int| 0 <= at < ours.len() implies has_partner(
        theirs,
        #[trigger] ours[at],
        start,
    ) by {
        let (frame, peak, delta, target) = lemma_landmark_is_pairing(
            snippet,
            fan_value,
            lookahead,
            at,
        );
        let partner = lemma_pairing_is_landmark(
            track,
            fan_value,
            lookahead,
            frame + start,
            peak,
            delta,
            target,
        );
        let there = theirs[partner];
        let here = ours[at];
    }
    if ours.len() > 0 {
        let first = lemma_landmark_is_pairing(snippet, fan_value, lookahead, 0);
        lemma_partners_collide(ours, theirs, start, ours.len() as int);
    }
}

/// A snippet with more landmarks than the threshold is found in every track
/// that holds its peaks, with at least as many collisions as the snippet has
/// landmarks.
pub proof fn lemma_held_snippet_is_found(
    snippet: Seq<Seq<u16>>,
    track: Seq<Seq<u16>>,
    fan_value: int,
    lookahead: int,
    start: int,
    found: Option<LandmarkMatch>,
)
    requires
        holds_peaks_at(track, snippet, start),
        track.len() <= MAX_FRAMES,
        lookahead <= 0x1_0000,
        fan_value >= 0,
        landmark_entries(snippet, fan_value, lookahead).len() > COLLISION_THRESHOLD,
        is_landmark_match(
            votes(
                landmark_entries(snippet, fan_value, lookahead),
                landmark_entries(track, fan_value, lookahead),
            ),
            found,
        ),
    ensures
        found matches Some(best) && best.collisions >= landmark_entries(
            snippet,
            fan_value,
            lookahead,
        ).len(),
{
    lemma_held_snippet_collides(snippet, track, fan_value, lookahead, start);
    let cast = votes(
        landmark_entries(snippet, fan_value, lookahead),
        landmark_entries(track, fan_value, lookahead),
    );
    match found {
        Some(best) => {
            assert(tally(cast, start) <= best.collisions);
        },
        None => {
            assert(tally(cast, start) <= COLLISION_THRESHOLD);
        },
    }
}

/// Whether the track's spectrogram holds the snippet's from frame `start`
/// on: the same levels, bin by bin.
pub open spec fn holds_levels_at(track: Seq<Seq<u32>>, snippet: Seq<Seq<u32>>, start: int) -> bool {
    &&& 0 <= start
    &&& track.len() == snippet.len()
    &&& start + matrix_frames(snippet) <= matrix_frames(track)
    &&& forall|bin: int, frame: int|
        0 <= bin < snippet.len() && 0 <= frame < matrix_frames(snippet) ==> track[bin][frame
            + start] == #[trigger] snippet[bin][frame]
}

/// A spectrogram that holds another has its peaks.
pub proof fn lemma_held_levels_have_held_peaks(
    snippet: Seq<Seq<u32>>,
    track: Seq<Seq<u32>>,
    top_n: nat,
    start: int,
)
    requires
        well_formed(snippet),
        well_formed(track),
        holds_levels_at(track, snippet, start),
    ensures
        holds_peaks_at(peak_table(track, top_n), peak_table(snippet, top_n), start),
{
    assert forall|frame: int| 0 <= frame < peak_table(snippet, top_n).len() implies peak_table(
        track,
        top_n,
    )[frame + start] == #[trigger] peak_table(snippet, top_n)[frame] by {
        assert forall|bin: int| 0 <= bin < snippet.len() implies column(track, frame + start)[bin]
            == column(snippet, frame)[bin] by {}
        assert(column(track, frame + start) =~= column(snippet, frame));
    }
}

} // verus!
