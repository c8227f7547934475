//! Recovery of the offset: a track that holds the landmarks of the snippet,
//! all later by the same number of frames, and beside them only landmarks
//! of other keys, is matched at exactly that number of frames.

use crate::landmark::HashEntry;
use crate::matcher::{
    collisions, entry_votes, frame_shift, is_landmark_match, lemma_entry_votes_push,
    lemma_tally_empty, lemma_tally_push, lemma_vote_lists_step, same_key, tally, vote_lists, votes,
    LandmarkMatch, COLLISION_THRESHOLD,
};
use crate::classes::lemma_tally_of_both;
use crate::order::lemma_collisions_ignore_order;
use crate::self_match::{lemma_offset_zero_collides_most, lemma_self_collisions_count_landmarks};
use vstd::prelude::*;

verus! {

/// A landmark, `by` frames later.
pub open spec fn moved(entry: HashEntry, by: int) -> HashEntry {
    HashEntry {
        f1: entry.f1,
        f2: entry.f2,
        delta_t: entry.delta_t,
        anchor_time: (entry.anchor_time + by) as u32,
    }
}

/// The landmarks of a fingerprint, each `by` frames later.
pub open spec fn moved_all(entries: Seq<HashEntry>, by: int) -> Seq<HashEntry> {
    Seq::new(entries.len(), |at: int| moved(entries[at], by))
}

/// Whether every landmark can be `by` frames later: its anchor time still
/// fits.
pub open spec fn can_move(entries: Seq<HashEntry>, by: int) -> bool {
    &&& 0 <= by
    &&& forall|at: int| 0 <= at < entries.len() ==> (#[trigger] entries[at]).anchor_time + by <= u32::MAX
}

/// Whether no landmark of `others` has the key of a landmark of `entries`.
pub open spec fn shares_no_key(entries: Seq<HashEntry>, others: Seq<HashEntry>) -> bool {
    forall|at: int, with: int|
        0 <= at < entries.len() && 0 <= with < others.len() ==> !same_key(
            #[trigger] entries[at],
            #[trigger] others[with],
        )
}

proof fn lemma_no_votes_of_nothing(entry: HashEntry)
    ensures
        entry_votes(entry, Seq::<HashEntry>::empty()) == Seq::<int>::empty(),
{
    assert(entry_votes(entry, Seq::<HashEntry>::empty()) =~= Seq::<int>::empty()) by {
        reveal(Seq::filter);
    }
}

/// A landmark votes for an offset among landmarks moved as often as it
/// votes among the landmarks themselves for the offset less the move.
proof fn lemma_moved_votes(entry: HashEntry, track: Seq<HashEntry>, by: int, offset: int)
    requires
        can_move(track, by),
    ensures
        tally(entry_votes(entry, moved_all(track, by)), offset) == tally(
            entry_votes(entry, track),
            offset - by,
        ),
    decreases track.len(),
{
    if track.len() == 0 {
        lemma_no_votes_of_nothing(entry);
        lemma_tally_empty(offset);
        lemma_tally_empty(offset - by);
    } else {
        let rest = track.drop_last();
        let last = track.last();
        assert(rest.push(last) =~= track);
        assert(moved_all(track, by) =~= moved_all(rest, by).push(moved(last, by)));
        assert forall|at: int| 0 <= at < rest.len() implies (#[trigger] rest[at]).anchor_time + by
            <= u32::MAX by {}
        lemma_moved_votes(entry, rest, by, offset);
        lemma_entry_votes_push(entry, rest, last);
        lemma_entry_votes_push(entry, moved_all(rest, by), moved(last, by));
        if same_key(entry, last) {
            lemma_tally_push(entry_votes(entry, rest), frame_shift(entry, last), offset - by);
            lemma_tally_push(
                entry_votes(entry, moved_all(rest, by)),
                frame_shift(entry, moved(last, by)),
                offset,
            );
        }
    }
}

/// A landmark does not vote among landmarks of other keys.
proof fn lemma_other_keys_do_not_vote(entry: HashEntry, others: Seq<HashEntry>)
    requires
        forall|with: int| 0 <= with < others.len() ==> !same_key(entry, #[trigger] others[with]),
    ensures
        entry_votes(entry, others) == Seq::<int>::empty(),
    decreases others.len(),
{
    if others.len() == 0 {
        lemma_no_votes_of_nothing(entry);
    } else {
        let rest = others.drop_last();
        let last = others.last();
        assert(rest.push(last) =~= others);
        assert forall|with: int| 0 <= with < rest.len() implies !same_key(
            entry,
            #[trigger] rest[with],
        ) by {}
        lemma_other_keys_do_not_vote(entry, rest);
        lemma_entry_votes_push(entry, rest, last);
    }
}

/// The votes of a landmark among two runs of landmarks are its votes among
/// the first, then its votes among the second.
proof fn lemma_votes_of_both_tracks(entry: HashEntry, first: Seq<HashEntry>, second: Seq<HashEntry>)
    ensures
        entry_votes(entry, first + second) == entry_votes(entry, first) + entry_votes(entry, second),
    decreases second.len(),
{
    if second.len() == 0 {
        lemma_no_votes_of_nothing(entry);
    } else {
        let rest = second.drop_last();
        let last = second.last();
        lemma_votes_of_both_tracks(entry, first, rest);
        lemma_entry_votes_push(entry, first + rest, last);
        lemma_entry_votes_push(entry, rest, last);
        if same_key(entry, last) {
            assert((entry_votes(entry, first) + entry_votes(entry, rest)).push(
                frame_shift(entry, last),
            ) =~= entry_votes(entry, first) + entry_votes(entry, rest).push(
                frame_shift(entry, last),
            ));
        }
    }
}

/// Where every snippet landmark votes as often for one offset in one track
/// as for another offset in another track, the collisions are as many.
proof fn lemma_collisions_entry_by_entry(
    snippet: Seq<HashEntry>,
    track: Seq<HashEntry>,
    offset: int,
    other_track: Seq<HashEntry>,
    other_offset: int,
    count: int,
)
    requires
        0 <= count <= snippet.len(),
        forall|at: int|
            0 <= at < snippet.len() ==> #[trigger] tally(entry_votes(snippet[at], track), offset)
                == tally(entry_votes(snippet[at], other_track), other_offset),
    ensures
        tally(vote_lists(snippet, track, count).flatten(), offset) == tally(
            vote_lists(snippet, other_track, count).flatten(),
            other_offset,
        ),
    decreases count,
{
    if count == 0 {
        lemma_tally_empty(offset);
        lemma_tally_empty(other_offset);
    } else {
        let entry = snippet[count - 1];
        lemma_collisions_entry_by_entry(
            snippet,
            track,
            offset,
            other_track,
            other_offset,
            count - 1,
        );
        lemma_vote_lists_step(snippet, track, count - 1);
        lemma_vote_lists_step(snippet, other_track, count - 1);
        lemma_tally_of_both(
            vote_lists(snippet, track, count - 1).flatten(),
            entry_votes(entry, track),
            offset,
        );
        lemma_tally_of_both(
            vote_lists(snippet, other_track, count - 1).flatten(),
            entry_votes(entry, other_track),
            other_offset,
        );
        assert(tally(entry_votes(snippet[count - 1], track), offset) == tally(
            entry_votes(snippet[count - 1], other_track),
            other_offset,
        ));
    }
}

/// A track made of the landmarks of the snippet, `start` frames later, and
/// of landmarks of other keys, in whatever order, collides with the snippet
/// at every offset as often as the snippet collides with itself `start`
/// frames earlier.
pub proof fn lemma_held_fingerprint_collides_as_itself(
    snippet: Seq<HashEntry>,
    track: Seq<HashEntry>,
    others: Seq<HashEntry>,
    start: int,
    offset: int,
)
    requires
        can_move(snippet, start),
        shares_no_key(snippet, others),
        track.to_multiset() == (moved_all(snippet, start) + others).to_multiset(),
    ensures
        collisions(snippet, track, offset) == collisions(snippet, snippet, offset - start),
{
    let held = moved_all(snippet, start);
    lemma_collisions_ignore_order(snippet, track, snippet, held + others, offset);
    assert forall|at: int| 0 <= at < snippet.len() implies #[trigger] tally(
        entry_votes(snippet[at], held + others),
        offset,
    ) == tally(entry_votes(snippet[at], snippet), offset - start) by {
        let entry = snippet[at];
        lemma_votes_of_both_tracks(entry, held, others);
        assert forall|with: int| 0 <= with < others.len() implies !same_key(
            entry,
            #[trigger] others[with],
        ) by {}
        lemma_other_keys_do_not_vote(entry, others);
        lemma_moved_votes(entry, snippet, start, offset);
    }
    lemma_collisions_entry_by_entry(
        snippet,
        held + others,
        offset,
        snippet,
        offset - start,
        snippet.len() as int,
    );
}

/// The offset is recovered. A track made of the landmarks of the snippet,
/// `start` frames later, and of landmarks of other keys, in whatever order,
/// is matched at `start` frames and nowhere else, with as many collisions as
/// the snippet has with itself, where these are more than the threshold.
pub proof fn lemma_held_fingerprint_is_found_at_start(
    snippet: Seq<HashEntry>,
    track: Seq<HashEntry>,
    others: Seq<HashEntry>,
    start: int,
    found: Option<LandmarkMatch>,
)
    requires
        snippet.len() > 0,
        can_move(snippet, start),
        shares_no_key(snippet, others),
        track.to_multiset() == (moved_all(snippet, start) + others).to_multiset(),
        collisions(snippet, snippet, 0) > COLLISION_THRESHOLD,
        is_landmark_match(votes(snippet, track), found),
    ensures
        found == Some(
            (LandmarkMatch {
                offset_frames: start as i64,
                collisions: collisions(snippet, snippet, 0) as u128,
            }),
        ),
        collisions(snippet, snippet, 0) >= snippet.len(),
{
    let cast = votes(snippet, track);
    lemma_self_collisions_count_landmarks(snippet);
    lemma_held_fingerprint_collides_as_itself(snippet, track, others, start, start);
    match found {
        Some(best) => {
            let offset = best.offset_frames as int;
            lemma_held_fingerprint_collides_as_itself(snippet, track, others, start, offset);
            if offset != start {
                lemma_offset_zero_collides_most(snippet, offset - start);
            }
        },
        None => {
            assert(tally(cast, start) <= COLLISION_THRESHOLD);
        },
    }
}

} // verus!
