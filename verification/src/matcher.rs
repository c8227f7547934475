//! Matching a snippet against a track: landmark collision voting, and the
//! choice of the best alignment among dense similarity scores.

use crate::landmark::{HashEntry, LandmarkFingerprint};
use std::collections::HashMap;
use vstd::prelude::*;

verus! {

broadcast use vstd::std_specs::hash::group_hash_axioms;

/// A landmark match needs more collisions than this.
pub const COLLISION_THRESHOLD: u128 = 5;

/// Two landmarks have the same key when they join the same bins over the
/// same number of frames.
pub open spec fn same_key(a: HashEntry, b: HashEntry) -> bool {
    a.f1 == b.f1 && a.f2 == b.f2 && a.delta_t == b.delta_t
}

/// How many frames later than in the snippet a landmark occurs in the track.
pub open spec fn frame_shift(entry: HashEntry, other: HashEntry) -> int {
    other.anchor_time - entry.anchor_time
}

/// The votes of one snippet landmark: its shift to every track landmark of
/// the same key, in the order of the track.
pub open spec fn entry_votes(entry: HashEntry, track: Seq<HashEntry>) -> Seq<int> {
    track.filter(|other: HashEntry| same_key(entry, other)).map_values(
        |other: HashEntry| frame_shift(entry, other),
    )
}

/// The vote lists of the first `count` snippet landmarks.
pub open spec fn vote_lists(snippet: Seq<HashEntry>, track: Seq<HashEntry>, count: int) -> Seq<Seq<int>> {
    Seq::new(count as nat, |i: int| entry_votes(snippet[i], track))
}

/// All votes, snippet landmark by snippet landmark.
pub open spec fn votes(snippet: Seq<HashEntry>, track: Seq<HashEntry>) -> Seq<int> {
    vote_lists(snippet, track, snippet.len() as int).flatten()
}

/// Tells the votes for `offset` from the others.
pub open spec fn is_vote_for(offset: int) -> spec_fn(int) -> bool {
    |vote: int| vote == offset
}

/// Number of votes cast for `offset`.
pub open spec fn tally(cast: Seq<int>, offset: int) -> nat {
    cast.filter(is_vote_for(offset)).len()
}

/// Number of collisions of snippet and track at `offset`: pairs of a snippet
/// landmark and a track landmark of the same key, `offset` frames apart.
pub open spec fn collisions(snippet: Seq<HashEntry>, track: Seq<HashEntry>, offset: int) -> nat {
    tally(votes(snippet, track), offset)
}

/// Vote number `at` is for `offset` and brings its tally to `count`, which no
/// tally had reached before.
pub open spec fn leads_at(cast: Seq<int>, at: int, offset: int, count: nat) -> bool {
    &&& 0 <= at < cast.len()
    &&& cast[at] == offset
    &&& tally(cast.take(at + 1), offset) == count
    &&& forall|other: int| #[trigger] tally(cast.take(at), other) < count
}

/// `offset` was the first whose tally reached `count`.
pub open spec fn reaches_first(cast: Seq<int>, offset: int, count: nat) -> bool {
    exists|at: int| leads_at(cast, at, offset, count)
}

/// The outcome of landmark matching.
#[derive(Clone, Copy, Debug, PartialEq, Eq, Structural)]
pub struct LandmarkMatch {
    /// Frames from the start of the track to the start of the snippet.
    pub offset_frames: i64,
    /// Number of collisions at that offset.
    pub collisions: u128,
}

/// What landmark matching returns for given votes: nothing unless some offset
/// has more than `COLLISION_THRESHOLD` votes; else the offset with the most
/// votes and their number, and of several such offsets the one whose tally
/// got there first.
pub open spec fn is_landmark_match(cast: Seq<int>, found: Option<LandmarkMatch>) -> bool {
    match found {
        None => forall|offset: int| #[trigger] tally(cast, offset) <= COLLISION_THRESHOLD,
        Some(best) => {
            &&& best.collisions > COLLISION_THRESHOLD
            &&& best.collisions == tally(cast, best.offset_frames as int)
            &&& forall|offset: int| #[trigger] tally(cast, offset) <= best.collisions
            &&& reaches_first(cast, best.offset_frames as int, best.collisions as nat)
        },
    }
}

/// The key of a landmark as one number.
pub open spec fn key_of(entry: HashEntry) -> u64 {
    (entry.f1 as int * 0x1_0000_0000 + entry.f2 as int * 0x1_0000 + entry.delta_t as int) as u64
}

/// The anchor times of the track landmarks with a given key, in the order of
/// the track.
pub open spec fn anchors_of(track: Seq<HashEntry>, key: u64) -> Seq<u32> {
    track.filter(|entry: HashEntry| key_of(entry) == key).map_values(
        |entry: HashEntry| entry.anchor_time,
    )
}

/// Two landmarks have one number as their key exactly if they have the same
/// key.
pub proof fn lemma_key_of_tells_keys_apart(a: HashEntry, b: HashEntry)
    ensures
        key_of(a) == key_of(b) <==> same_key(a, b),
{
}

proof fn lemma_anchors_of_push(track: Seq<HashEntry>, entry: HashEntry, key: u64)
    ensures
        anchors_of(track.push(entry), key) == if key_of(entry) == key {
            anchors_of(track, key).push(entry.anchor_time)
        } else {
            anchors_of(track, key)
        },
{
    let pred = |entry: HashEntry| key_of(entry) == key;
    track.lemma_filter_push(entry, pred);
}

/// One more landmark in the track is one more vote of each snippet landmark
/// of its key.
pub proof fn lemma_entry_votes_push(entry: HashEntry, track: Seq<HashEntry>, other: HashEntry)
    ensures
        entry_votes(entry, track.push(other)) == if same_key(entry, other) {
            entry_votes(entry, track).push(frame_shift(entry, other))
        } else {
            entry_votes(entry, track)
        },
{
    let pred = |other: HashEntry| same_key(entry, other);
    track.lemma_filter_push(other, pred);
    if same_key(entry, other) {
        assert(entry_votes(entry, track.push(other)) =~= entry_votes(entry, track).push(
            frame_shift(entry, other),
        ));
    }
}

/// The votes of a snippet landmark are its shifts to the anchors that the
/// track holds under its key.
proof fn lemma_votes_from_anchors(entry: HashEntry, track: Seq<HashEntry>)
    ensures
        entry_votes(entry, track).len() == anchors_of(track, key_of(entry)).len(),
        forall|k: int|
            0 <= k < entry_votes(entry, track).len() ==> #[trigger] entry_votes(entry, track)[k]
                == anchors_of(track, key_of(entry))[k] - entry.anchor_time,
    decreases track.len(),
{
    if track.len() == 0 {
        reveal(Seq::filter);
    } else {
        let rest = track.drop_last();
        let last = track.last();
        assert(rest.push(last) =~= track);
        lemma_votes_from_anchors(entry, rest);
        lemma_entry_votes_push(entry, rest, last);
        lemma_anchors_of_push(rest, last, key_of(entry));
        lemma_key_of_tells_keys_apart(entry, last);
    }
}

/// The votes of one more snippet landmark follow the votes of those before
/// it.
pub proof fn lemma_vote_lists_step(snippet: Seq<HashEntry>, track: Seq<HashEntry>, count: int)
    requires
        count >= 0,
    ensures
        vote_lists(snippet, track, count + 1).flatten() == vote_lists(snippet, track, count).flatten()
            + entry_votes(snippet[count], track),
{
    let shorter = vote_lists(snippet, track, count);
    let last = entry_votes(snippet[count], track);
    assert(vote_lists(snippet, track, count + 1) =~= shorter.push(last));
    shorter.lemma_flatten_push(last);
}

/// A vote adds one to the tally of its offset and nothing to the others; no
/// tally exceeds the number of votes.
pub proof fn lemma_tally_push(cast: Seq<int>, vote: int, offset: int)
    ensures
        tally(cast.push(vote), offset) == tally(cast, offset) + if vote == offset {
            1nat
        } else {
            0nat
        },
        tally(cast, offset) <= cast.len(),
{
    cast.lemma_filter_push(vote, is_vote_for(offset));
    cast.lemma_filter_len(is_vote_for(offset));
}

/// Before the first vote every tally is 0.
pub proof fn lemma_tally_empty(offset: int)
    ensures
        tally(Seq::<int>::empty(), offset) == 0,
{
    reveal(Seq::filter);
}

/// A tally never shrinks as votes come in.
proof fn lemma_tally_grows(cast: Seq<int>, upto: int, offset: int)
    requires
        0 <= upto <= cast.len(),
    ensures
        tally(cast.take(upto), offset) <= tally(cast, offset),
    decreases cast.len() - upto,
{
    if upto < cast.len() {
        lemma_tally_grows(cast, upto + 1, offset);
        assert(cast.take(upto + 1) =~= cast.take(upto).push(cast[upto]));
        lemma_tally_push(cast.take(upto), cast[upto], offset);
    } else {
        assert(cast.take(upto) =~= cast);
    }
}

proof fn lemma_leader_stays(cast: Seq<int>, vote: int, offset: int, count: nat)
    requires
        reaches_first(cast, offset, count),
    ensures
        reaches_first(cast.push(vote), offset, count),
{
    let at = choose|at: int| leads_at(cast, at, offset, count);
    let longer = cast.push(vote);
    assert(longer.take(at + 1) =~= cast.take(at + 1));
    assert(longer.take(at) =~= cast.take(at));
    assert(leads_at(longer, at, offset, count));
}

proof fn lemma_new_leader(cast: Seq<int>, vote: int, count: nat)
    requires
        forall|other: int| #[trigger] tally(cast, other) < count,
        tally(cast.push(vote), vote) == count,
    ensures
        reaches_first(cast.push(vote), vote, count),
{
    let longer = cast.push(vote);
    let at = cast.len() as int;
    assert(longer.take(at + 1) =~= longer);
    assert(longer.take(at) =~= cast);
    assert(leads_at(longer, at, vote, count));
}

/// Given the votes, landmark matching has one outcome.
pub proof fn lemma_landmark_match_unique(
    cast: Seq<int>,
    first: Option<LandmarkMatch>,
    second: Option<LandmarkMatch>,
)
    requires
        is_landmark_match(cast, first),
        is_landmark_match(cast, second),
    ensures
        first == second,
{
    match (first, second) {
        (Some(a), Some(b)) => {
            let count = a.collisions as nat;
            let at_a = choose|at: int| leads_at(cast, at, a.offset_frames as int, count);
            let at_b = choose|at: int| leads_at(cast, at, b.offset_frames as int, count);
            if at_a < at_b {
                lemma_tally_grows(cast.take(at_b), at_a + 1, a.offset_frames as int);
                assert(cast.take(at_b).take(at_a + 1) =~= cast.take(at_a + 1));
            } else if at_b < at_a {
                lemma_tally_grows(cast.take(at_a), at_b + 1, b.offset_frames as int);
                assert(cast.take(at_a).take(at_b + 1) =~= cast.take(at_b + 1));
            }
        },
        (Some(a), None) => {
            assert(tally(cast, a.offset_frames as int) <= COLLISION_THRESHOLD);
        },
        (None, Some(b)) => {
            assert(tally(cast, b.offset_frames as int) <= COLLISION_THRESHOLD);
        },
        (None, None) => {},
    }
}

/// However many votes are cast, a 128-bit counter holds their number.
proof fn lemma_votes_fit(done: int, per_entry: int)
    by (nonlinear_arith)
    requires
        0 <= done <= 0xffff_ffff_ffff_ffff,
        0 <= per_entry <= 0xffff_ffff_ffff_ffff,
    ensures
        done * per_entry + per_entry < 0xffff_ffff_ffff_ffff_ffff_ffff_ffff_ffff,
{
}

fn entry_key(entry: &HashEntry) -> (key: u64)
    ensures
        key == key_of(*entry),
{
    (entry.f1 as u64) * 0x1_0000_0000 + (entry.f2 as u64) * 0x1_0000 + (entry.delta_t as u64)
}

/// Whether `index` holds, under each key, the anchors of the track landmarks
/// with that key, and nothing under a key that no landmark has.
spec fn indexes(index: Map<u64, Vec<u32>>, track: Seq<HashEntry>) -> bool {
    forall|key: u64|
        #![trigger index.contains_key(key)]
        #![trigger anchors_of(track, key)]
        {
            &&& index.contains_key(key) <==> anchors_of(track, key).len() > 0
            &&& index.contains_key(key) ==> index[key]@ == anchors_of(track, key)
        }
}

/// Groups the anchor times of a track by landmark key.
fn index_track(track: &Vec<HashEntry>) -> (index: HashMap<u64, Vec<u32>>)
    ensures
        indexes(index@, track@),
{
    let mut index: HashMap<u64, Vec<u32>> = HashMap::new();
    let mut at: usize = 0;
    assert forall|key: u64| anchors_of(track@.take(0), key).len() == 0 by {
        reveal(Seq::filter);
    }
    while at < track.len()
        invariant
            at <= track.len(),
            indexes(index@, track@.take(at as int)),
        decreases track.len() - at,
    {
        let entry = track[at];
        let key = entry_key(&entry);
        let ghost before = index@;
        let ghost seen = track@.take(at as int);
        let anchors = index.entry(key).or_insert(Vec::new());
        anchors.push(entry.anchor_time);
        proof {
            assert(track@.take(at + 1) =~= seen.push(entry));
            assert forall|other: u64|
                #![trigger index@.contains_key(other)]
                #![trigger anchors_of(seen.push(entry), other)]
                {
                    &&& index@.contains_key(other) <==> anchors_of(seen.push(entry), other).len() > 0
                    &&& index@.contains_key(other) ==> index@[other]@ == anchors_of(
                        seen.push(entry),
                        other,
                    )
                } by {
                lemma_anchors_of_push(seen, entry, other);
            }
        }
        at += 1;
    }
    assert(track@.take(track.len() as int) =~= track@);
    index
}

/// Whether `counts` holds the tally of every offset that has a vote.
spec fn counts_tally(counts: Map<i64, u128>, cast: Seq<int>) -> bool {
    forall|offset: int|
        #![trigger tally(cast, offset)]
        tally(cast, offset) == if i64::MIN <= offset <= i64::MAX && counts.contains_key(
            offset as i64,
        ) {
            counts[offset as i64] as nat
        } else {
            0nat
        }
}

/// Whether `offset` leads the vote with `count` votes; with no vote cast,
/// `count` is 0.
spec fn leads(cast: Seq<int>, offset: int, count: nat) -> bool {
    &&& forall|other: int| #[trigger] tally(cast, other) <= count
    &&& count > 0 ==> tally(cast, offset) == count && reaches_first(cast, offset, count)
}

/// Finds where in the track the snippet occurs, by the votes of their common
/// landmarks: each pair of a snippet landmark and a track landmark of the
/// same key votes for the number of frames between the two.
pub fn match_landmark(snippet: &LandmarkFingerprint, track: &LandmarkFingerprint) -> (found: Option<LandmarkMatch>)
    ensures
        is_landmark_match(votes(snippet@, track@), found),
        found is Some <==> exists|offset: int| collisions(snippet@, track@, offset) > COLLISION_THRESHOLD,
{
    let index = index_track(&track.entries);
    let mut counts: HashMap<i64, u128> = HashMap::new();
    let mut best_offset: i64 = 0;
    let mut best_count: u128 = 0;
    let ghost mut cast: Seq<int> = Seq::empty();
    let mut at: usize = 0;
    proof {
        assert forall|offset: int| tally(cast, offset) == 0 by {
            lemma_tally_empty(offset);
        }
    }
    let ghost track_len = track.entries.len();
    while at < snippet.entries.len()
        invariant
            at <= snippet.entries.len(),
            track@.len() == track_len,
            indexes(index@, track@),
            cast == vote_lists(snippet@, track@, at as int).flatten(),
            cast.len() <= at * track@.len(),
            counts_tally(counts@, cast),
            leads(cast, best_offset as int, best_count as nat),
        decreases snippet.entries.len() - at,
    {
        let entry = snippet.entries[at];
        let key = entry_key(&entry);
        let ghost row = entry_votes(entry, track@);
        let ghost base = cast;
        proof {
            lemma_votes_from_anchors(entry, track@);
            lemma_vote_lists_step(snippet@, track@, at as int);
            track@.lemma_filter_len(|other: HashEntry| same_key(entry, other));
            assert((at + 1) * track@.len() == at * track@.len() + track@.len()) by (nonlinear_arith);
        }
        match index.get(&key) {
            Some(anchors) => {
                let mut next: usize = 0;
                while next < anchors.len()
                    invariant
                        next <= anchors.len(),
                        anchors@.len() == row.len(),
                        forall|k: int|
                            0 <= k < row.len() ==> #[trigger] row[k] == anchors@[k]
                                - entry.anchor_time,
                        cast == base + row.take(next as int),
                        base.len() <= at * track@.len(),
                        row.len() <= track@.len(),
                        track@.len() == track_len,
                        at < snippet.entries.len(),
                        counts_tally(counts@, cast),
                        leads(cast, best_offset as int, best_count as nat),
                    decreases anchors.len() - next,
                {
                    let shift: i64 = anchors[next] as i64 - entry.anchor_time as i64;
                    let ghost earlier = cast;
                    let ghost tallied = counts@;
                    proof {
                        lemma_tally_push(earlier, shift as int, shift as int);
                        lemma_votes_fit(at as int, track_len as int);
                    }
                    let count = counts.entry(shift).or_insert(0);
                    *count = *count + 1;
                    let reached: u128 = *count;
                    proof {
                        cast = earlier.push(shift as int);
                        assert forall|offset: int|
                            #![trigger tally(cast, offset)]
                            tally(cast, offset) == if i64::MIN <= offset <= i64::MAX
                                && counts@.contains_key(offset as i64) {
                                counts@[offset as i64] as nat
                            } else {
                                0nat
                            } by {
                            lemma_tally_push(earlier, shift as int, offset);
                            assert(tally(earlier, offset) == if i64::MIN <= offset <= i64::MAX
                                && tallied.contains_key(offset as i64) {
                                tallied[offset as i64] as nat
                            } else {
                                0nat
                            });
                        }
                        assert forall|other: int| #[trigger]
                            tally(cast, other) <= tally(earlier, other) + 1 by {
                            lemma_tally_push(earlier, shift as int, other);
                        }
                    }
                    if reached > best_count {
                        proof {
                            assert forall|other: int| #[trigger]
                                tally(earlier, other) < reached as nat by {}
                            lemma_new_leader(earlier, shift as int, reached as nat);
                            assert forall|other: int| #[trigger]
                                tally(cast, other) <= reached as nat by {}
                        }
                        best_offset = shift;
                        best_count = reached;
                    } else {
                        proof {
                            assert forall|other: int| #[trigger]
                                tally(cast, other) <= best_count as nat by {
                                lemma_tally_push(earlier, shift as int, other);
                                if other != shift {
                                    assert(tally(earlier, other) <= best_count);
                                }
                            }
                            if best_count > 0 {
                                lemma_leader_stays(
                                    earlier,
                                    shift as int,
                                    best_offset as int,
                                    best_count as nat,
                                );
                                lemma_tally_push(earlier, shift as int, best_offset as int);
                            }
                        }
                    }
                    next += 1;
                }
            },
            None => {
                assert(base + row =~= base);
            },
        }
        at += 1;
    }
    proof {
        if best_count > COLLISION_THRESHOLD {
            assert(collisions(snippet@, track@, best_offset as int) > COLLISION_THRESHOLD);
        } else {
            assert forall|offset: int| collisions(snippet@, track@, offset)
                <= COLLISION_THRESHOLD by {}
        }
    }
    if best_count > COLLISION_THRESHOLD {
        Some(LandmarkMatch { offset_frames: best_offset, collisions: best_count })
    } else {
        None
    }
}

/// Collisions exactly at the threshold are no match: a match needs one
/// collision more.
pub proof fn lemma_collision_threshold_is_exclusive(
    snippet: Seq<HashEntry>,
    track: Seq<HashEntry>,
    found: Option<LandmarkMatch>,
)
    requires
        is_landmark_match(votes(snippet, track), found),
    ensures
        (forall|offset: int| collisions(snippet, track, offset) <= COLLISION_THRESHOLD)
            ==> found is None,
        (exists|offset: int| collisions(snippet, track, offset) == COLLISION_THRESHOLD + 1)
            ==> found is Some,
{
    let cast = votes(snippet, track);
    if found is Some {
        let best = found->0;
        assert(collisions(snippet, track, best.offset_frames as int) > COLLISION_THRESHOLD);
    }
    if exists|offset: int| collisions(snippet, track, offset) == COLLISION_THRESHOLD + 1 {
        let offset = choose|offset: int| collisions(snippet, track, offset) == COLLISION_THRESHOLD
            + 1;
    }
}

/// Without landmarks on either side nothing votes.
pub proof fn lemma_no_landmarks_no_votes(snippet: Seq<HashEntry>, track: Seq<HashEntry>)
    requires
        snippet.len() == 0 || track.len() == 0,
    ensures
        votes(snippet, track) == Seq::<int>::empty(),
{
    lemma_no_votes_upto(snippet, track, snippet.len() as int);
}

proof fn lemma_no_votes_upto(snippet: Seq<HashEntry>, track: Seq<HashEntry>, count: int)
    requires
        snippet.len() == 0 || track.len() == 0,
        0 <= count <= snippet.len(),
    ensures
        vote_lists(snippet, track, count).flatten() == Seq::<int>::empty(),
    decreases count,
{
    if count == 0 {
        assert(vote_lists(snippet, track, 0).flatten() =~= Seq::<int>::empty());
    } else {
        lemma_no_votes_upto(snippet, track, count - 1);
        lemma_vote_lists_step(snippet, track, count - 1);
        assert(entry_votes(snippet[count - 1], track) =~= Seq::<int>::empty()) by {
            reveal(Seq::filter);
        }
    }
}

/// Number of frames that the landmarks of a recording reach over: one more
/// than the latest frame that a landmark ends in.
pub open spec fn frames_spanned(entries: Seq<HashEntry>) -> nat
    decreases entries.len(),
{
    if entries.len() == 0 {
        0
    } else {
        let before = frames_spanned(entries.drop_last());
        let here = (entries.last().anchor_time + entries.last().delta_t + 1) as nat;
        if here > before {
            here
        } else {
            before
        }
    }
}

/// A snippet that spans more frames than the track is no match, unless more
/// landmarks than the threshold collide at some offset all the same; the
/// votes do not know how long a recording is.
pub proof fn lemma_longer_snippet_is_no_match(
    snippet: Seq<HashEntry>,
    track: Seq<HashEntry>,
    found: Option<LandmarkMatch>,
)
    requires
        frames_spanned(snippet) > frames_spanned(track),
        forall|offset: int| collisions(snippet, track, offset) <= COLLISION_THRESHOLD,
        is_landmark_match(votes(snippet, track), found),
    ensures
        found is None,
{
    lemma_collision_threshold_is_exclusive(snippet, track, found);
}

/// A track too short to have a landmark holds no snippet, however long the
/// snippet: the match is none, and nothing else is reported.
pub proof fn lemma_track_without_landmarks_is_no_match(
    snippet: Seq<HashEntry>,
    track: Seq<HashEntry>,
    found: Option<LandmarkMatch>,
)
    requires
        track.len() == 0,
        is_landmark_match(votes(snippet, track), found),
    ensures
        found is None,
{
    lemma_no_landmarks_no_votes(snippet, track);
    if found is Some {
        let best = found->0;
        lemma_tally_empty(best.offset_frames as int);
    }
}

} // verus!
