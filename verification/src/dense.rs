//! Dense matching: where to slide a snippet over a track, and which of the
//! similarity scores of those places wins.
//!
//! A score reaches this module as a level, a signed integer ordered as the
//! similarity it stands for.

use vstd::prelude::*;

verus! {

/// The last column of the track at which a snippet of `snippet_frames`
/// frames still fits, if it fits at all; the snippet is tried at every
/// column from 0 to that one.
pub open spec fn spec_last_start(snippet_frames: int, track_frames: int) -> Option<int> {
    if snippet_frames > track_frames {
        None
    } else {
        Some(track_frames - snippet_frames)
    }
}

/// Finds the last column at which the snippet fits; none when the snippet
/// spans more frames than the track.
pub fn dense_last_start(snippet_frames: usize, track_frames: usize) -> (last: Option<usize>)
    ensures
        last is None <==> snippet_frames > track_frames,
        last matches Some(column) ==> spec_last_start(snippet_frames as int, track_frames as int)
            == Some(column as int),
{
    if snippet_frames > track_frames {
        None
    } else {
        Some(track_frames - snippet_frames)
    }
}

/// The outcome of dense matching.
#[derive(Clone, Copy, Debug, PartialEq, Eq, Structural)]
pub struct DenseMatch {
    /// Column of the track at which the snippet starts.
    pub column: usize,
    /// Level of the similarity score there.
    pub score: i64,
}

/// What dense matching returns for the scores of all columns: nothing
/// unless a score is at least `threshold`; else the highest score and its
/// column, the first of several columns with that score.
pub open spec fn is_dense_match(scores: Seq<i64>, threshold: i64, found: Option<DenseMatch>) -> bool {
    match found {
        None => forall|column: int| 0 <= column < scores.len() ==> scores[column] < threshold,
        Some(best) => {
            &&& best.column < scores.len()
            &&& best.score == scores[best.column as int]
            &&& best.score >= threshold
            &&& forall|column: int| 0 <= column < scores.len() ==> scores[column] <= best.score
            &&& forall|column: int| 0 <= column < best.column ==> scores[column] < best.score
        },
    }
}

/// Picks the best column from the scores of all columns.
pub fn select_dense_match(scores: &Vec<i64>, threshold: i64) -> (found: Option<DenseMatch>)
    ensures
        is_dense_match(scores@, threshold, found),
        found is Some <==> exists|column: int| 0 <= column < scores@.len() && scores@[column] >= threshold,
{
    if scores.len() == 0 {
        return None;
    }
    let mut best: usize = 0;
    let mut column: usize = 1;
    while column < scores.len()
        invariant
            best < column <= scores.len(),
            forall|c: int| 0 <= c < column ==> scores@[c] <= scores@[best as int],
            forall|c: int| 0 <= c < best ==> scores@[c] < scores@[best as int],
        decreases scores.len() - column,
    {
        if scores[column] > scores[best] {
            best = column;
        }
        column += 1;
    }
    if scores[best] >= threshold {
        Some(DenseMatch { column: best, score: scores[best] })
    } else {
        None
    }
}

/// Given the scores, dense matching has one outcome.
pub proof fn lemma_dense_match_unique(
    scores: Seq<i64>,
    threshold: i64,
    first: Option<DenseMatch>,
    second: Option<DenseMatch>,
)
    requires
        is_dense_match(scores, threshold, first),
        is_dense_match(scores, threshold, second),
    ensures
        first == second,
{
    match (first, second) {
        (Some(a), Some(b)) => {
            if a.column < b.column {
                assert(scores[a.column as int] < b.score);
            } else if b.column < a.column {
                assert(scores[b.column as int] < a.score);
            }
        },
        (Some(a), None) => {
            assert(scores[a.column as int] < threshold);
        },
        (None, Some(b)) => {
            assert(scores[b.column as int] < threshold);
        },
        (None, None) => {},
    }
}

/// A snippet that is the whole track fits at column 0 and nowhere else: it
/// has one score. It is found exactly if that score is at least the
/// threshold, and then at column 0 with that score. Whether the score of a
/// recording with itself is that high is for the one who computes it.
pub proof fn lemma_whole_track_starts_at_zero(
    frames: int,
    scores: Seq<i64>,
    threshold: i64,
    found: Option<DenseMatch>,
)
    requires
        frames >= 0,
        spec_last_start(frames, frames) matches Some(last) && scores.len() == last + 1,
        is_dense_match(scores, threshold, found),
    ensures
        spec_last_start(frames, frames) == Some(0int),
        found is Some <==> scores[0] >= threshold,
        found matches Some(best) ==> best.column == 0 && best.score == scores[0],
{
    match found {
        Some(best) => {
            assert(best.score == scores[best.column as int]);
        },
        None => {
            assert(scores[0] < threshold);
        },
    }
}

/// A score exactly at the threshold is a match; any score below it is none.
pub proof fn lemma_dense_threshold_is_inclusive(
    scores: Seq<i64>,
    threshold: i64,
    found: Option<DenseMatch>,
)
    requires
        is_dense_match(scores, threshold, found),
    ensures
        (exists|column: int| 0 <= column < scores.len() && scores[column] == threshold) ==> found is Some,
        (forall|column: int| 0 <= column < scores.len() ==> scores[column] < threshold) ==> found is None,
{
    if exists|column: int| 0 <= column < scores.len() && scores[column] == threshold {
        let column = choose|column: int| 0 <= column < scores.len() && scores[column] == threshold;
    }
    if found is Some {
        let best = found->0;
    }
}

} // verus!
