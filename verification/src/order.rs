//! The order of landmarks carries no meaning: fingerprints that hold the same
//! landmarks equally often collide equally often at every offset, and are
//! matched or not matched alike.

use crate::classes::{
    in_class, is_offset, lemma_collisions_by_class, lemma_no_collisions_out_of_range,
    lemma_range_sum_same, product_at, range_high, range_low, term_at,
};
use crate::landmark::HashEntry;
use crate::matcher::{collisions, is_landmark_match, tally, votes, LandmarkMatch, COLLISION_THRESHOLD};
use vstd::prelude::*;

verus! {

/// Taking one element away takes one away from what a filter keeps, if the
/// filter keeps the element, and none if not.
proof fn lemma_filter_len_remove<A>(items: Seq<A>, at: int, keep: spec_fn(A) -> bool)
    requires
        0 <= at < items.len(),
    ensures
        items.filter(keep).len() == items.remove(at).filter(keep).len() + if keep(items[at]) {
            1nat
        } else {
            0nat
        },
{
    let head = items.take(at);
    let tail = items.skip(at + 1);
    assert(items =~= head.push(items[at]) + tail);
    Seq::filter_distributes_over_add(head.push(items[at]), tail, keep);
    Seq::filter_distributes_over_add(head, tail, keep);
    head.lemma_filter_push(items[at], keep);
}

/// Sequences that hold the same elements equally often have as many
/// elements that a filter keeps.
proof fn lemma_filter_len_ignores_order<A>(first: Seq<A>, second: Seq<A>, keep: spec_fn(A) -> bool)
    requires
        first.to_multiset() == second.to_multiset(),
    ensures
        first.filter(keep).len() == second.filter(keep).len(),
    decreases first.len(),
{
    first.to_multiset_ensures();
    second.to_multiset_ensures();
    if first.len() == 0 {
        assert(first =~= second);
    } else {
        let last = first.last();
        let rest = first.drop_last();
        assert(second.to_multiset().count(last) > 0);
        let at = choose|at: int| 0 <= at < second.len() && second[at] == last;
        assert(first.remove(first.len() - 1) =~= rest);
        lemma_filter_len_ignores_order(rest, second.remove(at), keep);
        lemma_filter_len_remove(first, first.len() - 1, keep);
        lemma_filter_len_remove(second, at, keep);
    }
}

/// Fingerprints that hold the same landmarks equally often collide equally
/// often at every offset.
pub proof fn lemma_collisions_ignore_order(
    snippet: Seq<HashEntry>,
    track: Seq<HashEntry>,
    reordered_snippet: Seq<HashEntry>,
    reordered_track: Seq<HashEntry>,
    offset: int,
)
    requires
        snippet.to_multiset() == reordered_snippet.to_multiset(),
        track.to_multiset() == reordered_track.to_multiset(),
    ensures
        collisions(snippet, track, offset) == collisions(reordered_snippet, reordered_track, offset),
{
    snippet.to_multiset_ensures();
    reordered_snippet.to_multiset_ensures();
    assert(snippet.take(snippet.len() as int) =~= snippet);
    assert(reordered_snippet.take(reordered_snippet.len() as int) =~= reordered_snippet);
    if is_offset(offset) {
        lemma_collisions_by_class(snippet, track, offset, snippet.len() as int);
        lemma_collisions_by_class(
            reordered_snippet,
            reordered_track,
            offset,
            reordered_snippet.len() as int,
        );
        assert forall|class: int| range_low() <= class < range_high() implies #[trigger] term_at(
            product_at(snippet, track, offset),
            class,
        ) == term_at(product_at(reordered_snippet, reordered_track, offset), class) by {
            lemma_filter_len_ignores_order(snippet, reordered_snippet, in_class(class));
            lemma_filter_len_ignores_order(track, reordered_track, in_class(class + offset));
        }
        lemma_range_sum_same(
            product_at(snippet, track, offset),
            product_at(reordered_snippet, reordered_track, offset),
            range_low(),
            range_high(),
        );
    } else {
        lemma_no_collisions_out_of_range(snippet, track, offset, snippet.len() as int);
        lemma_no_collisions_out_of_range(
            reordered_snippet,
            reordered_track,
            offset,
            reordered_snippet.len() as int,
        );
    }
}

/// Fingerprints that hold the same landmarks equally often are matched or
/// not matched alike, and with the same number of collisions; only which of
/// several offsets with that number is reported may depend on the order.
pub proof fn lemma_match_ignores_order(
    snippet: Seq<HashEntry>,
    track: Seq<HashEntry>,
    reordered_snippet: Seq<HashEntry>,
    reordered_track: Seq<HashEntry>,
    found: Option<LandmarkMatch>,
    found_reordered: Option<LandmarkMatch>,
)
    requires
        snippet.to_multiset() == reordered_snippet.to_multiset(),
        track.to_multiset() == reordered_track.to_multiset(),
        is_landmark_match(votes(snippet, track), found),
        is_landmark_match(votes(reordered_snippet, reordered_track), found_reordered),
    ensures
        found is Some <==> found_reordered is Some,
        found matches Some(best) ==> found_reordered matches Some(other) && best.collisions
            == other.collisions && collisions(
            reordered_snippet,
            reordered_track,
            best.offset_frames as int,
        ) == best.collisions,
{
    let cast = votes(snippet, track);
    let recast = votes(reordered_snippet, reordered_track);
    assert forall|offset: int| #[trigger] tally(cast, offset) == tally(recast, offset) by {
        lemma_collisions_ignore_order(snippet, track, reordered_snippet, reordered_track, offset);
    }
    match (found, found_reordered) {
        (Some(best), Some(other)) => {
            assert(tally(cast, other.offset_frames as int) <= best.collisions);
        },
        (Some(best), None) => {
            assert(tally(recast, best.offset_frames as int) <= COLLISION_THRESHOLD);
        },
        (None, Some(other)) => {
            assert(tally(cast, other.offset_frames as int) <= COLLISION_THRESHOLD);
        },
        (None, None) => {},
    }
}

} // verus!
