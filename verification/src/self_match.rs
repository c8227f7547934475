//! A fingerprint matched against itself: no offset collects as many
//! collisions as offset 0.
//!
//! The collisions at an offset are the sum, over all classes of landmarks,
//! of the size of the class times the size of the class that lies the offset
//! later; at offset 0 this is the sum of the squares of the sizes, which no
//! other such sum reaches.

use crate::classes::{
    class_bound, class_of, count_in, is_offset, lemma_class_in_bounds, lemma_collisions_by_class,
    lemma_count_by_members, lemma_no_collisions_out_of_range, lemma_range_sum_same,
    lemma_range_sum_shift, lemma_range_sum_split, lemma_range_sum_zero, lemma_tally_of_both,
    lemma_votes_by_class, product_at, range_high, range_low, range_sum, term_at,
};
use crate::landmark::HashEntry;
use crate::matcher::{
    collisions, entry_votes, is_landmark_match, lemma_tally_empty, lemma_vote_lists_step, tally,
    vote_lists, votes, LandmarkMatch, COLLISION_THRESHOLD,
};
use vstd::prelude::*;

verus! {

/// Square of the size of the class `offset` later.
pub open spec fn square_at(entries: Seq<HashEntry>, offset: int) -> spec_fn(int) -> int {
    |class: int| (count_in(entries, class + offset) * count_in(entries, class + offset)) as int
}

/// Twice the sum of products is at most the sum of the squares of both
/// factors, and less where at some point one factor is 0 and the other not.
proof fn lemma_products_below_squares(
    products: spec_fn(int) -> int,
    squares: spec_fn(int) -> int,
    later: spec_fn(int) -> int,
    low: int,
    high: int,
)
    requires
        forall|at: int|
            low <= at < high ==> 2 * #[trigger] term_at(products, at) <= term_at(squares, at)
                + term_at(later, at),
    ensures
        2 * range_sum(products, low, high) <= range_sum(squares, low, high) + range_sum(
            later,
            low,
            high,
        ),
        forall|at: int|
            low <= at < high && 2 * #[trigger] term_at(products, at) < term_at(squares, at)
                + term_at(later, at) ==> 2 * range_sum(products, low, high) < range_sum(
                squares,
                low,
                high,
            ) + range_sum(later, low, high),
    decreases high - low,
{
    if low < high {
        lemma_products_below_squares(products, squares, later, low, high - 1);
        assert(2 * term_at(products, high - 1) <= term_at(squares, high - 1) + term_at(
            later,
            high - 1,
        ));
    }
}

/// The squares of the class sizes sum to the same over every range that
/// holds all classes.
proof fn lemma_squares_over(entries: Seq<HashEntry>, low: int, high: int)
    requires
        low <= 0,
        class_bound() <= high,
    ensures
        range_sum(square_at(entries, 0), low, high) == range_sum(
            square_at(entries, 0),
            0,
            class_bound(),
        ),
{
    let plain = square_at(entries, 0);
    let bound = class_bound();
    assert forall|class: int| class < 0 || class >= bound implies #[trigger] term_at(plain, class)
        == 0 by {
        assert forall|at: int| 0 <= at < entries.len() implies class_of(entries[at]) != class by {
            lemma_class_in_bounds(entries[at]);
        }
        lemma_count_by_members(entries, class);
        assert(0 * 0 == 0);
    }
    lemma_range_sum_split(plain, low, 0, high);
    lemma_range_sum_split(plain, 0, bound, high);
    lemma_range_sum_zero(plain, low, 0);
    lemma_range_sum_zero(plain, bound, high);
}

/// The squares of the class sizes sum to the same whether the classes are
/// taken as they are or an offset later.
proof fn lemma_squares_shift(entries: Seq<HashEntry>, offset: int)
    requires
        is_offset(offset),
    ensures
        range_sum(square_at(entries, offset), range_low(), range_high()) == range_sum(
            square_at(entries, 0),
            range_low(),
            range_high(),
        ),
{
    let plain = square_at(entries, 0);
    let later = square_at(entries, offset);
    assert forall|class: int| range_low() <= class < range_high() implies #[trigger] term_at(
        later,
        class,
    ) == term_at(plain, class + offset) by {}
    lemma_range_sum_shift(plain, later, offset, range_low(), range_high());
    lemma_squares_over(entries, range_low() + offset, range_high() + offset);
    lemma_squares_over(entries, range_low(), range_high());
}

/// Some landmark has the greatest class.
proof fn lemma_greatest_class(entries: Seq<HashEntry>) -> (at: int)
    requires
        entries.len() > 0,
    ensures
        0 <= at < entries.len(),
        forall|other: int| 0 <= other < entries.len() ==> class_of(entries[other]) <= class_of(
            entries[at],
        ),
    decreases entries.len(),
{
    if entries.len() == 1 {
        0
    } else {
        let rest = entries.drop_last();
        let best = lemma_greatest_class(rest);
        assert forall|other: int| 0 <= other < rest.len() implies class_of(entries[other])
            <= class_of(entries[best]) by {
            assert(rest[other] == entries[other]);
        }
        if class_of(entries.last()) > class_of(entries[best]) {
            entries.len() - 1
        } else {
            best
        }
    }
}

/// Some landmark has the least class.
proof fn lemma_least_class(entries: Seq<HashEntry>) -> (at: int)
    requires
        entries.len() > 0,
    ensures
        0 <= at < entries.len(),
        forall|other: int| 0 <= other < entries.len() ==> class_of(entries[other]) >= class_of(
            entries[at],
        ),
    decreases entries.len(),
{
    if entries.len() == 1 {
        0
    } else {
        let rest = entries.drop_last();
        let best = lemma_least_class(rest);
        assert forall|other: int| 0 <= other < rest.len() implies class_of(entries[other])
            >= class_of(entries[best]) by {
            assert(rest[other] == entries[other]);
        }
        if class_of(entries.last()) < class_of(entries[best]) {
            entries.len() - 1
        } else {
            best
        }
    }
}

/// Matched against itself, a fingerprint with a landmark collides less
/// often at any other offset than at offset 0.
pub proof fn lemma_offset_zero_collides_most(entries: Seq<HashEntry>, offset: int)
    requires
        entries.len() > 0,
        offset != 0,
    ensures
        collisions(entries, entries, offset) < collisions(entries, entries, 0),
{
    lemma_self_collisions_at_least_len(entries, entries.len() as int);
    assert(entries.take(entries.len() as int) =~= entries);
    if !is_offset(offset) {
        lemma_no_collisions_out_of_range(entries, entries, offset, entries.len() as int);
    } else {
        let low = range_low();
        let high = range_high();
        let products = product_at(entries, entries, offset);
        let plain_products = product_at(entries, entries, 0);
        let squares = square_at(entries, 0);
        let later = square_at(entries, offset);
        lemma_collisions_by_class(entries, entries, offset, entries.len() as int);
        lemma_collisions_by_class(entries, entries, 0, entries.len() as int);
        assert forall|class: int| low <= class < high implies #[trigger] term_at(
            plain_products,
            class,
        ) == term_at(squares, class) by {}
        lemma_range_sum_same(plain_products, squares, low, high);
        lemma_squares_shift(entries, offset);
        assert forall|class: int| low <= class < high implies 2 * #[trigger] term_at(
            products,
            class,
        ) <= term_at(squares, class) + term_at(later, class) by {
            let here = count_in(entries, class) as int;
            let there = count_in(entries, class + offset) as int;
            assert(2 * (here * there) <= here * here + there * there) by (nonlinear_arith);
        }
        lemma_products_below_squares(products, squares, later, low, high);
        let far = if offset > 0 {
            lemma_greatest_class(entries)
        } else {
            lemma_least_class(entries)
        };
        let point = class_of(entries[far]);
        lemma_class_in_bounds(entries[far]);
        lemma_count_by_members(entries, point);
        lemma_count_by_members(entries, point + offset);
        let here = count_in(entries, point) as int;
        assert(here * 0 == 0);
        assert(0 < here * here) by (nonlinear_arith)
            requires
                here > 0,
        ;
        assert(2 * term_at(products, point) < term_at(squares, point) + term_at(later, point));
    }
}

/// Every landmark collides with itself at offset 0.
proof fn lemma_self_collisions_at_least_len(entries: Seq<HashEntry>, count: int)
    requires
        0 <= count <= entries.len(),
    ensures
        tally(vote_lists(entries, entries, count).flatten(), 0) >= count,
    decreases count,
{
    if count == 0 {
        lemma_tally_empty(0);
    } else {
        let entry = entries[count - 1];
        lemma_self_collisions_at_least_len(entries, count - 1);
        lemma_vote_lists_step(entries, entries, count - 1);
        lemma_tally_of_both(
            vote_lists(entries, entries, count - 1).flatten(),
            entry_votes(entry, entries),
            0,
        );
        lemma_votes_by_class(entry, entries, 0);
        lemma_count_by_members(entries, class_of(entry));
    }
}

/// A fingerprint collides with itself at offset 0 at least once for each of
/// its landmarks.
pub proof fn lemma_self_collisions_count_landmarks(entries: Seq<HashEntry>)
    ensures
        collisions(entries, entries, 0) >= entries.len(),
{
    lemma_self_collisions_at_least_len(entries, entries.len() as int);
}

/// A fingerprint with a landmark, matched against itself, is found at offset
/// 0 with as many collisions as it has pairs of landmarks of one key and one
/// anchor time, provided these are more than the threshold; with fewer the
/// match is none, as with every pair of fingerprints.
pub proof fn lemma_self_match(entries: Seq<HashEntry>, found: Option<LandmarkMatch>)
    requires
        entries.len() > 0,
        is_landmark_match(votes(entries, entries), found),
    ensures
        collisions(entries, entries, 0) >= entries.len(),
        collisions(entries, entries, 0) > COLLISION_THRESHOLD ==> found == Some(
            (LandmarkMatch {
                offset_frames: 0,
                collisions: collisions(entries, entries, 0) as u128,
            }),
        ),
        collisions(entries, entries, 0) <= COLLISION_THRESHOLD ==> found is None,
{
    lemma_self_collisions_count_landmarks(entries);
    let cast = votes(entries, entries);
    match found {
        Some(best) => {
            if best.offset_frames != 0 {
                lemma_offset_zero_collides_most(entries, best.offset_frames as int);
            }
        },
        None => {
            assert(tally(cast, 0) <= COLLISION_THRESHOLD);
        },
    }
}

} // verus!
