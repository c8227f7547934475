//! Classes of landmarks: landmarks of one key and one anchor time. The
//! collisions of two fingerprints at an offset are counted class by class:
//! the size of each class of the snippet times the size of the class that
//! lies the offset later in the track, summed over all classes.

use crate::landmark::HashEntry;
use crate::matcher::{
    entry_votes, frame_shift, key_of, lemma_entry_votes_push, lemma_key_of_tells_keys_apart,
    lemma_tally_empty, lemma_tally_push, lemma_vote_lists_step, same_key, tally, vote_lists,
};
use vstd::prelude::*;

verus! {

/// Offsets between two anchor times lie strictly between these bounds.
pub open spec fn is_offset(offset: int) -> bool {
    -0x1_0000_0000 < offset < 0x1_0000_0000
}

/// The class of a landmark as one number: landmarks of one key lie as far
/// apart as their anchors, landmarks of different keys farther than any
/// offset.
pub open spec fn class_of(entry: HashEntry) -> int {
    key_of(entry) as int * 0x2_0000_0000 + entry.anchor_time as int
}

/// Tells the landmarks of a class from the others.
pub open spec fn in_class(class: int) -> spec_fn(HashEntry) -> bool {
    |entry: HashEntry| class_of(entry) == class
}

/// Number of landmarks of a class.
pub open spec fn count_in(entries: Seq<HashEntry>, class: int) -> nat {
    entries.filter(in_class(class)).len()
}

/// Every class lies below this bound.
pub open spec fn class_bound() -> int {
    0x2_0000_0000_0000_0000_0000
}

/// No class, and no class moved by an offset, lies below this bound.
pub open spec fn range_low() -> int {
    -0x1_0000_0000
}

/// Every class, and every class moved by an offset, lies below this bound.
pub open spec fn range_high() -> int {
    class_bound() + 0x1_0000_0000
}

/// Sum of `term` over the integers from `low` up to, not including, `high`.
pub open spec fn range_sum(term: spec_fn(int) -> int, low: int, high: int) -> int
    decreases high - low,
{
    if low >= high {
        0
    } else {
        range_sum(term, low, high - 1) + term_at(term, high - 1)
    }
}

/// The term of a sum at one integer.
pub open spec fn term_at(term: spec_fn(int) -> int, at: int) -> int {
    term(at)
}

/// Size of a class of `entries` times size of the class `offset` later in
/// `others`.
pub open spec fn product_at(entries: Seq<HashEntry>, others: Seq<HashEntry>, offset: int) -> spec_fn(
    int,
) -> int {
    |class: int| (count_in(entries, class) * count_in(others, class + offset)) as int
}

/// Sums of terms that agree over the range are equal.
pub proof fn lemma_range_sum_same(first: spec_fn(int) -> int, second: spec_fn(int) -> int, low: int, high: int)
    requires
        forall|at: int| low <= at < high ==> #[trigger] term_at(first, at) == term_at(second, at),
    ensures
        range_sum(first, low, high) == range_sum(second, low, high),
    decreases high - low,
{
    if low < high {
        lemma_range_sum_same(first, second, low, high - 1);
    }
}

/// A sum of terms that are all 0 is 0.
pub proof fn lemma_range_sum_zero(term: spec_fn(int) -> int, low: int, high: int)
    requires
        forall|at: int| low <= at < high ==> #[trigger] term_at(term, at) == 0,
    ensures
        range_sum(term, low, high) == 0,
    decreases high - low,
{
    if low < high {
        lemma_range_sum_zero(term, low, high - 1);
    }
}

/// A sum over a range is the sum over its lower part and the sum over its
/// upper part.
pub proof fn lemma_range_sum_split(term: spec_fn(int) -> int, low: int, middle: int, high: int)
    requires
        low <= middle <= high,
    ensures
        range_sum(term, low, high) == range_sum(term, low, middle) + range_sum(term, middle, high),
    decreases high - middle,
{
    if middle < high {
        lemma_range_sum_split(term, low, middle, high - 1);
    }
}

/// Moving the terms and the range by the same offset keeps the sum.
pub proof fn lemma_range_sum_shift(
    term: spec_fn(int) -> int,
    shifted: spec_fn(int) -> int,
    offset: int,
    low: int,
    high: int,
)
    requires
        forall|at: int| low <= at < high ==> #[trigger] term_at(shifted, at) == term_at(term, at + offset),
    ensures
        range_sum(shifted, low, high) == range_sum(term, low + offset, high + offset),
    decreases high - low,
{
    if low < high {
        lemma_range_sum_shift(term, shifted, offset, low, high - 1);
    }
}

/// A sum grows by what one of its terms grows.
pub proof fn lemma_range_sum_point(
    before: spec_fn(int) -> int,
    after: spec_fn(int) -> int,
    point: int,
    gain: int,
    low: int,
    high: int,
)
    requires
        forall|at: int|
            low <= at < high && at != point ==> #[trigger] term_at(after, at) == term_at(before, at),
        after(point) == before(point) + gain,
    ensures
        range_sum(after, low, high) == range_sum(before, low, high) + if low <= point < high {
            gain
        } else {
            0
        },
    decreases high - low,
{
    if low < high {
        lemma_range_sum_point(before, after, point, gain, low, high - 1);
    }
}

/// One more landmark is one more in its class and none more in the others.
pub proof fn lemma_count_push(entries: Seq<HashEntry>, entry: HashEntry, class: int)
    ensures
        count_in(entries.push(entry), class) == count_in(entries, class) + if class_of(entry)
            == class {
            1nat
        } else {
            0nat
        },
{
    entries.lemma_filter_push(entry, in_class(class));
}

/// Without landmarks every class is empty.
pub proof fn lemma_count_empty(class: int)
    ensures
        count_in(Seq::<HashEntry>::empty(), class) == 0,
{
    reveal(Seq::filter);
}

/// A class that no landmark has is empty; a class that one has is not.
pub proof fn lemma_count_by_members(entries: Seq<HashEntry>, class: int)
    ensures
        (forall|at: int| 0 <= at < entries.len() ==> class_of(entries[at]) != class) ==> count_in(
            entries,
            class,
        ) == 0,
        (exists|at: int| 0 <= at < entries.len() && class_of(entries[at]) == class) ==> count_in(
            entries,
            class,
        ) > 0,
    decreases entries.len(),
{
    if entries.len() == 0 {
        lemma_count_empty(class);
    } else {
        let rest = entries.drop_last();
        let last = entries.last();
        assert(rest.push(last) =~= entries);
        lemma_count_by_members(rest, class);
        lemma_count_push(rest, last, class);
        if forall|at: int| 0 <= at < entries.len() ==> class_of(entries[at]) != class {
            assert forall|at: int| 0 <= at < rest.len() implies class_of(rest[at]) != class by {}
        }
    }
}

/// Classes are not negative and lie below `class_bound()`.
pub proof fn lemma_class_in_bounds(entry: HashEntry)
    ensures
        0 <= class_of(entry) < class_bound(),
{
    assert(key_of(entry) < 0x1_0000_0000_0000);
}

/// Two landmarks collide at an offset exactly if their classes lie that
/// offset apart.
pub proof fn lemma_collide_by_class(entry: HashEntry, other: HashEntry, offset: int)
    requires
        is_offset(offset),
    ensures
        (same_key(entry, other) && frame_shift(entry, other) == offset) <==> class_of(other)
            == class_of(entry) + offset,
{
    lemma_key_of_tells_keys_apart(entry, other);
}

/// The votes of one landmark for an offset are the landmarks of the class
/// that lies that offset later.
pub proof fn lemma_votes_by_class(entry: HashEntry, track: Seq<HashEntry>, offset: int)
    requires
        is_offset(offset),
    ensures
        tally(entry_votes(entry, track), offset) == count_in(track, class_of(entry) + offset),
    decreases track.len(),
{
    if track.len() == 0 {
        lemma_count_empty(class_of(entry) + offset);
        assert(entry_votes(entry, track) =~= Seq::<int>::empty()) by {
            reveal(Seq::filter);
        }
        lemma_tally_empty(offset);
    } else {
        let rest = track.drop_last();
        let last = track.last();
        assert(rest.push(last) =~= track);
        lemma_votes_by_class(entry, rest, offset);
        lemma_entry_votes_push(entry, rest, last);
        lemma_count_push(rest, last, class_of(entry) + offset);
        lemma_collide_by_class(entry, last, offset);
        if same_key(entry, last) {
            lemma_tally_push(entry_votes(entry, rest), frame_shift(entry, last), offset);
        }
    }
}

/// No landmark votes for what is no offset.
pub proof fn lemma_no_votes_out_of_range(entry: HashEntry, track: Seq<HashEntry>, offset: int)
    requires
        !is_offset(offset),
    ensures
        tally(entry_votes(entry, track), offset) == 0,
    decreases track.len(),
{
    if track.len() == 0 {
        assert(entry_votes(entry, track) =~= Seq::<int>::empty()) by {
            reveal(Seq::filter);
        }
        lemma_tally_empty(offset);
    } else {
        let rest = track.drop_last();
        let last = track.last();
        assert(rest.push(last) =~= track);
        lemma_no_votes_out_of_range(entry, rest, offset);
        lemma_entry_votes_push(entry, rest, last);
        if same_key(entry, last) {
            lemma_tally_push(entry_votes(entry, rest), frame_shift(entry, last), offset);
        }
    }
}

/// The tally of two runs of votes is the sum of their tallies.
pub proof fn lemma_tally_of_both(first: Seq<int>, second: Seq<int>, offset: int)
    ensures
        tally(first + second, offset) == tally(first, offset) + tally(second, offset),
    decreases second.len(),
{
    if second.len() == 0 {
        lemma_tally_empty(offset);
    } else {
        let rest = second.drop_last();
        let last = second.last();
        lemma_tally_of_both(first, rest, offset);
        lemma_tally_push(first + rest, last, offset);
        lemma_tally_push(rest, last, offset);
    }
}

/// The collisions of the first `count` snippet landmarks with a track, at an
/// offset, class by class.
pub proof fn lemma_collisions_by_class(
    snippet: Seq<HashEntry>,
    track: Seq<HashEntry>,
    offset: int,
    count: int,
)
    requires
        is_offset(offset),
        0 <= count <= snippet.len(),
    ensures
        tally(vote_lists(snippet, track, count).flatten(), offset) == range_sum(
            product_at(snippet.take(count), track, offset),
            range_low(),
            range_high(),
        ),
    decreases count,
{
    let seen = snippet.take(count);
    if count == 0 {
        lemma_tally_empty(offset);
        assert forall|class: int| range_low() <= class < range_high() implies #[trigger] term_at(
            product_at(seen, track, offset),
            class,
        ) == 0 by {
            lemma_count_empty(class);
            assert(0 * count_in(track, class + offset) == 0);
        }
        lemma_range_sum_zero(product_at(seen, track, offset), range_low(), range_high());
    } else {
        let before = snippet.take(count - 1);
        let entry = snippet[count - 1];
        assert(before.push(entry) =~= seen);
        lemma_collisions_by_class(snippet, track, offset, count - 1);
        lemma_vote_lists_step(snippet, track, count - 1);
        lemma_tally_of_both(
            vote_lists(snippet, track, count - 1).flatten(),
            entry_votes(entry, track),
            offset,
        );
        lemma_votes_by_class(entry, track, offset);
        let point = class_of(entry);
        let gain = count_in(track, point + offset) as int;
        lemma_class_in_bounds(entry);
        assert forall|class: int|
            range_low() <= class < range_high() && class != point implies #[trigger] term_at(
            product_at(seen, track, offset),
            class,
        ) == term_at(product_at(before, track, offset), class) by {
            lemma_count_push(before, entry, class);
        }
        assert(product_at(seen, track, offset)(point) == product_at(before, track, offset)(point)
            + gain) by {
            lemma_count_push(before, entry, point);
            let had = count_in(before, point) as int;
            assert((had + 1) * gain == had * gain + gain) by (nonlinear_arith);
        }
        lemma_range_sum_point(
            product_at(before, track, offset),
            product_at(seen, track, offset),
            point,
            gain,
            range_low(),
            range_high(),
        );
    }
}

/// At an offset that no two anchors can be apart, nothing collides.
pub proof fn lemma_no_collisions_out_of_range(
    snippet: Seq<HashEntry>,
    track: Seq<HashEntry>,
    offset: int,
    count: int,
)
    requires
        !is_offset(offset),
        0 <= count <= snippet.len(),
    ensures
        tally(vote_lists(snippet, track, count).flatten(), offset) == 0,
    decreases count,
{
    if count == 0 {
        lemma_tally_empty(offset);
    } else {
        lemma_no_collisions_out_of_range(snippet, track, offset, count - 1);
        lemma_vote_lists_step(snippet, track, count - 1);
        lemma_tally_of_both(
            vote_lists(snippet, track, count - 1).flatten(),
            entry_votes(snippet[count - 1], track),
            offset,
        );
        lemma_no_votes_out_of_range(snippet[count - 1], track, offset);
    }
}

} // verus!
