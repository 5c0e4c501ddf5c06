//! Sorting numbers into their total order.

use std::cmp::Ordering;
use vstd::prelude::*;
use crate::number::{Comparison, DynamicNumber};

verus! {

/// No number comes before one that stands earlier in the sequence.
pub open spec fn ordered(numbers: Seq<DynamicNumber>) -> bool {
    forall|i: int, j: int|
        0 <= i < j < numbers.len() ==> (#[trigger] numbers[i]).key() <= (#[trigger] numbers[j]).key()
}

/// The numbers of a sequence that have the given key, in their order.
pub open spec fn of_key(numbers: Seq<DynamicNumber>, key: int) -> Seq<DynamicNumber>
    decreases numbers.len(),
{
    if numbers.len() == 0 {
        Seq::empty()
    } else if numbers.last().key() == key {
        of_key(numbers.drop_last(), key).push(numbers.last())
    } else {
        of_key(numbers.drop_last(), key)
    }
}

/// Numbers that compare equal stand in `after` in the order in which they
/// stand in `before`.
pub open spec fn keeps_ties(after: Seq<DynamicNumber>, before: Seq<DynamicNumber>) -> bool {
    forall|key: int| #[trigger] of_key(after, key) == of_key(before, key)
}

/// There is one way to put numbers in order without reordering those that
/// compare equal: two sequences in order that hold the same numbers, with
/// the numbers of each key in the same order, are the same sequence.
pub proof fn lemma_sorted_is_unique(a: Seq<DynamicNumber>, b: Seq<DynamicNumber>)
    requires
        ordered(a),
        ordered(b),
        a.to_multiset() == b.to_multiset(),
        keeps_ties(a, b),
    ensures
        a == b,
    decreases a.len(),
{
    a.to_multiset_ensures();
    b.to_multiset_ensures();
    if a.len() == 0 {
        assert(a =~= b);
    } else {
        let x = a.last();
        let y = b.last();
        let top = x.key();
        assert(a.contains(x));
        assert(b.contains(y));
        assert(a.to_multiset().count(x) > 0);
        assert(b.to_multiset().count(x) > 0);
        assert(b.contains(x));
        assert(b.to_multiset().count(y) > 0);
        assert(a.to_multiset().count(y) > 0);
        assert(a.contains(y));
        let i = choose|i: int| 0 <= i < a.len() && a[i] == y;
        let j = choose|j: int| 0 <= j < b.len() && b[j] == x;
        assert(a[i].key() <= a[a.len() - 1].key());
        assert(b[j].key() <= b[b.len() - 1].key());
        assert(y.key() == top);
        let short = a.drop_last();
        let other = b.drop_last();
        assert(of_key(a, top) == of_key(short, top).push(x));
        assert(of_key(b, top) == of_key(other, top).push(y));
        assert(of_key(a, top) == of_key(b, top));
        assert(of_key(short, top).push(x).last() == x);
        assert(of_key(other, top).push(y).last() == y);
        assert(x == y);
        assert(of_key(short, top).push(x).drop_last() =~= of_key(short, top));
        assert(of_key(other, top).push(y).drop_last() =~= of_key(other, top));
        assert forall|key: int| #[trigger] of_key(short, key) == of_key(other, key) by {
            if key != top {
                assert(of_key(a, key) == of_key(short, key));
                assert(of_key(b, key) == of_key(other, key));
                assert(of_key(a, key) == of_key(b, key));
            }
        }
        assert(a.remove(a.len() - 1) =~= short);
        assert(b.remove(b.len() - 1) =~= other);
        assert(short.to_multiset() =~= other.to_multiset());
        lemma_sorted_is_unique(short, other);
        assert(a =~= short.push(x));
        assert(b =~= other.push(y));
    }
}

/// The order of two numbers in the form that the standard library sorts by.
pub fn number_ordering(a: &DynamicNumber, b: &DynamicNumber) -> (o: Ordering)
    ensures
        o == Ordering::Less <==> a.key() < b.key(),
        o == Ordering::Equal <==> a.key() == b.key(),
        o == Ordering::Greater <==> a.key() > b.key(),
{
    match a.compare(b) {
        Comparison::Less => Ordering::Less,
        Comparison::Equal => Ordering::Equal,
        Comparison::Greater => Ordering::Greater,
    }
}

/// Sorts with `slice::sort_by`, comparing by [`number_ordering`].
///
/// Taken from the documentation of `sort_by`, not proved: the sort only
/// rearranges the elements, it leaves them in the order of the comparison,
/// and it is stable, that is, it does not reorder elements that compare
/// equal. The comparison is by key, which orders all numbers, so the sort
/// has no reason to panic.
#[verifier::external_body]
pub(crate) fn sort_numbers(numbers: &mut Vec<DynamicNumber>)
    ensures
        ordered(final(numbers)@),
        final(numbers)@.to_multiset() == old(numbers)@.to_multiset(),
        keeps_ties(final(numbers)@, old(numbers)@),
{
    numbers.sort_by(|a, b| number_ordering(a, b));
}

} // verus!
