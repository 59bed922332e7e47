//! Sorting the collected changes by identifier and path position.
use vstd::prelude::*;
use std::cmp::Ordering;
use crate::order::ranks_before;
use crate::tracker::Item;

verus! {

/// How the items at positions `a` and `b` compare: by identifier first, then
/// by where their paths start and end, and last by position.
pub fn item_ordering(items: &Vec<Item>, a: usize, b: usize) -> (r: Ordering)
    requires
        a < items@.len(),
        b < items@.len(),
    ensures
        (r == Ordering::Less) == ranks_before(items@, a, b),
        (r == Ordering::Greater) == ranks_before(items@, b, a),
        (r == Ordering::Equal) == (a == b),
{
    let first = &items[a];
    let second = &items[b];
    let by_id = first.change.oid().compare(&second.change.oid());
    proof {
        crate::hash::lemma_lex_flip(first.change.oid()@, second.change.oid()@);
    }
    if by_id < 0 {
        Ordering::Less
    } else if by_id > 0 {
        Ordering::Greater
    } else if first.start < second.start {
        Ordering::Less
    } else if first.start > second.start {
        Ordering::Greater
    } else if first.end < second.end {
        Ordering::Less
    } else if first.end > second.end {
        Ordering::Greater
    } else if a < b {
        Ordering::Less
    } else if a > b {
        Ordering::Greater
    } else {
        Ordering::Equal
    }
}

/// Sorts the positions in `order` with the slice's `sort_by`, comparing by
/// `item_ordering`. The contract says what a sort is: the positions are the
/// same ones, each as often as before, and no later one ranks before an
/// earlier one.
#[verifier::external_body]
pub(crate) fn sort_positions(order: &mut Vec<usize>, items: &Vec<Item>)
    requires
        forall|p: int| 0 <= p < old(order)@.len() ==> old(order)@[p] < items@.len(),
    ensures
        final(order)@.to_multiset() == old(order)@.to_multiset(),
        forall|p: int, q: int|
            0 <= p < q < final(order)@.len() ==> !ranks_before(
                items@,
                #[trigger] final(order)@[q],
                #[trigger] final(order)@[p],
            ),
{
    order.sort_by(|a, b| item_ordering(items, *a, *b));
}

} // verus!
