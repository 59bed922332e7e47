//! The order in which candidates for a rewrite are looked at: by identifier,
//! and among equal identifiers by the position of the path.
use vstd::prelude::*;
use crate::hash::lemma_lex_flip;
use crate::hash::lemma_lex_from_trans;
use crate::hash::lemma_lex_zero;
use crate::hash::lex;
use crate::hash::ObjectId;
use crate::sorting::sort_positions;
use crate::tracker::in_sequence;
use crate::tracker::Item;

verus! {

/// Whether the item at `a` ranks strictly before the item at `b`: its
/// identifier sorts first, or the identifiers agree and its path starts
/// first, or ends first, or it was pushed first.
pub open spec fn ranks_before(items: Seq<Item>, a: usize, b: usize) -> bool {
    let x = items[a as int];
    let y = items[b as int];
    let by_id = lex(x.change.spec_oid()@, y.change.spec_oid()@);
    by_id < 0 || (by_id == 0 && (x.start < y.start || (x.start == y.start && (x.end < y.end || (
    x.end == y.end && a < b)))))
}

/// Whether position `j` occurs in `order`.
pub open spec fn occurs(order: Seq<usize>, j: int) -> bool {
    exists|p: int| 0 <= p < order.len() && #[trigger] order[p] == j
}

/// Whether `order` lists every position of `items` once, ranked.
pub open spec fn is_order(order: Seq<usize>, items: Seq<Item>) -> bool {
    &&& order.len() == items.len()
    &&& forall|p: int| 0 <= p < order.len() ==> #[trigger] order[p] < items.len()
    &&& forall|j: int| 0 <= j < items.len() ==> #[trigger] occurs(order, j)
    &&& forall|p: int, q: int|
        0 <= p < q < order.len() ==> !ranks_before(items, #[trigger] order[q], #[trigger] order[p])
}

/// Among items whose paths lie in sequence, those with the same identifier
/// rank in the order in which they were pushed.
pub proof fn lemma_rank_same_id(items: Seq<Item>, len: int, a: usize, b: usize)
    requires
        in_sequence(items, len),
        a < items.len(),
        b < items.len(),
        items[a as int].change.spec_oid() == items[b as int].change.spec_oid(),
    ensures
        ranks_before(items, a, b) <==> a < b,
{
    lemma_lex_zero(items[a as int].change.spec_oid()@, items[b as int].change.spec_oid()@);
    if a < b {
        assert(items[a as int].end <= items[b as int].start);
    } else if b < a {
        assert(items[b as int].end <= items[a as int].start);
    }
}

/// The positions `0..n`, in ascending order.
fn ascending(n: usize) -> (r: Vec<usize>)
    ensures
        r@.len() == n,
        forall|p: int| 0 <= p < n ==> r@[p] == p,
{
    let mut r: Vec<usize> = Vec::new();
    let mut i: usize = 0;
    while i < n
        invariant
            i <= n,
            r@.len() == i,
            forall|p: int| 0 <= p < i ==> r@[p] == p,
        decreases n - i,
    {
        r.push(i);
        i += 1;
    }
    r
}

/// The positions of `items`, ranked.
pub fn ranked(items: &Vec<Item>) -> (r: Vec<usize>)
    ensures
        is_order(r@, items@),
{
    let mut order = ascending(items.len());
    let ghost before = order@;
    sort_positions(&mut order, items);
    proof {
        vstd::seq_lib::to_multiset_len(before);
        vstd::seq_lib::to_multiset_len(order@);
        assert forall|p: int| 0 <= p < order@.len() implies #[trigger] order@[p] < items@.len() by {
            let v = order@[p];
            vstd::seq_lib::to_multiset_contains(order@, v);
            vstd::seq_lib::to_multiset_contains(before, v);
            assert(order@.contains(v));
            assert(before.contains(v));
        }
        assert forall|j: int| 0 <= j < items@.len() implies #[trigger] occurs(order@, j) by {
            let v = j as usize;
            vstd::seq_lib::to_multiset_contains(order@, v);
            vstd::seq_lib::to_multiset_contains(before, v);
            assert(before[j] == v);
            assert(before.contains(v));
            assert(order@.contains(v));
            let p = choose|p: int| 0 <= p < order@.len() && order@[p] == v;
            assert(order@[p] == j);
        }
    }
    order
}

/// In an order, an item at an earlier place ranks no later than one at a
/// later place: its identifier sorts no later.
pub proof fn lemma_order_ids(order: Seq<usize>, items: Seq<Item>, p: int, q: int)
    requires
        is_order(order, items),
        0 <= p <= q < order.len(),
    ensures
        lex(
            items[order[p] as int].change.spec_oid()@,
            items[order[q] as int].change.spec_oid()@,
        ) <= 0,
{
    let a = items[order[p] as int].change.spec_oid()@;
    let b = items[order[q] as int].change.spec_oid()@;
    lemma_lex_flip(a, b);
    lemma_lex_zero(a, b);
    if p < q {
        assert(!ranks_before(items, order[q], order[p]));
    }
}

/// The first place in `order` whose item has an identifier that does not sort
/// before `id`: every item with the identifier `id` stands at or after it.
pub fn lower_bound(order: &Vec<usize>, items: &Vec<Item>, id: &ObjectId) -> (r: usize)
    requires
        is_order(order@, items@),
    ensures
        r <= order@.len(),
        forall|p: int|
            0 <= p < r ==> lex(items@[(#[trigger] order@[p]) as int].change.spec_oid()@, id@) < 0,
        forall|p: int|
            r <= p < order@.len() ==> lex(
                items@[(#[trigger] order@[p]) as int].change.spec_oid()@,
                id@,
            ) >= 0,
{
    let mut low: usize = 0;
    let mut high: usize = order.len();
    while low < high
        invariant
            is_order(order@, items@),
            low <= high <= order@.len(),
            forall|p: int|
                0 <= p < low ==> lex(
                    items@[(#[trigger] order@[p]) as int].change.spec_oid()@,
                    id@,
                ) < 0,
            forall|p: int|
                high <= p < order@.len() ==> lex(
                    items@[(#[trigger] order@[p]) as int].change.spec_oid()@,
                    id@,
                ) >= 0,
        decreases high - low,
    {
        let mid = low + (high - low) / 2;
        let at = order[mid];
        let c = items[at].change.oid().compare(id);
        if c < 0 {
            proof {
                assert forall|p: int| 0 <= p < mid + 1 implies lex(
                    items@[(#[trigger] order@[p]) as int].change.spec_oid()@,
                    id@,
                ) < 0 by {
                    lemma_order_ids(order@, items@, p, mid as int);
                    lemma_lex_from_trans(
                        items@[order@[p] as int].change.spec_oid()@,
                        items@[at as int].change.spec_oid()@,
                        id@,
                        0,
                    );
                }
            }
            low = mid + 1;
        } else {
            proof {
                assert forall|p: int| mid <= p < order@.len() implies lex(
                    items@[(#[trigger] order@[p]) as int].change.spec_oid()@,
                    id@,
                ) >= 0 by {
                    lemma_order_ids(order@, items@, mid as int, p);
                    let a = items@[at as int].change.spec_oid()@;
                    let b = items@[order@[p] as int].change.spec_oid()@;
                    if lex(b, id@) < 0 {
                        lemma_lex_from_trans(a, b, id@, 0);
                    }
                }
            }
            high = mid;
        }
    }
    low
}

} // verus!
