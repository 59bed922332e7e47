//! Diffing a sequence of commits pair by pair, and counting what changes.
use vstd::prelude::*;
use crate::error::Error;
use crate::hash::ObjectId;
use crate::source::ObjectKind;
use crate::source::ObjectModel;
use crate::source::ObjectSource;
use crate::tree::changes_between;
use crate::tree::decode_id;
use crate::tree::diff_trees;
use crate::tree::id_of;
use crate::tree::Tracking;

verus! {

/// The bytes of the identifier of the tree that the commit with the bytes
/// `data` points to, if the commit can be decoded that far.
pub uninterp spec fn commit_tree(data: Seq<u8>) -> Option<Seq<u8>>;

/// Reads the tree of a commit with `gix_object::CommitRefIter::tree_id`.
/// What is claimed: the outcome depends on the bytes of the commit alone.
#[verifier::external_body]
fn read_commit_tree(data: &[u8]) -> (r: Option<Vec<u8>>)
    ensures
        r.is_some() == commit_tree(data@).is_some(),
        r.is_some() ==> r.unwrap()@ == commit_tree(data@).unwrap(),
{
    gix_object::CommitRefIter::from_bytes(data).tree_id().ok().map(|id| id.as_bytes().to_vec())
}

/// The tree that the bytes of the commit named `commit` were read to point
/// to: the identifier with these bytes, or a failure to decode the commit
/// where there is none.
pub open spec fn tree_from(read: Option<Seq<u8>>, commit: ObjectId) -> Result<ObjectId, Error> {
    match read {
        Some(bytes) => match id_of(bytes) {
            Some(id) => Ok(id),
            None => Err(Error::Decode(commit)),
        },
        None => Err(Error::Decode(commit)),
    }
}

/// The tree that the commit named `commit` points to. The commit has to be
/// held by `objects`, as a commit.
pub open spec fn tree_of(objects: Map<Seq<u8>, ObjectModel>, commit: ObjectId) -> Result<
    ObjectId,
    Error,
> {
    if objects.contains_key(commit@) && objects[commit@].kind is Commit {
        tree_from(commit_tree(objects[commit@].data), commit)
    } else {
        Err(Error::ObjectMissing(commit))
    }
}

/// The tree that the bytes of the commit named `commit` were read to point
/// to: see `tree_from`.
pub fn checked_tree(read: Option<Vec<u8>>, commit: ObjectId) -> (r: Result<ObjectId, Error>)
    ensures
        r == tree_from(
            match read {
                Some(bytes) => Some(bytes@),
                None => None,
            },
            commit,
        ),
{
    match read {
        Some(bytes) => match decode_id(bytes.as_slice()) {
            Some(id) => Ok(id),
            None => Err(Error::Decode(commit)),
        },
        None => Err(Error::Decode(commit)),
    }
}

/// The tree that the commit named `commit` points to.
pub fn tree_of_commit<S: ObjectSource>(source: &mut S, commit: &ObjectId) -> (r: Result<
    ObjectId,
    Error,
>)
    requires
        old(source).valid(),
    ensures
        final(source).valid(),
        final(source).objects() == old(source).objects(),
        r == tree_of(old(source).objects(), *commit),
{
    match source.find(commit) {
        Some(object) => match object.kind {
            ObjectKind::Commit => checked_tree(read_commit_tree(object.data.as_slice()), *commit),
            _ => Err(Error::ObjectMissing(*commit)),
        },
        None => Err(Error::ObjectMissing(*commit)),
    }
}

/// The number of changes between the trees of two commits, or the error that
/// keeps them from being counted.
pub open spec fn pair_count(
    objects: Map<Seq<u8>, ObjectModel>,
    before: ObjectId,
    after: ObjectId,
    budget: usize,
) -> Result<nat, Error> {
    match tree_of(objects, before) {
        Err(e) => Err(e),
        Ok(lhs) => match tree_of(objects, after) {
            Err(e) => Err(e),
            Ok(rhs) => match changes_between(lhs, rhs, objects, Tracking::NoTracking, budget) {
                Ok(changes) => Ok(changes.len()),
                Err(e) => Err(e),
            },
        },
    }
}

/// The number of changes between the trees of the commits `before` and
/// `after`. Each walk may load `budget` subtrees.
pub fn count_pair<S: ObjectSource>(
    source: &mut S,
    before: &ObjectId,
    after: &ObjectId,
    budget: usize,
) -> (r: Result<usize, Error>)
    requires
        old(source).valid(),
    ensures
        final(source).valid(),
        final(source).objects() == old(source).objects(),
        match pair_count(old(source).objects(), *before, *after, budget) {
            Ok(n) => r == Ok::<usize, Error>(n as usize) && n <= usize::MAX,
            Err(e) => r == Err::<usize, Error>(e),
        },
{
    let lhs = match tree_of_commit(source, before) {
        Ok(id) => id,
        Err(e) => {
            return Err(e);
        },
    };
    let rhs = match tree_of_commit(source, after) {
        Ok(id) => id,
        Err(e) => {
            return Err(e);
        },
    };
    match diff_trees(&lhs, &rhs, source, Tracking::NoTracking, budget) {
        Ok(changes) => Ok(changes.len()),
        Err(e) => Err(e),
    }
}

/// The changes of the first `pairs` pairs of neighbours in `commits`, added
/// up, or the first error among them.
pub open spec fn total_upto(
    commits: Seq<ObjectId>,
    objects: Map<Seq<u8>, ObjectModel>,
    budget: usize,
    pairs: int,
) -> Result<nat, Error>
    decreases pairs,
{
    if pairs <= 0 {
        Ok(0)
    } else {
        match total_upto(commits, objects, budget, pairs - 1) {
            Err(e) => Err(e),
            Ok(sum) => match pair_count(objects, commits[pairs - 1], commits[pairs], budget) {
                Ok(n) => Ok(sum + n),
                Err(e) => Err(e),
            },
        }
    }
}

/// The changes between every commit in `commits` and the one after it, added up.
pub open spec fn total(commits: Seq<ObjectId>, objects: Map<Seq<u8>, ObjectModel>, budget: usize) -> Result<
    nat,
    Error,
> {
    total_upto(commits, objects, budget, commits.len() - 1)
}

/// `n`, or the largest count there is if `n` is beyond it.
pub open spec fn capped(n: nat) -> usize {
    if n <= usize::MAX {
        n as usize
    } else {
        usize::MAX
    }
}

/// Diffs the tree of every commit in `commits` against the tree of the one
/// after it, one pair after the other, and counts the changes. The count stops
/// growing at the largest number there is. The first error ends it.
pub fn count_changes<S: ObjectSource>(commits: &[ObjectId], source: &mut S, budget: usize) -> (r:
    Result<usize, Error>)
    requires
        old(source).valid(),
    ensures
        final(source).valid(),
        final(source).objects() == old(source).objects(),
        match total(commits@, old(source).objects(), budget) {
            Ok(n) => r == Ok::<usize, Error>(capped(n)),
            Err(e) => r == Err::<usize, Error>(e),
        },
{
    let ghost objects = source.objects();
    let mut changes: usize = 0;
    let ghost mut sum: nat = 0;
    let mut i: usize = 1;
    while i < commits.len()
        invariant
            1 <= i,
            i <= commits@.len() || i == 1,
            source.valid(),
            source.objects() == objects,
            objects == old(source).objects(),
            total_upto(commits@, objects, budget, i - 1) == Ok::<nat, Error>(sum),
            changes == capped(sum),
        decreases commits@.len() - i,
    {
        match count_pair(source, &commits[i - 1], &commits[i], budget) {
            Ok(n) => {
                proof {
                    sum = sum + n as nat;
                }
                changes = if n > usize::MAX - changes {
                    usize::MAX
                } else {
                    changes + n
                };
            },
            Err(e) => {
                proof {
                    lemma_total_stops(commits@, objects, budget, i as int, commits@.len() - 1);
                }
                return Err(e);
            },
        }
        i += 1;
    }
    proof {
        if commits@.len() == 0 {
            assert(total_upto(commits@, objects, budget, 0) == Ok::<nat, Error>(0nat));
            assert(total_upto(commits@, objects, budget, -1) == Ok::<nat, Error>(0nat));
        }
    }
    Ok(changes)
}

/// Once a pair has failed, longer prefixes fail in the same way.
pub proof fn lemma_total_stops(
    commits: Seq<ObjectId>,
    objects: Map<Seq<u8>, ObjectModel>,
    budget: usize,
    at: int,
    upto: int,
)
    requires
        0 <= at <= upto,
        total_upto(commits, objects, budget, at).is_err(),
    ensures
        total_upto(commits, objects, budget, upto) == total_upto(commits, objects, budget, at),
    decreases upto - at,
{
    if at < upto {
        lemma_total_stops(commits, objects, budget, at, upto - 1);
    }
}

/// The counts of the pairs of neighbours in `commits`, one for each pair, in
/// the order of the pairs. A pair that cannot be counted counts as nothing.
pub open spec fn pair_counts(
    commits: Seq<ObjectId>,
    objects: Map<Seq<u8>, ObjectModel>,
    budget: usize,
) -> Seq<nat> {
    Seq::new(
        (if commits.len() > 0 {
            commits.len() - 1
        } else {
            0
        }) as nat,
        |i: int|
            match pair_count(objects, commits[i], commits[i + 1], budget) {
                Ok(n) => n,
                Err(_) => 0nat,
            },
    )
}

/// Whether every pair of neighbours in `commits` can be counted.
pub open spec fn all_counted(
    commits: Seq<ObjectId>,
    objects: Map<Seq<u8>, ObjectModel>,
    budget: usize,
) -> bool {
    forall|i: int|
        0 <= i < commits.len() - 1 ==> (#[trigger] pair_count(
            objects,
            commits[i],
            commits[i + 1],
            budget,
        )).is_ok()
}

/// The numbers of `counts`, added up.
pub open spec fn sum_of(counts: Seq<nat>) -> nat
    decreases counts.len(),
{
    if counts.len() == 0 {
        0
    } else {
        sum_of(counts.drop_last()) + counts.last()
    }
}

/// Taking one number out of `counts` takes it out of their sum.
pub proof fn lemma_sum_without(counts: Seq<nat>, i: int)
    requires
        0 <= i < counts.len(),
    ensures
        sum_of(counts) == sum_of(counts.remove(i)) + counts[i],
    decreases counts.len(),
{
    if i == counts.len() - 1 {
        assert(counts.remove(i) =~= counts.drop_last());
    } else {
        lemma_sum_without(counts.drop_last(), i);
        assert(counts.remove(i).drop_last() =~= counts.drop_last().remove(i));
        assert(counts.remove(i).last() == counts.last());
    }
}

/// The sum of numbers does not depend on their order.
pub proof fn lemma_sum_of_rearranged(first: Seq<nat>, second: Seq<nat>)
    requires
        first.to_multiset() == second.to_multiset(),
    ensures
        sum_of(first) == sum_of(second),
    decreases first.len(),
{
    vstd::seq_lib::to_multiset_len(first);
    vstd::seq_lib::to_multiset_len(second);
    if first.len() > 0 {
        let x = first.last();
        let rest = first.drop_last();
        assert(rest.push(x) =~= first);
        vstd::seq_lib::to_multiset_build(rest, x);
        vstd::seq_lib::to_multiset_contains(first, x);
        vstd::seq_lib::to_multiset_contains(second, x);
        assert(first.contains(x));
        assert(second.contains(x));
        let i = choose|i: int| 0 <= i < second.len() && second[i] == x;
        vstd::seq_lib::to_multiset_remove(second, i);
        assert(rest.to_multiset() =~= first.to_multiset().remove(x));
        lemma_sum_of_rearranged(rest, second.remove(i));
        lemma_sum_without(second, i);
    }
}

/// As long as every pair can be counted, the total is the sum of the counts
/// of the pairs.
pub proof fn lemma_total_is_sum(
    commits: Seq<ObjectId>,
    objects: Map<Seq<u8>, ObjectModel>,
    budget: usize,
    pairs: int,
)
    requires
        all_counted(commits, objects, budget),
        0 <= pairs <= pair_counts(commits, objects, budget).len(),
    ensures
        total_upto(commits, objects, budget, pairs) == Ok::<nat, Error>(
            sum_of(pair_counts(commits, objects, budget).subrange(0, pairs)),
        ),
    decreases pairs,
{
    let counts = pair_counts(commits, objects, budget);
    if pairs > 0 {
        lemma_total_is_sum(commits, objects, budget, pairs - 1);
        assert(pair_count(objects, commits[pairs - 1], commits[pairs - 1 + 1], budget).is_ok());
        assert(counts.subrange(0, pairs).drop_last() =~= counts.subrange(0, pairs - 1));
        assert(counts.subrange(0, pairs).last() == counts[pairs - 1]);
    } else {
        assert(counts.subrange(0, 0) =~= Seq::<nat>::empty());
    }
}

/// Pairs can be counted in any order, by one or by many. Where every pair of
/// neighbours can be counted, the total that `count_changes` gives is the sum
/// of the counts of the pairs, in whatever order they are added up.
pub proof fn law_pairs_add_up_in_any_order(
    commits: Seq<ObjectId>,
    objects: Map<Seq<u8>, ObjectModel>,
    budget: usize,
    counts: Seq<nat>,
)
    requires
        all_counted(commits, objects, budget),
        counts.to_multiset() == pair_counts(commits, objects, budget).to_multiset(),
    ensures
        total(commits, objects, budget) == Ok::<nat, Error>(sum_of(counts)),
{
    let in_order = pair_counts(commits, objects, budget);
    lemma_total_is_sum(commits, objects, budget, in_order.len() as int);
    assert(in_order.subrange(0, in_order.len() as int) =~= in_order);
    lemma_sum_of_rearranged(counts, in_order);
    if commits.len() == 0 {
        assert(total_upto(commits, objects, budget, -1) == total_upto(commits, objects, budget, 0));
    }
}

} // verus!
