//! What can go wrong while diffing.
use vstd::prelude::*;
use crate::hash::ObjectId;

verus! {

/// A failure that ends a diff. None is retried.
#[derive(Clone, Copy, Debug, PartialEq, Eq, Hash)]
pub enum Error {
    /// The source does not hold an object that the walk needed.
    ObjectMissing(ObjectId),
    /// The bytes of this tree or commit could not be decoded.
    Decode(ObjectId),
    /// The walk may load no more trees, and this one would have been next.
    BudgetSpent(ObjectId),
    /// The source does not hold a blob whose content had to be compared.
    BlobFetch(ObjectId),
    /// The line differ could not take the two blobs.
    BlobDiff,
}

} // verus!
