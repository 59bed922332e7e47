//! The unit of a tree diff: what happened to the entry at one path.
use vstd::prelude::*;
use crate::hash::ObjectId;

verus! {

/// What kind of object a tree entry points to.
#[derive(Clone, Copy, Debug, PartialEq, Eq, Hash)]
pub enum EntryMode {
    /// A directory.
    Tree,
    /// A regular file.
    Blob,
    /// A regular file that may be executed.
    BlobExecutable,
    /// A symbolic link, whose content is its target.
    Symlink,
    /// A commit of another repository.
    Commit,
}

impl EntryMode {
    /// Whether the mode denotes file content rather than a directory or a foreign commit.
    pub open spec fn spec_is_blob(self) -> bool {
        self is Blob || self is BlobExecutable || self is Symlink
    }

    /// Whether the mode denotes file content rather than a directory or a foreign commit.
    #[verifier::when_used_as_spec(spec_is_blob)]
    pub fn is_blob(self) -> (r: bool)
        ensures
            r == self.spec_is_blob(),
    {
        match self {
            EntryMode::Blob | EntryMode::BlobExecutable | EntryMode::Symlink => true,
            EntryMode::Tree | EntryMode::Commit => false,
        }
    }

    /// Whether the mode denotes a directory.
    pub fn is_tree(self) -> (r: bool)
        ensures
            r == (self is Tree),
    {
        match self {
            EntryMode::Tree => true,
            _ => false,
        }
    }

    /// Whether the mode denotes a symbolic link.
    pub fn is_symlink(self) -> (r: bool)
        ensures
            r == (self is Symlink),
    {
        match self {
            EntryMode::Symlink => true,
            _ => false,
        }
    }
}

/// One difference between two trees, at a single path.
#[derive(Clone, Copy, Debug, PartialEq, Eq, Hash)]
pub enum Change {
    /// The entry exists only in the tree on the right.
    Addition { mode: EntryMode, id: ObjectId },
    /// The entry exists only in the tree on the left.
    Deletion { mode: EntryMode, id: ObjectId },
    /// The entry exists on both sides, with a different mode or content.
    Modification { previous_mode: EntryMode, previous_id: ObjectId, mode: EntryMode, id: ObjectId },
}

impl Change {
    /// The identifier that the change leaves at its path: the only one of an
    /// addition or deletion, the new one of a modification.
    pub open spec fn spec_oid(&self) -> ObjectId {
        match *self {
            Change::Addition { id, .. } => id,
            Change::Deletion { id, .. } => id,
            Change::Modification { id, .. } => id,
        }
    }

    /// The mode that belongs to `spec_oid`.
    pub open spec fn spec_mode(&self) -> EntryMode {
        match *self {
            Change::Addition { mode, .. } => mode,
            Change::Deletion { mode, .. } => mode,
            Change::Modification { mode, .. } => mode,
        }
    }

    /// The identifier of the change: see `spec_oid`.
    #[verifier::when_used_as_spec(spec_oid)]
    pub fn oid(&self) -> (r: ObjectId)
        ensures
            r == self.spec_oid(),
    {
        match self {
            Change::Addition { id, .. } => *id,
            Change::Deletion { id, .. } => *id,
            Change::Modification { id, .. } => *id,
        }
    }

    /// The mode of the change: see `spec_mode`.
    #[verifier::when_used_as_spec(spec_mode)]
    pub fn mode(&self) -> (r: EntryMode)
        ensures
            r == self.spec_mode(),
    {
        match self {
            Change::Addition { mode, .. } => *mode,
            Change::Deletion { mode, .. } => *mode,
            Change::Modification { mode, .. } => *mode,
        }
    }

    /// Identifier and mode of the change together.
    pub fn oid_and_mode(&self) -> (r: (ObjectId, EntryMode))
        ensures
            r.0 == self.spec_oid(),
            r.1 == self.spec_mode(),
    {
        (self.oid(), self.mode())
    }

    /// Whether this is an addition.
    pub fn is_addition(&self) -> (r: bool)
        ensures
            r == (*self is Addition),
    {
        match self {
            Change::Addition { .. } => true,
            _ => false,
        }
    }

    /// Whether this is a deletion.
    pub fn is_deletion(&self) -> (r: bool)
        ensures
            r == (*self is Deletion),
    {
        match self {
            Change::Deletion { .. } => true,
            _ => false,
        }
    }

    /// Whether this is a modification.
    pub fn is_modification(&self) -> (r: bool)
        ensures
            r == (*self is Modification),
    {
        match self {
            Change::Modification { .. } => true,
            _ => false,
        }
    }
}

} // verus!
