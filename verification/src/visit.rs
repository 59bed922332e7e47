//! What rewrite tracking hands out: destinations, and the sources they were
//! rewritten from.
use vstd::prelude::*;
use crate::change::Change;
use crate::change::EntryMode;
use crate::hash::ObjectId;

verus! {

/// How a source relates to its destination.
#[derive(Clone, Copy, Debug, PartialEq, Eq, Hash)]
pub enum Kind {
    /// The source was deleted and lives on at the destination: a rename.
    RenameTarget,
    /// The source stays where it is and the destination repeats it: a copy.
    Copy,
}

impl Kind {
    /// Whether an item with `change` can be the source of a rewrite of this kind:
    /// a rename takes deletions only, a copy anything but a deletion.
    pub open spec fn spec_can_use_change(&self, change: &Change) -> bool {
        match *self {
            Kind::RenameTarget => *change is Deletion,
            Kind::Copy => !(*change is Deletion),
        }
    }

    /// Whether an item with `change` can be the source of a rewrite of this kind.
    #[verifier::when_used_as_spec(spec_can_use_change)]
    pub fn can_use_change(&self, change: &Change) -> (r: bool)
        ensures
            r == self.spec_can_use_change(change),
    {
        match self {
            Kind::RenameTarget => change.is_deletion(),
            Kind::Copy => !change.is_deletion(),
        }
    }
}

/// The item that a destination was rewritten from.
#[derive(Clone, Debug, PartialEq, Eq)]
pub struct Source {
    pub mode: EntryMode,
    pub id: ObjectId,
    pub kind: Kind,
    pub location: Vec<u8>,
}

/// A change together with the path at which it happened.
#[derive(Clone, Debug, PartialEq, Eq)]
pub struct Destination {
    pub change: Change,
    pub location: Vec<u8>,
}

/// One emission of the tracker: a destination, and its source if it is a rewrite.
#[derive(Clone, Debug, PartialEq, Eq)]
pub struct Event {
    pub destination: Destination,
    pub source: Option<Source>,
}

/// A source as contracts speak of it.
pub struct SourceModel {
    pub mode: EntryMode,
    pub id: ObjectId,
    pub kind: Kind,
    pub location: Seq<u8>,
}

/// A destination as contracts speak of it.
pub struct DestinationModel {
    pub change: Change,
    pub location: Seq<u8>,
}

/// An emission as contracts speak of it.
pub struct EventModel {
    pub destination: DestinationModel,
    pub source: Option<SourceModel>,
}

impl View for Source {
    type V = SourceModel;

    open spec fn view(&self) -> SourceModel {
        SourceModel { mode: self.mode, id: self.id, kind: self.kind, location: self.location@ }
    }
}

impl View for Destination {
    type V = DestinationModel;

    open spec fn view(&self) -> DestinationModel {
        DestinationModel { change: self.change, location: self.location@ }
    }
}

impl View for Event {
    type V = EventModel;

    open spec fn view(&self) -> EventModel {
        EventModel {
            destination: self.destination@,
            source: match self.source {
                Some(s) => Some(s@),
                None => None,
            },
        }
    }
}

/// The models of a sequence of emissions, one for one.
pub open spec fn models(events: Seq<Event>) -> Seq<EventModel> {
    Seq::new(events.len(), |i: int| events[i]@)
}

} // verus!
