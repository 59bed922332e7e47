//! Where objects come from: the lookup capability that diffing consumes, and a
//! store that keeps its objects in memory.
use vstd::prelude::*;
use crate::hash::ObjectId;

verus! {

/// The kind tag of a stored object.
#[derive(Clone, Copy, Debug, PartialEq, Eq, Hash)]
pub enum ObjectKind {
    Commit,
    Tree,
    Blob,
    Tag,
}

/// An object as a source hands it out: its kind and its raw bytes.
#[derive(Clone, Debug, PartialEq, Eq)]
pub struct Object {
    pub kind: ObjectKind,
    pub data: Vec<u8>,
}

/// An object as contracts speak of it.
pub struct ObjectModel {
    pub kind: ObjectKind,
    pub data: Seq<u8>,
}

impl View for Object {
    type V = ObjectModel;

    open spec fn view(&self) -> ObjectModel {
        ObjectModel { kind: self.kind, data: self.data@ }
    }
}

/// What a source holds, as contracts speak of it: objects keyed by the bytes
/// of their identifiers.
pub type Holdings = Map<Seq<u8>, ObjectModel>;

/// The capability to resolve an identifier to an object. A lookup may update
/// caches inside the source, but never what the source holds.
pub trait ObjectSource {
    /// Whether the source is in order, so that lookups answer for what it holds.
    spec fn valid(&self) -> bool;

    /// What the source holds, keyed by the bytes of the identifier.
    spec fn objects(&self) -> Holdings;

    /// The object named `id`, or `None` when the source does not hold it.
    fn find(&mut self, id: &ObjectId) -> (r: Option<Object>)
        requires
            old(self).valid(),
        ensures
            final(self).valid(),
            final(self).objects() == old(self).objects(),
            r.is_some() <==> old(self).objects().contains_key(id@),
            r.is_some() ==> r.unwrap()@ == old(self).objects()[id@],
    ;
}

/// The bytes of the blob named `id` in `objects`, if it is held there as a blob.
pub open spec fn blob_in(objects: Map<Seq<u8>, ObjectModel>, id: Seq<u8>) -> Option<Seq<u8>> {
    if objects.contains_key(id) && objects[id].kind is Blob {
        Some(objects[id].data)
    } else {
        None
    }
}

/// The bytes of the blob named `id`, or `None` when the source does not hold
/// `id` or holds it as something other than a blob.
pub fn find_blob<S: ObjectSource>(source: &mut S, id: &ObjectId) -> (r: Option<Vec<u8>>)
    requires
        old(source).valid(),
    ensures
        final(source).valid(),
        final(source).objects() == old(source).objects(),
        r.is_some() <==> blob_in(old(source).objects(), id@).is_some(),
        r.is_some() ==> r.unwrap()@ == blob_in(old(source).objects(), id@).unwrap(),
{
    match source.find(id) {
        Some(object) => match object.kind {
            ObjectKind::Blob => Some(object.data),
            _ => None,
        },
        None => None,
    }
}

/// One stored object with its identifier.
struct Stored {
    id: ObjectId,
    kind: ObjectKind,
    data: Vec<u8>,
}

/// An object source that keeps every object in memory, in the order of insertion.
pub struct MemoryStore {
    entries: Vec<Stored>,
}

impl MemoryStore {
    /// Position of the first entry named `id` at or after `from`, or the length if there is none.
    spec fn position(entries: Seq<Stored>, id: Seq<u8>, from: int) -> int
        decreases entries.len() - from,
    {
        if from < 0 || from >= entries.len() {
            entries.len() as int
        } else if entries[from].id@ == id {
            from
        } else {
            Self::position(entries, id, from + 1)
        }
    }

    proof fn lemma_position(entries: Seq<Stored>, id: Seq<u8>, from: int)
        requires
            0 <= from <= entries.len(),
        ensures
            from <= Self::position(entries, id, from) <= entries.len(),
            Self::position(entries, id, from) < entries.len() ==> entries[Self::position(
                entries,
                id,
                from,
            )].id@ == id,
            forall|k: int|
                from <= k < Self::position(entries, id, from) ==> (#[trigger] entries[k]).id@ != id,
        decreases entries.len() - from,
    {
        if from < entries.len() && entries[from].id@ != id {
            Self::lemma_position(entries, id, from + 1);
        }
    }

    /// What a sequence of entries holds: for each identifier its first entry.
    spec fn held(entries: Seq<Stored>) -> Map<Seq<u8>, ObjectModel> {
        Map::new(
            |id: Seq<u8>| Self::position(entries, id, 0) < entries.len(),
            |id: Seq<u8>|
                ObjectModel {
                    kind: entries[Self::position(entries, id, 0)].kind,
                    data: entries[Self::position(entries, id, 0)].data@,
                },
        )
    }

    /// A store that holds nothing.
    pub fn new() -> (r: MemoryStore)
        ensures
            r.objects() == Map::<Seq<u8>, ObjectModel>::empty(),
    {
        let r = MemoryStore { entries: Vec::new() };
        assert(r.objects() =~= Map::<Seq<u8>, ObjectModel>::empty());
        r
    }

    /// Whether the store holds an object named `id`.
    pub fn contains(&self, id: &ObjectId) -> (r: bool)
        ensures
            r == self.objects().contains_key(id@),
    {
        self.index_of(id) < self.entries.len()
    }

    fn index_of(&self, id: &ObjectId) -> (r: usize)
        ensures
            r as int == Self::position(self.entries@, id@, 0),
            r <= self.entries@.len(),
    {
        let mut i: usize = 0;
        proof {
            Self::lemma_position(self.entries@, id@, 0);
        }
        while i < self.entries.len()
            invariant
                i <= self.entries@.len(),
                Self::position(self.entries@, id@, 0) == Self::position(
                    self.entries@,
                    id@,
                    i as int,
                ),
            decreases self.entries@.len() - i,
        {
            if self.entries[i].id.same(id) {
                return i;
            }
            i += 1;
        }
        i
    }

    /// Adds the object under `id` unless the store already holds one with that
    /// name: objects never change once stored. Returns whether it was added.
    pub fn insert(&mut self, id: ObjectId, kind: ObjectKind, data: Vec<u8>) -> (r: bool)
        ensures
            r == !old(self).objects().contains_key(id@),
            r ==> final(self).objects() == old(self).objects().insert(
                id@,
                ObjectModel { kind, data: data@ },
            ),
            !r ==> final(self).objects() == old(self).objects(),
    {
        if self.contains(&id) {
            return false;
        }
        let ghost before = self.entries@;
        let ghost model = ObjectModel { kind, data: data@ };
        self.entries.push(Stored { id, kind, data });
        proof {
            let after = self.entries@;
            assert forall|k: Seq<u8>, from: int| 0 <= from <= before.len() implies #[trigger] Self::position(
                after,
                k,
                from,
            ) == (if Self::position(before, k, from) < before.len() {
                Self::position(before, k, from)
            } else if k == id@ {
                before.len() as int
            } else {
                after.len() as int
            }) by {
                Self::lemma_position_push(before, after, k, from);
            }
            Self::lemma_position(before, id@, 0);
            assert(after[before.len() as int].id@ == id@);
            assert forall|k: Seq<u8>| #[trigger]
                Self::held(after).contains_key(k) == Self::held(before).insert(
                    id@,
                    model,
                ).contains_key(k) by {
                Self::lemma_position(before, k, 0);
                assert(Self::position(after, k, 0) == (if Self::position(before, k, 0)
                    < before.len() {
                    Self::position(before, k, 0)
                } else if k == id@ {
                    before.len() as int
                } else {
                    after.len() as int
                }));
            }
            assert forall|k: Seq<u8>| #[trigger] Self::held(after).contains_key(k) implies Self::held(
                after,
            )[k] == Self::held(before).insert(id@, model)[k] by {
                Self::lemma_position(before, k, 0);
                assert(Self::position(after, k, 0) == (if Self::position(before, k, 0)
                    < before.len() {
                    Self::position(before, k, 0)
                } else if k == id@ {
                    before.len() as int
                } else {
                    after.len() as int
                }));
            }
            assert(Self::held(after) =~= Self::held(before).insert(id@, model));
        }
        true
    }

    proof fn lemma_position_push(before: Seq<Stored>, after: Seq<Stored>, k: Seq<u8>, from: int)
        requires
            0 <= from <= before.len(),
            after.len() == before.len() + 1,
            forall|i: int| 0 <= i < before.len() ==> after[i] == before[i],
        ensures
            Self::position(after, k, from) == (if Self::position(before, k, from) < before.len() {
                Self::position(before, k, from)
            } else if k == after[before.len() as int].id@ {
                before.len() as int
            } else {
                after.len() as int
            }),
        decreases before.len() - from,
    {
        if from < before.len() {
            if before[from].id@ != k {
                Self::lemma_position_push(before, after, k, from + 1);
            }
        } else {
            assert(Self::position(after, k, from + 1) == after.len());
        }
    }
}

impl ObjectSource for MemoryStore {
    /// A store in memory is always in order.
    open spec fn valid(&self) -> bool {
        true
    }

    closed spec fn objects(&self) -> Map<Seq<u8>, ObjectModel> {
        Self::held(self.entries@)
    }

    fn find(&mut self, id: &ObjectId) -> (r: Option<Object>) {
        let i = self.index_of(id);
        if i < self.entries.len() {
            let data = self.entries[i].data.clone();
            Some(Object { kind: self.entries[i].kind, data })
        } else {
            None
        }
    }
}

} // verus!
