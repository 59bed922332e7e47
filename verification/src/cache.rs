//! A bounded cache of objects in front of an object source.
use vstd::prelude::*;
use crate::hash::ObjectId;
use crate::source::Object;
use crate::source::ObjectModel;
use crate::source::ObjectSource;
use memory_lru::MemoryLruCache;

verus! {

impl memory_lru::ResidentSize for Object {
    /// An object takes up as much of a cache as it has bytes.
    fn resident_size(&self) -> (r: usize)
        ensures
            r == self.data@.len(),
    {
        self.data.len()
    }
}

/// The cache of `memory_lru`: it evicts what was used least recently once
/// its values take up more than it was made for.
#[verifier::external_type_specification]
#[verifier::external_body]
#[verifier::reject_recursive_types(K)]
#[verifier::reject_recursive_types(V)]
pub struct ExMemoryLruCache<K, V>(MemoryLruCache<K, V>);

/// What a cache holds, keyed by the bytes of the identifier.
pub uninterp spec fn cached(cache: MemoryLruCache<Vec<u8>, Object>) -> Map<Seq<u8>, ObjectModel>;

/// The number of bytes that a cache was made for.
pub uninterp spec fn room(cache: MemoryLruCache<Vec<u8>, Object>) -> usize;

/// `MemoryLruCache::new`: a cache for `max_size` bytes that holds nothing.
#[verifier::external_body]
fn new_cache(max_size: usize) -> (r: MemoryLruCache<Vec<u8>, Object>)
    ensures
        forall|k: Seq<u8>| !(#[trigger] cached(r).contains_key(k)),
        room(r) == max_size,
{
    MemoryLruCache::new(max_size)
}

/// `MemoryLruCache::get`, the value copied out. A lookup changes the order of
/// eviction, not what is held.
#[verifier::external_body]
fn cache_get(cache: &mut MemoryLruCache<Vec<u8>, Object>, key: &Vec<u8>) -> (r: Option<Object>)
    ensures
        cached(*final(cache)) == cached(*old(cache)),
        room(*final(cache)) == room(*old(cache)),
        r.is_some() == cached(*old(cache)).contains_key(key@),
        r.is_some() ==> r.unwrap()@ == cached(*old(cache))[key@],
{
    cache.get(key).cloned()
}

/// `MemoryLruCache::contains`: whether the cache holds a value under `key`.
/// Asking changes nothing, not even the order of eviction.
#[verifier::external_body]
fn cache_contains(cache: &MemoryLruCache<Vec<u8>, Object>, key: &Vec<u8>) -> (r: bool)
    ensures
        r == cached(*cache).contains_key(key@),
{
    cache.contains(key)
}

/// `MemoryLruCache::insert`. The cache adds up the sizes of its values, so
/// the new value has to fit on top of the room. What is evicted is left open:
/// afterwards the cache holds nothing but the new value under its key and
/// what it held under other keys before. The new value is the last that the
/// cache evicts, so it stays if the room takes it by itself.
#[verifier::external_body]
fn cache_insert(cache: &mut MemoryLruCache<Vec<u8>, Object>, key: Vec<u8>, value: Object)
    requires
        room(*old(cache)) + value.data@.len() <= usize::MAX,
    ensures
        room(*final(cache)) == room(*old(cache)),
        value.data@.len() <= room(*old(cache)) ==> cached(*final(cache)).contains_key(key@),
        forall|k: Seq<u8>| #[trigger]
            cached(*final(cache)).contains_key(k) ==> (if k == key@ {
                cached(*final(cache))[k] == value@
            } else {
                cached(*old(cache)).contains_key(k) && cached(*final(cache))[k] == cached(
                    *old(cache),
                )[k]
            }),
{
    cache.insert(key, value)
}

/// Whether an object of `len` bytes is put into a cache with `room` bytes of
/// room and stays there: the room takes it by itself, and the two add up to a
/// number that there is.
pub open spec fn fits(len: nat, room: usize) -> bool {
    len <= room && room + len <= usize::MAX
}

/// An object source with a cache in front of it. Objects that were looked up
/// are kept until the cache needs their room.
pub struct CachedSource<S: ObjectSource> {
    inner: S,
    cache: MemoryLruCache<Vec<u8>, Object>,
    max_size: usize,
}

impl<S: ObjectSource> CachedSource<S> {
    /// Whatever the cache holds is what the source behind it holds under the
    /// same name, and the source behind it is in order.
    pub closed spec fn faithful(&self) -> bool {
        &&& self.inner.valid()
        &&& room(self.cache) == self.max_size
        &&& forall|k: Seq<u8>| #[trigger]
            cached(self.cache).contains_key(k) ==> self.inner.objects().contains_key(k) && cached(
                self.cache,
            )[k] == self.inner.objects()[k]
    }

    /// What the cache holds at the moment, keyed by the bytes of the identifier.
    pub closed spec fn held(&self) -> Map<Seq<u8>, ObjectModel> {
        cached(self.cache)
    }

    /// The number of bytes of objects that the cache was made for.
    pub closed spec fn room(&self) -> usize {
        self.max_size
    }

    /// Whether the cache holds the object named `id` at the moment.
    pub fn holds(&self, id: &ObjectId) -> (r: bool)
        ensures
            r == self.held().contains_key(id@),
    {
        let key = id.to_vec();
        cache_contains(&self.cache, &key)
    }

    /// Puts a cache for `max_size` bytes of objects in front of `inner`.
    pub fn new(inner: S, max_size: usize) -> (r: CachedSource<S>)
        requires
            inner.valid(),
        ensures
            r.valid(),
            r.objects() == inner.objects(),
            r.held() == Map::<Seq<u8>, ObjectModel>::empty(),
            r.room() == max_size,
    {
        let r = CachedSource { inner, cache: new_cache(max_size), max_size };
        assert(r.held() =~= Map::<Seq<u8>, ObjectModel>::empty());
        r
    }
}

impl<S: ObjectSource> ObjectSource for CachedSource<S> {
    open spec fn valid(&self) -> bool {
        self.faithful()
    }

    closed spec fn objects(&self) -> Map<Seq<u8>, ObjectModel> {
        self.inner.objects()
    }

    /// A hit is answered from the cache, which then holds what it held. A miss
    /// goes to the source behind it, and what it finds is put into the cache
    /// and stays there if it fits. To make room the cache may evict what it
    /// likes of the rest: afterwards it holds nothing but objects of the
    /// source, and none that it did not hold or was just asked for.
    fn find(&mut self, id: &ObjectId) -> (r: Option<Object>)
        ensures
            final(self).room() == old(self).room(),
            r.is_some() && fits(r.unwrap().data@.len(), old(self).room())
                ==> final(self).held().contains_key(id@),
            old(self).held().contains_key(id@) ==> final(self).held() == old(self).held(),
            forall|k: Seq<u8>| #[trigger]
                final(self).held().contains_key(k) ==> final(self).objects().contains_key(k)
                    && final(self).held()[k] == final(self).objects()[k] && (k == id@ || old(
                    self,
                ).held().contains_key(k)),
    {
        let key = id.to_vec();
        match cache_get(&mut self.cache, &key) {
            Some(object) => Some(object),
            None => {
                let found = self.inner.find(id);
                match &found {
                    Some(object) => {
                        let copy = Object { kind: object.kind, data: object.data.clone() };
                        if copy.data.len() <= usize::MAX - self.max_size {
                            cache_insert(&mut self.cache, key, copy);
                        }
                    },
                    None => {},
                }
                found
            },
        }
    }
}

} // verus!
