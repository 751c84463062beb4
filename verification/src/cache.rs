//! The storage engine: a fixed-capacity store of key/value entries kept in
//! recency order.
//!
//! The entries live in one vector, least recently used first, most recently
//! used last; repositioning an entry moves it to the back. The vector is
//! the key index and the recency order in one: every reachable state keeps
//! its key views pairwise distinct and its length within the capacity.

use vstd::prelude::*;

use crate::handle::{CacheHandle, ValuePerm};
use crate::key::CacheKey;
use crate::model::keys_distinct;

verus! {

/// The capacity handed to [`LruCache::new`] was zero; a cache has to hold
/// at least one entry.
#[derive(Clone, Copy, Debug, PartialEq, Eq, Structural)]
pub struct ConfigurationError;

/// One live entry: a key and the value stored under it.
pub(crate) struct Entry<K, V> {
    pub(crate) key: K,
    pub(crate) val: V,
}

/// A fixed-capacity cache with strict least-recently-used eviction.
///
/// The cache itself only exposes construction and [`LruCache::scope`];
/// lookups and inserts go through the handle a scope lends out.
pub struct LruCache<K, V> {
    /// Live entries in recency order: least recently used first.
    pub(crate) entries: Vec<Entry<K, V>>,
    /// Maximum number of live entries; always at least one.
    pub(crate) cap: usize,
    /// Generation counter: stepped at each scope entry, and while a scope
    /// is open it is the tag that scope was minted with.
    pub(crate) generation: u64,
}

impl<K: CacheKey, V> LruCache<K, V> {
    /// The abstract state: the (key view, value) pairs in recency order,
    /// least recently used first.
    pub open(crate) spec fn entries(&self) -> Seq<(K::V, V)> {
        self.entries@.map_values(|e: Entry<K, V>| (e.key@, e.val))
    }

    /// The capacity fixed at construction.
    pub open(crate) spec fn spec_cap(&self) -> int {
        self.cap as int
    }

    /// Well-formedness: positive capacity, no more entries than the
    /// capacity allows, and pairwise distinct keys.
    pub open spec fn wf(&self) -> bool {
        &&& 1 <= self.spec_cap()
        &&& self.entries().len() <= self.spec_cap()
        &&& keys_distinct(self.entries())
    }

    /// Creates a cache that holds at most `capacity` entries. A zero
    /// capacity is refused at construction; it can never fail later.
    pub fn new(capacity: usize) -> (r: Result<Self, ConfigurationError>)
        ensures
            capacity == 0 <==> r is Err,
            r matches Ok(c) ==> c.wf() && c.entries() =~= Seq::<(K::V, V)>::empty()
                && c.spec_cap() == capacity,
    {
        if capacity == 0 {
            Err(ConfigurationError)
        } else {
            let c = LruCache { entries: Vec::new(), cap: capacity, generation: 0 };
            proof {
                assert(c.entries() =~= Seq::<(K::V, V)>::empty());
            }
            Ok(c)
        }
    }

    /// Opens an access scope: mints a fresh tag, binds a [`CacheHandle`]
    /// and a [`ValuePerm`] to it, hands both to `f`, and returns whatever
    /// `f` returns. The handle and the token are only usable together —
    /// every operation demands equal tags — and both die with the scope.
    ///
    /// The cache the closure finds behind the handle is this cache, with
    /// this cache's entries and capacity, and whatever state the closure
    /// leaves behind the handle is the state of this cache after the call.
    pub fn scope<F, R>(&mut self, f: F) -> (r: R) where
        F: FnOnce(CacheHandle<'_, K, V>, ValuePerm) -> R,

        requires
            old(self).wf(),
            forall|h: CacheHandle<'_, K, V>, p: ValuePerm|
                h.inv() && h.tag() == p.tag() && h.entries() == old(self).entries()
                    && h.spec_cap() == old(self).spec_cap() ==> call_requires(f, (h, p)),
        ensures
            exists|h: CacheHandle<'_, K, V>, p: ValuePerm|
                h.inv() && h.tag() == p.tag() && h.entries() == old(self).entries()
                    && h.spec_cap() == old(self).spec_cap() && *final(h.cache) == *final(self)
                    && #[trigger] call_ensures(f, (h, p), r),
    {
        self.generation = self.generation.wrapping_add(1);
        let tag = self.generation;
        let ghost s0 = self.entries();
        let perm = ValuePerm { tag };
        let handle = CacheHandle { cache: self };
        proof {
            assert(handle.entries() =~= s0);
        }
        f(handle, perm)
    }
}

} // verus!
