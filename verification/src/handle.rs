//! The access handle and the permission token.
//!
//! A scope (see [`LruCache::scope`]) mints a fresh tag and lends out a
//! [`CacheHandle`] bound to the cache and that tag, together with a
//! [`ValuePerm`] bound to the same tag. Every operation that returns a
//! value reference or mutates the cache structure presents the token: a
//! lookup borrows it shared, an insert borrows it exclusively. A reference
//! returned by a lookup stays borrowed from the handle and the token, so
//! the borrow checker rejects any insert while such a reference is still
//! live, and the tag equality demanded by every operation rejects a token
//! minted for another scope.

use vstd::prelude::*;

use crate::cache::{Entry, LruCache};
use crate::key::CacheKey;
use crate::model::{after_get, after_put, has_key, key_index, lemma_after_get_wf, lemma_after_put_wf, put_returns, value_of};

verus! {

/// The permission token of one scope: the credential that authorizes
/// value-returning and mutating operations on the handle minted with it.
/// It carries nothing but the identity of its scope.
pub struct ValuePerm {
    pub(crate) tag: u64,
}

impl ValuePerm {
    /// The tag of the scope this token was minted in.
    pub open(crate) spec fn tag(&self) -> u64 {
        self.tag
    }
}

/// The handle of one scope: the sole way to operate on the cache while the
/// scope is open. It is bound to the cache it exclusively borrows and, via
/// the cache's generation counter, to the tag of the scope that minted it.
pub struct CacheHandle<'cache, K, V> {
    pub cache: &'cache mut LruCache<K, V>,
}

impl<'cache, K: CacheKey, V> CacheHandle<'cache, K, V> {
    /// The tag of the scope this handle was minted in.
    pub open(crate) spec fn tag(&self) -> u64 {
        self.cache.generation
    }

    /// The abstract state of the cache behind this handle, in recency
    /// order, least recently used first.
    pub open spec fn entries(&self) -> Seq<(K::V, V)> {
        (*self.cache).entries()
    }

    /// The capacity of the cache behind this handle.
    pub open spec fn spec_cap(&self) -> int {
        (*self.cache).spec_cap()
    }

    /// The cache behind this handle is well formed.
    pub open spec fn inv(&self) -> bool {
        (*self.cache).wf()
    }

    /// The number of live entries. Exposes no value reference, so it needs
    /// no permission token.
    pub fn len(&self) -> (n: usize)
        ensures
            n == self.entries().len(),
    {
        self.cache.entries.len()
    }

    /// Whether the cache holds no entry. Needs no permission token.
    pub fn is_empty(&self) -> (b: bool)
        ensures
            b == (self.entries().len() == 0),
    {
        self.len() == 0
    }

    /// The capacity fixed at construction. Needs no permission token.
    pub fn cap(&self) -> (c: usize)
        ensures
            c == self.spec_cap(),
    {
        self.cache.cap
    }

    /// Linear scan for the entry holding `k`.
    fn find(&self, k: &K) -> (r: Option<usize>)
        ensures
            match r {
                Some(i) => i < self.entries().len() && self.entries()[i as int].0 == k@
                    && (crate::model::keys_distinct(self.entries()) ==> i == key_index(
                        self.entries(),
                        k@,
                    ) && has_key(self.entries(), k@)),
                None => !has_key(self.entries(), k@),
            },
    {
        let n = self.cache.entries.len();
        let mut i: usize = 0;
        while i < n
            invariant
                n == self.entries().len(),
                i <= n,
                forall|j: int| 0 <= j < i ==> self.entries()[j].0 != k@,
            decreases n - i,
        {
            if self.cache.entries[i].key.key_eq(k) {
                proof {
                    if crate::model::keys_distinct(self.entries()) {
                        crate::model::lemma_key_index_unique(self.entries(), k@, i as int);
                    }
                }
                return Some(i);
            }
            i += 1;
        }
        None
    }

    /// Inserts `v` under `k`, making `k` the most recently used entry.
    /// Mutating the cache structure takes the scope's permission token by
    /// exclusive borrow, so no reference handed out earlier in the scope
    /// can still be live.
    ///
    /// A key already present is rewritten in place and its previous value
    /// returned; a new key is appended while there is room and nothing is
    /// returned; at capacity the least recently used entry is overwritten
    /// in place and its value — the evicted value, not one ever stored
    /// under `k` — is returned.
    pub fn put(&mut self, k: K, v: V, perm: &mut ValuePerm) -> (r: Option<V>)
        requires
            old(self).inv(),
            old(self).tag() == old(perm).tag(),
        ensures
            final(self).inv(),
            final(self).tag() == old(self).tag(),
            final(perm).tag() == old(perm).tag(),
            final(self).spec_cap() == old(self).spec_cap(),
            *final(final(self).cache) == *final(old(self).cache),
            final(self).entries() == after_put(
                old(self).entries(),
                old(self).spec_cap(),
                k@,
                v,
            ),
            r == put_returns(old(self).entries(), old(self).spec_cap(), k@, v),
    {
        let ghost s0 = old(self).entries();
        let ghost cap = old(self).spec_cap();
        proof {
            lemma_after_put_wf(s0, cap, k@, v);
        }
        match self.find(&k) {
            Some(i) => {
                let ghost gi = i as int;
                let e = self.cache.entries.remove(i);
                self.cache.entries.push(Entry { key: k, val: v });
                proof {
                    assert(self.entries() =~= s0.remove(gi).push((k@, v)));
                }
                Some(e.val)
            },
            None => {
                if self.cache.entries.len() < self.cache.cap {
                    self.cache.entries.push(Entry { key: k, val: v });
                    proof {
                        assert(self.entries() =~= s0.push((k@, v)));
                    }
                    None
                } else {
                    let victim = self.cache.entries.remove(0);
                    self.cache.entries.push(Entry { key: k, val: v });
                    proof {
                        assert(self.entries() =~= s0.subrange(1, s0.len() as int).push((k@, v)));
                    }
                    Some(victim.val)
                }
            },
        }
    }

    /// Looks up `k`; on a hit the entry becomes the most recently used one
    /// and a reference to its value is returned. Reading takes the scope's
    /// permission token by shared borrow, so many references returned by
    /// lookups may be live at once, but none across a later insert.
    pub fn get<'a>(&'a mut self, k: &K, perm: &'a ValuePerm) -> (r: Option<&'a V>)
        requires
            old(self).inv(),
            old(self).tag() == perm.tag(),
        ensures
            final(self).inv(),
            final(self).tag() == old(self).tag(),
            final(self).spec_cap() == old(self).spec_cap(),
            *final(final(self).cache) == *final(old(self).cache),
            final(self).entries() == after_get(old(self).entries(), k@),
            match r {
                Some(v) => has_key(old(self).entries(), k@) && *v == value_of(
                    old(self).entries(),
                    k@,
                ),
                None => !has_key(old(self).entries(), k@),
            },
    {
        let ghost s0 = old(self).entries();
        proof {
            lemma_after_get_wf(s0, k@);
        }
        match self.find(k) {
            Some(i) => {
                let ghost gi = i as int;
                let e = self.cache.entries.remove(i);
                self.cache.entries.push(e);
                proof {
                    assert(self.entries() =~= s0.remove(gi).push(s0[gi]));
                }
                let n = self.cache.entries.len();
                Some(&self.cache.entries[n - 1].val)
            },
            None => None,
        }
    }

    /// Looks up `k` without touching the recency order and returns a
    /// mutable reference to its value. Handing out a mutable reference
    /// takes the scope's permission token by exclusive borrow: no other
    /// reference into the cache may be live at the same time.
    pub fn peek_mut<'a>(&'a mut self, k: &K, perm: &'a mut ValuePerm) -> (r: Option<&'a mut V>)
        requires
            old(self).inv(),
            old(self).tag() == old(perm).tag(),
        ensures
            final(perm).tag() == old(perm).tag(),
            final(self).inv(),
            final(self).tag() == old(self).tag(),
            final(self).spec_cap() == old(self).spec_cap(),
            *final(final(self).cache) == *final(old(self).cache),
            match r {
                Some(p) => has_key(old(self).entries(), k@) && *p == value_of(
                    old(self).entries(),
                    k@,
                ) && final(self).entries() == old(self).entries().update(
                    key_index(old(self).entries(), k@),
                    (k@, *final(p)),
                ),
                None => !has_key(old(self).entries(), k@) && final(self).entries() == old(
                    self,
                ).entries(),
            },
    {
        match self.find(k) {
            Some(i) => {
                let ghost gi = i as int;
                let e = &mut self.cache.entries[i];
                let r = &mut e.val;
                proof {
                    crate::model::lemma_map_values_update(
                        old(self).cache.entries@,
                        |en: Entry<K, V>| (en.key@, en.val),
                        gi,
                        Entry { key: old(self).cache.entries@[gi].key, val: *final(r) },
                    );
                }
                Some(r)
            },
            None => None,
        }
    }
}

} // verus!
