//! The mathematical model of the cache.
//!
//! A cache state is a sequence of (key, value) pairs in recency order:
//! index 0 is the least recently used entry, the last index the most
//! recently used one. Keys are identified by their views, and every
//! reachable state keeps the key views pairwise distinct.

use vstd::prelude::*;

verus! {

/// All keys in the state are pairwise distinct.
pub open spec fn keys_distinct<KV, V>(s: Seq<(KV, V)>) -> bool {
    forall|i: int, j: int| 0 <= i < j < s.len() ==> s[i].0 != s[j].0
}

/// Some entry of the state holds the key `k`.
pub open spec fn has_key<KV, V>(s: Seq<(KV, V)>, k: KV) -> bool {
    exists|i: int| 0 <= i < s.len() && s[i].0 == k
}

/// The position of the entry holding `k`; meaningful when `has_key(s, k)`
/// and `keys_distinct(s)` hold, in which case it is unique.
pub open spec fn key_index<KV, V>(s: Seq<(KV, V)>, k: KV) -> int {
    choose|i: int| 0 <= i < s.len() && s[i].0 == k
}

/// The value stored under `k`; meaningful when `has_key(s, k)` holds.
pub open spec fn value_of<KV, V>(s: Seq<(KV, V)>, k: KV) -> V {
    s[key_index(s, k)].1
}

/// The state after a lookup of `k`: on a hit the entry is promoted to the
/// most-recently-used end, on a miss nothing changes.
pub open spec fn after_get<KV, V>(s: Seq<(KV, V)>, k: KV) -> Seq<(KV, V)> {
    if has_key(s, k) {
        let i = key_index(s, k);
        s.remove(i).push(s[i])
    } else {
        s
    }
}

/// The state after an insert of `v` under `k` into a cache of capacity `cap`.
/// A key already present is rewritten in place and promoted; a new key is
/// appended while there is room; at capacity the least recently used entry
/// (index 0) is evicted to make room.
pub open spec fn after_put<KV, V>(s: Seq<(KV, V)>, cap: int, k: KV, v: V) -> Seq<(KV, V)> {
    if has_key(s, k) {
        s.remove(key_index(s, k)).push((k, v))
    } else if s.len() < cap {
        s.push((k, v))
    } else {
        s.subrange(1, s.len() as int).push((k, v))
    }
}

/// What an insert of `v` under `k` hands back: the previous value of `k`
/// when `k` was present, nothing while there was room, and otherwise the
/// value of the evicted least-recently-used entry — deliberately, even
/// though that value was never stored under `k`.
pub open spec fn put_returns<KV, V>(s: Seq<(KV, V)>, cap: int, k: KV, v: V) -> Option<V> {
    if has_key(s, k) {
        Some(value_of(s, k))
    } else if s.len() < cap {
        None
    } else {
        Some(s[0].1)
    }
}

/// An insert keeps the keys distinct, keeps the length within the
/// capacity, and leaves the inserted key present. The length grows only
/// when a new key arrives while there is room.
pub proof fn lemma_after_put_wf<KV, V>(s: Seq<(KV, V)>, cap: int, k: KV, v: V)
    requires
        keys_distinct(s),
        s.len() <= cap,
        1 <= cap,
    ensures
        keys_distinct(after_put(s, cap, k, v)),
        after_put(s, cap, k, v).len() == if !has_key(s, k) && s.len() < cap {
            s.len() + 1int
        } else {
            s.len() as int
        },
        after_put(s, cap, k, v).len() <= cap,
        has_key(after_put(s, cap, k, v), k),
{
    let t = after_put(s, cap, k, v);
    if has_key(s, k) {
        let i = key_index(s, k);
        assert(0 <= i < s.len() && s[i].0 == k);
        s.remove_ensures(i);
        assert forall|a: int, b: int| 0 <= a < b < t.len() implies t[a].0 != t[b].0 by {
            if b < t.len() - 1 {
                assert(t[a] == s.remove(i)[a] && t[b] == s.remove(i)[b]);
            } else {
                assert(t[a] == s.remove(i)[a]);
                if a < i {
                    assert(s[a].0 != s[i].0);
                } else {
                    assert(s[a + 1].0 != s[i].0);
                }
            }
        }
        assert(t[t.len() - 1].0 == k);
    } else if s.len() < cap {
        assert forall|a: int, b: int| 0 <= a < b < t.len() implies t[a].0 != t[b].0 by {
            if b == t.len() - 1 {
                assert(t[a] == s[a] && !has_key(s, k));
            }
        }
        assert(t[t.len() - 1].0 == k);
    } else {
        assert forall|a: int, b: int| 0 <= a < b < t.len() implies t[a].0 != t[b].0 by {
            if b == t.len() - 1 {
                assert(t[a] == s[a + 1] && !has_key(s, k));
            } else {
                assert(t[a] == s[a + 1] && t[b] == s[b + 1]);
            }
        }
        assert(t[t.len() - 1].0 == k);
    }
}

/// A lookup keeps the state well formed and does not change which keys
/// are present nor the values stored under them.
pub proof fn lemma_after_get_wf<KV, V>(s: Seq<(KV, V)>, k: KV)
    requires
        keys_distinct(s),
    ensures
        keys_distinct(after_get(s, k)),
        after_get(s, k).len() == s.len(),
        forall|x: KV| has_key(after_get(s, k), x) <==> has_key(s, x),
        forall|x: KV| has_key(s, x) ==> value_of(after_get(s, k), x) == value_of(s, x),
{
    let t = after_get(s, k);
    if has_key(s, k) {
        let i = key_index(s, k);
        assert(0 <= i < s.len() && s[i].0 == k);
        s.remove_ensures(i);
        assert forall|a: int, b: int| 0 <= a < b < t.len() implies t[a].0 != t[b].0 by {
            if b < t.len() - 1 {
                assert(t[a] == s.remove(i)[a] && t[b] == s.remove(i)[b]);
            } else {
                assert(t[a] == s.remove(i)[a] && t[b] == s[i]);
                if a < i {
                    assert(s[a].0 != s[i].0);
                } else {
                    assert(s[a + 1].0 != s[i].0);
                }
            }
        }
        assert forall|x: KV| has_key(t, x) implies has_key(s, x) by {
            let a = choose|a: int| 0 <= a < t.len() && t[a].0 == x;
            if a < t.len() - 1 {
                if a < i {
                    assert(s[a].0 == x);
                } else {
                    assert(s[a + 1].0 == x);
                }
            } else {
                assert(s[i].0 == x);
            }
        }
        assert forall|x: KV| has_key(s, x) implies has_key(t, x) by {
            let a = choose|a: int| 0 <= a < s.len() && s[a].0 == x;
            if a == i {
                assert(t[t.len() - 1].0 == x);
            } else if a < i {
                assert(t[a] == s.remove(i)[a] && t[a].0 == x);
            } else {
                assert(t[a - 1] == s.remove(i)[a - 1] && t[a - 1].0 == x);
            }
        }
        assert forall|x: KV| has_key(s, x) implies value_of(t, x) == value_of(s, x) by {
            let a = key_index(s, x);
            assert(0 <= a < s.len() && s[a].0 == x);
            if a == i {
                lemma_key_index_unique(t, x, t.len() - 1);
                assert(t[t.len() - 1] == s[i]);
            } else if a < i {
                assert(t[a] == s.remove(i)[a] && t[a] == s[a]);
                lemma_key_index_unique(t, x, a);
            } else {
                assert(t[a - 1] == s.remove(i)[a - 1] && t[a - 1] == s[a]);
                lemma_key_index_unique(t, x, a - 1);
            }
        }
    }
}

/// Which keys an insert leaves present, and with which values: the
/// inserted key holds the new value; every other key keeps its value and
/// stays present — except that an insert of a new key at capacity evicts
/// exactly the key of the least recently used entry.
pub proof fn lemma_after_put_keys<KV, V>(s: Seq<(KV, V)>, cap: int, k: KV, v: V)
    requires
        keys_distinct(s),
        s.len() <= cap,
        1 <= cap,
    ensures
        has_key(after_put(s, cap, k, v), k),
        value_of(after_put(s, cap, k, v), k) == v,
        forall|x: KV|
            x != k && has_key(after_put(s, cap, k, v), x) ==> has_key(s, x) && value_of(
                after_put(s, cap, k, v),
                x,
            ) == value_of(s, x),
        has_key(s, k) || s.len() < cap ==> (forall|x: KV|
            x != k ==> (has_key(after_put(s, cap, k, v), x) <==> has_key(s, x))),
        !has_key(s, k) && s.len() == cap ==> (forall|x: KV|
            x != k ==> (has_key(after_put(s, cap, k, v), x) <==> has_key(s, x) && x != s[0].0)),
{
    let t = after_put(s, cap, k, v);
    lemma_after_put_wf(s, cap, k, v);
    lemma_key_index_unique(t, k, t.len() - 1);
    if has_key(s, k) {
        let i = key_index(s, k);
        assert(0 <= i < s.len() && s[i].0 == k);
        s.remove_ensures(i);
        assert forall|x: KV| x != k && has_key(s, x) implies has_key(t, x) by {
            let a = key_index(s, x);
            assert(0 <= a < s.len() && s[a].0 == x);
            if a < i {
                assert(t[a] == s.remove(i)[a] && t[a].0 == x);
            } else {
                assert(t[a - 1] == s.remove(i)[a - 1] && t[a - 1].0 == x);
            }
        }
        assert forall|x: KV| x != k && has_key(t, x) implies has_key(s, x) && value_of(t, x)
            == value_of(s, x) by {
            let a = key_index(t, x);
            assert(0 <= a < t.len() && t[a].0 == x);
            assert(a < t.len() - 1);
            assert(t[a] == s.remove(i)[a]);
            if a < i {
                lemma_key_index_unique(s, x, a);
            } else {
                lemma_key_index_unique(s, x, a + 1);
            }
        }
    } else if s.len() < cap {
        assert forall|x: KV| x != k && has_key(s, x) implies has_key(t, x) by {
            let a = key_index(s, x);
            assert(t[a].0 == x);
        }
        assert forall|x: KV| x != k && has_key(t, x) implies has_key(s, x) && value_of(t, x)
            == value_of(s, x) by {
            let a = key_index(t, x);
            assert(0 <= a < t.len() - 1 && t[a] == s[a]);
            lemma_key_index_unique(s, x, a);
        }
    } else {
        assert forall|x: KV| x != k && has_key(s, x) && x != s[0].0 implies has_key(t, x) by {
            let a = key_index(s, x);
            assert(0 <= a < s.len() && s[a].0 == x);
            assert(a != 0);
            assert(t[a - 1] == s.subrange(1, s.len() as int)[a - 1]);
            assert(t[a - 1].0 == x);
        }
        assert forall|x: KV| x != k && has_key(t, x) implies has_key(s, x) && x != s[0].0
            && value_of(t, x) == value_of(s, x) by {
            let a = key_index(t, x);
            assert(0 <= a < t.len() && t[a].0 == x);
            assert(a < t.len() - 1);
            assert(t[a] == s.subrange(1, s.len() as int)[a]);
            assert(t[a] == s[a + 1]);
            lemma_key_index_unique(s, x, a + 1);
            assert(s[0].0 != s[a + 1].0);
        }
    }
}

/// Mapping a function over a sequence commutes with updating an index.
pub(crate) proof fn lemma_map_values_update<A, B>(s: Seq<A>, f: spec_fn(A) -> B, i: int, a: A)
    requires
        0 <= i < s.len(),
    ensures
        s.update(i, a).map_values(f) == s.map_values(f).update(i, f(a)),
{
    assert(s.update(i, a).map_values(f) =~= s.map_values(f).update(i, f(a)));
}

/// When the keys are distinct, an index holding `k` is the only one.
pub proof fn lemma_key_index_unique<KV, V>(s: Seq<(KV, V)>, k: KV, i: int)
    requires
        keys_distinct(s),
        0 <= i < s.len(),
        s[i].0 == k,
    ensures
        has_key(s, k),
        key_index(s, k) == i,
{
    assert(has_key(s, k));
    let j = key_index(s, k);
    if i != j {
        assert(s[i].0 != s[j].0);
    }
}

} // verus!
