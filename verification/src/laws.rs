//! Proved laws of the cache.
//!
//! Each law is stated over the mathematical model (see `model`), which the
//! contracts of [`CacheHandle::put`] and [`CacheHandle::get`] tie exactly
//! to the executable operations: `put` moves the state to `after_put` and
//! returns `put_returns`, `get` moves it to `after_get`.

use vstd::prelude::*;

use crate::model::{
    after_get, after_put, has_key, key_index, keys_distinct, lemma_after_get_wf,
    lemma_after_put_keys, lemma_after_put_wf, lemma_key_index_unique, put_returns, value_of,
};

verus! {

/// The state after a whole sequence of inserts, applied left to right.
pub open spec fn after_puts<KV, V>(s: Seq<(KV, V)>, cap: int, ops: Seq<(KV, V)>) -> Seq<(KV, V)>
    decreases ops.len(),
{
    if ops.len() == 0 {
        s
    } else {
        after_puts(after_put(s, cap, ops[0].0, ops[0].1), cap, ops.subrange(1, ops.len() as int))
    }
}

/// The distinct keys inserted by `ops`, joined with those already in `acc`.
pub open spec fn inserted_keys<KV, V>(acc: Set<KV>, ops: Seq<(KV, V)>) -> Set<KV>
    decreases ops.len(),
{
    if ops.len() == 0 {
        acc
    } else {
        inserted_keys(acc.insert(ops[0].0), ops.subrange(1, ops.len() as int))
    }
}

/// `inserted_keys(acc, ops)` is finite and holds exactly the keys of `acc`
/// and the keys that `ops` inserts.
pub proof fn lemma_inserted_keys<KV, V>(acc: Set<KV>, ops: Seq<(KV, V)>)
    requires
        acc.finite(),
    ensures
        inserted_keys(acc, ops).finite(),
        forall|k: KV| #![trigger inserted_keys(acc, ops).contains(k)]
            inserted_keys(acc, ops).contains(k) <==> (acc.contains(k) || exists|i: int|
                0 <= i < ops.len() && ops[i].0 == k),
    decreases ops.len(),
{
    broadcast use vstd::set::group_set_axioms;

    if ops.len() > 0 {
        let rest = ops.subrange(1, ops.len() as int);
        assert(inserted_keys(acc, ops) == inserted_keys(acc.insert(ops[0].0), rest));
        lemma_inserted_keys(acc.insert(ops[0].0), rest);
        assert forall|k: KV| inserted_keys(acc, ops).contains(k) implies (acc.contains(k)
            || exists|i: int| 0 <= i < ops.len() && ops[i].0 == k) by {
            assert(inserted_keys(acc.insert(ops[0].0), rest).contains(k));
            if !acc.contains(k) && !(ops[0].0 == k) {
                assert(!acc.insert(ops[0].0).contains(k));
                assert(exists|i: int| 0 <= i < rest.len() && rest[i].0 == k);
                let i = choose|i: int| 0 <= i < rest.len() && rest[i].0 == k;
                assert(ops[i + 1].0 == k);
            } else {
                assert(ops[0].0 == k ==> 0 <= 0 < ops.len() && ops[0].0 == k);
            }
        }
        assert forall|k: KV| (acc.contains(k) || exists|i: int|
            0 <= i < ops.len() && ops[i].0 == k) implies inserted_keys(acc, ops).contains(k) by {
            if acc.contains(k) {
                assert(acc.insert(ops[0].0).contains(k));
                assert(inserted_keys(acc.insert(ops[0].0), rest).contains(k));
            } else {
                let i = choose|i: int| 0 <= i < ops.len() && ops[i].0 == k;
                if i > 0 {
                    assert(0 <= i - 1 < rest.len() && rest[i - 1].0 == k);
                    assert(exists|j: int| 0 <= j < rest.len() && rest[j].0 == k);
                    assert(inserted_keys(acc.insert(ops[0].0), rest).contains(k));
                } else {
                    assert(acc.insert(ops[0].0).contains(k));
                    assert(inserted_keys(acc.insert(ops[0].0), rest).contains(k));
                }
            }
        }
    }
}

/// Capacity bound, run form: starting from a well-formed state whose keys
/// are exactly counted by `acc`, any sequence of inserts keeps the length
/// at the minimum of the number of distinct keys ever inserted and the
/// capacity — so never above the capacity.
pub proof fn lemma_capacity_bound_from<KV, V>(
    s: Seq<(KV, V)>,
    cap: int,
    ops: Seq<(KV, V)>,
    acc: Set<KV>,
)
    requires
        1 <= cap,
        keys_distinct(s),
        s.len() <= cap,
        acc.finite(),
        forall|k: KV| has_key(s, k) ==> acc.contains(k),
        s.len() == if acc.len() <= cap {
            acc.len() as int
        } else {
            cap
        },
        acc.len() <= cap ==> (forall|k: KV| acc.contains(k) ==> has_key(s, k)),
    ensures
        keys_distinct(after_puts(s, cap, ops)),
        after_puts(s, cap, ops).len() <= cap,
        after_puts(s, cap, ops).len() == if inserted_keys(acc, ops).len() <= cap {
            inserted_keys(acc, ops).len() as int
        } else {
            cap
        },
    decreases ops.len(),
{
    broadcast use vstd::set::group_set_axioms;

    if ops.len() > 0 {
        let k = ops[0].0;
        let v = ops[0].1;
        let rest = ops.subrange(1, ops.len() as int);
        let s1 = after_put(s, cap, k, v);
        let acc1 = acc.insert(k);
        lemma_after_put_wf(s, cap, k, v);
        lemma_after_put_keys(s, cap, k, v);
        assert(acc1.finite());
        if has_key(s, k) {
            assert(acc1 =~= acc);
        } else if s.len() < cap {
            assert(!acc.contains(k));
            assert(acc1.len() == acc.len() + 1);
        } else {
            if acc.len() <= cap {
                assert(acc.len() == cap && !acc.contains(k));
                assert(acc1.len() == cap + 1);
            }
            assert(acc1.len() > cap);
            assert forall|x: KV| has_key(s1, x) implies acc1.contains(x) by {}
        }
        lemma_capacity_bound_from(s1, cap, rest, acc1);
    }
}

/// Capacity bound: for any sequence of inserts into a fresh cache, the
/// length never exceeds the capacity, and ends at the minimum of the
/// number of distinct keys inserted and the capacity.
pub proof fn lemma_capacity_bound<KV, V>(cap: int, ops: Seq<(KV, V)>)
    requires
        1 <= cap,
    ensures
        after_puts(Seq::<(KV, V)>::empty(), cap, ops).len() <= cap,
        after_puts(Seq::<(KV, V)>::empty(), cap, ops).len() == if inserted_keys(
            Set::<KV>::empty(),
            ops,
        ).len() <= cap {
            inserted_keys(Set::<KV>::empty(), ops).len() as int
        } else {
            cap
        },
{
    broadcast use vstd::set::group_set_axioms;

    lemma_capacity_bound_from(Seq::<(KV, V)>::empty(), cap, ops, Set::<KV>::empty());
}

/// Update, not evict: an insert under a key already present keeps every
/// key present with its value — nothing is evicted — rewrites the value
/// stored under the key, and returns the key's previous value.
pub proof fn lemma_update_in_place<KV, V>(s: Seq<(KV, V)>, cap: int, k: KV, v: V)
    requires
        keys_distinct(s),
        s.len() <= cap,
        1 <= cap,
        has_key(s, k),
    ensures
        put_returns(s, cap, k, v) == Some(value_of(s, k)),
        after_put(s, cap, k, v).len() == s.len(),
        forall|x: KV| has_key(after_put(s, cap, k, v), x) <==> has_key(s, x),
        forall|x: KV|
            x != k && has_key(s, x) ==> value_of(after_put(s, cap, k, v), x) == value_of(s, x),
        value_of(after_put(s, cap, k, v), k) == v,
{
    lemma_after_put_wf(s, cap, k, v);
    lemma_after_put_keys(s, cap, k, v);
}

/// Strict LRU eviction: an insert of a new key at capacity evicts exactly
/// the least recently used entry — the one at index 0, which of all
/// entries has gone longest without being inserted or looked up, since
/// every touch moves an entry behind all others. The evicted entry's value
/// is returned; every other entry survives with its value, and the new key
/// is present.
pub proof fn lemma_lru_eviction<KV, V>(s: Seq<(KV, V)>, cap: int, k: KV, v: V)
    requires
        keys_distinct(s),
        s.len() == cap,
        1 <= cap,
        !has_key(s, k),
    ensures
        put_returns(s, cap, k, v) == Some(s[0].1),
        !has_key(after_put(s, cap, k, v), s[0].0),
        forall|j: int|
            1 <= j < s.len() ==> has_key(after_put(s, cap, k, v), s[j].0) && value_of(
                after_put(s, cap, k, v),
                s[j].0,
            ) == s[j].1,
        has_key(after_put(s, cap, k, v), k),
        value_of(after_put(s, cap, k, v), k) == v,
{
    lemma_after_put_wf(s, cap, k, v);
    lemma_after_put_keys(s, cap, k, v);
    assert(s[0].0 != k);
    assert forall|j: int| 1 <= j < s.len() implies has_key(after_put(s, cap, k, v), s[j].0)
        && value_of(after_put(s, cap, k, v), s[j].0) == s[j].1 by {
        lemma_key_index_unique(s, s[j].0, j);
        assert(has_key(s, s[j].0) && s[j].0 != s[0].0 && s[j].0 != k);
        assert(value_of(s, s[j].0) == s[j].1);
    }
}

/// `a` is older than `b`: whenever `a` is present, `b` is present too and
/// sits closer to the most recently used end.
pub open spec fn older_than<KV, V>(s: Seq<(KV, V)>, a: KV, b: KV) -> bool {
    has_key(s, a) ==> has_key(s, b) && key_index(s, a) < key_index(s, b)
}

/// One insert of a key other than `a` and `b` keeps `a` older than `b`.
proof fn lemma_put_keeps_order<KV, V>(s: Seq<(KV, V)>, cap: int, x: KV, v: V, a: KV, b: KV)
    requires
        keys_distinct(s),
        s.len() <= cap,
        1 <= cap,
        a != b,
        x != a,
        x != b,
        older_than(s, a, b),
    ensures
        older_than(after_put(s, cap, x, v), a, b),
{
    let t = after_put(s, cap, x, v);
    lemma_after_put_wf(s, cap, x, v);
    lemma_after_put_keys(s, cap, x, v);
    if has_key(t, a) {
        assert(has_key(s, a));
        let ia = key_index(s, a);
        let ib = key_index(s, b);
        assert(0 <= ia < s.len() && s[ia].0 == a);
        assert(0 <= ib < s.len() && s[ib].0 == b);
        if has_key(s, x) {
            let ix = key_index(s, x);
            assert(0 <= ix < s.len() && s[ix].0 == x);
            s.remove_ensures(ix);
            assert(ix != ia && ix != ib);
            let ia2 = if ia < ix {
                ia
            } else {
                ia - 1
            };
            let ib2 = if ib < ix {
                ib
            } else {
                ib - 1
            };
            assert(t[ia2] == s.remove(ix)[ia2] && t[ia2].0 == a);
            assert(t[ib2] == s.remove(ix)[ib2] && t[ib2].0 == b);
            lemma_key_index_unique(t, a, ia2);
            lemma_key_index_unique(t, b, ib2);
            assert(ia2 < ib2);
        } else if s.len() < cap {
            assert(t[ia].0 == a && t[ib].0 == b);
            lemma_key_index_unique(t, a, ia);
            lemma_key_index_unique(t, b, ib);
        } else {
            assert(a != s[0].0);
            if ia == 0 {
                assert(s[0].0 == a);
            }
            assert(1 <= ia);
            assert(t[ia - 1] == s.subrange(1, s.len() as int)[ia - 1] && t[ia - 1].0 == a);
            assert(t[ib - 1] == s.subrange(1, s.len() as int)[ib - 1] && t[ib - 1].0 == b);
            lemma_key_index_unique(t, a, ia - 1);
            lemma_key_index_unique(t, b, ib - 1);
        }
    }
}

/// Recency order is stable: a run of inserts that touches neither `a` nor
/// `b` keeps `a` older than `b` — in particular `a` is evicted first, so
/// `b` is never evicted while `a` is still present.
pub proof fn lemma_puts_keep_order<KV, V>(s: Seq<(KV, V)>, cap: int, ops: Seq<(KV, V)>, a: KV, b: KV)
    requires
        keys_distinct(s),
        s.len() <= cap,
        1 <= cap,
        a != b,
        older_than(s, a, b),
        forall|i: int| 0 <= i < ops.len() ==> ops[i].0 != a && ops[i].0 != b,
    ensures
        older_than(after_puts(s, cap, ops), a, b),
    decreases ops.len(),
{
    if ops.len() > 0 {
        let rest = ops.subrange(1, ops.len() as int);
        let s1 = after_put(s, cap, ops[0].0, ops[0].1);
        lemma_after_put_wf(s, cap, ops[0].0, ops[0].1);
        lemma_put_keeps_order(s, cap, ops[0].0, ops[0].1, a, b);
        assert forall|i: int| 0 <= i < rest.len() implies rest[i].0 != a && rest[i].0 != b by {
            assert(rest[i] == ops[i + 1]);
        }
        lemma_puts_keep_order(s1, cap, rest, a, b);
    }
}

/// Touch-on-read: after a lookup of `k` promotes it, a run of inserts
/// that touches neither `k` nor another key `j` never evicts `k` before
/// `j` — while `j` is still present, so is `k`.
pub proof fn lemma_touch_on_read<KV, V>(s: Seq<(KV, V)>, cap: int, k: KV, j: KV, ops: Seq<(KV, V)>)
    requires
        keys_distinct(s),
        s.len() <= cap,
        1 <= cap,
        has_key(s, k),
        j != k,
        forall|i: int| 0 <= i < ops.len() ==> ops[i].0 != k && ops[i].0 != j,
    ensures
        has_key(after_puts(after_get(s, k), cap, ops), j) ==> has_key(
            after_puts(after_get(s, k), cap, ops),
            k,
        ),
{
    let t = after_get(s, k);
    lemma_after_get_wf(s, k);
    let i = key_index(s, k);
    assert(0 <= i < s.len() && s[i].0 == k);
    assert(t[t.len() - 1] == s[i]);
    lemma_key_index_unique(t, k, t.len() - 1);
    if has_key(t, j) {
        let ij = key_index(t, j);
        assert(0 <= ij < t.len() && t[ij].0 == j);
        assert(ij != t.len() - 1);
    }
    lemma_puts_keep_order(t, cap, ops, j, k);
}

} // verus!
