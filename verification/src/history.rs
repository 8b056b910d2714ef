//! Sequences of operations: what a cache holds after any of them, and how
//! the recency order follows from the time at which each key was last
//! touched.

use crate::laws::{lemma_get_keeps_entries, lemma_put_effect};
use crate::model::{after_get, after_put, rank_of, resident, valid, victim};
use vstd::prelude::*;

verus! {

/// One operation on a cache.
pub enum Op<K, V> {
    /// A `get` of the key.
    Get(K),
    /// A `put` of the key with the value.
    Put(K, V),
}

impl<K, V> Op<K, V> {
    /// The key that the operation reads or writes.
    pub open spec fn key(self) -> K {
        match self {
            Op::Get(k) => k,
            Op::Put(k, _) => k,
        }
    }
}

/// The entries after one operation on a cache of capacity `cap`.
pub open spec fn step<K, V>(s: Seq<(K, V)>, cap: nat, op: Op<K, V>) -> Seq<(K, V)> {
    match op {
        Op::Get(k) => after_get(s, k),
        Op::Put(k, v) => after_put(s, cap, k, v),
    }
}

/// The entries of a cache of capacity `cap` that started empty and went
/// through `ops` in order.
pub open spec fn replay<K, V>(cap: nat, ops: Seq<Op<K, V>>) -> Seq<(K, V)>
    decreases ops.len(),
{
    if ops.len() == 0 {
        Seq::empty()
    } else {
        step(replay(cap, ops.drop_last()), cap, ops.last())
    }
}

/// The time of the last operation of `ops` on the key `k`, counted from 0;
/// -1 if there is none. For a resident key this is the time at which it was
/// last read or written.
pub open spec fn last_touch<K, V>(ops: Seq<Op<K, V>>, k: K) -> int
    decreases ops.len(),
{
    if ops.len() == 0 {
        -1
    } else if ops.last().key() == k {
        ops.len() - 1
    } else {
        last_touch(ops.drop_last(), k)
    }
}

/// The time of the last touch lies within the history.
proof fn lemma_last_touch_bound<K, V>(ops: Seq<Op<K, V>>, k: K)
    ensures
        -1 <= last_touch(ops, k) < ops.len(),
    decreases ops.len(),
{
    if ops.len() > 0 && ops.last().key() != k {
        lemma_last_touch_bound(ops.drop_last(), k);
    }
}

/// After any sequence of operations on a cache that started empty, the
/// cache holds each key once and no more entries than its capacity, every
/// resident key has been touched, and the entries stand in the order of
/// their last touch, latest first.
pub proof fn lemma_recency_follows_history<K, V>(cap: nat, ops: Seq<Op<K, V>>)
    requires
        cap >= 1,
    ensures
        valid(replay(cap, ops), cap),
        forall|i: int|
            0 <= i < replay(cap, ops).len() ==> 0 <= last_touch(
                ops,
                (#[trigger] replay(cap, ops)[i]).0,
            ),
        forall|i: int, j: int|
            0 <= i < j < replay(cap, ops).len() ==> last_touch(
                ops,
                (#[trigger] replay(cap, ops)[i]).0,
            ) > last_touch(ops, (#[trigger] replay(cap, ops)[j]).0),
    decreases ops.len(),
{
    if ops.len() > 0 {
        let earlier = ops.drop_last();
        let s = replay(cap, earlier);
        let t = replay(cap, ops);
        let k = ops.last().key();
        lemma_recency_follows_history(cap, earlier);
        match ops.last() {
            Op::Get(_) => {
                lemma_get_keeps_entries(s, k);
            },
            Op::Put(_, v) => {
                lemma_put_effect(s, cap, k, v);
            },
        }
        let moved = t != s;
        assert forall|j: int| 0 <= j < t.len() implies 0 <= last_touch(ops, (#[trigger] t[j]).0)
            && (moved && j == 0 ==> t[j].0 == k) && (moved && j > 0 ==> 0 <= source(s, k, j)
            < s.len() && t[j] == s[source(s, k, j)] && t[j].0 != k) && (!moved ==> t[j] == s[j])
        by {
            lemma_last_touch_bound(earlier, t[j].0);
            if resident(s, k) && moved && j > 0 {
                let r = rank_of(s, k);
                let a = source(s, k, j);
                assert(0 <= r < s.len() && s[r].0 == k);
                assert(0 <= a < s.len() && a != r);
                if a < r {
                    assert(s[a].0 != s[r].0);
                } else {
                    assert(s[r].0 != s[a].0);
                }
            }
        }
        assert forall|i: int, j: int| 0 <= i < j < t.len() implies last_touch(
            ops,
            (#[trigger] t[i]).0,
        ) > last_touch(ops, (#[trigger] t[j]).0) by {
            lemma_last_touch_bound(earlier, t[j].0);
            if moved && i > 0 {
                assert(source(s, k, i) < source(s, k, j));
            }
        }
    }
}

/// Where the entry at index `j > 0` stood before an operation on `k` that
/// brought `k` to the front.
spec fn source<K, V>(s: Seq<(K, V)>, k: K, j: int) -> int {
    if resident(s, k) && j > rank_of(s, k) {
        j
    } else {
        j - 1
    }
}

/// A key's last touch is no earlier than any operation on it.
proof fn lemma_last_touch_after<K, V>(ops: Seq<Op<K, V>>, t: int)
    requires
        0 <= t < ops.len(),
    ensures
        last_touch(ops, ops[t].key()) >= t,
    decreases ops.len(),
{
    if ops.last().key() != ops[t].key() {
        assert(ops.drop_last()[t] == ops[t]);
        lemma_last_touch_after(ops.drop_last(), t);
    }
}

/// When a `put` of a new key into a full cache evicts a key, that key is
/// the resident key whose last touch lies furthest back, and every other
/// resident key stays.
pub proof fn lemma_evicts_least_recent<K, V>(cap: nat, ops: Seq<Op<K, V>>, k: K, v: V)
    requires
        cap >= 1,
        victim(replay(cap, ops), cap, k) is Some,
    ensures
        resident(replay(cap, ops), victim(replay(cap, ops), cap, k).unwrap()),
        !resident(
            after_put(replay(cap, ops), cap, k, v),
            victim(replay(cap, ops), cap, k).unwrap(),
        ),
        forall|x: K|
            #![trigger resident(replay(cap, ops), x)]
            resident(replay(cap, ops), x) && x != victim(replay(cap, ops), cap, k).unwrap()
                ==> last_touch(ops, victim(replay(cap, ops), cap, k).unwrap()) < last_touch(ops, x)
                && resident(after_put(replay(cap, ops), cap, k, v), x),
{
    let s = replay(cap, ops);
    let e = s.last().0;
    lemma_recency_follows_history(cap, ops);
    lemma_put_effect(s, cap, k, v);
    assert(s[s.len() - 1].0 == e);
    assert forall|x: K| resident(s, x) && x != e implies last_touch(ops, e) < last_touch(ops, x)
        && resident(after_put(s, cap, k, v), x) by {
        let i = rank_of(s, x);
        assert(0 <= i < s.len() - 1 && s[i].0 == x);
    }
}

/// A key that was read or written at time `t` is evicted only when every
/// other key that is still resident has been touched after `t`.
pub proof fn lemma_touched_outlives<K, V>(cap: nat, ops: Seq<Op<K, V>>, t: int, k: K, x: K)
    requires
        cap >= 1,
        0 <= t < ops.len(),
        victim(replay(cap, ops), cap, k) == Some(ops[t].key()),
        resident(replay(cap, ops), x),
        x != ops[t].key(),
    ensures
        last_touch(ops, x) > t,
{
    let s = replay(cap, ops);
    lemma_recency_follows_history(cap, ops);
    lemma_last_touch_after(ops, t);
    let i = rank_of(s, x);
    assert(0 <= i < s.len() - 1 && s[i].0 == x);
    assert(s[s.len() - 1].0 == ops[t].key());
}

} // verus!
