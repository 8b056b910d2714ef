//! The mathematical model of the cache.
//!
//! A cache is modelled by the sequence of its key-value pairs, ordered from
//! the most-recently-used entry (index 0) to the least-recently-used one
//! (the last index), together with its capacity. The functions here say what
//! a lookup and an insertion do to that sequence.

use vstd::prelude::*;

verus! {

/// No key occurs twice in `s`.
pub open spec fn distinct_keys<K, V>(s: Seq<(K, V)>) -> bool {
    forall|i: int, j: int| 0 <= i < j < s.len() ==> (#[trigger] s[i]).0 != (#[trigger] s[j]).0
}

/// What a cache of capacity `cap` may hold: at most `cap` entries, each key
/// once. The capacity is positive.
pub open spec fn valid<K, V>(s: Seq<(K, V)>, cap: nat) -> bool {
    &&& cap >= 1
    &&& s.len() <= cap
    &&& distinct_keys(s)
}

/// Some entry of `s` has the key `k`.
pub open spec fn resident<K, V>(s: Seq<(K, V)>, k: K) -> bool {
    exists|i: int| 0 <= i < s.len() && (#[trigger] s[i]).0 == k
}

/// The index in `s` of the entry with key `k`: 0 for the most-recently-used
/// entry. Meaningful only if `k` is resident; unique if the keys are distinct.
pub open spec fn rank_of<K, V>(s: Seq<(K, V)>, k: K) -> int {
    choose|i: int| 0 <= i < s.len() && (#[trigger] s[i]).0 == k
}

/// The value stored under `k`, if any.
pub open spec fn lookup<K, V>(s: Seq<(K, V)>, k: K) -> Option<V> {
    if resident(s, k) {
        Some(s[rank_of(s, k)].1)
    } else {
        None
    }
}

/// The entries after a `get` of `k`: a resident key moves to the front and
/// the others keep their order; a miss changes nothing.
pub open spec fn after_get<K, V>(s: Seq<(K, V)>, k: K) -> Seq<(K, V)> {
    if resident(s, k) {
        seq![s[rank_of(s, k)]] + s.remove(rank_of(s, k))
    } else {
        s
    }
}

/// The key that a `put` of `k` into `s` evicts: the last one, if `k` is new
/// and `s` already holds `cap` entries.
pub open spec fn victim<K, V>(s: Seq<(K, V)>, cap: nat, k: K) -> Option<K> {
    if !resident(s, k) && s.len() >= cap && s.len() > 0 {
        Some(s.last().0)
    } else {
        None
    }
}

/// The entries after a `put` of `k` with value `v` into a cache of capacity
/// `cap`: `(k, v)` stands at the front; an older entry for `k` is gone; if
/// `k` is new and the cache was full, the last entry is gone; all other
/// entries keep their order.
pub open spec fn after_put<K, V>(s: Seq<(K, V)>, cap: nat, k: K, v: V) -> Seq<(K, V)> {
    if resident(s, k) {
        seq![(k, v)] + s.remove(rank_of(s, k))
    } else if s.len() < cap {
        seq![(k, v)] + s
    } else {
        seq![(k, v)] + s.drop_last()
    }
}

/// With distinct keys, the entry with key `k` stands at exactly one index.
pub proof fn lemma_rank_unique<K, V>(s: Seq<(K, V)>, k: K, i: int)
    requires
        distinct_keys(s),
        0 <= i < s.len(),
        s[i].0 == k,
    ensures
        resident(s, k),
        rank_of(s, k) == i,
        lookup(s, k) == Some(s[i].1),
{
    let r = rank_of(s, k);
    assert(0 <= r < s.len() && s[r].0 == k);
    if r < i {
        assert(s[r].0 != s[i].0);
    } else if i < r {
        assert(s[i].0 != s[r].0);
    }
}

} // verus!
