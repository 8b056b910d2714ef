//! What holds of single operations, proved over the model.

use crate::model::{
    after_get, after_put, distinct_keys, lemma_rank_unique, lookup, rank_of, resident, valid,
    victim,
};
use vstd::prelude::*;

verus! {

/// Where the entry at index `j` stood before the entry at index `r` moved
/// to the front.
spec fn origin(r: int, j: int) -> int {
    if j == 0 {
        r
    } else if j <= r {
        j - 1
    } else {
        j
    }
}

/// A `get` keeps the entries and only reorders them: every key stays
/// resident with its value, and a key that is found stands at the front.
pub proof fn lemma_get_keeps_entries<K, V>(s: Seq<(K, V)>, k: K)
    requires
        distinct_keys(s),
    ensures
        distinct_keys(after_get(s, k)),
        after_get(s, k).len() == s.len(),
        forall|x: K| #[trigger] lookup(after_get(s, k), x) == lookup(s, x),
        forall|x: K| #[trigger] resident(after_get(s, k), x) == resident(s, x),
        resident(s, k) ==> after_get(s, k)[0].0 == k,
{
    let t = after_get(s, k);
    if resident(s, k) {
        let r = rank_of(s, k);
        assert forall|j: int| 0 <= j < t.len() implies #[trigger] t[j] == s[origin(r, j)] by {}
        assert forall|i: int, j: int| 0 <= i < j < t.len() implies (#[trigger] t[i]).0 != (
        #[trigger] t[j]).0 by {
            let a = origin(r, i);
            let b = origin(r, j);
            assert(t[i] == s[a] && t[j] == s[b]);
            if a < b {
                assert(s[a].0 != s[b].0);
            } else {
                assert(s[b].0 != s[a].0);
            }
        }
        assert forall|x: K| lookup(t, x) == lookup(s, x) && resident(t, x) == resident(s, x) by {
            if resident(s, x) {
                let i = rank_of(s, x);
                let j = if i == r {
                    0
                } else if i < r {
                    i + 1
                } else {
                    i
                };
                assert(t[j] == s[origin(r, j)]);
                lemma_rank_unique(t, x, j);
            }
            if resident(t, x) {
                let j = rank_of(t, x);
                assert(t[j] == s[origin(r, j)]);
                lemma_rank_unique(s, x, origin(r, j));
            }
        }
    }
}

/// Where the entry at index `j > 0` stood before a `put` of `k`.
spec fn put_origin<K, V>(s: Seq<(K, V)>, k: K, j: int) -> int {
    if resident(s, k) {
        origin(rank_of(s, k), j)
    } else {
        j - 1
    }
}

/// What a `put` does: the new pair stands at the front and is found by a
/// lookup; the keys stay distinct and within the capacity; the number of
/// entries grows by one only for a new key in a cache that is not full; and
/// every other key keeps its value, except the victim, which is gone.
pub proof fn lemma_put_effect<K, V>(s: Seq<(K, V)>, cap: nat, k: K, v: V)
    requires
        valid(s, cap),
    ensures
        valid(after_put(s, cap, k, v), cap),
        after_put(s, cap, k, v).len() == (if resident(s, k) || s.len() == cap {
            s.len()
        } else {
            s.len() + 1
        }),
        after_put(s, cap, k, v)[0] == (k, v),
        lookup(after_put(s, cap, k, v), k) == Some(v),
        forall|x: K|
            x != k ==> #[trigger] lookup(after_put(s, cap, k, v), x) == (if victim(s, cap, k)
                == Some(x) {
                None
            } else {
                lookup(s, x)
            }),
        forall|x: K|
            x != k ==> #[trigger] resident(after_put(s, cap, k, v), x) == (resident(s, x)
                && victim(s, cap, k) != Some(x)),
{
    let t = after_put(s, cap, k, v);
    if resident(s, k) {
        let r = rank_of(s, k);
        assert(0 <= r < s.len() && s[r].0 == k);
    }
    assert forall|j: int| 0 < j < t.len() implies #[trigger] t[j] == s[put_origin(s, k, j)]
        && 0 <= put_origin(s, k, j) < s.len() && t[j].0 != k by {
        let a = put_origin(s, k, j);
        if resident(s, k) {
            let r = rank_of(s, k);
            if a < r {
                assert(s[a].0 != s[r].0);
            } else {
                assert(s[r].0 != s[a].0);
            }
        }
    }
    assert forall|i: int, j: int| 0 <= i < j < t.len() implies (#[trigger] t[i]).0 != (
    #[trigger] t[j]).0 by {
        if i > 0 {
            let a = put_origin(s, k, i);
            let b = put_origin(s, k, j);
            assert(t[i] == s[a] && t[j] == s[b]);
            assert(a < b);
            assert(s[a].0 != s[b].0);
        }
    }
    lemma_rank_unique(t, k, 0);
    assert forall|x: K| x != k implies lookup(t, x) == (if victim(s, cap, k) == Some(x) {
        None
    } else {
        lookup(s, x)
    }) && resident(t, x) == (resident(s, x) && victim(s, cap, k) != Some(x)) by {
        if resident(t, x) {
            let j = rank_of(t, x);
            assert(t[j] == s[put_origin(s, k, j)]);
            lemma_rank_unique(s, x, put_origin(s, k, j));
            if victim(s, cap, k) == Some(x) {
                assert(s[put_origin(s, k, j)].0 != s[s.len() - 1].0);
            }
        }
        if resident(s, x) && victim(s, cap, k) != Some(x) {
            let i = rank_of(s, x);
            let j = if resident(s, k) && i > rank_of(s, k) {
                i
            } else {
                i + 1
            };
            assert(t[j] == s[put_origin(s, k, j)]);
            lemma_rank_unique(t, x, j);
        }
    }
}

/// A key that was just read or written is the most-recently-used one, and
/// the next eviction spares it as long as another key is resident.
pub proof fn lemma_touched_is_most_recent<K, V>(s: Seq<(K, V)>, cap: nat, k: K, v: V, x: K)
    requires
        valid(s, cap),
    ensures
        after_put(s, cap, k, v)[0].0 == k,
        rank_of(after_put(s, cap, k, v), k) == 0,
        after_put(s, cap, k, v).len() >= 2 ==> victim(after_put(s, cap, k, v), cap, x) != Some(k),
        resident(s, k) ==> after_get(s, k)[0].0 == k && rank_of(after_get(s, k), k) == 0,
        resident(s, k) && s.len() >= 2 ==> victim(after_get(s, k), cap, x) != Some(k),
{
    lemma_put_effect(s, cap, k, v);
    lemma_get_keeps_entries(s, k);
    let t = after_put(s, cap, k, v);
    lemma_rank_unique(t, k, 0);
    if t.len() >= 2 {
        assert(t[0].0 != t[t.len() - 1].0);
    }
    if resident(s, k) {
        let g = after_get(s, k);
        lemma_rank_unique(g, k, 0);
        if s.len() >= 2 {
            assert(g[0].0 != g[g.len() - 1].0);
        }
    }
}

/// Writing a key twice in a row leaves what writing the second value alone
/// would have left: one entry for the key, with the second value. The second
/// write evicts nothing and keeps the number of entries.
pub proof fn lemma_overwrite<K, V>(s: Seq<(K, V)>, cap: nat, k: K, v1: V, v2: V)
    requires
        valid(s, cap),
    ensures
        after_put(after_put(s, cap, k, v1), cap, k, v2) == after_put(s, cap, k, v2),
        after_put(after_put(s, cap, k, v1), cap, k, v2) == after_put(s, cap, k, v1).update(
            0,
            (k, v2),
        ),
        after_put(after_put(s, cap, k, v1), cap, k, v2).len() == after_put(s, cap, k, v1).len(),
        victim(after_put(s, cap, k, v1), cap, k) is None,
        valid(after_put(after_put(s, cap, k, v1), cap, k, v2), cap),
        lookup(after_put(after_put(s, cap, k, v1), cap, k, v2), k) == Some(v2),
{
    let s1 = after_put(s, cap, k, v1);
    lemma_put_effect(s, cap, k, v1);
    lemma_rank_unique(s1, k, 0);
    let s2 = after_put(s1, cap, k, v2);
    lemma_put_effect(s1, cap, k, v2);
    lemma_put_effect(s, cap, k, v2);
    assert(s2 =~= after_put(s, cap, k, v2));
    assert(s2 =~= s1.update(0, (k, v2)));
}

/// A value that was just written is the one that a lookup finds, and the
/// `get` that reads it back changes nothing.
pub proof fn lemma_round_trip<K, V>(s: Seq<(K, V)>, cap: nat, k: K, v: V)
    requires
        valid(s, cap),
    ensures
        lookup(after_put(s, cap, k, v), k) == Some(v),
        after_get(after_put(s, cap, k, v), k) == after_put(s, cap, k, v),
{
    let t = after_put(s, cap, k, v);
    lemma_put_effect(s, cap, k, v);
    lemma_rank_unique(t, k, 0);
    assert(after_get(t, k) =~= t);
}

} // verus!
