//! The cache itself: an arena of entries linked into a recency list by slot
//! numbers, and a hash index from each key to the slot that holds it.
//!
//! Every operation finds its entry through the index and relinks at most a
//! few neighbours; none of them walks the list.

use crate::history::{last_touch, lemma_recency_follows_history, replay, step, Op};
use crate::model::{after_get, after_put, lemma_rank_unique, lookup, rank_of, resident, valid};
use std::collections::HashMap;
use std::hash::Hash;
use vstd::prelude::*;
use vstd::std_specs::hash::obeys_key_model;

verus! {

/// Every clone of a `K` equals the key it was cloned from.
///
/// The cache keeps each key twice, in the index and in the entry, and relies
/// on the two being equal.
pub open spec fn clones_exactly<K: Clone>() -> bool {
    forall|a: K, b: K| #[trigger] cloned::<K>(a, b) ==> a == b
}

/// One resident key-value pair and its neighbours in the recency list.
struct Entry<K, V> {
    key: K,
    value: V,
    /// Slot of the next more recently used entry; `None` at the head.
    prev: Option<usize>,
    /// Slot of the next less recently used entry; `None` at the tail.
    next: Option<usize>,
}

/// A cache of at most `capacity` entries. When a new key arrives at a full
/// cache, the entry that was read or written longest ago is evicted.
///
/// In contracts the cache is seen as the sequence of its key-value pairs,
/// most-recently-used first (`cache@`), its capacity, and the operations it
/// has gone through (`cache.history()`).
pub struct LruCache<K, V> {
    capacity: usize,
    /// The slot of each resident key.
    index: HashMap<K, usize>,
    /// The arena: every slot holds a resident entry.
    slots: Vec<Entry<K, V>>,
    /// Slot of the most-recently-used entry.
    head: Option<usize>,
    /// Slot of the least-recently-used entry.
    tail: Option<usize>,
    /// The slots in recency order, most-recently-used first.
    order: Ghost<Seq<usize>>,
    /// Every `get` and `put` since the cache was made, oldest first.
    history: Ghost<Seq<Op<K, V>>>,
}

/// The slot before position `i` of `order`, if there is one.
spec fn slot_before(order: Seq<usize>, i: int) -> Option<usize> {
    if i == 0 {
        None
    } else {
        Some(order[i - 1])
    }
}

/// The slot after position `i` of `order`, if there is one.
spec fn slot_after(order: Seq<usize>, i: int) -> Option<usize> {
    if i + 1 == order.len() {
        None
    } else {
        Some(order[i + 1])
    }
}

impl<K, V> View for LruCache<K, V> {
    type V = Seq<(K, V)>;

    /// The resident key-value pairs, most-recently-used first.
    closed spec fn view(&self) -> Seq<(K, V)> {
        Seq::new(
            self.order@.len(),
            |i: int|
                (self.slots@[self.order@[i] as int].key, self.slots@[self.order@[i] as int].value),
        )
    }
}

impl<K: Hash + Eq + Clone, V: Clone> LruCache<K, V> {
    /// The number of entries that the cache can hold, in contracts.
    pub closed spec fn spec_capacity(&self) -> usize {
        self.capacity
    }

    /// The operations that the cache has gone through since it was made,
    /// oldest first.
    pub closed spec fn history(&self) -> Seq<Op<K, V>> {
        self.history@
    }

    /// The invariant of the cache: its data structure is sound, and it holds
    /// what its history has left in it.
    pub closed spec fn wf(&self) -> bool {
        &&& self.structured()
        &&& self@ == replay(self.capacity as nat, self.history@)
    }

    /// The invariant of the data structure: the capacity is positive and
    /// bounds the number of entries; the recency list is one chain through
    /// every slot of the arena; the index knows exactly the keys in the
    /// arena; and the key type can serve as a hash key and clones to an
    /// equal key.
    spec fn structured(&self) -> bool {
        &&& self.capacity >= 1
        &&& obeys_key_model::<K>()
        &&& clones_exactly::<K>()
        &&& self.slots@.len() <= self.capacity
        &&& self.chained()
        &&& self.order@.len() == self.slots@.len()
        &&& forall|s: usize| s < self.slots@.len() ==> #[trigger] self.order@.contains(s)
        &&& self.indexed()
    }

    /// An empty cache that holds up to `capacity` entries.
    ///
    /// The capacity must be positive. The key type must hash and compare as
    /// a hash map expects, and a cloned key must equal the key it came from.
    pub fn new(capacity: usize) -> (cache: Self)
        requires
            capacity >= 1,
            obeys_key_model::<K>(),
            clones_exactly::<K>(),
        ensures
            cache.wf(),
            cache.capacity() == capacity,
            cache@ == Seq::<(K, V)>::empty(),
            cache.history() == Seq::<Op<K, V>>::empty(),
            valid(cache@, capacity as nat),
    {
        let cache = Self {
            capacity,
            index: HashMap::new(),
            slots: Vec::new(),
            head: None,
            tail: None,
            order: Ghost(Seq::empty()),
            history: Ghost(Seq::empty()),
        };
        assert(cache@ =~= Seq::empty());
        cache
    }

    /// The number of entries that the cache can hold.
    #[verifier::when_used_as_spec(spec_capacity)]
    pub fn capacity(&self) -> (capacity: usize)
        ensures
            capacity == self.spec_capacity(),
    {
        self.capacity
    }

    /// The number of entries that the cache holds.
    pub fn len(&self) -> (len: usize)
        requires
            self.wf(),
        ensures
            len == self@.len(),
            len <= self.capacity(),
    {
        self.slots.len()
    }

    /// Looks `key` up. A hit returns a clone of the stored value and makes
    /// the entry the most-recently-used one; a miss changes nothing.
    pub fn get(&mut self, key: K) -> (found: Option<V>)
        requires
            old(self).wf(),
        ensures
            final(self).wf(),
            final(self).capacity() == old(self).capacity(),
            final(self)@ == after_get(old(self)@, key),
            final(self).history() == old(self).history().push(Op::Get(key)),
            final(self)@.len() == old(self)@.len(),
            final(self)@.len() <= final(self).capacity(),
            valid(final(self)@, final(self).capacity() as nat),
            match lookup(old(self)@, key) {
                Some(v) => found matches Some(c) && cloned(v, c) && final(self)@[0] == (key, v),
                None => found is None,
            },
    {
        proof {
            self.lemma_view_valid();
            self.lemma_index_agrees(key);
        }
        let found = match self.index.get(&key) {
            Some(s) => {
                let slot = *s;
                let ghost i = self.order@.index_of(slot);
                let value = self.slots[slot].value.clone();
                self.remove_node(slot);
                self.push_front(slot);
                proof {
                    self.lemma_moved_to_front(old(self), i);
                }
                Some(value)
            },
            None => None,
        };
        proof {
            let done = *self;
            self.history = Ghost(done.history@.push(Op::Get(key)));
            self.lemma_recorded(&done, old(self), Op::Get(key));
        }
        found
    }

    /// Stores `value` under `key` and makes the entry the most-recently-used
    /// one. A resident key keeps its entry and gets the new value. A new key
    /// gets a new entry; if the cache is full, the least-recently-used entry
    /// is evicted first.
    pub fn put(&mut self, key: K, value: V)
        requires
            old(self).wf(),
        ensures
            final(self).wf(),
            final(self).capacity() == old(self).capacity(),
            final(self)@ == after_put(old(self)@, old(self).capacity() as nat, key, value),
            final(self).history() == old(self).history().push(Op::Put(key, value)),
            final(self)@.len() == (if resident(old(self)@, key) || old(self)@.len() == old(
                self,
            ).capacity() {
                old(self)@.len()
            } else {
                old(self)@.len() + 1
            }),
            final(self)@.len() <= final(self).capacity(),
            valid(final(self)@, final(self).capacity() as nat),
            final(self)@[0] == (key, value),
            lookup(final(self)@, key) == Some(value),
    {
        proof {
            self.lemma_view_valid();
            self.lemma_index_agrees(key);
        }
        match self.index.get(&key) {
            Some(s) => {
                let slot = *s;
                let ghost i = self.order@.index_of(slot);
                self.slots[slot].value = value;
                proof {
                    self.lemma_payload_keeps_chain(old(self));
                }
                self.remove_node(slot);
                self.push_front(slot);
                proof {
                    self.lemma_moved_to_front(old(self), i);
                    let done = *self;
                    self.history = Ghost(done.history@.push(Op::Put(key, value)));
                    self.lemma_recorded(&done, old(self), Op::Put(key, value));
                    lemma_rank_unique(self@, key, 0);
                }
                return;
            },
            None => {},
        }
        let ghost n = self.order@.len() as int;
        let evicted = if self.slots.len() >= self.capacity {
            self.tail
        } else {
            None
        };
        let slot = match evicted {
            Some(last) => {
                assert(self.linked_at(n - 1));
                self.index.remove(&self.slots[last].key);
                proof {
                    self.lemma_payload_keeps_chain(old(self));
                    assert(self.order@[n - 1] == last);
                }
                self.remove_node(last);
                let ghost unlinked = *self;
                self.slots[last].key = key.clone();
                self.slots[last].value = value;
                proof {
                    assert(cloned::<K>(key, self.slots@[last as int].key));
                    self.lemma_payload_keeps_chain(&unlinked);
                }
                last
            },
            None => {
                let fresh = self.slots.len();
                self.slots.push(Entry { key: key.clone(), value, prev: None, next: None });
                proof {
                    assert(cloned::<K>(key, self.slots@[fresh as int].key));
                    self.lemma_payload_keeps_chain(old(self));
                }
                fresh
            },
        };
        proof {
            assert forall|j: int| 0 <= j < self.order@.len() implies self.order@[j] != slot by {
                assert(old(self).linked_at(j));
                assert(self.order@[j] == old(self).order@[j]);
            }
        }
        self.push_front(slot);
        let ghost linked = *self;
        self.index.insert(key, slot);
        proof {
            self.lemma_payload_keeps_chain(&linked);
            if old(self).slots@.len() >= old(self).capacity {
                assert(old(self).order@.remove(n - 1) =~= old(self).order@.drop_last());
                self.lemma_tail_replaced(old(self), key, value);
            } else {
                self.lemma_grown(old(self), key, value);
            }
            let done = *self;
            self.history = Ghost(done.history@.push(Op::Put(key, value)));
            self.lemma_recorded(&done, old(self), Op::Put(key, value));
            lemma_rank_unique(self@, key, 0);
        }
    }

    /// A well-formed cache holds each key once and no more entries than its
    /// capacity, which is positive.
    pub proof fn lemma_view_valid(&self)
        requires
            self.wf(),
        ensures
            valid(self@, self.capacity() as nat),
    {
        self.lemma_structured_valid();
    }

    /// A well-formed cache holds what its history, replayed on an empty
    /// cache, leaves: every resident key has been touched, and the entries
    /// stand in the order of their last touch, latest first. So the key that
    /// the next eviction takes is the one that was touched longest ago.
    pub proof fn lemma_view_follows_history(&self)
        requires
            self.wf(),
        ensures
            self@ == replay(self.capacity() as nat, self.history()),
            forall|i: int|
                0 <= i < self@.len() ==> 0 <= last_touch(self.history(), (#[trigger] self@[i]).0),
            forall|i: int, j: int|
                0 <= i < j < self@.len() ==> last_touch(self.history(), (#[trigger] self@[i]).0)
                    > last_touch(self.history(), (#[trigger] self@[j]).0),
    {
        lemma_recency_follows_history(self.capacity as nat, self.history@);
    }

    /// Takes the entry in `slot` out of the recency list and joins its two
    /// neighbours; the entry stays in the arena.
    fn remove_node(&mut self, slot: usize)
        requires
            old(self).chained(),
            old(self).order@.contains(slot),
        ensures
            final(self).chained(),
            final(self).order@ == old(self).order@.remove(old(self).order@.index_of(slot)),
            final(self).same_payload(old(self)),
    {
        let ghost order = self.order@;
        let ghost i = order.index_of(slot);
        assert(old(self).linked_at(i));
        let prev = self.slots[slot].prev;
        let next = self.slots[slot].next;
        match prev {
            Some(p) => {
                assert(old(self).linked_at(i - 1));
                self.slots[p].next = next;
            },
            None => {
                self.head = next;
            },
        }
        match next {
            Some(n) => {
                assert(old(self).linked_at(i + 1));
                self.slots[n].prev = prev;
            },
            None => {
                self.tail = prev;
            },
        }
        proof {
            self.order = Ghost(order.remove(i));
            assert forall|j: int| 0 <= j < self.order@.len() implies #[trigger] self.linked_at(
                j,
            ) by {
                let from = if j < i {
                    j
                } else {
                    j + 1
                };
                assert(old(self).linked_at(from));
                assert(self.order@[j] == order[from]);
            }
        }
    }

    /// Puts the entry in `slot`, which is in the arena but not in the
    /// recency list, at the front of the list.
    fn push_front(&mut self, slot: usize)
        requires
            old(self).chained(),
            slot < old(self).slots@.len(),
            !old(self).order@.contains(slot),
        ensures
            final(self).chained(),
            final(self).order@ == seq![slot] + old(self).order@,
            final(self).same_payload(old(self)),
    {
        let ghost order = self.order@;
        let head = self.head;
        self.slots[slot].next = head;
        self.slots[slot].prev = None;
        if let Some(h) = head {
            assert(old(self).linked_at(0));
            self.slots[h].prev = Some(slot);
        }
        self.head = Some(slot);
        if self.tail.is_none() {
            self.tail = Some(slot);
        }
        proof {
            self.order = Ghost(seq![slot] + order);
            assert forall|j: int| 0 <= j < self.order@.len() implies #[trigger] self.linked_at(
                j,
            ) by {
                if j > 0 {
                    assert(old(self).linked_at(j - 1));
                    assert(self.order@[j] == order[j - 1]);
                }
            }
        }
    }

    /// The entry at position `i` of the recency order lies in the arena and
    /// points at its two neighbours.
    spec fn linked_at(&self, i: int) -> bool {
        let slot = self.order@[i];
        &&& slot < self.slots@.len()
        &&& self.slots@[slot as int].prev == slot_before(self.order@, i)
        &&& self.slots@[slot as int].next == slot_after(self.order@, i)
    }

    /// `head`, `tail` and the links of the entries spell out `order`: one
    /// chain in which no slot occurs twice.
    spec fn chained(&self) -> bool {
        let order = self.order@;
        &&& forall|i: int| 0 <= i < order.len() ==> #[trigger] self.linked_at(i)
        &&& forall|i: int, j: int|
            0 <= i < j < order.len() ==> #[trigger] order[i] != #[trigger] order[j]
        &&& self.head == (if order.len() == 0 {
            None
        } else {
            Some(order[0])
        })
        &&& self.tail == (if order.len() == 0 {
            None
        } else {
            Some(order[order.len() - 1])
        })
    }

    /// The index maps each key in the arena to the slot that holds it, and
    /// no other key.
    spec fn indexed(&self) -> bool {
        &&& forall|k: K| #[trigger]
            self.index@.contains_key(k) ==> self.index@[k] < self.slots@.len()
                && self.slots@[self.index@[k] as int].key == k
        &&& forall|s: int|
            0 <= s < self.slots@.len() ==> self.index@.contains_key((#[trigger] self.slots@[s]).key)
                && self.index@[self.slots@[s].key] == s
    }

    /// `self` differs from `other` at most in the links of the recency list.
    spec fn same_payload(&self, other: &Self) -> bool {
        &&& self.capacity == other.capacity
        &&& self.history@ == other.history@
        &&& self.index@ == other.index@
        &&& self.slots@.len() == other.slots@.len()
        &&& forall|s: int|
            0 <= s < self.slots@.len() ==> (#[trigger] self.slots@[s]).key == other.slots@[s].key
                && self.slots@[s].value == other.slots@[s].value
    }

    /// A sound data structure holds each key once and no more entries than
    /// its capacity, which is positive.
    proof fn lemma_structured_valid(&self)
        requires
            self.structured(),
        ensures
            valid(self@, self.capacity as nat),
    {
        assert forall|i: int, j: int| 0 <= i < j < self@.len() implies (#[trigger] self@[i]).0 != (
        #[trigger] self@[j]).0 by {
            assert(self.linked_at(i) && self.linked_at(j));
            let a = self.slots@[self.order@[i] as int];
            let b = self.slots@[self.order@[j] as int];
            assert(self.index@[a.key] == self.order@[i]);
            assert(self.index@[b.key] == self.order@[j]);
        }
    }

    /// Once `op` has taken a well-formed cache from `before` to `done`,
    /// adding `op` to the history gives a well-formed cache again.
    proof fn lemma_recorded(&self, done: &Self, before: &Self, op: Op<K, V>)
        requires
            before.wf(),
            done.structured(),
            done.capacity == before.capacity,
            done@ == step(before@, before.capacity as nat, op),
            self.capacity == done.capacity,
            self.index@ == done.index@,
            self.slots@ == done.slots@,
            self.head == done.head,
            self.tail == done.tail,
            self.order@ == done.order@,
            self.history@ == before.history@.push(op),
        ensures
            self.wf(),
            self@ == done@,
            valid(self@, self.capacity as nat),
    {
        self.lemma_payload_keeps_chain(done);
        assert forall|s: usize| s < self.slots@.len() implies #[trigger] self.order@.contains(
            s,
        ) by {
            assert(done.order@.contains(s));
        }
        assert forall|k: K| #[trigger] self.index@.contains_key(k) implies self.index@[k]
            < self.slots@.len() && self.slots@[self.index@[k] as int].key == k by {
            assert(done.index@.contains_key(k));
        }
        assert(self@ =~= done@);
        assert(self.history@.drop_last() =~= before.history@);
        self.lemma_structured_valid();
    }

    /// The index finds `key` exactly if the model does, and then in the slot
    /// that stands at the key's rank.
    proof fn lemma_index_agrees(&self, key: K)
        requires
            self.structured(),
        ensures
            self.index@.contains_key(key) <==> resident(self@, key),
            self.index@.contains_key(key) ==> {
                let i = self.order@.index_of(self.index@[key]);
                &&& self.order@.contains(self.index@[key])
                &&& 0 <= i < self.order@.len()
                &&& self.order@[i] == self.index@[key]
                &&& rank_of(self@, key) == i
            },
    {
        self.lemma_structured_valid();
        if self.index@.contains_key(key) {
            let slot = self.index@[key];
            assert(self.order@.contains(slot));
            let i = self.order@.index_of(slot);
            assert(self@[i].0 == key);
            lemma_rank_unique(self@, key, i);
        }
        if resident(self@, key) {
            let i = rank_of(self@, key);
            assert(self.linked_at(i));
            assert(self.slots@[self.order@[i] as int].key == key);
        }
    }

    /// Changing keys and values in the arena, or adding a slot to it, leaves
    /// the recency list as it was.
    proof fn lemma_payload_keeps_chain(&self, before: &Self)
        requires
            before.chained(),
            self.order@ == before.order@,
            self.head == before.head,
            self.tail == before.tail,
            self.slots@.len() >= before.slots@.len(),
            forall|s: int|
                0 <= s < before.slots@.len() ==> (#[trigger] self.slots@[s]).prev
                    == before.slots@[s].prev && self.slots@[s].next == before.slots@[s].next,
        ensures
            self.chained(),
    {
        assert forall|j: int| 0 <= j < self.order@.len() implies #[trigger] self.linked_at(j) by {
            assert(before.linked_at(j));
        }
    }

    /// Moving the entry at rank `i` of a well-formed cache to the front of
    /// the recency list, and perhaps changing its value, gives a well-formed
    /// cache with that entry first and the others in their old order.
    proof fn lemma_moved_to_front(&self, before: &Self, i: int)
        requires
            before.structured(),
            0 <= i < before.order@.len(),
            self.chained(),
            self.order@ == seq![before.order@[i]] + before.order@.remove(i),
            self.capacity == before.capacity,
            self.index@ == before.index@,
            self.slots@.len() == before.slots@.len(),
            forall|s: int|
                0 <= s < self.slots@.len() ==> (#[trigger] self.slots@[s]).key
                    == before.slots@[s].key,
            forall|s: int|
                0 <= s < self.slots@.len() && s != before.order@[i] ==> (
                #[trigger] self.slots@[s]).value == before.slots@[s].value,
        ensures
            self.structured(),
            self@ == seq![(before@[i].0, self.slots@[before.order@[i] as int].value)]
                + before@.remove(i),
    {
        let slot = before.order@[i];
        assert(before.linked_at(i));
        assert forall|s: usize| s < self.slots@.len() implies #[trigger] self.order@.contains(
            s,
        ) by {
            assert(before.order@.contains(s));
            let r = before.order@.index_of(s);
            let to = if r == i {
                0
            } else if r < i {
                r + 1
            } else {
                r
            };
            assert(self.order@[to] == s);
        }
        assert forall|k: K| #[trigger] self.index@.contains_key(k) implies self.index@[k]
            < self.slots@.len() && self.slots@[self.index@[k] as int].key == k by {
            assert(before.index@.contains_key(k));
        }
        assert forall|s: int| 0 <= s < self.slots@.len() implies self.index@.contains_key(
            (#[trigger] self.slots@[s]).key,
        ) && self.index@[self.slots@[s].key] == s by {
            assert(before.slots@[s].key == self.slots@[s].key);
        }
        let moved = seq![(before@[i].0, self.slots@[slot as int].value)] + before@.remove(i);
        assert forall|j: int| 0 <= j < self@.len() implies self@[j] == moved[j] by {
            let from = if j == 0 {
                i
            } else if j <= i {
                j - 1
            } else {
                j
            };
            assert(self.order@[j] == before.order@[from]);
            assert(before.linked_at(from));
        }
        assert(self@ =~= moved);
    }

    /// A new key in a fresh slot at the front of the recency list gives a
    /// well-formed cache with one entry more.
    proof fn lemma_grown(&self, before: &Self, key: K, value: V)
        requires
            before.structured(),
            !before.index@.contains_key(key),
            before.slots@.len() < before.capacity,
            self.chained(),
            self.capacity == before.capacity,
            self.slots@.len() == before.slots@.len() + 1,
            self.order@ == seq![before.slots@.len() as usize] + before.order@,
            self.index@ == before.index@.insert(key, before.slots@.len() as usize),
            self.slots@.last().key == key,
            self.slots@.last().value == value,
            forall|s: int|
                0 <= s < before.slots@.len() ==> (#[trigger] self.slots@[s]).key
                    == before.slots@[s].key && self.slots@[s].value == before.slots@[s].value,
        ensures
            self.structured(),
            self@ == seq![(key, value)] + before@,
    {
        let fresh = before.slots@.len() as usize;
        assert forall|s: usize| s < self.slots@.len() implies #[trigger] self.order@.contains(
            s,
        ) by {
            if s == fresh {
                assert(self.order@[0] == s);
            } else {
                assert(before.order@.contains(s));
                assert(self.order@[before.order@.index_of(s) + 1] == s);
            }
        }
        assert forall|k: K| #[trigger] self.index@.contains_key(k) implies self.index@[k]
            < self.slots@.len() && self.slots@[self.index@[k] as int].key == k by {
            if k != key {
                assert(before.index@.contains_key(k));
            }
        }
        assert forall|s: int| 0 <= s < self.slots@.len() implies self.index@.contains_key(
            (#[trigger] self.slots@[s]).key,
        ) && self.index@[self.slots@[s].key] == s by {
            if s != fresh {
                assert(before.index@.contains_key(before.slots@[s].key));
            }
        }
        let grown = seq![(key, value)] + before@;
        assert forall|j: int| 0 <= j < self@.len() implies self@[j] == grown[j] by {
            if j > 0 {
                assert(self.order@[j] == before.order@[j - 1]);
                assert(before.linked_at(j - 1));
            }
        }
        assert(self@ =~= grown);
    }

    /// A new key in the slot of the evicted tail, at the front of the
    /// recency list, gives a well-formed cache in which the new entry has
    /// taken the place of the least-recently-used one.
    proof fn lemma_tail_replaced(&self, before: &Self, key: K, value: V)
        requires
            before.structured(),
            !before.index@.contains_key(key),
            before.slots@.len() == before.capacity,
            self.chained(),
            self.capacity == before.capacity,
            self.slots@.len() == before.slots@.len(),
            self.order@ == seq![before.order@.last()] + before.order@.drop_last(),
            self.index@ == before.index@.remove(
                before.slots@[before.order@.last() as int].key,
            ).insert(key, before.order@.last()),
            self.slots@[before.order@.last() as int].key == key,
            self.slots@[before.order@.last() as int].value == value,
            forall|s: int|
                0 <= s < before.slots@.len() && s != before.order@.last() ==> (
                #[trigger] self.slots@[s]).key == before.slots@[s].key && self.slots@[s].value
                    == before.slots@[s].value,
        ensures
            self.structured(),
            self@ == seq![(key, value)] + before@.drop_last(),
    {
        let n = before.order@.len() as int;
        let last = before.order@.last();
        assert(before.linked_at(n - 1));
        assert forall|s: usize| s < self.slots@.len() implies #[trigger] self.order@.contains(
            s,
        ) by {
            if s == last {
                assert(self.order@[0] == s);
            } else {
                assert(before.order@.contains(s));
                assert(self.order@[before.order@.index_of(s) + 1] == s);
            }
        }
        assert forall|k: K| #[trigger] self.index@.contains_key(k) implies self.index@[k]
            < self.slots@.len() && self.slots@[self.index@[k] as int].key == k by {
            if k != key {
                assert(before.index@.contains_key(k));
                assert(before.slots@[before.index@[k] as int].key == k);
            }
        }
        assert forall|s: int| 0 <= s < self.slots@.len() implies self.index@.contains_key(
            (#[trigger] self.slots@[s]).key,
        ) && self.index@[self.slots@[s].key] == s by {
            if s != last {
                assert(before.index@.contains_key(before.slots@[s].key));
                assert(before.index@[before.slots@[last as int].key] == last);
            }
        }
        let replaced = seq![(key, value)] + before@.drop_last();
        assert forall|j: int| 0 <= j < self@.len() implies self@[j] == replaced[j] by {
            if j > 0 {
                assert(self.order@[j] == before.order@[j - 1]);
                assert(before.linked_at(j - 1));
            }
        }
        assert(self@ =~= replaced);
    }
}

} // verus!
