//! A fixed-capacity least-recently-used cache: an arena of entries threaded by
//! a doubly linked recency list, and a map from keys to arena slots.

use vstd::prelude::*;
use std::collections::HashMap;
use std::hash::Hash;
use vstd::std_specs::hash::obeys_key_model;
use crate::hash::clone_is_exact;
use crate::recency::{
    Entry, chain_ok, distinct, index_ok, indexed, key_at, lemma_chain_frame, lemma_link_new,
    lemma_promote, lemma_set_front_value, lemma_unlink, linked, listing, live, pool_ok,
    same_payload,
};

verus! {

broadcast use vstd::std_specs::hash::group_hash_axioms;

/// Default number of entries of a cache.
pub const CACHE_SIZE: usize = 128;

/// Some pair of `s` has the key `key`.
pub open spec fn has_key<K, V>(s: Seq<(K, V)>, key: K) -> bool {
    exists|i: int| 0 <= i < s.len() && (#[trigger] s[i]).0 == key
}

/// The place of the pair with the key `key` in `s`, where there is one.
pub open spec fn index_of_key<K, V>(s: Seq<(K, V)>, key: K) -> int {
    choose|i: int| 0 <= i < s.len() && (#[trigger] s[i]).0 == key
}

/// No two pairs of `s` have the same key.
pub open spec fn keys_distinct<K, V>(s: Seq<(K, V)>) -> bool {
    forall|i: int, j: int|
        0 <= i < s.len() && 0 <= j < s.len() && (#[trigger] s[i]).0 == (#[trigger] s[j]).0 ==> i
            == j
}

/// `s` with the pair at place `i` moved to the front.
pub open spec fn promoted<K, V>(s: Seq<(K, V)>, i: int) -> Seq<(K, V)> {
    seq![s[i]] + s.remove(i)
}

/// The value that `s` holds for `key`, if it holds one.
pub open spec fn value_of<K, V>(s: Seq<(K, V)>, key: K) -> Option<V> {
    if has_key(s, key) {
        Some(s[index_of_key(s, key)].1)
    } else {
        None
    }
}

/// What a use of `key` makes of `s`: the pair of `key` moves to the front;
/// without such a pair nothing changes.
pub open spec fn touched<K, V>(s: Seq<(K, V)>, key: K) -> Seq<(K, V)> {
    if has_key(s, key) {
        promoted(s, index_of_key(s, key))
    } else {
        s
    }
}

/// What removing `key` makes of `s`: the pair of `key` leaves and the others
/// stay as they are.
pub open spec fn removed<K, V>(s: Seq<(K, V)>, key: K) -> Seq<(K, V)> {
    if has_key(s, key) {
        s.remove(index_of_key(s, key))
    } else {
        s
    }
}

/// What inserting `key` with `value` makes of `s` in a cache of `capacity`
/// entries: the new pair stands in front; the old pair of `key` leaves, or,
/// where there was none and the cache was full, the last pair does.
pub open spec fn inserted<K, V>(s: Seq<(K, V)>, capacity: nat, key: K, value: V) -> Seq<(K, V)> {
    seq![(key, value)] + (if has_key(s, key) {
        s.remove(index_of_key(s, key))
    } else if s.len() == capacity {
        s.drop_last()
    } else {
        s
    })
}

/// A cache of at most `capacity` entries. When a new key arrives at a full
/// cache, the entry used least recently leaves.
///
/// The operations that look keys up require `obeys_key_model::<K>()`, under
/// which vstd specifies the hash map that the cache keeps its keys in. vstd
/// grants this of the integer types. It grants nothing of the kind for
/// `String`, so a cache with text keys runs as any other, but a verified
/// caller cannot meet the precondition of its operations.
pub struct LRUCache<K, V> {
    capacity: usize,
    /// The most recently used entry.
    head: Option<usize>,
    /// The least recently used entry.
    tail: Option<usize>,
    /// Where each live key's entry is in the arena.
    map: HashMap<K, usize>,
    entries: Vec<Entry<K, V>>,
    /// The slots whose entries have left; the next new entry takes one.
    free: Vec<usize>,
    /// The slots of the live entries, from most to least recently used.
    order: Ghost<Seq<usize>>,
}

impl<K, V> View for LRUCache<K, V> {
    type V = Seq<(K, V)>;

    /// The entries of the cache, from most to least recently used.
    closed spec fn view(&self) -> Seq<(K, V)> {
        listing(self.order@, self.entries@)
    }
}

impl<K, V> LRUCache<K, V> where K: Eq + Hash + Clone {
    /// The recency list is well linked from `head` to `tail`.
    spec fn chained(&self) -> bool {
        chain_ok(self.order@, self.entries@, self.head, self.tail)
    }

    /// The invariant of the cache: the recency list threads the live entries
    /// from `head` to `tail`, the map knows each live key's slot, every other
    /// slot is on the free list and holds no value, and the arena is no larger
    /// than the capacity.
    pub closed spec fn wf(&self) -> bool {
        &&& self.capacity >= 1
        &&& self.chained()
        &&& pool_ok(self.free@, self.order@, self.entries@.len())
        &&& index_ok(self.map@, self.order@, self.entries@)
        &&& forall|a: int|
            0 <= a < self.free@.len() ==> self.entries@[(#[trigger] self.free@[a]) as int].val
                is None
        &&& self.entries@.len() == self.order@.len() + self.free@.len()
        &&& self.entries@.len() <= self.capacity
    }

    /// The largest number of entries the cache holds.
    pub closed spec fn capacity(&self) -> nat {
        self.capacity as nat
    }

    /// Number of arena slots the cache has allocated.
    pub closed spec fn footprint(&self) -> nat {
        self.entries@.len()
    }

    /// What the invariant says of the view: the keys are distinct, the cache
    /// is within its capacity, and so is its arena.
    pub proof fn lemma_wf(&self)
        requires
            self.wf(),
        ensures
            keys_distinct(self@),
            self@.len() <= self.footprint() <= self.capacity(),
            self.capacity() >= 1,
    {
        assert forall|i: int, j: int|
            0 <= i < self@.len() && 0 <= j < self@.len() && (#[trigger] self@[i]).0 == (
            #[trigger] self@[j]).0 implies i == j by {
            assert(indexed(self.map@, self.order@, self.entries@, i));
            assert(indexed(self.map@, self.order@, self.entries@, j));
        }
    }

    /// What the key map says of the view: a key is in the map exactly if the
    /// view has it, and then the map gives the slot of its place in the view.
    proof fn lemma_index(&self, key: K)
        requires
            self.wf(),
        ensures
            self.map@.contains_key(key) == has_key(self@, key),
            has_key(self@, key) ==> {
                &&& 0 <= index_of_key(self@, key) < self.order@.len()
                &&& self.order@[index_of_key(self@, key)] == self.map@[key]
                &&& self@[index_of_key(self@, key)].0 == key
            },
    {
        if self.map@.contains_key(key) {
            let j = choose|j: int| key_at(self.map@, self.order@, self.entries@, key, j);
            assert(self@[j].0 == key);
        }
        if has_key(self@, key) {
            let p = index_of_key(self@, key);
            assert(self@[p].0 == key);
            assert(indexed(self.map@, self.order@, self.entries@, p));
        }
    }

    /// An empty cache for `capacity` entries, or for one entry if `capacity`
    /// is 0.
    pub fn new(capacity: usize) -> (cache: Self)
        ensures
            cache.wf(),
            cache@ == Seq::<(K, V)>::empty(),
            cache.capacity() == (if capacity == 0 {
                1
            } else {
                capacity as nat
            }),
            cache.footprint() == 0,
    {
        let capacity: usize = if capacity == 0 {
            1
        } else {
            capacity
        };
        let cache = LRUCache {
            capacity,
            head: None,
            tail: None,
            map: HashMap::new(),
            entries: Vec::new(),
            free: Vec::new(),
            order: Ghost(Seq::empty()),
        };
        assert(cache@ =~= Seq::<(K, V)>::empty());
        cache
    }

    /// Unlinks the entry in slot `i`, at place `p` of the recency list, and
    /// joins its neighbours.
    fn remove_from_list(&mut self, i: usize, Ghost(p): Ghost<int>)
        requires
            old(self).chained(),
            0 <= p < old(self).order@.len(),
            old(self).order@[p] == i,
        ensures
            final(self).chained(),
            final(self).order@ == old(self).order@.remove(p),
            same_payload(old(self).entries@, final(self).entries@, -1),
            final(self).map == old(self).map,
            final(self).free == old(self).free,
            final(self).capacity == old(self).capacity,
    {
        let ghost before = self.order@;
        let ghost start = self.entries@;
        assert(linked(before, start, p));
        let prev: Option<usize> = self.entries[i].prev;
        let next: Option<usize> = self.entries[i].next;
        match prev {
            Some(j) => {
                self.entries[j].next = next;
            },
            None => {
                self.head = next;
            },
        }
        match next {
            Some(k) => {
                self.entries[k].prev = prev;
            },
            None => {
                self.tail = prev;
            },
        }
        self.entries[i].prev = None;
        self.entries[i].next = None;
        self.order = Ghost(before.remove(p));
        proof {
            let after = self.order@;
            let now = self.entries@;
            let from = |q: int|
                if q < p {
                    q
                } else {
                    q + 1
                };
            assert forall|q: int| 0 <= q < after.len() implies after[q] == before[from(q)] by {}
            assert forall|q: int| 0 <= q < after.len() implies (#[trigger] after[q]) < now.len()
                && now[after[q] as int].val is Some by {
                assert(after[q] == before[from(q)]);
            }
            assert forall|q: int| 0 <= q < after.len() implies #[trigger] linked(after, now, q) by {
                let r = from(q);
                assert(after[q] == before[r]);
                assert(linked(before, start, r));
                assert(before[r] != before[p]);
                if r > 0 {
                    assert(before[r - 1] != before[r]);
                }
                if r + 1 < before.len() {
                    assert(before[r + 1] != before[r]);
                }
                if p > 0 && r != p - 1 {
                    assert(before[p - 1] != before[r]);
                }
                if p + 1 < before.len() && r != p + 1 {
                    assert(before[p + 1] != before[r]);
                }
                if q > 0 {
                    assert(after[q - 1] == before[from(q - 1)]);
                }
                if q + 1 < after.len() {
                    assert(after[q + 1] == before[from(q + 1)]);
                }
            }
            assert forall|a: int, b: int|
                0 <= a < after.len() && 0 <= b < after.len() && (#[trigger] after[a]) == (
                #[trigger] after[b]) implies a == b by {
                assert(before[from(a)] == before[from(b)]);
            }
            if after.len() > 0 {
                assert(after[0] == before[from(0)]);
                assert(after[after.len() - 1] == before[from(after.len() - 1)]);
            }
        }
    }

    /// Links the entry in slot `i`, which is not in the recency list, in
    /// front of it.
    fn attach_front(&mut self, i: usize)
        requires
            old(self).chained(),
            i < old(self).entries@.len(),
            old(self).entries@[i as int].val is Some,
            forall|j: int| 0 <= j < old(self).order@.len() ==> (#[trigger] old(self).order@[j]) != i,
        ensures
            final(self).chained(),
            final(self).order@ == seq![i] + old(self).order@,
            same_payload(old(self).entries@, final(self).entries@, -1),
            final(self).map == old(self).map,
            final(self).free == old(self).free,
            final(self).capacity == old(self).capacity,
    {
        let ghost before = self.order@;
        let ghost start = self.entries@;
        let head: Option<usize> = self.head;
        self.entries[i].prev = None;
        self.entries[i].next = head;
        match head {
            Some(h) => {
                self.entries[h].prev = Some(i);
            },
            None => {
                self.tail = Some(i);
            },
        }
        self.head = Some(i);
        self.order = Ghost(seq![i] + before);
        proof {
            let after = self.order@;
            let now = self.entries@;
            assert forall|q: int| 0 < q < after.len() implies after[q] == before[q - 1] by {}
            assert forall|q: int| 0 <= q < after.len() implies (#[trigger] after[q]) < now.len()
                && now[after[q] as int].val is Some by {
                if q > 0 {
                    assert(after[q] == before[q - 1]);
                }
            }
            assert forall|q: int| 0 <= q < after.len() implies #[trigger] linked(after, now, q) by {
                if q > 0 {
                    let r = q - 1;
                    assert(after[q] == before[r]);
                    assert(linked(before, start, r));
                    assert(before[r] != i);
                    if r > 0 {
                        assert(before[r - 1] == after[q - 1]);
                        assert(before[0] != before[r]);
                    }
                    if r + 1 < before.len() {
                        assert(before[r + 1] == after[q + 1]);
                    }
                } else {
                    if before.len() > 0 {
                        assert(after[1] == before[0]);
                    }
                }
            }
            assert forall|a: int, b: int|
                0 <= a < after.len() && 0 <= b < after.len() && (#[trigger] after[a]) == (
                #[trigger] after[b]) implies a == b by {
                if a > 0 {
                    assert(after[a] == before[a - 1]);
                }
                if b > 0 {
                    assert(after[b] == before[b - 1]);
                }
            }
            if before.len() > 0 {
                assert(after[after.len() - 1] == before[before.len() - 1]);
            }
        }
    }

    /// Marks the entry for `key` as the most recently used: unlinks it and
    /// links it in front. Returns its slot.
    fn access(&mut self, key: &K) -> (i: usize)
        requires
            old(self).wf(),
            obeys_key_model::<K>(),
            has_key(old(self)@, *key),
        ensures
            final(self).wf(),
            final(self)@ == promoted(old(self)@, index_of_key(old(self)@, *key)),
            final(self).capacity == old(self).capacity,
            final(self).entries@.len() == old(self).entries@.len(),
            final(self).order@.len() > 0,
            final(self).order@[0] == i,
            i < final(self).entries@.len(),
            final(self).entries@[i as int].val is Some,
    {
        proof {
            self.lemma_index(*key);
        }
        let ghost p = index_of_key(self@, *key);
        let ghost before = self.order@;
        let i: usize = match self.map.get(key) {
            Some(slot) => *slot,
            None => 0,
        };
        assert(before[p] == i);
        self.remove_from_list(i, Ghost(p));
        proof {
            assert forall|j: int| 0 <= j < self.order@.len() implies (#[trigger] self.order@[j])
                != i by {
                let r = if j < p {
                    j
                } else {
                    j + 1
                };
                assert(self.order@[j] == before[r]);
                assert(before[r] != before[p]);
            }
        }
        self.attach_front(i);
        proof {
            lemma_promote(
                self.map@,
                self.free@,
                before,
                old(self).entries@,
                self.entries@,
                p,
            );
            assert(self.order@ =~= seq![before[p]] + before.remove(p));
        }
        i
    }

    /// Evicts the least recently used entry.
    fn remove_tail(&mut self)
        requires
            old(self).wf(),
            obeys_key_model::<K>(),
            old(self)@.len() > 0,
        ensures
            final(self).wf(),
            final(self)@ == old(self)@.drop_last(),
            final(self).capacity == old(self).capacity,
            final(self).entries@.len() == old(self).entries@.len(),
    {
        let ghost before = self.order@;
        let ghost p = before.len() - 1;
        match self.tail {
            Some(index) => {
                self.remove_from_list(index, Ghost(p));
                let ghost mid = self.entries@;
                self.map.remove(&self.entries[index].key);
                self.entries[index].val = None;
                self.free.push(index);
                proof {
                    lemma_unlink(
                        old(self).map@,
                        old(self).free@,
                        before,
                        old(self).entries@,
                        self.entries@,
                        p,
                    );
                    lemma_chain_frame(self.order@, mid, self.entries@, self.head, self.tail);
                    assert(old(self)@.drop_last() =~= old(self)@.remove(p));
                }
            },
            None => {},
        }
    }

    /// Makes room for one more entry: evicts the least recently used entry
    /// if the cache is full.
    fn ensure_room(&mut self)
        requires
            old(self).wf(),
            obeys_key_model::<K>(),
        ensures
            final(self).wf(),
            final(self)@ == (if old(self)@.len() == old(self).capacity {
                old(self)@.drop_last()
            } else {
                old(self)@
            }),
            final(self)@.len() < final(self).capacity,
            final(self).capacity == old(self).capacity,
            final(self).entries@.len() == old(self).entries@.len(),
    {
        if self.capacity == self.len() {
            self.remove_tail();
        }
    }

    /// Stores `value` under `key` and marks the entry as the most recently
    /// used. Returns the value that `key` had before, if it had one. A new
    /// key that arrives at a full cache evicts the least recently used entry.
    pub fn insert(&mut self, key: K, value: V) -> (previous: Option<V>)
        requires
            old(self).wf(),
            obeys_key_model::<K>(),
            clone_is_exact::<K>(),
        ensures
            final(self).wf(),
            final(self).capacity() == old(self).capacity(),
            final(self)@ == inserted(old(self)@, old(self).capacity(), key, value),
            previous == value_of(old(self)@, key),
            final(self).footprint() == (if !has_key(old(self)@, key) && old(self).footprint()
                == old(self)@.len() && old(self)@.len() < old(self).capacity() {
                old(self).footprint() + 1
            } else {
                old(self).footprint()
            }),
    {
        if self.contains(&key) {
            let ghost p = index_of_key(self@, key);
            proof {
                self.lemma_index(key);
            }
            let i: usize = self.access(&key);
            let ghost mid = *self;
            let mut val: Option<V> = Some(value);
            std::mem::swap(&mut self.entries[i].val, &mut val);
            proof {
                lemma_set_front_value(
                    mid.map@,
                    mid.free@,
                    mid.order@,
                    mid.entries@,
                    self.entries@,
                    mid.head,
                    mid.tail,
                );
                assert(mid@[0] == old(self)@[p]);
                assert(mid@[0] == (mid.entries@[i as int].key, mid.entries@[i as int].val->Some_0));
                assert(self@ =~= seq![(key, value)] + old(self)@.remove(p));
            }
            val
        } else {
            proof {
                self.lemma_index(key);
            }
            self.ensure_room();
            let ghost mid = *self;
            proof {
                if has_key(mid@, key) {
                    let j = index_of_key(mid@, key);
                    assert(old(self)@[j].0 == key);
                }
                mid.lemma_index(key);
            }
            let entry = Entry { key: key.clone(), val: Some(value), prev: None, next: None };
            assert(cloned(key, entry.key));
            let index: usize = match self.free.pop() {
                Some(slot) => {
                    assert(slot == mid.free@[mid.free@.len() - 1]);
                    self.entries[slot] = entry;
                    slot
                },
                None => {
                    self.entries.push(entry);
                    self.entries.len() - 1
                },
            };
            proof {
                assert forall|j: int| 0 <= j < self.order@.len() implies (
                #[trigger] self.order@[j]) != index by {
                    if mid.free@.len() > 0 {
                        assert(mid.free@[mid.free@.len() - 1] != mid.order@[j]);
                    }
                }
                assert forall|x: int| 0 <= x < self.free@.len() implies (#[trigger] self.free@[x])
                    != index by {
                    assert(self.free@[x] == mid.free@[x]);
                    if mid.free@.len() > 0 {
                        assert(mid.free@[x] != mid.free@[mid.free@.len() - 1]);
                    }
                }
                assert(pool_ok(self.free@, mid.order@, mid.entries@.len())) by {
                    assert forall|x: int| 0 <= x < self.free@.len() implies self.free@[x]
                        == mid.free@[x] by {}
                }
                assert(live(self.order@, self.entries@));
                lemma_chain_frame(self.order@, mid.entries@, self.entries@, self.head, self.tail);
            }
            self.attach_front(index);
            self.map.insert(key, index);
            proof {
                lemma_link_new(
                    mid.map@,
                    self.free@,
                    mid.order@,
                    mid.entries@,
                    self.entries@,
                    index,
                );
                assert(self@ =~= seq![(key, value)] + mid@);
            }
            None
        }
    }

    /// Whether the cache holds an entry for `key`. Does not count as a use.
    pub fn contains(&self, key: &K) -> (result: bool)
        requires
            self.wf(),
            obeys_key_model::<K>(),
        ensures
            result == has_key(self@, *key),
    {
        proof {
            self.lemma_index(*key);
        }
        self.map.contains_key(key)
    }

    /// Number of entries.
    pub fn len(&self) -> (n: usize)
        requires
            self.wf(),
            obeys_key_model::<K>(),
        ensures
            n == self@.len(),
    {
        self.map.len()
    }

    /// Removes the entry for `key` and returns its value, if there is one.
    /// The other entries keep their order.
    pub fn remove(&mut self, key: &K) -> (result: Option<V>)
        requires
            old(self).wf(),
            obeys_key_model::<K>(),
        ensures
            final(self).wf(),
            final(self).capacity() == old(self).capacity(),
            final(self).footprint() == old(self).footprint(),
            final(self)@ == removed(old(self)@, *key),
            result == value_of(old(self)@, *key),
    {
        proof {
            self.lemma_index(*key);
        }
        let ghost p = index_of_key(self@, *key);
        let ghost before = self.order@;
        let slot: Option<usize> = self.map.remove(key);
        match slot {
            Some(index) => {
                self.remove_from_list(index, Ghost(p));
                let ghost mid = self.entries@;
                let mut val: Option<V> = None;
                std::mem::swap(&mut self.entries[index].val, &mut val);
                self.free.push(index);
                proof {
                    lemma_unlink(
                        old(self).map@,
                        old(self).free@,
                        before,
                        old(self).entries@,
                        self.entries@,
                        p,
                    );
                    lemma_chain_frame(self.order@, mid, self.entries@, self.head, self.tail);
                    assert(old(self)@[p].0 == *key);
                    assert(self.map@ =~= old(self).map@.remove(old(self).entries@[before[p] as int].key));
                }
                val
            },
            None => {
                assert(self.map@ =~= old(self).map@);
                None
            },
        }
    }

    /// The value stored for `key`, if there is one. Counts as a use: the
    /// entry becomes the most recently used.
    pub fn get(&mut self, key: &K) -> (result: Option<&V>)
        requires
            old(self).wf(),
            obeys_key_model::<K>(),
        ensures
            final(self).wf(),
            final(self).capacity() == old(self).capacity(),
            final(self).footprint() == old(self).footprint(),
            final(self)@ == touched(old(self)@, *key),
            match result {
                Some(v) => value_of(old(self)@, *key) == Some(*v),
                None => value_of(old(self)@, *key) is None,
            },
    {
        if self.contains(key) {
            let i: usize = self.access(key);
            assert(self@[0].1 == self.entries@[i as int].val->Some_0);
            self.entries[i].val.as_ref()
        } else {
            None
        }
    }

    /// Mutable access to the value stored for `key`, if there is one. Counts
    /// as a use: the entry becomes the most recently used.
    pub fn get_mut(&mut self, key: &K) -> (result: Option<&mut V>)
        requires
            old(self).wf(),
            obeys_key_model::<K>(),
        ensures
            final(self).wf(),
            final(self).capacity() == old(self).capacity(),
            final(self).footprint() == old(self).footprint(),
            match result {
                Some(v) => {
                    &&& value_of(old(self)@, *key) == Some(*v)
                    &&& final(self)@ == touched(old(self)@, *key).update(0, (*key, *final(v)))
                },
                None => value_of(old(self)@, *key) is None && final(self)@ == old(self)@,
            },
    {
        if self.contains(key) {
            let ghost p = index_of_key(self@, *key);
            proof {
                self.lemma_index(*key);
            }
            let i: usize = self.access(key);
            let ghost mid = *self;
            proof {
                assert(mid@[0] == old(self)@[p]);
                assert(mid@[0] == (mid.entries@[i as int].key, mid.entries@[i as int].val->Some_0));
            }
            match &mut self.entries[i].val {
                Some(v) => {
                    proof {
                        let after = mid.entries@.update(
                            i as int,
                            Entry {
                                key: mid.entries@[i as int].key,
                                val: Some(*final(v)),
                                prev: mid.entries@[i as int].prev,
                                next: mid.entries@[i as int].next,
                            },
                        );
                        lemma_set_front_value(
                            mid.map@,
                            mid.free@,
                            mid.order@,
                            mid.entries@,
                            after,
                            mid.head,
                            mid.tail,
                        );
                        assert(listing(mid.order@, after) =~= touched(old(self)@, *key).update(
                            0,
                            (*key, *final(v)),
                        ));
                    }
                    Some(v)
                },
                None => None,
            }
        } else {
            None
        }
    }

    /// Whether the cache holds no entry.
    pub fn is_empty(&self) -> (result: bool)
        requires
            self.wf(),
            obeys_key_model::<K>(),
        ensures
            result == (self@.len() == 0),
    {
        self.map.is_empty()
    }

    /// Whether the cache holds no entry.
    pub fn empty(&self) -> (result: bool)
        requires
            self.wf(),
            obeys_key_model::<K>(),
        ensures
            result == (self@.len() == 0),
    {
        self.is_empty()
    }

    /// Whether the cache holds as many entries as it can.
    pub fn is_full(&self) -> (result: bool)
        requires
            self.wf(),
            obeys_key_model::<K>(),
        ensures
            result == (self@.len() == self.capacity()),
    {
        self.map.len() == self.capacity
    }
}

} // verus!
