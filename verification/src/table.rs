//! An open-addressing hash table with linear probing, tombstones and growth
//! by doubling.

use vstd::prelude::*;
use vstd::arithmetic::power2::is_pow2;
use vstd::laws_eq::obeys_concrete_eq;
use crate::hash::{AssemblyHash, clone_is_exact};
use crate::probe::{
    Bucket, absent, all_empty, array_cloned, erased, first_empty, first_tombstone, holds, home,
    lemma_all_empty, lemma_erased_absent, lemma_first_empty_is_placed, lemma_has_empty,
    lemma_home_in_range, lemma_index_sets_finite, lemma_max_capacity_is_pow2, lemma_model_absent,
    lemma_model_at, lemma_model_take_step, lemma_model_take_subset, lemma_no_tombstones,
    lemma_placed_cloned, lemma_pow2_double, lemma_pow2_gap, lemma_probe_ends_at_empty,
    lemma_probe_step, lemma_probe_went_round, lemma_sixteen_is_pow2, lemma_write_new,
    lemma_write_tombstone, lemma_write_value, lemma_written_known, lemma_written_new, max_capacity,
    model, no_empty_before, no_key_before, no_tombstone_before, occupied_set, placed, rebuilt,
    ring_at, ring_dist, sound, used_set, written,
};

verus! {

/// A map from keys to values, stored in one array of buckets. A key's digest
/// picks the bucket where its probe starts; the probe then walks forward,
/// wrapping at the end of the array.
///
/// The operations that compare keys require `obeys_concrete_eq::<K>()`: that
/// `==` on keys is equality of the keys themselves. vstd proves this of the
/// integer types. It states nothing of the kind for `String` or `&str`, so a
/// table with text keys runs as any other, but a verified caller cannot meet
/// the precondition of its operations.
pub struct CustomHashMap<K, V> {
    buckets: Vec<Bucket<K, V>>,
    /// Number of occupied buckets.
    len: usize,
    /// Number of buckets that are occupied or tombstones.
    used: usize,
}

impl<K, V> View for CustomHashMap<K, V> {
    type V = Map<K, V>;

    /// The map the table stands for.
    closed spec fn view(&self) -> Map<K, V> {
        model(self.buckets@)
    }
}

impl<K, V> CustomHashMap<K, V> where K: Eq + AssemblyHash + Clone {
    /// The invariant of the table: the array has a power of two of buckets,
    /// no key occupies two of them, every entry is reachable by its probe,
    /// the counters agree with the array, and the buckets in use exceed
    /// three quarters of the array by one at most.
    pub closed spec fn wf(&self) -> bool {
        &&& self.buckets@.len() >= 1
        &&& is_pow2(self.buckets@.len() as int)
        &&& sound(self.buckets@)
        &&& self.len == occupied_set(self.buckets@).len()
        &&& self.used == used_set(self.buckets@).len()
        &&& (self.used - 1) * 4 < self.buckets@.len() * 3
    }

    /// Number of buckets.
    pub closed spec fn capacity(&self) -> nat {
        self.buckets@.len()
    }

    /// Number of buckets in use: those that hold an entry and the tombstones.
    pub closed spec fn load(&self) -> nat {
        self.used as nat
    }

    /// Number of tombstones.
    pub open spec fn tombstones(&self) -> int {
        self.load() - self@.len()
    }

    /// The table is at least three quarters in use; the next insertion
    /// doubles it first.
    pub open spec fn must_grow(&self) -> bool {
        self.load() * 4 >= self.capacity() * 3
    }

    /// The array of buckets.
    pub closed spec fn buckets(&self) -> Seq<Bucket<K, V>> {
        self.buckets@
    }

    /// The probe for `key` passes a tombstone before it passes an empty bucket.
    pub open spec fn meets_tombstone(&self, key: K) -> bool {
        exists|j: int| first_tombstone(self.buckets(), key, j)
    }

    /// What the invariant says of the quantities that contracts speak of.
    pub proof fn lemma_wf(&self)
        requires
            self.wf(),
        ensures
            self@.dom().finite(),
            is_pow2(self.capacity() as int),
            self.capacity() <= max_capacity(),
            self@.len() <= self.load() <= self.capacity(),
            (self.load() - 1) * 4 < self.capacity() * 3,
            self.tombstones() == 0 ==> !exists|key: K| self.meets_tombstone(key),
            sound(self.buckets()),
            self@ == model(self.buckets()),
            self.capacity() == self.buckets().len(),
            self.load() == used_set(self.buckets()).len(),
            self@.len() == occupied_set(self.buckets()).len(),
    {
        lemma_index_sets_finite(self.buckets@);
        lemma_max_capacity_is_pow2();
        assert(self.buckets@.len() == self.buckets.len());
        if self.buckets@.len() > max_capacity() {
            lemma_pow2_gap(max_capacity(), self.buckets@.len() as int);
        }
        if self.tombstones() == 0 {
            lemma_no_tombstones(self.buckets@);
        }
    }

    /// An empty table of 16 buckets.
    pub fn new() -> (m: Self)
        ensures
            m.wf(),
            m@ == Map::<K, V>::empty(),
            m.capacity() == 16,
            m.load() == 0,
            all_empty(m.buckets()),
    {
        let m = Self::with_capacity(16);
        proof {
            lemma_sixteen_is_pow2();
            if m.capacity() != 16 {
                if m.capacity() < 16 {
                    lemma_pow2_gap(m.capacity() as int, 16);
                } else {
                    lemma_pow2_gap(16, m.capacity() as int);
                }
            }
        }
        m
    }

    /// An empty table whose number of buckets is `capacity`, or 1 if that is
    /// more, rounded up to a power of two.
    pub fn with_capacity(capacity: usize) -> (m: Self)
        requires
            capacity <= max_capacity(),
        ensures
            m.wf(),
            m@ == Map::<K, V>::empty(),
            m.load() == 0,
            is_pow2(m.capacity() as int),
            capacity <= m.capacity(),
            1 <= m.capacity(),
            m.capacity() < 2 * capacity || m.capacity() == 1,
            all_empty(m.buckets()),
    {
        let mut cap: usize = 1;
        proof {
            reveal(is_pow2);
        }
        while cap < capacity
            invariant
                is_pow2(cap as int),
                cap < 2 * capacity || cap == 1,
                capacity <= max_capacity(),
            decreases usize::MAX - cap,
        {
            proof {
                lemma_max_capacity_is_pow2();
                lemma_pow2_gap(cap as int, max_capacity());
                lemma_pow2_double(cap as int);
            }
            cap = cap * 2;
        }
        let buckets = Self::empty_buckets(cap);
        proof {
            lemma_all_empty(buckets@);
        }
        CustomHashMap { buckets, len: 0, used: 0 }
    }

    /// An array of `n` empty buckets.
    fn empty_buckets(n: usize) -> (buckets: Vec<Bucket<K, V>>)
        ensures
            buckets@.len() == n,
            all_empty(buckets@),
    {
        let mut buckets: Vec<Bucket<K, V>> = Vec::with_capacity(n);
        let mut i: usize = 0;
        while i < n
            invariant
                i <= n,
                buckets@.len() == i,
                all_empty(buckets@),
            decreases n - i,
        {
            buckets.push(Bucket::Empty);
            i += 1;
        }
        buckets
    }

    /// The bucket at which the probe for `key` starts.
    fn bucket_index(&self, key: &K) -> (idx: usize)
        requires
            self.buckets@.len() > 0,
        ensures
            idx == home(*key, self.buckets@.len() as int),
            idx < self.buckets@.len(),
    {
        let hash: usize = key.assembly_hash() as usize;
        proof {
            lemma_home_in_range(*key, self.buckets@.len() as int);
        }
        hash % self.buckets.len()
    }

    /// Finds the bucket that holds `key`: walks the probe until it meets the
    /// key or an empty bucket, or has gone once round the array.
    fn locate(&self, key: &K) -> (found: Option<usize>)
        requires
            self.wf(),
            obeys_concrete_eq::<K>(),
        ensures
            match found {
                Some(i) => holds(self.buckets@, i as int, *key),
                None => absent(self.buckets@, *key),
            },
    {
        let n: usize = self.buckets.len();
        let start: usize = self.bucket_index(key);
        let mut idx: usize = start;
        let mut steps: usize = 0;
        while steps < n
            invariant
                self.wf(),
                obeys_concrete_eq::<K>(),
                n == self.buckets@.len(),
                start == home(*key, n as int),
                start < n,
                steps <= n,
                steps < n ==> idx == ring_at(start as int, steps as int, n as int),
                no_key_before(self.buckets@, start as int, steps as int, *key),
            decreases n - steps,
        {
            match &self.buckets[idx] {
                Bucket::Empty => {
                    proof {
                        lemma_probe_ends_at_empty(self.buckets@, *key, steps as int);
                    }
                    return None;
                },
                Bucket::Occupied(k, _) => {
                    proof {
                        reveal(obeys_concrete_eq);
                    }
                    if *k == *key {
                        return Some(idx);
                    }
                },
                Bucket::Tombstone => {},
            }
            proof {
                lemma_probe_step(self.buckets@, start as int, steps as int, *key);
            }
            idx = if idx + 1 == n {
                0
            } else {
                idx + 1
            };
            steps += 1;
        }
        proof {
            lemma_probe_went_round(self.buckets@, *key, start as int);
        }
        None
    }

    /// The value stored for `key`, if there is one.
    pub fn get(&self, key: &K) -> (result: Option<&V>)
        requires
            self.wf(),
            obeys_concrete_eq::<K>(),
        ensures
            match result {
                Some(v) => self@.contains_key(*key) && *v == self@[*key],
                None => !self@.contains_key(*key),
            },
    {
        match self.locate(key) {
            Some(idx) => {
                proof {
                    lemma_model_at(self.buckets@, idx as int);
                }
                match &self.buckets[idx] {
                    Bucket::Occupied(_, v) => Some(v),
                    _ => None,
                }
            },
            None => {
                proof {
                    lemma_model_absent(self.buckets@, *key);
                }
                None
            },
        }
    }

    /// Whether the table holds an entry for `key`.
    pub fn contains_key(&self, key: &K) -> (result: bool)
        requires
            self.wf(),
            obeys_concrete_eq::<K>(),
        ensures
            result == self@.contains_key(*key),
    {
        self.get(key).is_some()
    }

    /// Number of entries.
    pub fn len(&self) -> (n: usize)
        requires
            self.wf(),
        ensures
            n == self@.len(),
    {
        self.len
    }

    /// Walks the probe for `key` until it meets the key or an empty bucket.
    /// Returns the bucket where the walk ended and the first tombstone it
    /// passed, if it passed one.
    fn find_slot(&self, key: &K) -> (slot: (usize, Option<usize>))
        requires
            self.wf(),
            obeys_concrete_eq::<K>(),
            self.used < self.buckets@.len(),
        ensures
            slot.0 < self.buckets@.len(),
            holds(self.buckets@, slot.0 as int, *key) || (self.buckets@[slot.0 as int] is Empty
                && absent(self.buckets@, *key)),
            no_empty_before(
                self.buckets@,
                home(*key, self.buckets@.len() as int),
                ring_dist(
                    home(*key, self.buckets@.len() as int),
                    slot.0 as int,
                    self.buckets@.len() as int,
                ),
            ),
            match slot.1 {
                Some(t) => t < self.buckets@.len() && self.buckets@[t as int] is Tombstone
                    && ring_dist(
                    home(*key, self.buckets@.len() as int),
                    t as int,
                    self.buckets@.len() as int,
                ) < ring_dist(
                    home(*key, self.buckets@.len() as int),
                    slot.0 as int,
                    self.buckets@.len() as int,
                ) && no_tombstone_before(
                    self.buckets@,
                    home(*key, self.buckets@.len() as int),
                    ring_dist(
                        home(*key, self.buckets@.len() as int),
                        t as int,
                        self.buckets@.len() as int,
                    ),
                ),
                None => no_tombstone_before(
                    self.buckets@,
                    home(*key, self.buckets@.len() as int),
                    ring_dist(
                        home(*key, self.buckets@.len() as int),
                        slot.0 as int,
                        self.buckets@.len() as int,
                    ),
                ),
            },
    {
        let n: usize = self.buckets.len();
        let start: usize = self.bucket_index(key);
        let mut idx: usize = start;
        let mut steps: usize = 0;
        let mut first_removed: Option<usize> = None;
        proof {
            lemma_has_empty(self.buckets@);
        }
        let ghost empty_at: int = choose|j: int|
            0 <= j < self.buckets@.len() && (#[trigger] self.buckets@[j]) is Empty;
        loop
            invariant
                self.wf(),
                obeys_concrete_eq::<K>(),
                n == self.buckets@.len(),
                start == home(*key, n as int),
                start < n,
                0 <= empty_at < n,
                self.buckets@[empty_at] is Empty,
                steps < n,
                idx == ring_at(start as int, steps as int, n as int),
                no_key_before(self.buckets@, start as int, steps as int, *key),
                no_empty_before(self.buckets@, start as int, steps as int),
                match first_removed {
                    Some(t) => t < n && self.buckets@[t as int] is Tombstone && ring_dist(
                        start as int,
                        t as int,
                        n as int,
                    ) < steps && no_tombstone_before(
                        self.buckets@,
                        start as int,
                        ring_dist(start as int, t as int, n as int),
                    ),
                    None => no_tombstone_before(self.buckets@, start as int, steps as int),
                },
            decreases n - steps,
        {
            proof {
                lemma_probe_step(self.buckets@, start as int, steps as int, *key);
            }
            match &self.buckets[idx] {
                Bucket::Empty => {
                    proof {
                        lemma_probe_ends_at_empty(self.buckets@, *key, steps as int);
                    }
                    return (idx, first_removed);
                },
                Bucket::Occupied(k, _) => {
                    proof {
                        reveal(obeys_concrete_eq);
                    }
                    if *k == *key {
                        return (idx, first_removed);
                    }
                },
                Bucket::Tombstone => {
                    if first_removed.is_none() {
                        first_removed = Some(idx);
                    }
                },
            }
            proof {
                assert(ring_dist(start as int, empty_at, n as int) >= steps);
                assert(empty_at != idx);
                lemma_probe_step(self.buckets@, start as int, steps as int, *key);
            }
            idx = if idx + 1 == n {
                0
            } else {
                idx + 1
            };
            steps += 1;
        }
    }

    /// Stores `value` under `key`. Returns the value that `key` had before,
    /// if it had one. A table that is three quarters in use is doubled first;
    /// whether or not it is, every other entry stays as it was. The doubled
    /// capacity has to fit a `usize`.
    pub fn insert(&mut self, key: K, value: V) -> (previous: Option<V>)
        requires
            old(self).wf(),
            obeys_concrete_eq::<K>(),
            old(self).must_grow() ==> 2 * old(self).capacity() <= usize::MAX,
        ensures
            final(self).wf(),
            final(self)@ == old(self)@.insert(key, value),
            previous == (if old(self)@.contains_key(key) {
                Some(old(self)@[key])
            } else {
                None
            }),
            final(self).capacity() == (if old(self).must_grow() {
                2 * old(self).capacity()
            } else {
                old(self).capacity()
            }),
            final(self).load() == (if old(self).must_grow() {
                final(self)@.len()
            } else if old(self)@.contains_key(key) || old(self).meets_tombstone(key) {
                old(self).load()
            } else {
                old(self).load() + 1
            }),
            (final(self).load() - 1) * 4 < final(self).capacity() * 3,
            final(self)@.len() == old(self)@.len() + (if old(self)@.contains_key(key) {
                0nat
            } else {
                1nat
            }),
            forall|k: K|
                k != key && #[trigger] old(self)@.contains_key(k) ==> final(self)@.contains_key(k)
                    && final(self)@[k] == old(self)@[k],
            final(self).buckets() == written(
                if old(self).must_grow() {
                    rebuilt(
                        old(self).buckets(),
                        old(self).buckets().len() as int,
                        2 * old(self).capacity(),
                    )
                } else {
                    old(self).buckets()
                },
                key,
                value,
            ),
    {
        self.ensure_capacity();
        let ghost grown = old(self).must_grow();
        let ghost mid = self.buckets@;
        let ghost n = mid.len() as int;
        let ghost h = home(key, n);
        let (idx, first_removed) = self.find_slot(&key);
        proof {
            lemma_index_sets_finite(mid);
            lemma_home_in_range(key, n);
        }
        let found: bool = match &self.buckets[idx] {
            Bucket::Occupied(_, _) => true,
            _ => false,
        };
        if found {
            proof {
                lemma_write_value(mid, idx as int, value);
                lemma_written_known(mid, key, value, idx as int);
            }
            let mut bucket: Bucket<K, V> = Bucket::Occupied(key, value);
            std::mem::swap(&mut self.buckets[idx], &mut bucket);
            match bucket {
                Bucket::Occupied(_, v) => Some(v),
                _ => None,
            }
        } else {
            let slot: usize = match first_removed {
                Some(t) => t,
                None => idx,
            };
            proof {
                lemma_model_absent(mid, key);
                lemma_write_new(mid, slot as int, key, value);
                lemma_written_new(mid, key, value, slot as int);
                lemma_index_sets_finite(mid.update(slot as int, Bucket::Occupied(key, value)));
                if first_removed is Some {
                    assert(mid[slot as int] is Tombstone);
                    assert(used_set(mid).insert(slot as int) =~= used_set(mid));
                    if grown {
                        lemma_no_tombstones(mid);
                    }
                } else {
                    assert(mid[slot as int] is Empty);
                    assert(!used_set(mid).contains(slot as int));
                }
                if !grown {
                    assert(old(self).buckets() == mid);
                    if first_removed is Some {
                        assert(first_tombstone(mid, key, slot as int));
                        assert(old(self).meets_tombstone(key));
                    } else {
                        assert(!old(self).meets_tombstone(key));
                    }
                }
            }
            if first_removed.is_none() {
                assert(self.used < self.buckets.len());
                self.used += 1;
            }
            self.buckets[slot] = Bucket::Occupied(key, value);
            self.len += 1;
            None
        }
    }

    /// Writes an entry for a key that the table does not hold, at the first
    /// empty bucket of the key's probe. A well-formed table below its growth
    /// threshold has such a bucket; a table without one is left as it is.
    fn place(&mut self, key: K, value: V)
        ensures
            final(self).buckets@.len() == old(self).buckets@.len(),
            old(self).wf() && !old(self)@.contains_key(key) && old(self).used * 4 < old(
                self,
            ).buckets@.len() * 3 ==> {
                &&& final(self).wf()
                &&& final(self)@ == old(self)@.insert(key, value)
                &&& final(self).buckets@ == placed(old(self).buckets@, key, value)
                &&& exists|j: int| first_empty(old(self).buckets@, key, j)
                &&& final(self).used == old(self).used + 1
                &&& final(self).len == old(self).len + 1
            },
    {
        let n: usize = self.buckets.len();
        let ghost fits = self.wf() && !self@.contains_key(key) && self.used * 4 < n * 3;
        proof {
            lemma_index_sets_finite(self.buckets@);
        }
        if n == 0 || self.used >= n || self.len >= n {
            return ;
        }
        let start: usize = self.bucket_index(&key);
        let mut idx: usize = start;
        let mut steps: usize = 0;
        while steps < n
            invariant
                *self == *old(self),
                fits == (old(self).wf() && !old(self)@.contains_key(key) && old(self).used * 4 < n
                    * 3),
                n == self.buckets@.len(),
                self.used < n,
                self.len < n,
                start == home(key, n as int),
                start < n,
                idx < n,
                steps <= n,
                steps < n ==> idx == ring_at(start as int, steps as int, n as int),
                fits ==> no_empty_before(self.buckets@, start as int, steps as int),
            decreases n - steps,
        {
            let is_empty: bool = match &self.buckets[idx] {
                Bucket::Empty => true,
                _ => false,
            };
            proof {
                lemma_probe_step(self.buckets@, start as int, steps as int, key);
            }
            if is_empty {
                proof {
                    if fits {
                        let s = self.buckets@;
                        assert(absent(s, key)) by {
                            assert forall|i: int| !holds(s, i, key) by {
                                if holds(s, i, key) {
                                    assert(model(s).contains_key(key));
                                }
                            }
                        }
                        lemma_write_new(s, idx as int, key, value);
                        lemma_first_empty_is_placed(s, key, value, idx as int);
                        assert(first_empty(s, key, idx as int));
                        lemma_index_sets_finite(s);
                        lemma_index_sets_finite(s.update(idx as int, Bucket::Occupied(key, value)));
                        assert(!used_set(s).contains(idx as int));
                    }
                }
                self.buckets[idx] = Bucket::Occupied(key, value);
                self.used += 1;
                self.len += 1;
                return ;
            }
            idx = if idx + 1 == n {
                0
            } else {
                idx + 1
            };
            steps += 1;
        }
        proof {
            if fits {
                lemma_has_empty(self.buckets@);
                let j = choose|j: int|
                    0 <= j < self.buckets@.len() && (#[trigger] self.buckets@[j]) is Empty;
                assert(ring_dist(start as int, j, n as int) < n);
            }
        }
    }

    /// Mutable access to the value stored for `key`, if there is one.
    pub fn get_mut(&mut self, key: &K) -> (result: Option<&mut V>)
        requires
            old(self).wf(),
            obeys_concrete_eq::<K>(),
        ensures
            final(self).wf(),
            final(self).capacity() == old(self).capacity(),
            final(self).load() == old(self).load(),
            match result {
                Some(v) => old(self)@.contains_key(*key) && *v == old(self)@[*key] && final(self)@
                    == old(self)@.insert(*key, *final(v)) && final(self).buckets() == written(
                    old(self).buckets(),
                    *key,
                    *final(v),
                ),
                None => !old(self)@.contains_key(*key) && final(self)@ == old(self)@
                    && final(self).buckets() == old(self).buckets(),
            },
    {
        match self.locate(key) {
            Some(idx) => {
                proof {
                    lemma_model_at(self.buckets@, idx as int);
                }
                match &mut self.buckets[idx] {
                    Bucket::Occupied(_, v) => {
                        proof {
                            lemma_write_value(old(self).buckets@, idx as int, *final(v));
                            lemma_written_known(
                                old(self).buckets@,
                                *key,
                                *final(v),
                                idx as int,
                            );
                        }
                        Some(v)
                    },
                    _ => None,
                }
            },
            None => {
                proof {
                    lemma_model_absent(self.buckets@, *key);
                }
                None
            },
        }
    }

    /// Removes the entry for `key` and returns its value, if there is one.
    /// The bucket becomes a tombstone; the table does not shrink.
    pub fn remove(&mut self, key: &K) -> (removed: Option<V>)
        requires
            old(self).wf(),
            obeys_concrete_eq::<K>(),
        ensures
            final(self).wf(),
            final(self)@ == old(self)@.remove(*key),
            removed == (if old(self)@.contains_key(*key) {
                Some(old(self)@[*key])
            } else {
                None
            }),
            final(self).capacity() == old(self).capacity(),
            final(self).load() == old(self).load(),
            final(self).buckets() == erased(old(self).buckets(), *key),
    {
        match self.locate(key) {
            Some(idx) => {
                proof {
                    lemma_write_tombstone(self.buckets@, idx as int);
                    lemma_index_sets_finite(self.buckets@);
                    lemma_written_known(
                        self.buckets@,
                        *key,
                        self.buckets@[idx as int]->Occupied_1,
                        idx as int,
                    );
                }
                let mut bucket: Bucket<K, V> = Bucket::Tombstone;
                std::mem::swap(&mut self.buckets[idx], &mut bucket);
                self.len -= 1;
                match bucket {
                    Bucket::Occupied(_, v) => Some(v),
                    _ => None,
                }
            },
            None => {
                proof {
                    lemma_model_absent(self.buckets@, *key);
                    lemma_erased_absent(self.buckets@, *key);
                    assert(self@.remove(*key) =~= self@);
                }
                None
            },
        }
    }

    /// Doubles the table if it is at least three quarters in use.
    fn ensure_capacity(&mut self)
        requires
            old(self).wf(),
            old(self).must_grow() ==> 2 * old(self).capacity() <= usize::MAX,
        ensures
            final(self).wf(),
            final(self)@ == old(self)@,
            final(self).used < final(self).buckets@.len(),
            final(self).used * 4 < final(self).buckets@.len() * 3,
            old(self).must_grow() ==> final(self).buckets@ == rebuilt(
                old(self).buckets@,
                old(self).buckets@.len() as int,
                2 * old(self).buckets@.len(),
            ) && final(self).buckets@.len() == 2 * old(self).buckets@.len() && final(self).used
                == final(self).len,
            !old(self).must_grow() ==> *final(self) == *old(self),
    {
        let cap: usize = self.buckets.len();
        proof {
            lemma_index_sets_finite(self.buckets@);
        }
        if self.used >= cap - cap / 4 {
            proof {
                lemma_pow2_double(cap as int);
            }
            self.resize(cap * 2);
        }
    }

    /// Rebuilds the table with `new_capacity` buckets. Every entry is placed
    /// anew; the tombstones are gone.
    fn resize(&mut self, new_capacity: usize)
        requires
            old(self).wf(),
            is_pow2(new_capacity as int),
            new_capacity >= old(self).buckets@.len(),
        ensures
            final(self).wf(),
            final(self)@ == old(self)@,
            final(self).buckets@ == rebuilt(
                old(self).buckets@,
                old(self).buckets@.len() as int,
                new_capacity as nat,
            ),
            final(self).buckets@.len() == new_capacity,
            final(self).used == final(self).len,
            final(self).len == old(self).len,
    {
        let mut old_buckets: Vec<Bucket<K, V>> = Self::empty_buckets(new_capacity);
        proof {
            lemma_all_empty(old_buckets@);
        }
        std::mem::swap(&mut self.buckets, &mut old_buckets);
        self.len = 0;
        self.used = 0;
        let ghost before = old_buckets@;
        let n: usize = old_buckets.len();
        let mut i: usize = 0;
        proof {
            assert(before.take(0) =~= Seq::<Bucket<K, V>>::empty());
            assert(model(before.take(0)) =~= Map::<K, V>::empty());
            lemma_index_sets_finite(before);
            assert(self.buckets@ =~= rebuilt(before, 0, new_capacity as nat));
        }
        while i < n
            invariant
                self.wf(),
                self.buckets@.len() == new_capacity,
                n == before.len(),
                n <= new_capacity,
                old_buckets@.len() == n,
                i <= n,
                forall|j: int| i <= j < n ==> old_buckets@[j] == before[j],
                sound(before),
                (model(before).dom().len() - 1) * 4 < n * 3,
                self.buckets@ == rebuilt(before, i as int, new_capacity as nat),
                self@ == model(before.take(i as int)),
                self.used == self.len,
            decreases n - i,
        {
            let mut bucket: Bucket<K, V> = Bucket::Empty;
            std::mem::swap(&mut old_buckets[i], &mut bucket);
            proof {
                lemma_model_take_step(before, i as int);
                lemma_model_take_subset(before, i + 1);
                vstd::set_lib::lemma_len_subset(
                    model(before.take(i + 1)).dom(),
                    model(before).dom(),
                );
            }
            match bucket {
                Bucket::Occupied(key, value) => {
                    self.place(key, value);
                },
                _ => {},
            }
            i += 1;
        }
        proof {
            assert(before.take(n as int) =~= before);
            lemma_index_sets_finite(self.buckets@);
            assert(self.len == old(self).len);
        }
    }

    /// Whether the table holds no entry.
    pub fn is_empty(&self) -> (result: bool)
        requires
            self.wf(),
        ensures
            result == (self@.len() == 0),
            result == (self@ == Map::<K, V>::empty()),
    {
        proof {
            if self@.len() == 0 {
                assert(self@.dom() =~= Set::<K>::empty());
                assert(self@ =~= Map::<K, V>::empty());
            }
        }
        self.len == 0
    }
}

impl<K, V> Default for CustomHashMap<K, V> where K: Eq + AssemblyHash + Clone {
    /// An empty table of 16 buckets.
    fn default() -> (m: Self)
        ensures
            m.wf(),
            m@ == Map::<K, V>::empty(),
            m.capacity() == 16,
            m.load() == 0,
    {
        Self::new()
    }
}

impl<K, V> Clone for CustomHashMap<K, V> where K: Eq + AssemblyHash + Clone, V: Clone {
    /// A fresh table of the same capacity with a clone of every entry and no
    /// tombstone. Where keys clone exactly, it holds the same keys, each with
    /// a clone of its value.
    fn clone(&self) -> (res: Self)
        ensures
            self.wf() && clone_is_exact::<K>() ==> {
                &&& res.wf()
                &&& res@.dom() == self@.dom()
                &&& forall|k: K| #[trigger] res@.contains_key(k) ==> cloned(self@[k], res@[k])
                &&& res.capacity() == self.capacity()
                &&& res.load() == res@.len()
                &&& array_cloned(
                    rebuilt(self.buckets(), self.buckets().len() as int, self.capacity()),
                    res.buckets(),
                )
            },
    {
        let n: usize = self.buckets.len();
        let mut res = CustomHashMap { buckets: Self::empty_buckets(n), len: 0, used: 0 };
        let ghost exact = self.wf() && clone_is_exact::<K>();
        let ghost source = self.buckets@;
        proof {
            if exact {
                lemma_all_empty(res.buckets@);
                lemma_index_sets_finite(source);
                assert(source.take(0) =~= Seq::<Bucket<K, V>>::empty());
                assert(model(source.take(0)) =~= Map::<K, V>::empty());
                assert(array_cloned(rebuilt(source, 0, n as nat), res.buckets@));
            }
        }
        let mut i: usize = 0;
        while i < n
            invariant
                source == self.buckets@,
                n == source.len(),
                i <= n,
                res.buckets@.len() == n,
                exact == (self.wf() && clone_is_exact::<K>()),
                exact ==> {
                    &&& res.wf()
                    &&& res.used == res.len
                    &&& array_cloned(rebuilt(source, i as int, n as nat), res.buckets@)
                    &&& res@.dom() == model(source.take(i as int)).dom()
                    &&& forall|k: K| #[trigger]
                        res@.contains_key(k) ==> cloned(model(source.take(i as int))[k], res@[k])
                },
            decreases n - i,
        {
            match &self.buckets[i] {
                Bucket::Occupied(k, v) => {
                    let key = k.clone();
                    let value = v.clone();
                    let ghost before = res@;
                    let ghost array = res.buckets@;
                    proof {
                        if exact {
                            assert(cloned(*k, key));
                            lemma_model_take_step(source, i as int);
                            lemma_model_take_subset(source, i + 1);
                            vstd::set_lib::lemma_len_subset(
                                model(source.take(i + 1)).dom(),
                                model(source).dom(),
                            );
                            lemma_index_sets_finite(res.buckets@);
                            lemma_index_sets_finite(source);
                            assert(key == *k);
                            assert(!res@.contains_key(key));
                            assert(res.used * 4 < n * 3);
                        }
                    }
                    res.place(key, value);
                    proof {
                        if exact {
                            let j = choose|j: int| first_empty(array, key, j);
                            lemma_placed_cloned(
                                rebuilt(source, i as int, n as nat),
                                array,
                                key,
                                *v,
                                value,
                                j,
                            );
                            assert(res@.dom() =~= model(source.take(i + 1)).dom());
                            assert forall|q: K| #[trigger] res@.contains_key(q) implies cloned(
                                model(source.take(i + 1))[q],
                                res@[q],
                            ) by {
                                if q != key {
                                    assert(before.contains_key(q));
                                }
                            }
                        }
                    }
                },
                _ => {
                    proof {
                        if exact {
                            lemma_model_take_step(source, i as int);
                        }
                    }
                },
            }
            i += 1;
        }
        proof {
            if exact {
                assert(source.take(n as int) =~= source);
            }
        }
        res
    }
}

} // verus!
