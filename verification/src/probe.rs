//! Bucket arrays under linear probing: what a bucket array means as a map,
//! the invariants that keep lookups correct, and how single-bucket writes
//! act on both.

use vstd::prelude::*;
use vstd::arithmetic::power::{lemma_pow_positive, pow};
use vstd::arithmetic::power2::{
    is_pow2, is_pow2_equiv, is_pow2_exists, lemma2_to64, lemma2_to64_rest,
};
use vstd::set_lib::{lemma_int_range, lemma_len_subset, set_int_range};
use crate::hash::AssemblyHash;

verus! {

/// One bucket of the table. A bucket starts `Empty`, becomes `Occupied` when an
/// entry is written to it and `Tombstone` when that entry is removed; only a
/// rebuild of the whole table makes it `Empty` again.
pub enum Bucket<K, V> {
    Empty,
    Occupied(K, V),
    Tombstone,
}

/// Bucket `b` is what cloning bucket `a` may give: the same kind of bucket,
/// with key and value cloned.
pub open spec fn bucket_cloned<K: Clone, V: Clone>(a: Bucket<K, V>, b: Bucket<K, V>) -> bool {
    match a {
        Bucket::Empty => b is Empty,
        Bucket::Tombstone => b is Tombstone,
        Bucket::Occupied(k, v) => b is Occupied && cloned(k, b->Occupied_0) && cloned(
            v,
            b->Occupied_1,
        ),
    }
}

impl<K: Clone, V: Clone> Clone for Bucket<K, V> {
    fn clone(&self) -> (res: Self)
        ensures
            bucket_cloned(*self, res),
    {
        match self {
            Bucket::Occupied(k, v) => Bucket::Occupied(k.clone(), v.clone()),
            Bucket::Empty => Bucket::Empty,
            Bucket::Tombstone => Bucket::Tombstone,
        }
    }
}

/// Doubling a power of two gives a power of two.
pub proof fn lemma_pow2_double(n: int)
    requires
        is_pow2(n),
    ensures
        is_pow2(2 * n),
        n >= 1,
{
    reveal(is_pow2);
    assert((2 * n) / 2 == n);
}

/// Two different powers of two are at least a factor of two apart.
pub proof fn lemma_pow2_gap(a: int, b: int)
    requires
        is_pow2(a),
        is_pow2(b),
        a < b,
    ensures
        2 * a <= b,
    decreases a,
{
    reveal(is_pow2);
    if a > 1 {
        lemma_pow2_gap(a / 2, b / 2);
    }
}

/// The largest capacity a table can have: the largest power of two that a
/// `usize` holds.
pub open spec fn max_capacity() -> int {
    usize::MAX / 2 + 1
}

/// The largest capacity is a power of two, on 32-bit and on 64-bit machines.
pub proof fn lemma_max_capacity_is_pow2()
    ensures
        is_pow2(max_capacity()),
{
    lemma2_to64();
    lemma2_to64_rest();
    lemma_pow_positive(2, 31);
    lemma_pow_positive(2, 63);
    if usize::MAX == 0xffff_ffff {
        assert(pow(2, 31) == max_capacity());
    } else {
        assert(pow(2, 63) == max_capacity());
    }
    assert(is_pow2_exists(max_capacity()));
    is_pow2_equiv(max_capacity());
}

/// The capacity of a table made by `new` is a power of two.
pub proof fn lemma_sixteen_is_pow2()
    ensures
        is_pow2(16),
{
    lemma2_to64();
    lemma_pow_positive(2, 4);
    assert(pow(2, 4) == 16);
    assert(is_pow2_exists(16));
    is_pow2_equiv(16);
}

/// Number of steps from bucket `from` forward to bucket `to`, wrapping at `n`.
pub open spec fn ring_dist(from: int, to: int, n: int) -> int {
    if to >= from {
        to - from
    } else {
        to - from + n
    }
}

/// The bucket reached from `from` after `steps` steps forward, wrapping at `n`.
pub open spec fn ring_at(from: int, steps: int, n: int) -> int {
    if from + steps < n {
        from + steps
    } else {
        from + steps - n
    }
}

/// The bucket at which the probe for `key` starts in a table of `n` buckets.
pub open spec fn home<K: AssemblyHash>(key: K, n: int) -> int {
    (key.hash_spec() as int) % n
}

/// A probe starts inside the array.
pub proof fn lemma_home_in_range<K: AssemblyHash>(key: K, n: int)
    requires
        n > 0,
    ensures
        0 <= home(key, n) < n,
{
    vstd::arithmetic::div_mod::lemma_mod_bound(key.hash_spec() as int, n);
}

/// Bucket `i` holds an entry for `key`.
pub open spec fn holds<K, V>(s: Seq<Bucket<K, V>>, i: int, key: K) -> bool {
    0 <= i < s.len() && s[i] is Occupied && s[i]->Occupied_0 == key
}

/// No entry for `key` anywhere in the array.
pub open spec fn absent<K, V>(s: Seq<Bucket<K, V>>, key: K) -> bool {
    forall|i: int| !holds(s, i, key)
}

/// The map a bucket array stands for: every occupied bucket contributes its
/// key and value.
pub open spec fn model<K, V>(s: Seq<Bucket<K, V>>) -> Map<K, V> {
    Map::new(
        |k: K| exists|i: int| holds(s, i, k),
        |k: K| s[choose|i: int| holds(s, i, k)]->Occupied_1,
    )
}

/// No key occupies two buckets.
pub open spec fn distinct_keys<K, V>(s: Seq<Bucket<K, V>>) -> bool {
    forall|i: int, j: int|
        0 <= i < s.len() && 0 <= j < s.len() && (#[trigger] s[i]) is Occupied && (#[trigger] s[j])
            is Occupied && s[i]->Occupied_0 == s[j]->Occupied_0 ==> i == j
}

/// Every entry can be reached from its home bucket without crossing an empty
/// bucket: each empty bucket lies farther along the probe than the entry.
pub open spec fn reachable<K: AssemblyHash, V>(s: Seq<Bucket<K, V>>) -> bool {
    forall|i: int, j: int|
        0 <= i < s.len() && 0 <= j < s.len() && (#[trigger] s[i]) is Occupied && (#[trigger] s[j])
            is Empty ==> ring_dist(home(s[i]->Occupied_0, s.len() as int), i, s.len() as int)
            < ring_dist(home(s[i]->Occupied_0, s.len() as int), j, s.len() as int)
}

/// No bucket within `steps` steps of `from` is empty.
pub open spec fn no_empty_before<K, V>(s: Seq<Bucket<K, V>>, from: int, steps: int) -> bool {
    forall|j: int|
        0 <= j < s.len() && ring_dist(from, j, s.len() as int) < steps ==> !((#[trigger] s[j])
            is Empty)
}

/// No bucket within `steps` steps of `from` holds `key`.
pub open spec fn no_key_before<K, V>(s: Seq<Bucket<K, V>>, from: int, steps: int, key: K) -> bool {
    forall|j: int|
        0 <= j < s.len() && ring_dist(from, j, s.len() as int) < steps ==> !(#[trigger] holds(
            s,
            j,
            key,
        ))
}

/// No bucket within `steps` steps of `from` is a tombstone.
pub open spec fn no_tombstone_before<K, V>(s: Seq<Bucket<K, V>>, from: int, steps: int) -> bool {
    forall|j: int|
        0 <= j < s.len() && ring_dist(from, j, s.len() as int) < steps ==> !((#[trigger] s[j])
            is Tombstone)
}

/// Bucket `j` is the first empty bucket on the probe for `key`.
pub open spec fn first_empty<K: AssemblyHash, V>(s: Seq<Bucket<K, V>>, key: K, j: int) -> bool {
    &&& 0 <= j < s.len()
    &&& s[j] is Empty
    &&& no_empty_before(
        s,
        home(key, s.len() as int),
        ring_dist(home(key, s.len() as int), j, s.len() as int),
    )
}

/// Bucket `j` is the first tombstone on the probe for `key`, and the probe
/// reaches it before it reaches an empty bucket.
pub open spec fn first_tombstone<K: AssemblyHash, V>(s: Seq<Bucket<K, V>>, key: K, j: int) -> bool {
    &&& 0 <= j < s.len()
    &&& s[j] is Tombstone
    &&& no_empty_before(
        s,
        home(key, s.len() as int),
        ring_dist(home(key, s.len() as int), j, s.len() as int),
    )
    &&& no_tombstone_before(
        s,
        home(key, s.len() as int),
        ring_dist(home(key, s.len() as int), j, s.len() as int),
    )
}

/// The bucket in which an entry for a key that the array does not hold is
/// written: the first tombstone that the probe for the key passes before it
/// reaches an empty bucket, or else that empty bucket.
pub open spec fn landing<K: AssemblyHash, V>(s: Seq<Bucket<K, V>>, key: K) -> int {
    if exists|j: int| first_tombstone(s, key, j) {
        choose|j: int| first_tombstone(s, key, j)
    } else {
        choose|j: int| first_empty(s, key, j)
    }
}

/// The array after `value` is stored under `key`: in the bucket that holds
/// `key`, or, where none does, in the bucket where a new entry lands.
pub open spec fn written<K: AssemblyHash, V>(s: Seq<Bucket<K, V>>, key: K, value: V) -> Seq<
    Bucket<K, V>,
> {
    if exists|i: int| holds(s, i, key) {
        s.update(choose|i: int| holds(s, i, key), Bucket::Occupied(key, value))
    } else {
        s.update(landing(s, key), Bucket::Occupied(key, value))
    }
}

/// The array after the entry for `key` is removed: its bucket is a
/// tombstone. Without such an entry the array stays as it is.
pub open spec fn erased<K, V>(s: Seq<Bucket<K, V>>, key: K) -> Seq<Bucket<K, V>> {
    if exists|i: int| holds(s, i, key) {
        s.update(choose|i: int| holds(s, i, key), Bucket::Tombstone)
    } else {
        s
    }
}

/// The array after an entry is placed in the first empty bucket of its
/// probe.
pub open spec fn placed<K: AssemblyHash, V>(s: Seq<Bucket<K, V>>, key: K, value: V) -> Seq<
    Bucket<K, V>,
> {
    s.update(choose|j: int| first_empty(s, key, j), Bucket::Occupied(key, value))
}

/// An array of `n` buckets in which the entries of the first `i` buckets of
/// `s` are placed one after the other, lowest bucket first.
pub open spec fn rebuilt<K: AssemblyHash, V>(s: Seq<Bucket<K, V>>, i: int, n: nat) -> Seq<
    Bucket<K, V>,
>
    decreases i,
{
    if i <= 0 {
        Seq::new(n, |j: int| Bucket::Empty)
    } else {
        match s[i - 1] {
            Bucket::Occupied(k, v) => placed(rebuilt(s, i - 1, n), k, v),
            _ => rebuilt(s, i - 1, n),
        }
    }
}

/// The occupied buckets.
pub open spec fn occupied_set<K, V>(s: Seq<Bucket<K, V>>) -> Set<int> {
    Set::new(|i: int| 0 <= i < s.len() && s[i] is Occupied)
}

/// The buckets that are not empty: occupied ones and tombstones.
pub open spec fn used_set<K, V>(s: Seq<Bucket<K, V>>) -> Set<int> {
    Set::new(|i: int| 0 <= i < s.len() && !(s[i] is Empty))
}

/// An array of `n` empty buckets.
pub open spec fn all_empty<K, V>(s: Seq<Bucket<K, V>>) -> bool {
    forall|i: int| 0 <= i < s.len() ==> (#[trigger] s[i]) is Empty
}

/// The invariants of a bucket array that do not involve the counters.
pub open spec fn sound<K: AssemblyHash, V>(s: Seq<Bucket<K, V>>) -> bool {
    &&& distinct_keys(s)
    &&& reachable(s)
    &&& model(s).dom().finite()
    &&& model(s).dom().len() == occupied_set(s).len()
}

/// The occupied buckets are among the used ones, and those among all.
pub proof fn lemma_index_sets_finite<K, V>(s: Seq<Bucket<K, V>>)
    ensures
        occupied_set(s).finite(),
        used_set(s).finite(),
        occupied_set(s).len() <= used_set(s).len() <= s.len(),
{
    lemma_int_range(0, s.len() as int);
    lemma_len_subset(used_set(s), set_int_range(0, s.len() as int));
    lemma_len_subset(occupied_set(s), used_set(s));
}

/// An array with as many occupied buckets as used ones has no tombstone.
pub proof fn lemma_no_tombstones<K, V>(s: Seq<Bucket<K, V>>)
    requires
        occupied_set(s).len() == used_set(s).len(),
    ensures
        forall|j: int| 0 <= j < s.len() ==> !((#[trigger] s[j]) is Tombstone),
{
    lemma_index_sets_finite(s);
    assert forall|j: int| 0 <= j < s.len() implies !((#[trigger] s[j]) is Tombstone) by {
        if s[j] is Tombstone {
            assert(used_set(s).contains(j));
            assert(occupied_set(s).insert(j).subset_of(used_set(s)));
            lemma_len_subset(occupied_set(s).insert(j), used_set(s));
        }
    }
}

/// A table with fewer used buckets than buckets has an empty bucket.
pub proof fn lemma_has_empty<K, V>(s: Seq<Bucket<K, V>>)
    requires
        used_set(s).len() < s.len(),
    ensures
        exists|j: int| 0 <= j < s.len() && (#[trigger] s[j]) is Empty,
{
    if !(exists|j: int| 0 <= j < s.len() && (#[trigger] s[j]) is Empty) {
        lemma_int_range(0, s.len() as int);
        assert(used_set(s) =~= set_int_range(0, s.len() as int));
    }
}

/// An array of empty buckets is sound and stands for the empty map.
pub proof fn lemma_all_empty<K: AssemblyHash, V>(s: Seq<Bucket<K, V>>)
    requires
        all_empty(s),
    ensures
        sound(s),
        model(s) == Map::<K, V>::empty(),
        occupied_set(s) == Set::<int>::empty(),
        used_set(s) == Set::<int>::empty(),
{
    assert(model(s) =~= Map::<K, V>::empty());
    assert(occupied_set(s) =~= Set::<int>::empty());
    assert(used_set(s) =~= Set::<int>::empty());
    assert(model(s).dom() =~= Set::<K>::empty());
}

/// In an array with distinct keys, an occupied bucket decides what the map
/// holds for its key.
pub proof fn lemma_model_at<K, V>(s: Seq<Bucket<K, V>>, i: int)
    requires
        distinct_keys(s),
        0 <= i < s.len(),
        s[i] is Occupied,
    ensures
        model(s).contains_key(s[i]->Occupied_0),
        model(s)[s[i]->Occupied_0] == s[i]->Occupied_1,
{
    let k = s[i]->Occupied_0;
    assert(holds(s, i, k));
    let c = choose|c: int| holds(s, c, k);
    assert(holds(s, c, k));
}

/// Two arrays hold every key, but the one excepted, in the same buckets with
/// the same values.
pub open spec fn agree_except<K, V>(
    s: Seq<Bucket<K, V>>,
    t: Seq<Bucket<K, V>>,
    except: Option<K>,
) -> bool {
    forall|i: int, k: K|
        #![trigger holds(s, i, k)]
        #![trigger holds(t, i, k)]
        Some(k) != except ==> (holds(s, i, k) <==> holds(t, i, k)) && (holds(s, i, k)
            ==> s[i]->Occupied_1 == t[i]->Occupied_1)
}

/// Where two arrays with distinct keys agree on a key, their maps do.
pub proof fn lemma_model_agree<K, V>(
    s: Seq<Bucket<K, V>>,
    t: Seq<Bucket<K, V>>,
    except: Option<K>,
    k: K,
)
    requires
        distinct_keys(s),
        distinct_keys(t),
        agree_except(s, t, except),
        Some(k) != except,
    ensures
        model(t).contains_key(k) == model(s).contains_key(k),
        model(t).contains_key(k) ==> model(t)[k] == model(s)[k],
{
    if model(t).contains_key(k) {
        let i = choose|i: int| holds(t, i, k);
        assert(holds(s, i, k));
        lemma_model_at(t, i);
        lemma_model_at(s, i);
    }
    if model(s).contains_key(k) {
        let i = choose|i: int| holds(s, i, k);
        assert(holds(t, i, k));
    }
}

/// Two arrays with distinct keys that agree on every key stand for the same
/// map.
pub proof fn lemma_model_same<K, V>(s: Seq<Bucket<K, V>>, t: Seq<Bucket<K, V>>)
    requires
        distinct_keys(s),
        distinct_keys(t),
        agree_except(s, t, None),
    ensures
        model(t) == model(s),
{
    assert forall|k: K| model(t).contains_key(k) == model(s).contains_key(k) && (model(
        t,
    ).contains_key(k) ==> model(t)[k] == model(s)[k]) by {
        lemma_model_agree(s, t, None, k);
    }
    assert(model(t) =~= model(s));
}

/// Where two arrays with distinct keys agree on every key but `key`, and the
/// second holds `key` in bucket `p`, the second stands for the map of the
/// first with that entry inserted.
pub proof fn lemma_model_inserted<K, V>(
    s: Seq<Bucket<K, V>>,
    t: Seq<Bucket<K, V>>,
    key: K,
    p: int,
)
    requires
        distinct_keys(s),
        distinct_keys(t),
        agree_except(s, t, Some(key)),
        holds(t, p, key),
    ensures
        model(t) == model(s).insert(key, t[p]->Occupied_1),
{
    let m = model(s).insert(key, t[p]->Occupied_1);
    lemma_model_at(t, p);
    assert forall|k: K| model(t).contains_key(k) == m.contains_key(k) && (model(t).contains_key(
        k,
    ) ==> model(t)[k] == m[k]) by {
        if k != key {
            lemma_model_agree(s, t, Some(key), k);
        }
    }
    assert(model(t) =~= m);
}

/// Where two arrays with distinct keys agree on every key but `key`, and the
/// second does not hold `key`, the second stands for the map of the first
/// without `key`.
pub proof fn lemma_model_removed<K, V>(s: Seq<Bucket<K, V>>, t: Seq<Bucket<K, V>>, key: K)
    requires
        distinct_keys(s),
        distinct_keys(t),
        agree_except(s, t, Some(key)),
        absent(t, key),
    ensures
        model(t) == model(s).remove(key),
{
    let m = model(s).remove(key);
    assert forall|k: K| model(t).contains_key(k) == m.contains_key(k) && (model(t).contains_key(
        k,
    ) ==> model(t)[k] == m[k]) by {
        if k != key {
            lemma_model_agree(s, t, Some(key), k);
        }
    }
    assert(model(t) =~= m);
}

/// A key that no bucket holds is not in the map.
pub proof fn lemma_model_absent<K, V>(s: Seq<Bucket<K, V>>, key: K)
    requires
        absent(s, key),
    ensures
        !model(s).contains_key(key),
{
}

/// One more step of a probe. What holds of no bucket before the one the
/// probe stands at, and does not hold of that bucket either, holds of no
/// bucket before the next.
pub proof fn lemma_probe_step<K, V>(s: Seq<Bucket<K, V>>, from: int, steps: int, key: K)
    requires
        0 <= from < s.len(),
        0 <= steps < s.len(),
    ensures
        0 <= ring_at(from, steps, s.len() as int) < s.len(),
        ring_dist(from, ring_at(from, steps, s.len() as int), s.len() as int) == steps,
        no_key_before(s, from, steps, key) && !holds(
            s,
            ring_at(from, steps, s.len() as int),
            key,
        ) ==> no_key_before(s, from, steps + 1, key),
        no_empty_before(s, from, steps) && !(s[ring_at(from, steps, s.len() as int)] is Empty)
            ==> no_empty_before(s, from, steps + 1),
        no_tombstone_before(s, from, steps) && !(s[ring_at(from, steps, s.len() as int)]
            is Tombstone) ==> no_tombstone_before(s, from, steps + 1),
{
    let n = s.len() as int;
    let at = ring_at(from, steps, n);
    assert forall|j: int| 0 <= j < n && ring_dist(from, j, n) == steps implies j == at by {}
    if no_key_before(s, from, steps, key) && !holds(s, at, key) {
        assert forall|j: int| 0 <= j < n && ring_dist(from, j, n) < steps + 1 implies !(
        #[trigger] holds(s, j, key)) by {
            if ring_dist(from, j, n) == steps {
                assert(j == at);
            }
        }
    }
    if no_empty_before(s, from, steps) && !(s[at] is Empty) {
        assert forall|j: int| 0 <= j < n && ring_dist(from, j, n) < steps + 1 implies !((
        #[trigger] s[j]) is Empty) by {
            if ring_dist(from, j, n) == steps {
                assert(j == at);
            }
        }
    }
    if no_tombstone_before(s, from, steps) && !(s[at] is Tombstone) {
        assert forall|j: int| 0 <= j < n && ring_dist(from, j, n) < steps + 1 implies !((
        #[trigger] s[j]) is Tombstone) by {
            if ring_dist(from, j, n) == steps {
                assert(j == at);
            }
        }
    }
}

/// Array `b` is what cloning array `a` bucket by bucket may give.
pub open spec fn array_cloned<K: Clone, V: Clone>(a: Seq<Bucket<K, V>>, b: Seq<Bucket<K, V>>) -> bool {
    &&& a.len() == b.len()
    &&& forall|j: int|
        #![trigger a[j]]
        #![trigger b[j]]
        0 <= j < a.len() ==> bucket_cloned(a[j], b[j])
}

/// Placing an entry in an array and a clone of it in a clone of the array
/// gives an array and a clone of it.
pub proof fn lemma_placed_cloned<K: AssemblyHash + Clone, V: Clone>(
    a: Seq<Bucket<K, V>>,
    b: Seq<Bucket<K, V>>,
    key: K,
    v: V,
    w: V,
    j: int,
)
    requires
        array_cloned(a, b),
        cloned(v, w),
        first_empty(b, key, j),
    ensures
        first_empty(a, key, j),
        array_cloned(placed(a, key, v), placed(b, key, w)),
{
    let n = a.len() as int;
    let h = home(key, n);
    assert(bucket_cloned(a[j], b[j]));
    assert forall|x: int| 0 <= x < n && ring_dist(h, x, n) < ring_dist(h, j, n) implies !((
    #[trigger] a[x]) is Empty) by {
        assert(bucket_cloned(a[x], b[x]));
        assert(!(b[x] is Empty));
    }
    lemma_first_empty_is_placed(a, key, v, j);
    lemma_first_empty_is_placed(b, key, w, j);
    assert(cloned(key, key));
}

/// At most one bucket is the first empty bucket of a probe.
pub proof fn lemma_first_empty_is_placed<K: AssemblyHash, V>(
    s: Seq<Bucket<K, V>>,
    key: K,
    value: V,
    j: int,
)
    requires
        first_empty(s, key, j),
    ensures
        placed(s, key, value) == s.update(j, Bucket::Occupied(key, value)),
{
    let n = s.len() as int;
    lemma_home_in_range(key, n);
    let c = choose|c: int| first_empty(s, key, c);
    assert(first_empty(s, key, c));
    assert(s[c] is Empty && s[j] is Empty);
}

/// Where the probe for a key that the array does not hold ends: at `slot`,
/// if that is its first tombstone, or its first empty bucket with no
/// tombstone before it.
pub proof fn lemma_written_new<K: AssemblyHash, V>(
    s: Seq<Bucket<K, V>>,
    key: K,
    value: V,
    slot: int,
)
    requires
        absent(s, key),
        first_tombstone(s, key, slot) || (first_empty(s, key, slot) && no_tombstone_before(
            s,
            home(key, s.len() as int),
            ring_dist(home(key, s.len() as int), slot, s.len() as int),
        )),
    ensures
        landing(s, key) == slot,
        written(s, key, value) == s.update(slot, Bucket::Occupied(key, value)),
        (exists|j: int| first_tombstone(s, key, j)) == (s[slot] is Tombstone),
{
    let n = s.len() as int;
    let h = home(key, n);
    lemma_home_in_range(key, n);
    if first_tombstone(s, key, slot) {
        let c = choose|c: int| first_tombstone(s, key, c);
        assert(first_tombstone(s, key, c));
        assert(s[c] is Tombstone && s[slot] is Tombstone);
    } else {
        assert forall|j: int| !first_tombstone(s, key, j) by {
            if first_tombstone(s, key, j) {
                assert(s[j] is Tombstone && s[slot] is Empty);
            }
        }
        let c = choose|c: int| first_empty(s, key, c);
        assert(first_empty(s, key, c));
        assert(s[c] is Empty && s[slot] is Empty);
    }
    assert(!exists|i: int| holds(s, i, key));
}

/// In an array with distinct keys, the bucket that holds a key is the one
/// that is written when a value is stored under the key, and the one that
/// becomes a tombstone when the key is removed.
pub proof fn lemma_written_known<K: AssemblyHash, V>(s: Seq<Bucket<K, V>>, key: K, value: V, i: int)
    requires
        distinct_keys(s),
        holds(s, i, key),
    ensures
        written(s, key, value) == s.update(i, Bucket::Occupied(key, value)),
        erased(s, key) == s.update(i, Bucket::Tombstone),
{
    let c = choose|c: int| holds(s, c, key);
    assert(holds(s, c, key));
    assert(s[c] is Occupied && s[i] is Occupied);
}

/// An array that does not hold a key stays as it is when the key is removed.
pub proof fn lemma_erased_absent<K, V>(s: Seq<Bucket<K, V>>, key: K)
    requires
        absent(s, key),
    ensures
        erased(s, key) == s,
{
    assert(!exists|i: int| holds(s, i, key));
}

/// A probe that met no entry for `key` on its way to an empty bucket has
/// shown that the array holds none.
pub proof fn lemma_probe_ends_at_empty<K: AssemblyHash, V>(
    s: Seq<Bucket<K, V>>,
    key: K,
    steps: int,
)
    requires
        reachable(s),
        s.len() > 0,
        0 <= steps < s.len(),
        s[ring_at(home(key, s.len() as int), steps, s.len() as int)] is Empty,
        no_key_before(s, home(key, s.len() as int), steps, key),
    ensures
        absent(s, key),
{
    let n = s.len() as int;
    let h = home(key, n);
    lemma_home_in_range(key, n);
    let e = ring_at(h, steps, n);
    assert forall|i: int| !holds(s, i, key) by {
        if holds(s, i, key) {
            assert(s[i] is Occupied && s[e] is Empty);
            assert(ring_dist(h, i, n) < ring_dist(h, e, n));
        }
    }
}

/// A probe that went once round the array without meeting `key` has shown
/// that the array holds no entry for it.
pub proof fn lemma_probe_went_round<K, V>(s: Seq<Bucket<K, V>>, key: K, from: int)
    requires
        0 <= from < s.len(),
        no_key_before(s, from, s.len() as int, key),
    ensures
        absent(s, key),
{
    assert forall|i: int| !holds(s, i, key) by {
        if 0 <= i < s.len() {
            assert(ring_dist(from, i, s.len() as int) < s.len());
        }
    }
}

/// The first `i` buckets hold no key that the whole array does not hold.
pub proof fn lemma_model_take_subset<K, V>(s: Seq<Bucket<K, V>>, i: int)
    requires
        0 <= i <= s.len(),
    ensures
        model(s.take(i)).dom().subset_of(model(s).dom()),
{
    assert forall|k: K| model(s.take(i)).contains_key(k) implies model(s).contains_key(k) by {
        let j = choose|j: int| holds(s.take(i), j, k);
        assert(holds(s, j, k));
    }
}

/// The map of the first `i + 1` buckets, from the map of the first `i`.
pub proof fn lemma_model_take_step<K, V>(s: Seq<Bucket<K, V>>, i: int)
    requires
        distinct_keys(s),
        0 <= i < s.len(),
    ensures
        match s[i] {
            Bucket::Occupied(k, v) => !model(s.take(i)).contains_key(k) && model(s.take(i + 1))
                == model(s.take(i)).insert(k, v),
            _ => model(s.take(i + 1)) == model(s.take(i)),
        },
{
    let a = s.take(i);
    let b = s.take(i + 1);
    assert(distinct_keys(a));
    assert(distinct_keys(b));
    assert forall|j: int, k: K| holds(a, j, k) <==> (j < i && holds(s, j, k)) by {}
    assert forall|j: int, k: K| holds(b, j, k) <==> (j <= i && holds(s, j, k)) by {}
    match s[i] {
        Bucket::Occupied(key, value) => {
            if model(a).contains_key(key) {
                let j = choose|j: int| holds(a, j, key);
                assert(holds(s, j, key) && holds(s, i, key));
                assert(s[j] is Occupied && s[i] is Occupied);
            }
            assert(holds(b, i, key));
            lemma_model_inserted(a, b, key, i);
        },
        _ => {
            lemma_model_same(a, b);
        },
    }
}

/// Writing a new entry into a bucket that is not occupied, at a place its
/// probe reaches, adds the entry to the map and keeps the array sound.
pub proof fn lemma_write_new<K: AssemblyHash, V>(s: Seq<Bucket<K, V>>, p: int, key: K, value: V)
    requires
        sound(s),
        0 <= p < s.len(),
        !(s[p] is Occupied),
        absent(s, key),
        no_empty_before(
            s,
            home(key, s.len() as int),
            ring_dist(home(key, s.len() as int), p, s.len() as int),
        ),
    ensures
        sound(s.update(p, Bucket::Occupied(key, value))),
        model(s.update(p, Bucket::Occupied(key, value))) == model(s).insert(key, value),
        !model(s).contains_key(key),
        occupied_set(s.update(p, Bucket::Occupied(key, value))) == occupied_set(s).insert(p),
        !occupied_set(s).contains(p),
        used_set(s.update(p, Bucket::Occupied(key, value))) == used_set(s).insert(p),
{
    let t = s.update(p, Bucket::Occupied(key, value));
    let n = s.len() as int;
    assert(distinct_keys(t)) by {
        assert forall|i: int, j: int|
            0 <= i < t.len() && 0 <= j < t.len() && (#[trigger] t[i]) is Occupied && (
            #[trigger] t[j]) is Occupied && t[i]->Occupied_0 == t[j]->Occupied_0 implies i == j by {
            if i == p && j != p {
                assert(holds(s, j, key));
            }
            if j == p && i != p {
                assert(holds(s, i, key));
            }
        }
    }
    assert(reachable(t)) by {
        assert forall|i: int, j: int|
            0 <= i < t.len() && 0 <= j < t.len() && (#[trigger] t[i]) is Occupied && (
            #[trigger] t[j]) is Empty implies ring_dist(home(t[i]->Occupied_0, n), i, n)
            < ring_dist(home(t[i]->Occupied_0, n), j, n) by {
            assert(s[j] is Empty);
            if i == p {
            } else {
                assert(s[i] is Occupied);
            }
        }
    }
    lemma_index_sets_finite(s);
    assert(occupied_set(t) =~= occupied_set(s).insert(p));
    assert(used_set(t) =~= used_set(s).insert(p));
    assert(holds(t, p, key));
    lemma_model_inserted(s, t, key, p);
    assert(model(t).dom() =~= model(s).dom().insert(key));
}

/// Replacing the value of an occupied bucket replaces the value in the map.
pub proof fn lemma_write_value<K: AssemblyHash, V>(s: Seq<Bucket<K, V>>, p: int, value: V)
    requires
        sound(s),
        0 <= p < s.len(),
        s[p] is Occupied,
    ensures
        sound(s.update(p, Bucket::Occupied(s[p]->Occupied_0, value))),
        model(s.update(p, Bucket::Occupied(s[p]->Occupied_0, value))) == model(s).insert(
            s[p]->Occupied_0,
            value,
        ),
        model(s).contains_key(s[p]->Occupied_0),
        occupied_set(s.update(p, Bucket::Occupied(s[p]->Occupied_0, value))) == occupied_set(s),
        used_set(s.update(p, Bucket::Occupied(s[p]->Occupied_0, value))) == used_set(s),
{
    let key = s[p]->Occupied_0;
    let t = s.update(p, Bucket::Occupied(key, value));
    let n = s.len() as int;
    lemma_model_at(s, p);
    assert(distinct_keys(t)) by {
        assert forall|i: int, j: int|
            0 <= i < t.len() && 0 <= j < t.len() && (#[trigger] t[i]) is Occupied && (
            #[trigger] t[j]) is Occupied && t[i]->Occupied_0 == t[j]->Occupied_0 implies i == j by {
            assert(s[i] is Occupied && s[j] is Occupied);
            assert(s[i]->Occupied_0 == t[i]->Occupied_0);
            assert(s[j]->Occupied_0 == t[j]->Occupied_0);
        }
    }
    assert(reachable(t)) by {
        assert forall|i: int, j: int|
            0 <= i < t.len() && 0 <= j < t.len() && (#[trigger] t[i]) is Occupied && (
            #[trigger] t[j]) is Empty implies ring_dist(home(t[i]->Occupied_0, n), i, n)
            < ring_dist(home(t[i]->Occupied_0, n), j, n) by {
            assert(s[j] is Empty);
            assert(s[i] is Occupied);
            assert(s[i]->Occupied_0 == t[i]->Occupied_0);
        }
    }
    assert(occupied_set(t) =~= occupied_set(s));
    assert(used_set(t) =~= used_set(s));
    assert(holds(t, p, key));
    lemma_model_inserted(s, t, key, p);
    assert(model(t).dom() =~= model(s).dom());
}

/// Turning an occupied bucket into a tombstone removes its key from the map
/// and leaves every other entry reachable.
pub proof fn lemma_write_tombstone<K: AssemblyHash, V>(s: Seq<Bucket<K, V>>, p: int)
    requires
        sound(s),
        0 <= p < s.len(),
        s[p] is Occupied,
    ensures
        sound(s.update(p, Bucket::Tombstone)),
        model(s.update(p, Bucket::Tombstone)) == model(s).remove(s[p]->Occupied_0),
        model(s).contains_key(s[p]->Occupied_0),
        model(s)[s[p]->Occupied_0] == s[p]->Occupied_1,
        occupied_set(s.update(p, Bucket::Tombstone)) == occupied_set(s).remove(p),
        occupied_set(s).contains(p),
        used_set(s.update(p, Bucket::Tombstone)) == used_set(s),
{
    let key = s[p]->Occupied_0;
    let t = s.update(p, Bucket::<K, V>::Tombstone);
    let n = s.len() as int;
    lemma_model_at(s, p);
    assert(distinct_keys(t)) by {
        assert forall|i: int, j: int|
            0 <= i < t.len() && 0 <= j < t.len() && (#[trigger] t[i]) is Occupied && (
            #[trigger] t[j]) is Occupied && t[i]->Occupied_0 == t[j]->Occupied_0 implies i == j by {
            assert(s[i] is Occupied && s[j] is Occupied);
        }
    }
    assert(reachable(t)) by {
        assert forall|i: int, j: int|
            0 <= i < t.len() && 0 <= j < t.len() && (#[trigger] t[i]) is Occupied && (
            #[trigger] t[j]) is Empty implies ring_dist(home(t[i]->Occupied_0, n), i, n)
            < ring_dist(home(t[i]->Occupied_0, n), j, n) by {
            assert(s[j] is Empty);
            assert(s[i] is Occupied);
        }
    }
    lemma_index_sets_finite(s);
    assert(occupied_set(t) =~= occupied_set(s).remove(p));
    assert(used_set(t) =~= used_set(s));
    assert(absent(t, key)) by {
        assert forall|i: int| !holds(t, i, key) by {
            if holds(t, i, key) {
                assert(s[i] is Occupied && s[p] is Occupied);
            }
        }
    }
    lemma_model_removed(s, t, key);
    assert(model(t).dom() =~= model(s).dom().remove(key));
}

} // verus!
