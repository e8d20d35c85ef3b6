//! Laws of the two containers, stated over the maps and sequences that the
//! contracts of their operations speak of.

use vstd::prelude::*;
use crate::hash::digest;
use crate::lru::{has_key, index_of_key, inserted, keys_distinct, removed, touched, value_of};

verus! {

/// The digest of a long byte string, as arithmetic on its four deciding bytes.
pub proof fn lemma_digest_arith(bytes: Seq<u8>)
    requires
        bytes.len() >= 4,
    ensures
        digest(bytes) == bytes[1] * 0x100_0000 + bytes[0] * 0x1_0000 + bytes[bytes.len() - 1]
            * 0x100 + bytes[bytes.len() - 2],
{
    let a: u8 = bytes[0];
    let b: u8 = bytes[1];
    let c: u8 = bytes[bytes.len() - 2];
    let d: u8 = bytes[bytes.len() - 1];
    assert(((((a as u32) | ((b as u32) << 8)) << 16) | ((c as u32) | ((d as u32) << 8))) == b
        * 0x100_0000 + a * 0x1_0000 + d * 0x100 + c) by (bit_vector);
}

/// An operation that changes a table.
pub enum TableOp<K, V> {
    Insert(K, V),
    Remove(K),
}

impl<K, V> TableOp<K, V> {
    /// The key the operation is about.
    pub open spec fn key(self) -> K {
        match self {
            TableOp::Insert(k, _) => k,
            TableOp::Remove(k) => k,
        }
    }
}

/// The map of a table after `op`, as the contracts of `insert` and `remove`
/// give it.
pub open spec fn apply_table_op<K, V>(m: Map<K, V>, op: TableOp<K, V>) -> Map<K, V> {
    match op {
        TableOp::Insert(k, v) => m.insert(k, v),
        TableOp::Remove(k) => m.remove(k),
    }
}

/// The map of a table after the operations `ops`, first to last.
pub open spec fn run_table_ops<K, V>(m: Map<K, V>, ops: Seq<TableOp<K, V>>) -> Map<K, V>
    decreases ops.len(),
{
    if ops.len() == 0 {
        m
    } else {
        apply_table_op(run_table_ops(m, ops.drop_last()), ops.last())
    }
}

/// Round trip: after any sequence of insertions and removals, a key whose
/// last operation was an insertion is in the table, with the value of that
/// insertion.
pub proof fn lemma_last_insert_wins<K, V>(m: Map<K, V>, ops: Seq<TableOp<K, V>>, j: int)
    requires
        0 <= j < ops.len(),
        ops[j] is Insert,
        forall|i: int| j < i < ops.len() ==> (#[trigger] ops[i]).key() != ops[j].key(),
    ensures
        run_table_ops(m, ops).contains_key(ops[j].key()),
        run_table_ops(m, ops)[ops[j].key()] == ops[j]->Insert_1,
    decreases ops.len(),
{
    if j + 1 < ops.len() {
        let front = ops.drop_last();
        assert forall|i: int| j < i < front.len() implies (#[trigger] front[i]).key()
            != front[j].key() by {
            assert(front[i] == ops[i]);
        }
        lemma_last_insert_wins(m, front, j);
        assert(ops.last().key() != ops[j].key());
    }
}

/// Operations on other keys, however many, and whether or not the table
/// grows under them, leave an entry as it is.
pub proof fn lemma_other_keys_kept<K, V>(m: Map<K, V>, ops: Seq<TableOp<K, V>>, key: K)
    requires
        forall|i: int| 0 <= i < ops.len() ==> (#[trigger] ops[i]).key() != key,
    ensures
        run_table_ops(m, ops).contains_key(key) == m.contains_key(key),
        m.contains_key(key) ==> run_table_ops(m, ops)[key] == m[key],
    decreases ops.len(),
{
    if ops.len() > 0 {
        let front = ops.drop_last();
        assert forall|i: int| 0 <= i < front.len() implies (#[trigger] front[i]).key() != key by {
            assert(front[i] == ops[i]);
        }
        lemma_other_keys_kept(m, front, key);
        assert(ops.last().key() != key);
    }
}

/// One insertion, whether or not the table grows under it: a new key adds
/// one entry, a known key adds none, the key is found with the new value,
/// and every other entry is found as before.
pub proof fn lemma_insert_keeps_entries<K, V>(m: Map<K, V>, key: K, value: V)
    requires
        m.dom().finite(),
    ensures
        m.insert(key, value).len() == m.len() + (if m.contains_key(key) {
            0nat
        } else {
            1nat
        }),
        m.insert(key, value).contains_key(key),
        m.insert(key, value)[key] == value,
        forall|k: K|
            k != key && #[trigger] m.contains_key(k) ==> m.insert(key, value).contains_key(k)
                && m.insert(key, value)[k] == m[k],
{
}

/// A removed key stays absent when another key is inserted afterwards, and
/// that other key is found, wherever in the table it comes to lie.
pub proof fn lemma_removed_stays_absent<K, V>(m: Map<K, V>, k1: K, v1: V, k2: K, v2: V)
    requires
        k1 != k2,
    ensures
        !m.insert(k1, v1).remove(k1).insert(k2, v2).contains_key(k1),
        m.insert(k1, v1).remove(k1).insert(k2, v2).contains_key(k2),
        m.insert(k1, v1).remove(k1).insert(k2, v2)[k2] == v2,
{
}

/// An operation on a cache.
pub enum CacheOp<K, V> {
    Insert(K, V),
    Get(K),
    Remove(K),
    Contains(K),
}

/// The entries of a cache of `capacity` entries after `op`, as the contracts
/// of the operations give them. `contains` takes the cache by shared
/// reference and leaves it as it is.
pub open spec fn apply_cache_op<K, V>(s: Seq<(K, V)>, capacity: nat, op: CacheOp<K, V>) -> Seq<
    (K, V),
> {
    match op {
        CacheOp::Insert(k, v) => inserted(s, capacity, k, v),
        CacheOp::Get(k) => touched(s, k),
        CacheOp::Remove(k) => removed(s, k),
        CacheOp::Contains(_) => s,
    }
}

/// The entries of a cache after the operations `ops`, first to last.
pub open spec fn run_cache_ops<K, V>(s: Seq<(K, V)>, capacity: nat, ops: Seq<CacheOp<K, V>>) -> Seq<
    (K, V),
>
    decreases ops.len(),
{
    if ops.len() == 0 {
        s
    } else {
        apply_cache_op(run_cache_ops(s, capacity, ops.drop_last()), capacity, ops.last())
    }
}

/// Membership tests never change what later operations do: a sequence of
/// operations leaves the cache as the same sequence without one of its
/// `contains` does.
pub proof fn lemma_contains_changes_nothing<K, V>(
    s: Seq<(K, V)>,
    capacity: nat,
    ops: Seq<CacheOp<K, V>>,
    i: int,
)
    requires
        0 <= i < ops.len(),
        ops[i] is Contains,
    ensures
        run_cache_ops(s, capacity, ops) == run_cache_ops(s, capacity, ops.remove(i)),
    decreases ops.len(),
{
    if i + 1 == ops.len() {
        assert(ops.remove(i) =~= ops.drop_last());
    } else {
        lemma_contains_changes_nothing(s, capacity, ops.drop_last(), i);
        assert(ops.remove(i).drop_last() =~= ops.drop_last().remove(i));
        assert(ops.remove(i).last() == ops.last());
    }
}

/// The place of a key in a sequence with distinct keys is the one place
/// where the key stands.
pub proof fn lemma_index_of_key<K, V>(s: Seq<(K, V)>, i: int)
    requires
        keys_distinct(s),
        0 <= i < s.len(),
    ensures
        has_key(s, s[i].0),
        index_of_key(s, s[i].0) == i,
        value_of(s, s[i].0) == Some(s[i].1),
{
    let j = index_of_key(s, s[i].0);
    assert(s[j].0 == s[i].0);
}

/// Each operation keeps the keys distinct.
pub proof fn lemma_keys_stay_distinct<K, V>(s: Seq<(K, V)>, capacity: nat, op: CacheOp<K, V>)
    requires
        keys_distinct(s),
        capacity >= 1,
    ensures
        keys_distinct(apply_cache_op(s, capacity, op)),
{
    let t = apply_cache_op(s, capacity, op);
    match op {
        CacheOp::Insert(k, v) => {
            assert forall|a: int, b: int|
                0 <= a < t.len() && 0 <= b < t.len() && (#[trigger] t[a]).0 == (
                #[trigger] t[b]).0 implies a == b by {
                if has_key(s, k) {
                    let p = index_of_key(s, k);
                    assert(s[p].0 == k);
                    if a > 0 {
                        let ra = if a - 1 < p {
                            a - 1
                        } else {
                            a
                        };
                        assert(t[a] == s[ra]);
                    }
                    if b > 0 {
                        let rb = if b - 1 < p {
                            b - 1
                        } else {
                            b
                        };
                        assert(t[b] == s[rb]);
                    }
                } else {
                    if a > 0 {
                        assert(t[a] == s[a - 1]);
                    }
                    if b > 0 {
                        assert(t[b] == s[b - 1]);
                    }
                }
            }
        },
        CacheOp::Get(k) => {
            if has_key(s, k) {
                let p = index_of_key(s, k);
                assert forall|a: int, b: int|
                    0 <= a < t.len() && 0 <= b < t.len() && (#[trigger] t[a]).0 == (
                    #[trigger] t[b]).0 implies a == b by {
                    let ra = if a == 0 {
                        p
                    } else if a <= p {
                        a - 1
                    } else {
                        a
                    };
                    let rb = if b == 0 {
                        p
                    } else if b <= p {
                        b - 1
                    } else {
                        b
                    };
                    assert(t[a] == s[ra]);
                    assert(t[b] == s[rb]);
                }
            }
        },
        CacheOp::Remove(k) => {
            if has_key(s, k) {
                let p = index_of_key(s, k);
                assert forall|a: int, b: int|
                    0 <= a < t.len() && 0 <= b < t.len() && (#[trigger] t[a]).0 == (
                    #[trigger] t[b]).0 implies a == b by {
                    let ra = if a < p {
                        a
                    } else {
                        a + 1
                    };
                    let rb = if b < p {
                        b
                    } else {
                        b + 1
                    };
                    assert(t[a] == s[ra]);
                    assert(t[b] == s[rb]);
                }
            }
        },
        CacheOp::Contains(_) => {},
    }
}

/// Update in place: inserting a key that the cache holds keeps the number of
/// entries and leaves the key with the new value, in front.
pub proof fn lemma_update_in_place<K, V>(s: Seq<(K, V)>, capacity: nat, key: K, value: V)
    requires
        keys_distinct(s),
        has_key(s, key),
        capacity >= 1,
    ensures
        inserted(s, capacity, key, value).len() == s.len(),
        inserted(s, capacity, key, value)[0] == (key, value),
        value_of(inserted(s, capacity, key, value), key) == Some(value),
{
    let t = inserted(s, capacity, key, value);
    lemma_keys_stay_distinct(s, capacity, CacheOp::Insert(key, value));
    lemma_index_of_key(t, 0);
}

/// Eviction order: a new key that arrives at a full cache takes the front,
/// the least recently used entry leaves, and every other entry moves back
/// by one place.
pub proof fn lemma_insert_evicts_last<K, V>(s: Seq<(K, V)>, capacity: nat, key: K, value: V)
    requires
        keys_distinct(s),
        !has_key(s, key),
        s.len() == capacity,
        capacity >= 1,
    ensures
        inserted(s, capacity, key, value).len() == capacity,
        inserted(s, capacity, key, value)[0] == (key, value),
        !has_key(inserted(s, capacity, key, value), s.last().0),
        forall|i: int|
            0 <= i < s.len() - 1 ==> inserted(s, capacity, key, value)[i + 1] == #[trigger] s[i],
{
    let t = inserted(s, capacity, key, value);
    if has_key(t, s.last().0) {
        let j = index_of_key(t, s.last().0);
        assert(t[j].0 == s.last().0);
        if j == 0 {
            assert(s[s.len() - 1].0 == key);
        } else {
            assert(t[j] == s[j - 1]);
        }
    }
}

/// Removal does not disturb the neighbours: two other entries keep their
/// values and their order.
pub proof fn lemma_remove_keeps_neighbours<K, V>(s: Seq<(K, V)>, key: K, a: int, b: int)
    requires
        keys_distinct(s),
        0 <= a < b < s.len(),
        s[a].0 != key,
        s[b].0 != key,
    ensures
        has_key(removed(s, key), s[a].0),
        has_key(removed(s, key), s[b].0),
        index_of_key(removed(s, key), s[a].0) < index_of_key(removed(s, key), s[b].0),
        value_of(removed(s, key), s[a].0) == Some(s[a].1),
        value_of(removed(s, key), s[b].0) == Some(s[b].1),
        !has_key(removed(s, key), key),
{
    let t = removed(s, key);
    lemma_keys_stay_distinct(s, 1, CacheOp::Remove(key));
    if has_key(s, key) {
        let p = index_of_key(s, key);
        assert(s[p].0 == key);
        let a2 = if a < p {
            a
        } else {
            a - 1
        };
        let b2 = if b < p {
            b
        } else {
            b - 1
        };
        assert(t[a2] == s[a]);
        assert(t[b2] == s[b]);
        lemma_index_of_key(t, a2);
        lemma_index_of_key(t, b2);
        if has_key(t, key) {
            let j = index_of_key(t, key);
            assert(t[j].0 == key);
            let r = if j < p {
                j
            } else {
                j + 1
            };
            assert(t[j] == s[r]);
        }
    } else {
        lemma_index_of_key(s, a);
        lemma_index_of_key(s, b);
    }
}

} // verus!
