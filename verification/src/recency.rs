//! The arena of a recency list: what the slots, the list threaded through
//! them, the free list and the key map must satisfy together, and how the
//! steps of the cache operations act on them.

use vstd::prelude::*;

verus! {

/// One slot of the arena. A live entry has a value and is linked into the
/// recency list; a slot whose entry was removed or evicted has no value and
/// waits on the free list.
pub struct Entry<K, V> {
    pub key: K,
    pub val: Option<V>,
    /// The neighbour towards the most recently used end.
    pub prev: Option<usize>,
    /// The neighbour towards the least recently used end.
    pub next: Option<usize>,
}

/// The entries that a recency list over an arena stands for, in the order of
/// the list.
pub open spec fn listing<K, V>(order: Seq<usize>, entries: Seq<Entry<K, V>>) -> Seq<(K, V)> {
    Seq::new(
        order.len(),
        |j: int| (entries[order[j] as int].key, entries[order[j] as int].val->Some_0),
    )
}

/// Two arenas hold the same keys and values in every slot but `except`;
/// links may differ.
pub open spec fn same_payload<K, V>(a: Seq<Entry<K, V>>, b: Seq<Entry<K, V>>, except: int) -> bool {
    &&& a.len() == b.len()
    &&& forall|x: int|
        #![trigger a[x]]
        #![trigger b[x]]
        0 <= x < a.len() && x != except ==> a[x].key == b[x].key && a[x].val == b[x].val
}

/// Two arenas hold the same links in every slot; keys and values may differ.
pub open spec fn same_links<K, V>(a: Seq<Entry<K, V>>, b: Seq<Entry<K, V>>) -> bool {
    &&& a.len() == b.len()
    &&& forall|x: int|
        #![trigger a[x]]
        #![trigger b[x]]
        0 <= x < a.len() ==> a[x].prev == b[x].prev && a[x].next == b[x].next
}

/// Every slot of the list is in the arena and holds a value.
pub open spec fn live<K, V>(order: Seq<usize>, entries: Seq<Entry<K, V>>) -> bool {
    forall|j: int|
        0 <= j < order.len() ==> (#[trigger] order[j]) < entries.len() && entries[order[j] as int].val
            is Some
}

/// No slot occurs twice.
pub open spec fn distinct(slots: Seq<usize>) -> bool {
    forall|i: int, j: int|
        0 <= i < slots.len() && 0 <= j < slots.len() && (#[trigger] slots[i]) == (
        #[trigger] slots[j]) ==> i == j
}

/// The entry at place `j` of the list is linked to its two neighbours.
pub open spec fn linked<K, V>(order: Seq<usize>, entries: Seq<Entry<K, V>>, j: int) -> bool {
    &&& entries[order[j] as int].prev == (if j == 0 {
        None
    } else {
        Some(order[j - 1])
    })
    &&& entries[order[j] as int].next == (if j + 1 == order.len() {
        None
    } else {
        Some(order[j + 1])
    })
}

/// The list is a doubly linked list over distinct live slots, from `head`,
/// the most recently used, to `tail`, the least recently used.
pub open spec fn chain_ok<K, V>(
    order: Seq<usize>,
    entries: Seq<Entry<K, V>>,
    head: Option<usize>,
    tail: Option<usize>,
) -> bool {
    &&& live(order, entries)
    &&& distinct(order)
    &&& forall|j: int| 0 <= j < order.len() ==> #[trigger] linked(order, entries, j)
    &&& head == (if order.len() == 0 {
        None
    } else {
        Some(order[0])
    })
    &&& tail == (if order.len() == 0 {
        None
    } else {
        Some(order[order.len() - 1])
    })
}

/// The free list holds distinct slots of an arena of `n` slots, none of them
/// in the list.
pub open spec fn pool_ok(free: Seq<usize>, order: Seq<usize>, n: nat) -> bool {
    &&& forall|a: int| 0 <= a < free.len() ==> (#[trigger] free[a]) < n
    &&& distinct(free)
    &&& forall|a: int, j: int|
        0 <= a < free.len() && 0 <= j < order.len() ==> (#[trigger] free[a]) != (#[trigger] order[j])
}

/// The map sends the key of the entry at place `j` to that entry's slot.
pub open spec fn indexed<K, V>(
    map: Map<K, usize>,
    order: Seq<usize>,
    entries: Seq<Entry<K, V>>,
    j: int,
) -> bool {
    &&& map.contains_key(entries[order[j] as int].key)
    &&& map[entries[order[j] as int].key] == order[j]
}

/// The key `k` belongs to the entry at place `j`, and the map says so.
pub open spec fn key_at<K, V>(
    map: Map<K, usize>,
    order: Seq<usize>,
    entries: Seq<Entry<K, V>>,
    k: K,
    j: int,
) -> bool {
    &&& 0 <= j < order.len()
    &&& order[j] == map[k]
    &&& entries[order[j] as int].key == k
}

/// The map holds exactly the keys of the entries of the list, each with its
/// slot.
pub open spec fn index_ok<K, V>(
    map: Map<K, usize>,
    order: Seq<usize>,
    entries: Seq<Entry<K, V>>,
) -> bool {
    &&& map.dom().finite()
    &&& map.len() == order.len()
    &&& forall|j: int| 0 <= j < order.len() ==> #[trigger] indexed(map, order, entries, j)
    &&& forall|k: K| #[trigger]
        map.contains_key(k) ==> exists|j: int| #[trigger] key_at(map, order, entries, k, j)
}

/// The links of the list survive a change of the arena that keeps the links.
pub proof fn lemma_chain_frame<K, V>(
    order: Seq<usize>,
    a: Seq<Entry<K, V>>,
    b: Seq<Entry<K, V>>,
    head: Option<usize>,
    tail: Option<usize>,
)
    requires
        chain_ok(order, a, head, tail),
        live(order, b),
        a.len() <= b.len(),
        forall|j: int|
            0 <= j < order.len() ==> a[(#[trigger] order[j]) as int].prev == b[order[j] as int].prev
                && a[order[j] as int].next == b[order[j] as int].next,
    ensures
        chain_ok(order, b, head, tail),
{
    assert forall|j: int| 0 <= j < order.len() implies #[trigger] linked(order, b, j) by {
        assert(linked(order, a, j));
    }
}

/// Moving the entry at place `p` to the front of the list moves its pair to
/// the front of the listing; the map and the free list fit as before.
pub proof fn lemma_promote<K, V>(
    map: Map<K, usize>,
    free: Seq<usize>,
    order: Seq<usize>,
    a: Seq<Entry<K, V>>,
    b: Seq<Entry<K, V>>,
    p: int,
)
    requires
        live(order, a),
        distinct(order),
        index_ok(map, order, a),
        pool_ok(free, order, a.len()),
        same_payload(a, b, -1),
        0 <= p < order.len(),
    ensures
        live(seq![order[p]] + order.remove(p), b),
        index_ok(map, seq![order[p]] + order.remove(p), b),
        pool_ok(free, seq![order[p]] + order.remove(p), b.len()),
        listing(seq![order[p]] + order.remove(p), b) == seq![listing(order, a)[p]] + listing(
            order,
            a,
        ).remove(p),
{
    let o2 = seq![order[p]] + order.remove(p);
    let from = |q: int|
        if q == 0 {
            p
        } else if q <= p {
            q - 1
        } else {
            q
        };
    let to = |r: int|
        if r == p {
            0
        } else if r < p {
            r + 1
        } else {
            r
        };
    assert forall|q: int| 0 <= q < o2.len() implies o2[q] == order[from(q)] by {}
    assert forall|q: int| 0 <= q < o2.len() implies (#[trigger] o2[q]) < b.len() && b[o2[q] as int].val
        is Some by {
        assert(o2[q] == order[from(q)]);
    }
    assert forall|q: int| 0 <= q < o2.len() implies #[trigger] indexed(map, o2, b, q) by {
        assert(o2[q] == order[from(q)]);
        assert(indexed(map, order, a, from(q)));
    }
    assert forall|k: K| #[trigger] map.contains_key(k) implies exists|j: int| #[trigger]
        key_at(map, o2, b, k, j) by {
        let r = choose|r: int| key_at(map, order, a, k, r);
        assert(key_at(map, order, a, k, r));
        assert(o2[to(r)] == order[r]);
        assert(key_at(map, o2, b, k, to(r)));
    }
    assert forall|x: int, j: int| 0 <= x < free.len() && 0 <= j < o2.len() implies (
    #[trigger] free[x]) != (#[trigger] o2[j]) by {
        assert(o2[j] == order[from(j)]);
    }
    assert(listing(o2, b) =~= seq![listing(order, a)[p]] + listing(order, a).remove(p)) by {
        assert forall|q: int| 0 <= q < o2.len() implies listing(o2, b)[q] == (seq![
            listing(order, a)[p],
        ] + listing(order, a).remove(p))[q] by {
            assert(o2[q] == order[from(q)]);
        }
    }
}

/// Taking the entry at place `p` out of the list, its key out of the map and
/// its slot onto the free list takes its pair out of the listing.
pub proof fn lemma_unlink<K, V>(
    map: Map<K, usize>,
    free: Seq<usize>,
    order: Seq<usize>,
    a: Seq<Entry<K, V>>,
    b: Seq<Entry<K, V>>,
    p: int,
)
    requires
        live(order, a),
        distinct(order),
        index_ok(map, order, a),
        pool_ok(free, order, a.len()),
        0 <= p < order.len(),
        same_payload(a, b, order[p] as int),
    ensures
        live(order.remove(p), b),
        index_ok(map.remove(a[order[p] as int].key), order.remove(p), b),
        pool_ok(free.push(order[p]), order.remove(p), b.len()),
        listing(order.remove(p), b) == listing(order, a).remove(p),
        map.contains_key(a[order[p] as int].key),
        map[a[order[p] as int].key] == order[p],
{
    let o2 = order.remove(p);
    let gone = a[order[p] as int].key;
    let m2 = map.remove(gone);
    let f2 = free.push(order[p]);
    let from = |q: int|
        if q < p {
            q
        } else {
            q + 1
        };
    assert(indexed(map, order, a, p));
    assert forall|q: int| 0 <= q < o2.len() implies o2[q] == order[from(q)] && order[from(q)]
        != order[p] by {}
    assert forall|q: int| 0 <= q < o2.len() implies (#[trigger] o2[q]) < b.len() && b[o2[q] as int].val
        is Some by {
        assert(o2[q] == order[from(q)]);
    }
    assert forall|q: int| 0 <= q < o2.len() implies #[trigger] indexed(m2, o2, b, q) by {
        assert(o2[q] == order[from(q)]);
        assert(order[from(q)] != order[p]);
        assert(indexed(map, order, a, from(q)));
    }
    assert forall|k: K| #[trigger] m2.contains_key(k) implies exists|j: int| #[trigger]
        key_at(m2, o2, b, k, j) by {
        let r = choose|r: int| key_at(map, order, a, k, r);
        assert(key_at(map, order, a, k, r));
        assert(r != p);
        let q = if r < p {
            r
        } else {
            r - 1
        };
        assert(o2[q] == order[r]);
        assert(key_at(m2, o2, b, k, q));
    }
    assert forall|x: int, j: int| 0 <= x < f2.len() && 0 <= j < o2.len() implies (#[trigger] f2[x])
        != (#[trigger] o2[j]) by {
        assert(o2[j] == order[from(j)]);
        if x < free.len() {
            assert(f2[x] == free[x]);
        }
    }
    assert forall|x: int, y: int|
        0 <= x < f2.len() && 0 <= y < f2.len() && (#[trigger] f2[x]) == (
        #[trigger] f2[y]) implies x == y by {
        if x < free.len() {
            assert(f2[x] == free[x]);
        }
        if y < free.len() {
            assert(f2[y] == free[y]);
        }
    }
    assert forall|x: int| 0 <= x < f2.len() implies (#[trigger] f2[x]) < b.len() by {
        if x < free.len() {
            assert(f2[x] == free[x]);
        }
    }
    assert(listing(o2, b) =~= listing(order, a).remove(p)) by {
        assert forall|q: int| 0 <= q < o2.len() implies listing(o2, b)[q] == listing(
            order,
            a,
        ).remove(p)[q] by {
            assert(o2[q] == order[from(q)]);
        }
    }
}

/// Putting a new entry, in a slot that neither list holds, in front of the
/// list and its key into the map puts its pair in front of the listing.
pub proof fn lemma_link_new<K, V>(
    map: Map<K, usize>,
    free: Seq<usize>,
    order: Seq<usize>,
    a: Seq<Entry<K, V>>,
    b: Seq<Entry<K, V>>,
    slot: usize,
)
    requires
        live(order, a),
        distinct(order),
        index_ok(map, order, a),
        pool_ok(free, order, a.len()),
        a.len() <= b.len(),
        slot < b.len(),
        b[slot as int].val is Some,
        !map.contains_key(b[slot as int].key),
        forall|j: int| 0 <= j < order.len() ==> (#[trigger] order[j]) != slot,
        forall|x: int| 0 <= x < free.len() ==> (#[trigger] free[x]) != slot,
        forall|x: int|
            #![trigger a[x]]
            #![trigger b[x]]
            0 <= x < a.len() && x != slot ==> a[x].key == b[x].key && a[x].val == b[x].val,
    ensures
        live(seq![slot] + order, b),
        index_ok(map.insert(b[slot as int].key, slot), seq![slot] + order, b),
        pool_ok(free, seq![slot] + order, b.len()),
        listing(seq![slot] + order, b) == seq![(b[slot as int].key, b[slot as int].val->Some_0)]
            + listing(order, a),
{
    let o2 = seq![slot] + order;
    let key = b[slot as int].key;
    let m2 = map.insert(key, slot);
    assert forall|q: int| 0 < q < o2.len() implies o2[q] == order[q - 1] && order[q - 1]
        != slot by {}
    assert forall|q: int| 0 <= q < o2.len() implies (#[trigger] o2[q]) < b.len() && b[o2[q] as int].val
        is Some by {
        if q > 0 {
            assert(o2[q] == order[q - 1]);
        }
    }
    assert forall|q: int| 0 <= q < o2.len() implies #[trigger] indexed(m2, o2, b, q) by {
        if q > 0 {
            assert(o2[q] == order[q - 1]);
            assert(order[q - 1] != slot);
            assert(indexed(map, order, a, q - 1));
        }
    }
    assert forall|k: K| #[trigger] m2.contains_key(k) implies exists|j: int| #[trigger]
        key_at(m2, o2, b, k, j) by {
        if k == key {
            assert(key_at(m2, o2, b, k, 0));
        } else {
            let r = choose|r: int| key_at(map, order, a, k, r);
            assert(key_at(map, order, a, k, r));
            assert(o2[r + 1] == order[r]);
            assert(order[r] != slot);
            assert(key_at(m2, o2, b, k, r + 1));
        }
    }
    assert forall|x: int, j: int| 0 <= x < free.len() && 0 <= j < o2.len() implies (
    #[trigger] free[x]) != (#[trigger] o2[j]) by {
        if j > 0 {
            assert(o2[j] == order[j - 1]);
        }
    }
    assert(listing(o2, b) =~= seq![(key, b[slot as int].val->Some_0)] + listing(order, a)) by {
        assert forall|q: int| 0 <= q < o2.len() implies listing(o2, b)[q] == (seq![
            (key, b[slot as int].val->Some_0),
        ] + listing(order, a))[q] by {
            if q > 0 {
                assert(o2[q] == order[q - 1]);
            }
        }
    }
}

/// Giving the entry at the front of the list another value changes the
/// value of the first pair of the listing and nothing else.
pub proof fn lemma_set_front_value<K, V>(
    map: Map<K, usize>,
    free: Seq<usize>,
    order: Seq<usize>,
    a: Seq<Entry<K, V>>,
    b: Seq<Entry<K, V>>,
    head: Option<usize>,
    tail: Option<usize>,
)
    requires
        chain_ok(order, a, head, tail),
        index_ok(map, order, a),
        pool_ok(free, order, a.len()),
        order.len() > 0,
        same_payload(a, b, order[0] as int),
        same_links(a, b),
        b[order[0] as int].key == a[order[0] as int].key,
        b[order[0] as int].val is Some,
    ensures
        chain_ok(order, b, head, tail),
        index_ok(map, order, b),
        pool_ok(free, order, b.len()),
        listing(order, b) == listing(order, a).update(
            0,
            (a[order[0] as int].key, b[order[0] as int].val->Some_0),
        ),
{
    assert forall|q: int| 0 <= q < order.len() implies (#[trigger] order[q]) < b.len()
        && b[order[q] as int].val is Some by {}
    lemma_chain_frame(order, a, b, head, tail);
    assert forall|q: int| 0 <= q < order.len() implies #[trigger] indexed(map, order, b, q) by {
        assert(indexed(map, order, a, q));
    }
    assert forall|k: K| #[trigger] map.contains_key(k) implies exists|j: int| #[trigger]
        key_at(map, order, b, k, j) by {
        let r = choose|r: int| key_at(map, order, a, k, r);
        assert(key_at(map, order, a, k, r));
        assert(key_at(map, order, b, k, r));
    }
    assert(listing(order, b) =~= listing(order, a).update(
        0,
        (a[order[0] as int].key, b[order[0] as int].val->Some_0),
    )) by {
        assert forall|q: int| 0 <= q < order.len() implies listing(order, b)[q] == listing(
            order,
            a,
        ).update(0, (a[order[0] as int].key, b[order[0] as int].val->Some_0))[q] by {
            if q > 0 {
                assert(order[q] != order[0]);
            }
        }
    }
}

} // verus!
