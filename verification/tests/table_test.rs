use custom_hashmap::CustomHashMap;

#[test]
fn insert_then_get_gives_the_latest_value() {
    let mut map = CustomHashMap::new();
    assert!(map.is_empty());
    assert_eq!(map.insert(1u32, 10), None);
    assert_eq!(map.insert(2u32, 20), None);
    assert_eq!(map.insert(1u32, 11), Some(10));
    assert_eq!(map.insert(1u32, 12), Some(11));
    assert_eq!(map.get(&1), Some(&12));
    assert_eq!(map.get(&2), Some(&20));
    assert_eq!(map.get(&3), None);
    assert_eq!(map.len(), 2);
    assert!(!map.is_empty());
}

#[test]
fn tombstone_keeps_the_probe_chain() {
    // 1 and 17 start their probes at the same bucket of a 16-bucket table.
    let mut map = CustomHashMap::new();
    assert_eq!(map.insert(1u32, "one"), None);
    assert_eq!(map.insert(17u32, "seventeen"), None);
    assert_eq!(map.remove(&1), Some("one"));
    assert_eq!(map.get(&17), Some(&"seventeen"));
    assert_eq!(map.get(&1), None);
    assert!(!map.contains_key(&1));
    assert_eq!(map.len(), 1);
}

#[test]
fn insert_after_remove_finds_the_new_key_only() {
    let mut map = CustomHashMap::new();
    assert_eq!(map.insert(1u32, 10), None);
    assert_eq!(map.remove(&1), Some(10));
    assert_eq!(map.insert(17u32, 170), None);
    assert_eq!(map.get(&17), Some(&170));
    assert_eq!(map.get(&1), None);
    assert_eq!(map.len(), 1);
}

#[test]
fn key_behind_a_tombstone_is_updated_not_duplicated() {
    let mut map = CustomHashMap::new();
    map.insert(1u32, 10);
    map.insert(17u32, 170);
    map.insert(33u32, 330);
    assert_eq!(map.remove(&1), Some(10));
    assert_eq!(map.insert(33u32, 331), Some(330));
    assert_eq!(map.len(), 2);
    assert_eq!(map.remove(&33), Some(331));
    assert_eq!(map.get(&33), None);
    assert_eq!(map.len(), 1);
    assert_eq!(map.get(&17), Some(&170));
}

#[test]
fn growth_keeps_every_entry() {
    let mut map = CustomHashMap::new();
    for k in 0u32..1000 {
        assert_eq!(map.insert(k.wrapping_mul(7919), k), None);
        assert_eq!(map.len(), (k + 1) as usize);
    }
    for k in 0u32..1000 {
        assert_eq!(map.get(&k.wrapping_mul(7919)), Some(&k));
    }
    assert_eq!(map.get(&5), None);
}

#[test]
fn growth_at_three_quarters_of_sixteen() {
    let mut map = CustomHashMap::new();
    for k in 0u32..12 {
        map.insert(k * 16, k);
    }
    // the thirteenth insertion finds the table three quarters in use
    assert_eq!(map.insert(12 * 16, 12), None);
    for k in 0u32..13 {
        assert_eq!(map.get(&(k * 16)), Some(&k));
    }
    assert_eq!(map.len(), 13);
}

#[test]
fn tombstones_count_towards_growth() {
    let mut map = CustomHashMap::new();
    for round in 0u32..200 {
        assert_eq!(map.insert(round, round), None);
        assert_eq!(map.remove(&round), Some(round));
        assert_eq!(map.len(), 0);
    }
    for round in 0u32..200 {
        assert_eq!(map.get(&round), None);
    }
    assert_eq!(map.insert(7, 70), None);
    assert_eq!(map.get(&7), Some(&70));
}

#[test]
fn lookup_ends_in_a_table_without_empty_bucket() {
    let mut map = CustomHashMap::with_capacity(1);
    assert_eq!(map.insert(5u32, 50), None);
    assert_eq!(map.get(&6), None);
    assert_eq!(map.remove(&6), None);
    assert_eq!(map.remove(&5), Some(50));
    assert_eq!(map.get(&5), None);
    assert_eq!(map.insert(6u32, 60), None);
    assert_eq!(map.insert(5u32, 51), None);
    assert_eq!(map.get(&5), Some(&51));
    assert_eq!(map.get(&6), Some(&60));
    assert_eq!(map.len(), 2);
}

#[test]
fn table_capacity_zero_is_raised_to_one() {
    let mut map = CustomHashMap::with_capacity(0);
    assert!(map.is_empty());
    for k in 0u64..50 {
        assert_eq!(map.insert(k, k + 1), None);
    }
    for k in 0u64..50 {
        assert_eq!(map.get(&k), Some(&(k + 1)));
    }
    assert_eq!(map.len(), 50);
}

#[test]
fn probe_wraps_round_the_end() {
    let mut map = CustomHashMap::with_capacity(4);
    assert_eq!(map.insert(3u32, 'a'), None);
    assert_eq!(map.insert(7u32, 'b'), None);
    assert_eq!(map.get(&3), Some(&'a'));
    assert_eq!(map.get(&7), Some(&'b'));
    assert_eq!(map.remove(&3), Some('a'));
    assert_eq!(map.get(&7), Some(&'b'));
    assert_eq!(map.insert(11u32, 'c'), None);
    assert_eq!(map.get(&11), Some(&'c'));
    assert_eq!(map.get(&7), Some(&'b'));
}

#[test]
fn get_mut_changes_the_value() {
    let mut map = CustomHashMap::new();
    map.insert(4i64, 40);
    match map.get_mut(&4) {
        Some(v) => *v += 2,
        None => panic!("key 4 is in the table"),
    }
    assert!(map.get_mut(&5).is_none());
    assert_eq!(map.get(&4), Some(&42));
    assert_eq!(map.len(), 1);
}

#[test]
fn remove_returns_the_value_once() {
    let mut map = CustomHashMap::new();
    map.insert(-3i32, "x");
    assert!(map.contains_key(&-3));
    assert_eq!(map.remove(&-3), Some("x"));
    assert_eq!(map.remove(&-3), None);
    assert!(!map.contains_key(&-3));
    assert!(map.is_empty());
}

#[test]
fn string_keys_are_placed_by_their_digest() {
    // "hello" and "hexxlo" have the same digest.
    let mut map = CustomHashMap::new();
    assert_eq!(map.insert("hello".to_string(), 1), None);
    assert_eq!(map.insert("hexxlo".to_string(), 2), None);
    assert_eq!(map.insert("ab".to_string(), 3), None);
    assert_eq!(map.insert("c".to_string(), 4), None);
    assert_eq!(map.get(&"hello".to_string()), Some(&1));
    assert_eq!(map.get(&"hexxlo".to_string()), Some(&2));
    assert_eq!(map.get(&"ab".to_string()), Some(&3));
    assert_eq!(map.get(&"c".to_string()), Some(&4));
    assert_eq!(map.remove(&"hello".to_string()), Some(1));
    assert_eq!(map.get(&"hexxlo".to_string()), Some(&2));
    assert_eq!(map.len(), 3);
}

#[test]
fn clone_holds_the_same_entries() {
    let mut map = CustomHashMap::new();
    for k in 0usize..40 {
        map.insert(k, k * 3);
    }
    map.remove(&7);
    let mut copy = map.clone();
    assert_eq!(copy.len(), 39);
    for k in 0usize..40 {
        assert_eq!(copy.get(&k), map.get(&k));
    }
    copy.insert(7, 0);
    assert_eq!(copy.get(&7), Some(&0));
    assert_eq!(map.get(&7), None);
    assert_eq!(map.len(), 39);
}

#[test]
fn default_is_an_empty_table() {
    let mut map: CustomHashMap<isize, u8> = Default::default();
    assert!(map.is_empty());
    assert_eq!(map.len(), 0);
    assert_eq!(map.get(&0), None);
    assert_eq!(map.insert(-1, 1), None);
    assert_eq!(map.get(&-1), Some(&1));
}

#[test]
fn clone_of_a_table_with_tombstones_holds_the_live_entries() {
    let mut map = CustomHashMap::with_capacity(8);
    for k in 0u32..5 {
        map.insert(k * 8, k);
    }
    assert_eq!(map.remove(&0), Some(0));
    assert_eq!(map.remove(&16), Some(2));
    let mut copy = map.clone();
    assert_eq!(copy.len(), 3);
    assert_eq!(copy.get(&0), None);
    assert_eq!(copy.get(&8), Some(&1));
    assert_eq!(copy.get(&16), None);
    assert_eq!(copy.get(&24), Some(&3));
    assert_eq!(copy.get(&32), Some(&4));
    assert_eq!(copy.insert(16, 20), None);
    assert_eq!(copy.get(&16), Some(&20));
    assert_eq!(map.get(&16), None);
    assert_eq!(map.len(), 3);
}
