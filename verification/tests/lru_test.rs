use custom_hashmap::LRUCache;

#[test]
fn eviction_follows_recency() {
    let mut cache = LRUCache::new(2);
    assert_eq!(cache.insert(1, 10), None);
    assert_eq!(cache.insert(2, 20), None);
    assert_eq!(cache.get(&1), Some(&10));
    assert_eq!(cache.insert(3, 30), None);
    assert!(!cache.contains(&2));
    assert_eq!(cache.len(), 2);
    assert_eq!(cache.get(&1), Some(&10));
    assert_eq!(cache.get(&3), Some(&30));
}

#[test]
fn update_in_place_keeps_length() {
    let mut cache = LRUCache::new(4);
    assert_eq!(cache.insert(1, 10), None);
    assert_eq!(cache.insert(1, 100), Some(10));
    assert_eq!(cache.len(), 1);
    assert_eq!(cache.get(&1), Some(&100));
    assert_eq!(cache.len(), 1);
}

#[test]
fn update_promotes_the_entry() {
    let mut cache = LRUCache::new(2);
    cache.insert(1, 10);
    cache.insert(2, 20);
    assert_eq!(cache.insert(1, 11), Some(10));
    cache.insert(3, 30);
    assert!(cache.contains(&1));
    assert!(!cache.contains(&2));
    assert!(cache.contains(&3));
}

#[test]
fn capacity_one_keeps_the_newest() {
    let mut cache = LRUCache::new(1);
    assert_eq!(cache.insert(1, 10), None);
    assert!(cache.is_full());
    assert_eq!(cache.insert(2, 20), None);
    assert_eq!(cache.len(), 1);
    assert_eq!(cache.get(&1), None);
    assert_eq!(cache.get(&2), Some(&20));
    assert_eq!(cache.insert(2, 21), Some(20));
    assert_eq!(cache.get(&2), Some(&21));
}

#[test]
fn cache_capacity_zero_is_raised_to_one() {
    let mut cache = LRUCache::new(0);
    assert!(!cache.is_full());
    assert_eq!(cache.insert(1, 10), None);
    assert!(cache.is_full());
    assert_eq!(cache.insert(2, 20), None);
    assert_eq!(cache.len(), 1);
    assert!(!cache.contains(&1));
    assert_eq!(cache.get(&2), Some(&20));
}

#[test]
fn contains_does_not_promote() {
    let mut cache = LRUCache::new(2);
    cache.insert(1, 10);
    cache.insert(2, 20);
    assert!(cache.contains(&1));
    assert!(cache.contains(&1));
    assert!(cache.contains(&1));
    cache.insert(3, 30);
    assert!(!cache.contains(&1));
    assert_eq!(cache.get(&2), Some(&20));
    assert_eq!(cache.get(&3), Some(&30));
}

#[test]
fn contains_between_gets_changes_nothing() {
    let mut plain = LRUCache::new(3);
    let mut probed = LRUCache::new(3);
    for k in 1..=3 {
        plain.insert(k, k * 10);
        probed.insert(k, k * 10);
    }
    assert!(probed.contains(&1));
    assert!(!probed.contains(&9));
    assert_eq!(plain.get(&2), Some(&20));
    assert_eq!(probed.get(&2), Some(&20));
    assert!(probed.contains(&3));
    plain.insert(4, 40);
    probed.insert(4, 40);
    for k in 1..=4 {
        assert_eq!(plain.contains(&k), probed.contains(&k));
    }
    assert!(!probed.contains(&1));
}

#[test]
fn removing_the_middle_keeps_the_neighbours() {
    let mut cache = LRUCache::new(3);
    cache.insert(1, 10);
    cache.insert(2, 20);
    cache.insert(3, 30);
    assert_eq!(cache.remove(&2), Some(20));
    assert_eq!(cache.len(), 2);
    // 3 is still more recent than 1: two new keys evict 1 first, then 3.
    cache.insert(4, 40);
    assert!(cache.contains(&1));
    assert!(cache.contains(&3));
    cache.insert(5, 50);
    assert!(!cache.contains(&1));
    assert!(cache.contains(&3));
    assert_eq!(cache.get(&3), Some(&30));
    cache.insert(6, 60);
    assert!(!cache.contains(&4));
    assert_eq!(cache.get(&3), Some(&30));
}

#[test]
fn removing_head_tail_and_last_entry() {
    let mut cache = LRUCache::new(3);
    cache.insert(1, 10);
    cache.insert(2, 20);
    cache.insert(3, 30);
    assert_eq!(cache.remove(&3), Some(30));
    assert_eq!(cache.remove(&1), Some(10));
    assert_eq!(cache.len(), 1);
    assert_eq!(cache.get(&2), Some(&20));
    assert_eq!(cache.remove(&2), Some(20));
    assert!(cache.is_empty());
    assert!(cache.empty());
    assert_eq!(cache.remove(&2), None);
    assert_eq!(cache.get(&2), None);
    assert_eq!(cache.insert(7, 70), None);
    assert_eq!(cache.get(&7), Some(&70));
}

#[test]
fn promoting_the_head_is_a_no_op() {
    let mut cache = LRUCache::new(2);
    cache.insert(1, 10);
    cache.insert(2, 20);
    assert_eq!(cache.get(&2), Some(&20));
    assert_eq!(cache.get(&2), Some(&20));
    cache.insert(3, 30);
    assert!(!cache.contains(&1));
    assert!(cache.contains(&2));
}

#[test]
fn promoting_the_tail_and_the_middle() {
    let mut cache = LRUCache::new(3);
    cache.insert(1, 10);
    cache.insert(2, 20);
    cache.insert(3, 30);
    assert_eq!(cache.get(&1), Some(&10));
    assert_eq!(cache.get(&3), Some(&30));
    // order is now 3, 1, 2
    cache.insert(4, 40);
    assert!(!cache.contains(&2));
    cache.insert(5, 50);
    assert!(!cache.contains(&1));
    cache.insert(6, 60);
    assert!(!cache.contains(&3));
    assert_eq!(cache.len(), 3);
}

#[test]
fn get_mut_changes_the_value_and_promotes() {
    let mut cache = LRUCache::new(2);
    cache.insert(1, 10);
    cache.insert(2, 20);
    match cache.get_mut(&1) {
        Some(v) => {
            assert_eq!(*v, 10);
            *v += 5;
        }
        None => panic!("key 1 is in the cache"),
    }
    assert!(cache.get_mut(&9).is_none());
    cache.insert(3, 30);
    assert!(!cache.contains(&2));
    assert_eq!(cache.get(&1), Some(&15));
}

#[test]
fn slots_are_reused_over_many_cycles() {
    let mut cache = LRUCache::new(3);
    for round in 0..1000 {
        assert_eq!(cache.insert(round, round * 2), None);
        if round % 3 == 0 {
            assert_eq!(cache.remove(&round), Some(round * 2));
        }
        assert!(cache.len() <= 3);
    }
    // every third key left again: the two keys before the last one remain
    assert_eq!(cache.len(), 2);
    assert_eq!(cache.get(&998), Some(&1996));
    assert_eq!(cache.get(&997), Some(&1994));
    assert_eq!(cache.get(&995), None);
    assert_eq!(cache.get(&999), None);
}

#[test]
fn string_keys_are_evicted_like_any_other() {
    let mut cache = LRUCache::new(2);
    cache.insert("a".to_string(), 1);
    cache.insert("b".to_string(), 2);
    cache.insert("c".to_string(), 3);
    assert!(!cache.contains(&"a".to_string()));
    assert_eq!(cache.get(&"b".to_string()), Some(&2));
    assert_eq!(cache.remove(&"c".to_string()), Some(3));
    assert_eq!(cache.len(), 1);
}
