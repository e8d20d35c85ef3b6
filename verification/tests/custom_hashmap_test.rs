use custom_hashmap::{LRUCache, CACHE_SIZE};

#[test]
fn test_new() {
    let cache: LRUCache<i32, i32> = LRUCache::new(3);
    assert_eq!(cache.len(), 0);
    assert!(!cache.is_full());
}

#[test]
fn test_insert_and_get() {
    let mut cache = LRUCache::new(3);
    assert_eq!(cache.insert(1, 10), None);
    assert_eq!(cache.insert(2, 20), None);
    assert_eq!(cache.insert(3, 30), None);

    assert_eq!(cache.get(&1), Some(&10));
    assert_eq!(cache.get(&2), Some(&20));
    assert_eq!(cache.get(&3), Some(&30));
    assert_eq!(cache.get(&4), None);
}

#[test]
fn test_insert_update_existing_key() {
    let mut cache = LRUCache::new(3);
    assert_eq!(cache.insert(1, 10), None);
    assert_eq!(cache.insert(1, 100), Some(10));
    assert_eq!(cache.get(&1), Some(&100));
}

#[test]
fn test_lru_eviction() {
    let mut cache = LRUCache::new(2);

    cache.insert(1, 10);
    cache.insert(2, 20);

    // Both entries exist
    assert_eq!(cache.get(&1), Some(&10));
    assert_eq!(cache.get(&2), Some(&20));

    // Insert third entry, should evict key 1 (least recently used)
    cache.insert(3, 30);

    assert_eq!(cache.get(&1), None); // Evicted
    assert_eq!(cache.get(&2), Some(&20));
    assert_eq!(cache.get(&3), Some(&30));
}

#[test]
fn test_access_updates_lru() {
    let mut cache = LRUCache::new(2);
    cache.insert(1, 10);
    cache.insert(2, 20);
    cache.get(&1); // Access key 1, making it more recent
    cache.insert(3, 30);
    assert_eq!(cache.get(&1), Some(&10));
    assert_eq!(cache.get(&2), None); // Should be evicted
    assert_eq!(cache.get(&3), Some(&30));
}

#[test]
fn test_remove() {
    let mut cache = LRUCache::new(3);
    cache.insert(1, 10);
    cache.insert(2, 20);
    cache.insert(3, 30);

    assert_eq!(cache.remove(&2), Some(20));
    assert_eq!(cache.get(&2), None);
    assert_eq!(cache.len(), 2);

    assert_eq!(cache.remove(&99), None);
}

#[test]
fn test_contains() {
    let mut cache = LRUCache::new(3);
    cache.insert(1, 10);
    cache.insert(2, 20);

    assert!(cache.contains(&1));
    assert!(cache.contains(&2));
    assert!(!cache.contains(&3));
}

#[test]
fn test_len() {
    let mut cache = LRUCache::new(3);
    assert_eq!(cache.len(), 0);

    cache.insert(1, 10);
    assert_eq!(cache.len(), 1);

    cache.insert(2, 20);
    assert_eq!(cache.len(), 2);

    cache.remove(&1);
    assert_eq!(cache.len(), 1);
}

#[test]
fn test_is_full() {
    let mut cache = LRUCache::new(2);
    assert!(!cache.is_full());

    cache.insert(1, 10);
    assert!(!cache.is_full());

    cache.insert(2, 20);
    assert!(cache.is_full());

    cache.remove(&1);
    assert!(!cache.is_full());
}

#[test]
fn test_get_mut() {
    let mut cache = LRUCache::new(3);
    cache.insert(1, 10);

    if let Some(val) = cache.get_mut(&1) {
        *val = 100;
    }

    assert_eq!(cache.get(&1), Some(&100));
}

#[test]
fn test_string_keys() {
    let mut cache = LRUCache::new(3);
    cache.insert("foo".to_string(), 1);
    cache.insert("bar".to_string(), 2);

    assert_eq!(cache.get(&"foo".to_string()), Some(&1));
    assert_eq!(cache.get(&"bar".to_string()), Some(&2));
}

#[test]
fn test_capacity_of_one() {
    let mut cache = LRUCache::new(1);

    cache.insert(1, 10);
    assert_eq!(cache.get(&1), Some(&10));

    cache.insert(2, 20);
    assert_eq!(cache.get(&1), None);
    assert_eq!(cache.get(&2), Some(&20));
}

#[test]
fn test_empty() {
    let mut cache: LRUCache<i32, i32> = LRUCache::new(3);
    assert!(cache.empty());

    cache.insert(1, 10);
    assert!(!cache.empty());

    cache.remove(&1);
    assert!(cache.empty());
}

#[test]
fn test_chache_size() {
    assert_eq!(CACHE_SIZE, 128);
}
