use rust_tools::collections::lru_cache::{CacheError, LruCache};

#[test]
fn test_zero_capacity_is_rejected() {
    let r: Result<LruCache<u64, String>, CacheError> = LruCache::new(0);
    assert!(matches!(r, Err(CacheError::InvalidCapacity)));
    assert!(LruCache::<u64, String>::new(1).is_ok());
}

#[test]
fn test_lru_scenario_capacity_two() {
    let mut cache: LruCache<i32, String> = LruCache::new(2).unwrap();
    cache.put(1, "a".to_string());
    cache.put(2, "b".to_string());
    assert_eq!(cache.len(), 2);

    assert_eq!(cache.get(1), Some(&"a".to_string()));

    cache.put(3, "c".to_string());
    assert_eq!(cache.get(2), None);
    assert_eq!(cache.get(3), Some(&"c".to_string()));
    assert_eq!(cache.get(1), Some(&"a".to_string()));
}

#[test]
fn test_put_then_get_round_trip() {
    let mut cache: LruCache<u32, u32> = LruCache::new(3).unwrap();
    cache.put(10, 100);
    assert_eq!(cache.get(10), Some(&100));
    cache.put(10, 200);
    assert_eq!(cache.get(10), Some(&200));
}

#[test]
fn test_len_never_exceeds_cap() {
    let mut cache: LruCache<u32, u32> = LruCache::new(3).unwrap();
    for k in 0..10u32 {
        cache.put(k, k);
        assert!(cache.len() <= cache.cap());
    }
    assert_eq!(cache.len(), 3);
    assert_eq!(cache.cap(), 3);
}

#[test]
fn test_reinsert_keeps_len() {
    let mut cache: LruCache<u8, u8> = LruCache::new(2).unwrap();
    cache.put(1, 1);
    let len_after_first = cache.len();
    cache.put(1, 1);
    assert_eq!(cache.len(), len_after_first);
}

#[test]
fn test_eviction_removes_first_key() {
    let mut cache: LruCache<u32, u32> = LruCache::new(3).unwrap();
    cache.put(1, 11);
    cache.put(2, 22);
    cache.put(3, 33);
    cache.put(4, 44);
    assert_eq!(cache.get(1), None);
    assert_eq!(cache.get(2), Some(&22));
    assert_eq!(cache.get(3), Some(&33));
    assert_eq!(cache.get(4), Some(&44));
}

#[test]
fn test_get_protects_from_eviction() {
    let mut cache: LruCache<u32, &str> = LruCache::new(2).unwrap();
    cache.put(1, "one");
    cache.put(2, "two");
    // without the get, key 1 would be evicted next; the get refreshes it
    assert_eq!(cache.get(1), Some(&"one"));
    cache.put(3, "three");
    assert_eq!(cache.get(1), Some(&"one"));
    assert_eq!(cache.get(2), None);
}

#[test]
fn test_overwrite_refreshes_recency() {
    let mut cache: LruCache<u32, u32> = LruCache::new(2).unwrap();
    cache.put(1, 1);
    cache.put(2, 2);
    cache.put(1, 10);
    cache.put(3, 3);
    // key 2 was least recently touched and went away
    assert_eq!(cache.get(2), None);
    assert_eq!(cache.get(1), Some(&10));
    assert_eq!(cache.get(3), Some(&3));
}

#[test]
fn test_capacity_one() {
    let mut cache: LruCache<u8, u8> = LruCache::new(1).unwrap();
    cache.put(1, 1);
    cache.put(2, 2);
    assert_eq!(cache.get(1), None);
    assert_eq!(cache.get(2), Some(&2));
    assert_eq!(cache.len(), 1);
}
