use dfdaemon_core::lru_cache::LruCache;

#[test]
fn eviction_order() {
    let mut cache = LruCache::new(2);
    assert_eq!(cache.put("a".to_string(), 1), None);
    assert_eq!(cache.put("b".to_string(), 2), None);
    assert_eq!(cache.put("c".to_string(), 3), None);
    assert_eq!(cache.pop_lru(), Some(("b".to_string(), 2)));
    assert!(!cache.is_empty());
    assert_eq!(cache.pop_lru(), Some(("c".to_string(), 3)));
    assert!(cache.is_empty());
    assert_eq!(cache.pop_lru(), None);
}

#[test]
fn promote_by_get() {
    let mut cache = LruCache::new(2);
    cache.put("a".to_string(), 1);
    cache.put("b".to_string(), 2);
    assert_eq!(cache.get(&"a".to_string()), Some(1));
    cache.put("c".to_string(), 3);
    assert!(!cache.contains(&"b".to_string()));
    assert!(cache.contains(&"a".to_string()));
    assert!(cache.contains(&"c".to_string()));
}

#[test]
fn capacity_bound_under_many_puts() {
    let mut cache = LruCache::new(3);
    for i in 0..100u64 {
        cache.put(format!("key{}", i), i);
        assert!(cache.len() <= 3);
    }
    assert_eq!(cache.len(), 3);
}

#[test]
fn peek_does_not_reorder() {
    let mut cache = LruCache::new(2);
    cache.put("a".to_string(), 1);
    cache.put("b".to_string(), 2);
    assert_eq!(cache.peek(&"a".to_string()), Some(1));
    assert_eq!(cache.pop_lru(), Some(("a".to_string(), 1)));
}

#[test]
fn get_does_reorder() {
    let mut cache = LruCache::new(2);
    cache.put("a".to_string(), 1);
    cache.put("b".to_string(), 2);
    assert_eq!(cache.get(&"a".to_string()), Some(1));
    assert_eq!(cache.pop_lru(), Some(("b".to_string(), 2)));
}

#[test]
fn replace_keeps_len_and_updates_weight() {
    let mut cache = LruCache::new(4);
    cache.put("k".to_string(), 10);
    cache.put("x".to_string(), 11);
    let len_before = cache.len();
    assert_eq!(cache.put("k".to_string(), 20), Some(10));
    assert_eq!(cache.len(), len_before);
    assert_eq!(cache.get(&"k".to_string()), Some(20));
}

#[test]
fn replace_does_not_evict() {
    let mut cache = LruCache::new(2);
    cache.put("a".to_string(), 1);
    cache.put("b".to_string(), 2);
    cache.put("a".to_string(), 9);
    assert!(cache.contains(&"a".to_string()));
    assert!(cache.contains(&"b".to_string()));
    assert_eq!(cache.len(), 2);
}

#[test]
fn zero_weight_put_is_legal() {
    let mut cache = LruCache::new(1);
    cache.put("z".to_string(), 0);
    assert_eq!(cache.peek(&"z".to_string()), Some(0));
    assert_eq!(cache.pop_lru(), Some(("z".to_string(), 0)));
}

#[test]
fn miss_returns_none_and_keeps_state() {
    let mut cache = LruCache::new(2);
    cache.put("a".to_string(), 1);
    assert_eq!(cache.get(&"nope".to_string()), None);
    assert_eq!(cache.peek(&"nope".to_string()), None);
    assert!(!cache.contains(&"nope".to_string()));
    assert_eq!(cache.len(), 1);
    assert_eq!(cache.capacity(), 2);
}
