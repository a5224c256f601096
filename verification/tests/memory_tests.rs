use cachebolt::memory::{CachedResponse, MemoryCache, get_memory_usage_kib};

fn response(body: &str) -> CachedResponse {
    CachedResponse {
        body: body.as_bytes().to_vec(),
        headers: vec![("content-type".into(), "text/plain".into())],
        inserted_at: 0,
    }
}

#[test]
fn test_cache_insertion_and_retrieval() {
    let mut cache = MemoryCache::new();
    let key = "test-key".to_string();
    let value = CachedResponse {
        body: b"hello world".to_vec(),
        headers: vec![("Content-Type".into(), "text/plain".into())],
        inserted_at: 0,
    };

    cache.load_into_memory(vec![(key.clone(), value)], 100);
    let retrieved = cache.get_from_memory(&key);

    assert!(retrieved.is_some(), "Cache should contain the key");
    let retrieved = retrieved.unwrap();
    assert_eq!(retrieved.body, b"hello world".to_vec());
    assert_eq!(
        retrieved.headers,
        vec![("Content-Type".to_string(), "text/plain".to_string())]
    );
}

#[test]
fn test_eviction_not_triggered_below_threshold() {
    let mut cache = MemoryCache::new();
    cache.load_into_memory(vec![("low-mem".to_string(), response("safe"))], 100);
    let initial_len = cache.len();
    cache.maybe_evict_if_needed(100);
    assert_eq!(cache.len(), initial_len);
}

#[test]
fn test_get_from_memory_none_if_not_found() {
    let mut cache = MemoryCache::new();
    let result = cache.get_from_memory("non-existent");
    assert!(result.is_none(), "Should return None if key not found");
}

#[test]
fn test_get_memory_usage_kib_has_values() {
    let (used, total) = get_memory_usage_kib();
    assert!(used > 0, "Used memory should be positive");
    assert!(total > 0, "Total memory should be positive");
    assert!(total >= used, "Total memory should be >= used memory");
}

#[test]
fn test_bulk_load_into_memory() {
    let mut cache = MemoryCache::new();
    let entries = vec![
        ("key-1".to_string(), response("value-1")),
        ("key-2".to_string(), response("value-2")),
    ];

    cache.load_into_memory(entries, 100);

    for (key, body) in [("key-1", "value-1"), ("key-2", "value-2")] {
        let cached = cache.get_from_memory(key);
        assert!(cached.is_some(), "Expected key '{}' to exist", key);
        let cached = cached.unwrap();
        assert_eq!(cached.body, body.as_bytes().to_vec(), "Body mismatch for key '{}'", key);
    }
}

#[test]
fn test_insert_overwrites_same_key() {
    let mut cache = MemoryCache::new();
    cache.load_into_memory(vec![("k".to_string(), response("first"))], 100);
    cache.load_into_memory(vec![("k".to_string(), response("second"))], 100);
    assert_eq!(cache.len(), 1);
    assert_eq!(cache.get_from_memory("k").unwrap().body, b"second".to_vec());
}

#[test]
fn test_clear_returns_prior_count() {
    let mut cache = MemoryCache::new();
    cache.load_into_memory(
        vec![
            ("a".to_string(), response("1")),
            ("b".to_string(), response("2")),
            ("c".to_string(), response("3")),
        ],
        100,
    );
    assert_eq!(cache.len(), 3);
    let count = cache.clear();
    assert_eq!(count, 3);
    assert_eq!(cache.len(), 0);
}

#[test]
fn test_zero_threshold_drains_cache() {
    let mut cache = MemoryCache::new();
    cache.load_into_memory(vec![("a".to_string(), response("1"))], 100);
    assert_eq!(cache.len(), 1);
    // At threshold 0 every sample is over threshold, so eviction drains the
    // tier to empty.
    cache.maybe_evict_if_needed(0);
    assert_eq!(cache.len(), 0);
}

#[test]
fn test_entries_report_most_recent_first() {
    let mut cache = MemoryCache::new();
    cache.load_into_memory(
        vec![("old".to_string(), response("1")), ("new".to_string(), response("2"))],
        100,
    );
    let entries = cache.entries();
    assert_eq!(entries.len(), 2);
    assert_eq!(entries[0].0, "new");
    assert_eq!(entries[1].0, "old");
}
