use cachebolt::admin::{get_memory_cache_status, CacheEntry};
use cachebolt::eviction::eviction_tick;
use cachebolt::memory::{CachedResponse, MemoryCache};
use cachebolt::proxy::PersistJob;
use cachebolt::queue::{PersistenceQueue, PERSIST_QUEUE_CAPACITY};

fn env(body: &str, inserted_at: u64) -> CachedResponse {
    CachedResponse { body: body.as_bytes().to_vec(), headers: vec![], inserted_at }
}

fn job(key: &str) -> PersistJob {
    PersistJob { key: key.to_string(), body: b"b".to_vec(), headers: vec![] }
}

#[test]
fn test_eviction_tick_reports_current_percentage() {
    let mut cache = MemoryCache::new();
    let pct = eviction_tick(&mut cache, 400, 1000, 0, 100);
    assert_eq!(pct, 40);
}

#[test]
fn test_eviction_tick_skips_eviction_when_usage_fell() {
    let mut cache = MemoryCache::new();
    cache.load_into_memory(vec![("k".to_string(), env("v", 0))], 100);
    // Usage fell from 60% to 40%: the tick must not touch the tier even at a
    // zero threshold.
    let pct = eviction_tick(&mut cache, 400, 1000, 60, 0);
    assert_eq!(pct, 40);
    assert_eq!(cache.len(), 1);
}

#[test]
fn test_eviction_tick_evicts_on_rising_pressure() {
    let mut cache = MemoryCache::new();
    cache.load_into_memory(vec![("k".to_string(), env("v", 0))], 100);
    // Usage rose from 40% to 90% and the threshold is 0: the pass drains the
    // tier.
    let pct = eviction_tick(&mut cache, 900, 1000, 40, 0);
    assert_eq!(pct, 90);
    assert_eq!(cache.len(), 0);
}

#[test]
fn test_persistence_queue_fifo() {
    let mut q = PersistenceQueue::new();
    assert!(q.try_send(job("a")));
    assert!(q.try_send(job("b")));
    assert_eq!(q.len(), 2);
    assert_eq!(q.pop_front().unwrap().key, "a");
    assert_eq!(q.pop_front().unwrap().key, "b");
    assert!(q.pop_front().is_none());
}

#[test]
fn test_persistence_queue_drops_when_full() {
    let mut q = PersistenceQueue::new();
    for i in 0..PERSIST_QUEUE_CAPACITY {
        assert!(q.try_send(job(&format!("k{i}"))), "send {i} fits the bound");
    }
    assert!(!q.try_send(job("overflow")), "a full queue drops the job");
    assert_eq!(q.len(), PERSIST_QUEUE_CAPACITY);
    assert_eq!(q.pop_front().unwrap().key, "k0");
}

#[test]
fn test_memory_cache_status_reports_ttl() {
    let mut cache = MemoryCache::new();
    cache.load_into_memory(vec![("f".to_string(), env("abcd", 100))], 100);

    let status: Vec<(String, CacheEntry)> = get_memory_cache_status(&cache, 160, 300);
    assert_eq!(status.len(), 1);
    assert_eq!(status[0].0, "f");
    assert_eq!(status[0].1.inserted_at, 100);
    assert_eq!(status[0].1.size_bytes, 4);
    assert_eq!(status[0].1.ttl_remaining_secs, 240);
}

#[test]
fn test_memory_cache_status_ttl_floors_at_zero() {
    let mut cache = MemoryCache::new();
    cache.load_into_memory(vec![("f".to_string(), env("x", 0))], 100);
    let status = get_memory_cache_status(&cache, 10_000, 300);
    assert_eq!(status[0].1.ttl_remaining_secs, 0);
}
