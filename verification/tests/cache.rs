//! Cache behavior under a simulated clock: basic reads and writes, expiry,
//! and the capacity bound.

use prism_cache::cache::Cache;
use prism_cache::config::CacheConfig;
use prism_cache::record::Record;
use prism_cache::record::RecordValue;

fn record(name: &str) -> Record {
    let mut rec = Record::new();
    rec.insert("name".to_string(), RecordValue::Json(format!("\"{}\"", name)));
    rec
}

#[test]
fn test_basic_cache_operations() {
    let config = CacheConfig { max_entries: 100, ttl_seconds: 60 };
    let mut cache = Cache::new(config);

    let mut data = Record::new();
    data.insert(
        "name".to_string(),
        RecordValue::Json("\"Test User\"".to_string()),
    );
    data.insert(
        "email".to_string(),
        RecordValue::Json("\"test@example.com\"".to_string()),
    );

    cache.set("users", "1", &data, 0);

    assert!(cache.has_entry("users", "1", 0));
    assert!(!cache.has_entry("users", "2", 0));

    let result = cache.get("users", "1", 0).unwrap();
    assert_eq!(
        result.get(&"name".to_string()).unwrap().to_text(),
        "\"Test User\""
    );
    assert_eq!(
        result.get(&"email".to_string()).unwrap().to_text(),
        "\"test@example.com\""
    );
}

#[test]
fn test_cache_expiration() {
    let config = CacheConfig { max_entries: 100, ttl_seconds: 1 };
    let mut cache = Cache::new(config);

    cache.set("users", "1", &record("Test User"), 0);
    assert!(cache.has_entry("users", "1", 0));

    // Two seconds later the entry's time-to-live has passed.
    assert!(!cache.has_entry("users", "1", 2));
    assert!(cache.get("users", "1", 2).is_none());
}

#[test]
fn entry_expires_exactly_at_write_time_plus_ttl() {
    let mut cache = Cache::new(CacheConfig { max_entries: 10, ttl_seconds: 5 });
    cache.set("users", "1", &record("a"), 100);
    assert!(cache.get("users", "1", 104).is_some());
    // At the write time plus the TTL the entry no longer counts as a hit.
    assert!(cache.get("users", "1", 105).is_none());
}

#[test]
fn capacity_bound_evicts_least_recently_used() {
    let mut cache = Cache::new(CacheConfig { max_entries: 2, ttl_seconds: 60 });
    cache.set("users", "1", &record("a"), 0);
    cache.set("users", "2", &record("b"), 1);
    // Reading key 1 makes it the most recently used.
    assert!(cache.get("users", "1", 2).is_some());
    // The third write exceeds the capacity: key 2, least recently used, leaves.
    cache.set("users", "3", &record("c"), 3);
    assert!(cache.has_entry("users", "1", 4));
    assert!(!cache.has_entry("users", "2", 4));
    assert!(cache.has_entry("users", "3", 4));
}

#[test]
fn rewrite_refreshes_expiry() {
    let mut cache = Cache::new(CacheConfig { max_entries: 10, ttl_seconds: 10 });
    cache.set("users", "1", &record("a"), 0);
    // Re-populated at 8, the entry now expires at 18, not at 10.
    cache.set("users", "1", &record("a"), 8);
    assert!(cache.has_entry("users", "1", 15));
    assert!(!cache.has_entry("users", "1", 18));
}

#[test]
fn evict_entries_drops_only_expired_entries() {
    let mut cache = Cache::new(CacheConfig { max_entries: 10, ttl_seconds: 10 });
    cache.set("users", "1", &record("a"), 0);
    cache.set("users", "2", &record("b"), 5);
    cache.evict_entries(12);
    assert!(!cache.has_entry("users", "1", 12));
    assert!(cache.has_entry("users", "2", 12));
}
