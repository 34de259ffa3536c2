use dup_finder::hash_cache::{format_cache_key, CacheEntry, HashCache};

fn entry(h: &str) -> CacheEntry {
    CacheEntry { hash: Some(h.to_string()), phash: None, vhash_frames: None }
}

#[test]
fn test_merge_batch() {
    let mut cache = HashCache::empty("/tmp/cache.json".to_string());
    let batch = vec![
        ("k1".to_string(), CacheEntry { hash: Some("h1".to_string()), phash: None, vhash_frames: None }),
        ("k2".to_string(), CacheEntry { hash: Some("h2".to_string()), phash: None, vhash_frames: None }),
    ];
    cache.merge_batch(batch);
    assert_eq!(cache.dirty_count(), 2);
    assert!(cache.get("k1").is_some());
}

#[test]
fn test_cache_key_format() {
    let key = format_cache_key("/tmp/file.txt", 5, 1_700_000_000);
    let parts: Vec<&str> = key.split('|').collect();
    assert_eq!(parts.len(), 3);
    assert_eq!(parts[1], "5");
    assert_eq!(key, "/tmp/file.txt|5|1700000000");
}

#[test]
fn insert_then_get_and_overwrite() {
    let mut cache = HashCache::empty("c.json".to_string());
    assert!(cache.is_empty());
    cache.insert("a".to_string(), entry("1"));
    cache.insert("b".to_string(), entry("2"));
    cache.insert("a".to_string(), entry("3"));
    assert_eq!(cache.len(), 2);
    assert_eq!(cache.dirty_count(), 3);
    assert_eq!(cache.get("a").unwrap().hash.as_deref(), Some("3"));
    assert_eq!(cache.get("b").unwrap().hash.as_deref(), Some("2"));
    assert!(cache.get("c").is_none());
    assert_eq!(cache.path(), "c.json");
}

#[test]
fn later_pair_of_a_batch_wins() {
    let mut cache = HashCache::empty("c.json".to_string());
    cache.insert("k".to_string(), entry("old"));
    cache.merge_batch(vec![("k".to_string(), entry("mid")), ("k".to_string(), entry("new"))]);
    assert_eq!(cache.get("k").unwrap().hash.as_deref(), Some("new"));
    assert_eq!(cache.len(), 1);
    assert_eq!(cache.dirty_count(), 3);
}

#[test]
fn flush_is_due_after_a_hundred_changes_or_thirty_seconds() {
    let mut cache = HashCache::empty("c.json".to_string());
    assert!(!cache.flush_if_needed(29));
    assert!(cache.flush_if_needed(30));
    let batch: Vec<(String, CacheEntry)> = (0..100).map(|i| (format!("k{}", i), entry("h"))).collect();
    cache.merge_batch(batch);
    assert!(cache.flush_if_needed(0));
    cache.mark_flushed();
    assert_eq!(cache.dirty_count(), 0);
    assert!(!cache.flush_if_needed(0));
    assert_eq!(cache.len(), 100);
    assert_eq!(cache.pairs().len(), 100);
}

#[test]
fn merge_equals_inserting_in_turn() {
    let batch = vec![
        ("k1".to_string(), entry("a")),
        ("k2".to_string(), entry("b")),
        ("k1".to_string(), entry("c")),
    ];
    let mut merged = HashCache::empty("c.json".to_string());
    merged.insert("k0".to_string(), entry("z"));
    let mut stepwise = HashCache::empty("c.json".to_string());
    stepwise.insert("k0".to_string(), entry("z"));
    merged.merge_batch(batch.clone());
    for (k, e) in batch {
        stepwise.insert(k, e);
    }
    assert_eq!(merged.len(), stepwise.len());
    assert_eq!(merged.len(), 3);
    assert_eq!(merged.dirty_count(), stepwise.dirty_count());
    assert_eq!(merged.dirty_count(), 4);
    for k in ["k0", "k1", "k2"] {
        assert_eq!(merged.get(k).and_then(|e| e.hash.clone()), stepwise.get(k).and_then(|e| e.hash.clone()));
    }
    assert_eq!(merged.get("k1").and_then(|e| e.hash.clone()).as_deref(), Some("c"));
}
