use dns_rs::dns::cache::{ResponseCache, NANOS_PER_SECOND};

const A: u16 = 1;
const IN: u16 = 1;

#[test]
fn evicts_least_recently_used_entry_when_full() {
    let mut cache = ResponseCache::new(true, 64);
    cache.insert("a.", A, IN, 60, &vec![1; 24], 0);
    cache.insert("b.", A, IN, 60, &vec![2; 24], 0);

    assert!(cache.get("a.", A, IN, 1).is_some());

    cache.insert("c.", A, IN, 60, &vec![3; 24], 2);

    assert!(cache.get("a.", A, IN, 3).is_some(), "recently-touched entry should survive eviction");
    assert!(cache.get("c.", A, IN, 3).is_some(), "newly-inserted entry should be present");
    assert!(cache.get("b.", A, IN, 3).is_none(), "least-recently-used entry should have been evicted");
}

#[test]
fn zero_max_size_bytes_disables_caching_instead_of_panicking() {
    let mut cache = ResponseCache::new(true, 0);
    cache.insert("a.", A, IN, 60, &vec![1], 0);
    assert!(cache.get("a.", A, IN, 0).is_none());
}

#[test]
fn tiny_max_size_bytes_disables_caching_instead_of_panicking() {
    let mut cache = ResponseCache::new(true, 4);
    cache.insert("a.", A, IN, 60, &vec![1], 0);
    assert!(cache.get("a.", A, IN, 0).is_none());
}

#[test]
fn entry_larger_than_the_whole_pool_is_not_cached() {
    let mut cache = ResponseCache::new(true, 256);
    cache.insert("a.", A, IN, 60, &vec![0; 10_000], 0);
    assert!(cache.get("a.", A, IN, 0).is_none());
}

#[test]
fn name_longer_than_255_bytes_is_not_cached() {
    let mut cache = ResponseCache::new(true, 4096);
    let long_name = "a".repeat(256);
    cache.insert(&long_name, A, IN, 60, &vec![1], 0);
    assert!(cache.get(&long_name, A, IN, 0).is_none());
    let name = "a".repeat(255);
    cache.insert(&name, A, IN, 60, &vec![1], 0);
    assert!(cache.get(&name, A, IN, 0).is_some());
}

#[test]
fn reinserting_an_existing_key_reuses_its_space_without_evicting_others() {
    let mut cache = ResponseCache::new(true, 256);
    cache.insert("a.", A, IN, 60, &vec![1; 8], 0);
    cache.insert("b.", A, IN, 60, &vec![2; 8], 0);

    cache.insert("a.", A, IN, 60, &vec![9, 9], 0);

    assert_eq!(cache.get("a.", A, IN, 0), Some(vec![9, 9]));
    assert!(cache.get("b.", A, IN, 0).is_some(), "updating an existing key must not evict an unrelated entry");
}

#[test]
fn differently_sized_entries_each_use_only_the_space_they_need() {
    let mut cache = ResponseCache::new(true, 4096);
    cache.insert("big.", A, IN, 60, &vec![0; 2000], 0);
    for i in 0..10 {
        cache.insert(&format!("small{i}."), A, IN, 60, &vec![i as u8; 4], 0);
    }

    assert!(cache.get("big.", A, IN, 0).is_some(), "large entry should still be cached alongside many small ones");
    for i in 0..10 {
        assert!(cache.get(&format!("small{i}."), A, IN, 0).is_some(), "small entry {i} should still be cached");
    }
}

#[test]
fn pool_is_preallocated_up_front_regardless_of_how_many_entries_are_live() {
    let cache = ResponseCache::new(true, 4096);
    assert_eq!(cache.pool_len(), 4096, "the whole pool must be allocated at construction, not grown per insert");
}

#[test]
fn evict_expired_reclaims_only_expired_entries_and_frees_their_space() {
    let mut cache = ResponseCache::new(true, 4096);
    cache.insert("expired.", A, IN, 0, &vec![1; 8], 0);
    cache.insert("live.", A, IN, 3600, &vec![2; 8], 0);
    let later = 5_000_000;

    cache.evict_expired(later);

    assert!(!cache.contains("expired.", A, IN));
    assert!(cache.contains("live.", A, IN));
    assert!(cache.get("live.", A, IN, later).is_some(), "unexpired entry must survive a sweep");

    cache.insert("reuse.", A, IN, 60, &vec![3; 8], later);
    assert!(cache.get("reuse.", A, IN, later).is_some());
}

#[test]
fn high_churn_concurrent_insert_get_evict_does_not_corrupt_the_pool() {
    const POOL_BYTES: u64 = 64 * 1024;
    const WORKERS: usize = 8;
    const OPS_PER_WORKER: usize = 5_000;

    let mut cache = ResponseCache::new(true, POOL_BYTES);
    let mut seed: u64 = 1;
    let mut random = move |n: u64| {
        seed = seed.wrapping_mul(6364136223846793005).wrapping_add(1442695040888963407);
        (seed >> 33) % n
    };
    let mut now: u64 = 0;
    for i in 0..WORKERS * OPS_PER_WORKER {
        let name = format!("churn-{}.example.", random(200));
        let size = 8 + random(512) as usize;
        let ttl = 1 + random(5) as u32;
        let wire = vec![(i % 256) as u8; size];
        cache.insert(&name, A, IN, ttl, &wire, now);
        assert_eq!(cache.get(&name, A, IN, now), Some(wire));
        if i % 137 == 0 {
            cache.evict_expired(now);
        }
        now += NANOS_PER_SECOND / 100;
    }
    cache.evict_expired(now);
    assert_eq!(cache.pool_len(), POOL_BYTES as usize, "the preallocated pool must never grow or move");
    let mut seen = Vec::new();
    for key in cache.keys_by_use() {
        let name = key.name.as_str().to_string();
        assert!(cache.contains(&name, key.qtype, key.qclass), "LRU list must only reference live entries");
        assert!(!seen.contains(&name), "LRU list must not contain a cycle");
        seen.push(name);
    }
    let mut live = 0;
    for i in 0..200 {
        let name = format!("churn-{i}.example.");
        let held = cache.contains(&name, A, IN);
        let got = cache.get(&name, A, IN, now);
        assert_eq!(held, got.is_some(), "what survives a sweep must be served");
        assert_eq!(held, seen.contains(&name), "LRU list must reach every live entry exactly once");
        if let Some(bytes) = got {
            live += 1;
            assert!(bytes.iter().all(|b| *b == bytes[0]), "a response must keep its own bytes");
        }
    }
    assert!(live > 0);
    assert_eq!(live, seen.len());
}

#[test]
fn a_response_expires_exactly_at_the_end_of_its_time_to_live() {
    let mut cache = ResponseCache::new(true, 4096);
    cache.insert("a.", A, IN, 2, &vec![1, 2, 3], 10);
    assert_eq!(cache.get("a.", A, IN, 2 * NANOS_PER_SECOND + 9), Some(vec![1, 2, 3]));
    assert_eq!(cache.get("a.", A, IN, 2 * NANOS_PER_SECOND + 10), None);
    assert!(!cache.contains("a.", A, IN), "looking up an expired entry evicts it");
}

#[test]
fn type_and_class_are_part_of_the_key() {
    let mut cache = ResponseCache::new(true, 4096);
    cache.insert("a.", 1, 1, 60, &vec![1], 0);
    cache.insert("a.", 28, 1, 60, &vec![2], 0);
    cache.insert("a.", 1, 3, 60, &vec![3], 0);
    assert_eq!(cache.get("a.", 1, 1, 0), Some(vec![1]));
    assert_eq!(cache.get("a.", 28, 1, 0), Some(vec![2]));
    assert_eq!(cache.get("a.", 1, 3, 0), Some(vec![3]));
    assert_eq!(cache.get("a.", 28, 3, 0), None);
}

#[test]
fn a_disabled_cache_stores_nothing() {
    let mut cache = ResponseCache::new(false, 4096);
    cache.insert("a.", A, IN, 60, &vec![1], 0);
    assert_eq!(cache.get("a.", A, IN, 0), None);
    assert_eq!(cache.pool_len(), 0);
}

#[test]
fn keys_are_listed_by_use() {
    let mut cache = ResponseCache::new(true, 4096);
    assert!(cache.keys_by_use().is_empty());
    for name in ["a.", "b.", "c."] {
        cache.insert(name, A, IN, 60, &vec![1; 20], 0);
    }
    cache.get("a.", A, IN, 1);
    let names: Vec<String> = cache.keys_by_use().iter().map(|k| k.name.as_str().to_string()).collect();
    assert_eq!(names, vec!["a.", "c.", "b."]);
}

#[test]
fn an_entry_is_what_was_inserted_last() {
    let mut cache = ResponseCache::new(true, 4096);
    cache.insert("a.", A, IN, 60, &vec![1], 0);
    cache.insert("b.", A, IN, 60, &vec![9], 0);
    cache.insert("a.", A, IN, 2, &vec![2, 2], 0);
    assert_eq!(cache.get("a.", A, IN, 1), Some(vec![2, 2]));
    cache.evict_expired(2 * NANOS_PER_SECOND);
    assert_eq!(cache.get("a.", A, IN, 1), None, "the first insertion's expiry is gone with it");
    assert_eq!(cache.get("b.", A, IN, 1), Some(vec![9]));
    cache.insert("a.", A, IN, 60, &vec![3], 5);
    assert_eq!(cache.get("a.", A, IN, 6), Some(vec![3]));
}
