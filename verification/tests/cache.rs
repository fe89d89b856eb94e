use astrolabe_core::cache::{entry_weight, judge, CacheConfig, FileCache, Lookup};
use std::sync::Arc;

#[test]
fn insert_then_get_returns_shared_lines() {
    let mut cache = FileCache::new(CacheConfig::default());
    cache.insert("src/lib.rs", vec!["first".into(), "second".into()], 42);

    let lines = cache.get("src/lib.rs", 42).expect("entry should exist");
    assert_eq!(&*lines, &["first", "second"]);
}

#[test]
fn changed_mtime_is_a_miss_and_invalidates_entry() {
    let mut cache = FileCache::new(CacheConfig::default());
    cache.insert("src/lib.rs", vec!["old".into()], 10);

    assert!(cache.get("src/lib.rs", 11).is_none());
    assert!(cache.get("src/lib.rs", 10).is_none());
}

#[test]
fn byte_budget_is_enforced() {
    const BUDGET: u64 = 1024;
    let mut cache = FileCache::new(CacheConfig {
        budget_bytes: BUDGET,
        idle_ttl_ms: 60_000,
    });

    for index in 0..8 {
        cache.insert(
            &format!("large-{index}"),
            vec!["x".repeat(BUDGET as usize)],
            index,
        );
    }
    cache.settle();

    assert!(cache.weighted_size() <= BUDGET);
}

#[test]
fn idle_entries_expire() {
    let mut cache = FileCache::new(CacheConfig {
        budget_bytes: 1024,
        idle_ttl_ms: 100,
    });
    cache.insert("idle", vec!["line".into()], 1);
    assert!(cache.get("idle", 1).is_some());

    let start = std::time::Instant::now();
    while start.elapsed() < std::time::Duration::from_millis(175) {
        std::hint::spin_loop();
    }

    assert!(cache.get("idle", 1).is_none());
}

#[test]
fn what_is_held_is_weighed() {
    let mut cache = FileCache::new(CacheConfig::default());
    cache.insert("a", vec!["x".repeat(100)], 1);
    cache.settle();
    let one = cache.weighted_size();
    assert_eq!(one, entry_weight(&vec!["x".repeat(100)]) as u64);
    cache.insert("b", vec!["y".repeat(100)], 1);
    cache.settle();
    assert_eq!(cache.weighted_size(), 2 * one);
}

#[test]
fn lines_weigh_their_bytes_and_headers() {
    let empty = entry_weight(&Vec::new());
    let one = entry_weight(&vec!["ab".into()]);
    assert_eq!(empty as usize, std::mem::size_of::<Vec<String>>());
    assert_eq!((one - empty) as usize, std::mem::size_of::<String>() + 2);
}

#[test]
fn an_entry_is_judged_by_its_age() {
    let lines = Arc::new(vec!["a".to_string()]);
    assert!(matches!(judge(None, 1), Lookup::Missing));
    assert!(matches!(judge(Some((lines.clone(), 2)), 1), Lookup::Stale));
    assert!(matches!(judge(Some((lines, 1)), 1), Lookup::Fresh(l) if l[0] == "a"));
}
