use warp_cache::key::CacheKey;
use warp_cache::store::{log_access, CacheStoreInner, ConfigError, ACCESS_LOG_CAPACITY};

fn key(id: u64) -> CacheKey {
    CacheKey::new(id as isize, id)
}

#[test]
fn a_call_installs_and_the_next_one_hits() {
    let mut store = CacheStoreInner::new(0, 2, None).unwrap();
    let mut log = Vec::new();
    assert_eq!(store.lookup(&key(1), 5), None);
    assert!(store.install(&mut log, key(1), 100, 5));
    assert_eq!(store.lookup(&key(1), 6), Some(100));
    // Another caller has installed the key in the meantime: nothing is
    // inserted and the entry stays.
    assert!(!store.install(&mut log, key(1), 999, 7));
    assert_eq!(store.lookup(&key(1), 8), Some(100));
}

#[test]
fn the_log_defers_the_reordering() {
    let mut store = CacheStoreInner::new(0, 2, None).unwrap();
    let mut log = Vec::new();
    store.set(&mut log, key(1), 10, 0);
    store.set(&mut log, key(2), 20, 0);
    // A hit on key 1 is noted, not applied.
    assert_eq!(store.lookup(&key(1), 1), Some(10));
    log_access(&mut log, key(1));
    assert_eq!(log.len(), 1);
    // The next writer replays it: key 2 is the least recently used now.
    assert!(store.install(&mut log, key(3), 30, 2));
    assert!(log.is_empty());
    assert_eq!(store.lookup(&key(1), 3), Some(10));
    assert_eq!(store.lookup(&key(2), 3), None);
    assert_eq!(store.lookup(&key(3), 3), Some(30));
}

#[test]
fn without_the_replay_the_other_key_goes() {
    let mut store = CacheStoreInner::new(0, 2, None).unwrap();
    let mut log = Vec::new();
    store.set(&mut log, key(1), 10, 0);
    store.set(&mut log, key(2), 20, 0);
    assert!(store.install(&mut log, key(3), 30, 2));
    assert_eq!(store.lookup(&key(1), 3), None);
    assert_eq!(store.lookup(&key(2), 3), Some(20));
}

#[test]
fn the_log_is_bounded() {
    let mut log = Vec::new();
    for id in 0..100u64 {
        log_access(&mut log, key(id));
    }
    assert_eq!(log.len(), ACCESS_LOG_CAPACITY);
    assert_eq!(ACCESS_LOG_CAPACITY, 64);
    assert_eq!(log[63], key(63));
}

#[test]
fn drain_replays_in_order() {
    let mut store = CacheStoreInner::new(0, 3, None).unwrap();
    let mut log = Vec::new();
    store.set(&mut log, key(1), 10, 0);
    store.set(&mut log, key(2), 20, 0);
    store.set(&mut log, key(3), 30, 0);
    log_access(&mut log, key(1));
    log_access(&mut log, key(2));
    log_access(&mut log, key(9));
    store.drain_access_log(&mut log);
    assert!(log.is_empty());
    // The order is 3, 1, 2: two new keys evict 3, then 1.
    store.set(&mut log, key(4), 40, 1);
    assert_eq!(store.lookup(&key(3), 2), None);
    store.set(&mut log, key(5), 50, 1);
    assert_eq!(store.lookup(&key(1), 2), None);
    assert_eq!(store.lookup(&key(2), 2), Some(20));
}

#[test]
fn entries_expire_after_the_time_to_live() {
    let mut store = CacheStoreInner::new(0, 2, Some(100)).unwrap();
    let mut log = Vec::new();
    store.set(&mut log, key(1), 10, 1_000);
    assert_eq!(store.lookup(&key(1), 1_100), Some(10));
    assert_eq!(store.lookup(&key(1), 1_101), None);
    assert_eq!(store.info(0, 0).current_size, 1);
    // The slow path of a lookup removes the expired entry.
    assert_eq!(store.get_slow(&mut log, &key(1), 1_101), None);
    assert_eq!(store.info(0, 0).current_size, 0);
    // The slow path of a call replaces an expired entry.
    store.set(&mut log, key(2), 20, 2_000);
    assert!(store.install(&mut log, key(2), 21, 2_500));
    assert_eq!(store.lookup(&key(2), 2_500), Some(21));
    assert_eq!(store.info(0, 0).current_size, 1);
}

#[test]
fn the_slow_path_of_a_lookup_counts_the_access() {
    let mut store = CacheStoreInner::new(0, 2, None).unwrap();
    let mut log = Vec::new();
    store.set(&mut log, key(1), 10, 0);
    store.set(&mut log, key(2), 20, 0);
    assert_eq!(store.get_slow(&mut log, &key(1), 1), Some(10));
    assert_eq!(store.get_slow(&mut log, &key(7), 1), None);
    store.set(&mut log, key(3), 30, 2);
    assert_eq!(store.lookup(&key(1), 3), Some(10));
    assert_eq!(store.lookup(&key(2), 3), None);
}

#[test]
fn clear_empties_cache_and_log() {
    let mut store = CacheStoreInner::new(3, 2, None).unwrap();
    let mut log = Vec::new();
    store.set(&mut log, key(1), 10, 0);
    log_access(&mut log, key(1));
    store.clear(&mut log);
    assert!(log.is_empty());
    assert_eq!(store.lookup(&key(1), 1), None);
    let info = store.info(4, 5);
    assert_eq!(info.hits, 4);
    assert_eq!(info.misses, 5);
    assert_eq!(info.max_size, 2);
    assert_eq!(info.current_size, 0);
}

#[test]
fn bad_parameters_are_rejected() {
    assert_eq!(CacheStoreInner::new(4, 2, None).err(), Some(ConfigError::BadStrategy));
    assert_eq!(CacheStoreInner::new(4, 0, None).err(), Some(ConfigError::BadStrategy));
    assert_eq!(CacheStoreInner::new(0, 0, None).err(), Some(ConfigError::BadCapacity));
    assert_eq!(CacheStoreInner::new(3, 0, Some(5)).err(), Some(ConfigError::BadCapacity));
    assert!(CacheStoreInner::new(3, 1, Some(5)).is_ok());
}

#[test]
fn texts_of_the_configuration_errors() {
    assert_eq!(ConfigError::BadStrategy.message(), "unknown strategy");
    assert_eq!(ConfigError::BadCapacity.message(), "max_size must be positive");
}
