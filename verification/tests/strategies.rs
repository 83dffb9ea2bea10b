use warp_cache::entry::CacheEntry;
use warp_cache::key::CacheKey;
use warp_cache::strategies::fifo::FifoStrategy;
use warp_cache::strategies::lfu::LfuStrategy;
use warp_cache::strategies::lru::LruStrategy;
use warp_cache::strategies::mru::MruStrategy;
use warp_cache::strategies::{EvictionStrategy, StrategyEnum};

fn key(id: u64) -> CacheKey {
    CacheKey::new(id as isize * 31, id)
}

fn entry(value: u64) -> CacheEntry {
    CacheEntry { value, created_at: 0, frequency: 0 }
}

fn entry_at(value: u64, created_at: u64) -> CacheEntry {
    CacheEntry { value, created_at, frequency: 0 }
}

/// The values of the keys 1 to 9 that are present.
fn present(s: &StrategyEnum) -> Vec<(u64, u64)> {
    (1..10u64).filter_map(|id| s.peek(&key(id)).map(|e| (id, e.value))).collect()
}

#[test]
fn cache_key_holds_hash_and_identity() {
    let k = CacheKey::new(-7, 42);
    assert_eq!(k.hash, -7);
    assert_eq!(k.key_obj, 42);
    assert_eq!(k, CacheKey::new(-7, 42));
    assert_ne!(k, CacheKey::new(-7, 43));
}

#[test]
fn lru_strategy_scenario() {
    let mut s = StrategyEnum::with_policy(0, 3).unwrap();
    s.insert(key(1), entry(10));
    s.insert(key(2), entry(20));
    s.insert(key(3), entry(30));
    s.record_access(&key(1));
    s.insert(key(4), entry(40));
    assert_eq!(present(&s), vec![(1, 10), (3, 30), (4, 40)]);
    assert_eq!(s.len(), 3);
    assert_eq!(s.capacity(), 3);
    // The order is 3, 1, 4: two more inserts evict 3, then 1.
    s.insert(key(5), entry(50));
    assert_eq!(present(&s), vec![(1, 10), (4, 40), (5, 50)]);
    s.insert(key(6), entry(60));
    assert_eq!(present(&s), vec![(4, 40), (5, 50), (6, 60)]);
}

#[test]
fn lru_peek_does_not_count_as_access() {
    let mut s = LruStrategy::new(2);
    s.insert(key(1), entry(10));
    s.insert(key(2), entry(20));
    assert_eq!(s.peek(&key(1)).map(|e| e.value), Some(10));
    s.insert(key(3), entry(30));
    assert!(s.peek(&key(1)).is_none());
    assert_eq!(s.peek(&key(2)).map(|e| e.value), Some(20));
}

#[test]
fn lru_insert_of_a_present_key_replaces_and_moves_back() {
    let mut s = LruStrategy::new(2);
    s.insert(key(1), entry(10));
    s.insert(key(2), entry(20));
    s.insert(key(1), entry(11));
    assert_eq!(s.len(), 2);
    s.insert(key(3), entry(30));
    assert_eq!(s.peek(&key(1)).map(|e| e.value), Some(11));
    assert!(s.peek(&key(2)).is_none());
}

#[test]
fn lru_with_no_room_holds_nothing() {
    let mut s = LruStrategy::new(0);
    s.insert(key(1), entry(10));
    assert_eq!(s.len(), 0);
    assert!(s.peek(&key(1)).is_none());
}

#[test]
fn fifo_strategy_scenario() {
    let mut s = StrategyEnum::with_policy(2, 3).unwrap();
    s.insert(key(1), entry(10));
    s.insert(key(2), entry(20));
    s.insert(key(3), entry(30));
    s.record_access(&key(1));
    s.insert(key(4), entry(40));
    assert_eq!(present(&s), vec![(2, 20), (3, 30), (4, 40)]);
}

#[test]
fn fifo_insert_of_a_present_key_keeps_its_place() {
    let mut s = FifoStrategy::new(2);
    s.insert(key(1), entry(10));
    s.insert(key(2), entry(20));
    s.insert(key(1), entry(11));
    assert_eq!(s.len(), 2);
    assert_eq!(s.peek(&key(1)).map(|e| e.value), Some(11));
    s.insert(key(3), entry(30));
    assert!(s.peek(&key(1)).is_none());
    assert_eq!(s.peek(&key(2)).map(|e| e.value), Some(20));
}

#[test]
fn mru_strategy_scenario() {
    let mut s = StrategyEnum::with_policy(1, 3).unwrap();
    s.insert(key(1), entry(10));
    s.insert(key(2), entry(20));
    s.insert(key(3), entry(30));
    s.record_access(&key(1));
    s.insert(key(4), entry(40));
    assert_eq!(present(&s), vec![(2, 20), (3, 30), (4, 40)]);
    s.insert(key(5), entry(50));
    assert_eq!(present(&s), vec![(2, 20), (3, 30), (5, 50)]);
}

#[test]
fn mru_insert_of_a_present_key_evicts_nothing() {
    let mut s = MruStrategy::new(2);
    s.insert(key(1), entry(10));
    s.insert(key(2), entry(20));
    s.insert(key(1), entry(11));
    assert_eq!(s.len(), 2);
    assert_eq!(s.peek(&key(1)).map(|e| e.value), Some(11));
    assert_eq!(s.peek(&key(2)).map(|e| e.value), Some(20));
    // Key 1 is the most recent now and goes first.
    s.insert(key(3), entry(30));
    assert!(s.peek(&key(1)).is_none());
}

#[test]
fn lfu_strategy_scenario() {
    let mut s = StrategyEnum::with_policy(3, 3).unwrap();
    s.insert(key(1), entry(10));
    s.insert(key(2), entry(20));
    s.insert(key(3), entry(30));
    s.record_access(&key(1));
    s.record_access(&key(1));
    s.record_access(&key(1));
    s.record_access(&key(2));
    s.insert(key(4), entry(40));
    assert_eq!(present(&s), vec![(1, 10), (2, 20), (4, 40)]);
    assert_eq!(s.peek(&key(1)).map(|e| e.frequency), Some(3));
    assert_eq!(s.peek(&key(2)).map(|e| e.frequency), Some(1));
    // Key 4 has frequency 0 and goes next.
    s.insert(key(5), entry(50));
    assert_eq!(present(&s), vec![(1, 10), (2, 20), (5, 50)]);
}

#[test]
fn lfu_ties_go_by_age_then_by_id() {
    let mut s = LfuStrategy::new(3);
    s.insert(key(1), entry_at(10, 500));
    s.insert(key(2), entry_at(20, 100));
    s.insert(key(3), entry_at(30, 100));
    // All have frequency 0; keys 2 and 3 are older than key 1, and key 2
    // took its id first.
    s.insert(key(4), entry_at(40, 900));
    assert!(s.peek(&key(2)).is_none());
    s.insert(key(5), entry_at(50, 900));
    assert!(s.peek(&key(3)).is_none());
    s.insert(key(6), entry_at(60, 900));
    assert!(s.peek(&key(1)).is_none());
    assert_eq!(s.len(), 3);
}

#[test]
fn lfu_insert_of_a_present_key_starts_anew() {
    let mut s = LfuStrategy::new(2);
    s.insert(key(1), entry(10));
    s.record_access(&key(1));
    s.record_access(&key(1));
    s.insert(key(1), entry(11));
    assert_eq!(s.peek(&key(1)).map(|e| (e.value, e.frequency)), Some((11, 0)));
    assert_eq!(s.len(), 1);
}

#[test]
fn access_to_an_absent_key_changes_nothing() {
    for policy in 0..4u8 {
        let mut s = StrategyEnum::with_policy(policy, 2).unwrap();
        s.insert(key(1), entry(10));
        s.insert(key(2), entry(20));
        s.record_access(&key(7));
        assert_eq!(present(&s), vec![(1, 10), (2, 20)]);
    }
}

#[test]
fn remove_len_clear_capacity() {
    for policy in 0..4u8 {
        let mut s = StrategyEnum::with_policy(policy, 4).unwrap();
        assert_eq!(s.capacity(), 4);
        assert_eq!(s.len(), 0);
        s.insert(key(1), entry(10));
        s.insert(key(2), entry(20));
        s.insert(key(3), entry(30));
        assert_eq!(s.len(), 3);
        assert_eq!(s.remove(&key(2)).map(|e| e.value), Some(20));
        assert!(s.remove(&key(2)).is_none());
        assert!(s.remove(&key(9)).is_none());
        assert_eq!(s.len(), 2);
        assert_eq!(present(&s), vec![(1, 10), (3, 30)]);
        s.clear();
        assert_eq!(s.len(), 0);
        assert_eq!(s.capacity(), 4);
        assert!(s.peek(&key(1)).is_none());
        s.insert(key(1), entry(12));
        assert_eq!(present(&s), vec![(1, 12)]);
    }
}

#[test]
fn an_unknown_policy_number_names_no_strategy() {
    assert!(StrategyEnum::with_policy(4, 2).is_none());
    assert!(StrategyEnum::with_policy(255, 2).is_none());
    assert!(matches!(StrategyEnum::with_policy(0, 2), Some(StrategyEnum::Lru(_))));
    assert!(matches!(StrategyEnum::with_policy(1, 2), Some(StrategyEnum::Mru(_))));
    assert!(matches!(StrategyEnum::with_policy(2, 2), Some(StrategyEnum::Fifo(_))));
    assert!(matches!(StrategyEnum::with_policy(3, 2), Some(StrategyEnum::Lfu(_))));
}

#[test]
fn capacity_one_in_process() {
    for policy in 0..4u8 {
        let mut s = StrategyEnum::with_policy(policy, 1).unwrap();
        for id in 1..10u64 {
            s.insert(key(id), entry(id));
            assert_eq!(s.len(), 1);
        }
        assert_eq!(present(&s), vec![(9, 9)]);
    }
}

#[test]
fn strategies_through_the_trait() {
    fn fill<S: EvictionStrategy>(s: &mut S) -> usize {
        s.insert(key(1), entry(1));
        s.insert(key(2), entry(2));
        s.insert(key(3), entry(3));
        s.len()
    }
    assert_eq!(fill(&mut LruStrategy::new(2)), 2);
    assert_eq!(fill(&mut MruStrategy::new(2)), 2);
    assert_eq!(fill(&mut FifoStrategy::new(2)), 2);
    assert_eq!(fill(&mut LfuStrategy::new(2)), 2);
}
