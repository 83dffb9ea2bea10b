use warp_cache::shm::hashtable::ht_lookup;
use warp_cache::shm::layout::{
    put_i32, put_u32, read_bucket, read_slot_data, read_slot_header, slab_offset, slot_key, Header,
};
use warp_cache::shm::region::{plan_region, RegionError};
use warp_cache::shm::{settlement, OptimisticResult, Settlement, ShmCache, ShmGetResult};

fn make_cache(strategy: u32, capacity: u32, max_key: u32, max_value: u32, ttl: u64) -> (Vec<u8>, ShmCache) {
    let plan = plan_region(capacity, max_key, max_value).unwrap();
    let mut region = vec![0u8; plan.region_size];
    let cache =
        ShmCache::create_or_open(&mut region, strategy, capacity, max_key, max_value, ttl).unwrap();
    (region, cache)
}

/// The keys of the order list, head first.
fn keys_in_order(region: &[u8]) -> Vec<Vec<u8>> {
    let h = Header::read(region);
    let slab = &region[slab_offset(h.ht_capacity)..];
    let mut out = Vec::new();
    let mut cur = h.list_head;
    while cur != -1 {
        let s = read_slot_header(slab, h.slot_size, cur as usize);
        out.push(slot_key(slab, h.slot_size, cur as usize, s.key_len as usize).to_vec());
        cur = s.next;
    }
    out
}

fn keys(names: &[&str]) -> Vec<Vec<u8>> {
    names.iter().map(|n| n.as_bytes().to_vec()).collect()
}

fn hit(cache: &ShmCache, region: &mut [u8], now: u64, hash: u64, key: &[u8]) -> Option<Vec<u8>> {
    match cache.get(region, now, hash, key) {
        ShmGetResult::Hit(v) => Some(v),
        ShmGetResult::Miss => None,
    }
}

/// Checks the invariants of the region.
fn check_invariants(region: &[u8]) {
    let h = Header::read(region);
    let ht = &region[256..slab_offset(h.ht_capacity)];
    let slab = &region[slab_offset(h.ht_capacity)..];
    let cap = h.capacity as usize;
    assert!(h.ht_capacity.is_power_of_two());
    assert!(2 * h.current_size <= h.ht_capacity);
    let mut in_order = vec![false; cap];
    let mut cur = h.list_head;
    let mut prev = -1;
    let mut last_key: Option<(u64, u64)> = None;
    let mut count = 0u32;
    while cur != -1 {
        let s = read_slot_header(slab, h.slot_size, cur as usize);
        assert!(!in_order[cur as usize]);
        in_order[cur as usize] = true;
        assert_eq!(s.prev, prev);
        assert_eq!(s.occupied, 1);
        if h.strategy == 3 {
            if let Some(k) = last_key {
                assert!(k <= (s.frequency, s.unique_id));
            }
            last_key = Some((s.frequency, s.unique_id));
        }
        prev = cur;
        cur = s.next;
        count += 1;
    }
    assert_eq!(h.list_tail, prev);
    assert_eq!(count, h.current_size);
    assert_eq!(h.list_head == -1, h.current_size == 0);
    assert_eq!(h.list_tail == -1, h.current_size == 0);
    let mut in_free = vec![false; cap];
    let mut cur = h.free_head;
    while cur != -1 {
        assert!(!in_free[cur as usize]);
        in_free[cur as usize] = true;
        cur = read_slot_header(slab, h.slot_size, cur as usize).next;
    }
    let mut named = 0u32;
    for p in 0..h.ht_capacity as usize {
        if read_bucket(ht, p).slot_index != -1 {
            named += 1;
            assert!(in_order[read_bucket(ht, p).slot_index as usize]);
        }
    }
    assert_eq!(named, h.current_size);
    for i in 0..cap {
        let s = read_slot_header(slab, h.slot_size, i);
        assert_eq!(s.occupied == 1, in_order[i]);
        assert_eq!(in_order[i], !in_free[i]);
        if s.occupied == 1 {
            let key = slot_key(slab, h.slot_size, i, s.key_len as usize);
            assert_eq!(
                ht_lookup(ht, h.ht_capacity, slab, h.slot_size, s.key_hash, key),
                Some(i as i32)
            );
            // The probe distance is below half of the bucket count.
            let ideal = (s.key_hash as u32 & (h.ht_capacity - 1)) as usize;
            let mut p = ideal;
            let mut probes = 1u32;
            while read_bucket(ht, p).slot_index != i as i32 {
                p = (p + 1) & (h.ht_capacity as usize - 1);
                probes += 1;
            }
            assert!(2 * probes <= h.ht_capacity);
        }
    }
}

#[test]
fn lru_scenario() {
    let (mut region, mut cache) = make_cache(0, 3, 8, 8, 0);
    cache.insert(&mut region, 1, 1, b"A", b"1");
    cache.insert(&mut region, 2, 2, b"B", b"2");
    cache.insert(&mut region, 3, 3, b"C", b"3");
    assert_eq!(hit(&cache, &mut region, 4, 1, b"A"), Some(b"1".to_vec()));
    cache.insert(&mut region, 5, 4, b"D", b"4");
    assert_eq!(keys_in_order(&region), keys(&["C", "A", "D"]));
    assert_eq!(hit(&cache, &mut region, 6, 2, b"B"), None);
    assert_eq!(hit(&cache, &mut region, 6, 4, b"D"), Some(b"4".to_vec()));
    check_invariants(&region);
}

#[test]
fn fifo_scenario() {
    let (mut region, mut cache) = make_cache(2, 3, 8, 8, 0);
    cache.insert(&mut region, 1, 1, b"A", b"1");
    cache.insert(&mut region, 2, 2, b"B", b"2");
    cache.insert(&mut region, 3, 3, b"C", b"3");
    assert_eq!(hit(&cache, &mut region, 4, 1, b"A"), Some(b"1".to_vec()));
    assert_eq!(keys_in_order(&region), keys(&["A", "B", "C"]));
    cache.insert(&mut region, 5, 4, b"D", b"4");
    assert_eq!(keys_in_order(&region), keys(&["B", "C", "D"]));
    assert_eq!(hit(&cache, &mut region, 6, 1, b"A"), None);
    check_invariants(&region);
}

#[test]
fn mru_scenario() {
    let (mut region, mut cache) = make_cache(1, 3, 8, 8, 0);
    cache.insert(&mut region, 1, 1, b"A", b"1");
    cache.insert(&mut region, 2, 2, b"B", b"2");
    cache.insert(&mut region, 3, 3, b"C", b"3");
    assert_eq!(hit(&cache, &mut region, 4, 1, b"A"), Some(b"1".to_vec()));
    assert_eq!(keys_in_order(&region), keys(&["B", "C", "A"]));
    cache.insert(&mut region, 5, 4, b"D", b"4");
    assert_eq!(keys_in_order(&region), keys(&["B", "C", "D"]));
    assert_eq!(hit(&cache, &mut region, 6, 1, b"A"), None);
    check_invariants(&region);
}

#[test]
fn lfu_scenario() {
    let (mut region, mut cache) = make_cache(3, 3, 8, 8, 0);
    cache.insert(&mut region, 1, 1, b"A", b"1");
    cache.insert(&mut region, 2, 2, b"B", b"2");
    cache.insert(&mut region, 3, 3, b"C", b"3");
    assert_eq!(keys_in_order(&region), keys(&["A", "B", "C"]));
    for now in 4..7 {
        assert_eq!(hit(&cache, &mut region, now, 1, b"A"), Some(b"1".to_vec()));
    }
    assert_eq!(hit(&cache, &mut region, 7, 2, b"B"), Some(b"2".to_vec()));
    assert_eq!(keys_in_order(&region), keys(&["C", "B", "A"]));
    cache.insert(&mut region, 8, 4, b"D", b"4");
    assert_eq!(keys_in_order(&region), keys(&["D", "B", "A"]));
    assert_eq!(hit(&cache, &mut region, 9, 3, b"C"), None);
    check_invariants(&region);
}

#[test]
fn lfu_ties_go_by_unique_id() {
    let (mut region, mut cache) = make_cache(3, 4, 8, 8, 0);
    cache.insert(&mut region, 1, 1, b"A", b"1");
    cache.insert(&mut region, 1, 2, b"B", b"2");
    cache.insert(&mut region, 1, 3, b"C", b"3");
    // One access each to A and C: both have frequency 1; A has the lower id.
    assert!(hit(&cache, &mut region, 2, 3, b"C").is_some());
    assert!(hit(&cache, &mut region, 2, 1, b"A").is_some());
    assert_eq!(keys_in_order(&region), keys(&["B", "A", "C"]));
    check_invariants(&region);
}

#[test]
fn ttl_scenario() {
    let (mut region, mut cache) = make_cache(0, 3, 8, 8, 100_000_000);
    cache.insert(&mut region, 1_000, 7, b"K", b"V");
    assert_eq!(cache.info(&region).current_size, 1);
    assert_eq!(hit(&cache, &mut region, 1_000 + 100_000_000, 7, b"K"), Some(b"V".to_vec()));
    assert_eq!(hit(&cache, &mut region, 1_000 + 200_000_000, 7, b"K"), None);
    assert_eq!(cache.info(&region).current_size, 0);
    check_invariants(&region);
    cache.insert(&mut region, 1_000 + 200_000_001, 7, b"K", b"V2");
    assert_eq!(cache.info(&region).current_size, 1);
    let h = Header::read(&region);
    let slab = &region[slab_offset(h.ht_capacity)..];
    let s = read_slot_header(slab, h.slot_size, h.list_head as usize);
    assert_eq!(s.created_at_nanos, 1_000 + 200_000_001);
    assert_eq!(
        hit(&cache, &mut region, 1_000 + 200_000_002, 7, b"K"),
        Some(b"V2".to_vec())
    );
    check_invariants(&region);
}

#[test]
fn ttl_of_one_nanosecond() {
    let (mut region, mut cache) = make_cache(0, 4, 8, 8, 1);
    for i in 0..4u64 {
        let key = [b'k', i as u8];
        cache.insert(&mut region, 10 * i, i, &key, b"v");
        let before = cache.info(&region).current_size;
        assert_eq!(hit(&cache, &mut region, 10 * i + 2, i, &key), None);
        assert_eq!(cache.info(&region).current_size, before - 1);
        check_invariants(&region);
    }
    assert_eq!(cache.info(&region).misses, 4);
    assert_eq!(cache.info(&region).hits, 0);
}

#[test]
fn ttl_zero_never_expires() {
    let (mut region, mut cache) = make_cache(0, 2, 8, 8, 0);
    cache.insert(&mut region, 0, 1, b"k", b"v");
    assert_eq!(hit(&cache, &mut region, u64::MAX, 1, b"k"), Some(b"v".to_vec()));
}

#[test]
fn a_clock_that_went_back_does_not_expire() {
    let (mut region, mut cache) = make_cache(0, 2, 8, 8, 5);
    cache.insert(&mut region, 100, 1, b"k", b"v");
    assert_eq!(hit(&cache, &mut region, 50, 1, b"k"), Some(b"v".to_vec()));
}

#[test]
fn capacity_one_keeps_the_last_key() {
    for strategy in 0..4u32 {
        let (mut region, mut cache) = make_cache(strategy, 1, 8, 8, 0);
        for i in 0..10u64 {
            let key = [b'k', i as u8];
            cache.insert(&mut region, i, i, &key, &[i as u8]);
            check_invariants(&region);
            assert_eq!(cache.info(&region).current_size, 1);
        }
        assert_eq!(keys_in_order(&region), vec![vec![b'k', 9u8]]);
        assert_eq!(hit(&cache, &mut region, 20, 9, &[b'k', 9]), Some(vec![9u8]));
        assert_eq!(hit(&cache, &mut region, 20, 0, &[b'k', 0]), None);
    }
}

#[test]
fn zero_room_makes_everything_but_empty_oversize() {
    let (mut region, mut cache) = make_cache(0, 2, 0, 0, 0);
    assert!(cache.is_oversize(&region, b"k", b""));
    assert!(cache.is_oversize(&region, b"", b"v"));
    assert!(cache.is_oversize(&region, b"k", b"v"));
    assert!(!cache.is_oversize(&region, b"", b""));
    cache.insert(&mut region, 1, 5, b"k", b"v");
    assert_eq!(cache.info(&region).current_size, 0);
    cache.insert(&mut region, 1, 5, b"", b"");
    assert_eq!(cache.info(&region).current_size, 1);
    assert_eq!(hit(&cache, &mut region, 2, 5, b""), Some(Vec::new()));
    check_invariants(&region);
}

#[test]
fn is_oversize_compares_with_the_room() {
    let (region, cache) = make_cache(0, 2, 3, 4, 0);
    assert!(!cache.is_oversize(&region, b"abc", b"abcd"));
    assert!(cache.is_oversize(&region, b"abcd", b"abcd"));
    assert!(cache.is_oversize(&region, b"abc", b"abcde"));
}

#[test]
fn oversize_insert_changes_nothing() {
    let (mut region, mut cache) = make_cache(0, 2, 3, 4, 0);
    cache.insert(&mut region, 1, 1, b"abc", b"abcd");
    let before = region.clone();
    cache.insert(&mut region, 2, 2, b"abcd", b"x");
    assert_eq!(region, before);
    cache.insert(&mut region, 2, 2, b"x", b"abcde");
    assert_eq!(region, before);
}

#[test]
fn insert_twice_keeps_the_size() {
    for strategy in 0..4u32 {
        let (mut region, mut cache) = make_cache(strategy, 3, 8, 8, 0);
        cache.insert(&mut region, 1, 1, b"A", b"1");
        cache.insert(&mut region, 2, 2, b"B", b"2");
        let size = cache.info(&region).current_size;
        cache.insert(&mut region, 3, 2, b"B", b"2");
        assert_eq!(cache.info(&region).current_size, size);
        check_invariants(&region);
    }
}

#[test]
fn insert_of_a_present_key_takes_value_and_time() {
    let (mut region, mut cache) = make_cache(0, 3, 8, 8, 10);
    cache.insert(&mut region, 1, 1, b"A", b"old");
    cache.insert(&mut region, 2, 2, b"B", b"2");
    cache.insert(&mut region, 100, 1, b"A", b"newer");
    assert_eq!(keys_in_order(&region), keys(&["B", "A"]));
    assert_eq!(hit(&cache, &mut region, 105, 1, b"A"), Some(b"newer".to_vec()));
    // B was written at 2 and has expired by now.
    assert_eq!(hit(&cache, &mut region, 105, 2, b"B"), None);
    check_invariants(&region);
}

#[test]
fn lfu_insert_of_a_present_key_counts_as_access() {
    let (mut region, mut cache) = make_cache(3, 3, 8, 8, 0);
    cache.insert(&mut region, 1, 1, b"A", b"1");
    cache.insert(&mut region, 2, 2, b"B", b"2");
    cache.insert(&mut region, 3, 1, b"A", b"x");
    assert_eq!(keys_in_order(&region), keys(&["B", "A"]));
    let h = Header::read(&region);
    let slab = &region[slab_offset(h.ht_capacity)..];
    assert_eq!(read_slot_header(slab, h.slot_size, h.list_tail as usize).frequency, 1);
}

#[test]
fn unique_ids_count_new_entries() {
    let (mut region, mut cache) = make_cache(0, 4, 8, 8, 0);
    cache.insert(&mut region, 1, 1, b"A", b"1");
    cache.insert(&mut region, 2, 1, b"A", b"2");
    cache.insert(&mut region, 3, 2, b"B", b"3");
    let h = Header::read(&region);
    let slab = &region[slab_offset(h.ht_capacity)..];
    let head = read_slot_header(slab, h.slot_size, h.list_head as usize);
    let tail = read_slot_header(slab, h.slot_size, h.list_tail as usize);
    assert_eq!(slot_key(slab, h.slot_size, h.list_head as usize, 1), b"A");
    assert_eq!(head.unique_id, 0);
    assert_eq!(tail.unique_id, 1);
    assert_eq!(head.frequency, 0);
    assert_eq!(
        read_slot_data(slab, h.slot_size, h.list_head as usize, 1, head.value_len as usize),
        b"2".to_vec()
    );
}

#[test]
fn clear_twice_is_clear_once() {
    let (mut region, mut cache) = make_cache(3, 3, 8, 8, 0);
    cache.insert(&mut region, 1, 1, b"A", b"1");
    cache.insert(&mut region, 2, 2, b"B", b"2");
    assert!(hit(&cache, &mut region, 3, 1, b"A").is_some());
    assert!(hit(&cache, &mut region, 3, 9, b"Z").is_none());
    cache.record_oversize_skip(&mut region);
    cache.clear(&mut region);
    let once = region.clone();
    let info = cache.info(&region);
    assert_eq!(info.current_size, 0);
    assert_eq!(info.hits, 0);
    assert_eq!(info.misses, 0);
    assert_eq!(info.oversize_skips, 0);
    assert_eq!(info.max_size, 3);
    assert_eq!(keys_in_order(&region), Vec::<Vec<u8>>::new());
    check_invariants(&region);
    cache.clear(&mut region);
    assert_eq!(region, once);
    assert_eq!(hit(&cache, &mut region, 4, 1, b"A"), None);
    cache.insert(&mut region, 5, 1, b"A", b"1");
    assert_eq!(hit(&cache, &mut region, 6, 1, b"A"), Some(b"1".to_vec()));
    check_invariants(&region);
}

#[test]
fn two_handles_share_one_region() {
    let plan = plan_region(4, 8, 8).unwrap();
    let mut region = vec![0u8; plan.region_size];
    let mut first = ShmCache::create_or_open(&mut region, 0, 4, 8, 8, 0).unwrap();
    first.insert(&mut region, 1, 7, b"K", b"V");
    let mut second = ShmCache::create_or_open(&mut region, 0, 4, 8, 8, 0).unwrap();
    assert_eq!(hit(&second, &mut region, 2, 7, b"K"), Some(b"V".to_vec()));
    second.clear(&mut region);
    assert_eq!(first.info(&region).current_size, 0);
    assert_eq!(hit(&first, &mut region, 3, 7, b"K"), None);
}

#[test]
fn create_or_open_recreates_on_other_parameters() {
    let plan = plan_region(4, 8, 8).unwrap();
    let mut region = vec![0u8; plan.region_size];
    let mut first = ShmCache::create_or_open(&mut region, 0, 4, 8, 8, 0).unwrap();
    first.insert(&mut region, 1, 7, b"K", b"V");
    // Another policy: the content is discarded.
    let second = ShmCache::create_or_open(&mut region, 1, 4, 8, 8, 0).unwrap();
    assert_eq!(second.info(&region).current_size, 0);
    assert_eq!(Header::read(&region).strategy, 1);
    assert_eq!(hit(&second, &mut region, 2, 7, b"K"), None);
    // Another time to live: the region is kept with its own.
    let mut third = ShmCache::create_or_open(&mut region, 1, 4, 8, 8, 0).unwrap();
    third.insert(&mut region, 1, 7, b"K", b"V");
    let fourth = ShmCache::create_or_open(&mut region, 1, 4, 8, 8, 55).unwrap();
    assert_eq!(Header::read(&region).ttl_nanos, 0);
    assert_eq!(fourth.info(&region).current_size, 1);
}

#[test]
fn create_or_open_rejects_bad_parameters() {
    let mut region = vec![0u8; 1000];
    assert_eq!(
        ShmCache::create_or_open(&mut region, 7, 4, 8, 8, 0).unwrap_err(),
        RegionError::BadStrategy
    );
    assert_eq!(
        ShmCache::create_or_open(&mut region, 0, 0, 8, 8, 0).unwrap_err(),
        RegionError::BadCapacity
    );
    assert_eq!(
        ShmCache::create_or_open(&mut region, 0, 4, u32::MAX, 8, 0).unwrap_err(),
        RegionError::TooLarge
    );
    assert_eq!(
        ShmCache::create_or_open(&mut region, 0, 4, 8, 8, 0).unwrap_err(),
        RegionError::WrongLength
    );
}

#[test]
fn statistics_count_hits_misses_and_skips() {
    let (mut region, mut cache) = make_cache(0, 2, 8, 8, 0);
    cache.insert(&mut region, 1, 1, b"A", b"1");
    assert!(hit(&cache, &mut region, 2, 1, b"A").is_some());
    assert!(hit(&cache, &mut region, 2, 1, b"A").is_some());
    assert!(hit(&cache, &mut region, 2, 2, b"B").is_none());
    cache.record_oversize_skip(&mut region);
    let info = cache.info(&region);
    assert_eq!(info.hits, 2);
    assert_eq!(info.misses, 1);
    assert_eq!(info.oversize_skips, 1);
    assert_eq!(info.max_size, 2);
    assert_eq!(info.current_size, 1);
}

#[test]
fn same_hash_other_key_is_another_entry() {
    let (mut region, mut cache) = make_cache(0, 4, 8, 8, 0);
    cache.insert(&mut region, 1, 5, b"one", b"1");
    cache.insert(&mut region, 1, 5, b"two", b"2");
    assert_eq!(cache.info(&region).current_size, 2);
    assert_eq!(hit(&cache, &mut region, 2, 5, b"one"), Some(b"1".to_vec()));
    assert_eq!(hit(&cache, &mut region, 2, 5, b"two"), Some(b"2".to_vec()));
    assert_eq!(hit(&cache, &mut region, 2, 5, b"six"), None);
    check_invariants(&region);
}

#[test]
fn lookup_checked_then_settle() {
    let (mut region, mut cache) = make_cache(0, 3, 8, 8, 10);
    cache.insert(&mut region, 1, 1, b"A", b"1");
    cache.insert(&mut region, 2, 2, b"B", b"2");
    let slot = match ShmCache::lookup_checked(&region, 3, 1, b"A") {
        OptimisticResult::Hit { value, slot_index } => {
            assert_eq!(value, b"1".to_vec());
            slot_index
        }
        _ => panic!("expected a hit"),
    };
    assert_eq!(keys_in_order(&region), keys(&["A", "B"]));
    // Another hash at the remembered slot: nothing moves.
    cache.touch(&mut region, slot, 99);
    assert_eq!(keys_in_order(&region), keys(&["A", "B"]));
    cache.touch(&mut region, slot, 1);
    assert_eq!(keys_in_order(&region), keys(&["B", "A"]));
    assert!(matches!(ShmCache::lookup_checked(&region, 3, 3, b"C"), OptimisticResult::Miss));
    let expired = match ShmCache::lookup_checked(&region, 20, 2, b"B") {
        OptimisticResult::Expired { slot_index } => slot_index,
        _ => panic!("expected an expired entry"),
    };
    // Another key at the remembered slot: nothing is removed.
    cache.remove_expired(&mut region, expired, 2, b"X");
    assert_eq!(cache.info(&region).current_size, 2);
    cache.remove_expired(&mut region, expired, 2, b"B");
    assert_eq!(cache.info(&region).current_size, 1);
    assert_eq!(keys_in_order(&region), keys(&["A"]));
    // A slot number out of range changes nothing.
    cache.touch(&mut region, 77, 1);
    cache.remove_expired(&mut region, -1, 1, b"A");
    assert_eq!(keys_in_order(&region), keys(&["A"]));
    check_invariants(&region);
}

#[test]
fn lookup_checked_survives_torn_bytes() {
    let (mut region, mut cache) = make_cache(0, 3, 8, 8, 0);
    cache.insert(&mut region, 1, 1, b"A", b"1");
    for seed in 0..200u32 {
        let mut torn = region.clone();
        let mut x = seed.wrapping_mul(2654435761).wrapping_add(1);
        for _ in 0..40 {
            x ^= x << 13;
            x ^= x >> 17;
            x ^= x << 5;
            let at = (x as usize) % torn.len();
            torn[at] = (x >> 24) as u8;
        }
        let _ = ShmCache::lookup_checked(&torn, 2, 1, b"A");
    }
    assert!(matches!(ShmCache::lookup_checked(&[], 2, 1, b"A"), OptimisticResult::Miss));
    assert!(matches!(
        ShmCache::lookup_checked(&region[..300], 2, 1, b"A"),
        OptimisticResult::Miss
    ));
}

#[test]
fn invariants_hold_under_a_mix_of_operations() {
    for strategy in 0..4u32 {
        let (mut region, mut cache) = make_cache(strategy, 5, 4, 4, 50);
        let mut x: u32 = 12345 + strategy;
        for step in 0..600u64 {
            x ^= x << 13;
            x ^= x >> 17;
            x ^= x << 5;
            let k = (x % 9) as u8;
            let key = [b'k', k];
            // Few distinct hashes, so that keys collide in the index.
            let hash = (k % 3) as u64 * 8;
            match (x >> 8) % 5 {
                0 | 1 => cache.insert(&mut region, step, hash, &key, &[k, k]),
                2 | 3 => {
                    if let Some(v) = hit(&cache, &mut region, step, hash, &key) {
                        assert_eq!(v, vec![k, k]);
                    }
                }
                _ => {
                    if x % 97 == 0 {
                        cache.clear(&mut region);
                    }
                }
            }
            check_invariants(&region);
            assert!(cache.info(&region).current_size <= 5);
        }
    }
}

#[test]
fn lookup_checked_is_a_miss_on_a_violation() {
    let (mut region, mut cache) = make_cache(0, 3, 8, 8, 0);
    // Both keys start at bucket 1; A sits there, B behind it.
    cache.insert(&mut region, 1, 1, b"A", b"1");
    cache.insert(&mut region, 2, 9, b"B", b"2");
    assert!(matches!(
        ShmCache::lookup_checked(&region, 3, 9, b"B"),
        OptimisticResult::Hit { .. }
    ));
    // A bucket with the hash of the key that names a slot beyond the
    // capacity ends the lookup.
    let mut torn = region.clone();
    put_i32(&mut torn, 256 + 16 * 1 + 8, 3);
    torn[256 + 16..256 + 24].copy_from_slice(&9u64.to_le_bytes());
    assert!(matches!(ShmCache::lookup_checked(&torn, 3, 9, b"B"), OptimisticResult::Miss));
    // A slot whose lengths do not fit ends the lookup.
    let mut torn = region.clone();
    let h = Header::read(&region);
    let slab = slab_offset(h.ht_capacity);
    let slot = read_bucket(&region[256..], 2).slot_index as usize;
    put_u32(&mut torn, slab + slot * h.slot_size as usize + 40, 1000);
    assert!(matches!(ShmCache::lookup_checked(&torn, 3, 9, b"B"), OptimisticResult::Miss));
    // A bucket count that is no power of two, and a bucket array beyond the
    // region, are misses.
    let mut torn = region.clone();
    put_u32(&mut torn, 52, 6);
    assert!(matches!(ShmCache::lookup_checked(&torn, 3, 9, b"B"), OptimisticResult::Miss));
    let mut torn = region.clone();
    put_u32(&mut torn, 52, 1 << 20);
    assert!(matches!(ShmCache::lookup_checked(&torn, 3, 9, b"B"), OptimisticResult::Miss));
    let mut torn = region.clone();
    put_u32(&mut torn, 56, 63);
    assert!(matches!(ShmCache::lookup_checked(&torn, 3, 9, b"B"), OptimisticResult::Miss));
}

#[test]
fn what_a_get_has_left_to_do() {
    let hit = OptimisticResult::Hit { value: vec![1], slot_index: 4 };
    let expired = OptimisticResult::Expired { slot_index: 5 };
    for strategy in [0u32, 1, 3] {
        assert_eq!(settlement(&hit, strategy), Settlement::Touch(4));
    }
    assert_eq!(settlement(&hit, 2), Settlement::Nothing);
    for strategy in 0..4u32 {
        assert_eq!(settlement(&OptimisticResult::Miss, strategy), Settlement::Nothing);
        assert_eq!(settlement(&expired, strategy), Settlement::Remove(5));
    }
}
