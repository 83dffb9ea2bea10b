use std::hash::Hasher;
use std::sync::atomic::{AtomicU32, AtomicU64, Ordering};
use warp_cache::shared_store::{
    derive_shm_name, fold_hash, store_result, SharedCacheInfo, DEFAULT_MAX_KEY_SIZE,
    DEFAULT_MAX_VALUE_SIZE,
};
use warp_cache::shm::lock::{
    next_seq, read_is_valid, seq_is_quiet, word_is_free, ShmSeqLock, LOCK_SIZE,
};
use warp_cache::shm::ordering::{
    evict_candidate, list_insert_lfu, list_move_to_tail, list_push_tail, list_remove, on_access,
    on_insert,
};
use warp_cache::shm::layout::{read_slot_header, write_slot_header, Header, SlotHeader, MAGIC};
use warp_cache::shm::region::plan_region;
use warp_cache::shm::{count_up, ShmCache, ShmGetResult};
use warp_cache::store::CacheInfo;
use warp_cache::text::{digit, push_decimal, push_hex16};

#[test]
fn region_names() {
    let name = derive_shm_name("pkg.mod", "Class.method");
    assert!(name.starts_with("warp_cache_pkg.mod_Class.method_"));
    let hex = &name["warp_cache_pkg.mod_Class.method_".len()..];
    assert_eq!(hex.len(), 16);
    assert!(hex.chars().all(|c| c.is_ascii_digit() || ('a'..='f').contains(&c)));
    assert_eq!(name, derive_shm_name("pkg.mod", "Class.method"));
    assert_ne!(name, derive_shm_name("pkg.mod", "Class.other"));
    // The parts are hashed apart from each other.
    let a = derive_shm_name("ab", "c");
    let b = derive_shm_name("a", "bc");
    assert_ne!(a[a.len() - 16..], b[b.len() - 16..]);
    assert_eq!(derive_shm_name("", "").len(), "warp_cache___".len() + 16);
}

#[test]
fn key_hashes_are_the_same_for_the_same_host_hash() {
    assert_eq!(fold_hash(12345), fold_hash(12345));
    assert_ne!(fold_hash(12345), fold_hash(12346));
    assert_ne!(fold_hash(-1), fold_hash(1));
    assert_ne!(fold_hash(0), 0);
}

#[test]
fn store_result_skips_oversize_entries() {
    let plan = plan_region(2, 4, 4).unwrap();
    let mut region = vec![0u8; plan.region_size];
    let mut cache = ShmCache::create_or_open(&mut region, 0, 2, 4, 4, 0).unwrap();
    assert!(store_result(&mut cache, &mut region, 1, 1, b"key", b"val"));
    assert!(!store_result(&mut cache, &mut region, 1, 2, b"toolong", b"val"));
    assert!(!store_result(&mut cache, &mut region, 1, 3, b"key", b"toolong"));
    let info = SharedCacheInfo::from_info(cache.info(&region));
    assert_eq!(info.current_size, 1);
    assert_eq!(info.oversize_skips, 2);
    assert_eq!(info.max_size, 2);
    assert_eq!(info.hits, 0);
    assert_eq!(info.misses, 0);
    assert!(matches!(cache.get(&mut region, 2, 1, b"key"), ShmGetResult::Hit(_)));
    assert!(matches!(cache.get(&mut region, 2, 2, b"toolong"), ShmGetResult::Miss));
}

#[test]
fn counters_wrap() {
    assert_eq!(count_up(0), 1);
    assert_eq!(count_up(41), 42);
    assert_eq!(count_up(u64::MAX), 0);
}

#[test]
fn sequence_numbers() {
    assert!(seq_is_quiet(0));
    assert!(!seq_is_quiet(1));
    assert!(seq_is_quiet(u64::MAX - 1));
    assert_eq!(next_seq(0), 1);
    assert_eq!(next_seq(7), 8);
    assert_eq!(next_seq(u64::MAX), 0);
    assert!(read_is_valid(4, 4));
    assert!(!read_is_valid(4, 6));
    assert!(word_is_free(0));
    assert!(!word_is_free(1));
    assert!(!word_is_free(u32::MAX));
    assert_eq!(LOCK_SIZE, 64);
}

#[test]
fn seqlock_protocol() {
    let seq = AtomicU64::new(77);
    let word = AtomicU32::new(1);
    let lock = ShmSeqLock::init(&seq, &word);
    assert_eq!(seq.load(Ordering::Relaxed), 0);
    assert_eq!(word.load(Ordering::Relaxed), 0);
    let begin = lock.read_begin(0).unwrap();
    assert_eq!(begin, 0);
    assert!(lock.read_validate(begin));
    assert!(lock.write_lock(1000));
    assert_eq!(seq.load(Ordering::Relaxed), 1);
    assert_eq!(word.load(Ordering::Relaxed), 1);
    // A writer is active: readers do not begin, a second writer does not
    // enter, and a read that began before is not valid.
    assert_eq!(lock.read_begin(3), None);
    assert!(!lock.write_lock(3));
    assert!(!lock.read_validate(begin));
    lock.write_unlock();
    assert_eq!(seq.load(Ordering::Relaxed), 2);
    assert_eq!(word.load(Ordering::Relaxed), 0);
    assert!(!lock.read_validate(begin));
    assert_eq!(lock.read_begin(0), Some(2));
    let other = ShmSeqLock::from_existing(&seq, &word);
    assert_eq!(other.read_begin(0), Some(2));
    assert!(other.write_lock(1000));
    assert_eq!(lock.read_begin(0), None);
    other.write_unlock();
    assert_eq!(lock.read_begin(0), Some(4));
}

fn list_header(capacity: u32) -> Header {
    Header {
        magic: MAGIC,
        ttl_nanos: 0,
        hits: 0,
        misses: 0,
        oversize_skips: 0,
        version: 1,
        strategy: 0,
        capacity,
        ht_capacity: 2 * capacity,
        slot_size: 64,
        max_key_size: 0,
        max_value_size: 0,
        current_size: 0,
        list_head: -1,
        list_tail: -1,
        free_head: -1,
    }
}

fn slab_with(keys: &[(u64, u64)]) -> Vec<u8> {
    let mut slab = vec![0u8; keys.len() * 64];
    for (i, (frequency, unique_id)) in keys.iter().enumerate() {
        let h = SlotHeader {
            key_hash: 0,
            created_at_nanos: 0,
            frequency: *frequency,
            unique_id: *unique_id,
            occupied: 1,
            key_len: 0,
            value_len: 0,
            prev: -1,
            next: -1,
        };
        write_slot_header(&mut slab, 64, i, &h);
    }
    slab
}

fn walk(header: &Header, slab: &[u8]) -> Vec<i32> {
    let mut out = Vec::new();
    let mut cur = header.list_head;
    let mut prev = -1;
    while cur != -1 {
        let s = read_slot_header(slab, 64, cur as usize);
        assert_eq!(s.prev, prev);
        out.push(cur);
        prev = cur;
        cur = s.next;
    }
    assert_eq!(header.list_tail, prev);
    out
}

#[test]
fn list_operations() {
    let mut h = list_header(4);
    let mut slab = slab_with(&[(0, 0), (0, 1), (0, 2), (0, 3)]);
    list_push_tail(&mut h, &mut slab, 64, 2);
    assert_eq!(walk(&h, &slab), vec![2]);
    list_push_tail(&mut h, &mut slab, 64, 0);
    list_push_tail(&mut h, &mut slab, 64, 3);
    assert_eq!(walk(&h, &slab), vec![2, 0, 3]);
    list_move_to_tail(&mut h, &mut slab, 64, 2);
    assert_eq!(walk(&h, &slab), vec![0, 3, 2]);
    list_move_to_tail(&mut h, &mut slab, 64, 2);
    assert_eq!(walk(&h, &slab), vec![0, 3, 2]);
    list_remove(&mut h, &mut slab, 64, 3);
    assert_eq!(walk(&h, &slab), vec![0, 2]);
    assert_eq!(read_slot_header(&slab, 64, 3).prev, -1);
    assert_eq!(read_slot_header(&slab, 64, 3).next, -1);
    list_remove(&mut h, &mut slab, 64, 0);
    assert_eq!(walk(&h, &slab), vec![2]);
    list_remove(&mut h, &mut slab, 64, 2);
    assert_eq!(walk(&h, &slab), Vec::<i32>::new());
    assert_eq!(h.list_head, -1);
    assert_eq!(h.list_tail, -1);
}

#[test]
fn lfu_insert_keeps_the_list_sorted() {
    let mut h = list_header(5);
    // (frequency, unique id) of the slots 0 to 4.
    let mut slab = slab_with(&[(2, 0), (0, 1), (2, 2), (1, 3), (0, 4)]);
    list_insert_lfu(&mut h, &mut slab, 64, 0);
    list_insert_lfu(&mut h, &mut slab, 64, 1);
    assert_eq!(walk(&h, &slab), vec![1, 0]);
    list_insert_lfu(&mut h, &mut slab, 64, 2);
    assert_eq!(walk(&h, &slab), vec![1, 0, 2]);
    list_insert_lfu(&mut h, &mut slab, 64, 3);
    assert_eq!(walk(&h, &slab), vec![1, 3, 0, 2]);
    list_insert_lfu(&mut h, &mut slab, 64, 4);
    assert_eq!(walk(&h, &slab), vec![1, 4, 3, 0, 2]);
}

#[test]
fn policy_dispatch() {
    for strategy in 0..4u32 {
        let mut h = list_header(3);
        h.strategy = strategy;
        let mut slab = slab_with(&[(0, 0), (0, 1), (0, 2)]);
        on_insert(&mut h, &mut slab, 64, 0, strategy);
        on_insert(&mut h, &mut slab, 64, 1, strategy);
        on_insert(&mut h, &mut slab, 64, 2, strategy);
        assert_eq!(walk(&h, &slab), vec![0, 1, 2]);
        assert_eq!(evict_candidate(&h, strategy), if strategy == 1 { 2 } else { 0 });
        on_access(&mut h, &mut slab, 64, 0, strategy);
        let want = if strategy == 2 { vec![0, 1, 2] } else { vec![1, 2, 0] };
        assert_eq!(walk(&h, &slab), want);
        let frequency = read_slot_header(&slab, 64, 0).frequency;
        assert_eq!(frequency, if strategy == 3 { 1 } else { 0 });
    }
    let empty = list_header(3);
    assert_eq!(evict_candidate(&empty, 0), -1);
    assert_eq!(evict_candidate(&empty, 1), -1);
    assert_eq!(evict_candidate(&empty, 9), -1);
}

#[test]
fn frequency_stops_at_the_largest_value() {
    let mut h = list_header(2);
    let mut slab = slab_with(&[(u64::MAX, 0), (5, 1)]);
    on_insert(&mut h, &mut slab, 64, 0, 3);
    on_insert(&mut h, &mut slab, 64, 1, 3);
    on_access(&mut h, &mut slab, 64, 0, 3);
    assert_eq!(read_slot_header(&slab, 64, 0).frequency, u64::MAX);
    assert_eq!(walk(&h, &slab), vec![1, 0]);
}

#[test]
fn numbers_as_text() {
    assert_eq!(digit(0), "0");
    assert_eq!(digit(9), "9");
    assert_eq!(digit(10), "a");
    assert_eq!(digit(15), "f");
    let mut s = String::from("x");
    push_decimal(&mut s, 0);
    push_decimal(&mut s, 7);
    push_decimal(&mut s, 10);
    push_decimal(&mut s, 1234567890);
    push_decimal(&mut s, u64::MAX);
    assert_eq!(s, "x07101234567890".to_string() + "18446744073709551615");
    let mut h = String::new();
    push_hex16(&mut h, 0);
    push_hex16(&mut h, 0x0123_4567_89ab_cdef);
    push_hex16(&mut h, u64::MAX);
    assert_eq!(h, "00000000000000000123456789abcdefffffffffffffffff");
}

#[test]
fn descriptions_of_the_statistics() {
    let info = CacheInfo { hits: 3, misses: 12, max_size: 128, current_size: 0 };
    assert_eq!(info.repr(), "CacheInfo(hits=3, misses=12, max_size=128, current_size=0)");
    let shared = SharedCacheInfo {
        hits: 1,
        misses: 20,
        max_size: 300,
        current_size: 4000,
        oversize_skips: 50000,
    };
    assert_eq!(
        shared.repr(),
        "SharedCacheInfo(hits=1, misses=20, max_size=300, current_size=4000, oversize_skips=50000)"
    );
}

#[test]
fn region_name_ends_with_the_hash_of_its_parts() {
    let mut hasher = std::collections::hash_map::DefaultHasher::new();
    hasher.write(b"m");
    hasher.write(&[0xff]);
    hasher.write(b"q");
    hasher.write(&[0xff]);
    let mut want = String::from("warp_cache_m_q_");
    push_hex16(&mut want, hasher.finish());
    assert_eq!(derive_shm_name("m", "q"), want);
}

#[test]
fn default_room_of_a_slot() {
    assert_eq!(DEFAULT_MAX_KEY_SIZE, 512);
    assert_eq!(DEFAULT_MAX_VALUE_SIZE, 4096);
    let plan = plan_region(1, DEFAULT_MAX_KEY_SIZE, DEFAULT_MAX_VALUE_SIZE).unwrap();
    assert_eq!(plan.slot_size, 64 + 512 + 4096);
}

#[test]
fn a_lock_works_on_the_words_it_was_given() {
    let seq = AtomicU64::new(6);
    let word = AtomicU32::new(0);
    let other_seq = AtomicU64::new(9);
    let other_word = AtomicU32::new(1);
    // Attaching leaves the words as they are.
    let lock = ShmSeqLock::from_existing(&seq, &word);
    assert_eq!(seq.load(Ordering::Relaxed), 6);
    assert_eq!(word.load(Ordering::Relaxed), 0);
    assert_eq!(lock.read_begin(0), Some(6));
    assert!(lock.write_lock(0));
    assert_eq!(seq.load(Ordering::Relaxed), 7);
    assert_eq!(word.load(Ordering::Relaxed), 1);
    assert_eq!(other_seq.load(Ordering::Relaxed), 9);
    lock.write_unlock();
    assert_eq!(seq.load(Ordering::Relaxed), 8);
    // Setting up resets the words given, and no others.
    let fresh = ShmSeqLock::init(&other_seq, &other_word);
    assert_eq!(other_seq.load(Ordering::Relaxed), 0);
    assert_eq!(other_word.load(Ordering::Relaxed), 0);
    assert_eq!(seq.load(Ordering::Relaxed), 8);
    assert_eq!(fresh.read_begin(0), Some(0));
    assert!(fresh.read_validate(0));
    assert!(!fresh.read_validate(8));
    assert!(lock.read_validate(8));
}
