use warp_cache::shm::hashtable::{ht_clear, ht_insert, ht_lookup, ht_remove};
use warp_cache::shm::layout::{read_bucket, BUCKET_EMPTY, BUCKET_SIZE, SLOT_HEADER_SIZE};

const TEST_SLOT_SIZE: u32 = 128;

/// A bucket array with every bucket empty.
fn make_ht(capacity: u32) -> Vec<u8> {
    let size = capacity as usize * BUCKET_SIZE;
    let mut buf = vec![0u8; size];
    ht_clear(&mut buf, capacity);
    buf
}

/// A zeroed slab of `num_slots` slots.
fn make_slab(num_slots: u32) -> Vec<u8> {
    vec![0u8; num_slots as usize * TEST_SLOT_SIZE as usize]
}

/// Writes the hash, the occupied mark, the key length and the key bytes of
/// a slot at their offsets.
fn write_slot(slab: &mut [u8], slot_index: u32, key_hash: u64, key_bytes: &[u8]) {
    let off = slot_index as usize * TEST_SLOT_SIZE as usize;
    slab[off..off + 8].copy_from_slice(&key_hash.to_le_bytes());
    slab[off + 32..off + 36].copy_from_slice(&1u32.to_le_bytes());
    slab[off + 36..off + 40].copy_from_slice(&(key_bytes.len() as u32).to_le_bytes());
    slab[off + SLOT_HEADER_SIZE..off + SLOT_HEADER_SIZE + key_bytes.len()]
        .copy_from_slice(key_bytes);
}

#[test]
fn insert_and_lookup() {
    let cap: u32 = 8;
    let mut ht = make_ht(cap);
    let mut slab = make_slab(cap);

    write_slot(&mut slab, 0, 42, b"hello");

    ht_insert(&mut ht, cap, 42, 0);
    let result = ht_lookup(&ht, cap, &slab, TEST_SLOT_SIZE, 42, b"hello");
    assert_eq!(result, Some(0));
}

#[test]
fn lookup_missing() {
    let cap: u32 = 8;
    let mut ht = make_ht(cap);
    let mut slab = make_slab(cap);

    assert_eq!(ht_lookup(&ht, cap, &slab, TEST_SLOT_SIZE, 99, b"nope"), None);

    write_slot(&mut slab, 0, 42, b"hello");
    ht_insert(&mut ht, cap, 42, 0);
    assert_eq!(ht_lookup(&ht, cap, &slab, TEST_SLOT_SIZE, 99, b"world"), None);
}

#[test]
fn collision_probing() {
    let cap: u32 = 8;
    let mut ht = make_ht(cap);
    let mut slab = make_slab(cap);

    let hash_a: u64 = 0x10;
    let hash_b: u64 = 0x08;

    write_slot(&mut slab, 0, hash_a, b"aaa");
    write_slot(&mut slab, 1, hash_b, b"bbb");

    ht_insert(&mut ht, cap, hash_a, 0);
    ht_insert(&mut ht, cap, hash_b, 1);

    assert_eq!(ht_lookup(&ht, cap, &slab, TEST_SLOT_SIZE, hash_a, b"aaa"), Some(0));
    assert_eq!(ht_lookup(&ht, cap, &slab, TEST_SLOT_SIZE, hash_b, b"bbb"), Some(1));
}

#[test]
fn remove_simple() {
    let cap: u32 = 8;
    let mut ht = make_ht(cap);
    let mut slab = make_slab(cap);

    write_slot(&mut slab, 0, 42, b"hello");

    ht_insert(&mut ht, cap, 42, 0);
    assert!(ht_remove(&mut ht, cap, &slab, TEST_SLOT_SIZE, 42, b"hello"));
    assert_eq!(ht_lookup(&ht, cap, &slab, TEST_SLOT_SIZE, 42, b"hello"), None);
}

#[test]
fn remove_missing() {
    let cap: u32 = 8;
    let mut ht = make_ht(cap);
    let slab = make_slab(cap);

    assert!(!ht_remove(&mut ht, cap, &slab, TEST_SLOT_SIZE, 99, b"nope"));
}

#[test]
fn remove_backward_shift() {
    let cap: u32 = 8;
    let mut ht = make_ht(cap);
    let mut slab = make_slab(cap);

    let hash_a: u64 = 0x10;
    let hash_b: u64 = 0x08;

    write_slot(&mut slab, 0, hash_a, b"aaa");
    write_slot(&mut slab, 1, hash_b, b"bbb");

    ht_insert(&mut ht, cap, hash_a, 0);
    ht_insert(&mut ht, cap, hash_b, 1);

    assert!(ht_remove(&mut ht, cap, &slab, TEST_SLOT_SIZE, hash_a, b"aaa"));

    assert_eq!(ht_lookup(&ht, cap, &slab, TEST_SLOT_SIZE, hash_b, b"bbb"), Some(1));
}

#[test]
fn clear() {
    let cap: u32 = 8;
    let mut ht = make_ht(cap);
    let mut slab = make_slab(cap);

    write_slot(&mut slab, 0, 10, b"aaa");
    write_slot(&mut slab, 1, 20, b"bbb");
    write_slot(&mut slab, 2, 30, b"ccc");

    ht_insert(&mut ht, cap, 10, 0);
    ht_insert(&mut ht, cap, 20, 1);
    ht_insert(&mut ht, cap, 30, 2);

    ht_clear(&mut ht, cap);

    assert_eq!(ht_lookup(&ht, cap, &slab, TEST_SLOT_SIZE, 10, b"aaa"), None);
    assert_eq!(ht_lookup(&ht, cap, &slab, TEST_SLOT_SIZE, 20, b"bbb"), None);
    assert_eq!(ht_lookup(&ht, cap, &slab, TEST_SLOT_SIZE, 30, b"ccc"), None);
}

#[test]
fn near_capacity_stress() {
    let cap: u32 = 16;
    let mut ht = make_ht(cap);
    let mut slab = make_slab(cap);

    let entries: &[(u64, &[u8])] = &[
        (1, b"k1"),
        (17, b"k2"),
        (33, b"k3"),
        (2, b"k4"),
        (18, b"k5"),
        (5, b"k6"),
        (100, b"k7"),
    ];

    for (i, &(hash, key)) in entries.iter().enumerate() {
        write_slot(&mut slab, i as u32, hash, key);
    }

    for (i, &(hash, _)) in entries.iter().enumerate() {
        ht_insert(&mut ht, cap, hash, i as i32);
    }

    for (i, &(hash, key)) in entries.iter().enumerate() {
        assert_eq!(
            ht_lookup(&ht, cap, &slab, TEST_SLOT_SIZE, hash, key),
            Some(i as i32),
            "entry {i} not found"
        );
    }
}

#[test]
fn insert_lands_in_first_empty_bucket() {
    let cap: u32 = 8;
    let mut ht = make_ht(cap);
    ht_insert(&mut ht, cap, 0x17, 3);
    ht_insert(&mut ht, cap, 0x0f, 4);
    ht_insert(&mut ht, cap, 0x07, 5);
    // All three start at bucket 7; the probe wraps to buckets 0 and 1.
    assert_eq!(read_bucket(&ht, 7).slot_index, 3);
    assert_eq!(read_bucket(&ht, 7).hash, 0x17);
    assert_eq!(read_bucket(&ht, 0).slot_index, 4);
    assert_eq!(read_bucket(&ht, 1).slot_index, 5);
    assert_eq!(read_bucket(&ht, 2).slot_index, BUCKET_EMPTY);
}

#[test]
fn insert_into_full_table_changes_nothing() {
    let cap: u32 = 2;
    let mut ht = make_ht(cap);
    ht_insert(&mut ht, cap, 0, 0);
    ht_insert(&mut ht, cap, 1, 1);
    let before = ht.clone();
    ht_insert(&mut ht, cap, 2, 2);
    assert_eq!(ht, before);
}

#[test]
fn remove_shifts_across_the_wrap() {
    let cap: u32 = 8;
    let mut ht = make_ht(cap);
    let mut slab = make_slab(cap);
    write_slot(&mut slab, 0, 0x07, b"x");
    write_slot(&mut slab, 1, 0x0f, b"y");
    write_slot(&mut slab, 2, 0x00, b"z");
    ht_insert(&mut ht, cap, 0x07, 0);
    ht_insert(&mut ht, cap, 0x0f, 1);
    ht_insert(&mut ht, cap, 0x00, 2);
    // Buckets: 7 -> slot 0, 0 -> slot 1, 1 -> slot 2.
    assert!(ht_remove(&mut ht, cap, &slab, TEST_SLOT_SIZE, 0x07, b"x"));
    // Slot 1 moves back to its ideal bucket 7, slot 2 back to its ideal 0.
    assert_eq!(read_bucket(&ht, 7).slot_index, 1);
    assert_eq!(read_bucket(&ht, 0).slot_index, 2);
    assert_eq!(read_bucket(&ht, 1).slot_index, BUCKET_EMPTY);
    assert_eq!(ht_lookup(&ht, cap, &slab, TEST_SLOT_SIZE, 0x0f, b"y"), Some(1));
    assert_eq!(ht_lookup(&ht, cap, &slab, TEST_SLOT_SIZE, 0x00, b"z"), Some(2));
    assert_eq!(ht_lookup(&ht, cap, &slab, TEST_SLOT_SIZE, 0x07, b"x"), None);
}

#[test]
fn remove_keeps_entry_at_its_ideal_bucket() {
    let cap: u32 = 8;
    let mut ht = make_ht(cap);
    let mut slab = make_slab(cap);
    write_slot(&mut slab, 0, 0x01, b"a");
    write_slot(&mut slab, 1, 0x02, b"b");
    ht_insert(&mut ht, cap, 0x01, 0);
    ht_insert(&mut ht, cap, 0x02, 1);
    assert!(ht_remove(&mut ht, cap, &slab, TEST_SLOT_SIZE, 0x01, b"a"));
    assert_eq!(read_bucket(&ht, 1).slot_index, BUCKET_EMPTY);
    assert_eq!(read_bucket(&ht, 2).slot_index, 1);
}

#[test]
fn lookup_passes_over_unoccupied_and_out_of_range_slots() {
    let cap: u32 = 8;
    let mut ht = make_ht(cap);
    let mut slab = make_slab(2);
    write_slot(&mut slab, 1, 42, b"hello");
    // Bucket 2 names slot 0, which is not occupied; bucket 3 names a slot
    // beyond the slab; bucket 4 names the slot that holds the key.
    ht_insert(&mut ht, cap, 42, 0);
    ht_insert(&mut ht, cap, 42, 9);
    ht_insert(&mut ht, cap, 42, 1);
    assert_eq!(ht_lookup(&ht, cap, &slab, TEST_SLOT_SIZE, 42, b"hello"), Some(1));
    assert_eq!(ht_lookup(&ht, cap, &slab, TEST_SLOT_SIZE, 42, b"hell"), None);
}
