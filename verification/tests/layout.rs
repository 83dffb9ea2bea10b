use warp_cache::shm::hashtable::ht_clear;
use warp_cache::shm::layout::{
    get_i32, get_u32, get_u64, ht_offset, put_i32, put_u32, put_u64, read_bucket, read_slot_data,
    read_slot_header, region_size, slab_offset, slot_key, slot_key_matches, write_bucket,
    write_slot_data, write_slot_header, Bucket, Header, SlotHeader, HEADER_SIZE, MAGIC,
};
use warp_cache::shm::region::{
    data_file_name, init_region, lock_file_name, next_power_of_two, plan_region, region_matches,
    RegionError,
};

#[test]
fn region_size_is_header_buckets_and_slots() {
    assert_eq!(region_size(3, 8, 80), 256 + 16 * 8 + 3 * 80);
    assert_eq!(region_size(0, 0, 0), 256);
    assert_eq!(region_size(1, 2, 64), 256 + 32 + 64);
}

#[test]
fn offsets_of_the_parts() {
    assert_eq!(ht_offset(), 256);
    assert_eq!(slab_offset(0), 256);
    assert_eq!(slab_offset(8), 256 + 128);
}

#[test]
fn integers_are_little_endian() {
    let mut buf = vec![0u8; 16];
    put_u32(&mut buf, 1, 0x0403_0201);
    assert_eq!(&buf[0..6], &[0, 1, 2, 3, 4, 0]);
    assert_eq!(get_u32(&buf, 1), 0x0403_0201);
    put_u64(&mut buf, 8, 0x0807_0605_0403_0201);
    assert_eq!(&buf[8..16], &[1, 2, 3, 4, 5, 6, 7, 8]);
    assert_eq!(get_u64(&buf, 8), 0x0807_0605_0403_0201);
    put_i32(&mut buf, 4, -1);
    assert_eq!(&buf[4..8], &[0xff, 0xff, 0xff, 0xff]);
    assert_eq!(get_i32(&buf, 4), -1);
    put_i32(&mut buf, 4, -2);
    assert_eq!(get_i32(&buf, 4), -2);
}

#[test]
fn magic_is_the_text_fcache01() {
    assert_eq!(MAGIC.to_le_bytes(), *b"FCACHE01");
}

#[test]
fn header_fields_sit_at_their_offsets() {
    let h = Header {
        magic: MAGIC,
        ttl_nanos: 11,
        hits: 12,
        misses: 13,
        oversize_skips: 14,
        version: 1,
        strategy: 3,
        capacity: 15,
        ht_capacity: 32,
        slot_size: 100,
        max_key_size: 16,
        max_value_size: 20,
        current_size: 7,
        list_head: 2,
        list_tail: -1,
        free_head: 5,
    };
    let mut buf = vec![0xaau8; HEADER_SIZE];
    h.write(&mut buf);
    assert_eq!(&buf[0..8], b"FCACHE01");
    assert_eq!(get_u64(&buf, 8), 11);
    assert_eq!(get_u64(&buf, 16), 12);
    assert_eq!(get_u64(&buf, 24), 13);
    assert_eq!(get_u64(&buf, 32), 14);
    assert_eq!(get_u32(&buf, 40), 1);
    assert_eq!(get_u32(&buf, 44), 3);
    assert_eq!(get_u32(&buf, 48), 15);
    assert_eq!(get_u32(&buf, 52), 32);
    assert_eq!(get_u32(&buf, 56), 100);
    assert_eq!(get_u32(&buf, 60), 16);
    assert_eq!(get_u32(&buf, 64), 20);
    assert_eq!(get_u32(&buf, 68), 7);
    assert_eq!(get_i32(&buf, 72), 2);
    assert_eq!(get_i32(&buf, 76), -1);
    assert_eq!(get_i32(&buf, 80), 5);
    assert_eq!(buf[84], 0xaa);
    let back = Header::read(&buf);
    assert_eq!(back.capacity, 15);
    assert_eq!(back.list_tail, -1);
    assert_eq!(back.ttl_nanos, 11);
}

#[test]
fn write_state_leaves_the_statistics() {
    let mut buf = vec![0u8; HEADER_SIZE];
    put_u64(&mut buf, 16, 99);
    let mut h = Header::read(&buf);
    h.hits = 5;
    h.current_size = 3;
    h.list_head = 1;
    h.list_tail = 2;
    h.free_head = -1;
    h.write_state(&mut buf);
    let back = Header::read(&buf);
    assert_eq!(back.hits, 99);
    assert_eq!(back.current_size, 3);
    assert_eq!(back.list_head, 1);
    assert_eq!(back.list_tail, 2);
    assert_eq!(back.free_head, -1);
}

#[test]
fn buckets_are_sixteen_bytes_apart() {
    let mut ht = vec![0u8; 48];
    write_bucket(&mut ht, 1, Bucket { hash: 0x1122, slot_index: 9 });
    assert_eq!(get_u64(&ht, 16), 0x1122);
    assert_eq!(get_i32(&ht, 24), 9);
    assert_eq!(read_bucket(&ht, 1).hash, 0x1122);
    assert_eq!(read_bucket(&ht, 0).slot_index, 0);
    ht_clear(&mut ht, 3);
    assert_eq!(read_bucket(&ht, 1).slot_index, -1);
    assert_eq!(read_bucket(&ht, 1).hash, 0);
}

#[test]
fn slot_fields_sit_at_their_offsets() {
    let slot_size: u32 = 80;
    let mut slab = vec![0u8; 3 * 80];
    let h = SlotHeader {
        key_hash: 1,
        created_at_nanos: 2,
        frequency: 3,
        unique_id: 4,
        occupied: 1,
        key_len: 5,
        value_len: 6,
        prev: -1,
        next: 2,
    };
    write_slot_header(&mut slab, slot_size, 1, &h);
    assert_eq!(get_u64(&slab, 80), 1);
    assert_eq!(get_u64(&slab, 88), 2);
    assert_eq!(get_u64(&slab, 96), 3);
    assert_eq!(get_u64(&slab, 104), 4);
    assert_eq!(get_u32(&slab, 112), 1);
    assert_eq!(get_u32(&slab, 116), 5);
    assert_eq!(get_u32(&slab, 120), 6);
    assert_eq!(get_i32(&slab, 124), -1);
    assert_eq!(get_i32(&slab, 128), 2);
    write_slot_data(&mut slab, slot_size, 1, 0, b"hello");
    write_slot_data(&mut slab, slot_size, 1, 5, b"world!");
    assert_eq!(&slab[144..155], b"helloworld!");
    let back = read_slot_header(&slab, slot_size, 1);
    assert_eq!(back.key_len, 5);
    assert_eq!(back.next, 2);
    assert_eq!(slot_key(&slab, slot_size, 1, 5), b"hello");
    assert!(slot_key_matches(&slab, slot_size, 1, 5, b"hello"));
    assert!(!slot_key_matches(&slab, slot_size, 1, 5, b"hellp"));
    assert!(!slot_key_matches(&slab, slot_size, 1, 5, b"hell"));
    assert_eq!(read_slot_data(&slab, slot_size, 1, 5, 6), b"world!".to_vec());
    assert_eq!(read_slot_header(&slab, slot_size, 0).occupied, 0);
    assert_eq!(read_slot_header(&slab, slot_size, 2).occupied, 0);
}

#[test]
fn next_power_of_two_values() {
    assert_eq!(next_power_of_two(0), 1);
    assert_eq!(next_power_of_two(1), 1);
    assert_eq!(next_power_of_two(2), 2);
    assert_eq!(next_power_of_two(3), 4);
    assert_eq!(next_power_of_two(6), 8);
    assert_eq!(next_power_of_two(8), 8);
    assert_eq!(next_power_of_two(9), 16);
    assert_eq!(next_power_of_two(0x8000_0000), 0x8000_0000);
}

#[test]
fn plan_region_values() {
    let plan = plan_region(3, 512, 4096).unwrap();
    assert_eq!(plan.ht_capacity, 8);
    assert_eq!(plan.slot_size, 64 + 512 + 4096);
    assert_eq!(plan.region_size, 256 + 16 * 8 + 3 * (64 + 512 + 4096));
    let one = plan_region(1, 0, 0).unwrap();
    assert_eq!(one.ht_capacity, 2);
    assert_eq!(one.slot_size, 64);
    assert_eq!(one.region_size, 256 + 32 + 64);
}

#[test]
fn plan_region_rejects_bad_parameters() {
    assert_eq!(plan_region(0, 8, 8).unwrap_err(), RegionError::BadCapacity);
    assert_eq!(plan_region(0x4000_0001, 8, 8).unwrap_err(), RegionError::TooLarge);
    assert_eq!(plan_region(1, u32::MAX, 1).unwrap_err(), RegionError::TooLarge);
}

#[test]
fn init_region_rejects_bad_parameters() {
    let plan = plan_region(2, 8, 8).unwrap();
    let mut region = vec![7u8; plan.region_size];
    assert_eq!(init_region(&mut region, 4, 2, 8, 8, 0).unwrap_err(), RegionError::BadStrategy);
    assert_eq!(init_region(&mut region, 0, 0, 8, 8, 0).unwrap_err(), RegionError::BadCapacity);
    assert_eq!(
        init_region(&mut region, 0, 2, u32::MAX, 8, 0).unwrap_err(),
        RegionError::TooLarge
    );
    assert_eq!(init_region(&mut region, 0, 3, 8, 8, 0).unwrap_err(), RegionError::WrongLength);
    assert!(region.iter().all(|b| *b == 7));
}

#[test]
fn init_region_lays_out_an_empty_cache() {
    let plan = plan_region(3, 8, 8).unwrap();
    let mut region = vec![7u8; plan.region_size];
    assert!(init_region(&mut region, 1, 3, 8, 8, 5).is_ok());
    let h = Header::read(&region);
    assert_eq!(h.magic, MAGIC);
    assert_eq!(h.ttl_nanos, 5);
    assert_eq!(h.hits, 0);
    assert_eq!(h.misses, 0);
    assert_eq!(h.oversize_skips, 0);
    assert_eq!(h.version, 1);
    assert_eq!(h.strategy, 1);
    assert_eq!(h.capacity, 3);
    assert_eq!(h.ht_capacity, 8);
    assert_eq!(h.slot_size, 80);
    assert_eq!(h.max_key_size, 8);
    assert_eq!(h.max_value_size, 8);
    assert_eq!(h.current_size, 0);
    assert_eq!(h.list_head, -1);
    assert_eq!(h.list_tail, -1);
    assert_eq!(h.free_head, 0);
    let ht = &region[256..256 + 128];
    for i in 0..8 {
        assert_eq!(read_bucket(ht, i).slot_index, -1);
        assert_eq!(read_bucket(ht, i).hash, 0);
    }
    let slab = &region[256 + 128..];
    for i in 0..3usize {
        let s = read_slot_header(slab, 80, i);
        assert_eq!(s.occupied, 0);
        assert_eq!(s.prev, -1);
        assert_eq!(s.next, if i < 2 { i as i32 + 1 } else { -1 });
        assert_eq!((s.key_hash, s.created_at_nanos, s.frequency, s.unique_id), (0, 0, 0, 0));
        assert_eq!((s.key_len, s.value_len), (0, 0));
        assert!(slab[i * 80 + 64..(i + 1) * 80].iter().all(|b| *b == 0));
    }
}

#[test]
fn region_matches_compares_the_parameters() {
    let plan = plan_region(3, 8, 8).unwrap();
    let mut region = vec![0u8; plan.region_size];
    assert!(!region_matches(&region, 0, 3, 8, 8));
    assert!(init_region(&mut region, 0, 3, 8, 8, 5).is_ok());
    assert!(region_matches(&region, 0, 3, 8, 8));
    assert!(!region_matches(&region, 1, 3, 8, 8));
    assert!(!region_matches(&region, 0, 3, 8, 9));
    assert!(!region_matches(&region, 0, 3, 9, 8));
    assert!(!region_matches(&region, 0, 2, 8, 8));
    region[0] = b'X';
    assert!(!region_matches(&region, 0, 3, 8, 8));
}

#[test]
fn names_of_the_backing_files() {
    assert_eq!(data_file_name("warp_cache_m_f_00"), "warp_cache_m_f_00.data");
    assert_eq!(lock_file_name("warp_cache_m_f_00"), "warp_cache_m_f_00.lock");
    assert_eq!(data_file_name(""), ".data");
}

#[test]
fn texts_of_the_region_errors() {
    assert_eq!(RegionError::BadStrategy.message(), "unknown strategy");
    assert_eq!(RegionError::BadCapacity.message(), "capacity must be positive");
    assert_eq!(RegionError::TooLarge.message(), "region too large");
    assert_eq!(RegionError::WrongLength.message(), "backing file has the wrong length");
}
