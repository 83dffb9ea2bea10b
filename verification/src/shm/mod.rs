//! Cross-process cache backend: region layout, hash index, eviction order
//! list, seqlock decisions and the cache engine that combines them.
//!
//! The engine works on the bytes of the region. The embedding layer maps the
//! region, takes the writer lock around every call that changes it, and
//! hands the bytes in.

pub mod hashtable;
pub mod laws;
pub mod layout;
pub mod lock;
pub mod model;
pub mod ordering;
pub mod region;
pub mod state;
pub mod steps;

use hashtable::{
    bucket_matches, hit_at, ht_insert, ht_lookup, ht_remove, ideal, is_pow2, lemma_hit_unique,
    lemma_mask, probe_find, probe_passes, probe_pos,
};
use layout::{
    header_at, ht_view, lemma_slot_bounds, read_bucket, read_slot_data, read_slot_header, slab_view,
    slot_at, slot_key, slot_key_matches, splice, write_slot_data, write_slot_header, Bucket, Header,
    Slot, SlotHeader, BUCKET_EMPTY, HEADER_SIZE, MAGIC, SLOT_HEADER_SIZE, SLOT_NONE,
};
use model::{
    contents, find_entry, is_expired, model_enter, model_insert, model_lookup, model_touch,
    place_of_slot, Entry, Lookup,
};
use ordering::{
    evict_candidate, is_chain, lemma_order_is, list_remove, on_access, on_insert, order_of,
    same_but_links,
};
use region::{
    cleared_buckets, cleared_header, cleared_slots, fresh_header, init_region, lemma_region_parts,
    region_buckets, region_contents, region_ht, region_matches, region_slab, region_slots,
    region_wf, reset_parts, setup_of, split_region, RegionError,
};
use state::{free_of, lemma_stats_frame, parts_ok, same_geometry, same_params};
use steps::{
    lemma_detach_index, lemma_detach_lists, lemma_fill, lemma_filled_chain, lemma_find_entry,
    lemma_full, lemma_index_table, lemma_lookup, lemma_lookup_slot, lemma_nonempty_ends,
    lemma_overwrite, lemma_pop_free, lemma_release, lemma_touch, same_but_value,
};
use vstd::prelude::*;

verus! {

/// Takes the head of the free list. The slot taken is in neither list
/// afterwards.
fn pop_free(h: &mut Header, ht: &[u8], slab: &[u8]) -> (idx: i32)
    requires
        parts_ok(*old(h), ht@, slab@, -1),
        old(h).free_head != SLOT_NONE,
    ensures
        idx == old(h).free_head,
        0 <= idx < old(h).capacity,
        *final(h) == (Header { free_head: final(h).free_head, ..*old(h) }),
        parts_ok(*final(h), ht@, slab@, idx as int),
        old(h).current_size < old(h).capacity,
{
    let ghost slots = slab_view(slab@, h.slot_size as int, h.capacity as nat);
    let ghost buckets = ht_view(ht@, h.ht_capacity as nat);
    proof {
        lemma_pop_free(*h, buckets, slots);
        lemma_slot_bounds(h.free_head as int, h.capacity as int, h.slot_size as int);
    }
    let idx = h.free_head;
    let free_slot = read_slot_header(slab, h.slot_size, idx as usize);
    h.free_head = free_slot.next;
    idx
}

/// Writes a slot: its header, then the key and the value into its data
/// area. Every other slot keeps its value.
fn write_entry(
    slab: &mut [u8],
    slot_size: u32,
    capacity: u32,
    idx: usize,
    header: &SlotHeader,
    key_bytes: &[u8],
    value_bytes: &[u8],
)
    requires
        slot_size >= 64,
        capacity * slot_size <= old(slab).len(),
        idx < capacity,
        key_bytes.len() + value_bytes.len() <= slot_size - 64,
        header.key_len == key_bytes.len(),
        header.value_len == value_bytes.len(),
    ensures
        final(slab)@.len() == old(slab)@.len(),
        ({
            let before = slab_view(old(slab)@, slot_size as int, capacity as nat);
            let after = slab_view(final(slab)@, slot_size as int, capacity as nat);
            &&& after[idx as int].header == *header
            &&& after[idx as int].key() == key_bytes@
            &&& after[idx as int].value() == value_bytes@
            &&& forall|i: int| 0 <= i < capacity && i != idx ==> #[trigger] after[i] == before[i]
        }),
{
    let ghost s = slot_size as int;
    let ghost cap = capacity as nat;
    let ghost v0 = slab_view(slab@, s, cap);
    proof {
        lemma_slot_bounds(idx as int, cap as int, s);
        reveal(slot_at);
        assert(v0[idx as int].data.len() == s - 64);
    }
    write_slot_header(slab, slot_size, idx, header);
    let ghost v1 = slab_view(slab@, s, cap);
    assert(v1 == v0.update(idx as int, (Slot { header: *header, data: v0[idx as int].data })));
    write_slot_data(slab, slot_size, idx, 0, key_bytes);
    let ghost v2 = slab_view(slab@, s, cap);
    assert(v2 == v1.update(
        idx as int,
        (Slot { header: *header, data: splice(v1[idx as int].data, 0, key_bytes@) }),
    ));
    write_slot_data(slab, slot_size, idx, key_bytes.len(), value_bytes);
    let ghost v3 = slab_view(slab@, s, cap);
    assert(v3 == v2.update(
        idx as int,
        (Slot {
            header: *header,
            data: splice(v2[idx as int].data, key_bytes@.len() as int, value_bytes@),
        }),
    ));
    proof {
        assert(v3[idx as int].key() =~= key_bytes@);
        assert(v3[idx as int].value() =~= value_bytes@);
    }
}

/// Writes a new entry into the detached slot `idx`, enters it into the
/// index and into the order list, and counts it.
fn fill_slot(
    h: &mut Header,
    ht: &mut [u8],
    slab: &mut [u8],
    idx: i32,
    key_hash: u64,
    key_bytes: &[u8],
    value_bytes: &[u8],
    now: u64,
    uid: u64,
)
    requires
        parts_ok(*old(h), old(ht)@, old(slab)@, idx as int),
        0 <= idx < old(h).capacity,
        key_bytes.len() <= old(h).max_key_size,
        value_bytes.len() <= old(h).max_value_size,
        forall|i: int|
            0 <= i < old(h).capacity && i != idx && (#[trigger] slab_view(
                old(slab)@,
                old(h).slot_size as int,
                old(h).capacity as nat,
            )[i]).header.occupied == 1 ==> !(slab_view(
                old(slab)@,
                old(h).slot_size as int,
                old(h).capacity as nat,
            )[i].header.key_hash == key_hash && slab_view(
                old(slab)@,
                old(h).slot_size as int,
                old(h).capacity as nat,
            )[i].key() == key_bytes@),
    ensures
        final(ht)@.len() == old(ht)@.len(),
        final(slab)@.len() == old(slab)@.len(),
        same_geometry(*old(h), *final(h)),
        parts_ok(*final(h), final(ht)@, final(slab)@, -1),
        contents(*final(h), slab_view(final(slab)@, final(h).slot_size as int, final(h).capacity as nat))
            == model_enter(
            old(h).strategy,
            contents(*old(h), slab_view(old(slab)@, old(h).slot_size as int, old(h).capacity as nat)),
            (Entry {
                key_hash,
                key: key_bytes@,
                value: value_bytes@,
                created_at_nanos: now,
                frequency: 0,
                unique_id: uid,
            }),
        ),
{
    let ghost h0 = *h;
    let ghost s = h.slot_size as int;
    let ghost cap = h.capacity as nat;
    let ghost n = h.ht_capacity;
    let ghost slots = slab_view(slab@, s, cap);
    let ghost buckets = ht_view(ht@, n as nat);
    let ghost order = order_of(slots, h.list_head, h.list_tail);
    proof {
        lemma_mask(key_hash as u32, n);
        assert(is_chain(slots, h.list_head, h.list_tail, order));
    }
    let slot_size = h.slot_size;
    let new_header = SlotHeader {
        key_hash,
        created_at_nanos: now,
        frequency: 0,
        unique_id: uid,
        occupied: 1,
        key_len: key_bytes.len() as u32,
        value_len: value_bytes.len() as u32,
        prev: SLOT_NONE,
        next: SLOT_NONE,
    };
    write_entry(slab, slot_size, h.capacity, idx as usize, &new_header, key_bytes, value_bytes);
    let ghost filled = slab_view(slab@, s, cap);
    proof {
        lemma_filled_chain(h0, slots, filled, idx as int);
    }
    ht_insert(ht, h.ht_capacity, key_hash, idx);
    on_insert(h, slab, slot_size, idx, h.strategy);
    proof {
        let h1 = Header { current_size: (h0.current_size + 1) as u32, ..*h };
        lemma_fill(
            h0,
            h1,
            buckets,
            ht_view(ht@, n as nat),
            slots,
            filled,
            slab_view(slab@, s, cap),
            idx as int,
        );
    }
    h.current_size += 1;
}

/// Takes the occupied slot `idx` out of the index and out of the order
/// list. The slot keeps what it holds and is in neither list afterwards.
fn detach_slot(h: &mut Header, ht: &mut [u8], slab: &mut [u8], idx: i32)
    requires
        parts_ok(*old(h), old(ht)@, old(slab)@, -1),
        order_of(
            slab_view(old(slab)@, old(h).slot_size as int, old(h).capacity as nat),
            old(h).list_head,
            old(h).list_tail,
        ).contains(idx as int),
    ensures
        final(ht)@.len() == old(ht)@.len(),
        final(slab)@.len() == old(slab)@.len(),
        same_geometry(*old(h), *final(h)),
        final(h).free_head == old(h).free_head,
        parts_ok(*final(h), final(ht)@, final(slab)@, idx as int),
        0 <= idx < old(h).capacity,
        ({
            let before = slab_view(old(slab)@, old(h).slot_size as int, old(h).capacity as nat);
            let after = slab_view(final(slab)@, old(h).slot_size as int, old(h).capacity as nat);
            let order = order_of(before, old(h).list_head, old(h).list_tail);
            let k = order.index_of(idx as int);
            &&& order_of(after, final(h).list_head, final(h).list_tail) == order.remove(k)
            &&& free_of(after, final(h).free_head) == free_of(before, old(h).free_head)
            &&& contents(*final(h), after) == contents(*old(h), before).remove(k)
            &&& forall|i: int| 0 <= i < old(h).capacity ==> same_but_links(before[i], #[trigger] after[i])
        }),
{
    let ghost h0 = *h;
    let ghost s = h.slot_size as int;
    let ghost cap = h.capacity as nat;
    let ghost n = h.ht_capacity;
    let ghost slots = slab_view(slab@, s, cap);
    let ghost buckets = ht_view(ht@, n as nat);
    let ghost order = order_of(slots, h.list_head, h.list_tail);
    let ghost k = order.index_of(idx as int);
    proof {
        assert(is_chain(slots, h.list_head, h.list_tail, order));
        assert(0 <= k < order.len() && order[k] == idx);
        assert(0 <= order[k] < cap);
        assert(slots[idx as int].header.occupied == 1);
        lemma_slot_bounds(idx as int, cap as int, s);
        lemma_mask(slots[idx as int].header.key_hash as u32, n);
        lemma_lookup_slot(buckets, slab@, s, cap, n, h.max_key_size as int, idx as int, false);
        lemma_index_table(buckets, slots, n, -1);
    }
    let slot_size = h.slot_size;
    let sh = read_slot_header(slab, slot_size, idx as usize);
    let key = slot_key(slab, slot_size, idx as usize, sh.key_len as usize);
    let removed = ht_remove(ht, h.ht_capacity, slab, slot_size, sh.key_hash, key);
    assert(removed);
    let ghost buckets2 = ht_view(ht@, n as nat);
    list_remove(h, slab, slot_size, idx);
    proof {
        let after = slab_view(slab@, s, cap);
        let p = probe_find(buckets, n, old(slab)@, s, sh.key_hash, key@, false).unwrap();
        let h1 = Header { current_size: (h0.current_size - 1) as u32, ..*h };
        lemma_detach_lists(h0, h1, slots, after, k);
        lemma_detach_index(buckets, buckets2, slots, after, n, p);
    }
    h.current_size -= 1;
}

/// Updates the order list after a hit on the occupied slot `idx`.
fn touch_slot(h: &mut Header, ht: &[u8], slab: &mut [u8], idx: i32)
    requires
        parts_ok(*old(h), ht@, old(slab)@, -1),
        order_of(
            slab_view(old(slab)@, old(h).slot_size as int, old(h).capacity as nat),
            old(h).list_head,
            old(h).list_tail,
        ).contains(idx as int),
    ensures
        final(slab)@.len() == old(slab)@.len(),
        same_geometry(*old(h), *final(h)),
        parts_ok(*final(h), ht@, final(slab)@, -1),
        ({
            let before = slab_view(old(slab)@, old(h).slot_size as int, old(h).capacity as nat);
            let after = slab_view(final(slab)@, old(h).slot_size as int, old(h).capacity as nat);
            let order = order_of(before, old(h).list_head, old(h).list_tail);
            contents(*final(h), after) == model_touch(
                old(h).strategy,
                contents(*old(h), before),
                order.index_of(idx as int),
            )
        }),
{
    let ghost h0 = *h;
    let ghost s = h.slot_size as int;
    let ghost cap = h.capacity as nat;
    let ghost slots = slab_view(slab@, s, cap);
    let ghost buckets = ht_view(ht@, h.ht_capacity as nat);
    let ghost order = order_of(slots, h.list_head, h.list_tail);
    let ghost k = order.index_of(idx as int);
    proof {
        assert(is_chain(slots, h.list_head, h.list_tail, order));
        assert(0 <= k < order.len() && order[k] == idx);
        assert(0 <= order[k] < cap);
    }
    let strategy = h.strategy;
    on_access(h, slab, h.slot_size, idx, strategy);
    proof {
        lemma_touch(h0, *h, buckets, slots, slab_view(slab@, s, cap), idx as int);
    }
}

/// Writes another value into a slot and stamps the slot with `now`. The
/// key of the slot, what else its header holds, and every other slot keep
/// their value.
fn overwrite_value(slab: &mut [u8], slot_size: u32, capacity: u32, idx: usize, value_bytes: &[u8], now: u64)
    requires
        slot_size >= 64,
        capacity * slot_size <= old(slab).len(),
        idx < capacity,
        slab_view(old(slab)@, slot_size as int, capacity as nat)[idx as int].header.key_len
            + value_bytes.len() <= slot_size - 64,
        value_bytes.len() <= u32::MAX,
    ensures
        final(slab)@.len() == old(slab)@.len(),
        ({
            let before = slab_view(old(slab)@, slot_size as int, capacity as nat);
            let after = slab_view(final(slab)@, slot_size as int, capacity as nat);
            &&& same_but_value(before[idx as int], after[idx as int])
            &&& after[idx as int].header.value_len == value_bytes.len()
            &&& after[idx as int].header.created_at_nanos == now
            &&& after[idx as int].value() == value_bytes@
            &&& forall|i: int| 0 <= i < capacity && i != idx ==> #[trigger] after[i] == before[i]
        }),
{
    let ghost s = slot_size as int;
    let ghost cap = capacity as nat;
    let ghost v0 = slab_view(slab@, s, cap);
    proof {
        lemma_slot_bounds(idx as int, cap as int, s);
        reveal(slot_at);
        assert(v0[idx as int].data.len() == s - 64);
    }
    let mut sh = read_slot_header(slab, slot_size, idx);
    sh.value_len = value_bytes.len() as u32;
    sh.created_at_nanos = now;
    write_slot_header(slab, slot_size, idx, &sh);
    let ghost v1 = slab_view(slab@, s, cap);
    assert(v1 == v0.update(idx as int, (Slot { header: sh, data: v0[idx as int].data })));
    write_slot_data(slab, slot_size, idx, sh.key_len as usize, value_bytes);
    let ghost v2 = slab_view(slab@, s, cap);
    proof {
        assert(v2 == v1.update(
            idx as int,
            (Slot {
                header: sh,
                data: splice(v1[idx as int].data, sh.key_len as int, value_bytes@),
            }),
        ));
        assert(v2[idx as int].key() =~= v0[idx as int].key());
        assert(v2[idx as int].value() =~= value_bytes@);
    }
}

/// Overwrites the value of the occupied slot `idx`, stamps it with `now`
/// and counts the write as an access.
fn update_entry(h: &mut Header, ht: &[u8], slab: &mut [u8], idx: i32, value_bytes: &[u8], now: u64)
    requires
        parts_ok(*old(h), ht@, old(slab)@, -1),
        order_of(
            slab_view(old(slab)@, old(h).slot_size as int, old(h).capacity as nat),
            old(h).list_head,
            old(h).list_tail,
        ).contains(idx as int),
        value_bytes.len() <= old(h).max_value_size,
    ensures
        final(slab)@.len() == old(slab)@.len(),
        same_geometry(*old(h), *final(h)),
        parts_ok(*final(h), ht@, final(slab)@, -1),
        ({
            let before = slab_view(old(slab)@, old(h).slot_size as int, old(h).capacity as nat);
            let after = slab_view(final(slab)@, old(h).slot_size as int, old(h).capacity as nat);
            let order = order_of(before, old(h).list_head, old(h).list_tail);
            let k = order.index_of(idx as int);
            let entries = contents(*old(h), before);
            contents(*final(h), after) == model_touch(
                old(h).strategy,
                entries.update(k, (Entry { value: value_bytes@, created_at_nanos: now, ..entries[k] })),
                k,
            )
        }),
{
    let ghost s = h.slot_size as int;
    let ghost cap = h.capacity as nat;
    let ghost slots = slab_view(slab@, s, cap);
    let ghost buckets = ht_view(ht@, h.ht_capacity as nat);
    let ghost order = order_of(slots, h.list_head, h.list_tail);
    let ghost k = order.index_of(idx as int);
    proof {
        assert(is_chain(slots, h.list_head, h.list_tail, order));
        assert(0 <= k < order.len() && order[k] == idx);
        assert(0 <= order[k] < cap);
        assert(slots[idx as int].header.occupied == 1);
    }
    overwrite_value(slab, h.slot_size, h.capacity, idx as usize, value_bytes, now);
    proof {
        lemma_overwrite(*h, buckets, slots, slab_view(slab@, s, cap), idx as int);
    }
    touch_slot(h, ht, slab, idx);
}

/// Marks the detached slot `idx` free and puts it at the head of the free
/// list.
fn release_slot(h: &mut Header, ht: &[u8], slab: &mut [u8], idx: i32)
    requires
        parts_ok(*old(h), ht@, old(slab)@, idx as int),
        0 <= idx < old(h).capacity,
    ensures
        final(slab)@.len() == old(slab)@.len(),
        same_geometry(*old(h), *final(h)),
        final(h).current_size == old(h).current_size,
        parts_ok(*final(h), ht@, final(slab)@, -1),
        contents(*final(h), slab_view(final(slab)@, old(h).slot_size as int, old(h).capacity as nat))
            == contents(*old(h), slab_view(old(slab)@, old(h).slot_size as int, old(h).capacity as nat)),
{
    let ghost h0 = *h;
    let ghost s = h.slot_size as int;
    let ghost cap = h.capacity as nat;
    let ghost slots = slab_view(slab@, s, cap);
    let ghost buckets = ht_view(ht@, h.ht_capacity as nat);
    proof {
        lemma_slot_bounds(idx as int, cap as int, s);
    }
    let slot_size = h.slot_size;
    let mut sh = read_slot_header(slab, slot_size, idx as usize);
    sh.occupied = 0;
    sh.next = h.free_head;
    sh.prev = SLOT_NONE;
    write_slot_header(slab, slot_size, idx as usize, &sh);
    h.free_head = idx;
    proof {
        let after = slab_view(slab@, s, cap);
        assert(after == slots.update(idx as int, (Slot { header: sh, data: slots[idx as int].data })));
        lemma_release(h0, *h, buckets, slots, after, idx as int);
    }
}

/// Removes the entry of the occupied slot `idx` and frees the slot.
fn remove_slot(h: &mut Header, ht: &mut [u8], slab: &mut [u8], idx: i32)
    requires
        parts_ok(*old(h), old(ht)@, old(slab)@, -1),
        order_of(
            slab_view(old(slab)@, old(h).slot_size as int, old(h).capacity as nat),
            old(h).list_head,
            old(h).list_tail,
        ).contains(idx as int),
    ensures
        final(ht)@.len() == old(ht)@.len(),
        final(slab)@.len() == old(slab)@.len(),
        same_geometry(*old(h), *final(h)),
        parts_ok(*final(h), final(ht)@, final(slab)@, -1),
        ({
            let before = slab_view(old(slab)@, old(h).slot_size as int, old(h).capacity as nat);
            let after = slab_view(final(slab)@, old(h).slot_size as int, old(h).capacity as nat);
            let order = order_of(before, old(h).list_head, old(h).list_tail);
            contents(*final(h), after) == contents(*old(h), before).remove(order.index_of(idx as int))
        }),
{
    detach_slot(h, ht, slab, idx);
    release_slot(h, ht, slab, idx);
}

/// The insert itself, on the parts of the region.
fn insert_inner(
    h: &mut Header,
    ht: &mut [u8],
    slab: &mut [u8],
    now: u64,
    key_hash: u64,
    key_bytes: &[u8],
    value_bytes: &[u8],
    uid: u64,
) -> (fresh: bool)
    requires
        parts_ok(*old(h), old(ht)@, old(slab)@, -1),
        key_bytes.len() <= old(h).max_key_size,
        value_bytes.len() <= old(h).max_value_size,
    ensures
        fresh == find_entry(
            contents(*old(h), slab_view(old(slab)@, old(h).slot_size as int, old(h).capacity as nat)),
            key_hash,
            key_bytes@,
        ).is_none(),
        final(ht)@.len() == old(ht)@.len(),
        final(slab)@.len() == old(slab)@.len(),
        same_geometry(*old(h), *final(h)),
        parts_ok(*final(h), final(ht)@, final(slab)@, -1),
        contents(*final(h), slab_view(final(slab)@, old(h).slot_size as int, old(h).capacity as nat))
            == model_insert(
            old(h).strategy,
            old(h).capacity as nat,
            contents(*old(h), slab_view(old(slab)@, old(h).slot_size as int, old(h).capacity as nat)),
            key_hash,
            key_bytes@,
            value_bytes@,
            now,
            uid,
        ),
{
    let ghost h0 = *h;
    let ghost s = h.slot_size as int;
    let ghost cap = h.capacity as nat;
    let ghost n = h.ht_capacity;
    let ghost slots = slab_view(slab@, s, cap);
    let ghost buckets = ht_view(ht@, n as nat);
    let ghost order = order_of(slots, h.list_head, h.list_tail);
    let ghost entries = contents(h0, slots);
    proof {
        lemma_mask(key_hash as u32, n);
        lemma_lookup(
            buckets,
            slab@,
            s,
            cap,
            n,
            -1,
            h.max_key_size as int,
            key_hash,
            key_bytes@,
            true,
        );
        lemma_find_entry(h0, buckets, slots, -1, key_hash, key_bytes@);
    }
    let existing = ht_lookup(ht, h.ht_capacity, slab, h.slot_size, key_hash, key_bytes);
    match existing {
        Some(idx) => {
            proof {
                assert(slots[idx as int].header.occupied == 1);
                assert(order.contains(idx as int));
            }
            update_entry(h, ht, slab, idx, value_bytes, now);
            false
        },
        None => {
            let strategy = h.strategy;
            let idx = if h.free_head != SLOT_NONE {
                proof {
                    lemma_pop_free(h0, buckets, slots);
                    lemma_order_is(slots, h.list_head, h.list_tail, order);
                }
                pop_free(h, ht, slab)
            } else if h.current_size >= h.capacity {
                proof {
                    lemma_nonempty_ends(h0, slots);
                    assert(entries.drop_first() =~= entries.remove(0));
                    assert(entries.drop_last() =~= entries.remove(entries.len() - 1));
                }
                let victim = evict_candidate(h, strategy);
                if victim == SLOT_NONE {
                    return true;
                }
                detach_slot(h, ht, slab, victim);
                victim
            } else {
                proof {
                    lemma_full(h0, slots);
                }
                return true;
            };
            proof {
                let mid = slab_view(slab@, s, cap);
                assert forall|i: int|
                    0 <= i < cap && i != idx && (#[trigger] mid[i]).header.occupied == 1 implies !(
                mid[i].header.key_hash == key_hash && mid[i].key() == key_bytes@) by {
                    assert(same_but_links(slots[i], mid[i]));
                    assert(slots[i].header.occupied == 1);
                }
            }
            fill_slot(h, ht, slab, idx, key_hash, key_bytes, value_bytes, now, uid);
            true
        },
    }
}

/// A counter after one more event: it wraps to 0 after the largest value.
pub open spec fn counted(c: u64) -> u64 {
    if c == u64::MAX {
        0
    } else {
        (c + 1) as u64
    }
}

/// Counts one more event on a wrapping counter.
pub fn count_up(c: u64) -> (r: u64)
    ensures
        r == counted(c),
{
    if c == u64::MAX {
        0
    } else {
        c + 1
    }
}

/// The outcome of a `get`.
#[derive(Debug)]
pub enum ShmGetResult {
    /// The key is cached: a copy of its value bytes.
    Hit(Vec<u8>),
    /// The key is not cached, or its entry had expired.
    Miss,
}

/// The outcome of the read-only phase of a `get`.
#[derive(Debug)]
pub enum OptimisticResult {
    /// The key is cached: a copy of its value bytes, and its slot for the
    /// update of the order list.
    Hit { value: Vec<u8>, slot_index: i32 },
    /// The key is not cached.
    Miss,
    /// The key is cached but its entry has expired: its slot for the
    /// removal.
    Expired { slot_index: i32 },
}

/// What a `get` has left to do under the writer lock once its read-only
/// phase is over.
#[derive(Clone, Copy, Debug, PartialEq, Eq, Structural)]
pub enum Settlement {
    /// Nothing: the lookup was a miss, or a hit under FIFO.
    Nothing,
    /// Count the access to the entry of this slot in the order list.
    Touch(i32),
    /// Remove the expired entry of this slot.
    Remove(i32),
}

/// What is left to do after the read-only phase has come to `found`, under
/// the policy `strategy`: a hit is counted in the order list unless the
/// policy is FIFO, an expired entry is removed, a miss needs nothing.
pub fn settlement(found: &OptimisticResult, strategy: u32) -> (plan: Settlement)
    ensures
        plan == (match *found {
            OptimisticResult::Hit { value, slot_index } => if strategy != 2 {
                Settlement::Touch(slot_index)
            } else {
                Settlement::Nothing
            },
            OptimisticResult::Miss => Settlement::Nothing,
            OptimisticResult::Expired { slot_index } => Settlement::Remove(slot_index),
        }),
{
    match found {
        OptimisticResult::Hit { value, slot_index } => {
            if strategy != 2 {
                Settlement::Touch(*slot_index)
            } else {
                Settlement::Nothing
            }
        },
        OptimisticResult::Miss => Settlement::Nothing,
        OptimisticResult::Expired { slot_index } => Settlement::Remove(*slot_index),
    }
}

/// The statistics of a shared cache.
#[derive(Clone, Copy, Debug)]
pub struct ShmCacheInfo {
    pub hits: u64,
    pub misses: u64,
    pub max_size: usize,
    pub current_size: usize,
    pub oversize_skips: u64,
}

/// What a checked lookup comes to: a miss, the slot of an expired entry,
/// or the slot of a live entry.
pub enum Checked {
    Miss,
    Expired(i32),
    Hit(i32),
}

/// What a result of the read-only phase says, without the value.
pub open spec fn checked_of(r: OptimisticResult) -> Checked {
    match r {
        OptimisticResult::Miss => Checked::Miss,
        OptimisticResult::Expired { slot_index } => Checked::Expired(slot_index),
        OptimisticResult::Hit { value, slot_index } => Checked::Hit(slot_index),
    }
}

/// What bucket `b` decides of a checked lookup, or `None` if the probe
/// goes on behind it.
///
/// An empty bucket is a miss. A bucket with another hash is passed. A
/// bucket with the hash of the key that names no slot of the slab is a
/// miss. A slot that is unoccupied or holds a key of another length is
/// passed. A slot whose key and value do not fit is a miss. A slot with
/// other key bytes is passed. What is left is the entry of the key,
/// expired or live.
pub open spec fn checked_at(h: Header, b: Bucket, slab: Seq<u8>, key_hash: u64, key: Seq<u8>, now: u64) -> Option<
    Checked,
> {
    let slot = slot_at(slab, h.slot_size as int, b.slot_index as int);
    let stored = slot.header.key_len + slot.header.value_len;
    if b.slot_index == -1 {
        Some(Checked::Miss)
    } else if b.hash != key_hash {
        None
    } else if b.slot_index < 0 || b.slot_index >= h.capacity || (b.slot_index + 1) * h.slot_size
        > slab.len() {
        Some(Checked::Miss)
    } else if slot.header.occupied == 0 || slot.header.key_len != key.len() {
        None
    } else if stored > h.max_key_size + h.max_value_size || stored > h.slot_size - 64 {
        Some(Checked::Miss)
    } else if slot.key() != key {
        None
    } else if is_expired(h.ttl_nanos, slot.header.created_at_nanos, now) {
        Some(Checked::Expired(b.slot_index))
    } else {
        Some(Checked::Hit(b.slot_index))
    }
}

/// What a checked lookup comes to from probe step `d` on: the decision of
/// the first bucket that decides, and a miss if none does within
/// `ht_capacity` steps.
pub open spec fn checked_probe(
    h: Header,
    buckets: Seq<Bucket>,
    slab: Seq<u8>,
    key_hash: u64,
    key: Seq<u8>,
    now: u64,
    d: int,
) -> Checked
    decreases h.ht_capacity - d,
{
    if d < 0 || d >= h.ht_capacity {
        Checked::Miss
    } else {
        match checked_at(
            h,
            buckets[probe_pos(ideal(key_hash, h.ht_capacity), d, h.ht_capacity as int)],
            slab,
            key_hash,
            key,
            now,
        ) {
            Some(c) => c,
            None => checked_probe(h, buckets, slab, key_hash, key, now, d + 1),
        }
    }
}

/// Looks a key up in the parts of a region without changing them: the
/// lookup of the index with every index and length that it reads checked
/// against the bounds of the parts, the check of the time to live, and the
/// copy of the value.
///
/// A bucket with the hash of the key that names a slot outside of the
/// slab, and a slot with the length of the key whose key and value do not
/// fit its data area, end the lookup with a miss: no sound region has them,
/// so a writer is at work and the caller's validation will fail.
#[verifier::rlimit(60)]
fn ht_lookup_checked(h: &Header, ht: &[u8], slab: &[u8], now: u64, key_hash: u64, key_bytes: &[u8]) -> (r:
    OptimisticResult)
    requires
        is_pow2(h.ht_capacity),
        16 * h.ht_capacity <= ht.len(),
        h.slot_size >= SLOT_HEADER_SIZE,
    ensures
        checked_of(r) == checked_probe(
            *h,
            ht_view(ht@, h.ht_capacity as nat),
            slab@,
            key_hash,
            key_bytes@,
            now,
            0,
        ),
        r matches OptimisticResult::Hit { value, slot_index } ==> value@ == slot_at(
            slab@,
            h.slot_size as int,
            slot_index as int,
        ).value(),
        parts_ok(*h, ht@, slab@, -1) ==> ({
            let slots = slab_view(slab@, h.slot_size as int, h.capacity as nat);
            let entries = contents(*h, slots);
            let order = order_of(slots, h.list_head, h.list_tail);
            match model_lookup(entries, h.ttl_nanos, key_hash, key_bytes@, now) {
                Lookup::Absent => r is Miss,
                Lookup::Expired(k) => r matches OptimisticResult::Expired { slot_index }
                    && slot_index == order[k] && order.contains(slot_index as int),
                Lookup::Live(k) => r matches OptimisticResult::Hit { value, slot_index } && value@
                    == entries[k].value && slot_index == order[k] && order.contains(
                    slot_index as int,
                ),
            }
        }),
{
    let ghost sound = parts_ok(*h, ht@, slab@, -1);
    let ghost goal = checked_probe(
        *h,
        ht_view(ht@, h.ht_capacity as nat),
        slab@,
        key_hash,
        key_bytes@,
        now,
        0,
    );
    let ghost s = h.slot_size as int;
    let ghost cap = h.capacity as nat;
    let ghost n = h.ht_capacity;
    let ghost buckets = ht_view(ht@, n as nat);
    let ghost slots = slab_view(slab@, s, cap);
    let ghost order = order_of(slots, h.list_head, h.list_tail);
    proof {
        lemma_mask(key_hash as u32, n);
        if sound {
            lemma_lookup(buckets, slab@, s, cap, n, -1, h.max_key_size as int, key_hash, key_bytes@, true);
            lemma_find_entry(*h, buckets, slots, -1, key_hash, key_bytes@);
            assert(is_chain(slots, h.list_head, h.list_tail, order));
        }
    }
    let ht_capacity = h.ht_capacity;
    let slot_size = h.slot_size;
    let room = slot_size as u64 - SLOT_HEADER_SIZE as u64;
    let max_data = h.max_key_size as u64 + h.max_value_size as u64;
    let mask = ht_capacity - 1;
    let mut idx = (key_hash as u32) & mask;
    let mut d: u32 = 0;
    while d < ht_capacity
        invariant
            is_pow2(ht_capacity),
            16 * ht_capacity <= ht.len(),
            slot_size >= SLOT_HEADER_SIZE,
            ht_capacity == h.ht_capacity,
            slot_size == h.slot_size,
            n == ht_capacity,
            s == slot_size as int,
            cap == h.capacity,
            room == slot_size - 64,
            max_data == h.max_key_size + h.max_value_size,
            mask == ht_capacity - 1,
            buckets == ht_view(ht@, n as nat),
            slots == slab_view(slab@, s, cap),
            order == order_of(slots, h.list_head, h.list_tail),
            sound == parts_ok(*h, ht@, slab@, -1),
            0 <= d <= ht_capacity,
            0 <= idx < ht_capacity,
            0 <= ideal(key_hash, ht_capacity) < ht_capacity,
            d < ht_capacity ==> idx == probe_pos(ideal(key_hash, ht_capacity), d as int, ht_capacity as int),
            goal == checked_probe(*h, buckets, slab@, key_hash, key_bytes@, now, 0),
            goal == checked_probe(*h, buckets, slab@, key_hash, key_bytes@, now, d as int),
            forall|e: int|
                0 <= e < d ==> #[trigger] probe_passes(
                    buckets,
                    ht_capacity,
                    slab@,
                    s,
                    key_hash,
                    key_bytes@,
                    true,
                    e,
                ),
            sound ==> match probe_find(buckets, n, slab@, s, key_hash, key_bytes@, true) {
                Some(p) => {
                    let i = buckets[p].slot_index as int;
                    &&& 0 <= p < n
                    &&& 0 <= i < cap
                    &&& slots[i].header.occupied == 1
                    &&& slots[i].header.key_hash == key_hash
                    &&& slots[i].key() == key_bytes@
                    &&& find_entry(contents(*h, slots), key_hash, key_bytes@) == Some(
                        order.index_of(i),
                    )
                },
                None => find_entry(contents(*h, slots), key_hash, key_bytes@).is_none(),
            },
        decreases ht_capacity - d,
    {
        let bucket = read_bucket(ht, idx as usize);
        assert(bucket == buckets[idx as int]);
        assert(goal == (match checked_at(*h, bucket, slab@, key_hash, key_bytes@, now) {
            Some(c) => c,
            None => checked_probe(*h, buckets, slab@, key_hash, key_bytes@, now, d + 1),
        }));
        if bucket.slot_index == BUCKET_EMPTY {
            proof {
                assert forall|x: int| !hit_at(buckets, n, slab@, s, key_hash, key_bytes@, true, x) by {
                    if hit_at(buckets, n, slab@, s, key_hash, key_bytes@, true, x) {
                        if x < d {
                            assert(probe_passes(buckets, n, slab@, s, key_hash, key_bytes@, true, x));
                        } else if x > d {
                            assert(probe_passes(
                                buckets,
                                n,
                                slab@,
                                s,
                                key_hash,
                                key_bytes@,
                                true,
                                d as int,
                            ));
                        }
                    }
                }
            }
            return OptimisticResult::Miss;
        }
        if bucket.hash == key_hash {
            let slot_index = bucket.slot_index;
            if slot_index < 0 || slot_index as u32 >= h.capacity {
                return OptimisticResult::Miss;
            }
            let index = slot_index as usize;
            assert((index + 1) * slot_size <= 0x8000_0000 * 0x1_0000_0000) by (nonlinear_arith)
                requires
                    0 <= index < 0x8000_0000,
                    0 <= slot_size < 0x1_0000_0000,
            ;
            proof {
                lemma_slot_bounds(index as int, cap as int, s);
            }
            if (index as u64 + 1) * (slot_size as u64) > slab.len() as u64 {
                return OptimisticResult::Miss;
            }
            let sh = read_slot_header(slab, slot_size, index);
            proof {
                reveal(slot_at);
                assert(slot_at(slab@, s, index as int).data.len() == s - 64);
                if sound {
                    assert(slots[index as int] == slot_at(slab@, s, index as int));
                    assert(slots[index as int].header.occupied == 1);
                }
            }
            if sh.occupied != 0 && sh.key_len as usize == key_bytes.len() {
                let stored = sh.key_len as u64 + sh.value_len as u64;
                if stored > max_data || stored > room {
                    return OptimisticResult::Miss;
                }
                if slot_key_matches(slab, slot_size, index, sh.key_len as usize, key_bytes) {
                    proof {
                        assert(bucket_matches(bucket, slab@, s, key_hash, key_bytes@, true));
                        assert(hit_at(buckets, n, slab@, s, key_hash, key_bytes@, true, d as int));
                        let c = choose|x: int|
                            hit_at(buckets, n, slab@, s, key_hash, key_bytes@, true, x);
                        lemma_hit_unique(buckets, n, slab@, s, key_hash, key_bytes@, true, c, d as int);
                        if sound {
                            let k = order.index_of(index as int);
                            assert(order.contains(index as int));
                            assert(order[k] == index);
                        }
                    }
                    if h.ttl_nanos > 0 && now.saturating_sub(sh.created_at_nanos) > h.ttl_nanos {
                        return OptimisticResult::Expired { slot_index };
                    }
                    let value = read_slot_data(
                        slab,
                        slot_size,
                        index,
                        sh.key_len as usize,
                        sh.value_len as usize,
                    );
                    return OptimisticResult::Hit { value, slot_index };
                }
            }
        }
        assert(probe_passes(buckets, n, slab@, s, key_hash, key_bytes@, true, d as int));
        proof {
            lemma_mask(idx, ht_capacity);
        }
        let ghost here = idx as int;
        idx = (idx + 1) & mask;
        assert(idx == probe_pos(here, 1, ht_capacity as int));
        d += 1;
    }
    proof {
        assert forall|x: int| !hit_at(buckets, n, slab@, s, key_hash, key_bytes@, true, x) by {
            if hit_at(buckets, n, slab@, s, key_hash, key_bytes@, true, x) {
                assert(probe_passes(buckets, n, slab@, s, key_hash, key_bytes@, true, x));
            }
        }
    }
    OptimisticResult::Miss
}

/// After a hit: if slot `idx` still holds an entry with hash `key_hash`,
/// counts the access in the order list.
fn settle_hit(h: &mut Header, ht: &[u8], slab: &mut [u8], idx: i32, key_hash: u64)
    requires
        parts_ok(*old(h), ht@, old(slab)@, -1),
    ensures
        final(slab)@.len() == old(slab)@.len(),
        same_geometry(*old(h), *final(h)),
        parts_ok(*final(h), ht@, final(slab)@, -1),
        ({
            let before = slab_view(old(slab)@, old(h).slot_size as int, old(h).capacity as nat);
            let after = slab_view(final(slab)@, old(h).slot_size as int, old(h).capacity as nat);
            let entries = contents(*old(h), before);
            contents(*final(h), after) == (match place_of_slot(*old(h), before, idx as int) {
                Some(k) => if entries[k].key_hash == key_hash {
                    model_touch(old(h).strategy, entries, k)
                } else {
                    entries
                },
                None => entries,
            })
        }),
{
    if idx < 0 || idx as u32 >= h.capacity {
        return ;
    }
    let ghost s = h.slot_size as int;
    let ghost cap = h.capacity as nat;
    let ghost slots = slab_view(slab@, s, cap);
    let ghost order = order_of(slots, h.list_head, h.list_tail);
    proof {
        lemma_slot_bounds(idx as int, cap as int, s);
        assert(is_chain(slots, h.list_head, h.list_tail, order));
        assert(slots[idx as int].header.occupied <= 1);
        if order.contains(idx as int) {
            let k = order.index_of(idx as int);
            assert(order[k] == idx);
        }
    }
    let sh = read_slot_header(slab, h.slot_size, idx as usize);
    if sh.occupied != 0 && sh.key_hash == key_hash {
        touch_slot(h, ht, slab, idx);
    }
}

/// After an expired lookup: if slot `idx` still holds the entry of
/// `key_bytes`, removes it.
fn settle_expired(h: &mut Header, ht: &mut [u8], slab: &mut [u8], idx: i32, key_hash: u64, key_bytes: &[u8])
    requires
        parts_ok(*old(h), old(ht)@, old(slab)@, -1),
    ensures
        final(ht)@.len() == old(ht)@.len(),
        final(slab)@.len() == old(slab)@.len(),
        same_geometry(*old(h), *final(h)),
        parts_ok(*final(h), final(ht)@, final(slab)@, -1),
        ({
            let before = slab_view(old(slab)@, old(h).slot_size as int, old(h).capacity as nat);
            let after = slab_view(final(slab)@, old(h).slot_size as int, old(h).capacity as nat);
            let entries = contents(*old(h), before);
            contents(*final(h), after) == (match place_of_slot(*old(h), before, idx as int) {
                Some(k) => if entries[k].key_hash == key_hash && entries[k].key == key_bytes@ {
                    entries.remove(k)
                } else {
                    entries
                },
                None => entries,
            })
        }),
{
    if idx < 0 || idx as u32 >= h.capacity {
        return ;
    }
    let ghost s = h.slot_size as int;
    let ghost cap = h.capacity as nat;
    let ghost slots = slab_view(slab@, s, cap);
    let ghost order = order_of(slots, h.list_head, h.list_tail);
    proof {
        lemma_slot_bounds(idx as int, cap as int, s);
        assert(is_chain(slots, h.list_head, h.list_tail, order));
        assert(slots[idx as int].header.occupied <= 1);
        if order.contains(idx as int) {
            let k = order.index_of(idx as int);
            assert(order[k] == idx);
        }
    }
    let sh = read_slot_header(slab, h.slot_size, idx as usize);
    if sh.occupied != 0 && sh.key_hash == key_hash {
        if slot_key_matches(slab, h.slot_size, idx as usize, sh.key_len as usize, key_bytes) {
            remove_slot(h, ht, slab, idx);
        }
    }
}

/// The lookup itself, on the parts of the region.
fn get_inner(h: &mut Header, ht: &mut [u8], slab: &mut [u8], now: u64, key_hash: u64, key_bytes: &[u8]) -> (r:
    ShmGetResult)
    requires
        parts_ok(*old(h), old(ht)@, old(slab)@, -1),
    ensures
        final(ht)@.len() == old(ht)@.len(),
        final(slab)@.len() == old(slab)@.len(),
        same_params(*old(h), *final(h)),
        final(h).oversize_skips == old(h).oversize_skips,
        parts_ok(*final(h), final(ht)@, final(slab)@, -1),
        ({
            let entries = contents(
                *old(h),
                slab_view(old(slab)@, old(h).slot_size as int, old(h).capacity as nat),
            );
            let after = contents(
                *final(h),
                slab_view(final(slab)@, old(h).slot_size as int, old(h).capacity as nat),
            );
            match model_lookup(entries, old(h).ttl_nanos, key_hash, key_bytes@, now) {
                Lookup::Absent => r is Miss && after == entries && final(h).hits == old(h).hits
                    && final(h).misses == counted(old(h).misses),
                Lookup::Expired(k) => r is Miss && after == entries.remove(k) && final(h).hits
                    == old(h).hits && final(h).misses == counted(old(h).misses),
                Lookup::Live(k) => r matches ShmGetResult::Hit(value) && value@ == entries[k].value
                    && after == model_touch(old(h).strategy, entries, k) && final(h).misses
                    == old(h).misses && final(h).hits == counted(old(h).hits),
            }
        }),
{
    let ghost h0 = *h;
    let ghost slots = slab_view(slab@, h.slot_size as int, h.capacity as nat);
    let ghost order = order_of(slots, h.list_head, h.list_tail);
    proof {
        assert(is_chain(slots, h.list_head, h.list_tail, order));
    }
    let found = ht_lookup_checked(h, ht, slab, now, key_hash, key_bytes);
    proof {
        match checked_of(found) {
            Checked::Hit(slot_index) => {
                let k = order.index_of(slot_index as int);
                assert(order[k] == slot_index);
                assert(0 <= order[k] < slots.len());
                assert(slots[slot_index as int].header.occupied <= 1);
            },
            Checked::Miss => {},
            Checked::Expired(slot_index) => {
                let k = order.index_of(slot_index as int);
                assert(order[k] == slot_index);
                assert(0 <= order[k] < slots.len());
                assert(slots[slot_index as int].header.occupied <= 1);
            },
        }
    }
    match settlement(&found, h.strategy) {
        Settlement::Nothing => {},
        Settlement::Touch(slot_index) => {
            settle_hit(h, ht, slab, slot_index, key_hash);
        },
        Settlement::Remove(slot_index) => {
            settle_expired(h, ht, slab, slot_index, key_hash, key_bytes);
        },
    }
    let result = match found {
        OptimisticResult::Hit { value, slot_index } => ShmGetResult::Hit(value),
        OptimisticResult::Miss => ShmGetResult::Miss,
        OptimisticResult::Expired { slot_index } => ShmGetResult::Miss,
    };
    let ghost mid = *h;
    match result {
        ShmGetResult::Hit(_) => {
            h.hits = count_up(h.hits);
        },
        ShmGetResult::Miss => {
            h.misses = count_up(h.misses);
        },
    }
    proof {
        lemma_stats_frame(mid, *h, ht@, slab@, -1);
    }
    result
}

/// The header of region `r` names a bucket array that lies inside the
/// region and can be probed: the bucket count is a power of two, and a slot
/// is at least its fixed part.
pub open spec fn region_probeable(r: Seq<u8>) -> bool {
    &&& r.len() >= 256
    &&& is_pow2(header_at(r).ht_capacity)
    &&& header_at(r).slot_size >= 64
    &&& 256 + 16 * header_at(r).ht_capacity <= r.len()
}

/// The handle of one attached process on a shared region.
///
/// The region itself is handed to each call; the handle holds what is
/// private to the process: the counter from which new entries take their
/// unique ids.
#[derive(Debug)]
pub struct ShmCache {
    next_unique_id: u64,
}

impl ShmCache {
    /// The unique id that the next new entry gets.
    pub closed spec fn next_id(&self) -> u64 {
        self.next_unique_id
    }

    /// A handle whose unique ids start at 0.
    pub fn new() -> (cache: ShmCache)
        ensures
            cache.next_id() == 0,
    {
        ShmCache { next_unique_id: 0 }
    }

    /// Whether the key or the value is longer than a slot of the region has
    /// room for. Such an entry is not cached.
    pub fn is_oversize(&self, region: &[u8], key_bytes: &[u8], value_bytes: &[u8]) -> (r: bool)
        requires
            region.len() >= 256,
        ensures
            r == (key_bytes@.len() > header_at(region@).max_key_size || value_bytes@.len()
                > header_at(region@).max_value_size),
    {
        let h = Header::read(region);
        key_bytes.len() > h.max_key_size as usize || value_bytes.len() > h.max_value_size as usize
    }

    /// Inserts `key_bytes` with `value_bytes` at time `now`. The caller holds
    /// the writer lock.
    ///
    /// A key that is present keeps its slot: the slot takes the value and
    /// the time, and the write counts as an access. A new key takes a free
    /// slot, or, with the cache full, the slot of the entry that the policy
    /// evicts; it enters with frequency 0 and the next unique id. An
    /// oversize entry is not inserted and the region stays as it is.
    pub fn insert(&mut self, region: &mut [u8], now: u64, key_hash: u64, key_bytes: &[u8], value_bytes: &[u8])
        requires
            region_wf(old(region)@),
        ensures
            final(region)@.len() == old(region)@.len(),
            region_wf(final(region)@),
            same_geometry(header_at(old(region)@), header_at(final(region)@)),
            ({
                let h = header_at(old(region)@);
                let before = region_contents(old(region)@);
                let oversize = key_bytes@.len() > h.max_key_size || value_bytes@.len()
                    > h.max_value_size;
                let fresh = !oversize && find_entry(before, key_hash, key_bytes@).is_none();
                &&& region_contents(final(region)@) == (if oversize {
                    before
                } else {
                    model_insert(
                        h.strategy,
                        h.capacity as nat,
                        before,
                        key_hash,
                        key_bytes@,
                        value_bytes@,
                        now,
                        old(self).next_id(),
                    )
                })
                &&& final(self).next_id() == (if fresh {
                    counted(old(self).next_id())
                } else {
                    old(self).next_id()
                })
            }),
    {
        let mut h = Header::read(region);
        if key_bytes.len() > h.max_key_size as usize || value_bytes.len() > h.max_value_size as usize {
            return ;
        }
        let ghost h0 = h;
        assert(region.len() >= 256 + 16 * h.ht_capacity);
        let (head, ht, slab) = split_region(region, 16 * (h.ht_capacity as usize));
        proof {
            assert(header_at(head@) == h0);
        }
        let fresh = insert_inner(
            &mut h,
            ht,
            slab,
            now,
            key_hash,
            key_bytes,
            value_bytes,
            self.next_unique_id,
        );
        h.write_state(head);
        proof {
            assert(header_at(head@) == h);
            lemma_region_parts(head@ + ht@ + slab@, head@, ht@, slab@);
        }
        if fresh {
            self.next_unique_id = count_up(self.next_unique_id);
        }
    }

    /// Attaches to the region in `region`, setting it up first unless it
    /// already holds a region with these parameters.
    ///
    /// A region that opens with the magic and gives the same policy,
    /// capacity, key room and value room is taken over with what it holds,
    /// whatever its time to live. Any other content is discarded and a fresh
    /// region is laid out. The parameters are rejected as `init_region`
    /// rejects them.
    pub fn create_or_open(
        region: &mut [u8],
        strategy: u32,
        capacity: u32,
        max_key_size: u32,
        max_value_size: u32,
        ttl_nanos: u64,
    ) -> (r: Result<ShmCache, RegionError>)
        ensures
            final(region)@.len() == old(region)@.len(),
            match (
                r,
                setup_of(strategy, capacity, max_key_size, max_value_size, old(region)@.len() as int),
            ) {
                (Ok(cache), Ok(plan)) => {
                    let h = header_at(old(region)@);
                    let kept = h.magic == MAGIC && h.capacity == capacity && h.strategy
                        == strategy && h.max_key_size == max_key_size && h.max_value_size
                        == max_value_size && h.ht_capacity == plan.0 && h.slot_size == plan.1;
                    &&& cache.next_id() == 0
                    &&& kept ==> final(region)@ == old(region)@
                    &&& !kept ==> region_wf(final(region)@) && region_contents(final(region)@)
                        == Seq::<Entry>::empty() && header_at(final(region)@)
                        == fresh_header(
                        strategy,
                        capacity,
                        max_key_size,
                        max_value_size,
                        ttl_nanos,
                    )
                },
                (Err(e), Err(want)) => e == want && final(region)@ == old(region)@,
                _ => false,
            },
    {
        if strategy <= 3 && region_matches(region, strategy, capacity, max_key_size, max_value_size) {
            return Ok(ShmCache { next_unique_id: 0 });
        }
        match init_region(region, strategy, capacity, max_key_size, max_value_size, ttl_nanos) {
            Ok(_) => Ok(ShmCache { next_unique_id: 0 }),
            Err(e) => Err(e),
        }
    }

    /// The read-only phase of a `get`: looks the key up at time `now` and
    /// copies the value out. It may run while a writer is active: whatever
    /// the bytes are, every index and length that it reads from them is
    /// checked before it is used, and a region that does not check out is a
    /// miss. The caller validates the read.
    pub fn lookup_checked(region: &[u8], now: u64, key_hash: u64, key_bytes: &[u8]) -> (r:
        OptimisticResult)
        ensures
            !region_probeable(region@) ==> r is Miss,
            region_probeable(region@) ==> checked_of(r) == checked_probe(
                header_at(region@),
                region_buckets(region@),
                region_slab(region@),
                key_hash,
                key_bytes@,
                now,
                0,
            ),
            region_probeable(region@) ==> (r matches OptimisticResult::Hit { value, slot_index }
                ==> value@ == slot_at(
                region_slab(region@),
                header_at(region@).slot_size as int,
                slot_index as int,
            ).value()),
            region_wf(region@) ==> ({
                let h = header_at(region@);
                let entries = region_contents(region@);
                let order = order_of(region_slots(region@), h.list_head, h.list_tail);
                match model_lookup(entries, h.ttl_nanos, key_hash, key_bytes@, now) {
                    Lookup::Absent => r is Miss,
                    Lookup::Expired(k) => r matches OptimisticResult::Expired { slot_index }
                        && slot_index == order[k],
                    Lookup::Live(k) => r matches OptimisticResult::Hit { value, slot_index }
                        && value@ == entries[k].value && slot_index == order[k],
                }
            }),
    {
        if region.len() < HEADER_SIZE {
            return OptimisticResult::Miss;
        }
        let h = Header::read(region);
        let n = h.ht_capacity;
        if n == 0 || n & (n - 1) != 0 || h.slot_size < 64 {
            return OptimisticResult::Miss;
        }
        if 256 + 16 * (n as u64) > region.len() as u64 {
            return OptimisticResult::Miss;
        }
        let ht_end = HEADER_SIZE + 16 * (n as usize);
        let ht = vstd::slice::slice_subrange(region, HEADER_SIZE, ht_end);
        let slab = vstd::slice::slice_subrange(region, ht_end, region.len());
        ht_lookup_checked(&h, ht, slab, now, key_hash, key_bytes)
    }

    /// The second phase of a `get` that hit, under the writer lock: if the
    /// remembered slot still holds an entry with this hash, the access is
    /// counted in the order list; if the slot has been taken over in the
    /// meantime, nothing changes.
    pub fn touch(&self, region: &mut [u8], slot_index: i32, key_hash: u64)
        requires
            region_wf(old(region)@),
        ensures
            final(region)@.len() == old(region)@.len(),
            region_wf(final(region)@),
            same_geometry(header_at(old(region)@), header_at(final(region)@)),
            ({
                let h = header_at(old(region)@);
                let entries = region_contents(old(region)@);
                region_contents(final(region)@) == (match place_of_slot(
                    h,
                    region_slots(old(region)@),
                    slot_index as int,
                ) {
                    Some(k) => if entries[k].key_hash == key_hash {
                        model_touch(h.strategy, entries, k)
                    } else {
                        entries
                    },
                    None => entries,
                })
            }),
    {
        let mut h = Header::read(region);
        assert(region.len() >= 256 + 16 * h.ht_capacity);
        let (head, ht, slab) = split_region(region, 16 * (h.ht_capacity as usize));
        settle_hit(&mut h, ht, slab, slot_index, key_hash);
        h.write_state(head);
        proof {
            assert(header_at(head@) == h);
            lemma_region_parts(head@ + ht@ + slab@, head@, ht@, slab@);
        }
    }

    /// The second phase of a `get` that found an expired entry, under the
    /// writer lock: if the remembered slot still holds the entry of this
    /// key, the entry is removed and the slot freed; otherwise nothing
    /// changes.
    pub fn remove_expired(&self, region: &mut [u8], slot_index: i32, key_hash: u64, key_bytes: &[u8])
        requires
            region_wf(old(region)@),
        ensures
            final(region)@.len() == old(region)@.len(),
            region_wf(final(region)@),
            same_geometry(header_at(old(region)@), header_at(final(region)@)),
            ({
                let h = header_at(old(region)@);
                let entries = region_contents(old(region)@);
                region_contents(final(region)@) == (match place_of_slot(
                    h,
                    region_slots(old(region)@),
                    slot_index as int,
                ) {
                    Some(k) => if entries[k].key_hash == key_hash && entries[k].key == key_bytes@ {
                        entries.remove(k)
                    } else {
                        entries
                    },
                    None => entries,
                })
            }),
    {
        let mut h = Header::read(region);
        assert(region.len() >= 256 + 16 * h.ht_capacity);
        let (head, ht, slab) = split_region(region, 16 * (h.ht_capacity as usize));
        settle_expired(&mut h, ht, slab, slot_index, key_hash, key_bytes);
        h.write_state(head);
        proof {
            assert(header_at(head@) == h);
            lemma_region_parts(head@ + ht@ + slab@, head@, ht@, slab@);
        }
    }

    /// Looks `key_bytes` up at time `now`, with no other process at work on
    /// the region.
    ///
    /// A live entry is a hit: its value is copied out, the access is counted
    /// in the order list as the policy has it, and `hits` goes up by one. An
    /// entry older than the time to live is removed, its slot freed, and the
    /// call is a miss. A miss raises `misses` by one.
    pub fn get(&self, region: &mut [u8], now: u64, key_hash: u64, key_bytes: &[u8]) -> (r:
        ShmGetResult)
        requires
            region_wf(old(region)@),
        ensures
            final(region)@.len() == old(region)@.len(),
            region_wf(final(region)@),
            same_params(header_at(old(region)@), header_at(final(region)@)),
            header_at(final(region)@).oversize_skips == header_at(old(region)@).oversize_skips,
            ({
                let h = header_at(old(region)@);
                let h2 = header_at(final(region)@);
                let entries = region_contents(old(region)@);
                let after = region_contents(final(region)@);
                match model_lookup(entries, h.ttl_nanos, key_hash, key_bytes@, now) {
                    Lookup::Absent => r is Miss && after == entries && h2.hits == h.hits
                        && h2.misses == counted(h.misses),
                    Lookup::Expired(k) => r is Miss && after == entries.remove(k) && h2.hits
                        == h.hits && h2.misses == counted(h.misses),
                    Lookup::Live(k) => r matches ShmGetResult::Hit(value) && value@
                        == entries[k].value && after == model_touch(h.strategy, entries, k)
                        && h2.misses == h.misses && h2.hits == counted(h.hits),
                }
            }),
    {
        let mut h = Header::read(region);
        assert(region.len() >= 256 + 16 * h.ht_capacity);
        let (head, ht, slab) = split_region(region, 16 * (h.ht_capacity as usize));
        let result = get_inner(&mut h, ht, slab, now, key_hash, key_bytes);
        h.write_state(head);
        h.write_counters(head);
        proof {
            assert(header_at(head@) == h);
            lemma_region_parts(head@ + ht@ + slab@, head@, ht@, slab@);
        }
        result
    }

    /// Empties the cache. The caller holds the writer lock.
    ///
    /// Every bucket is emptied, every slot is put on the free list, the
    /// order list is empty and the counters, the statistics among them, are
    /// zero. The unique ids of the handle go on from where they are.
    pub fn clear(&mut self, region: &mut [u8])
        requires
            region_wf(old(region)@),
        ensures
            final(region)@.len() == old(region)@.len(),
            region_wf(final(region)@),
            header_at(final(region)@) == cleared_header(header_at(old(region)@)),
            region_buckets(final(region)@) == cleared_buckets(
                header_at(old(region)@).ht_capacity as nat,
            ),
            region_slots(final(region)@) == cleared_slots(region_slots(old(region)@)),
            region_contents(final(region)@) == Seq::<Entry>::empty(),
            final(self).next_id() == old(self).next_id(),
    {
        let mut h = Header::read(region);
        assert(region.len() >= 256 + 16 * h.ht_capacity);
        let (head, ht, slab) = split_region(region, 16 * (h.ht_capacity as usize));
        reset_parts(&mut h, ht, slab);
        h.write(head);
        proof {
            lemma_region_parts(head@ + ht@ + slab@, head@, ht@, slab@);
        }
    }

    /// Counts one entry that was not cached for its size: `oversize_skips`
    /// goes up by one.
    pub fn record_oversize_skip(&self, region: &mut [u8])
        requires
            old(region).len() >= 256,
        ensures
            final(region)@.len() == old(region)@.len(),
            header_at(final(region)@) == (Header {
                oversize_skips: counted(header_at(old(region)@).oversize_skips),
                ..header_at(old(region)@)
            }),
            forall|k: int| 40 <= k < old(region)@.len() ==> final(region)@[k] == old(region)@[k],
            forall|k: int| 0 <= k < 16 ==> final(region)@[k] == old(region)@[k],
            region_wf(old(region)@) ==> region_wf(final(region)@) && region_contents(
                final(region)@,
            ) == region_contents(old(region)@),
    {
        let mut h = Header::read(region);
        h.oversize_skips = count_up(h.oversize_skips);
        h.write_counters(region);
        proof {
            if region_wf(old(region)@) {
                assert(region_ht(region@) =~= region_ht(old(region)@));
                assert(region_slab(region@) =~= region_slab(old(region)@));
                lemma_stats_frame(
                    header_at(old(region)@),
                    header_at(region@),
                    region_ht(region@),
                    region_slab(region@),
                    -1,
                );
            }
        }
    }

    /// The statistics of the cache as the header gives them.
    pub fn info(&self, region: &[u8]) -> (info: ShmCacheInfo)
        requires
            region.len() >= 256,
        ensures
            info.hits == header_at(region@).hits,
            info.misses == header_at(region@).misses,
            info.max_size == header_at(region@).capacity,
            info.current_size == header_at(region@).current_size,
            info.oversize_skips == header_at(region@).oversize_skips,
    {
        let h = Header::read(region);
        ShmCacheInfo {
            hits: h.hits,
            misses: h.misses,
            max_size: h.capacity as usize,
            current_size: h.current_size as usize,
            oversize_skips: h.oversize_skips,
        }
    }
}

} // verus!
