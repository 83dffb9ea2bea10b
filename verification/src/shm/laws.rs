//! Laws of the shared cache: what holds of every sound region, and so
//! after every operation of the engine, and what holds of the contents
//! across operations.

use super::hashtable::{hit_at, ideal, is_pow2, lemma_mask, probe_passes, probe_pos};
use super::layout::{header_at, Header, Slot};
use super::model::{
    entry_place, find_entry, has_key, is_entry_place, model_evict, model_insert, Entry,
};
use super::ordering::{bump, is_chain, lfu_le, order_of};
use super::region::{region_buckets, region_contents, region_slab, region_slots, region_wf};
use super::state::{free_of, same_geometry};
use super::steps::{lemma_list_bound, lemma_lookup_slot, lemma_probe_dist};
use vstd::prelude::*;

verus! {

/// In a sound region a slot is marked occupied exactly if it is in the
/// order list, and exactly if it is not in the free list.
pub proof fn lemma_occupied_iff_listed(r: Seq<u8>, i: int)
    requires
        region_wf(r),
        0 <= i < header_at(r).capacity,
    ensures
        region_slots(r)[i].header.occupied == 1 <==> order_of(
            region_slots(r),
            header_at(r).list_head,
            header_at(r).list_tail,
        ).contains(i),
        order_of(region_slots(r), header_at(r).list_head, header_at(r).list_tail).contains(i)
            <==> !free_of(region_slots(r), header_at(r).free_head).contains(i),
        region_slots(r)[i].header.occupied == 0 || region_slots(r)[i].header.occupied == 1,
{
    assert(region_slots(r)[i].header.occupied <= 1);
}

/// The slots of `slots` that are marked occupied.
pub open spec fn occupied_set(slots: Seq<Slot>) -> Set<int> {
    Set::new(|i: int| 0 <= i < slots.len() && slots[i].header.occupied == 1)
}

/// In a sound region `current_size` is the number of occupied slots, and
/// the number of entries.
pub proof fn lemma_size_counts_occupied(r: Seq<u8>)
    requires
        region_wf(r),
    ensures
        occupied_set(region_slots(r)).finite(),
        header_at(r).current_size == occupied_set(region_slots(r)).len(),
        header_at(r).current_size == region_contents(r).len(),
        header_at(r).current_size <= header_at(r).capacity,
{
    let h = header_at(r);
    let slots = region_slots(r);
    let order = order_of(slots, h.list_head, h.list_tail);
    assert(is_chain(slots, h.list_head, h.list_tail, order));
    order.unique_seq_to_set();
    assert(order.to_set() =~= occupied_set(slots)) by {
        assert forall|i: int| order.to_set().contains(i) <==> occupied_set(slots).contains(i) by {
            if order.contains(i) {
                let k = choose|k: int| 0 <= k < order.len() && order[k] == i;
                assert(0 <= order[k] < slots.len());
                assert(slots[i].header.occupied <= 1);
            }
            if 0 <= i < slots.len() {
                assert(slots[i].header.occupied <= 1);
            }
        }
    }
    lemma_list_bound(order, slots.len() as int, -1);
}

/// In a sound region the order list has no head exactly if it has no
/// tail, and exactly if the cache holds no entry.
pub proof fn lemma_empty_iff_no_ends(r: Seq<u8>)
    requires
        region_wf(r),
    ensures
        header_at(r).list_head == -1 <==> header_at(r).current_size == 0,
        header_at(r).list_tail == -1 <==> header_at(r).current_size == 0,
{
    let h = header_at(r);
    let slots = region_slots(r);
    let order = order_of(slots, h.list_head, h.list_tail);
    assert(is_chain(slots, h.list_head, h.list_tail, order));
    if order.len() > 0 {
        assert(0 <= order[0]);
        assert(0 <= order[order.len() - 1]);
    }
}

/// In a sound region the bucket count is a power of two and at most half
/// of the buckets are taken.
pub proof fn lemma_load_factor(r: Seq<u8>)
    requires
        region_wf(r),
    ensures
        is_pow2(header_at(r).ht_capacity),
        2 * header_at(r).current_size <= header_at(r).ht_capacity,
{
    lemma_size_counts_occupied(r);
}

/// In a sound LFU region the order list is sorted ascending by
/// `(frequency, unique_id)`.
pub proof fn lemma_lfu_order(r: Seq<u8>, a: int, b: int)
    requires
        region_wf(r),
        header_at(r).strategy == 3,
        0 <= a <= b < region_contents(r).len(),
    ensures
        lfu_le(
            region_contents(r)[a].frequency,
            region_contents(r)[a].unique_id,
            region_contents(r)[b].frequency,
            region_contents(r)[b].unique_id,
        ),
{
    let h = header_at(r);
    let slots = region_slots(r);
    let order = order_of(slots, h.list_head, h.list_tail);
    if a < b {
        assert(lfu_le(
            slots[order[a]].header.frequency,
            slots[order[a]].header.unique_id,
            slots[order[b]].header.frequency,
            slots[order[b]].header.unique_id,
        ));
    }
}

/// In a sound region a search for the key of an occupied slot ends at the
/// bucket of that slot after at most `ht_capacity / 2` probes.
pub proof fn lemma_reachable(r: Seq<u8>, i: int)
    requires
        region_wf(r),
        0 <= i < header_at(r).capacity,
        region_slots(r)[i].header.occupied == 1,
    ensures
        exists|d: int|
            #![trigger probe_pos(ideal(region_slots(r)[i].header.key_hash, header_at(r).ht_capacity), d, header_at(r).ht_capacity as int)]
            hit_at(
                region_buckets(r),
                header_at(r).ht_capacity,
                region_slab(r),
                header_at(r).slot_size as int,
                region_slots(r)[i].header.key_hash,
                region_slots(r)[i].key(),
                true,
                d,
            ) && 2 * (d + 1) <= header_at(r).ht_capacity && region_buckets(r)[probe_pos(
                ideal(region_slots(r)[i].header.key_hash, header_at(r).ht_capacity),
                d,
                header_at(r).ht_capacity as int,
            )].slot_index == i,
{
    let h = header_at(r);
    let n = h.ht_capacity;
    let slab = region_slab(r);
    let s = h.slot_size as int;
    let cap = h.capacity as nat;
    let slots = region_slots(r);
    let buckets = region_buckets(r);
    let key_hash = slots[i].header.key_hash;
    let key = slots[i].key();
    let start = ideal(key_hash, n);
    lemma_mask(key_hash as u32, n);
    lemma_lookup_slot(buckets, slab, s, cap, n, h.max_key_size as int, i, true);
    let d = choose|d: int| hit_at(buckets, n, slab, s, key_hash, key, true, d);
    assert(hit_at(buckets, n, slab, s, key_hash, key, true, d));
    let g = |e: int| probe_pos(start, e, n as int);
    let f = |q: int| buckets[q].slot_index as int;
    let steps = vstd::set_lib::set_int_range(0, d + 1);
    let path = steps.map(g);
    let named = path.map(f);
    let all = vstd::set_lib::set_int_range(0, cap as int);
    vstd::set_lib::lemma_int_range(0, d + 1);
    vstd::set_lib::lemma_int_range(0, cap as int);
    assert(vstd::relations::injective_on(g, steps)) by {
        assert forall|e1: int, e2: int|
            steps.contains(e1) && steps.contains(e2) && #[trigger] g(e1) == #[trigger] g(e2) implies e1
            == e2 by {
            lemma_probe_dist(start, start, e1, n as int);
            lemma_probe_dist(start, start, e2, n as int);
        }
    }
    vstd::set_lib::lemma_map_size(steps, path, g);
    assert forall|q: int| path.contains(q) implies 0 <= q < n && buckets[q].slot_index != -1 by {
        let e = choose|e: int| steps.contains(e) && g(e) == q;
        lemma_probe_dist(start, start, e, n as int);
        if e < d {
            assert(probe_passes(buckets, n, slab, s, key_hash, key, true, e));
        }
    }
    assert(vstd::relations::injective_on(f, path)) by {
        assert forall|q1: int, q2: int|
            path.contains(q1) && path.contains(q2) && #[trigger] f(q1) == #[trigger] f(q2) implies q1
            == q2 by {
            assert(buckets[q1].slot_index != -1);
            assert(buckets[q2].slot_index != -1);
        }
    }
    vstd::set_lib::lemma_map_size(path, named, f);
    assert(named.subset_of(all)) by {
        assert forall|v: int| named.contains(v) implies all.contains(v) by {
            let q = choose|q: int| path.contains(q) && f(q) == v;
            assert(buckets[q].slot_index != -1);
        }
    }
    vstd::set_lib::lemma_len_subset(named, all);
    assert(d + 1 <= cap);
}

/// Under LFU there is a place for every entry that enters.
pub proof fn lemma_entry_place_exists(entries: Seq<Entry>, freq: u64, uid: u64)
    ensures
        is_entry_place(entries, freq, uid, entry_place(entries, freq, uid)),
        0 <= entry_place(entries, freq, uid) <= entries.len(),
{
    lemma_place_below(entries, freq, uid, entries.len() as int);
}

proof fn lemma_place_below(entries: Seq<Entry>, freq: u64, uid: u64, c: int)
    requires
        0 <= c <= entries.len(),
        forall|x: int|
            c <= x < entries.len() ==> !lfu_le(
                (#[trigger] entries[x]).frequency,
                entries[x].unique_id,
                freq,
                uid,
            ),
    ensures
        exists|p: int| is_entry_place(entries, freq, uid, p),
    decreases c,
{
    if c == 0 {
        assert(is_entry_place(entries, freq, uid, 0));
    } else if lfu_le(entries[c - 1].frequency, entries[c - 1].unique_id, freq, uid) {
        assert(is_entry_place(entries, freq, uid, c));
    } else {
        lemma_place_below(entries, freq, uid, c - 1);
    }
}

/// An insert leaves the key in the cache, and the number of entries within
/// the capacity.
pub proof fn lemma_insert_present(
    strategy: u32,
    capacity: nat,
    entries: Seq<Entry>,
    key_hash: u64,
    key: Seq<u8>,
    value: Seq<u8>,
    now: u64,
    uid: u64,
)
    requires
        capacity >= 1,
        entries.len() <= capacity,
    ensures
        find_entry(
            model_insert(strategy, capacity, entries, key_hash, key, value, now, uid),
            key_hash,
            key,
        ).is_some(),
        model_insert(strategy, capacity, entries, key_hash, key, value, now, uid).len() <= capacity,
        model_insert(strategy, capacity, entries, key_hash, key, value, now, uid).len() == (
        if find_entry(entries, key_hash, key).is_some() || entries.len() >= capacity {
            entries.len()
        } else {
            entries.len() + 1
        }),
{
    let after = model_insert(strategy, capacity, entries, key_hash, key, value, now, uid);
    match find_entry(entries, key_hash, key) {
        Some(i) => {
            assert(has_key(entries, i, key_hash, key));
            let e = Entry { value, created_at_nanos: now, ..entries[i] };
            let upd = entries.update(i, e);
            let rest = upd.remove(i);
            if strategy == 0 || strategy == 1 {
                assert(has_key(after, after.len() - 1, key_hash, key));
            } else if strategy == 3 {
                let e2 = Entry { frequency: bump(e.frequency), ..e };
                lemma_entry_place_exists(rest, e2.frequency, e2.unique_id);
                let p = entry_place(rest, e2.frequency, e2.unique_id);
                assert(after[p] == e2);
                assert(has_key(after, p, key_hash, key));
            } else {
                assert(has_key(after, i, key_hash, key));
            }
        },
        None => {
            let base = if entries.len() >= capacity {
                model_evict(strategy, entries)
            } else {
                entries
            };
            let e = Entry { key_hash, key, value, created_at_nanos: now, frequency: 0, unique_id: uid };
            if strategy == 3 {
                lemma_entry_place_exists(base, 0, uid);
                let p = entry_place(base, 0, uid);
                assert(after[p] == e);
                assert(has_key(after, p, key_hash, key));
            } else {
                assert(has_key(after, after.len() - 1, key_hash, key));
            }
        },
    }
}

/// Inserting the same key and value a second time does not change the
/// number of entries.
pub proof fn lemma_insert_twice(
    strategy: u32,
    capacity: nat,
    entries: Seq<Entry>,
    key_hash: u64,
    key: Seq<u8>,
    value: Seq<u8>,
    now1: u64,
    uid1: u64,
    now2: u64,
    uid2: u64,
)
    requires
        capacity >= 1,
        entries.len() <= capacity,
    ensures
        model_insert(
            strategy,
            capacity,
            model_insert(strategy, capacity, entries, key_hash, key, value, now1, uid1),
            key_hash,
            key,
            value,
            now2,
            uid2,
        ).len() == model_insert(strategy, capacity, entries, key_hash, key, value, now1, uid1).len(),
{
    let once = model_insert(strategy, capacity, entries, key_hash, key, value, now1, uid1);
    lemma_insert_present(strategy, capacity, entries, key_hash, key, value, now1, uid1);
    lemma_insert_present(strategy, capacity, once, key_hash, key, value, now2, uid2);
}

/// The contents that an insert into a region with header `h` leaves: an
/// oversize entry changes nothing.
pub open spec fn insert_outcome(
    h: Header,
    entries: Seq<Entry>,
    key_hash: u64,
    key: Seq<u8>,
    value: Seq<u8>,
    now: u64,
    uid: u64,
) -> Seq<Entry> {
    if key.len() > h.max_key_size || value.len() > h.max_value_size {
        entries
    } else {
        model_insert(h.strategy, h.capacity as nat, entries, key_hash, key, value, now, uid)
    }
}

/// Idempotent insert: if `r1` is a region after an insert and `r2` the
/// region after a second insert of the same key and value, `current_size`
/// is the same in both.
pub proof fn lemma_insert_twice_size(
    r0: Seq<u8>,
    r1: Seq<u8>,
    r2: Seq<u8>,
    key_hash: u64,
    key: Seq<u8>,
    value: Seq<u8>,
    now1: u64,
    uid1: u64,
    now2: u64,
    uid2: u64,
)
    requires
        region_wf(r0),
        region_wf(r1),
        region_wf(r2),
        same_geometry(header_at(r0), header_at(r1)),
        same_geometry(header_at(r1), header_at(r2)),
        region_contents(r1) == insert_outcome(
            header_at(r0),
            region_contents(r0),
            key_hash,
            key,
            value,
            now1,
            uid1,
        ),
        region_contents(r2) == insert_outcome(
            header_at(r1),
            region_contents(r1),
            key_hash,
            key,
            value,
            now2,
            uid2,
        ),
    ensures
        header_at(r2).current_size == header_at(r1).current_size,
{
    lemma_size_counts_occupied(r0);
    lemma_size_counts_occupied(r1);
    lemma_size_counts_occupied(r2);
    let h = header_at(r0);
    if !(key.len() > h.max_key_size || value.len() > h.max_value_size) {
        lemma_insert_twice(
            h.strategy,
            h.capacity as nat,
            region_contents(r0),
            key_hash,
            key,
            value,
            now1,
            uid1,
            now2,
            uid2,
        );
    }
}

} // verus!
