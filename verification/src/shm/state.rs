//! What a sound region is.
//!
//! The invariant of the shared region, stated over the typed views of its
//! three parts: the header, the buckets and the slots. It holds whenever no
//! writer is active; while a writer is at work on one slot, it holds but
//! for that slot.

use super::hashtable::{holds, is_pow2, probe_ok, slots_distinct};
use super::layout::{ht_view, slab_view, Bucket, Header, Slot, MAGIC};
use super::model::contents;
use super::ordering::{lfu_sorted, links_wf, order_of};
use vstd::prelude::*;

verus! {

/// `free` is the free list that starts at `free_head`: it names each of its
/// slots once, and the `next` fields of the slots link them in this order.
pub open spec fn is_free_chain(slots: Seq<Slot>, free_head: i32, free: Seq<int>) -> bool {
    &&& free.no_duplicates()
    &&& forall|k: int| 0 <= k < free.len() ==> 0 <= #[trigger] free[k] < slots.len()
    &&& forall|a: int, b: int|
        0 <= a && b == a + 1 && b < free.len() ==> slots[#[trigger] free[a]].header.next
            == #[trigger] free[b]
    &&& free.len() > 0 ==> slots[free[free.len() - 1]].header.next == -1
    &&& free_head == (if free.len() == 0 {
        -1
    } else {
        free[0]
    })
}

/// The `next` links from `free_head` on form a list.
pub open spec fn free_wf(slots: Seq<Slot>, free_head: i32) -> bool {
    exists|free: Seq<int>| is_free_chain(slots, free_head, free)
}

/// The free list as the sequence of its slot indices.
pub open spec fn free_of(slots: Seq<Slot>, free_head: i32) -> Seq<int> {
    choose|free: Seq<int>| is_free_chain(slots, free_head, free)
}

proof fn lemma_free_step(slots: Seq<Slot>, free_head: i32, f1: Seq<int>, f2: Seq<int>, k: int)
    requires
        is_free_chain(slots, free_head, f1),
        is_free_chain(slots, free_head, f2),
        0 <= k,
    ensures
        k < f1.len() <==> k < f2.len(),
        k < f1.len() ==> f1[k] == f2[k],
    decreases k,
{
    if k == 0 {
        if f1.len() > 0 {
            assert(0 <= f1[0]);
        }
        if f2.len() > 0 {
            assert(0 <= f2[0]);
        }
    } else {
        lemma_free_step(slots, free_head, f1, f2, k - 1);
        if k - 1 < f1.len() {
            assert(f1[k - 1] == f2[k - 1]);
            if k < f1.len() {
                assert(0 <= f1[k]);
                assert(slots[f1[k - 1]].header.next == f1[k]);
            }
            if k < f2.len() {
                assert(0 <= f2[k]);
                assert(slots[f2[k - 1]].header.next == f2[k]);
            }
        }
    }
}

/// A sequence that describes the free list is the free list.
pub proof fn lemma_free_is(slots: Seq<Slot>, free_head: i32, free: Seq<int>)
    requires
        is_free_chain(slots, free_head, free),
    ensures
        free_wf(slots, free_head),
        free_of(slots, free_head) == free,
{
    let other = free_of(slots, free_head);
    lemma_free_step(slots, free_head, free, other, free.len() as int);
    lemma_free_step(slots, free_head, free, other, other.len() as int);
    assert forall|k: int| 0 <= k < free.len() implies free[k] == other[k] by {
        lemma_free_step(slots, free_head, free, other, k);
    }
    assert(free =~= other);
}

/// The index agrees with the slots, but for slot `hole`, which no bucket
/// names: every entry is reachable, no slot is named twice, every bucket
/// names an occupied slot with its hash, and every occupied slot is named.
pub open spec fn index_ok_except(buckets: Seq<Bucket>, slots: Seq<Slot>, n: u32, hole: int) -> bool {
    &&& buckets.len() == n
    &&& slots.len() <= i32::MAX
    &&& probe_ok(buckets, n)
    &&& slots_distinct(buckets, n)
    &&& forall|p: int|
        0 <= p < n && (#[trigger] buckets[p]).slot_index != -1 ==> {
            &&& 0 <= buckets[p].slot_index < slots.len()
            &&& buckets[p].slot_index != hole
            &&& slots[buckets[p].slot_index as int].header.occupied == 1
            &&& slots[buckets[p].slot_index as int].header.key_hash == buckets[p].hash
        }
    &&& forall|i: int|
        0 <= i < slots.len() && i != hole && (#[trigger] slots[i]).header.occupied == 1 ==> holds(
            buckets,
            (Bucket { hash: slots[i].header.key_hash, slot_index: i as i32 }),
        )
}

/// No two occupied slots, `hole` apart, hold the same key.
pub open spec fn keys_distinct_except(slots: Seq<Slot>, hole: int) -> bool {
    forall|i: int, j: int|
        0 <= i < slots.len() && 0 <= j < slots.len() && i != j && i != hole && j != hole && (
        #[trigger] slots[i]).header.occupied == 1 && (#[trigger] slots[j]).header.occupied == 1 ==> !(
        slots[i].header.key_hash == slots[j].header.key_hash && slots[i].key() == slots[j].key())
}

/// The fixed parameters of the region are consistent with each other and
/// with the sizes of its parts.
pub open spec fn geometry_ok(h: Header, ht_len: int, slab_len: int) -> bool {
    &&& h.magic == MAGIC
    &&& h.strategy <= 3
    &&& 1 <= h.capacity
    &&& is_pow2(h.ht_capacity)
    &&& 2 * h.capacity <= h.ht_capacity
    &&& h.slot_size == 64 + h.max_key_size + h.max_value_size
    &&& ht_len == 16 * h.ht_capacity
    &&& slab_len == h.capacity * h.slot_size
}

/// The two lists are sound, but for slot `hole`, which is in neither: the
/// order list holds the occupied slots, the free list the others, the header
/// counts the occupied slots, no stored key or value is longer than the
/// slot has room for, and under LFU the order list is sorted.
pub open spec fn lists_ok_except(h: Header, slots: Seq<Slot>, hole: int) -> bool {
    let order = order_of(slots, h.list_head, h.list_tail);
    let free = free_of(slots, h.free_head);
    &&& slots.len() == h.capacity
    &&& links_wf(slots, h.list_head, h.list_tail)
    &&& free_wf(slots, h.free_head)
    &&& !order.contains(hole)
    &&& !free.contains(hole)
    &&& forall|i: int|
        0 <= i < slots.len() && i != hole ==> {
            &&& (#[trigger] slots[i]).header.occupied <= 1
            &&& slots[i].header.occupied == 1 <==> order.contains(i)
            &&& order.contains(i) <==> !free.contains(i)
            &&& slots[i].header.occupied == 1 ==> slots[i].header.key_len <= h.max_key_size
                && slots[i].header.value_len <= h.max_value_size
        }
    &&& h.current_size == order.len()
    &&& h.strategy == 3 ==> lfu_sorted(slots, order)
}

/// The state of the region is sound, but for slot `hole`, which is in
/// neither list and which no bucket names. With no such slot (`hole` is
/// `-1`) this is the invariant that holds whenever no writer is active.
pub open spec fn state_ok_except(h: Header, buckets: Seq<Bucket>, slots: Seq<Slot>, hole: int) -> bool {
    &&& lists_ok_except(h, slots, hole)
    &&& index_ok_except(buckets, slots, h.ht_capacity, hole)
    &&& keys_distinct_except(slots, hole)
}

/// The parts of a region are of the sizes that the header gives, and their
/// state is sound but for slot `hole`.
pub open spec fn parts_ok(h: Header, ht: Seq<u8>, slab: Seq<u8>, hole: int) -> bool {
    &&& geometry_ok(h, ht.len() as int, slab.len() as int)
    &&& state_ok_except(
        h,
        ht_view(ht, h.ht_capacity as nat),
        slab_view(slab, h.slot_size as int, h.capacity as nat),
        hole,
    )
}

/// Header `b` is header `a` but for the fields that change under the writer
/// lock.
pub open spec fn same_geometry(a: Header, b: Header) -> bool {
    b == (Header {
        current_size: b.current_size,
        list_head: b.list_head,
        list_tail: b.list_tail,
        free_head: b.free_head,
        ..a
    })
}

/// Header `b` has the parameters of header `a`: what may differ is the
/// state that changes under the writer lock and the statistics.
pub open spec fn same_params(a: Header, b: Header) -> bool {
    b == (Header {
        hits: b.hits,
        misses: b.misses,
        oversize_skips: b.oversize_skips,
        current_size: b.current_size,
        list_head: b.list_head,
        list_tail: b.list_tail,
        free_head: b.free_head,
        ..a
    })
}

/// The statistics counters have no part in the soundness of a region.
pub proof fn lemma_stats_frame(a: Header, b: Header, ht: Seq<u8>, slab: Seq<u8>, hole: int)
    requires
        parts_ok(a, ht, slab, hole),
        b == (Header { hits: b.hits, misses: b.misses, oversize_skips: b.oversize_skips, ..a }),
    ensures
        parts_ok(b, ht, slab, hole),
        contents(b, slab_view(slab, b.slot_size as int, b.capacity as nat)) == contents(
            a,
            slab_view(slab, a.slot_size as int, a.capacity as nat),
        ),
{
}

} // verus!
