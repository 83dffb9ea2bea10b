//! Why the engine keeps a region sound: the lemmas that carry the
//! invariant, and the contents, across the steps of an insert, a hit, a
//! removal and a lookup.

use super::hashtable::{
    bucket_matches, dist, first_empty_at, has_empty, hit_at, holds, ideal, insert_pos, is_pow2,
    on_path, probe_find, probe_passes, probe_pos, table_wf, taken_at,
};
use super::layout::{lemma_slot_bounds, slab_view, slot_at, Bucket, Header, Slot};
use super::model::{
    contents, entries_of, entry_of, entry_place, find_entry, has_key, is_entry_place,
    lemma_entry_place_is, model_enter, model_touch, Entry,
};
use super::ordering::{
    bump, is_chain, is_lfu_place, lemma_chain_frame, lemma_lfu_remove_sorted, lemma_order_is,
    lemma_removed_absent, lfu_le, lfu_place, lfu_sorted, links_wf, order_after_access,
    order_after_insert, order_of, same_but_links, same_entry,
};
use super::state::{
    free_of, index_ok_except, is_free_chain, keys_distinct_except, lemma_free_is, lists_ok_except,
    state_ok_except,
};
use vstd::prelude::*;

verus! {

/// Probing `d` steps from `a` arrives `d` steps after `a`, and probing the
/// distance from `a` to `b` arrives at `b`.
pub proof fn lemma_probe_dist(a: int, b: int, d: int, n: int)
    requires
        0 <= a < n,
        0 <= b < n,
        0 <= d < n,
    ensures
        0 <= probe_pos(a, d, n) < n,
        dist(a, probe_pos(a, d, n), n) == d,
        probe_pos(a, dist(a, b, n), n) == b,
        0 <= dist(a, b, n) < n,
{
}

/// What a probe for a key finds in a sound index: the bucket of the one
/// occupied slot that holds the key, and nothing if no slot holds it.
pub proof fn lemma_lookup(
    buckets: Seq<Bucket>,
    slab: Seq<u8>,
    slot_size: int,
    cap: nat,
    n: u32,
    hole: int,
    max_key: int,
    key_hash: u64,
    key: Seq<u8>,
    strict: bool,
)
    requires
        is_pow2(n),
        slot_size >= 64 + max_key,
        cap * slot_size <= slab.len(),
        index_ok_except(buckets, slab_view(slab, slot_size, cap), n, hole),
        keys_distinct_except(slab_view(slab, slot_size, cap), hole),
        forall|i: int|
            0 <= i < cap && i != hole && (#[trigger] slab_view(
                slab,
                slot_size,
                cap,
            )[i]).header.occupied == 1 ==> slab_view(slab, slot_size, cap)[i].header.key_len
                <= max_key,
        0 <= ideal(key_hash, n) < n,
    ensures
        match probe_find(buckets, n, slab, slot_size, key_hash, key, strict) {
            Some(p) => {
                let slots = slab_view(slab, slot_size, cap);
                let i = buckets[p].slot_index as int;
                &&& 0 <= p < n
                &&& 0 <= i < cap
                &&& i != hole
                &&& buckets[p].hash == key_hash
                &&& slots[i].header.occupied == 1
                &&& slots[i].header.key_hash == key_hash
                &&& slots[i].key() == key
            },
            None => {
                let slots = slab_view(slab, slot_size, cap);
                forall|i: int|
                    0 <= i < cap && i != hole && (#[trigger] slots[i]).header.occupied == 1 ==> !(
                    slots[i].header.key_hash == key_hash && slots[i].key() == key)
            },
        },
{
    let slots = slab_view(slab, slot_size, cap);
    let start = ideal(key_hash, n);
    match probe_find(buckets, n, slab, slot_size, key_hash, key, strict) {
        Some(p) => {
            let d = choose|d: int| hit_at(buckets, n, slab, slot_size, key_hash, key, strict, d);
            assert(hit_at(buckets, n, slab, slot_size, key_hash, key, strict, d));
            lemma_probe_dist(start, start, d, n as int);
            let b = buckets[p];
            assert(bucket_matches(b, slab, slot_size, key_hash, key, strict));
            assert(b.slot_index != -1);
            assert(slots[b.slot_index as int] == slot_at(slab, slot_size, b.slot_index as int));
        },
        None => {
            assert forall|i: int|
                0 <= i < cap && i != hole && (#[trigger] slots[i]).header.occupied == 1 implies !(
            slots[i].header.key_hash == key_hash && slots[i].key() == key) by {
                if slots[i].header.key_hash == key_hash && slots[i].key() == key {
                    let want = Bucket { hash: key_hash, slot_index: i as i32 };
                    assert(holds(buckets, want));
                    let p = choose|p: int| 0 <= p < buckets.len() && #[trigger] buckets[p] == want;
                    let dd = dist(start, p, n as int);
                    lemma_probe_dist(start, p, dd, n as int);
                    lemma_slot_bounds(i, cap as int, slot_size);
                    assert(slots[i] == slot_at(slab, slot_size, i));
                    assert(bucket_matches(want, slab, slot_size, key_hash, key, strict));
                    assert forall|e: int| 0 <= e < dd implies #[trigger] probe_passes(
                        buckets,
                        n,
                        slab,
                        slot_size,
                        key_hash,
                        key,
                        strict,
                        e,
                    ) by {
                        let q = probe_pos(start, e, n as int);
                        lemma_probe_dist(start, p, e, n as int);
                        assert(on_path(buckets, n, q, p));
                        assert(buckets[q].slot_index != -1);
                        if bucket_matches(buckets[q], slab, slot_size, key_hash, key, strict) {
                            let j = buckets[q].slot_index as int;
                            assert(slots[j] == slot_at(slab, slot_size, j));
                            assert(slots[j].header.occupied == 1);
                            assert(j == i);
                            assert(buckets[q].slot_index == buckets[p].slot_index);
                        }
                    }
                    assert(hit_at(buckets, n, slab, slot_size, key_hash, key, strict, dd));
                }
            }
        },
    }
}

/// A sound index over fewer slots than buckets has an empty bucket.
pub proof fn lemma_has_empty(buckets: Seq<Bucket>, slots: Seq<Slot>, n: u32, hole: int)
    requires
        index_ok_except(buckets, slots, n, hole),
        slots.len() < n,
    ensures
        has_empty(buckets, n),
{
    if !has_empty(buckets, n) {
        let f = |p: int| buckets[p].slot_index as int;
        let x = vstd::set_lib::set_int_range(0, n as int);
        let y = x.map(f);
        let z = vstd::set_lib::set_int_range(0, slots.len() as int);
        vstd::set_lib::lemma_int_range(0, n as int);
        vstd::set_lib::lemma_int_range(0, slots.len() as int);
        assert(vstd::relations::injective_on(f, x)) by {
            assert forall|x1: int, x2: int|
                x.contains(x1) && x.contains(x2) && #[trigger] f(x1) == #[trigger] f(x2) implies x1
                == x2 by {
                assert(buckets[x1].slot_index != -1);
                assert(buckets[x2].slot_index != -1);
            }
        }
        vstd::set_lib::lemma_map_size(x, y, f);
        assert(y.subset_of(z)) by {
            assert forall|v: int| y.contains(v) implies z.contains(v) by {
                let p = choose|p: int| x.contains(p) && f(p) == v;
                assert(buckets[p].slot_index != -1);
            }
        }
        vstd::set_lib::lemma_len_subset(y, z);
    }
}

/// A table with an empty bucket has a first empty bucket on every probe
/// path.
pub proof fn lemma_insert_pos(buckets: Seq<Bucket>, n: u32, key_hash: u64)
    requires
        buckets.len() == n,
        has_empty(buckets, n),
        0 <= ideal(key_hash, n) < n,
    ensures
        insert_pos(buckets, n, key_hash).is_some(),
        0 <= insert_pos(buckets, n, key_hash).unwrap() < n,
        buckets[insert_pos(buckets, n, key_hash).unwrap()].slot_index == -1,
        forall|q: int|
            0 <= q < n && dist(ideal(key_hash, n), q, n as int) < dist(
                ideal(key_hash, n),
                insert_pos(buckets, n, key_hash).unwrap(),
                n as int,
            ) ==> (#[trigger] buckets[q]).slot_index != -1,
{
    let start = ideal(key_hash, n);
    let e0 = choose|e: int| 0 <= e < n && (#[trigger] buckets[e]).slot_index == -1;
    let d0 = dist(start, e0, n as int);
    lemma_probe_dist(start, e0, d0, n as int);
    assert(!taken_at(buckets, n, start, d0));
    lemma_first_empty(buckets, n, key_hash, d0);
    let d = choose|d: int| first_empty_at(buckets, n, key_hash, d);
    assert(first_empty_at(buckets, n, key_hash, d));
    let p = probe_pos(start, d, n as int);
    lemma_probe_dist(start, start, d, n as int);
    assert forall|q: int| 0 <= q < n && dist(start, q, n as int) < dist(start, p, n as int) implies (
    #[trigger] buckets[q]).slot_index != -1 by {
        let e = dist(start, q, n as int);
        lemma_probe_dist(start, q, e, n as int);
        assert(taken_at(buckets, n, start, e));
    }
}

proof fn lemma_first_empty(buckets: Seq<Bucket>, n: u32, key_hash: u64, d0: int)
    requires
        0 <= d0 < n,
        !taken_at(buckets, n, ideal(key_hash, n), d0),
    ensures
        exists|d: int| first_empty_at(buckets, n, key_hash, d),
    decreases d0,
{
    let start = ideal(key_hash, n);
    if forall|e: int| 0 <= e < d0 ==> #[trigger] taken_at(buckets, n, start, e) {
        assert(first_empty_at(buckets, n, key_hash, d0));
    } else {
        let e = choose|e: int| 0 <= e < d0 && !#[trigger] taken_at(buckets, n, start, e);
        lemma_first_empty(buckets, n, key_hash, e);
    }
}

/// Entering the bucket of a newly filled slot keeps the index sound.
pub proof fn lemma_index_insert(
    buckets: Seq<Bucket>,
    slots: Seq<Slot>,
    filled: Seq<Slot>,
    n: u32,
    idx: int,
    key_hash: u64,
)
    requires
        is_pow2(n),
        0 <= ideal(key_hash, n) < n,
        index_ok_except(buckets, slots, n, idx),
        slots.len() < n,
        0 <= idx < slots.len(),
        idx <= i32::MAX,
        filled.len() == slots.len(),
        filled[idx].header.occupied == 1,
        filled[idx].header.key_hash == key_hash,
        forall|i: int|
            0 <= i < slots.len() && i != idx ==> (#[trigger] filled[i]).header.occupied
                == slots[i].header.occupied && filled[i].header.key_hash
                == slots[i].header.key_hash,
    ensures
        insert_pos(buckets, n, key_hash).is_some(),
        index_ok_except(
            buckets.update(
                insert_pos(buckets, n, key_hash).unwrap(),
                (Bucket { hash: key_hash, slot_index: idx as i32 }),
            ),
            filled,
            n,
            -1,
        ),
{
    lemma_has_empty(buckets, slots, n, idx);
    lemma_insert_pos(buckets, n, key_hash);
    let start = ideal(key_hash, n);
    let p = insert_pos(buckets, n, key_hash).unwrap();
    let nb_entry = Bucket { hash: key_hash, slot_index: idx as i32 };
    let nb = buckets.update(p, nb_entry);
    assert forall|x: int, q: int|
        0 <= x < n && 0 <= q < n && nb[x].slot_index != -1 && #[trigger] on_path(nb, n, q, x) implies nb[q].slot_index
        != -1 by {
        if x == p {
            assert(dist(start, q, n as int) < dist(start, p, n as int));
            assert(buckets[q].slot_index != -1);
        } else {
            assert(on_path(buckets, n, q, x));
            assert(buckets[q].slot_index != -1);
        }
    }
    assert forall|pa: int, pb: int|
        0 <= pa < n && 0 <= pb < n && pa != pb && (#[trigger] nb[pa]).slot_index != -1 implies nb[pa].slot_index
        != (#[trigger] nb[pb]).slot_index by {
        if pa == p {
            if buckets[pb].slot_index != -1 {
                assert(buckets[pb].slot_index != idx);
            }
        } else if pb == p {
            assert(buckets[pa].slot_index != idx);
        } else {
            assert(buckets[pa].slot_index != buckets[pb].slot_index);
        }
    }
    assert forall|x: int| 0 <= x < n && (#[trigger] nb[x]).slot_index != -1 implies {
        &&& 0 <= nb[x].slot_index < filled.len()
        &&& nb[x].slot_index != -1
        &&& filled[nb[x].slot_index as int].header.occupied == 1
        &&& filled[nb[x].slot_index as int].header.key_hash == nb[x].hash
    } by {
        if x != p {
            assert(buckets[x].slot_index != -1);
            let j = buckets[x].slot_index as int;
            assert(j != idx);
            assert(filled[j].header.occupied == slots[j].header.occupied);
        }
    }
    assert forall|i: int|
        0 <= i < filled.len() && i != -1 && (#[trigger] filled[i]).header.occupied == 1 implies holds(
        nb,
        (Bucket { hash: filled[i].header.key_hash, slot_index: i as i32 }),
    ) by {
        if i == idx {
            assert(nb[p] == nb_entry);
        } else {
            assert(slots[i].header.occupied == 1);
            let want = Bucket { hash: slots[i].header.key_hash, slot_index: i as i32 };
            assert(holds(buckets, want));
            let x = choose|x: int| 0 <= x < buckets.len() && #[trigger] buckets[x] == want;
            assert(x != p);
            assert(nb[x] == want);
        }
    }
}

/// Removing the bucket of slot `idx` from a sound index leaves an index that
/// is sound but for slot `idx`.
pub proof fn lemma_index_remove(
    buckets: Seq<Bucket>,
    after: Seq<Bucket>,
    slots: Seq<Slot>,
    n: u32,
    p: int,
)
    requires
        index_ok_except(buckets, slots, n, -1),
        0 <= p < n,
        buckets[p].slot_index != -1,
        table_wf(after, n),
        forall|b: Bucket|
            b.slot_index != -1 ==> (#[trigger] holds(after, b) <==> (b != buckets[p] && holds(
                buckets,
                b,
            ))),
    ensures
        index_ok_except(after, slots, n, buckets[p].slot_index as int),
{
    let idx = buckets[p].slot_index as int;
    assert forall|x: int| 0 <= x < n && (#[trigger] after[x]).slot_index != -1 implies {
        &&& 0 <= after[x].slot_index < slots.len()
        &&& after[x].slot_index != idx
        &&& slots[after[x].slot_index as int].header.occupied == 1
        &&& slots[after[x].slot_index as int].header.key_hash == after[x].hash
    } by {
        let b = after[x];
        assert(holds(after, b));
        assert(holds(buckets, b) && b != buckets[p]);
        let y = choose|y: int| 0 <= y < buckets.len() && #[trigger] buckets[y] == b;
        if b.slot_index == idx {
            assert(buckets[y].slot_index == buckets[p].slot_index);
        }
    }
    assert forall|i: int|
        0 <= i < slots.len() && i != idx && (#[trigger] slots[i]).header.occupied == 1 implies holds(
        after,
        (Bucket { hash: slots[i].header.key_hash, slot_index: i as i32 }),
    ) by {
        let want = Bucket { hash: slots[i].header.key_hash, slot_index: i as i32 };
        assert(holds(buckets, want));
    }
}


/// Slots whose `next` links agree on the slots of the free list describe
/// the same free list.
pub proof fn lemma_free_frame(a: Seq<Slot>, b: Seq<Slot>, free_head: i32, free: Seq<int>)
    requires
        is_free_chain(a, free_head, free),
        a.len() == b.len(),
        forall|k: int|
            0 <= k < free.len() ==> b[#[trigger] free[k]].header.next == a[free[k]].header.next,
    ensures
        is_free_chain(b, free_head, free),
{
    assert forall|x: int, y: int| 0 <= x && y == x + 1 && y < free.len() implies b[#[trigger] free[x]].header.next
        == #[trigger] free[y] by {
        assert(a[free[x]].header.next == free[y]);
    }
}

/// The index stays sound when the slots keep their occupancy and hashes.
pub proof fn lemma_index_frame(buckets: Seq<Bucket>, a: Seq<Slot>, b: Seq<Slot>, n: u32, hole: int)
    requires
        index_ok_except(buckets, a, n, hole),
        a.len() == b.len(),
        forall|i: int|
            0 <= i < a.len() && i != hole ==> (#[trigger] b[i]).header.occupied
                == a[i].header.occupied && b[i].header.key_hash == a[i].header.key_hash,
    ensures
        index_ok_except(buckets, b, n, hole),
{
    assert forall|p: int| 0 <= p < n && (#[trigger] buckets[p]).slot_index != -1 implies {
        &&& 0 <= buckets[p].slot_index < b.len()
        &&& buckets[p].slot_index != hole
        &&& b[buckets[p].slot_index as int].header.occupied == 1
        &&& b[buckets[p].slot_index as int].header.key_hash == buckets[p].hash
    } by {
        let j = buckets[p].slot_index as int;
        assert(b[j].header.occupied == a[j].header.occupied);
    }
    assert forall|i: int|
        0 <= i < b.len() && i != hole && (#[trigger] b[i]).header.occupied == 1 implies holds(
        buckets,
        (Bucket { hash: b[i].header.key_hash, slot_index: i as i32 }),
    ) by {
        assert(a[i].header.occupied == 1);
    }
}

/// Keys stay distinct when the slots keep their occupancy, hashes and keys.
pub proof fn lemma_keys_frame(a: Seq<Slot>, b: Seq<Slot>, hole: int)
    requires
        keys_distinct_except(a, hole),
        a.len() == b.len(),
        forall|i: int|
            0 <= i < a.len() && i != hole ==> (#[trigger] b[i]).header.occupied
                == a[i].header.occupied && b[i].header.key_hash == a[i].header.key_hash && b[i].key()
                == a[i].key(),
    ensures
        keys_distinct_except(b, hole),
{
    assert forall|i: int, j: int|
        0 <= i < b.len() && 0 <= j < b.len() && i != j && i != hole && j != hole && (
        #[trigger] b[i]).header.occupied == 1 && (#[trigger] b[j]).header.occupied == 1 implies !(
    b[i].header.key_hash == b[j].header.key_hash && b[i].key() == b[j].key()) by {
        assert(a[i].header.occupied == 1 && a[j].header.occupied == 1);
    }
}

/// A list stays sorted when its slots keep their frequencies and ids.
pub proof fn lemma_lfu_frame(a: Seq<Slot>, b: Seq<Slot>, order: Seq<int>)
    requires
        lfu_sorted(a, order),
        forall|k: int|
            0 <= k < order.len() ==> b[#[trigger] order[k]].header.frequency
                == a[order[k]].header.frequency && b[order[k]].header.unique_id
                == a[order[k]].header.unique_id,
    ensures
        lfu_sorted(b, order),
{
    assert forall|x: int, y: int| 0 <= x < y < order.len() implies lfu_le(
        b[#[trigger] order[x]].header.frequency,
        b[order[x]].header.unique_id,
        b[#[trigger] order[y]].header.frequency,
        b[order[y]].header.unique_id,
    ) by {
        assert(lfu_le(
            a[order[x]].header.frequency,
            a[order[x]].header.unique_id,
            a[order[y]].header.frequency,
            a[order[y]].header.unique_id,
        ));
    }
}

/// A list that names each of its slots once, all of them below `cap` and
/// none of them `hole`, has at most `cap` slots, and fewer if `hole` is a
/// slot.
pub proof fn lemma_list_bound(list: Seq<int>, cap: int, hole: int)
    requires
        list.no_duplicates(),
        forall|k: int| 0 <= k < list.len() ==> 0 <= #[trigger] list[k] < cap,
        !list.contains(hole),
        0 <= cap,
    ensures
        list.len() <= cap,
        0 <= hole < cap ==> list.len() < cap,
{
    let s = list.to_set();
    let z = vstd::set_lib::set_int_range(0, cap);
    vstd::set_lib::lemma_int_range(0, cap);
    list.unique_seq_to_set();
    assert(s.subset_of(z)) by {
        assert forall|v: int| s.contains(v) implies z.contains(v) by {
            let k = choose|k: int| 0 <= k < list.len() && list[k] == v;
            assert(0 <= list[k] < cap);
        }
    }
    vstd::set_lib::lemma_len_subset(s, z);
    if 0 <= hole < cap {
        let z2 = z.remove(hole);
        assert(s.subset_of(z2)) by {
            assert forall|v: int| s.contains(v) implies z2.contains(v) by {
                let k = choose|k: int| 0 <= k < list.len() && list[k] == v;
                assert(list.contains(list[k]));
            }
        }
        vstd::set_lib::lemma_len_subset(s, z2);
    }
}

/// Taking the head of the free list leaves a state that is sound but for
/// the slot taken.
pub proof fn lemma_pop_free(h: Header, buckets: Seq<Bucket>, slots: Seq<Slot>)
    requires
        state_ok_except(h, buckets, slots, -1),
        h.free_head != -1,
    ensures
        0 <= h.free_head < slots.len(),
        state_ok_except(
            (Header { free_head: slots[h.free_head as int].header.next, ..h }),
            buckets,
            slots,
            h.free_head as int,
        ),
        free_of(slots, slots[h.free_head as int].header.next) == free_of(
            slots,
            h.free_head,
        ).drop_first(),
        order_of(slots, h.list_head, h.list_tail).len() < slots.len(),
{
    let order = order_of(slots, h.list_head, h.list_tail);
    let free = free_of(slots, h.free_head);
    let idx = h.free_head as int;
    assert(is_free_chain(slots, h.free_head, free));
    assert(is_chain(slots, h.list_head, h.list_tail, order));
    assert(free.len() > 0);
    assert(free[0] == idx);
    assert(0 <= free[0] < slots.len());
    let rest = free.drop_first();
    let next = slots[idx].header.next;
    assert forall|k: int| 0 <= k < rest.len() implies rest[k] == free[k + 1] by {}
    assert(rest.no_duplicates());
    assert(is_free_chain(slots, next, rest)) by {
        assert forall|k: int| 0 <= k < rest.len() implies 0 <= #[trigger] rest[k] < slots.len() by {
            assert(0 <= free[k + 1] < slots.len());
        }
        assert forall|a: int, b: int| 0 <= a && b == a + 1 && b < rest.len() implies slots[#[trigger] rest[a]].header.next
            == #[trigger] rest[b] by {
            assert(slots[free[a + 1]].header.next == free[b + 1]);
        }
        if rest.len() > 0 {
            assert(slots[free[0]].header.next == free[1]);
        }
    }
    lemma_free_is(slots, next, rest);
    assert(free.contains(idx));
    assert(!rest.contains(idx)) by {
        if rest.contains(idx) {
            let k = choose|k: int| 0 <= k < rest.len() && rest[k] == idx;
            assert(free[k + 1] == free[0]);
        }
    }
    assert(!order.contains(idx));
    assert forall|i: int| 0 <= i < slots.len() && i != idx implies (rest.contains(i)
        <==> free.contains(i)) by {
        if free.contains(i) {
            let k = choose|k: int| 0 <= k < free.len() && free[k] == i;
            assert(rest[k - 1] == i);
        }
        if rest.contains(i) {
            let k = choose|k: int| 0 <= k < rest.len() && rest[k] == i;
            assert(free[k + 1] == i);
        }
    }
    lemma_list_bound(order, slots.len() as int, idx);
    let h2 = Header { free_head: next, ..h };
    assert(index_ok_except(buckets, slots, h.ht_capacity, idx)) by {
        assert forall|p: int|
            0 <= p < h.ht_capacity && (#[trigger] buckets[p]).slot_index != -1 implies buckets[p].slot_index
            != idx by {
            let j = buckets[p].slot_index as int;
            assert(slots[j].header.occupied == 1);
            if j == idx {
                assert(order.contains(j));
            }
        }
    }
}


/// The LFU place among slots is the LFU place among their entries.
pub proof fn lemma_place_bridge(slots: Seq<Slot>, order: Seq<int>, freq: u64, uid: u64, p: int)
    requires
        is_lfu_place(slots, order, freq, uid, p),
    ensures
        entry_place(entries_of(slots, order), freq, uid) == p,
{
    let entries = entries_of(slots, order);
    assert(is_entry_place(entries, freq, uid, p)) by {
        assert forall|c: int| p <= c < entries.len() implies !lfu_le(
            (#[trigger] entries[c]).frequency,
            entries[c].unique_id,
            freq,
            uid,
        ) by {
            assert(!lfu_le(
                slots[order[c]].header.frequency,
                slots[order[c]].header.unique_id,
                freq,
                uid,
            ));
        }
    }
    lemma_entry_place_is(entries, freq, uid, p);
}

/// The entries of a list do not change when the listed slots keep what
/// they hold.
pub proof fn lemma_entries_frame(a: Seq<Slot>, b: Seq<Slot>, order: Seq<int>)
    requires
        forall|k: int| 0 <= k < order.len() ==> entry_of(b[#[trigger] order[k]]) == entry_of(a[order[k]]),
    ensures
        entries_of(b, order) == entries_of(a, order),
{
    assert(entries_of(b, order) =~= entries_of(a, order));
}

/// What a sound state tells about a key: it has an entry exactly if an
/// occupied slot holds it, and then at the place of that slot in the order
/// list.
pub proof fn lemma_find_entry(h: Header, buckets: Seq<Bucket>, slots: Seq<Slot>, hole: int, key_hash: u64, key: Seq<u8>)
    requires
        state_ok_except(h, buckets, slots, hole),
    ensures
        match find_entry(contents(h, slots), key_hash, key) {
            Some(k) => {
                let order = order_of(slots, h.list_head, h.list_tail);
                &&& 0 <= k < order.len()
                &&& slots[order[k]].header.occupied == 1
                &&& slots[order[k]].header.key_hash == key_hash
                &&& slots[order[k]].key() == key
            },
            None => forall|i: int|
                0 <= i < slots.len() && i != hole && (#[trigger] slots[i]).header.occupied == 1 ==> !(
                slots[i].header.key_hash == key_hash && slots[i].key() == key),
        },
        forall|i: int|
            0 <= i < slots.len() && i != hole && (#[trigger] slots[i]).header.occupied == 1
                && slots[i].header.key_hash == key_hash && slots[i].key() == key ==> find_entry(
                contents(h, slots),
                key_hash,
                key,
            ) == Some(order_of(slots, h.list_head, h.list_tail).index_of(i)),
{
    let order = order_of(slots, h.list_head, h.list_tail);
    let entries = contents(h, slots);
    assert(is_chain(slots, h.list_head, h.list_tail, order));
    assert forall|k: int| 0 <= k < order.len() implies 0 <= #[trigger] order[k] < slots.len()
        && order[k] != hole && slots[order[k]].header.occupied == 1 by {
        assert(order.contains(order[k]));
    }
    match find_entry(entries, key_hash, key) {
        Some(k) => {
            assert(has_key(entries, k, key_hash, key));
        },
        None => {
            assert forall|i: int|
                0 <= i < slots.len() && i != hole && (#[trigger] slots[i]).header.occupied == 1 implies !(
            slots[i].header.key_hash == key_hash && slots[i].key() == key) by {
                if slots[i].header.key_hash == key_hash && slots[i].key() == key {
                    assert(order.contains(i));
                    let k = order.index_of(i);
                    assert(has_key(entries, k, key_hash, key));
                }
            }
        },
    }
    assert forall|i: int|
        0 <= i < slots.len() && i != hole && (#[trigger] slots[i]).header.occupied == 1
            && slots[i].header.key_hash == key_hash && slots[i].key() == key implies find_entry(
        entries,
        key_hash,
        key,
    ) == Some(order.index_of(i)) by {
        assert(order.contains(i));
        let k = order.index_of(i);
        assert(has_key(entries, k, key_hash, key));
        let c = choose|c: int| has_key(entries, c, key_hash, key);
        assert(has_key(entries, c, key_hash, key));
        if order[c] != i {
            assert(slots[order[c]].header.occupied == 1);
            assert(slots[order[c]].key() == slots[i].key());
        }
    }
}


/// What a list holds after a slot has been inserted into it.
pub proof fn lemma_insert_contains(order: Seq<int>, p: int, x: int)
    requires
        0 <= p <= order.len(),
    ensures
        order.insert(p, x).len() == order.len() + 1,
        forall|y: int| order.insert(p, x).contains(y) <==> (y == x || order.contains(y)),
        order.push(x) == order.insert(order.len() as int, x),
{
    let o2 = order.insert(p, x);
    assert forall|y: int| o2.contains(y) <==> (y == x || order.contains(y)) by {
        if o2.contains(y) {
            let k = choose|k: int| 0 <= k < o2.len() && o2[k] == y;
            if k < p {
                assert(order[k] == y);
            } else if k > p {
                assert(order[k - 1] == y);
            }
        }
        if y == x {
            assert(o2[p] == x);
        }
        if order.contains(y) {
            let k = choose|k: int| 0 <= k < order.len() && order[k] == y;
            if k < p {
                assert(o2[k] == y);
            } else {
                assert(o2[k + 1] == y);
            }
        }
    }
    assert(order.push(x) =~= order.insert(order.len() as int, x));
}

/// The lists after the detached slot `idx` has been filled and entered
/// into the order list.
pub proof fn lemma_fill_lists(
    h: Header,
    h2: Header,
    slots: Seq<Slot>,
    filled: Seq<Slot>,
    linked: Seq<Slot>,
    idx: int,
    place: int,
)
    requires
        lists_ok_except(h, slots, idx),
        0 <= idx < slots.len(),
        filled.len() == slots.len(),
        linked.len() == slots.len(),
        forall|i: int| 0 <= i < slots.len() && i != idx ==> #[trigger] filled[i] == slots[i],
        filled[idx].header.occupied == 1,
        filled[idx].header.key_len <= h.max_key_size,
        filled[idx].header.value_len <= h.max_value_size,
        0 <= place <= order_of(slots, h.list_head, h.list_tail).len(),
        is_chain(
            linked,
            h2.list_head,
            h2.list_tail,
            order_of(slots, h.list_head, h.list_tail).insert(place, idx),
        ),
        forall|i: int| 0 <= i < slots.len() ==> same_but_links(filled[i], #[trigger] linked[i]),
        forall|i: int|
            0 <= i < slots.len() && i != idx && !order_of(slots, h.list_head, h.list_tail).contains(
                i,
            ) ==> #[trigger] linked[i] == filled[i],
        h.strategy == 3 ==> lfu_sorted(
            linked,
            order_of(slots, h.list_head, h.list_tail).insert(place, idx),
        ),
        h2 == (Header {
            list_head: h2.list_head,
            list_tail: h2.list_tail,
            current_size: (h.current_size + 1) as u32,
            ..h
        }),
    ensures
        h.current_size < h.capacity,
        lists_ok_except(h2, linked, -1),
        order_of(linked, h2.list_head, h2.list_tail) == order_of(
            slots,
            h.list_head,
            h.list_tail,
        ).insert(place, idx),
{
    let order = order_of(slots, h.list_head, h.list_tail);
    let free = free_of(slots, h.free_head);
    let new_order = order.insert(place, idx);
    assert(is_chain(slots, h.list_head, h.list_tail, order));
    assert(is_free_chain(slots, h.free_head, free));
    lemma_list_bound(order, slots.len() as int, idx);
    lemma_insert_contains(order, place, idx);
    lemma_order_is(linked, h2.list_head, h2.list_tail, new_order);
    assert forall|k: int| 0 <= k < free.len() implies linked[#[trigger] free[k]].header.next
        == slots[free[k]].header.next by {
        let j = free[k];
        assert(free.contains(j));
        assert(0 <= j < slots.len());
        assert(j != idx);
        assert(slots[j].header.occupied <= 1);
        assert(!order.contains(j));
        assert(linked[j] == filled[j]);
    }
    lemma_free_frame(slots, linked, h.free_head, free);
    lemma_free_is(linked, h2.free_head, free);
    assert forall|i: int| 0 <= i < linked.len() && i != -1 implies {
        &&& (#[trigger] linked[i]).header.occupied <= 1
        &&& linked[i].header.occupied == 1 <==> new_order.contains(i)
        &&& new_order.contains(i) <==> !free.contains(i)
        &&& linked[i].header.occupied == 1 ==> linked[i].header.key_len <= h.max_key_size
            && linked[i].header.value_len <= h.max_value_size
    } by {
        assert(same_but_links(filled[i], linked[i]));
        if i != idx {
            assert(filled[i] == slots[i]);
            assert(slots[i].header.occupied <= 1);
        }
    }
}

/// The keys stay distinct when the detached slot `idx` is filled with a key
/// that no other slot holds.
pub proof fn lemma_fill_keys(slots: Seq<Slot>, filled: Seq<Slot>, linked: Seq<Slot>, idx: int)
    requires
        keys_distinct_except(slots, idx),
        0 <= idx < slots.len(),
        filled.len() == slots.len(),
        linked.len() == slots.len(),
        forall|i: int| 0 <= i < slots.len() && i != idx ==> #[trigger] filled[i] == slots[i],
        forall|i: int|
            0 <= i < slots.len() && i != idx && (#[trigger] slots[i]).header.occupied == 1 ==> !(
            slots[i].header.key_hash == filled[idx].header.key_hash && slots[i].key()
                == filled[idx].key()),
        forall|i: int| 0 <= i < slots.len() ==> same_but_links(filled[i], #[trigger] linked[i]),
    ensures
        keys_distinct_except(linked, -1),
{
    assert forall|i: int, j: int|
        0 <= i < linked.len() && 0 <= j < linked.len() && i != j && i != -1 && j != -1 && (
        #[trigger] linked[i]).header.occupied == 1 && (#[trigger] linked[j]).header.occupied
            == 1 implies !(linked[i].header.key_hash == linked[j].header.key_hash && linked[i].key()
        == linked[j].key()) by {
        assert(same_but_links(filled[i], linked[i]));
        assert(same_but_links(filled[j], linked[j]));
        if i != idx && j != idx {
            assert(slots[i].header.occupied == 1 && slots[j].header.occupied == 1);
        } else if i == idx {
            assert(slots[j].header.occupied == 1);
        } else {
            assert(slots[i].header.occupied == 1);
        }
    }
}

/// The entries after slot `idx`, which the list does not name, has been
/// filled and inserted at place `place`.
pub proof fn lemma_fill_entries(
    slots: Seq<Slot>,
    filled: Seq<Slot>,
    linked: Seq<Slot>,
    order: Seq<int>,
    idx: int,
    place: int,
)
    requires
        0 <= idx < slots.len(),
        filled.len() == slots.len(),
        linked.len() == slots.len(),
        !order.contains(idx),
        forall|k: int| 0 <= k < order.len() ==> 0 <= #[trigger] order[k] < slots.len(),
        0 <= place <= order.len(),
        forall|i: int| 0 <= i < slots.len() && i != idx ==> #[trigger] filled[i] == slots[i],
        forall|i: int| 0 <= i < slots.len() ==> same_but_links(filled[i], #[trigger] linked[i]),
    ensures
        entries_of(filled, order) == entries_of(slots, order),
        entries_of(linked, order.insert(place, idx)) == entries_of(slots, order).insert(
            place,
            entry_of(filled[idx]),
        ),
{
    let entries = entries_of(slots, order);
    let new_order = order.insert(place, idx);
    assert forall|k: int| 0 <= k < order.len() implies entry_of(filled[#[trigger] order[k]])
        == entry_of(slots[order[k]]) by {
        assert(order.contains(order[k]));
    }
    lemma_entries_frame(slots, filled, order);
    assert forall|k: int| 0 <= k < new_order.len() implies entry_of(linked[new_order[k]])
        == entries.insert(place, entry_of(filled[idx]))[k] by {
        let x = new_order[k];
        if k < place {
            assert(x == order[k]);
            assert(order.contains(x));
        } else if k > place {
            assert(x == order[k - 1]);
            assert(order.contains(x));
        }
        assert(same_but_links(filled[x], linked[x]));
    }
    assert(entries_of(linked, new_order) =~= entries.insert(place, entry_of(filled[idx])));
}

/// In a sound index, the bucket that a search for the key of an occupied
/// slot finds is the bucket of that slot.
pub proof fn lemma_lookup_slot(
    buckets: Seq<Bucket>,
    slab: Seq<u8>,
    slot_size: int,
    cap: nat,
    n: u32,
    max_key: int,
    idx: int,
    strict: bool,
)
    requires
        is_pow2(n),
        slot_size >= 64 + max_key,
        cap * slot_size <= slab.len(),
        index_ok_except(buckets, slab_view(slab, slot_size, cap), n, -1),
        keys_distinct_except(slab_view(slab, slot_size, cap), -1),
        forall|i: int|
            0 <= i < cap && (#[trigger] slab_view(slab, slot_size, cap)[i]).header.occupied == 1
                ==> slab_view(slab, slot_size, cap)[i].header.key_len <= max_key,
        0 <= idx < cap,
        slab_view(slab, slot_size, cap)[idx].header.occupied == 1,
        0 <= ideal(slab_view(slab, slot_size, cap)[idx].header.key_hash, n) < n,
    ensures
        ({
            let slots = slab_view(slab, slot_size, cap);
            let found = probe_find(
                buckets,
                n,
                slab,
                slot_size,
                slots[idx].header.key_hash,
                slots[idx].key(),
                strict,
            );
            &&& found.is_some()
            &&& 0 <= found.unwrap() < n
            &&& buckets[found.unwrap()].slot_index == idx
        }),
{
    let slots = slab_view(slab, slot_size, cap);
    lemma_lookup(
        buckets,
        slab,
        slot_size,
        cap,
        n,
        -1,
        max_key,
        slots[idx].header.key_hash,
        slots[idx].key(),
        strict,
    );
    let found = probe_find(
        buckets,
        n,
        slab,
        slot_size,
        slots[idx].header.key_hash,
        slots[idx].key(),
        strict,
    );
    if found.is_some() {
        let i = buckets[found.unwrap()].slot_index as int;
        assert(slots[i].header.occupied == 1);
        if i != idx {
            assert(slots[i].key() == slots[idx].key());
        }
    }
}

/// The lists after slot `order[k]` has been unlinked from the order list:
/// sound but for that slot.
pub proof fn lemma_detach_lists(h: Header, h2: Header, slots: Seq<Slot>, after: Seq<Slot>, k: int)
    requires
        lists_ok_except(h, slots, -1),
        0 <= k < order_of(slots, h.list_head, h.list_tail).len(),
        after.len() == slots.len(),
        is_chain(
            after,
            h2.list_head,
            h2.list_tail,
            order_of(slots, h.list_head, h.list_tail).remove(k),
        ),
        forall|i: int| 0 <= i < slots.len() ==> same_but_links(slots[i], #[trigger] after[i]),
        forall|i: int|
            0 <= i < slots.len() && !order_of(slots, h.list_head, h.list_tail).contains(i)
                ==> #[trigger] after[i] == slots[i],
        h2 == (Header {
            list_head: h2.list_head,
            list_tail: h2.list_tail,
            current_size: (h.current_size - 1) as u32,
            ..h
        }),
    ensures
        h.current_size >= 1,
        lists_ok_except(h2, after, order_of(slots, h.list_head, h.list_tail)[k]),
        order_of(after, h2.list_head, h2.list_tail) == order_of(
            slots,
            h.list_head,
            h.list_tail,
        ).remove(k),
        free_of(after, h2.free_head) == free_of(slots, h.free_head),
        entries_of(after, order_of(slots, h.list_head, h.list_tail).remove(k)) == entries_of(
            slots,
            order_of(slots, h.list_head, h.list_tail),
        ).remove(k),
{
    let order = order_of(slots, h.list_head, h.list_tail);
    let free = free_of(slots, h.free_head);
    let rest = order.remove(k);
    let idx = order[k];
    assert(is_chain(slots, h.list_head, h.list_tail, order));
    assert(is_free_chain(slots, h.free_head, free));
    assert(order.contains(idx));
    assert(0 <= idx < slots.len());
    assert(slots[idx].header.occupied <= 1);
    lemma_removed_absent(order, k);
    lemma_order_is(after, h2.list_head, h2.list_tail, rest);
    assert forall|j: int| 0 <= j < free.len() implies after[#[trigger] free[j]].header.next
        == slots[free[j]].header.next by {
        let x = free[j];
        assert(free.contains(x));
        assert(slots[x].header.occupied <= 1);
        assert(!order.contains(x));
    }
    lemma_free_frame(slots, after, h.free_head, free);
    lemma_free_is(after, h2.free_head, free);
    assert forall|i: int| 0 <= i < after.len() && i != idx implies {
        &&& (#[trigger] after[i]).header.occupied <= 1
        &&& after[i].header.occupied == 1 <==> rest.contains(i)
        &&& rest.contains(i) <==> !free.contains(i)
        &&& after[i].header.occupied == 1 ==> after[i].header.key_len <= h.max_key_size
            && after[i].header.value_len <= h.max_value_size
    } by {
        assert(same_but_links(slots[i], after[i]));
        assert(slots[i].header.occupied <= 1);
    }
    if h.strategy == 3 {
        assert forall|x: int|
            0 <= x < slots.len() && x != order[k] implies (#[trigger] after[x]).header.frequency
            == slots[x].header.frequency && after[x].header.unique_id
            == slots[x].header.unique_id by {
            assert(same_but_links(slots[x], after[x]));
        }
        lemma_lfu_remove_sorted(slots, after, order, k);
    }
    assert forall|j: int| 0 <= j < rest.len() implies entry_of(after[rest[j]]) == entries_of(
        slots,
        order,
    ).remove(k)[j] by {
        let j0 = if j < k { j } else { j + 1 };
        assert(rest[j] == order[j0]);
        assert(0 <= order[j0] < slots.len());
        assert(same_but_links(slots[order[j0]], after[order[j0]]));
    }
    assert(entries_of(after, rest) =~= entries_of(slots, order).remove(k));
}

/// The index and the keys after slot `idx` has lost its bucket and the
/// slots have been relinked.
pub proof fn lemma_detach_index(
    buckets: Seq<Bucket>,
    buckets2: Seq<Bucket>,
    slots: Seq<Slot>,
    after: Seq<Slot>,
    n: u32,
    p: int,
)
    requires
        index_ok_except(buckets, slots, n, -1),
        keys_distinct_except(slots, -1),
        0 <= p < n,
        buckets[p].slot_index != -1,
        table_wf(buckets2, n),
        forall|b: Bucket|
            b.slot_index != -1 ==> (#[trigger] holds(buckets2, b) <==> (b != buckets[p] && holds(
                buckets,
                b,
            ))),
        after.len() == slots.len(),
        forall|i: int| 0 <= i < slots.len() ==> same_but_links(slots[i], #[trigger] after[i]),
    ensures
        index_ok_except(buckets2, after, n, buckets[p].slot_index as int),
        keys_distinct_except(after, buckets[p].slot_index as int),
{
    let idx = buckets[p].slot_index as int;
    lemma_index_remove(buckets, buckets2, slots, n, p);
    assert forall|i: int| 0 <= i < slots.len() && i != idx implies (#[trigger] after[i]).header.occupied
        == slots[i].header.occupied && after[i].header.key_hash == slots[i].header.key_hash by {
        assert(same_but_links(slots[i], after[i]));
    }
    lemma_index_frame(buckets2, slots, after, n, idx);
    assert forall|i: int, j: int|
        0 <= i < after.len() && 0 <= j < after.len() && i != j && i != idx && j != idx && (
        #[trigger] after[i]).header.occupied == 1 && (#[trigger] after[j]).header.occupied == 1 implies !(
    after[i].header.key_hash == after[j].header.key_hash && after[i].key() == after[j].key()) by {
        assert(same_but_links(slots[i], after[i]));
        assert(same_but_links(slots[j], after[j]));
        assert(slots[i].header.occupied == 1 && slots[j].header.occupied == 1);
    }
}

/// A sound index is a sound table.
pub proof fn lemma_index_table(buckets: Seq<Bucket>, slots: Seq<Slot>, n: u32, hole: int)
    requires
        index_ok_except(buckets, slots, n, hole),
        is_pow2(n),
        slots.len() < n,
    ensures
        table_wf(buckets, n),
{
    lemma_has_empty(buckets, slots, n, hole);
}

/// Slot `b` is slot `a` with another value and time of writing.
pub open spec fn same_but_value(a: Slot, b: Slot) -> bool {
    &&& b.key() == a.key()
    &&& b.header.key_hash == a.header.key_hash
    &&& b.header.frequency == a.header.frequency
    &&& b.header.unique_id == a.header.unique_id
    &&& b.header.occupied == a.header.occupied
    &&& b.header.key_len == a.header.key_len
    &&& b.header.prev == a.header.prev
    &&& b.header.next == a.header.next
}

/// Overwriting the value of the occupied slot `idx` keeps the state sound
/// and changes the value and the time of that one entry.
pub proof fn lemma_overwrite(h: Header, buckets: Seq<Bucket>, slots: Seq<Slot>, after: Seq<Slot>, idx: int)
    requires
        state_ok_except(h, buckets, slots, -1),
        order_of(slots, h.list_head, h.list_tail).contains(idx),
        after.len() == slots.len(),
        forall|i: int| 0 <= i < slots.len() && i != idx ==> #[trigger] after[i] == slots[i],
        same_but_value(slots[idx], after[idx]),
        after[idx].header.value_len <= h.max_value_size,
    ensures
        state_ok_except(h, buckets, after, -1),
        order_of(after, h.list_head, h.list_tail) == order_of(slots, h.list_head, h.list_tail),
        contents(h, after) == contents(h, slots).update(
            order_of(slots, h.list_head, h.list_tail).index_of(idx),
            (Entry {
                value: after[idx].value(),
                created_at_nanos: after[idx].header.created_at_nanos,
                ..contents(h, slots)[order_of(slots, h.list_head, h.list_tail).index_of(idx)]
            }),
        ),
{
    let order = order_of(slots, h.list_head, h.list_tail);
    let free = free_of(slots, h.free_head);
    let k = order.index_of(idx);
    assert(is_chain(slots, h.list_head, h.list_tail, order));
    assert(is_free_chain(slots, h.free_head, free));
    assert(0 <= k < order.len() && order[k] == idx);
    assert(0 <= order[k] < slots.len());
    assert forall|j: int| 0 <= j < order.len() implies after[#[trigger] order[j]].header.prev
        == slots[order[j]].header.prev && after[order[j]].header.next
        == slots[order[j]].header.next by {
        assert(0 <= order[j] < slots.len());
    }
    lemma_chain_frame(slots, after, h.list_head, h.list_tail, order);
    lemma_order_is(after, h.list_head, h.list_tail, order);
    assert forall|j: int| 0 <= j < free.len() implies after[#[trigger] free[j]].header.next
        == slots[free[j]].header.next by {
        assert(0 <= free[j] < slots.len());
    }
    lemma_free_frame(slots, after, h.free_head, free);
    lemma_free_is(after, h.free_head, free);
    assert forall|i: int| 0 <= i < after.len() && i != -1 implies {
        &&& (#[trigger] after[i]).header.occupied <= 1
        &&& after[i].header.occupied == 1 <==> order.contains(i)
        &&& order.contains(i) <==> !free.contains(i)
        &&& after[i].header.occupied == 1 ==> after[i].header.key_len <= h.max_key_size
            && after[i].header.value_len <= h.max_value_size
    } by {
        assert(slots[i].header.occupied <= 1);
    }
    if h.strategy == 3 {
        assert forall|j: int| 0 <= j < order.len() implies after[#[trigger] order[j]].header.frequency
            == slots[order[j]].header.frequency && after[order[j]].header.unique_id
            == slots[order[j]].header.unique_id by {
            assert(0 <= order[j] < slots.len());
        }
        lemma_lfu_frame(slots, after, order);
    }
    assert forall|i: int| 0 <= i < slots.len() && i != -1 implies (#[trigger] after[i]).header.occupied
        == slots[i].header.occupied && after[i].header.key_hash == slots[i].header.key_hash
        && after[i].key() == slots[i].key() by {}
    lemma_index_frame(buckets, slots, after, h.ht_capacity, -1);
    lemma_keys_frame(slots, after, -1);
    let entries = contents(h, slots);
    let e2 = Entry {
        value: after[idx].value(),
        created_at_nanos: after[idx].header.created_at_nanos,
        ..entries[k]
    };
    assert forall|j: int| 0 <= j < order.len() implies entry_of(after[order[j]]) == entries.update(
        k,
        e2,
    )[j] by {
        assert(0 <= order[j] < slots.len());
        if j != k {
            assert(order[j] != order[k]);
        }
    }
    assert(entries_of(after, order) =~= entries.update(k, e2));
}

/// What a list holds after one of its slots has changed its place.
pub proof fn lemma_moved_contains(order: Seq<int>, k: int, p: int)
    requires
        order.no_duplicates(),
        0 <= k < order.len(),
        0 <= p <= order.len() - 1,
    ensures
        order.remove(k).insert(p, order[k]).len() == order.len(),
        forall|y: int| order.remove(k).insert(p, order[k]).contains(y) <==> order.contains(y),
{
    let rest = order.remove(k);
    lemma_removed_absent(order, k);
    lemma_insert_contains(rest, p, order[k]);
    assert(order.contains(order[k]));
}

/// The lists after a hit on slot `idx`: sound, with the slot at its new
/// place.
pub proof fn lemma_touch_lists(h: Header, h2: Header, slots: Seq<Slot>, after: Seq<Slot>, idx: int, place: int)
    requires
        lists_ok_except(h, slots, -1),
        order_of(slots, h.list_head, h.list_tail).contains(idx),
        after.len() == slots.len(),
        0 <= place <= order_of(slots, h.list_head, h.list_tail).len() - 1,
        is_chain(
            after,
            h2.list_head,
            h2.list_tail,
            order_of(slots, h.list_head, h.list_tail).remove(
                order_of(slots, h.list_head, h.list_tail).index_of(idx),
            ).insert(place, idx),
        ),
        h.strategy == 3 ==> lfu_sorted(
            after,
            order_of(slots, h.list_head, h.list_tail).remove(
                order_of(slots, h.list_head, h.list_tail).index_of(idx),
            ).insert(place, idx),
        ),
        forall|i: int| 0 <= i < slots.len() ==> same_entry(slots[i], #[trigger] after[i]),
        forall|i: int|
            0 <= i < slots.len() && !order_of(slots, h.list_head, h.list_tail).contains(i)
                ==> #[trigger] after[i] == slots[i],
        h2 == (Header { list_head: h2.list_head, list_tail: h2.list_tail, ..h }),
    ensures
        lists_ok_except(h2, after, -1),
        order_of(after, h2.list_head, h2.list_tail) == order_of(
            slots,
            h.list_head,
            h.list_tail,
        ).remove(order_of(slots, h.list_head, h.list_tail).index_of(idx)).insert(place, idx),
{
    let order = order_of(slots, h.list_head, h.list_tail);
    let free = free_of(slots, h.free_head);
    let k = order.index_of(idx);
    let new_order = order.remove(k).insert(place, idx);
    assert(is_chain(slots, h.list_head, h.list_tail, order));
    assert(is_free_chain(slots, h.free_head, free));
    assert(0 <= k < order.len() && order[k] == idx);
    lemma_moved_contains(order, k, place);
    lemma_order_is(after, h2.list_head, h2.list_tail, new_order);
    assert forall|j: int| 0 <= j < free.len() implies after[#[trigger] free[j]].header.next
        == slots[free[j]].header.next by {
        let x = free[j];
        assert(free.contains(x));
        assert(slots[x].header.occupied <= 1);
        assert(!order.contains(x));
    }
    lemma_free_frame(slots, after, h.free_head, free);
    lemma_free_is(after, h2.free_head, free);
    assert forall|i: int| 0 <= i < after.len() && i != -1 implies {
        &&& (#[trigger] after[i]).header.occupied <= 1
        &&& after[i].header.occupied == 1 <==> new_order.contains(i)
        &&& new_order.contains(i) <==> !free.contains(i)
        &&& after[i].header.occupied == 1 ==> after[i].header.key_len <= h.max_key_size
            && after[i].header.value_len <= h.max_value_size
    } by {
        assert(same_entry(slots[i], after[i]));
        assert(slots[i].header.occupied <= 1);
    }
}

/// The index and the keys do not change with a hit.
pub proof fn lemma_touch_index(buckets: Seq<Bucket>, slots: Seq<Slot>, after: Seq<Slot>, n: u32)
    requires
        index_ok_except(buckets, slots, n, -1),
        keys_distinct_except(slots, -1),
        after.len() == slots.len(),
        forall|i: int| 0 <= i < slots.len() ==> same_entry(slots[i], #[trigger] after[i]),
    ensures
        index_ok_except(buckets, after, n, -1),
        keys_distinct_except(after, -1),
{
    assert forall|i: int| 0 <= i < slots.len() && i != -1 implies (#[trigger] after[i]).header.occupied
        == slots[i].header.occupied && after[i].header.key_hash == slots[i].header.key_hash
        && after[i].key() == slots[i].key() by {
        assert(same_entry(slots[i], after[i]));
    }
    lemma_index_frame(buckets, slots, after, n, -1);
    lemma_keys_frame(slots, after, -1);
}

/// The entries after the slot at place `k` of the list has moved to place
/// `place`, with the frequency `freq`.
pub proof fn lemma_touch_entries(
    slots: Seq<Slot>,
    after: Seq<Slot>,
    order: Seq<int>,
    k: int,
    place: int,
    freq: u64,
)
    requires
        order.no_duplicates(),
        forall|j: int| 0 <= j < order.len() ==> 0 <= #[trigger] order[j] < slots.len(),
        0 <= k < order.len(),
        0 <= place <= order.len() - 1,
        after.len() == slots.len(),
        forall|i: int|
            0 <= i < slots.len() ==> same_entry(slots[i], #[trigger] after[i]) && after[i].header.frequency
                == (if i == order[k] {
                freq
            } else {
                slots[i].header.frequency
            }),
    ensures
        entries_of(after, order.remove(k).insert(place, order[k])) == entries_of(
            slots,
            order,
        ).remove(k).insert(place, (Entry { frequency: freq, ..entries_of(slots, order)[k] })),
        entries_of(slots, order.remove(k)) == entries_of(slots, order).remove(k),
{
    let entries = entries_of(slots, order);
    let rest = order.remove(k);
    let new_order = rest.insert(place, order[k]);
    let e = Entry { frequency: freq, ..entries[k] };
    assert(entries_of(slots, rest) =~= entries.remove(k));
    assert forall|j: int| 0 <= j < new_order.len() implies entry_of(after[new_order[j]])
        == entries.remove(k).insert(place, e)[j] by {
        let x = new_order[j];
        if j == place {
            assert(x == order[k]);
            assert(same_entry(slots[x], after[x]));
        } else {
            let j1 = if j < place { j } else { j - 1 };
            let j0 = if j1 < k { j1 } else { j1 + 1 };
            assert(x == order[j0]);
            assert(order[j0] != order[k]);
            assert(0 <= order[j0] < slots.len());
            assert(same_entry(slots[x], after[x]));
        }
    }
    assert(entries_of(after, new_order) =~= entries.remove(k).insert(place, e));
}

/// Marking the detached slot `idx` free and putting it at the head of the
/// free list gives a sound state with the same contents.
pub proof fn lemma_release(h: Header, h2: Header, buckets: Seq<Bucket>, slots: Seq<Slot>, after: Seq<Slot>, idx: int)
    requires
        state_ok_except(h, buckets, slots, idx),
        0 <= idx < slots.len(),
        idx <= i32::MAX,
        after.len() == slots.len(),
        forall|i: int| 0 <= i < slots.len() && i != idx ==> #[trigger] after[i] == slots[i],
        after[idx].header.occupied == 0,
        after[idx].header.next == h.free_head,
        h2 == (Header { free_head: idx as i32, ..h }),
    ensures
        state_ok_except(h2, buckets, after, -1),
        order_of(after, h2.list_head, h2.list_tail) == order_of(slots, h.list_head, h.list_tail),
        contents(h2, after) == contents(h, slots),
{
    let order = order_of(slots, h.list_head, h.list_tail);
    let free = free_of(slots, h.free_head);
    let n = h.ht_capacity;
    assert(is_chain(slots, h.list_head, h.list_tail, order));
    assert(is_free_chain(slots, h.free_head, free));
    assert forall|j: int| 0 <= j < order.len() implies after[#[trigger] order[j]] == slots[order[j]] by {
        assert(order.contains(order[j]));
        assert(0 <= order[j] < slots.len());
    }
    lemma_chain_frame(slots, after, h.list_head, h.list_tail, order);
    lemma_order_is(after, h2.list_head, h2.list_tail, order);
    let free2 = seq![idx].add(free);
    assert forall|j: int| 0 <= j < free2.len() implies free2[j] == (if j == 0 {
        idx
    } else {
        free[j - 1]
    }) by {}
    assert forall|j: int| 0 <= j < free.len() implies free[j] != idx && 0 <= #[trigger] free[j]
        < slots.len() by {
        assert(free.contains(free[j]));
    }
    assert(is_free_chain(after, idx as i32, free2)) by {
        assert(free2.no_duplicates());
        assert forall|a: int, b: int| 0 <= a && b == a + 1 && b < free2.len() implies after[#[trigger] free2[a]].header.next
            == #[trigger] free2[b] by {
            if a > 0 {
                assert(slots[free[a - 1]].header.next == free[b - 1]);
            }
        }
    }
    lemma_free_is(after, h2.free_head, free2);
    assert forall|i: int| free2.contains(i) <==> (i == idx || free.contains(i)) by {
        if free2.contains(i) {
            let j = choose|j: int| 0 <= j < free2.len() && free2[j] == i;
            if j > 0 {
                assert(free[j - 1] == i);
            }
        }
        if i == idx {
            assert(free2[0] == idx);
        }
        if free.contains(i) {
            let j = choose|j: int| 0 <= j < free.len() && free[j] == i;
            assert(free2[j + 1] == i);
        }
    }
    assert forall|i: int| 0 <= i < after.len() && i != -1 implies {
        &&& (#[trigger] after[i]).header.occupied <= 1
        &&& after[i].header.occupied == 1 <==> order.contains(i)
        &&& order.contains(i) <==> !free2.contains(i)
        &&& after[i].header.occupied == 1 ==> after[i].header.key_len <= h.max_key_size
            && after[i].header.value_len <= h.max_value_size
    } by {
        if i != idx {
            assert(slots[i].header.occupied <= 1);
        }
    }
    if h.strategy == 3 {
        lemma_lfu_frame(slots, after, order);
    }
    assert(index_ok_except(buckets, after, n, -1)) by {
        assert forall|p: int| 0 <= p < n && (#[trigger] buckets[p]).slot_index != -1 implies {
            &&& 0 <= buckets[p].slot_index < after.len()
            &&& buckets[p].slot_index != -1
            &&& after[buckets[p].slot_index as int].header.occupied == 1
            &&& after[buckets[p].slot_index as int].header.key_hash == buckets[p].hash
        } by {
            let j = buckets[p].slot_index as int;
            assert(j != idx);
            assert(after[j] == slots[j]);
        }
        assert forall|i: int|
            0 <= i < after.len() && i != -1 && (#[trigger] after[i]).header.occupied == 1 implies holds(
            buckets,
            (Bucket { hash: after[i].header.key_hash, slot_index: i as i32 }),
        ) by {
            assert(i != idx);
            assert(slots[i].header.occupied == 1);
        }
    }
    assert(keys_distinct_except(after, -1)) by {
        assert forall|i: int, j: int|
            0 <= i < after.len() && 0 <= j < after.len() && i != j && i != -1 && j != -1 && (
            #[trigger] after[i]).header.occupied == 1 && (#[trigger] after[j]).header.occupied
                == 1 implies !(after[i].header.key_hash == after[j].header.key_hash
            && after[i].key() == after[j].key()) by {
            assert(i != idx && j != idx);
            assert(slots[i].header.occupied == 1 && slots[j].header.occupied == 1);
        }
    }
    lemma_entries_frame(slots, after, order);
}

/// With an empty free list every slot is occupied, so the cache is full.
pub proof fn lemma_full(h: Header, slots: Seq<Slot>)
    requires
        lists_ok_except(h, slots, -1),
        h.free_head == -1,
    ensures
        h.current_size == h.capacity,
{
    let order = order_of(slots, h.list_head, h.list_tail);
    let free = free_of(slots, h.free_head);
    assert(is_chain(slots, h.list_head, h.list_tail, order));
    assert(is_free_chain(slots, h.free_head, free));
    if free.len() > 0 {
        assert(0 <= free[0]);
    }
    assert(free.len() == 0);
    lemma_list_bound(order, slots.len() as int, -1);
    let s = order.to_set();
    let z = vstd::set_lib::set_int_range(0, slots.len() as int);
    vstd::set_lib::lemma_int_range(0, slots.len() as int);
    order.unique_seq_to_set();
    assert(z.subset_of(s)) by {
        assert forall|v: int| z.contains(v) implies s.contains(v) by {
            assert(slots[v].header.occupied <= 1);
            assert(!free.contains(v));
            assert(order.contains(v));
        }
    }
    vstd::set_lib::lemma_len_subset(z, s);
}

/// A cache with an entry has a head and a tail of its order list.
pub proof fn lemma_nonempty_ends(h: Header, slots: Seq<Slot>)
    requires
        lists_ok_except(h, slots, -1),
        h.current_size >= 1,
    ensures
        h.list_head != -1,
        h.list_tail != -1,
        order_of(slots, h.list_head, h.list_tail).contains(h.list_head as int),
        order_of(slots, h.list_head, h.list_tail).contains(h.list_tail as int),
        order_of(slots, h.list_head, h.list_tail).index_of(h.list_head as int) == 0,
        order_of(slots, h.list_head, h.list_tail).index_of(h.list_tail as int) == order_of(
            slots,
            h.list_head,
            h.list_tail,
        ).len() - 1,
{
    let order = order_of(slots, h.list_head, h.list_tail);
    assert(is_chain(slots, h.list_head, h.list_tail, order));
    let last = order.len() - 1;
    assert(0 <= order[0]);
    assert(0 <= order[last]);
    assert(order.contains(order[0]));
    assert(order.contains(order[last]));
    let a = order.index_of(h.list_head as int);
    let b = order.index_of(h.list_tail as int);
    assert(order[a] == order[0]);
    assert(order[b] == order[last]);
}

/// A hit on the occupied slot `idx` keeps the state sound and moves the
/// entry of the slot as the policy has it.
pub proof fn lemma_touch(h: Header, h2: Header, buckets: Seq<Bucket>, slots: Seq<Slot>, after: Seq<Slot>, idx: int)
    requires
        state_ok_except(h, buckets, slots, -1),
        h.strategy <= 3,
        order_of(slots, h.list_head, h.list_tail).contains(idx),
        after.len() == slots.len(),
        h2 == (Header { list_head: h2.list_head, list_tail: h2.list_tail, ..h }),
        h.strategy == 2 ==> after == slots && h2 == h,
        is_chain(
            after,
            h2.list_head,
            h2.list_tail,
            order_after_access(h.strategy, slots, order_of(slots, h.list_head, h.list_tail), idx),
        ),
        h.strategy == 3 ==> is_lfu_place(
            slots,
            order_of(slots, h.list_head, h.list_tail).remove(
                order_of(slots, h.list_head, h.list_tail).index_of(idx),
            ),
            bump(slots[idx].header.frequency),
            slots[idx].header.unique_id,
            lfu_place(
                slots,
                order_of(slots, h.list_head, h.list_tail).remove(
                    order_of(slots, h.list_head, h.list_tail).index_of(idx),
                ),
                bump(slots[idx].header.frequency),
                slots[idx].header.unique_id,
            ),
        ),
        h.strategy == 3 ==> lfu_sorted(
            after,
            order_after_access(h.strategy, slots, order_of(slots, h.list_head, h.list_tail), idx),
        ),
        forall|i: int|
            0 <= i < slots.len() ==> same_entry(slots[i], #[trigger] after[i]) && after[i].header.frequency
                == (if i == idx && h.strategy == 3 {
                bump(slots[i].header.frequency)
            } else {
                slots[i].header.frequency
            }),
        forall|i: int|
            0 <= i < slots.len() && !order_of(slots, h.list_head, h.list_tail).contains(i)
                ==> #[trigger] after[i] == slots[i],
    ensures
        state_ok_except(h2, buckets, after, -1),
        contents(h2, after) == model_touch(
            h.strategy,
            contents(h, slots),
            order_of(slots, h.list_head, h.list_tail).index_of(idx),
        ),
{
    let order = order_of(slots, h.list_head, h.list_tail);
    let k = order.index_of(idx);
    let rest = order.remove(k);
    let entries = contents(h, slots);
    assert(is_chain(slots, h.list_head, h.list_tail, order));
    assert(0 <= k < order.len() && order[k] == idx);
    assert(0 <= order[k] < slots.len());
    if h.strategy != 2 {
        let f0 = slots[idx].header.frequency;
        let place = if h.strategy == 3 {
            lfu_place(slots, rest, bump(f0), slots[idx].header.unique_id)
        } else {
            order.len() - 1
        };
        let freq = if h.strategy == 3 {
            bump(f0)
        } else {
            f0
        };
        assert(rest.push(idx) =~= rest.insert(rest.len() as int, idx));
        lemma_touch_lists(h, h2, slots, after, idx, place);
        lemma_touch_index(buckets, slots, after, h.ht_capacity);
        lemma_touch_entries(slots, after, order, k, place, freq);
        if h.strategy == 3 {
            lemma_place_bridge(slots, rest, bump(f0), slots[idx].header.unique_id, place);
        } else {
            assert(entries.remove(k).push(entries[k]) =~= entries.remove(k).insert(place, entries[k]));
        }
    }
}

/// Rewriting the detached slot `idx` leaves the order list as it is.
pub proof fn lemma_filled_chain(h: Header, slots: Seq<Slot>, filled: Seq<Slot>, idx: int)
    requires
        lists_ok_except(h, slots, idx),
        0 <= idx < slots.len(),
        filled.len() == slots.len(),
        forall|i: int| 0 <= i < slots.len() && i != idx ==> #[trigger] filled[i] == slots[i],
    ensures
        links_wf(filled, h.list_head, h.list_tail),
        order_of(filled, h.list_head, h.list_tail) == order_of(slots, h.list_head, h.list_tail),
        h.strategy == 3 ==> lfu_sorted(filled, order_of(slots, h.list_head, h.list_tail)),
{
    let order = order_of(slots, h.list_head, h.list_tail);
    assert(is_chain(slots, h.list_head, h.list_tail, order));
    assert forall|k: int| 0 <= k < order.len() implies filled[#[trigger] order[k]] == slots[order[k]] by {
        assert(order.contains(order[k]));
        assert(0 <= order[k] < slots.len());
    }
    lemma_chain_frame(slots, filled, h.list_head, h.list_tail, order);
    lemma_order_is(filled, h.list_head, h.list_tail, order);
    if h.strategy == 3 {
        lemma_lfu_frame(slots, filled, order);
    }
}

/// Filling the detached slot `idx` with a new key, entering it into the
/// index and into the order list, gives a sound state whose contents are
/// the old contents with the new entry entered.
pub proof fn lemma_fill(
    h: Header,
    h2: Header,
    buckets: Seq<Bucket>,
    buckets2: Seq<Bucket>,
    slots: Seq<Slot>,
    filled: Seq<Slot>,
    linked: Seq<Slot>,
    idx: int,
)
    requires
        h.strategy <= 3,
        1 <= h.capacity,
        is_pow2(h.ht_capacity),
        2 * h.capacity <= h.ht_capacity,
        0 <= ideal(filled[idx].header.key_hash, h.ht_capacity) < h.ht_capacity,
        state_ok_except(h, buckets, slots, idx),
        0 <= idx < slots.len(),
        filled.len() == slots.len(),
        linked.len() == slots.len(),
        forall|i: int| 0 <= i < slots.len() && i != idx ==> #[trigger] filled[i] == slots[i],
        filled[idx].header.occupied == 1,
        filled[idx].header.key_len <= h.max_key_size,
        filled[idx].header.value_len <= h.max_value_size,
        forall|i: int|
            0 <= i < slots.len() && i != idx && (#[trigger] slots[i]).header.occupied == 1 ==> !(
            slots[i].header.key_hash == filled[idx].header.key_hash && slots[i].key()
                == filled[idx].key()),
        buckets2 == (match insert_pos(buckets, h.ht_capacity, filled[idx].header.key_hash) {
            Some(p) => buckets.update(
                p,
                (Bucket { hash: filled[idx].header.key_hash, slot_index: idx as i32 }),
            ),
            None => buckets,
        }),
        is_chain(
            linked,
            h2.list_head,
            h2.list_tail,
            order_after_insert(
                h.strategy,
                filled,
                order_of(slots, h.list_head, h.list_tail),
                idx,
            ),
        ),
        h.strategy == 3 ==> is_lfu_place(
            filled,
            order_of(slots, h.list_head, h.list_tail),
            filled[idx].header.frequency,
            filled[idx].header.unique_id,
            lfu_place(
                filled,
                order_of(slots, h.list_head, h.list_tail),
                filled[idx].header.frequency,
                filled[idx].header.unique_id,
            ),
        ),
        forall|i: int| 0 <= i < slots.len() ==> same_but_links(filled[i], #[trigger] linked[i]),
        forall|i: int|
            0 <= i < slots.len() && i != idx && !order_of(slots, h.list_head, h.list_tail).contains(
                i,
            ) ==> #[trigger] linked[i] == filled[i],
        h.strategy == 3 ==> lfu_sorted(
            linked,
            order_after_insert(
                h.strategy,
                filled,
                order_of(slots, h.list_head, h.list_tail),
                idx,
            ),
        ),
        h2 == (Header {
            list_head: h2.list_head,
            list_tail: h2.list_tail,
            current_size: (h.current_size + 1) as u32,
            ..h
        }),
    ensures
        h.current_size < h.capacity,
        state_ok_except(h2, buckets2, linked, -1),
        contents(h2, linked) == model_enter(h.strategy, contents(h, slots), entry_of(filled[idx])),
{
    let order = order_of(slots, h.list_head, h.list_tail);
    let place = if h.strategy == 3 {
        lfu_place(filled, order, filled[idx].header.frequency, filled[idx].header.unique_id)
    } else {
        order.len() as int
    };
    assert(is_chain(slots, h.list_head, h.list_tail, order));
    assert(order.push(idx) =~= order.insert(order.len() as int, idx));
    if h.strategy == 3 {
        lemma_place_bridge(
            filled,
            order,
            filled[idx].header.frequency,
            filled[idx].header.unique_id,
            place,
        );
    }
    lemma_fill_lists(h, h2, slots, filled, linked, idx, place);
    lemma_index_insert(buckets, slots, linked, h.ht_capacity, idx, filled[idx].header.key_hash);
    lemma_fill_keys(slots, filled, linked, idx);
    lemma_fill_entries(slots, filled, linked, order, idx, place);
}

} // verus!
