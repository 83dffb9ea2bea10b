//! The eviction order list: an intrusive doubly-linked list threaded through
//! the slots by their `prev` and `next` fields, with its ends in the header.
//!
//! The list runs from the head, the next entry to evict under LRU, FIFO and
//! LFU, to the tail. Each policy is a rule for where an entry enters the list
//! and what an access does to its place.

use super::layout::{
    lemma_slot_bounds, read_slot_header, slab_view, write_slot_header, Header, Slot, SlotHeader,
    SLOT_HEADER_SIZE, SLOT_NONE,
};
use vstd::prelude::*;

verus! {

/// Policy number of least-recently-used eviction.
pub const STRATEGY_LRU: u32 = 0;

/// Policy number of most-recently-used eviction.
pub const STRATEGY_MRU: u32 = 1;

/// Policy number of first-in-first-out eviction.
pub const STRATEGY_FIFO: u32 = 2;

/// Policy number of least-frequently-used eviction.
pub const STRATEGY_LFU: u32 = 3;

/// `order` is the list that starts at `head` and ends at `tail`: it names
/// each of its slots once, and the `prev` and `next` fields of the slots link
/// them in this order.
pub open spec fn is_chain(slots: Seq<Slot>, head: i32, tail: i32, order: Seq<int>) -> bool {
    &&& order.no_duplicates()
    &&& forall|k: int| 0 <= k < order.len() ==> 0 <= #[trigger] order[k] < slots.len()
    &&& forall|a: int, b: int|
        0 <= a && b == a + 1 && b < order.len() ==> slots[#[trigger] order[a]].header.next
            == #[trigger] order[b] && slots[order[b]].header.prev == order[a]
    &&& order.len() > 0 ==> slots[order[0]].header.prev == -1 && slots[order[order.len()
        - 1]].header.next == -1
    &&& head == (if order.len() == 0 {
        -1
    } else {
        order[0]
    })
    &&& tail == (if order.len() == 0 {
        -1
    } else {
        order[order.len() - 1]
    })
}

/// The links of the slots form a list between `head` and `tail`.
pub open spec fn links_wf(slots: Seq<Slot>, head: i32, tail: i32) -> bool {
    exists|order: Seq<int>| is_chain(slots, head, tail, order)
}

/// The order list, head first, as the sequence of its slot indices.
pub open spec fn order_of(slots: Seq<Slot>, head: i32, tail: i32) -> Seq<int> {
    choose|order: Seq<int>| is_chain(slots, head, tail, order)
}

/// Slot `b` is slot `a` with, at most, other links.
pub open spec fn same_but_links(a: Slot, b: Slot) -> bool {
    &&& b.data == a.data
    &&& b.header.key_hash == a.header.key_hash
    &&& b.header.created_at_nanos == a.header.created_at_nanos
    &&& b.header.frequency == a.header.frequency
    &&& b.header.unique_id == a.header.unique_id
    &&& b.header.occupied == a.header.occupied
    &&& b.header.key_len == a.header.key_len
    &&& b.header.value_len == a.header.value_len
}

/// Header `b` is header `a` with, at most, another head and tail of the
/// order list.
pub open spec fn same_but_ends(a: Header, b: Header) -> bool {
    b == (Header { list_head: b.list_head, list_tail: b.list_tail, ..a })
}

proof fn lemma_chain_step(slots: Seq<Slot>, head: i32, tail: i32, o1: Seq<int>, o2: Seq<int>, k: int)
    requires
        is_chain(slots, head, tail, o1),
        is_chain(slots, head, tail, o2),
        0 <= k,
    ensures
        k < o1.len() <==> k < o2.len(),
        k < o1.len() ==> o1[k] == o2[k],
    decreases k,
{
    if k == 0 {
        if o1.len() > 0 {
            assert(0 <= o1[0]);
        }
        if o2.len() > 0 {
            assert(0 <= o2[0]);
        }
    } else {
        lemma_chain_step(slots, head, tail, o1, o2, k - 1);
        if k - 1 < o1.len() {
            assert(o1[k - 1] == o2[k - 1]);
            if k < o1.len() {
                assert(0 <= o1[k]);
                assert(slots[o1[k - 1]].header.next == o1[k]);
            }
            if k < o2.len() {
                assert(0 <= o2[k]);
                assert(slots[o2[k - 1]].header.next == o2[k]);
            }
        }
    }
}

/// The links of the slots determine the list: two sequences that both
/// describe it are equal.
pub proof fn lemma_chain_unique(slots: Seq<Slot>, head: i32, tail: i32, o1: Seq<int>, o2: Seq<int>)
    requires
        is_chain(slots, head, tail, o1),
        is_chain(slots, head, tail, o2),
    ensures
        o1 == o2,
{
    lemma_chain_step(slots, head, tail, o1, o2, o1.len() as int);
    lemma_chain_step(slots, head, tail, o1, o2, o2.len() as int);
    assert forall|k: int| 0 <= k < o1.len() implies o1[k] == o2[k] by {
        lemma_chain_step(slots, head, tail, o1, o2, k);
    }
    assert(o1 =~= o2);
}

/// A sequence that describes the list is the order list.
pub proof fn lemma_order_is(slots: Seq<Slot>, head: i32, tail: i32, order: Seq<int>)
    requires
        is_chain(slots, head, tail, order),
    ensures
        links_wf(slots, head, tail),
        order_of(slots, head, tail) == order,
{
    lemma_chain_unique(slots, head, tail, order_of(slots, head, tail), order);
}

/// `s` with its `prev` link set to `prev`.
pub open spec fn with_prev(s: Slot, prev: i32) -> Slot {
    Slot { header: SlotHeader { prev, ..s.header }, data: s.data }
}

/// `s` with its `next` link set to `next`.
pub open spec fn with_next(s: Slot, next: i32) -> Slot {
    Slot { header: SlotHeader { next, ..s.header }, data: s.data }
}

/// The slots after slot `order[k]` has been unlinked: its neighbours are
/// linked to each other and its own links are cleared.
pub open spec fn unlinked(slots: Seq<Slot>, order: Seq<int>, k: int) -> Seq<Slot> {
    Seq::new(
        slots.len(),
        |i: int|
            if i == order[k] {
                with_prev(with_next(slots[i], SLOT_NONE), SLOT_NONE)
            } else if k > 0 && i == order[k - 1] {
                with_next(slots[i], slots[order[k]].header.next)
            } else if k + 1 < order.len() && i == order[k + 1] {
                with_prev(slots[i], slots[order[k]].header.prev)
            } else {
                slots[i]
            },
    )
}

/// Unlinking the slot at place `k` of the list leaves the list without it.
pub proof fn lemma_unlink(slots: Seq<Slot>, head: i32, tail: i32, order: Seq<int>, k: int)
    requires
        is_chain(slots, head, tail, order),
        0 <= k < order.len(),
    ensures
        is_chain(
            unlinked(slots, order, k),
            if k > 0 {
                head
            } else {
                slots[order[k]].header.next
            },
            if k + 1 < order.len() {
                tail
            } else {
                slots[order[k]].header.prev
            },
            order.remove(k),
        ),
        forall|i: int|
            0 <= i < slots.len() ==> same_but_links(slots[i], #[trigger] unlinked(slots, order, k)[i]),
        unlinked(slots, order, k).len() == slots.len(),
        unlinked(slots, order, k)[order[k]].header.prev == -1,
        unlinked(slots, order, k)[order[k]].header.next == -1,
        forall|i: int|
            0 <= i < slots.len() && !order.contains(i) ==> #[trigger] unlinked(slots, order, k)[i]
                == slots[i],
{
    assert forall|i: int| 0 <= i < slots.len() && !order.contains(i) implies #[trigger] unlinked(
        slots,
        order,
        k,
    )[i] == slots[i] by {
        assert(order.contains(order[k]));
        if k > 0 {
            assert(order.contains(order[k - 1]));
        }
        if k + 1 < order.len() {
            assert(order.contains(order[k + 1]));
        }
    }
    let after = unlinked(slots, order, k);
    let new_order = order.remove(k);
    let len = order.len() as int;
    assert(0 <= order[k] < slots.len());
    assert forall|m: int| 0 <= m < new_order.len() implies new_order[m] == order[if m < k {
        m
    } else {
        m + 1
    }] by {}
    assert(new_order.no_duplicates());
    assert forall|m: int| 0 <= m < new_order.len() implies 0 <= #[trigger] new_order[m] < after.len() by {
        let m0 = if m < k { m } else { m + 1 };
        assert(0 <= order[m0] < slots.len());
    }
    if k > 0 {
        assert(slots[order[k - 1]].header.next == order[k] && slots[order[k]].header.prev == order[k
            - 1]);
    }
    if k + 1 < len {
        assert(slots[order[k]].header.next == order[k + 1] && slots[order[k + 1]].header.prev
            == order[k]);
    }
    assert forall|a: int, b: int| 0 <= a && b == a + 1 && b < new_order.len() implies after[#[trigger] new_order[a]].header.next
        == #[trigger] new_order[b] && after[new_order[b]].header.prev == new_order[a] by {
        let a0 = if a < k { a } else { a + 1 };
        let b0 = if b < k { b } else { b + 1 };
        let x = order[a0];
        let y = order[b0];
        assert(0 <= x < slots.len() && 0 <= y < slots.len());
        assert(x != order[k] && y != order[k]);
        assert(x != y);
        if b0 == a0 + 1 {
            assert(slots[x].header.next == y && slots[y].header.prev == x);
            if k > 0 {
                assert(x != order[k - 1]);
            }
            if k + 1 < len {
                assert(y != order[k + 1]);
            }
        } else {
            assert(a0 == k - 1 && b0 == k + 1);
        }
    }
    if new_order.len() > 0 {
        let first = if 0 < k { 0 } else { 1int };
        let last = if len - 1 > k { len - 1 } else { len - 2 };
        assert(new_order[0] == order[first]);
        assert(new_order[new_order.len() - 1] == order[last]);
        assert(order[first] != order[k] && order[last] != order[k]);
        if k > 0 && last != k - 1 {
            assert(order[last] != order[k - 1]);
        }
        if k + 1 < len && first != k + 1 {
            assert(order[first] != order[k + 1]);
        }
    }
}

/// Unlinks slot `index` from the order list and clears its links.
pub fn list_remove(header: &mut Header, slab: &mut [u8], slot_size: u32, index: i32)
    requires
        slot_size >= SLOT_HEADER_SIZE,
        old(header).capacity * slot_size <= old(slab).len(),
        links_wf(
            slab_view(old(slab)@, slot_size as int, old(header).capacity as nat),
            old(header).list_head,
            old(header).list_tail,
        ),
        order_of(
            slab_view(old(slab)@, slot_size as int, old(header).capacity as nat),
            old(header).list_head,
            old(header).list_tail,
        ).contains(index as int),
    ensures
        final(slab)@.len() == old(slab)@.len(),
        same_but_ends(*old(header), *final(header)),
        ({
            let cap = old(header).capacity as nat;
            let before = slab_view(old(slab)@, slot_size as int, cap);
            let after = slab_view(final(slab)@, slot_size as int, cap);
            let order = order_of(before, old(header).list_head, old(header).list_tail);
            &&& after == unlinked(before, order, order.index_of(index as int))
            &&& is_chain(
                after,
                final(header).list_head,
                final(header).list_tail,
                order.remove(order.index_of(index as int)),
            )
            &&& after[index as int].header.prev == -1
            &&& after[index as int].header.next == -1
            &&& forall|i: int| 0 <= i < cap ==> same_but_links(before[i], #[trigger] after[i])
            &&& forall|i: int| 0 <= i < cap && !order.contains(i) ==> #[trigger] after[i] == before[i]
        }),
{
    let ghost cap = header.capacity as nat;
    let ghost s = slot_size as int;
    let ghost before = slab_view(slab@, s, cap);
    let ghost order = order_of(before, header.list_head, header.list_tail);
    let ghost k = order.index_of(index as int);
    proof {
        assert(is_chain(before, header.list_head, header.list_tail, order));
        assert(0 <= k < order.len() && order[k] == index);
        lemma_unlink(before, header.list_head, header.list_tail, order, k);
        lemma_slot_bounds(index as int, cap as int, s);
        if k > 0 {
            assert(0 <= order[k - 1] < cap);
            lemma_slot_bounds(order[k - 1], cap as int, s);
        }
        if k + 1 < order.len() {
            assert(0 <= order[k + 1] < cap);
            lemma_slot_bounds(order[k + 1], cap as int, s);
        }
    }
    let me = read_slot_header(slab, slot_size, index as usize);
    assert(me == before[index as int].header);
    let prev = me.prev;
    let next = me.next;
    if prev != SLOT_NONE {
        let mut p = read_slot_header(slab, slot_size, prev as usize);
        assert(p == before[prev as int].header);
        p.next = next;
        write_slot_header(slab, slot_size, prev as usize, &p);
    } else {
        header.list_head = next;
    }
    let ghost mid = slab_view(slab@, s, cap);
    if next != SLOT_NONE {
        let mut nx = read_slot_header(slab, slot_size, next as usize);
        assert(nx == mid[next as int].header);
        nx.prev = prev;
        write_slot_header(slab, slot_size, next as usize, &nx);
    } else {
        header.list_tail = prev;
    }
    let ghost mid2 = slab_view(slab@, s, cap);
    let mut me2 = read_slot_header(slab, slot_size, index as usize);
    assert(me2 == mid2[index as int].header);
    me2.prev = SLOT_NONE;
    me2.next = SLOT_NONE;
    write_slot_header(slab, slot_size, index as usize, &me2);
    proof {
        let after = slab_view(slab@, s, cap);
        assert(after.len() == cap);
        assert forall|i: int| 0 <= i < cap implies after[i] == unlinked(before, order, k)[i] by {}
        assert(after =~= unlinked(before, order, k));
    }
}


/// The slots after slot `i` has been linked into the list at place `p`:
/// between `order[p - 1]` and `order[p]`, as far as they exist.
pub open spec fn linked_at(slots: Seq<Slot>, order: Seq<int>, p: int, i: int) -> Seq<Slot> {
    Seq::new(
        slots.len(),
        |x: int|
            if x == i {
                with_prev(
                    with_next(
                        slots[x],
                        if p < order.len() {
                            order[p] as i32
                        } else {
                            SLOT_NONE
                        },
                    ),
                    if p > 0 {
                        order[p - 1] as i32
                    } else {
                        SLOT_NONE
                    },
                )
            } else if p > 0 && x == order[p - 1] {
                with_next(slots[x], i as i32)
            } else if p < order.len() && x == order[p] {
                with_prev(slots[x], i as i32)
            } else {
                slots[x]
            },
    )
}

/// Linking a slot that is not in the list at place `p` gives the list with
/// the slot inserted at place `p`.
pub proof fn lemma_link(slots: Seq<Slot>, head: i32, tail: i32, order: Seq<int>, p: int, i: int)
    requires
        is_chain(slots, head, tail, order),
        0 <= p <= order.len(),
        0 <= i < slots.len(),
        i <= i32::MAX,
        !order.contains(i),
    ensures
        is_chain(
            linked_at(slots, order, p, i),
            if p > 0 {
                head
            } else {
                i as i32
            },
            if p < order.len() {
                tail
            } else {
                i as i32
            },
            order.insert(p, i),
        ),
        forall|x: int|
            0 <= x < slots.len() ==> same_but_links(slots[x], #[trigger] linked_at(slots, order, p, i)[x]),
        linked_at(slots, order, p, i).len() == slots.len(),
        forall|x: int|
            0 <= x < slots.len() && x != i && !order.contains(x) ==> #[trigger] linked_at(
                slots,
                order,
                p,
                i,
            )[x] == slots[x],
{
    assert forall|x: int| 0 <= x < slots.len() && x != i && !order.contains(x) implies #[trigger] linked_at(
        slots,
        order,
        p,
        i,
    )[x] == slots[x] by {
        if p > 0 {
            assert(order.contains(order[p - 1]));
        }
        if p < order.len() {
            assert(order.contains(order[p]));
        }
    }
    let after = linked_at(slots, order, p, i);
    let new_order = order.insert(p, i);
    let len = order.len() as int;
    assert forall|a: int| 0 <= a < len implies order[a] != i && 0 <= #[trigger] order[a] < slots.len()
        && order[a] <= i32::MAX by {
        assert(order.contains(order[a]));
        if a > 0 {
            assert(slots[order[a - 1]].header.next == order[a]);
        }
    }
    assert forall|m: int| 0 <= m < new_order.len() implies new_order[m] == (if m < p {
        order[m]
    } else if m == p {
        i
    } else {
        order[m - 1]
    }) by {}
    assert(new_order.no_duplicates());
    assert forall|m: int| 0 <= m < new_order.len() implies 0 <= #[trigger] new_order[m] < after.len() by {}
    if p > 0 && p < len {
        assert(slots[order[p - 1]].header.next == order[p] && slots[order[p]].header.prev == order[p
            - 1]);
        assert(order[p - 1] != order[p]);
    }
    assert forall|a: int, b: int| 0 <= a && b == a + 1 && b < new_order.len() implies after[#[trigger] new_order[a]].header.next
        == #[trigger] new_order[b] && after[new_order[b]].header.prev == new_order[a] by {
        let x = new_order[a];
        let y = new_order[b];
        if a == p {
            assert(y == order[p]);
        } else if b == p {
            assert(x == order[p - 1]);
        } else {
            let a0 = if a < p { a } else { a - 1 };
            let b0 = if b < p { b } else { b - 1 };
            assert(x == order[a0] && y == order[b0] && b0 == a0 + 1);
            assert(slots[x].header.next == y && slots[y].header.prev == x);
            assert(x != y);
            if p > 0 {
                assert(a0 != p - 1);
                assert(x != order[p - 1]);
            }
            if p < len {
                assert(b0 != p);
                assert(y != order[p]);
            }
        }
    }
    if p > 0 && p < len {
        assert(order[0] != order[p]);
        assert(order[len - 1] != order[p - 1]);
    }
}

/// Appends slot `index`, which is not in the list, at the tail.
pub fn list_push_tail(header: &mut Header, slab: &mut [u8], slot_size: u32, index: i32)
    requires
        slot_size >= SLOT_HEADER_SIZE,
        old(header).capacity * slot_size <= old(slab).len(),
        0 <= index < old(header).capacity,
        links_wf(
            slab_view(old(slab)@, slot_size as int, old(header).capacity as nat),
            old(header).list_head,
            old(header).list_tail,
        ),
        !order_of(
            slab_view(old(slab)@, slot_size as int, old(header).capacity as nat),
            old(header).list_head,
            old(header).list_tail,
        ).contains(index as int),
    ensures
        final(slab)@.len() == old(slab)@.len(),
        same_but_ends(*old(header), *final(header)),
        ({
            let cap = old(header).capacity as nat;
            let before = slab_view(old(slab)@, slot_size as int, cap);
            let after = slab_view(final(slab)@, slot_size as int, cap);
            let order = order_of(before, old(header).list_head, old(header).list_tail);
            &&& after == linked_at(before, order, order.len() as int, index as int)
            &&& is_chain(
                after,
                final(header).list_head,
                final(header).list_tail,
                order.push(index as int),
            )
            &&& forall|i: int| 0 <= i < cap ==> same_but_links(before[i], #[trigger] after[i])
            &&& forall|i: int|
                0 <= i < cap && i != index && !order.contains(i) ==> #[trigger] after[i] == before[i]
        }),
{
    let ghost cap = header.capacity as nat;
    let ghost s = slot_size as int;
    let ghost before = slab_view(slab@, s, cap);
    let ghost order = order_of(before, header.list_head, header.list_tail);
    let ghost len = order.len() as int;
    proof {
        assert(is_chain(before, header.list_head, header.list_tail, order));
        lemma_link(before, header.list_head, header.list_tail, order, len, index as int);
        assert(order.insert(len, index as int) =~= order.push(index as int));
        lemma_slot_bounds(index as int, cap as int, s);
        if len > 0 {
            assert(0 <= order[len - 1] < cap);
            lemma_slot_bounds(order[len - 1], cap as int, s);
            assert(order.contains(order[len - 1]));
        }
    }
    let tail = header.list_tail;
    let mut me = read_slot_header(slab, slot_size, index as usize);
    me.prev = tail;
    me.next = SLOT_NONE;
    write_slot_header(slab, slot_size, index as usize, &me);
    let ghost mid = slab_view(slab@, s, cap);
    if tail != SLOT_NONE {
        let mut t = read_slot_header(slab, slot_size, tail as usize);
        assert(t == mid[tail as int].header);
        t.next = index;
        write_slot_header(slab, slot_size, tail as usize, &t);
    } else {
        header.list_head = index;
    }
    header.list_tail = index;
    proof {
        let after = slab_view(slab@, s, cap);
        assert forall|i: int| 0 <= i < cap implies after[i] == linked_at(
            before,
            order,
            len,
            index as int,
        )[i] by {}
        assert(after =~= linked_at(before, order, len, index as int));
    }
}

/// Moves slot `index` of the list to the tail.
pub fn list_move_to_tail(header: &mut Header, slab: &mut [u8], slot_size: u32, index: i32)
    requires
        slot_size >= SLOT_HEADER_SIZE,
        old(header).capacity * slot_size <= old(slab).len(),
        links_wf(
            slab_view(old(slab)@, slot_size as int, old(header).capacity as nat),
            old(header).list_head,
            old(header).list_tail,
        ),
        order_of(
            slab_view(old(slab)@, slot_size as int, old(header).capacity as nat),
            old(header).list_head,
            old(header).list_tail,
        ).contains(index as int),
    ensures
        final(slab)@.len() == old(slab)@.len(),
        same_but_ends(*old(header), *final(header)),
        ({
            let cap = old(header).capacity as nat;
            let before = slab_view(old(slab)@, slot_size as int, cap);
            let after = slab_view(final(slab)@, slot_size as int, cap);
            let order = order_of(before, old(header).list_head, old(header).list_tail);
            &&& is_chain(
                after,
                final(header).list_head,
                final(header).list_tail,
                order.remove(order.index_of(index as int)).push(index as int),
            )
            &&& forall|i: int| 0 <= i < cap ==> same_but_links(before[i], #[trigger] after[i])
            &&& forall|i: int| 0 <= i < cap && !order.contains(i) ==> #[trigger] after[i] == before[i]
        }),
{
    let ghost cap = header.capacity as nat;
    let ghost s = slot_size as int;
    let ghost before = slab_view(slab@, s, cap);
    let ghost order = order_of(before, header.list_head, header.list_tail);
    let ghost k = order.index_of(index as int);
    proof {
        assert(is_chain(before, header.list_head, header.list_tail, order));
        assert(0 <= k < order.len() && order[k] == index);
    }
    list_remove(header, slab, slot_size, index);
    let ghost mid = slab_view(slab@, s, cap);
    proof {
        lemma_order_is(mid, header.list_head, header.list_tail, order.remove(k));
        lemma_removed_absent(order, k);
    }
    list_push_tail(header, slab, slot_size, index);
    proof {
        let after = slab_view(slab@, s, cap);
        assert forall|i: int| 0 <= i < cap implies same_but_links(before[i], #[trigger] after[i]) by {
            assert(same_but_links(before[i], mid[i]));
            assert(same_but_links(mid[i], after[i]));
        }
        assert forall|i: int| 0 <= i < cap && !order.contains(i) implies #[trigger] after[i]
            == before[i] by {
            assert(mid[i] == before[i]);
            assert(i != index);
            assert(!order.remove(k).contains(i));
        }
    }
}

/// A list that names each slot once does not name a slot any more once its
/// one mention is removed.
pub proof fn lemma_removed_absent(order: Seq<int>, k: int)
    requires
        order.no_duplicates(),
        0 <= k < order.len(),
    ensures
        !order.remove(k).contains(order[k]),
        order.remove(k).len() == order.len() - 1,
        forall|x: int| x != order[k] ==> (order.remove(k).contains(x) <==> order.contains(x)),
{
    let r = order.remove(k);
    if r.contains(order[k]) {
        let m = choose|m: int| 0 <= m < r.len() && r[m] == order[k];
        let m0 = if m < k { m } else { m + 1 };
        assert(order[m0] == order[k]);
    }
    assert forall|x: int| x != order[k] implies (r.contains(x) <==> order.contains(x)) by {
        if r.contains(x) {
            let m = choose|m: int| 0 <= m < r.len() && r[m] == x;
            let m0 = if m < k { m } else { m + 1 };
            assert(order[m0] == x);
        }
        if order.contains(x) {
            let m0 = choose|m: int| 0 <= m < order.len() && order[m] == x;
            let m = if m0 < k { m0 } else { m0 - 1 };
            assert(r[m] == x);
        }
    }
}

/// The LFU order: lower frequency first, then lower unique id.
pub open spec fn lfu_le(freq_a: u64, uid_a: u64, freq_b: u64, uid_b: u64) -> bool {
    freq_a < freq_b || (freq_a == freq_b && uid_a <= uid_b)
}

/// The list is sorted ascending by `(frequency, unique_id)`.
pub open spec fn lfu_sorted(slots: Seq<Slot>, order: Seq<int>) -> bool {
    forall|a: int, b: int|
        0 <= a < b < order.len() ==> lfu_le(
            slots[#[trigger] order[a]].header.frequency,
            slots[order[a]].header.unique_id,
            slots[#[trigger] order[b]].header.frequency,
            slots[order[b]].header.unique_id,
        )
}

/// Place `p` is where an entry with `(freq, uid)` enters the sorted list:
/// behind the last entry that is not greater, found from the tail.
pub open spec fn is_lfu_place(slots: Seq<Slot>, order: Seq<int>, freq: u64, uid: u64, p: int) -> bool {
    &&& 0 <= p <= order.len()
    &&& p > 0 ==> lfu_le(
        slots[order[p - 1]].header.frequency,
        slots[order[p - 1]].header.unique_id,
        freq,
        uid,
    )
    &&& forall|c: int|
        p <= c < order.len() ==> !lfu_le(
            slots[#[trigger] order[c]].header.frequency,
            slots[order[c]].header.unique_id,
            freq,
            uid,
        )
}

/// The place at which an entry with `(freq, uid)` enters the list.
pub open spec fn lfu_place(slots: Seq<Slot>, order: Seq<int>, freq: u64, uid: u64) -> int {
    choose|p: int| is_lfu_place(slots, order, freq, uid, p)
}

/// There is one place at which an entry enters the list.
pub proof fn lemma_lfu_place_is(slots: Seq<Slot>, order: Seq<int>, freq: u64, uid: u64, p: int)
    requires
        is_lfu_place(slots, order, freq, uid, p),
    ensures
        lfu_place(slots, order, freq, uid) == p,
{
    let q = lfu_place(slots, order, freq, uid);
    assert(is_lfu_place(slots, order, freq, uid, q));
    if q < p {
        assert(!lfu_le(
            slots[order[p - 1]].header.frequency,
            slots[order[p - 1]].header.unique_id,
            freq,
            uid,
        ));
    }
    if p < q {
        assert(!lfu_le(
            slots[order[q - 1]].header.frequency,
            slots[order[q - 1]].header.unique_id,
            freq,
            uid,
        ));
    }
}

/// Entering a sorted list at the LFU place keeps it sorted.
pub proof fn lemma_lfu_insert_sorted(
    slots: Seq<Slot>,
    after: Seq<Slot>,
    order: Seq<int>,
    p: int,
    i: int,
)
    requires
        lfu_sorted(slots, order),
        order.no_duplicates(),
        0 <= i < slots.len(),
        !order.contains(i),
        forall|k: int| 0 <= k < order.len() ==> 0 <= #[trigger] order[k] < slots.len(),
        is_lfu_place(slots, order, slots[i].header.frequency, slots[i].header.unique_id, p),
        after.len() == slots.len(),
        forall|x: int| 0 <= x < slots.len() ==> same_but_links(slots[x], #[trigger] after[x]),
    ensures
        lfu_sorted(after, order.insert(p, i)),
{
    let new_order = order.insert(p, i);
    assert forall|a: int, b: int| 0 <= a < b < new_order.len() implies lfu_le(
        after[#[trigger] new_order[a]].header.frequency,
        after[new_order[a]].header.unique_id,
        after[#[trigger] new_order[b]].header.frequency,
        after[new_order[b]].header.unique_id,
    ) by {
        let xa = new_order[a];
        let xb = new_order[b];
        assert(same_but_links(slots[i], after[i]));
        if a != p {
            let a0 = if a < p { a } else { a - 1 };
            assert(xa == order[a0]);
            assert(same_but_links(slots[order[a0]], after[order[a0]]));
        }
        if b != p {
            let b0 = if b < p { b } else { b - 1 };
            assert(xb == order[b0]);
            assert(same_but_links(slots[order[b0]], after[order[b0]]));
        }
        if a == p {
            let b0 = b - 1;
            assert(!lfu_le(
                slots[order[b0]].header.frequency,
                slots[order[b0]].header.unique_id,
                slots[i].header.frequency,
                slots[i].header.unique_id,
            ));
        } else if b == p {
            if a < p - 1 {
                assert(lfu_le(
                    slots[order[a]].header.frequency,
                    slots[order[a]].header.unique_id,
                    slots[order[p - 1]].header.frequency,
                    slots[order[p - 1]].header.unique_id,
                ));
            }
        } else {
            let a0 = if a < p { a } else { a - 1 };
            let b0 = if b < p { b } else { b - 1 };
            assert(lfu_le(
                slots[order[a0]].header.frequency,
                slots[order[a0]].header.unique_id,
                slots[order[b0]].header.frequency,
                slots[order[b0]].header.unique_id,
            ));
        }
    }
}

/// Links slot `index`, which is not in the list, into the list at its LFU
/// place: behind the last entry whose `(frequency, unique_id)` is not greater
/// than its own, or at the head if there is none.
pub fn list_insert_lfu(header: &mut Header, slab: &mut [u8], slot_size: u32, index: i32)
    requires
        slot_size >= SLOT_HEADER_SIZE,
        old(header).capacity * slot_size <= old(slab).len(),
        0 <= index < old(header).capacity,
        links_wf(
            slab_view(old(slab)@, slot_size as int, old(header).capacity as nat),
            old(header).list_head,
            old(header).list_tail,
        ),
        !order_of(
            slab_view(old(slab)@, slot_size as int, old(header).capacity as nat),
            old(header).list_head,
            old(header).list_tail,
        ).contains(index as int),
    ensures
        final(slab)@.len() == old(slab)@.len(),
        same_but_ends(*old(header), *final(header)),
        ({
            let cap = old(header).capacity as nat;
            let before = slab_view(old(slab)@, slot_size as int, cap);
            let after = slab_view(final(slab)@, slot_size as int, cap);
            let order = order_of(before, old(header).list_head, old(header).list_tail);
            let place = lfu_place(
                before,
                order,
                before[index as int].header.frequency,
                before[index as int].header.unique_id,
            );
            &&& is_lfu_place(
                before,
                order,
                before[index as int].header.frequency,
                before[index as int].header.unique_id,
                place,
            )
            &&& after == linked_at(before, order, place, index as int)
            &&& is_chain(
                after,
                final(header).list_head,
                final(header).list_tail,
                order.insert(place, index as int),
            )
            &&& lfu_sorted(before, order) ==> lfu_sorted(after, order.insert(place, index as int))
            &&& forall|i: int| 0 <= i < cap ==> same_but_links(before[i], #[trigger] after[i])
            &&& forall|i: int|
                0 <= i < cap && i != index && !order.contains(i) ==> #[trigger] after[i] == before[i]
        }),
{
    let ghost cap = header.capacity as nat;
    let ghost s = slot_size as int;
    let ghost before = slab_view(slab@, s, cap);
    let ghost order = order_of(before, header.list_head, header.list_tail);
    let ghost len = order.len() as int;
    proof {
        assert(is_chain(before, header.list_head, header.list_tail, order));
        lemma_slot_bounds(index as int, cap as int, s);
    }
    let mut me = read_slot_header(slab, slot_size, index as usize);
    let new_freq = me.frequency;
    let new_uid = me.unique_id;
    let mut cursor = header.list_tail;
    let ghost mut c: int = len - 1;
    let mut place_found = false;
    let mut after_cursor: i32 = SLOT_NONE;
    while cursor != SLOT_NONE && !place_found
        invariant
            slot_size >= SLOT_HEADER_SIZE,
            header.capacity * slot_size <= slab.len(),
            cap == header.capacity,
            s == slot_size as int,
            before == slab_view(slab@, s, cap),
            is_chain(before, header.list_head, header.list_tail, order),
            len == order.len(),
            -1 <= c < len,
            cursor == (if c >= 0 {
                order[c] as i32
            } else {
                SLOT_NONE
            }),
            after_cursor == (if c + 1 < len {
                order[c + 1] as i32
            } else {
                SLOT_NONE
            }),
            place_found ==> c >= 0 && lfu_le(
                before[order[c]].header.frequency,
                before[order[c]].header.unique_id,
                new_freq,
                new_uid,
            ),
            forall|x: int|
                c < x < len ==> !lfu_le(
                    before[#[trigger] order[x]].header.frequency,
                    before[order[x]].header.unique_id,
                    new_freq,
                    new_uid,
                ),
        decreases c + 1, if place_found { 0int } else { 1int },
    {
        proof {
            assert(0 <= order[c] < cap);
            lemma_slot_bounds(order[c], cap as int, s);
        }
        let cs = read_slot_header(slab, slot_size, cursor as usize);
        assert(cs == before[order[c]].header);
        if cs.frequency < new_freq || (cs.frequency == new_freq && cs.unique_id <= new_uid) {
            place_found = true;
        } else {
            after_cursor = cursor;
            cursor = cs.prev;
            proof {
                c = c - 1;
            }
        }
    }
    let ghost place = c + 1;
    proof {
        assert(is_lfu_place(before, order, new_freq, new_uid, place));
        lemma_lfu_place_is(before, order, new_freq, new_uid, place);
        lemma_link(before, header.list_head, header.list_tail, order, place, index as int);
        if place > 0 {
            assert(0 <= order[place - 1] < cap);
            lemma_slot_bounds(order[place - 1], cap as int, s);
            assert(order.contains(order[place - 1]));
        }
        if place < len {
            assert(0 <= order[place] < cap);
            lemma_slot_bounds(order[place], cap as int, s);
            assert(order.contains(order[place]));
        }
        if place > 0 && place < len {
            assert(order[place - 1] != order[place]);
        }
    }
    me.prev = cursor;
    me.next = after_cursor;
    write_slot_header(slab, slot_size, index as usize, &me);
    let ghost mid = slab_view(slab@, s, cap);
    if after_cursor != SLOT_NONE {
        let mut nx = read_slot_header(slab, slot_size, after_cursor as usize);
        assert(nx == mid[after_cursor as int].header);
        nx.prev = index;
        write_slot_header(slab, slot_size, after_cursor as usize, &nx);
    } else {
        header.list_tail = index;
    }
    let ghost mid2 = slab_view(slab@, s, cap);
    if cursor != SLOT_NONE {
        let mut cs = read_slot_header(slab, slot_size, cursor as usize);
        assert(cs == mid2[cursor as int].header);
        cs.next = index;
        write_slot_header(slab, slot_size, cursor as usize, &cs);
    } else {
        header.list_head = index;
    }
    proof {
        let after = slab_view(slab@, s, cap);
        assert forall|i: int| 0 <= i < cap implies after[i] == linked_at(
            before,
            order,
            place,
            index as int,
        )[i] by {}
        assert(after =~= linked_at(before, order, place, index as int));
        if lfu_sorted(before, order) {
            lemma_lfu_insert_sorted(before, after, order, place, index as int);
        }
    }
}

/// The slot to evict next under `strategy`: the tail under MRU, the head
/// under every other policy; `SLOT_NONE` if the list is empty.
pub fn evict_candidate(header: &Header, strategy: u32) -> (index: i32)
    ensures
        index == (if strategy == STRATEGY_MRU {
            header.list_tail
        } else {
            header.list_head
        }),
{
    match strategy {
        0 | 2 | 3 => header.list_head,
        1 => header.list_tail,
        _ => header.list_head,
    }
}


/// A frequency counter after one more access: it stops at the largest value.
pub open spec fn bump(freq: u64) -> u64 {
    if freq < u64::MAX {
        (freq + 1) as u64
    } else {
        freq
    }
}

/// The order list after an access to slot `index` under `strategy`: LRU and
/// MRU move the slot to the tail, LFU counts the access and moves the slot to
/// its new LFU place, FIFO and unknown policies leave the list as it is.
pub open spec fn order_after_access(strategy: u32, slots: Seq<Slot>, order: Seq<int>, index: int) -> Seq<
    int,
> {
    let rest = order.remove(order.index_of(index));
    if strategy == STRATEGY_LRU || strategy == STRATEGY_MRU {
        rest.push(index)
    } else if strategy == STRATEGY_LFU {
        rest.insert(
            lfu_place(
                slots,
                rest,
                bump(slots[index].header.frequency),
                slots[index].header.unique_id,
            ),
            index,
        )
    } else {
        order
    }
}

/// The order list after slot `index` has entered it under `strategy`: at its
/// LFU place under LFU, at the tail under every other policy.
pub open spec fn order_after_insert(strategy: u32, slots: Seq<Slot>, order: Seq<int>, index: int) -> Seq<
    int,
> {
    if strategy == STRATEGY_LFU {
        order.insert(
            lfu_place(slots, order, slots[index].header.frequency, slots[index].header.unique_id),
            index,
        )
    } else {
        order.push(index)
    }
}

/// Slot `b` holds the entry of slot `a`: the same key, value and metadata,
/// whatever its links and its frequency.
pub open spec fn same_entry(a: Slot, b: Slot) -> bool {
    &&& b.data == a.data
    &&& b.header.key_hash == a.header.key_hash
    &&& b.header.created_at_nanos == a.header.created_at_nanos
    &&& b.header.unique_id == a.header.unique_id
    &&& b.header.occupied == a.header.occupied
    &&& b.header.key_len == a.header.key_len
    &&& b.header.value_len == a.header.value_len
}

/// Slots whose links agree on the slots of the list describe the same list.
pub proof fn lemma_chain_frame(a: Seq<Slot>, b: Seq<Slot>, head: i32, tail: i32, order: Seq<int>)
    requires
        is_chain(a, head, tail, order),
        a.len() == b.len(),
        forall|k: int|
            0 <= k < order.len() ==> b[#[trigger] order[k]].header.prev == a[order[k]].header.prev
                && b[order[k]].header.next == a[order[k]].header.next,
    ensures
        is_chain(b, head, tail, order),
{
    assert forall|x: int, y: int| 0 <= x && y == x + 1 && y < order.len() implies b[#[trigger] order[x]].header.next
        == #[trigger] order[y] && b[order[y]].header.prev == order[x] by {
        assert(a[order[x]].header.next == order[y] && a[order[y]].header.prev == order[x]);
    }
}

/// A sorted list stays sorted when one of its entries is taken out, and
/// when slots outside it change.
pub proof fn lemma_lfu_remove_sorted(a: Seq<Slot>, b: Seq<Slot>, order: Seq<int>, k: int)
    requires
        lfu_sorted(a, order),
        order.no_duplicates(),
        0 <= k < order.len(),
        forall|x: int| 0 <= x < order.len() ==> 0 <= #[trigger] order[x] < a.len(),
        a.len() == b.len(),
        forall|x: int|
            0 <= x < a.len() && x != order[k] ==> (#[trigger] b[x]).header.frequency
                == a[x].header.frequency && b[x].header.unique_id == a[x].header.unique_id,
    ensures
        lfu_sorted(b, order.remove(k)),
{
    let rest = order.remove(k);
    assert forall|x: int, y: int| 0 <= x < y < rest.len() implies lfu_le(
        b[#[trigger] rest[x]].header.frequency,
        b[rest[x]].header.unique_id,
        b[#[trigger] rest[y]].header.frequency,
        b[rest[y]].header.unique_id,
    ) by {
        let x0 = if x < k { x } else { x + 1 };
        let y0 = if y < k { y } else { y + 1 };
        assert(rest[x] == order[x0] && rest[y] == order[y0]);
        assert(order[x0] != order[k] && order[y0] != order[k]);
        assert(lfu_le(
            a[order[x0]].header.frequency,
            a[order[x0]].header.unique_id,
            a[order[y0]].header.frequency,
            a[order[y0]].header.unique_id,
        ));
    }
}

/// The place of an entry in a list depends on the frequencies and unique
/// ids of the list's slots only.
pub proof fn lemma_lfu_place_frame(
    a: Seq<Slot>,
    b: Seq<Slot>,
    order: Seq<int>,
    freq: u64,
    uid: u64,
    p: int,
)
    requires
        is_lfu_place(a, order, freq, uid, p),
        forall|x: int|
            0 <= x < order.len() ==> b[#[trigger] order[x]].header.frequency
                == a[order[x]].header.frequency && b[order[x]].header.unique_id
                == a[order[x]].header.unique_id,
    ensures
        is_lfu_place(b, order, freq, uid, p),
        lfu_place(b, order, freq, uid) == p,
{
    assert(is_lfu_place(b, order, freq, uid, p)) by {
        if p > 0 {
            assert(b[order[p - 1]].header.frequency == a[order[p - 1]].header.frequency);
        }
        assert forall|c: int| p <= c < order.len() implies !lfu_le(
            b[#[trigger] order[c]].header.frequency,
            b[order[c]].header.unique_id,
            freq,
            uid,
        ) by {
            assert(!lfu_le(a[order[c]].header.frequency, a[order[c]].header.unique_id, freq, uid));
        }
    }
    lemma_lfu_place_is(b, order, freq, uid, p);
}

/// Updates the order list after a hit on slot `index`: LRU and MRU move the
/// slot to the tail; LFU counts the access and moves the slot to its LFU
/// place; FIFO, and a policy number that names no policy, change nothing.
pub fn on_access(header: &mut Header, slab: &mut [u8], slot_size: u32, index: i32, strategy: u32)
    requires
        slot_size >= SLOT_HEADER_SIZE,
        old(header).capacity * slot_size <= old(slab).len(),
        links_wf(
            slab_view(old(slab)@, slot_size as int, old(header).capacity as nat),
            old(header).list_head,
            old(header).list_tail,
        ),
        order_of(
            slab_view(old(slab)@, slot_size as int, old(header).capacity as nat),
            old(header).list_head,
            old(header).list_tail,
        ).contains(index as int),
    ensures
        final(slab)@.len() == old(slab)@.len(),
        same_but_ends(*old(header), *final(header)),
        strategy != STRATEGY_LRU && strategy != STRATEGY_MRU && strategy != STRATEGY_LFU
            ==> final(slab)@ == old(slab)@ && *final(header) == *old(header),
        ({
            let cap = old(header).capacity as nat;
            let before = slab_view(old(slab)@, slot_size as int, cap);
            let after = slab_view(final(slab)@, slot_size as int, cap);
            let order = order_of(before, old(header).list_head, old(header).list_tail);
            let new_order = order_after_access(strategy, before, order, index as int);
            let rest = order.remove(order.index_of(index as int));
            &&& is_chain(after, final(header).list_head, final(header).list_tail, new_order)
            &&& strategy == STRATEGY_LFU ==> is_lfu_place(
                before,
                rest,
                bump(before[index as int].header.frequency),
                before[index as int].header.unique_id,
                lfu_place(
                    before,
                    rest,
                    bump(before[index as int].header.frequency),
                    before[index as int].header.unique_id,
                ),
            )
            &&& strategy == STRATEGY_LFU && lfu_sorted(before, order) ==> lfu_sorted(after, new_order)
            &&& forall|i: int|
                0 <= i < cap ==> same_entry(before[i], #[trigger] after[i]) && after[i].header.frequency
                    == (if i == index && strategy == STRATEGY_LFU {
                    bump(before[i].header.frequency)
                } else {
                    before[i].header.frequency
                })
            &&& forall|i: int| 0 <= i < cap && !order.contains(i) ==> #[trigger] after[i] == before[i]
        }),
{
    let ghost cap = header.capacity as nat;
    let ghost s = slot_size as int;
    let ghost before = slab_view(slab@, s, cap);
    let ghost order = order_of(before, header.list_head, header.list_tail);
    let ghost k = order.index_of(index as int);
    proof {
        assert(is_chain(before, header.list_head, header.list_tail, order));
        assert(0 <= k < order.len() && order[k] == index);
    }
    match strategy {
        0 | 1 => {
            list_move_to_tail(header, slab, slot_size, index);
        },
        3 => {
            proof {
                lemma_slot_bounds(index as int, cap as int, s);
            }
            let mut me = read_slot_header(slab, slot_size, index as usize);
            if me.frequency < u64::MAX {
                me.frequency += 1;
            }
            write_slot_header(slab, slot_size, index as usize, &me);
            let ghost bumped = slab_view(slab@, s, cap);
            proof {
                lemma_chain_frame(before, bumped, header.list_head, header.list_tail, order);
                lemma_order_is(bumped, header.list_head, header.list_tail, order);
            }
            list_remove(header, slab, slot_size, index);
            let ghost mid = slab_view(slab@, s, cap);
            let ghost rest = order.remove(k);
            proof {
                lemma_order_is(mid, header.list_head, header.list_tail, rest);
                lemma_removed_absent(order, k);
            }
            list_insert_lfu(header, slab, slot_size, index);
            proof {
                let after = slab_view(slab@, s, cap);
                let freq = bump(before[index as int].header.frequency);
                let uid = before[index as int].header.unique_id;
                assert(same_but_links(bumped[index as int], mid[index as int]));
                let place = lfu_place(mid, rest, freq, uid);
                assert forall|x: int| 0 <= x < rest.len() implies before[#[trigger] rest[x]].header.frequency
                    == mid[rest[x]].header.frequency && before[rest[x]].header.unique_id
                    == mid[rest[x]].header.unique_id by {
                    let x0 = if x < k { x } else { x + 1 };
                    assert(rest[x] == order[x0]);
                    assert(order[x0] != order[k]);
                    assert(0 <= order[x0] < cap);
                    assert(same_but_links(bumped[rest[x]], mid[rest[x]]));
                }
                lemma_lfu_place_frame(mid, before, rest, freq, uid, place);
                assert forall|i: int| 0 <= i < cap implies same_entry(before[i], #[trigger] after[i])
                    && after[i].header.frequency == (if i == index {
                    bump(before[i].header.frequency)
                } else {
                    before[i].header.frequency
                }) by {
                    assert(same_but_links(bumped[i], mid[i]));
                    assert(same_but_links(mid[i], after[i]));
                }
                assert forall|i: int| 0 <= i < cap && !order.contains(i) implies #[trigger] after[i]
                    == before[i] by {
                    assert(i != index);
                    assert(bumped[i] == before[i]);
                    assert(mid[i] == bumped[i]);
                    assert(!rest.contains(i));
                }
                if lfu_sorted(before, order) {
                    assert forall|x: int|
                        0 <= x < cap && x != order[k] implies (#[trigger] mid[x]).header.frequency
                        == before[x].header.frequency && mid[x].header.unique_id
                        == before[x].header.unique_id by {
                        assert(same_but_links(bumped[x], mid[x]));
                    }
                    lemma_lfu_remove_sorted(before, mid, order, k);
                }
            }
        },
        _ => {},
    }
}

/// Enters slot `index`, which is not in the list, into the order list: at
/// its LFU place under LFU, at the tail under every other policy.
pub fn on_insert(header: &mut Header, slab: &mut [u8], slot_size: u32, index: i32, strategy: u32)
    requires
        slot_size >= SLOT_HEADER_SIZE,
        old(header).capacity * slot_size <= old(slab).len(),
        0 <= index < old(header).capacity,
        links_wf(
            slab_view(old(slab)@, slot_size as int, old(header).capacity as nat),
            old(header).list_head,
            old(header).list_tail,
        ),
        !order_of(
            slab_view(old(slab)@, slot_size as int, old(header).capacity as nat),
            old(header).list_head,
            old(header).list_tail,
        ).contains(index as int),
    ensures
        final(slab)@.len() == old(slab)@.len(),
        same_but_ends(*old(header), *final(header)),
        ({
            let cap = old(header).capacity as nat;
            let before = slab_view(old(slab)@, slot_size as int, cap);
            let after = slab_view(final(slab)@, slot_size as int, cap);
            let order = order_of(before, old(header).list_head, old(header).list_tail);
            let new_order = order_after_insert(strategy, before, order, index as int);
            &&& is_chain(after, final(header).list_head, final(header).list_tail, new_order)
            &&& strategy == STRATEGY_LFU ==> is_lfu_place(
                before,
                order,
                before[index as int].header.frequency,
                before[index as int].header.unique_id,
                lfu_place(
                    before,
                    order,
                    before[index as int].header.frequency,
                    before[index as int].header.unique_id,
                ),
            )
            &&& strategy == STRATEGY_LFU && lfu_sorted(before, order) ==> lfu_sorted(after, new_order)
            &&& forall|i: int| 0 <= i < cap ==> same_but_links(before[i], #[trigger] after[i])
            &&& forall|i: int|
                0 <= i < cap && i != index && !order.contains(i) ==> #[trigger] after[i] == before[i]
        }),
{
    match strategy {
        3 => {
            list_insert_lfu(header, slab, slot_size, index);
        },
        _ => {
            list_push_tail(header, slab, slot_size, index);
        },
    }
}

} // verus!
