//! The region as a whole: how its size follows from the parameters, how a
//! fresh region is laid out, and when an existing region can be taken over.
//!
//! Mapping the backing files is the embedding layer's part; this module
//! works on the mapped bytes.

use super::hashtable::{empty_bucket, ht_clear, is_pow2};
use super::layout::{
    blank_slot, header_at, ht_view, lemma_blank_slab, lemma_header_prefix, lemma_slot_bounds,
    read_slot_header, slab_view, write_slot_header, Bucket, Header, Slot, SlotHeader, HEADER_SIZE,
    LAYOUT_VERSION, MAGIC, SLOT_NONE,
};
use super::model::{contents, Entry};
use super::ordering::{is_chain, lemma_order_is};
use super::state::{
    geometry_ok, index_ok_except, is_free_chain, keys_distinct_except, lemma_free_is,
    lists_ok_except, parts_ok, state_ok_except,
};
use vstd::prelude::*;
use vstd::string::StringExecFns;

verus! {

/// The bytes of the bucket array of region `r`.
pub open spec fn region_ht(r: Seq<u8>) -> Seq<u8> {
    r.subrange(256, 256 + 16 * header_at(r).ht_capacity)
}

/// The bytes of the slot slab of region `r`.
pub open spec fn region_slab(r: Seq<u8>) -> Seq<u8> {
    r.subrange(256 + 16 * header_at(r).ht_capacity, r.len() as int)
}

/// The slots of region `r`.
pub open spec fn region_slots(r: Seq<u8>) -> Seq<Slot> {
    slab_view(region_slab(r), header_at(r).slot_size as int, header_at(r).capacity as nat)
}

/// The buckets of region `r`.
pub open spec fn region_buckets(r: Seq<u8>) -> Seq<Bucket> {
    ht_view(region_ht(r), header_at(r).ht_capacity as nat)
}

/// Region `r` is sound: its header carries the magic and consistent
/// parameters, its length is the one they give, and its state satisfies the
/// invariant that holds whenever no writer is active.
pub open spec fn region_wf(r: Seq<u8>) -> bool {
    &&& r.len() >= 256 + 16 * header_at(r).ht_capacity
    &&& parts_ok(header_at(r), region_ht(r), region_slab(r), -1)
}

/// The contents of region `r`: its entries in eviction order.
pub open spec fn region_contents(r: Seq<u8>) -> Seq<Entry> {
    contents(header_at(r), region_slots(r))
}

/// A region is its header, its bucket array and its slab, one after the
/// other.
pub proof fn lemma_region_parts(r: Seq<u8>, head: Seq<u8>, ht: Seq<u8>, slab: Seq<u8>)
    requires
        r == head + ht + slab,
        head.len() == 256,
        ht.len() == 16 * header_at(head).ht_capacity,
    ensures
        header_at(r) == header_at(head),
        region_ht(r) == ht,
        region_slab(r) == slab,
        r.len() == 256 + ht.len() + slab.len(),
{
    assert forall|k: int| 0 <= k < 256 implies r[k] == head[k] by {}
    lemma_header_prefix(r, head);
    assert(region_ht(r) =~= ht);
    assert(region_slab(r) =~= slab);
}

/// Splits a region into its header, its bucket array of `ht_len` bytes and
/// its slab.
pub fn split_region(region: &mut [u8], ht_len: usize) -> (parts: (&mut [u8], &mut [u8], &mut [u8]))
    requires
        256 + ht_len <= old(region).len(),
    ensures
        parts.0@ == old(region)@.subrange(0, 256),
        parts.1@ == old(region)@.subrange(256, 256 + ht_len),
        parts.2@ == old(region)@.subrange(256 + ht_len, old(region)@.len() as int),
        header_at(parts.0@) == header_at(old(region)@),
        final(region)@ == final(parts.0)@ + final(parts.1)@ + final(parts.2)@,
{
    let (head, rest) = region.split_at_mut(HEADER_SIZE);
    let (ht, slab) = rest.split_at_mut(ht_len);
    proof {
        lemma_header_prefix(head@, old(region)@);
        assert(ht@ =~= old(region)@.subrange(256, 256 + ht_len));
        assert(slab@ =~= old(region)@.subrange(256 + ht_len, old(region)@.len() as int));
    }
    (head, ht, slab)
}

/// The header after a reset: no entry, no statistics, every slot on the
/// free list.
pub open spec fn cleared_header(h: Header) -> Header {
    Header {
        hits: 0,
        misses: 0,
        oversize_skips: 0,
        current_size: 0,
        list_head: SLOT_NONE,
        list_tail: SLOT_NONE,
        free_head: 0,
        ..h
    }
}

/// Slot `i` of `len` after a reset: unoccupied, with no predecessor, and
/// linked to slot `i + 1` if there is one. What else it holds stays.
pub open spec fn cleared_slot(slot: Slot, i: int, len: int) -> Slot {
    Slot {
        header: SlotHeader {
            occupied: 0,
            prev: SLOT_NONE,
            next: if i + 1 < len {
                (i + 1) as i32
            } else {
                SLOT_NONE
            },
            ..slot.header
        },
        data: slot.data,
    }
}

/// The slots after a reset.
pub open spec fn cleared_slots(slots: Seq<Slot>) -> Seq<Slot> {
    Seq::new(slots.len(), |i: int| cleared_slot(slots[i], i, slots.len() as int))
}

/// The buckets after a reset: `n` empty buckets.
pub open spec fn cleared_buckets(n: nat) -> Seq<Bucket> {
    Seq::new(n, |i: int| empty_bucket())
}

/// A reset state is sound and holds no entry.
pub proof fn lemma_cleared_state(h: Header, slots: Seq<Slot>)
    requires
        1 <= slots.len() <= i32::MAX,
        slots.len() == h.capacity,
    ensures
        state_ok_except(
            cleared_header(h),
            cleared_buckets(h.ht_capacity as nat),
            cleared_slots(slots),
            -1,
        ),
        contents(cleared_header(h), cleared_slots(slots)) == Seq::<Entry>::empty(),
{
    let h2 = cleared_header(h);
    let after = cleared_slots(slots);
    let buckets = cleared_buckets(h.ht_capacity as nat);
    let order = Seq::<int>::empty();
    let free = Seq::new(slots.len(), |i: int| i);
    assert(is_chain(after, h2.list_head, h2.list_tail, order));
    lemma_order_is(after, h2.list_head, h2.list_tail, order);
    assert(is_free_chain(after, h2.free_head, free));
    lemma_free_is(after, h2.free_head, free);
    assert forall|i: int| 0 <= i < after.len() implies free.contains(i) by {
        assert(free[i] == i);
    }
    assert(lists_ok_except(h2, after, -1));
    assert(index_ok_except(buckets, after, h2.ht_capacity, -1));
    assert(keys_distinct_except(after, -1));
    assert(contents(h2, after) =~= Seq::<Entry>::empty());
}

/// Two resets in a row leave what one reset leaves.
pub proof fn lemma_clear_idempotent(h: Header, slots: Seq<Slot>)
    ensures
        cleared_header(cleared_header(h)) == cleared_header(h),
        cleared_slots(cleared_slots(slots)) == cleared_slots(slots),
{
    assert(cleared_slots(cleared_slots(slots)) =~= cleared_slots(slots));
}

/// Resets the parts of a region: empties every bucket, puts every slot on
/// the free list and clears the counters.
pub fn reset_parts(h: &mut Header, ht: &mut [u8], slab: &mut [u8])
    requires
        geometry_ok(*old(h), old(ht)@.len() as int, old(slab)@.len() as int),
    ensures
        final(ht)@.len() == old(ht)@.len(),
        final(slab)@.len() == old(slab)@.len(),
        *final(h) == cleared_header(*old(h)),
        ht_view(final(ht)@, old(h).ht_capacity as nat) == cleared_buckets(old(h).ht_capacity as nat),
        slab_view(final(slab)@, old(h).slot_size as int, old(h).capacity as nat) == cleared_slots(
            slab_view(old(slab)@, old(h).slot_size as int, old(h).capacity as nat),
        ),
        parts_ok(*final(h), final(ht)@, final(slab)@, -1),
        contents(*final(h), slab_view(final(slab)@, old(h).slot_size as int, old(h).capacity as nat))
            == Seq::<Entry>::empty(),
{
    let ghost h0 = *h;
    let ghost s = h.slot_size as int;
    let ghost cap = h.capacity as nat;
    let ghost slots = slab_view(slab@, s, cap);
    assert(ht.len() == 16 * h.ht_capacity);
    assert(slab.len() == h.capacity * h.slot_size);
    ht_clear(ht, h.ht_capacity);
    let capacity = h.capacity;
    let slot_size = h.slot_size;
    let mut i: u32 = 0;
    while i < capacity
        invariant
            0 <= i <= capacity,
            capacity <= i32::MAX,
            slot_size >= 64,
            cap == capacity,
            s == slot_size as int,
            slab@.len() == old(slab)@.len(),
            capacity * slot_size <= slab.len(),
            slots == slab_view(old(slab)@, s, cap),
            slab_view(slab@, s, cap) == Seq::new(
                cap,
                |j: int|
                    if j < i {
                        cleared_slot(slots[j], j, cap as int)
                    } else {
                        slots[j]
                    },
            ),
        decreases capacity - i,
    {
        proof {
            lemma_slot_bounds(i as int, cap as int, s);
        }
        let ghost cur = slab_view(slab@, s, cap);
        let mut sh = read_slot_header(slab, slot_size, i as usize);
        assert(sh == cur[i as int].header);
        sh.occupied = 0;
        sh.prev = SLOT_NONE;
        sh.next = if i + 1 < capacity {
            (i + 1) as i32
        } else {
            SLOT_NONE
        };
        write_slot_header(slab, slot_size, i as usize, &sh);
        proof {
            let next = slab_view(slab@, s, cap);
            assert(next == cur.update(i as int, (Slot { header: sh, data: cur[i as int].data })));
            assert(next =~= Seq::new(
                cap,
                |j: int|
                    if j < i + 1 {
                        cleared_slot(slots[j], j, cap as int)
                    } else {
                        slots[j]
                    },
            ));
        }
        i += 1;
    }
    h.current_size = 0;
    h.hits = 0;
    h.misses = 0;
    h.oversize_skips = 0;
    h.list_head = SLOT_NONE;
    h.list_tail = SLOT_NONE;
    h.free_head = 0;
    proof {
        assert(slab_view(slab@, s, cap) =~= cleared_slots(slots));
        lemma_cleared_state(h0, slots);
    }
}

/// Why a region cannot be set up with the given parameters.
#[derive(Clone, Copy, Debug, PartialEq, Eq, Structural)]
pub enum RegionError {
    /// The policy number names no policy.
    BadStrategy,
    /// The capacity is zero.
    BadCapacity,
    /// The region would be larger than the layout or the machine can
    /// address.
    TooLarge,
    /// The mapped bytes are not of the size that the parameters give.
    WrongLength,
}

impl RegionError {
    /// The text of the error.
    pub open spec fn text(self) -> Seq<char> {
        match self {
            RegionError::BadStrategy => "unknown strategy"@,
            RegionError::BadCapacity => "capacity must be positive"@,
            RegionError::TooLarge => "region too large"@,
            RegionError::WrongLength => "backing file has the wrong length"@,
        }
    }

    /// The text of the error.
    pub fn message(&self) -> (text: &'static str)
        ensures
            text@ == self.text(),
    {
        match self {
            RegionError::BadStrategy => "unknown strategy",
            RegionError::BadCapacity => "capacity must be positive",
            RegionError::TooLarge => "region too large",
            RegionError::WrongLength => "backing file has the wrong length",
        }
    }
}

/// The name of the data file of the region `name`: the name and `.data`.
pub fn data_file_name(name: &str) -> (file: String)
    ensures
        file@ == name@ + ".data"@,
{
    String::from_str(name).concat(".data")
}

/// The name of the lock file of the region `name`: the name and `.lock`.
pub fn lock_file_name(name: &str) -> (file: String)
    ensures
        file@ == name@ + ".lock"@,
{
    String::from_str(name).concat(".lock")
}

/// The sizes that follow from the parameters of a region.
#[derive(Clone, Copy, Debug)]
pub struct RegionPlan {
    pub ht_capacity: u32,
    pub slot_size: u32,
    pub region_size: usize,
}

/// The least power of two that is at least `x`, found by doubling from `p`.
pub open spec fn pow2_from(x: nat, p: nat) -> nat
    decreases (if x > p {
        x - p
    } else {
        0
    }),
{
    if p >= x || p == 0 {
        p
    } else {
        pow2_from(x, 2 * p)
    }
}

/// The least power of two that is at least `x`.
pub open spec fn next_pow2(x: nat) -> nat {
    pow2_from(x, 1)
}

/// The least power of two that is at least `x`.
pub fn next_power_of_two(x: u32) -> (p: u32)
    requires
        x <= 0x8000_0000,
    ensures
        p == next_pow2(x as nat),
        is_pow2(p),
        x <= p,
        p < 2 * x || p == 1,
{
    let mut p: u32 = 1;
    assert(is_pow2(1u32)) by {
        assert(1u32 & ((1u32 - 1) as u32) == 0) by (bit_vector);
    }
    while p < x
        invariant
            x <= 0x8000_0000,
            1 <= p <= 0x8000_0000,
            is_pow2(p),
            p < 2 * x || p == 1,
            pow2_from(x as nat, p as nat) == next_pow2(x as nat),
        decreases (if x > p {
            x - p
        } else {
            0
        }),
    {
        assert(p <= 0x4000_0000 && is_pow2((2 * p) as u32)) by {
            let q = (p - 1) as u32;
            let d = (2 * p) as u32;
            let dq = (d - 1) as u32;
            assert(p != 0 && p & q == 0 && q == (p - 1) as u32 && p < 0x8000_0000 ==> p
                <= 0x4000_0000) by (bit_vector);
            assert(p != 0 && p & q == 0 && q == (p - 1) as u32 && p <= 0x4000_0000 && d == (2
                * p) as u32 && dq == (d - 1) as u32 ==> d & dq == 0 && d != 0) by (bit_vector);
        }
        p = 2 * p;
    }
    p
}

/// The outcome of planning a region: the error that the parameters call
/// for, in the order capacity, size.
pub open spec fn plan_of(capacity: u32, max_key_size: u32, max_value_size: u32) -> Result<
    (int, int, int),
    RegionError,
> {
    let slot_size = 64 + max_key_size + max_value_size;
    let ht_capacity = next_pow2(2 * capacity as nat) as int;
    let size = 256 + 16 * ht_capacity + capacity * slot_size;
    if capacity == 0 {
        Err(RegionError::BadCapacity)
    } else if capacity > 0x4000_0000 || slot_size > u32::MAX || size > usize::MAX {
        Err(RegionError::TooLarge)
    } else {
        Ok((ht_capacity, slot_size, size))
    }
}

/// Computes the bucket count, the slot size and the total size of a region
/// with `capacity` slots: `ht_capacity` is the least power of two that is at
/// least `2 * capacity`, a slot is 64 bytes and the room for one key and one
/// value, and the region is the header, the buckets and the slots.
pub fn plan_region(capacity: u32, max_key_size: u32, max_value_size: u32) -> (r: Result<
    RegionPlan,
    RegionError,
>)
    ensures
        match (r, plan_of(capacity, max_key_size, max_value_size)) {
            (Ok(plan), Ok(want)) => plan.ht_capacity == want.0 && plan.slot_size == want.1
                && plan.region_size == want.2 && is_pow2(plan.ht_capacity) && 2 * capacity
                <= plan.ht_capacity,
            (Err(e), Err(want)) => e == want,
            _ => false,
        },
{
    if capacity == 0 {
        return Err(RegionError::BadCapacity);
    }
    if capacity > 0x4000_0000 {
        return Err(RegionError::TooLarge);
    }
    let slot_size: u64 = 64 + max_key_size as u64 + max_value_size as u64;
    if slot_size > u32::MAX as u64 {
        return Err(RegionError::TooLarge);
    }
    let ht_capacity = next_power_of_two(2 * capacity);
    let fixed: u64 = 256 + 16 * (ht_capacity as u64);
    assert(capacity * slot_size <= 0x4000_0000 * 0xffff_ffff) by (nonlinear_arith)
        requires
            0 <= capacity <= 0x4000_0000,
            0 <= slot_size <= 0xffff_ffff,
    ;
    let slab: u64 = capacity as u64 * slot_size;
    let total: u64 = fixed + slab;
    if total > usize::MAX as u64 {
        return Err(RegionError::TooLarge);
    }
    Ok(RegionPlan { ht_capacity, slot_size: slot_size as u32, region_size: total as usize })
}

/// The outcome of setting up a region of `len` bytes: the error that the
/// parameters call for, in the order policy, capacity, size, length.
pub open spec fn setup_of(
    strategy: u32,
    capacity: u32,
    max_key_size: u32,
    max_value_size: u32,
    len: int,
) -> Result<(int, int, int), RegionError> {
    if strategy > 3 {
        Err(RegionError::BadStrategy)
    } else {
        match plan_of(capacity, max_key_size, max_value_size) {
            Err(e) => Err(e),
            Ok(plan) => if len != plan.2 {
                Err(RegionError::WrongLength)
            } else {
                Ok(plan)
            },
        }
    }
}

/// The header of a fresh region with the given parameters.
pub open spec fn fresh_header(
    strategy: u32,
    capacity: u32,
    max_key_size: u32,
    max_value_size: u32,
    ttl_nanos: u64,
) -> Header {
    Header {
        magic: MAGIC,
        ttl_nanos,
        hits: 0,
        misses: 0,
        oversize_skips: 0,
        version: LAYOUT_VERSION,
        strategy,
        capacity,
        ht_capacity: next_pow2(2 * capacity as nat) as u32,
        slot_size: (64 + max_key_size + max_value_size) as u32,
        max_key_size,
        max_value_size,
        current_size: 0,
        list_head: SLOT_NONE,
        list_tail: SLOT_NONE,
        free_head: 0,
    }
}

/// Lays out a fresh region in `region`: zero-fills it, stamps the header
/// with the magic and the parameters, empties every bucket and chains every
/// slot into the free list.
///
/// The parameters are rejected, and the bytes left as they are, if the
/// policy number is above 3, the capacity is zero, the sizes do not fit, or
/// `region` is not of the size that `plan_region` gives.
pub fn init_region(
    region: &mut [u8],
    strategy: u32,
    capacity: u32,
    max_key_size: u32,
    max_value_size: u32,
    ttl_nanos: u64,
) -> (r: Result<(), RegionError>)
    ensures
        final(region)@.len() == old(region)@.len(),
        match (r, setup_of(strategy, capacity, max_key_size, max_value_size, old(region)@.len() as int)) {
            (Ok(_), Ok(_)) => {
                &&& region_wf(final(region)@)
                &&& header_at(final(region)@) == fresh_header(
                    strategy,
                    capacity,
                    max_key_size,
                    max_value_size,
                    ttl_nanos,
                )
                &&& region_contents(final(region)@) == Seq::<Entry>::empty()
                &&& region_buckets(final(region)@) == cleared_buckets(
                    header_at(final(region)@).ht_capacity as nat,
                )
                &&& region_slots(final(region)@) == cleared_slots(
                    Seq::new(
                        capacity as nat,
                        |i: int| blank_slot((max_key_size + max_value_size) as nat),
                    ),
                )
            },
            (Err(e), Err(want)) => e == want && final(region)@ == old(region)@,
            _ => false,
        },
{
    if strategy > 3 {
        return Err(RegionError::BadStrategy);
    }
    let plan = match plan_region(capacity, max_key_size, max_value_size) {
        Ok(plan) => plan,
        Err(e) => {
            return Err(e);
        },
    };
    if region.len() != plan.region_size {
        return Err(RegionError::WrongLength);
    }
    let len = region.len();
    let mut i: usize = 0;
    while i < len
        invariant
            0 <= i <= len,
            len == region.len(),
            region@.len() == old(region)@.len(),
            forall|k: int| 0 <= k < i ==> region@[k] == 0,
        decreases len - i,
    {
        region[i] = 0;
        i += 1;
    }
    let mut h = Header {
        magic: MAGIC,
        ttl_nanos,
        hits: 0,
        misses: 0,
        oversize_skips: 0,
        version: LAYOUT_VERSION,
        strategy,
        capacity,
        ht_capacity: plan.ht_capacity,
        slot_size: plan.slot_size,
        max_key_size,
        max_value_size,
        current_size: 0,
        list_head: SLOT_NONE,
        list_tail: SLOT_NONE,
        free_head: 0,
    };
    let (head, ht, slab) = split_region(region, 16 * (plan.ht_capacity as usize));
    proof {
        lemma_blank_slab(slab@, plan.slot_size as int, capacity as nat);
    }
    reset_parts(&mut h, ht, slab);
    h.write(head);
    proof {
        lemma_region_parts(head@ + ht@ + slab@, head@, ht@, slab@);
    }
    Ok(())
}

/// Whether `region` holds a region that was set up with these parameters:
/// it is of the planned size, it opens with the magic, and its header gives
/// the same policy, capacity, key room and value room and the sizes that
/// follow from them.
pub fn region_matches(
    region: &[u8],
    strategy: u32,
    capacity: u32,
    max_key_size: u32,
    max_value_size: u32,
) -> (r: bool)
    ensures
        r == (match plan_of(capacity, max_key_size, max_value_size) {
            Ok(plan) => {
                let h = header_at(region@);
                &&& region@.len() == plan.2
                &&& h.magic == MAGIC
                &&& h.capacity == capacity
                &&& h.strategy == strategy
                &&& h.max_key_size == max_key_size
                &&& h.max_value_size == max_value_size
                &&& h.ht_capacity == plan.0
                &&& h.slot_size == plan.1
            },
            Err(_) => false,
        }),
{
    match plan_region(capacity, max_key_size, max_value_size) {
        Ok(plan) => {
            if region.len() != plan.region_size {
                return false;
            }
            let h = Header::read(region);
            h.magic == MAGIC && h.capacity == capacity && h.strategy == strategy && h.max_key_size
                == max_key_size && h.max_value_size == max_value_size && h.ht_capacity
                == plan.ht_capacity && h.slot_size == plan.slot_size
        },
        Err(_) => false,
    }
}

} // verus!
