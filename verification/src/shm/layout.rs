//! Binary layout of the shared region.
//!
//! The region is `header || buckets[ht_capacity] || slots[capacity]`. Every
//! multi-byte integer is little-endian. This module fixes the offsets, gives
//! each record a typed view over the raw bytes, and provides the accessors
//! through which the rest of the backend reads and writes records.

use vstd::prelude::*;

verus! {

/// Size of the fixed header at the start of the region.
pub const HEADER_SIZE: usize = 256;

/// Size of one bucket of the hash index.
pub const BUCKET_SIZE: usize = 16;

/// Size of the fixed part of a slot; key and value bytes follow it.
pub const SLOT_HEADER_SIZE: usize = 64;

/// Sentinel meaning "no slot" in the links of the order list and free list.
pub const SLOT_NONE: i32 = -1;

/// Sentinel meaning "empty bucket" in the hash index.
pub const BUCKET_EMPTY: i32 = -1;

/// Layout version stamped into a fresh region.
pub const LAYOUT_VERSION: u32 = 1;

/// The magic that opens a region: the eight bytes of the ASCII text
/// `FCACHE01`, read as a little-endian integer.
pub const MAGIC: u64 = 0x3130_4548_4341_4346;

/// The little-endian `u32` stored in `b[off..off + 4]`.
pub open spec fn le_u32(b: Seq<u8>, off: int) -> u32 {
    (b[off] as u32) | (b[off + 1] as u32) << 8 | (b[off + 2] as u32) << 16 | (b[off + 3] as u32)
        << 24
}

/// The little-endian two's-complement `i32` stored in `b[off..off + 4]`.
pub open spec fn le_i32(b: Seq<u8>, off: int) -> i32 {
    le_u32(b, off) as i32
}

/// The little-endian `u64` stored in `b[off..off + 8]`.
pub open spec fn le_u64(b: Seq<u8>, off: int) -> u64 {
    (le_u32(b, off) as u64) | (le_u32(b, off + 4) as u64) << 32
}

/// Reads the little-endian `u32` at `off`.
pub fn get_u32(buf: &[u8], off: usize) -> (r: u32)
    requires
        off + 4 <= buf.len(),
    ensures
        r == le_u32(buf@, off as int),
{
    let b0: u32 = buf[off] as u32;
    let b1: u32 = buf[off + 1] as u32;
    let b2: u32 = buf[off + 2] as u32;
    let b3: u32 = buf[off + 3] as u32;
    b0 | b1 << 8 | b2 << 16 | b3 << 24
}

/// Reads the little-endian `i32` at `off`.
pub fn get_i32(buf: &[u8], off: usize) -> (r: i32)
    requires
        off + 4 <= buf.len(),
    ensures
        r == le_i32(buf@, off as int),
{
    get_u32(buf, off) as i32
}

/// Reads the little-endian `u64` at `off`.
pub fn get_u64(buf: &[u8], off: usize) -> (r: u64)
    requires
        off + 8 <= buf.len(),
    ensures
        r == le_u64(buf@, off as int),
{
    let lo: u64 = get_u32(buf, off) as u64;
    let hi: u64 = get_u32(buf, off + 4) as u64;
    lo | hi << 32
}

/// Writes `v` as a little-endian `u32` at `off`; every other byte keeps its
/// value.
pub fn put_u32(buf: &mut [u8], off: usize, v: u32)
    requires
        off + 4 <= old(buf).len(),
    ensures
        final(buf)@.len() == old(buf)@.len(),
        le_u32(final(buf)@, off as int) == v,
        forall|k: int|
            0 <= k < old(buf)@.len() && !(off <= k < off + 4) ==> final(buf)@[k] == old(buf)@[k],
{
    let b0: u8 = (v & 0xff) as u8;
    let b1: u8 = ((v >> 8) & 0xff) as u8;
    let b2: u8 = ((v >> 16) & 0xff) as u8;
    let b3: u8 = ((v >> 24) & 0xff) as u8;
    buf[off] = b0;
    buf[off + 1] = b1;
    buf[off + 2] = b2;
    buf[off + 3] = b3;
    assert((b0 as u32) | (b1 as u32) << 8 | (b2 as u32) << 16 | (b3 as u32) << 24 == v)
        by (bit_vector)
        requires
            b0 == (v & 0xff) as u8,
            b1 == ((v >> 8) & 0xff) as u8,
            b2 == ((v >> 16) & 0xff) as u8,
            b3 == ((v >> 24) & 0xff) as u8,
    ;
}

/// Writes `v` as a little-endian two's-complement `i32` at `off`.
pub fn put_i32(buf: &mut [u8], off: usize, v: i32)
    requires
        off + 4 <= old(buf).len(),
    ensures
        final(buf)@.len() == old(buf)@.len(),
        le_i32(final(buf)@, off as int) == v,
        forall|k: int|
            0 <= k < old(buf)@.len() && !(off <= k < off + 4) ==> final(buf)@[k] == old(buf)@[k],
{
    let u: u32 = v as u32;
    assert(u as i32 == v) by (bit_vector)
        requires
            u == v as u32,
    ;
    put_u32(buf, off, u);
}

/// Writes `v` as a little-endian `u64` at `off`.
pub fn put_u64(buf: &mut [u8], off: usize, v: u64)
    requires
        off + 8 <= old(buf).len(),
    ensures
        final(buf)@.len() == old(buf)@.len(),
        le_u64(final(buf)@, off as int) == v,
        forall|k: int|
            0 <= k < old(buf)@.len() && !(off <= k < off + 8) ==> final(buf)@[k] == old(buf)@[k],
{
    let lo: u32 = #[verifier::truncate] (v as u32);
    let hi: u32 = #[verifier::truncate] ((v >> 32) as u32);
    put_u32(buf, off, lo);
    put_u32(buf, off + 4, hi);
    assert((lo as u64) | (hi as u64) << 32 == v) by (bit_vector)
        requires
            lo == v as u32,
            hi == (v >> 32) as u32,
    ;
}


/// The fixed header at offset 0 of the region, decoded.
#[derive(Clone, Copy, Debug)]
pub struct Header {
    pub magic: u64,
    pub ttl_nanos: u64,
    pub hits: u64,
    pub misses: u64,
    pub oversize_skips: u64,
    pub version: u32,
    pub strategy: u32,
    pub capacity: u32,
    pub ht_capacity: u32,
    pub slot_size: u32,
    pub max_key_size: u32,
    pub max_value_size: u32,
    pub current_size: u32,
    pub list_head: i32,
    pub list_tail: i32,
    pub free_head: i32,
}

/// One bucket of the open-addressed hash index, decoded.
#[derive(Clone, Copy, Debug)]
pub struct Bucket {
    pub hash: u64,
    pub slot_index: i32,
}

/// The fixed part of a slot, decoded. Key bytes, then value bytes, follow it
/// in the slot's data area.
#[derive(Clone, Copy, Debug)]
pub struct SlotHeader {
    pub key_hash: u64,
    pub created_at_nanos: u64,
    pub frequency: u64,
    pub unique_id: u64,
    pub occupied: u32,
    pub key_len: u32,
    pub value_len: u32,
    pub prev: i32,
    pub next: i32,
}

/// A slot as the proofs see it: its header and the whole of its data area.
pub struct Slot {
    pub header: SlotHeader,
    pub data: Seq<u8>,
}

impl Slot {
    /// The stored key: the first `key_len` bytes of the data area.
    pub open spec fn key(self) -> Seq<u8> {
        self.data.subrange(0, self.header.key_len as int)
    }

    /// The stored value: the `value_len` bytes that follow the key.
    pub open spec fn value(self) -> Seq<u8> {
        self.data.subrange(
            self.header.key_len as int,
            self.header.key_len as int + self.header.value_len as int,
        )
    }
}

/// The header that the first 256 bytes of `b` decode to.
#[verifier::opaque]
pub open spec fn header_at(b: Seq<u8>) -> Header {
    Header {
        magic: le_u64(b, 0),
        ttl_nanos: le_u64(b, 8),
        hits: le_u64(b, 16),
        misses: le_u64(b, 24),
        oversize_skips: le_u64(b, 32),
        version: le_u32(b, 40),
        strategy: le_u32(b, 44),
        capacity: le_u32(b, 48),
        ht_capacity: le_u32(b, 52),
        slot_size: le_u32(b, 56),
        max_key_size: le_u32(b, 60),
        max_value_size: le_u32(b, 64),
        current_size: le_u32(b, 68),
        list_head: le_i32(b, 72),
        list_tail: le_i32(b, 76),
        free_head: le_i32(b, 80),
    }
}

impl Header {
    /// Decodes the header from the start of `buf`.
    pub fn read(buf: &[u8]) -> (h: Header)
        requires
            buf.len() >= HEADER_SIZE,
        ensures
            h == header_at(buf@),
    {
        reveal(header_at);
        Header {
            magic: get_u64(buf, 0),
            ttl_nanos: get_u64(buf, 8),
            hits: get_u64(buf, 16),
            misses: get_u64(buf, 24),
            oversize_skips: get_u64(buf, 32),
            version: get_u32(buf, 40),
            strategy: get_u32(buf, 44),
            capacity: get_u32(buf, 48),
            ht_capacity: get_u32(buf, 52),
            slot_size: get_u32(buf, 56),
            max_key_size: get_u32(buf, 60),
            max_value_size: get_u32(buf, 64),
            current_size: get_u32(buf, 68),
            list_head: get_i32(buf, 72),
            list_tail: get_i32(buf, 76),
            free_head: get_i32(buf, 80),
        }
    }

    /// Encodes every field into the start of `buf`. Bytes from offset 84 on
    /// keep their value.
    pub fn write(&self, buf: &mut [u8])
        requires
            old(buf).len() >= HEADER_SIZE,
        ensures
            final(buf)@.len() == old(buf)@.len(),
            header_at(final(buf)@) == *self,
            forall|k: int| 84 <= k < old(buf)@.len() ==> final(buf)@[k] == old(buf)@[k],
    {
        reveal(header_at);
        put_u64(buf, 0, self.magic);
        put_u64(buf, 8, self.ttl_nanos);
        put_u64(buf, 16, self.hits);
        put_u64(buf, 24, self.misses);
        put_u64(buf, 32, self.oversize_skips);
        put_u32(buf, 40, self.version);
        put_u32(buf, 44, self.strategy);
        put_u32(buf, 48, self.capacity);
        put_u32(buf, 52, self.ht_capacity);
        put_u32(buf, 56, self.slot_size);
        put_u32(buf, 60, self.max_key_size);
        put_u32(buf, 64, self.max_value_size);
        put_u32(buf, 68, self.current_size);
        put_i32(buf, 72, self.list_head);
        put_i32(buf, 76, self.list_tail);
        put_i32(buf, 80, self.free_head);
    }

    /// Encodes the fields that change under the writer lock: `current_size`,
    /// `list_head`, `list_tail` and `free_head`. Every byte outside
    /// `68..84` keeps its value, the statistics counters among them.
    pub fn write_state(&self, buf: &mut [u8])
        requires
            old(buf).len() >= HEADER_SIZE,
        ensures
            final(buf)@.len() == old(buf)@.len(),
            header_at(final(buf)@) == (Header {
                current_size: self.current_size,
                list_head: self.list_head,
                list_tail: self.list_tail,
                free_head: self.free_head,
                ..header_at(old(buf)@)
            }),
            forall|k: int|
                0 <= k < old(buf)@.len() && !(68 <= k < 84) ==> final(buf)@[k] == old(buf)@[k],
    {
        reveal(header_at);
        put_u32(buf, 68, self.current_size);
        put_i32(buf, 72, self.list_head);
        put_i32(buf, 76, self.list_tail);
        put_i32(buf, 80, self.free_head);
    }

    /// Encodes the statistics counters: `hits`, `misses` and
    /// `oversize_skips`. Every byte outside `16..40` keeps its value.
    pub fn write_counters(&self, buf: &mut [u8])
        requires
            old(buf).len() >= HEADER_SIZE,
        ensures
            final(buf)@.len() == old(buf)@.len(),
            header_at(final(buf)@) == (Header {
                hits: self.hits,
                misses: self.misses,
                oversize_skips: self.oversize_skips,
                ..header_at(old(buf)@)
            }),
            forall|k: int|
                0 <= k < old(buf)@.len() && !(16 <= k < 40) ==> final(buf)@[k] == old(buf)@[k],
    {
        reveal(header_at);
        put_u64(buf, 16, self.hits);
        put_u64(buf, 24, self.misses);
        put_u64(buf, 32, self.oversize_skips);
    }
}

/// Bytes that agree in their first 256 decode to the same header.
pub proof fn lemma_header_prefix(a: Seq<u8>, b: Seq<u8>)
    requires
        a.len() >= 256,
        b.len() >= 256,
        forall|k: int| 0 <= k < 256 ==> a[k] == b[k],
    ensures
        header_at(a) == header_at(b),
{
    reveal(header_at);
}

/// The bucket stored at position `i` of the bucket array `ht`.
#[verifier::opaque]
pub open spec fn bucket_at(ht: Seq<u8>, i: int) -> Bucket {
    Bucket { hash: le_u64(ht, 16 * i), slot_index: le_i32(ht, 16 * i + 8) }
}

/// The first `n` buckets of the bucket array `ht`.
pub open spec fn ht_view(ht: Seq<u8>, n: nat) -> Seq<Bucket> {
    Seq::new(n, |i: int| bucket_at(ht, i))
}

/// Decodes bucket `index` of `ht`.
pub fn read_bucket(ht: &[u8], index: usize) -> (b: Bucket)
    requires
        16 * (index + 1) <= ht.len(),
    ensures
        b == bucket_at(ht@, index as int),
{
    reveal(bucket_at);
    let base = index * BUCKET_SIZE;
    Bucket { hash: get_u64(ht, base), slot_index: get_i32(ht, base + 8) }
}

/// Encodes `b` into bucket `index` of `ht`; every other bucket keeps its
/// value.
pub fn write_bucket(ht: &mut [u8], index: usize, b: Bucket)
    requires
        16 * (index + 1) <= old(ht).len(),
    ensures
        final(ht)@.len() == old(ht)@.len(),
        forall|n: nat|
            index < n && 16 * n <= old(ht)@.len() ==> #[trigger] ht_view(final(ht)@, n) == ht_view(
                old(ht)@,
                n,
            ).update(index as int, b),
{
    reveal(bucket_at);
    let base = index * BUCKET_SIZE;
    put_u64(ht, base, b.hash);
    put_i32(ht, base + 8, b.slot_index);
    assert forall|n: nat| index < n && 16 * n <= old(ht)@.len() implies #[trigger] ht_view(
        ht@,
        n,
    ) == ht_view(old(ht)@, n).update(index as int, b) by {
        assert forall|j: int| 0 <= j < n implies bucket_at(ht@, j) == if j == index {
            b
        } else {
            bucket_at(old(ht)@, j)
        } by {}
        assert(ht_view(ht@, n) =~= ht_view(old(ht)@, n).update(index as int, b));
    }
}

/// The slot header stored at byte offset `base` of the slab.
pub open spec fn slot_header_at(slab: Seq<u8>, base: int) -> SlotHeader {
    SlotHeader {
        key_hash: le_u64(slab, base),
        created_at_nanos: le_u64(slab, base + 8),
        frequency: le_u64(slab, base + 16),
        unique_id: le_u64(slab, base + 24),
        occupied: le_u32(slab, base + 32),
        key_len: le_u32(slab, base + 36),
        value_len: le_u32(slab, base + 40),
        prev: le_i32(slab, base + 44),
        next: le_i32(slab, base + 48),
    }
}

/// Slot `i` of a slab whose slots are `slot_size` bytes apart.
#[verifier::opaque]
pub open spec fn slot_at(slab: Seq<u8>, slot_size: int, i: int) -> Slot {
    Slot {
        header: slot_header_at(slab, i * slot_size),
        data: slab.subrange(i * slot_size + 64, i * slot_size + slot_size),
    }
}

/// The first `n` slots of the slab.
pub open spec fn slab_view(slab: Seq<u8>, slot_size: int, n: nat) -> Seq<Slot> {
    Seq::new(n, |i: int| slot_at(slab, slot_size, i))
}

/// `data` with the bytes at `off..off + src.len()` replaced by `src`.
pub open spec fn splice(data: Seq<u8>, off: int, src: Seq<u8>) -> Seq<u8> {
    data.subrange(0, off) + src + data.subrange(off + src.len(), data.len() as int)
}

/// Where slot `i` starts and ends, and that slots do not overlap.
pub proof fn lemma_slot_bounds(i: int, j: int, slot_size: int)
    requires
        0 <= i,
        0 <= j,
        slot_size >= 0,
    ensures
        (i + 1) * slot_size == i * slot_size + slot_size,
        0 <= i * slot_size,
        i < j ==> (i + 1) * slot_size <= j * slot_size,
        i <= j ==> i * slot_size <= j * slot_size,
{
    assert((i + 1) * slot_size == i * slot_size + slot_size) by (nonlinear_arith);
    assert(0 <= i * slot_size) by (nonlinear_arith)
        requires
            0 <= i,
            slot_size >= 0,
    ;
    if i < j {
        assert((i + 1) * slot_size <= j * slot_size) by (nonlinear_arith)
            requires
                0 <= i + 1 <= j,
                slot_size >= 0,
        ;
    }
    if i <= j {
        assert(i * slot_size <= j * slot_size) by (nonlinear_arith)
            requires
                0 <= i <= j,
                slot_size >= 0,
        ;
    }
}

/// Byte offset of slot `index` in the slab.
pub fn slot_base(slab: &[u8], slot_size: u32, index: usize) -> (base: usize)
    requires
        (index + 1) * slot_size <= slab.len(),
    ensures
        base == index * slot_size,
        base + slot_size <= slab.len(),
{
    proof {
        lemma_slot_bounds(index as int, index as int, slot_size as int);
    }
    index * (slot_size as usize)
}

/// Decodes the header of slot `index`.
pub fn read_slot_header(slab: &[u8], slot_size: u32, index: usize) -> (h: SlotHeader)
    requires
        slot_size >= SLOT_HEADER_SIZE,
        (index + 1) * slot_size <= slab.len(),
    ensures
        h == slot_at(slab@, slot_size as int, index as int).header,
{
    reveal(slot_at);
    let base = slot_base(slab, slot_size, index);
    SlotHeader {
        key_hash: get_u64(slab, base),
        created_at_nanos: get_u64(slab, base + 8),
        frequency: get_u64(slab, base + 16),
        unique_id: get_u64(slab, base + 24),
        occupied: get_u32(slab, base + 32),
        key_len: get_u32(slab, base + 36),
        value_len: get_u32(slab, base + 40),
        prev: get_i32(slab, base + 44),
        next: get_i32(slab, base + 48),
    }
}

/// Encodes `h` as the header of slot `index`. The slot's data area and every
/// other slot keep their value.
pub fn write_slot_header(slab: &mut [u8], slot_size: u32, index: usize, h: &SlotHeader)
    requires
        slot_size >= SLOT_HEADER_SIZE,
        (index + 1) * slot_size <= old(slab).len(),
    ensures
        final(slab)@.len() == old(slab)@.len(),
        forall|n: nat|
            index < n && n * slot_size <= old(slab)@.len() ==> #[trigger] slab_view(
                final(slab)@,
                slot_size as int,
                n,
            ) == slab_view(old(slab)@, slot_size as int, n).update(
                index as int,
                (Slot { header: *h, data: slot_at(old(slab)@, slot_size as int, index as int).data }),
            ),
{
    reveal(slot_at);
    let base = slot_base(slab, slot_size, index);
    put_u64(slab, base, h.key_hash);
    put_u64(slab, base + 8, h.created_at_nanos);
    put_u64(slab, base + 16, h.frequency);
    put_u64(slab, base + 24, h.unique_id);
    put_u32(slab, base + 32, h.occupied);
    put_u32(slab, base + 36, h.key_len);
    put_u32(slab, base + 40, h.value_len);
    put_i32(slab, base + 44, h.prev);
    put_i32(slab, base + 48, h.next);
    proof {
        let s = slot_size as int;
        assert(slot_header_at(slab@, base as int) == *h);
        assert forall|k: int| 0 <= k < slab@.len() && !(base <= k < base + 52) implies slab@[k]
            == old(slab)@[k] by {}
        assert forall|n: nat| index < n && n * slot_size <= old(slab)@.len() implies #[trigger] slab_view(
            slab@,
            s,
            n,
        ) == slab_view(old(slab)@, s, n).update(
            index as int,
            (Slot { header: *h, data: slot_at(old(slab)@, s, index as int).data }),
        ) by {
            lemma_slab_frame(old(slab)@, slab@, s, n, index as int, 0, 52);
        }
    }
}

/// If two slabs differ only inside `lo..hi` of slot `index`, every other
/// slot reads the same in both; if that range lies in the header, so does the
/// data area of slot `index`, and if it lies in the data area, its header.
pub proof fn lemma_slab_frame(
    a: Seq<u8>,
    b: Seq<u8>,
    slot_size: int,
    n: nat,
    index: int,
    lo: int,
    hi: int,
)
    requires
        a.len() == b.len(),
        slot_size >= 64,
        0 <= index < n,
        n * slot_size <= a.len(),
        0 <= lo <= hi <= slot_size,
        forall|k: int|
            0 <= k < a.len() && !(index * slot_size + lo <= k < index * slot_size + hi) ==> b[k]
                == a[k],
    ensures
        forall|j: int| 0 <= j < n && j != index ==> slot_at(b, slot_size, j) == slot_at(a, slot_size, j),
        hi <= 64 ==> slot_at(b, slot_size, index).data == slot_at(a, slot_size, index).data,
        lo >= 64 ==> slot_at(b, slot_size, index).header == slot_at(a, slot_size, index).header,
        slab_view(b, slot_size, n) == slab_view(a, slot_size, n).update(
            index,
            slot_at(b, slot_size, index),
        ),
{
    reveal(slot_at);
    lemma_slot_bounds(index, n as int, slot_size);
    assert forall|j: int| 0 <= j < n && j != index implies slot_at(b, slot_size, j) == slot_at(
        a,
        slot_size,
        j,
    ) by {
        lemma_slot_bounds(j, index, slot_size);
        lemma_slot_bounds(index, j, slot_size);
        lemma_slot_bounds(j, n as int, slot_size);
        assert(slot_at(b, slot_size, j).data =~= slot_at(a, slot_size, j).data);
    }
    if hi <= 64 {
        assert(slot_at(b, slot_size, index).data =~= slot_at(a, slot_size, index).data);
    }
    assert(slab_view(b, slot_size, n) =~= slab_view(a, slot_size, n).update(
        index,
        slot_at(b, slot_size, index),
    ));
}

/// Whether the first `key_len` bytes of slot `index`'s data area equal `key`.
pub fn slot_key_matches(slab: &[u8], slot_size: u32, index: usize, key_len: usize, key: &[u8]) -> (r:
    bool)
    requires
        slot_size >= SLOT_HEADER_SIZE,
        (index + 1) * slot_size <= slab.len(),
        key_len <= slot_size - SLOT_HEADER_SIZE,
    ensures
        r == (slot_at(slab@, slot_size as int, index as int).data.subrange(0, key_len as int)
            == key@),
{
    reveal(slot_at);
    let base = slot_base(slab, slot_size, index) + SLOT_HEADER_SIZE;
    if key.len() != key_len {
        return false;
    }
    let ghost stored = slot_at(slab@, slot_size as int, index as int).data.subrange(
        0,
        key_len as int,
    );
    let mut i: usize = 0;
    while i < key_len
        invariant
            0 <= i <= key_len,
            key.len() == key_len,
            base + key_len <= slab.len(),
            index * slot_size + slot_size <= slab.len(),
            base == index * slot_size + 64,
            stored == slot_at(slab@, slot_size as int, index as int).data.subrange(
                0,
                key_len as int,
            ),
            key_len <= slot_size - SLOT_HEADER_SIZE,
            forall|k: int| 0 <= k < i ==> stored[k] == key@[k],
        decreases key_len - i,
    {
        proof {
            reveal(slot_at);
        }
        if slab[base + i] != key[i] {
            assert(stored[i as int] != key@[i as int]);
            return false;
        }
        i += 1;
    }
    assert(stored =~= key@);
    true
}

/// The first `key_len` bytes of slot `index`'s data area: the stored key.
pub fn slot_key(slab: &[u8], slot_size: u32, index: usize, key_len: usize) -> (key: &[u8])
    requires
        slot_size >= SLOT_HEADER_SIZE,
        (index + 1) * slot_size <= slab.len(),
        key_len <= slot_size - SLOT_HEADER_SIZE,
    ensures
        key@ == slot_at(slab@, slot_size as int, index as int).data.subrange(0, key_len as int),
{
    reveal(slot_at);
    let base = slot_base(slab, slot_size, index) + SLOT_HEADER_SIZE;
    let key = vstd::slice::slice_subrange(slab, base, base + key_len);
    assert(key@ =~= slot_at(slab@, slot_size as int, index as int).data.subrange(0, key_len as int));
    key
}

/// Copies `len` bytes out of slot `index`'s data area, from offset `off`.
pub fn read_slot_data(slab: &[u8], slot_size: u32, index: usize, off: usize, len: usize) -> (out:
    Vec<u8>)
    requires
        slot_size >= SLOT_HEADER_SIZE,
        (index + 1) * slot_size <= slab.len(),
        off + len <= slot_size - SLOT_HEADER_SIZE,
    ensures
        out@ == slot_at(slab@, slot_size as int, index as int).data.subrange(
            off as int,
            off + len,
        ),
{
    reveal(slot_at);
    let base = slot_base(slab, slot_size, index) + SLOT_HEADER_SIZE + off;
    let ghost want = slot_at(slab@, slot_size as int, index as int).data.subrange(
        off as int,
        off + len,
    );
    let mut out: Vec<u8> = Vec::with_capacity(len);
    let mut i: usize = 0;
    while i < len
        invariant
            0 <= i <= len,
            base + len <= slab.len(),
            index * slot_size + slot_size <= slab.len(),
            base == index * slot_size + 64 + off,
            off + len <= slot_size - SLOT_HEADER_SIZE,
            want == slot_at(slab@, slot_size as int, index as int).data.subrange(
                off as int,
                off + len,
            ),
            out@.len() == i,
            forall|k: int| 0 <= k < i ==> out@[k] == want[k],
        decreases len - i,
    {
        proof {
            reveal(slot_at);
        }
        out.push(slab[base + i]);
        i += 1;
    }
    assert(out@ =~= want);
    out
}

/// Copies `src` into slot `index`'s data area at offset `off`. The slot's
/// header and every other slot keep their value.
pub fn write_slot_data(slab: &mut [u8], slot_size: u32, index: usize, off: usize, src: &[u8])
    requires
        slot_size >= SLOT_HEADER_SIZE,
        (index + 1) * slot_size <= old(slab).len(),
        off + src.len() <= slot_size - SLOT_HEADER_SIZE,
    ensures
        final(slab)@.len() == old(slab)@.len(),
        forall|n: nat|
            index < n && n * slot_size <= old(slab)@.len() ==> #[trigger] slab_view(
                final(slab)@,
                slot_size as int,
                n,
            ) == slab_view(old(slab)@, slot_size as int, n).update(
                index as int,
                (Slot {
                    header: slot_at(old(slab)@, slot_size as int, index as int).header,
                    data: splice(
                        slot_at(old(slab)@, slot_size as int, index as int).data,
                        off as int,
                        src@,
                    ),
                }),
            ),
{
    reveal(slot_at);
    let base = slot_base(slab, slot_size, index) + SLOT_HEADER_SIZE + off;
    let len = src.len();
    let mut i: usize = 0;
    while i < len
        invariant
            0 <= i <= len,
            len == src.len(),
            slab@.len() == old(slab)@.len(),
            base + len <= slab.len(),
            forall|k: int| 0 <= k < slab@.len() && !(base <= k < base + i) ==> slab@[k] == old(slab)@[k],
            forall|k: int| 0 <= k < i ==> slab@[base + k] == src@[k],
        decreases len - i,
    {
        slab[base + i] = src[i];
        i += 1;
    }
    proof {
        let s = slot_size as int;
        let old_slot = slot_at(old(slab)@, s, index as int);
        assert forall|n: nat| index < n && n * slot_size <= old(slab)@.len() implies #[trigger] slab_view(
            slab@,
            s,
            n,
        ) == slab_view(old(slab)@, s, n).update(
            index as int,
            (Slot { header: old_slot.header, data: splice(old_slot.data, off as int, src@) }),
        ) by {
            lemma_slab_frame(old(slab)@, slab@, s, n, index as int, 64 + off, 64 + off + len);
            assert(slot_at(slab@, s, index as int).data =~= splice(old_slot.data, off as int, src@));
        }
    }
}

/// A slot of zero bytes with a data area of `data_len` bytes.
pub open spec fn blank_slot(data_len: nat) -> Slot {
    Slot {
        header: SlotHeader {
            key_hash: 0,
            created_at_nanos: 0,
            frequency: 0,
            unique_id: 0,
            occupied: 0,
            key_len: 0,
            value_len: 0,
            prev: 0,
            next: 0,
        },
        data: Seq::new(data_len, |k: int| 0u8),
    }
}

/// The slots of a slab of zero bytes are blank.
pub proof fn lemma_blank_slab(slab: Seq<u8>, slot_size: int, n: nat)
    requires
        slot_size >= 64,
        n * slot_size <= slab.len(),
        forall|k: int| 0 <= k < slab.len() ==> slab[k] == 0,
    ensures
        slab_view(slab, slot_size, n) == Seq::new(n, |i: int| blank_slot((slot_size - 64) as nat)),
{
    reveal(slot_at);
    assert(0u32 | 0u32 << 8 | 0u32 << 16 | 0u32 << 24 == 0u32) by (bit_vector);
    assert(0u64 | 0u64 << 32 == 0u64) by (bit_vector);
    assert(0u32 as i32 == 0i32) by (bit_vector);
    assert forall|i: int| 0 <= i < n implies slot_at(slab, slot_size, i) == blank_slot(
        (slot_size - 64) as nat,
    ) by {
        lemma_slot_bounds(i, n as int, slot_size);
        assert(slot_at(slab, slot_size, i).data =~= Seq::new(
            (slot_size - 64) as nat,
            |k: int| 0u8,
        ));
    }
    assert(slab_view(slab, slot_size, n) =~= Seq::new(n, |i: int| blank_slot((slot_size - 64) as nat)));
}

/// Total size in bytes of a region with `capacity` slots of `slot_size`
/// bytes and `ht_capacity` buckets.
pub fn region_size(capacity: u32, ht_capacity: u32, slot_size: u32) -> (size: usize)
    requires
        256 + 16 * ht_capacity + capacity * slot_size <= usize::MAX,
    ensures
        size == 256 + 16 * ht_capacity + capacity * slot_size,
{
    proof {
        lemma_slot_bounds(capacity as int, capacity as int, slot_size as int);
    }
    HEADER_SIZE + (ht_capacity as usize * BUCKET_SIZE) + (capacity as usize * slot_size as usize)
}

/// Offset of the bucket array from the start of the region.
pub fn ht_offset() -> (off: usize)
    ensures
        off == 256,
{
    HEADER_SIZE
}

/// Offset of the slot slab from the start of the region.
pub fn slab_offset(ht_capacity: u32) -> (off: usize)
    requires
        256 + 16 * ht_capacity <= usize::MAX,
    ensures
        off == 256 + 16 * ht_capacity,
{
    HEADER_SIZE + (ht_capacity as usize * BUCKET_SIZE)
}

} // verus!
