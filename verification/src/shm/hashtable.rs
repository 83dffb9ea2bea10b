//! Open-addressed hash index over the bucket array of the region.
//!
//! Linear probing with the bit mask `ht_capacity - 1`. A bucket maps a key
//! hash to the index of the slot that holds the key; the key bytes in that
//! slot settle collisions. Removal shifts later entries of the same cluster
//! backward, so that every entry stays reachable from its ideal position
//! without crossing an empty bucket.

use super::layout::{
    bucket_at, ht_view, read_bucket, read_slot_header, slot_at, slot_key_matches, write_bucket,
    Bucket, BUCKET_EMPTY, SLOT_HEADER_SIZE,
};
use vstd::prelude::*;

verus! {

/// The value of a bucket that holds no entry.
pub open spec fn empty_bucket() -> Bucket {
    Bucket { hash: 0, slot_index: -1i32 }
}

/// `n` is a power of two.
pub open spec fn is_pow2(n: u32) -> bool {
    n != 0 && n & ((n - 1) as u32) == 0
}

/// The bucket at which probing for `hash` starts in a table of `n` buckets.
pub open spec fn ideal(hash: u64, n: u32) -> int {
    ((hash as u32) & ((n - 1) as u32)) as int
}

/// The position `d` probe steps after `start`, wrapping at `n`.
pub open spec fn probe_pos(start: int, d: int, n: int) -> int {
    if start + d < n {
        start + d
    } else {
        start + d - n
    }
}

/// The number of probe steps that lead from position `a` to position `b`.
pub open spec fn dist(a: int, b: int, n: int) -> int {
    if b >= a {
        b - a
    } else {
        b - a + n
    }
}

/// Whether bucket `b` answers a search for `key` with hash `key_hash`: the
/// hashes agree, the bucket names a slot that lies inside the slab and whose
/// key fits its data area, and the stored key bytes equal `key`. A lookup
/// (`strict`) also asks that the slot be marked occupied.
pub open spec fn bucket_matches(
    b: Bucket,
    slab: Seq<u8>,
    slot_size: int,
    key_hash: u64,
    key: Seq<u8>,
    strict: bool,
) -> bool {
    &&& b.hash == key_hash
    &&& 0 <= b.slot_index
    &&& (b.slot_index + 1) * slot_size <= slab.len()
    &&& strict ==> slot_at(slab, slot_size, b.slot_index as int).header.occupied != 0
    &&& slot_at(slab, slot_size, b.slot_index as int).header.key_len <= slot_size - 64
    &&& slot_at(slab, slot_size, b.slot_index as int).key() == key
}

/// The search passes probe step `e`: the bucket there is neither empty nor
/// a match.
pub open spec fn probe_passes(
    buckets: Seq<Bucket>,
    n: u32,
    slab: Seq<u8>,
    slot_size: int,
    key_hash: u64,
    key: Seq<u8>,
    strict: bool,
    e: int,
) -> bool {
    let b = buckets[probe_pos(ideal(key_hash, n), e, n as int)];
    b.slot_index != -1 && !bucket_matches(b, slab, slot_size, key_hash, key, strict)
}

/// The search ends with a match at probe step `d`: every earlier step was
/// passed and the bucket at step `d` matches.
pub open spec fn hit_at(
    buckets: Seq<Bucket>,
    n: u32,
    slab: Seq<u8>,
    slot_size: int,
    key_hash: u64,
    key: Seq<u8>,
    strict: bool,
    d: int,
) -> bool {
    &&& 0 <= d < n
    &&& bucket_matches(
        buckets[probe_pos(ideal(key_hash, n), d, n as int)],
        slab,
        slot_size,
        key_hash,
        key,
        strict,
    )
    &&& forall|e: int|
        0 <= e < d ==> #[trigger] probe_passes(buckets, n, slab, slot_size, key_hash, key, strict, e)
}

/// The position of the bucket that a linear-probe search for `key` finds:
/// the first match on the probe path from the ideal position, provided no
/// empty bucket comes before it and it is met within `n` steps.
pub open spec fn probe_find(
    buckets: Seq<Bucket>,
    n: u32,
    slab: Seq<u8>,
    slot_size: int,
    key_hash: u64,
    key: Seq<u8>,
    strict: bool,
) -> Option<int> {
    if exists|d: int| hit_at(buckets, n, slab, slot_size, key_hash, key, strict, d) {
        Some(
            probe_pos(
                ideal(key_hash, n),
                choose|d: int| hit_at(buckets, n, slab, slot_size, key_hash, key, strict, d),
                n as int,
            ),
        )
    } else {
        None
    }
}

/// The bucket `e` probe steps after `start` is not empty.
pub open spec fn taken_at(buckets: Seq<Bucket>, n: u32, start: int, e: int) -> bool {
    buckets[probe_pos(start, e, n as int)].slot_index != -1
}

/// The first empty bucket on the probe path of `key_hash` is at step `d`.
pub open spec fn first_empty_at(buckets: Seq<Bucket>, n: u32, key_hash: u64, d: int) -> bool {
    &&& 0 <= d < n
    &&& !taken_at(buckets, n, ideal(key_hash, n), d)
    &&& forall|e: int| 0 <= e < d ==> #[trigger] taken_at(buckets, n, ideal(key_hash, n), e)
}

/// The position at which an insert of `key_hash` lands: the first empty
/// bucket on its probe path, if the table has one.
pub open spec fn insert_pos(buckets: Seq<Bucket>, n: u32, key_hash: u64) -> Option<int> {
    if exists|d: int| first_empty_at(buckets, n, key_hash, d) {
        Some(
            probe_pos(
                ideal(key_hash, n),
                choose|d: int| first_empty_at(buckets, n, key_hash, d),
                n as int,
            ),
        )
    } else {
        None
    }
}

/// Masking keeps a position inside the table, and stepping with the mask is
/// stepping with wrap-around.
pub proof fn lemma_mask(x: u32, n: u32)
    requires
        is_pow2(n),
    ensures
        (x & ((n - 1) as u32)) < n,
        x < n ==> ((x + 1) as u32) & ((n - 1) as u32) == probe_pos(x as int, 1, n as int),
{
    let m = (n - 1) as u32;
    assert((x & m) <= m) by (bit_vector);
    if x < n {
        assert(n != 0 && n & m == 0 && m == (n - 1) as u32 && x < n ==> ((x + 1) as u32) & m == (if x
            + 1 < n {
            (x + 1) as u32
        } else {
            0u32
        })) by (bit_vector);
    }
}

/// At most one probe step ends a search with a match.
pub proof fn lemma_hit_unique(
    buckets: Seq<Bucket>,
    n: u32,
    slab: Seq<u8>,
    slot_size: int,
    key_hash: u64,
    key: Seq<u8>,
    strict: bool,
    d1: int,
    d2: int,
)
    requires
        hit_at(buckets, n, slab, slot_size, key_hash, key, strict, d1),
        hit_at(buckets, n, slab, slot_size, key_hash, key, strict, d2),
    ensures
        d1 == d2,
{
    if d1 < d2 {
        assert(probe_passes(buckets, n, slab, slot_size, key_hash, key, strict, d1));
    }
    if d2 < d1 {
        assert(probe_passes(buckets, n, slab, slot_size, key_hash, key, strict, d2));
    }
}

/// Whether `bucket` answers a search for `key`.
pub fn bucket_matches_key(
    bucket: &Bucket,
    slab: &[u8],
    slot_size: u32,
    key_hash: u64,
    key_bytes: &[u8],
    strict: bool,
) -> (r: bool)
    requires
        slot_size >= SLOT_HEADER_SIZE,
    ensures
        r == bucket_matches(*bucket, slab@, slot_size as int, key_hash, key_bytes@, strict),
{
    if bucket.hash != key_hash || bucket.slot_index < 0 {
        return false;
    }
    let index = bucket.slot_index as usize;
    assert((index + 1) * slot_size <= 0x8000_0000 * 0x1_0000_0000) by (nonlinear_arith)
        requires
            0 <= index < 0x8000_0000,
            0 <= slot_size < 0x1_0000_0000,
    ;
    if (index as u64 + 1) * (slot_size as u64) > slab.len() as u64 {
        return false;
    }
    let header = read_slot_header(slab, slot_size, index);
    if strict && header.occupied == 0 {
        return false;
    }
    if header.key_len as usize > slot_size as usize - SLOT_HEADER_SIZE {
        return false;
    }
    slot_key_matches(slab, slot_size, index, header.key_len as usize, key_bytes)
}

/// Looks `key_bytes` up by linear probing from the ideal position of
/// `key_hash` and returns the index of the slot that holds it.
///
/// The search ends with a miss at the first empty bucket, and after
/// `ht_capacity` steps at the latest. A bucket whose hash agrees but whose
/// slot is unoccupied, lies outside the slab or holds other key bytes is
/// passed over.
pub fn ht_lookup(
    ht: &[u8],
    ht_capacity: u32,
    slab: &[u8],
    slot_size: u32,
    key_hash: u64,
    key_bytes: &[u8],
) -> (r: Option<i32>)
    requires
        is_pow2(ht_capacity),
        16 * ht_capacity <= ht.len(),
        slot_size >= SLOT_HEADER_SIZE,
    ensures
        r == match probe_find(
            ht_view(ht@, ht_capacity as nat),
            ht_capacity,
            slab@,
            slot_size as int,
            key_hash,
            key_bytes@,
            true,
        ) {
            Some(p) => Some(bucket_at(ht@, p).slot_index),
            None => None,
        },
{
    let ghost buckets = ht_view(ht@, ht_capacity as nat);
    let ghost s = slot_size as int;
    let mask = ht_capacity - 1;
    let mut idx = (key_hash as u32) & mask;
    proof {
        lemma_mask(key_hash as u32, ht_capacity);
    }
    let mut d: u32 = 0;
    while d < ht_capacity
        invariant
            is_pow2(ht_capacity),
            16 * ht_capacity <= ht.len(),
            slot_size >= SLOT_HEADER_SIZE,
            mask == ht_capacity - 1,
            buckets == ht_view(ht@, ht_capacity as nat),
            s == slot_size as int,
            0 <= d <= ht_capacity,
            0 <= idx < ht_capacity,
            0 <= ideal(key_hash, ht_capacity) < ht_capacity,
            d < ht_capacity ==> idx == probe_pos(ideal(key_hash, ht_capacity), d as int, ht_capacity as int),
            forall|e: int|
                0 <= e < d ==> #[trigger] probe_passes(
                    buckets,
                    ht_capacity,
                    slab@,
                    s,
                    key_hash,
                    key_bytes@,
                    true,
                    e,
                ),
        decreases ht_capacity - d,
    {
        let bucket = read_bucket(ht, idx as usize);
        assert(bucket == buckets[idx as int]);
        if bucket.slot_index == BUCKET_EMPTY {
            proof {
                assert forall|x: int| !hit_at(
                    buckets,
                    ht_capacity,
                    slab@,
                    s,
                    key_hash,
                    key_bytes@,
                    true,
                    x,
                ) by {
                    if hit_at(buckets, ht_capacity, slab@, s, key_hash, key_bytes@, true, x) {
                        if x < d {
                            assert(probe_passes(buckets, ht_capacity, slab@, s, key_hash, key_bytes@, true, x));
                        } else if x > d {
                            assert(probe_passes(
                                buckets,
                                ht_capacity,
                                slab@,
                                s,
                                key_hash,
                                key_bytes@,
                                true,
                                d as int,
                            ));
                        }
                    }
                }
            }
            return None;
        }
        if bucket_matches_key(&bucket, slab, slot_size, key_hash, key_bytes, true) {
            proof {
                assert(hit_at(buckets, ht_capacity, slab@, s, key_hash, key_bytes@, true, d as int));
                let c = choose|x: int|
                    hit_at(buckets, ht_capacity, slab@, s, key_hash, key_bytes@, true, x);
                lemma_hit_unique(buckets, ht_capacity, slab@, s, key_hash, key_bytes@, true, c, d as int);
            }
            return Some(bucket.slot_index);
        }
        assert(probe_passes(buckets, ht_capacity, slab@, s, key_hash, key_bytes@, true, d as int));
        proof {
            lemma_mask(idx, ht_capacity);
        }
        let ghost here = idx as int;
        idx = (idx + 1) & mask;
        assert(idx == probe_pos(here, 1, ht_capacity as int));
        d += 1;
    }
    proof {
        assert forall|x: int| !hit_at(buckets, ht_capacity, slab@, s, key_hash, key_bytes@, true, x) by {
            if hit_at(buckets, ht_capacity, slab@, s, key_hash, key_bytes@, true, x) {
                assert(probe_passes(buckets, ht_capacity, slab@, s, key_hash, key_bytes@, true, x));
            }
        }
    }
    None
}

/// Maps `key_hash` to `slot_index` in the first empty bucket on the probe
/// path of `key_hash`. A table without an empty bucket stays as it is.
///
/// The caller makes sure that the key is not in the table yet.
pub fn ht_insert(ht: &mut [u8], ht_capacity: u32, key_hash: u64, slot_index: i32)
    requires
        is_pow2(ht_capacity),
        16 * ht_capacity <= old(ht).len(),
    ensures
        final(ht)@.len() == old(ht)@.len(),
        ht_view(final(ht)@, ht_capacity as nat) == match insert_pos(
            ht_view(old(ht)@, ht_capacity as nat),
            ht_capacity,
            key_hash,
        ) {
            Some(p) => ht_view(old(ht)@, ht_capacity as nat).update(
                p,
                (Bucket { hash: key_hash, slot_index }),
            ),
            None => ht_view(old(ht)@, ht_capacity as nat),
        },
{
    let ghost buckets = ht_view(ht@, ht_capacity as nat);
    let ghost start = ideal(key_hash, ht_capacity);
    let mask = ht_capacity - 1;
    let mut idx = (key_hash as u32) & mask;
    proof {
        lemma_mask(key_hash as u32, ht_capacity);
    }
    let mut d: u32 = 0;
    while d < ht_capacity
        invariant
            is_pow2(ht_capacity),
            16 * ht_capacity <= ht.len(),
            mask == ht_capacity - 1,
            ht@ == old(ht)@,
            buckets == ht_view(ht@, ht_capacity as nat),
            start == ideal(key_hash, ht_capacity),
            0 <= d <= ht_capacity,
            0 <= idx < ht_capacity,
            0 <= start < ht_capacity,
            d < ht_capacity ==> idx == probe_pos(start, d as int, ht_capacity as int),
            forall|e: int| 0 <= e < d ==> #[trigger] taken_at(buckets, ht_capacity, start, e),
        decreases ht_capacity - d,
    {
        let bucket = read_bucket(ht, idx as usize);
        assert(bucket == buckets[idx as int]);
        if bucket.slot_index == BUCKET_EMPTY {
            proof {
                assert(first_empty_at(buckets, ht_capacity, key_hash, d as int));
                let c = choose|x: int| first_empty_at(buckets, ht_capacity, key_hash, x);
                if c < d {
                    assert(taken_at(buckets, ht_capacity, start, c));
                }
                if d < c {
                    assert(taken_at(buckets, ht_capacity, start, d as int));
                }
            }
            write_bucket(ht, idx as usize, Bucket { hash: key_hash, slot_index });
            return ;
        }
        assert(taken_at(buckets, ht_capacity, start, d as int));
        proof {
            lemma_mask(idx, ht_capacity);
        }
        let ghost here = idx as int;
        idx = (idx + 1) & mask;
        assert(idx == probe_pos(here, 1, ht_capacity as int));
        d += 1;
    }
    proof {
        assert forall|x: int| !first_empty_at(buckets, ht_capacity, key_hash, x) by {
            if first_empty_at(buckets, ht_capacity, key_hash, x) {
                assert(taken_at(buckets, ht_capacity, start, x));
            }
        }
    }
}

/// Empties every bucket of the table.
pub fn ht_clear(ht: &mut [u8], ht_capacity: u32)
    requires
        16 * ht_capacity <= old(ht).len(),
    ensures
        final(ht)@.len() == old(ht)@.len(),
        ht_view(final(ht)@, ht_capacity as nat) == Seq::new(
            ht_capacity as nat,
            |i: int| empty_bucket(),
        ),
{
    let mut i: u32 = 0;
    while i < ht_capacity
        invariant
            0 <= i <= ht_capacity,
            16 * ht_capacity <= ht.len(),
            ht@.len() == old(ht)@.len(),
            ht_view(ht@, i as nat) == Seq::new(i as nat, |k: int| empty_bucket()),
        decreases ht_capacity - i,
    {
        let ghost before = ht@;
        write_bucket(ht, i as usize, Bucket { hash: 0, slot_index: BUCKET_EMPTY });
        proof {
            let n1 = (i + 1) as nat;
            assert(ht_view(ht@, n1) == ht_view(before, n1).update(
                i as int,
                empty_bucket(),
            ));
            assert forall|k: int| 0 <= k < i implies ht_view(before, n1)[k] == ht_view(
                before,
                i as nat,
            )[k] by {}
            assert(ht_view(ht@, n1) =~= Seq::new(n1, |k: int| empty_bucket()));
        }
        i += 1;
    }
}


/// Position `q` lies on the probe path of the entry stored at position `p`:
/// at or after the entry's ideal position and strictly before `p`.
pub open spec fn on_path(buckets: Seq<Bucket>, n: u32, q: int, p: int) -> bool {
    0 < dist(q, p, n as int) <= dist(ideal(buckets[p].hash, n), p, n as int)
}

/// Every entry is reachable from its ideal position without crossing an
/// empty bucket.
pub open spec fn probe_ok(buckets: Seq<Bucket>, n: u32) -> bool {
    forall|p: int, q: int|
        0 <= p < n && 0 <= q < n && buckets[p].slot_index != -1 && #[trigger] on_path(
            buckets,
            n,
            q,
            p,
        ) ==> buckets[q].slot_index != -1
}

/// No two buckets name the same slot.
pub open spec fn slots_distinct(buckets: Seq<Bucket>, n: u32) -> bool {
    forall|pa: int, pb: int|
        0 <= pa < n && 0 <= pb < n && pa != pb && (#[trigger] buckets[pa]).slot_index != -1
            ==> buckets[pa].slot_index != (#[trigger] buckets[pb]).slot_index
}

/// At least one bucket is empty.
pub open spec fn has_empty(buckets: Seq<Bucket>, n: u32) -> bool {
    exists|e: int| 0 <= e < n && (#[trigger] buckets[e]).slot_index == -1
}

/// Some bucket of the table holds exactly `b`.
pub open spec fn holds(buckets: Seq<Bucket>, b: Bucket) -> bool {
    exists|p: int| 0 <= p < buckets.len() && #[trigger] buckets[p] == b
}

/// The table is sound as a linear-probe index: `n` buckets, `n` a power of
/// two, every entry reachable, no slot named twice, one bucket free.
pub open spec fn table_wf(buckets: Seq<Bucket>, n: u32) -> bool {
    &&& buckets.len() == n
    &&& is_pow2(n)
    &&& probe_ok(buckets, n)
    &&& slots_distinct(buckets, n)
    &&& has_empty(buckets, n)
}

/// What holds of the table `cur` while the cluster behind the removed
/// bucket `r` is shifted backward: `steps` buckets after `r` have been seen,
/// the hole is at `hole`, and `cur` with the hole emptied holds what `orig`
/// held but for the entry of `r`.
pub open spec fn backshift_inv(
    orig: Seq<Bucket>,
    cur: Seq<Bucket>,
    n: u32,
    r: int,
    hole: int,
    steps: int,
) -> bool {
    let l = cur.update(hole, empty_bucket());
    &&& cur.len() == n && orig.len() == n
    &&& 0 <= r < n && 0 <= hole < n && 0 <= steps < n
    &&& dist(r, hole, n as int) <= steps
    &&& forall|x: int|
        0 <= x < n && dist(r, x, n as int) <= steps ==> (#[trigger] orig[x]).slot_index != -1
    &&& forall|x: int|
        0 <= x < n ==> ((#[trigger] cur[x]).slot_index != -1 <==> orig[x].slot_index != -1)
    &&& forall|x: int| 0 <= x < n && dist(r, x, n as int) > steps ==> #[trigger] cur[x] == orig[x]
    &&& forall|x: int, q: int|
        0 <= x < n && 0 <= q < n && dist(r, x, n as int) <= steps && l[x].slot_index != -1
            && #[trigger] on_path(l, n, q, x) ==> orig[q].slot_index != -1 && q != hole
    &&& slots_distinct(l, n)
    &&& forall|b: Bucket|
        b.slot_index != -1 ==> (#[trigger] holds(l, b) <==> (b != orig[r] && holds(orig, b)))
}

/// The test on positions that decides a backward shift is a test on probe
/// distances: the entry at `j`, whose ideal position is `i`, moves into the
/// hole at `e` exactly if the hole is on its probe path or at its ideal
/// position.
pub proof fn lemma_should_move(e: int, j: int, i: int, n: int)
    requires
        0 <= e < n,
        0 <= j < n,
        0 <= i < n,
        e != j,
    ensures
        (if e <= j {
            i <= e || i > j
        } else {
            i <= e && i > j
        }) == (dist(i, j, n) >= dist(e, j, n)),
{
}

proof fn lemma_backshift_init(orig: Seq<Bucket>, n: u32, r: int)
    requires
        table_wf(orig, n),
        0 <= r < n,
        orig[r].slot_index != -1,
    ensures
        backshift_inv(orig, orig, n, r, r, 0),
{
    let l = orig.update(r, empty_bucket());
    assert forall|b: Bucket| b.slot_index != -1 implies (#[trigger] holds(l, b) <==> (b != orig[r]
        && holds(orig, b))) by {
        if holds(l, b) {
            let p = choose|p: int| 0 <= p < l.len() && #[trigger] l[p] == b;
            assert(orig[p] == b);
            assert(orig[p].slot_index != orig[r].slot_index);
        }
        if b != orig[r] && holds(orig, b) {
            let p = choose|p: int| 0 <= p < orig.len() && #[trigger] orig[p] == b;
            assert(l[p] == b);
        }
    }
    assert(slots_distinct(l, n)) by {
        assert forall|pa: int, pb: int|
            0 <= pa < n && 0 <= pb < n && pa != pb && (#[trigger] l[pa]).slot_index != -1 implies l[pa].slot_index
                != (#[trigger] l[pb]).slot_index by {
            assert(orig[pa].slot_index != -1);
            if pb != r {
                assert(orig[pa].slot_index != orig[pb].slot_index);
            }
        }
    }
}

proof fn lemma_backshift_keep(
    orig: Seq<Bucket>,
    cur: Seq<Bucket>,
    n: u32,
    r: int,
    hole: int,
    steps: int,
    j: int,
)
    requires
        table_wf(orig, n),
        backshift_inv(orig, cur, n, r, hole, steps),
        steps + 1 < n,
        j == probe_pos(r, steps + 1, n as int),
        cur[j].slot_index != -1,
        0 <= ideal(cur[j].hash, n) < n,
        dist(ideal(cur[j].hash, n), j, n as int) < dist(hole, j, n as int),
    ensures
        backshift_inv(orig, cur, n, r, hole, steps + 1),
{
    let l = cur.update(hole, empty_bucket());
    assert(cur[j] == orig[j]);
    assert forall|x: int, q: int|
        0 <= x < n && 0 <= q < n && dist(r, x, n as int) <= steps + 1 && l[x].slot_index != -1
            && #[trigger] on_path(l, n, q, x) implies orig[q].slot_index != -1 && q != hole by {
        if x == j {
            assert(dist(r, q, n as int) <= steps);
            assert(orig[q].slot_index != -1);
        } else {
            assert(dist(r, x, n as int) <= steps);
        }
    }
}

proof fn lemma_backshift_move(
    orig: Seq<Bucket>,
    cur: Seq<Bucket>,
    n: u32,
    r: int,
    hole: int,
    steps: int,
    j: int,
)
    requires
        table_wf(orig, n),
        backshift_inv(orig, cur, n, r, hole, steps),
        steps + 1 < n,
        j == probe_pos(r, steps + 1, n as int),
        cur[j].slot_index != -1,
        0 <= ideal(cur[j].hash, n) < n,
        dist(ideal(cur[j].hash, n), j, n as int) >= dist(hole, j, n as int),
    ensures
        backshift_inv(orig, cur.update(hole, cur[j]), n, r, j, steps + 1),
{
    let bj = cur[j];
    let l = cur.update(hole, empty_bucket());
    let cur2 = cur.update(hole, bj);
    let l2 = cur2.update(j, empty_bucket());
    let e0 = choose|e: int| 0 <= e < n && (#[trigger] orig[e]).slot_index == -1;
    assert(cur[j] == orig[j]);
    assert(dist(r, e0, n as int) > steps + 1) by {
        if dist(r, e0, n as int) <= steps {
            assert(orig[e0].slot_index != -1);
        }
    }
    assert(l[j] == bj);
    assert(orig[hole].slot_index != -1);
    assert forall|x: int|
        0 <= x < n implies ((#[trigger] cur2[x]).slot_index != -1 <==> orig[x].slot_index != -1) by {
        assert((cur[x].slot_index != -1) <==> (orig[x].slot_index != -1));
    }
    assert forall|x: int| 0 <= x < n && dist(r, x, n as int) > steps + 1 implies #[trigger] cur2[x]
        == orig[x] by {
        assert(cur[x] == orig[x]);
    }
    assert forall|x: int, q: int|
        0 <= x < n && 0 <= q < n && dist(r, x, n as int) <= steps + 1 && l2[x].slot_index != -1
            && #[trigger] on_path(l2, n, q, x) implies orig[q].slot_index != -1 && q != j by {
        if x == hole {
            assert(on_path(orig, n, q, j));
        } else {
            assert(l[x] == l2[x]);
            assert(on_path(l, n, q, x));
            if q == j {
                assert(on_path(l, n, e0, x));
            }
        }
    }
    assert(slots_distinct(l2, n)) by {
        assert forall|pa: int, pb: int|
            0 <= pa < n && 0 <= pb < n && pa != pb && (#[trigger] l2[pa]).slot_index != -1 implies l2[pa].slot_index
                != (#[trigger] l2[pb]).slot_index by {
            if pa == hole {
                if pb != j {
                    assert(l[pb] == l2[pb]);
                    assert(l[j].slot_index != l[pb].slot_index);
                }
            } else {
                assert(l[pa] == l2[pa]);
                if pb == hole {
                    assert(l[pa].slot_index != l[j].slot_index);
                } else if pb != j {
                    assert(l[pb] == l2[pb]);
                    assert(l[pa].slot_index != l[pb].slot_index);
                }
            }
        }
    }
    assert forall|b: Bucket| b.slot_index != -1 implies (#[trigger] holds(l2, b) <==> (b != orig[r]
        && holds(orig, b))) by {
        if holds(l2, b) {
            let p = choose|p: int| 0 <= p < l2.len() && #[trigger] l2[p] == b;
            if p == hole {
                assert(l[j] == b);
            } else {
                assert(l[p] == b);
            }
            assert(holds(l, b));
        }
        if holds(l, b) {
            let p = choose|p: int| 0 <= p < l.len() && #[trigger] l[p] == b;
            if p == j {
                assert(l2[hole] == b);
            } else {
                assert(l2[p] == b);
            }
            assert(holds(l2, b));
        }
    }
}

proof fn lemma_backshift_done(
    orig: Seq<Bucket>,
    cur: Seq<Bucket>,
    n: u32,
    r: int,
    hole: int,
    steps: int,
    j: int,
)
    requires
        table_wf(orig, n),
        backshift_inv(orig, cur, n, r, hole, steps),
        steps + 1 < n,
        j == probe_pos(r, steps + 1, n as int),
        cur[j].slot_index == -1,
    ensures
        table_wf(cur.update(hole, empty_bucket()), n),
        forall|b: Bucket|
            b.slot_index != -1 ==> (#[trigger] holds(cur.update(hole, empty_bucket()), b) <==> (b
                != orig[r] && holds(orig, b))),
{
    let l = cur.update(hole, empty_bucket());
    assert(orig[j].slot_index == -1);
    assert forall|p: int, q: int|
        0 <= p < n && 0 <= q < n && l[p].slot_index != -1 && #[trigger] on_path(l, n, q, p) implies l[q].slot_index
            != -1 by {
        if dist(r, p, n as int) <= steps {
            assert(orig[q].slot_index != -1 && q != hole);
            assert(cur[q].slot_index != -1);
        } else {
            assert(cur[p] == orig[p]);
            assert(on_path(orig, n, q, p));
            assert(orig[q].slot_index != -1);
            if q == hole {
                assert(on_path(orig, n, j, p));
            }
            assert(cur[q].slot_index != -1);
        }
    }
    assert(l[hole].slot_index == -1);
}

/// With every bucket taken, no table is sound; so a backward shift over a
/// sound table meets an empty bucket before it has gone round.
proof fn lemma_backshift_bounded(orig: Seq<Bucket>, cur: Seq<Bucket>, n: u32, r: int, hole: int, steps: int)
    requires
        table_wf(orig, n),
        backshift_inv(orig, cur, n, r, hole, steps),
    ensures
        steps + 1 < n,
{
    let e0 = choose|e: int| 0 <= e < n && (#[trigger] orig[e]).slot_index == -1;
    if dist(r, e0, n as int) <= steps {
        assert(orig[e0].slot_index != -1);
    }
}

/// The table after the hole at `hole` has been closed by backward shifts.
/// The buckets from `j` on are visited in probe order until an empty one is
/// met, `steps` of them having been visited already: a bucket moves into the
/// hole, and leaves the hole at its own place, exactly if its probe
/// distance is at least its distance from the hole. The last hole is
/// emptied.
pub open spec fn backshifted(buckets: Seq<Bucket>, n: u32, hole: int, j: int, steps: int) -> Seq<
    Bucket,
>
    decreases n - steps,
{
    if steps + 1 >= n || buckets[j].slot_index == -1 {
        buckets.update(hole, empty_bucket())
    } else if dist(ideal(buckets[j].hash, n), j, n as int) >= dist(hole, j, n as int) {
        backshifted(buckets.update(hole, buckets[j]), n, j, probe_pos(j, 1, n as int), steps + 1)
    } else {
        backshifted(buckets, n, hole, probe_pos(j, 1, n as int), steps + 1)
    }
}

/// Removes the entry that a search for `key_bytes` finds, and reports
/// whether there was one.
///
/// The search is that of `ht_lookup`, except that it does not ask the slot
/// to be marked occupied. The entries that follow the removed one in its
/// cluster are shifted backward: an entry moves into the hole exactly if the
/// hole lies on its probe path. Over a sound table the result is a sound
/// table which holds the same entries but for the removed one.
pub fn ht_remove(
    ht: &mut [u8],
    ht_capacity: u32,
    slab: &[u8],
    slot_size: u32,
    key_hash: u64,
    key_bytes: &[u8],
) -> (r: bool)
    requires
        is_pow2(ht_capacity),
        16 * ht_capacity <= old(ht).len(),
        slot_size >= SLOT_HEADER_SIZE,
    ensures
        final(ht)@.len() == old(ht)@.len(),
        r == probe_find(
            ht_view(old(ht)@, ht_capacity as nat),
            ht_capacity,
            slab@,
            slot_size as int,
            key_hash,
            key_bytes@,
            false,
        ).is_some(),
        !r ==> ht_view(final(ht)@, ht_capacity as nat) == ht_view(old(ht)@, ht_capacity as nat),
        r ==> {
            let orig = ht_view(old(ht)@, ht_capacity as nat);
            let p = probe_find(
                orig,
                ht_capacity,
                slab@,
                slot_size as int,
                key_hash,
                key_bytes@,
                false,
            ).unwrap();
            ht_view(final(ht)@, ht_capacity as nat) == backshifted(
                orig,
                ht_capacity,
                p,
                probe_pos(p, 1, ht_capacity as int),
                0,
            )
        },
        r && table_wf(ht_view(old(ht)@, ht_capacity as nat), ht_capacity) ==> {
            let orig = ht_view(old(ht)@, ht_capacity as nat);
            let fin = ht_view(final(ht)@, ht_capacity as nat);
            let p = probe_find(
                orig,
                ht_capacity,
                slab@,
                slot_size as int,
                key_hash,
                key_bytes@,
                false,
            ).unwrap();
            &&& table_wf(fin, ht_capacity)
            &&& forall|b: Bucket|
                b.slot_index != -1 ==> (#[trigger] holds(fin, b) <==> (b != orig[p] && holds(orig, b)))
        },
{
    let ghost orig = ht_view(ht@, ht_capacity as nat);
    let ghost s = slot_size as int;
    let mask = ht_capacity - 1;
    let mut idx = (key_hash as u32) & mask;
    proof {
        lemma_mask(key_hash as u32, ht_capacity);
    }
    let mut found = false;
    let mut d: u32 = 0;
    while d < ht_capacity && !found
        invariant
            is_pow2(ht_capacity),
            16 * ht_capacity <= ht.len(),
            slot_size >= SLOT_HEADER_SIZE,
            mask == ht_capacity - 1,
            ht@ == old(ht)@,
            orig == ht_view(ht@, ht_capacity as nat),
            s == slot_size as int,
            0 <= d <= ht_capacity,
            0 <= idx < ht_capacity,
            0 <= ideal(key_hash, ht_capacity) < ht_capacity,
            d < ht_capacity ==> idx == probe_pos(ideal(key_hash, ht_capacity), d as int, ht_capacity as int),
            found ==> d < ht_capacity && hit_at(
                orig,
                ht_capacity,
                slab@,
                s,
                key_hash,
                key_bytes@,
                false,
                d as int,
            ),
            forall|e: int|
                0 <= e < d ==> #[trigger] probe_passes(
                    orig,
                    ht_capacity,
                    slab@,
                    s,
                    key_hash,
                    key_bytes@,
                    false,
                    e,
                ),
        decreases ht_capacity - d, if found { 0int } else { 1int },
    {
        let bucket = read_bucket(ht, idx as usize);
        assert(bucket == orig[idx as int]);
        if bucket.slot_index == BUCKET_EMPTY {
            proof {
                assert forall|x: int| !hit_at(
                    orig,
                    ht_capacity,
                    slab@,
                    s,
                    key_hash,
                    key_bytes@,
                    false,
                    x,
                ) by {
                    if hit_at(orig, ht_capacity, slab@, s, key_hash, key_bytes@, false, x) {
                        if x < d {
                            assert(probe_passes(orig, ht_capacity, slab@, s, key_hash, key_bytes@, false, x));
                        } else if x > d {
                            assert(probe_passes(
                                orig,
                                ht_capacity,
                                slab@,
                                s,
                                key_hash,
                                key_bytes@,
                                false,
                                d as int,
                            ));
                        }
                    }
                }
            }
            return false;
        }
        if bucket_matches_key(&bucket, slab, slot_size, key_hash, key_bytes, false) {
            found = true;
        } else {
            assert(probe_passes(orig, ht_capacity, slab@, s, key_hash, key_bytes@, false, d as int));
            proof {
                lemma_mask(idx, ht_capacity);
            }
            let ghost here = idx as int;
            idx = (idx + 1) & mask;
            assert(idx == probe_pos(here, 1, ht_capacity as int));
            d += 1;
        }
    }
    if !found {
        proof {
            assert forall|x: int| !hit_at(orig, ht_capacity, slab@, s, key_hash, key_bytes@, false, x) by {
                if hit_at(orig, ht_capacity, slab@, s, key_hash, key_bytes@, false, x) {
                    assert(probe_passes(orig, ht_capacity, slab@, s, key_hash, key_bytes@, false, x));
                }
            }
        }
        return false;
    }
    let ghost r = idx as int;
    let ghost sound = table_wf(orig, ht_capacity);
    proof {
        let c = choose|x: int| hit_at(orig, ht_capacity, slab@, s, key_hash, key_bytes@, false, x);
        lemma_hit_unique(orig, ht_capacity, slab@, s, key_hash, key_bytes@, false, c, d as int);
        if sound {
            lemma_backshift_init(orig, ht_capacity, r);
        }
    }
    let mut empty = idx;
    proof {
        lemma_mask(idx, ht_capacity);
    }
    let mut j = (idx + 1) & mask;
    let mut steps: u32 = 0;
    let mut done = false;
    let ghost mut th: int = 0;
    let ghost goal = backshifted(orig, ht_capacity, r, probe_pos(r, 1, ht_capacity as int), 0);
    while !done && steps < ht_capacity - 1
        invariant
            is_pow2(ht_capacity),
            16 * ht_capacity <= ht.len(),
            ht@.len() == old(ht)@.len(),
            mask == ht_capacity - 1,
            orig == ht_view(old(ht)@, ht_capacity as nat),
            sound == table_wf(orig, ht_capacity),
            0 <= r < ht_capacity,
            0 <= empty < ht_capacity,
            0 <= j < ht_capacity,
            0 <= steps < ht_capacity,
            0 <= th <= steps,
            empty == probe_pos(r, th, ht_capacity as int),
            j == probe_pos(r, steps + 1, ht_capacity as int),
            goal == backshifted(
                ht_view(ht@, ht_capacity as nat),
                ht_capacity,
                empty as int,
                j as int,
                steps as int,
            ),
            sound ==> backshift_inv(
                orig,
                ht_view(ht@, ht_capacity as nat),
                ht_capacity,
                r,
                empty as int,
                steps as int,
            ),
            done ==> steps + 1 < ht_capacity && ht_view(ht@, ht_capacity as nat)[j as int].slot_index
                == -1,
        decreases ht_capacity - steps, if done { 0int } else { 1int },
    {
        let ghost cur = ht_view(ht@, ht_capacity as nat);
        let bucket_j = read_bucket(ht, j as usize);
        assert(bucket_j == cur[j as int]);
        if bucket_j.slot_index == BUCKET_EMPTY {
            done = true;
        } else {
            let home = (bucket_j.hash as u32) & mask;
            proof {
                lemma_mask(bucket_j.hash as u32, ht_capacity);
                if sound {
                    assert(dist(r, empty as int, ht_capacity as int) <= steps);
                }
                assert(empty != j);
                lemma_should_move(empty as int, j as int, home as int, ht_capacity as int);
            }
            let should_move = if empty <= j {
                home <= empty || home > j
            } else {
                home <= empty && home > j
            };
            if should_move {
                write_bucket(ht, empty as usize, bucket_j);
                proof {
                    if sound {
                        lemma_backshift_move(
                            orig,
                            cur,
                            ht_capacity,
                            r,
                            empty as int,
                            steps as int,
                            j as int,
                        );
                    }
                }
                empty = j;
                proof {
                    th = steps + 1;
                }
            } else {
                proof {
                    if sound {
                        lemma_backshift_keep(
                            orig,
                            cur,
                            ht_capacity,
                            r,
                            empty as int,
                            steps as int,
                            j as int,
                        );
                    }
                }
            }
            proof {
                lemma_mask(j, ht_capacity);
            }
            let ghost here = j as int;
            j = (j + 1) & mask;
            assert(j == probe_pos(here, 1, ht_capacity as int));
            steps += 1;
        }
    }
    let ghost last = ht_view(ht@, ht_capacity as nat);
    write_bucket(ht, empty as usize, Bucket { hash: 0, slot_index: BUCKET_EMPTY });
    proof {
        if sound {
            lemma_backshift_bounded(orig, last, ht_capacity, r, empty as int, steps as int);
            lemma_backshift_done(orig, last, ht_capacity, r, empty as int, steps as int, j as int);
        }
    }
    true
}

} // verus!
