//! The cache as its users see it: the entries in eviction order, and what
//! an insert, a hit, an eviction and a lookup make of them.

use super::layout::{Header, Slot};
use super::ordering::{bump, lfu_le, order_of};
use vstd::prelude::*;

verus! {

/// One cached entry, as the cache's users see it.
pub struct Entry {
    pub key_hash: u64,
    pub key: Seq<u8>,
    pub value: Seq<u8>,
    pub created_at_nanos: u64,
    pub frequency: u64,
    pub unique_id: u64,
}

/// The entry that an occupied slot holds.
pub open spec fn entry_of(s: Slot) -> Entry {
    Entry {
        key_hash: s.header.key_hash,
        key: s.key(),
        value: s.value(),
        created_at_nanos: s.header.created_at_nanos,
        frequency: s.header.frequency,
        unique_id: s.header.unique_id,
    }
}

/// The entries of the slots that `order` lists, in that order.
pub open spec fn entries_of(slots: Seq<Slot>, order: Seq<int>) -> Seq<Entry> {
    Seq::new(order.len(), |k: int| entry_of(slots[order[k]]))
}

/// The contents of the cache: its entries in eviction order, the head of
/// the order list first.
pub open spec fn contents(h: Header, slots: Seq<Slot>) -> Seq<Entry> {
    entries_of(slots, order_of(slots, h.list_head, h.list_tail))
}

/// Entry `i` of `entries` has the key `key` with hash `key_hash`.
pub open spec fn has_key(entries: Seq<Entry>, i: int, key_hash: u64, key: Seq<u8>) -> bool {
    0 <= i < entries.len() && entries[i].key_hash == key_hash && entries[i].key == key
}

/// The place of the entry with the given key, if there is one.
pub open spec fn find_entry(entries: Seq<Entry>, key_hash: u64, key: Seq<u8>) -> Option<int> {
    if exists|i: int| has_key(entries, i, key_hash, key) {
        Some(choose|i: int| has_key(entries, i, key_hash, key))
    } else {
        None
    }
}

/// Place `p` is where an entry with `(freq, uid)` enters the sorted
/// entries: behind the last entry that is not greater.
pub open spec fn is_entry_place(entries: Seq<Entry>, freq: u64, uid: u64, p: int) -> bool {
    &&& 0 <= p <= entries.len()
    &&& p > 0 ==> lfu_le(entries[p - 1].frequency, entries[p - 1].unique_id, freq, uid)
    &&& forall|c: int|
        p <= c < entries.len() ==> !lfu_le(
            (#[trigger] entries[c]).frequency,
            entries[c].unique_id,
            freq,
            uid,
        )
}

/// The place at which an entry with `(freq, uid)` enters under LFU.
pub open spec fn entry_place(entries: Seq<Entry>, freq: u64, uid: u64) -> int {
    choose|p: int| is_entry_place(entries, freq, uid, p)
}

/// The contents after entry `e` has entered under `strategy`.
pub open spec fn model_enter(strategy: u32, entries: Seq<Entry>, e: Entry) -> Seq<Entry> {
    if strategy == 3 {
        entries.insert(entry_place(entries, e.frequency, e.unique_id), e)
    } else {
        entries.push(e)
    }
}

/// The contents after a hit on entry `i` under `strategy`.
pub open spec fn model_touch(strategy: u32, entries: Seq<Entry>, i: int) -> Seq<Entry> {
    let rest = entries.remove(i);
    if strategy == 0 || strategy == 1 {
        rest.push(entries[i])
    } else if strategy == 3 {
        let e = Entry { frequency: bump(entries[i].frequency), ..entries[i] };
        rest.insert(entry_place(rest, e.frequency, e.unique_id), e)
    } else {
        entries
    }
}

/// The contents after the eviction of one entry under `strategy`: the tail
/// goes under MRU, the head under every other policy.
pub open spec fn model_evict(strategy: u32, entries: Seq<Entry>) -> Seq<Entry> {
    if strategy == 1 {
        entries.drop_last()
    } else {
        entries.drop_first()
    }
}

/// The contents after an insert of `key` with `value` at time `now`. A key
/// that is present keeps its entry, which takes the value and the time and
/// counts as accessed. A new key enters with frequency 0 and the unique id
/// `uid`, after an eviction if the cache is full.
pub open spec fn model_insert(
    strategy: u32,
    capacity: nat,
    entries: Seq<Entry>,
    key_hash: u64,
    key: Seq<u8>,
    value: Seq<u8>,
    now: u64,
    uid: u64,
) -> Seq<Entry> {
    match find_entry(entries, key_hash, key) {
        Some(i) => model_touch(
            strategy,
            entries.update(i, (Entry { value, created_at_nanos: now, ..entries[i] })),
            i,
        ),
        None => model_enter(
            strategy,
            if entries.len() >= capacity {
                model_evict(strategy, entries)
            } else {
                entries
            },
            (Entry { key_hash, key, value, created_at_nanos: now, frequency: 0, unique_id: uid }),
        ),
    }
}

/// An entry is expired at time `now` if expiry is on (`ttl_nanos` is not 0)
/// and more than `ttl_nanos` have passed since it was written.
pub open spec fn is_expired(ttl_nanos: u64, created_at_nanos: u64, now: u64) -> bool {
    ttl_nanos > 0 && now >= created_at_nanos && now - created_at_nanos > ttl_nanos
}

/// There is one place at which an entry enters the sorted entries.
pub proof fn lemma_entry_place_is(entries: Seq<Entry>, freq: u64, uid: u64, p: int)
    requires
        is_entry_place(entries, freq, uid, p),
    ensures
        entry_place(entries, freq, uid) == p,
{
    let q = entry_place(entries, freq, uid);
    assert(is_entry_place(entries, freq, uid, q));
    if q < p {
        assert(!lfu_le(entries[p - 1].frequency, entries[p - 1].unique_id, freq, uid));
    }
    if p < q {
        assert(!lfu_le(entries[q - 1].frequency, entries[q - 1].unique_id, freq, uid));
    }
}

/// The place in the contents of the entry that slot `idx` holds, if the
/// slot exists and is occupied.
pub open spec fn place_of_slot(h: Header, slots: Seq<Slot>, idx: int) -> Option<int> {
    if 0 <= idx < slots.len() && slots[idx].header.occupied == 1 {
        Some(order_of(slots, h.list_head, h.list_tail).index_of(idx))
    } else {
        None
    }
}

/// What a lookup of a key yields at time `now`: nothing, the expired entry
/// at a place, or the live entry at a place.
pub enum Lookup {
    Absent,
    Expired(int),
    Live(int),
}

/// The outcome of looking `key` up in `entries` at time `now`.
pub open spec fn model_lookup(entries: Seq<Entry>, ttl_nanos: u64, key_hash: u64, key: Seq<u8>, now: u64) -> Lookup {
    match find_entry(entries, key_hash, key) {
        None => Lookup::Absent,
        Some(k) => if is_expired(ttl_nanos, entries[k].created_at_nanos, now) {
            Lookup::Expired(k)
        } else {
            Lookup::Live(k)
        },
    }
}

} // verus!
