//! Least frequently used: the entries stand sorted by frequency, then by
//! time of writing, then by the unique id that each insert and each access
//! hands out; the first entry goes when a new key comes to a full cache.

use super::linked::place_of;
use super::{distinct_keys, lemma_place_of, EvictionStrategy};
use crate::entry::CacheEntry;
use crate::key::CacheKey;
use vstd::prelude::*;

verus! {

/// One entry of the LFU strategy with the key by which it is ordered.
#[derive(Clone, Copy, Debug)]
pub struct LfuItem {
    pub key: u64,
    pub entry: CacheEntry,
    pub unique_id: u64,
}

/// The LFU strategy, over a sorted vector.
pub struct LfuStrategy {
    items: Vec<LfuItem>,
    capacity: usize,
    next_id: u64,
}

/// The LFU order: lower frequency first, then the older entry, then the
/// lower unique id.
pub open spec fn item_le(a: LfuItem, b: LfuItem) -> bool {
    a.entry.frequency < b.entry.frequency || (a.entry.frequency == b.entry.frequency && (
    a.entry.created_at < b.entry.created_at || (a.entry.created_at == b.entry.created_at
        && a.unique_id <= b.unique_id)))
}

/// The items stand in LFU order.
pub open spec fn sorted(items: Seq<LfuItem>) -> bool {
    forall|a: int, b: int| 0 <= a < b < items.len() ==> item_le(#[trigger] items[a], #[trigger] items[b])
}

/// The pairs of key and entry of the items, in their order.
pub open spec fn pairs_of(items: Seq<LfuItem>) -> Seq<(u64, CacheEntry)> {
    Seq::new(items.len(), |i: int| (items[i].key, items[i].entry))
}

/// Place `p` is where `item` enters the sorted items: behind the last item
/// that is not greater.
pub open spec fn is_item_place(items: Seq<LfuItem>, item: LfuItem, p: int) -> bool {
    &&& 0 <= p <= items.len()
    &&& p > 0 ==> item_le(items[p - 1], item)
    &&& forall|c: int| p <= c < items.len() ==> !item_le(#[trigger] items[c], item)
}

/// The place at which `item` enters the sorted items.
pub open spec fn item_place(items: Seq<LfuItem>, item: LfuItem) -> int {
    choose|p: int| is_item_place(items, item, p)
}

/// There is one place at which an item enters.
pub proof fn lemma_item_place_is(items: Seq<LfuItem>, item: LfuItem, p: int)
    requires
        is_item_place(items, item, p),
    ensures
        item_place(items, item) == p,
{
    let q = item_place(items, item);
    assert(is_item_place(items, item, q));
    if q < p {
        assert(!item_le(items[p - 1], item));
    }
    if p < q {
        assert(!item_le(items[q - 1], item));
    }
}

/// A unique id after it has been handed out: the next one, wrapping.
pub open spec fn next_of(id: u64) -> u64 {
    if id == u64::MAX {
        0
    } else {
        (id + 1) as u64
    }
}

/// A frequency after one more access: it stops at the largest value.
pub open spec fn raised(frequency: u64) -> u64 {
    if frequency < u64::MAX {
        (frequency + 1) as u64
    } else {
        frequency
    }
}

/// The items after an insert of `key` with `entry` under the id `id`: the
/// item of the key goes if there is one, else the first item goes if there
/// are `limit` items or more; then the new item enters at its place.
pub open spec fn items_after_insert(
    items: Seq<LfuItem>,
    limit: usize,
    key: u64,
    entry: CacheEntry,
    id: u64,
) -> Seq<LfuItem> {
    let base = match place_of(pairs_of(items), key) {
        Some(i) => items.remove(i),
        None => if items.len() >= limit && items.len() > 0 {
            items.drop_first()
        } else {
            items
        },
    };
    let item = LfuItem { key, entry, unique_id: id };
    base.insert(item_place(base, item), item)
}

/// The items after an access to `key` under the id `id`: the item of the
/// key, if there is one, counts the access, takes the id and moves to its
/// new place.
pub open spec fn items_after_access(items: Seq<LfuItem>, key: u64, id: u64) -> Seq<LfuItem> {
    match place_of(pairs_of(items), key) {
        Some(i) => {
            let base = items.remove(i);
            let item = LfuItem {
                key,
                entry: CacheEntry { frequency: raised(items[i].entry.frequency), ..items[i].entry },
                unique_id: id,
            };
            base.insert(item_place(base, item), item)
        },
        None => items,
    }
}

/// Taking an item out leaves the items sorted and their keys distinct.
pub proof fn lemma_items_remove(items: Seq<LfuItem>, i: int)
    requires
        sorted(items),
        distinct_keys(pairs_of(items)),
        0 <= i < items.len(),
    ensures
        sorted(items.remove(i)),
        distinct_keys(pairs_of(items.remove(i))),
        pairs_of(items.remove(i)) == pairs_of(items).remove(i),
        forall|c: int| 0 <= c < items.len() - 1 ==> (#[trigger] items.remove(i)[c]).key != items[i].key,
{
    let rest = items.remove(i);
    let pairs = pairs_of(items);
    assert forall|a: int, b: int| 0 <= a < b < rest.len() implies item_le(
        #[trigger] rest[a],
        #[trigger] rest[b],
    ) by {
        let a0 = if a < i { a } else { a + 1 };
        let b0 = if b < i { b } else { b + 1 };
        assert(item_le(items[a0], items[b0]));
    }
    assert(pairs_of(rest) =~= pairs.remove(i));
    super::lemma_remove_distinct(pairs, i);
    assert forall|c: int| 0 <= c < items.len() - 1 implies (#[trigger] rest[c]).key != items[i].key by {
        let c0 = if c < i { c } else { c + 1 };
        assert(pairs[c0].0 != pairs[i].0);
    }
}

/// Entering an item with a new key at its place leaves the items sorted and
/// their keys distinct.
pub proof fn lemma_items_insert(items: Seq<LfuItem>, item: LfuItem, p: int)
    requires
        sorted(items),
        distinct_keys(pairs_of(items)),
        is_item_place(items, item, p),
        forall|c: int| 0 <= c < items.len() ==> (#[trigger] items[c]).key != item.key,
    ensures
        sorted(items.insert(p, item)),
        distinct_keys(pairs_of(items.insert(p, item))),
        pairs_of(items.insert(p, item)) == pairs_of(items).insert(p, (item.key, item.entry)),
        place_of(pairs_of(items.insert(p, item)), item.key) == Some(p),
{
    let more = items.insert(p, item);
    let pairs = pairs_of(items);
    assert forall|a: int, b: int| 0 <= a < b < more.len() implies item_le(
        #[trigger] more[a],
        #[trigger] more[b],
    ) by {
        if a == p {
            assert(!item_le(items[b - 1], item));
        } else if b == p {
            if a < p - 1 {
                assert(item_le(items[a], items[p - 1]));
            }
        } else {
            let a0 = if a < p { a } else { a - 1 };
            let b0 = if b < p { b } else { b - 1 };
            assert(item_le(items[a0], items[b0]));
        }
    }
    assert(pairs_of(more) =~= pairs.insert(p, (item.key, item.entry)));
    let mp = pairs_of(more);
    assert forall|a: int, b: int| 0 <= a < mp.len() && 0 <= b < mp.len() && a != b implies (
    #[trigger] mp[a]).0 != (#[trigger] mp[b]).0 by {
        let a0 = if a < p { a } else { a - 1 };
        let b0 = if b < p { b } else { b - 1 };
        if a != p && b != p {
            assert(pairs[a0].0 != pairs[b0].0);
        } else if a == p {
            assert(items[b0].key != item.key);
        } else {
            assert(items[a0].key != item.key);
        }
    }
    lemma_place_of(mp, item.key, p);
}

impl LfuStrategy {
    /// The items that the strategy holds, the next victim first.
    pub closed spec fn items(&self) -> Seq<LfuItem> {
        self.items@
    }

    /// The capacity that the strategy was made with.
    pub closed spec fn cap(&self) -> usize {
        self.capacity
    }

    /// The unique id that the next insert or access hands out.
    pub closed spec fn next_id(&self) -> u64 {
        self.next_id
    }

    /// An empty strategy with room for `capacity` entries.
    pub fn new(capacity: usize) -> (s: Self)
        ensures
            s.wf(),
            s.limit() == capacity,
            s.entries() == Seq::<(u64, CacheEntry)>::empty(),
            s.items() == Seq::<LfuItem>::empty(),
            s.next_id() == 0,
    {
        let s = Self { items: Vec::new(), capacity, next_id: 0 };
        assert(pairs_of(s.items@) =~= Seq::<(u64, CacheEntry)>::empty());
        s
    }

    /// Hands out the next unique id.
    fn alloc_id(&mut self) -> (id: u64)
        ensures
            id == old(self).next_id,
            final(self).next_id == next_of(old(self).next_id),
            final(self).items == old(self).items,
            final(self).capacity == old(self).capacity,
    {
        let id = self.next_id;
        self.next_id = if id == u64::MAX {
            0
        } else {
            id + 1
        };
        id
    }

    /// The place of `key` among the items.
    fn position(&self, key: u64) -> (r: Option<usize>)
        requires
            distinct_keys(pairs_of(self.items@)),
        ensures
            match (r, place_of(pairs_of(self.items@), key)) {
                (Some(i), Some(p)) => i == p && i < self.items@.len() && self.items@[p].key == key,
                (None, None) => forall|c: int|
                    0 <= c < self.items@.len() ==> (#[trigger] self.items@[c]).key != key,
                _ => false,
            },
    {
        let ghost pairs = pairs_of(self.items@);
        let mut i: usize = 0;
        while i < self.items.len()
            invariant
                0 <= i <= self.items@.len(),
                pairs == pairs_of(self.items@),
                distinct_keys(pairs),
                forall|c: int| 0 <= c < i ==> (#[trigger] self.items@[c]).key != key,
            decreases self.items@.len() - i,
        {
            if self.items[i].key == key {
                proof {
                    assert(pairs[i as int].0 == key);
                    lemma_place_of(pairs, key, i as int);
                }
                return Some(i);
            }
            i += 1;
        }
        proof {
            assert forall|c: int| 0 <= c < pairs.len() implies (#[trigger] pairs[c]).0 != key by {
                assert(self.items@[c].key != key);
            }
        }
        None
    }

    /// Enters `item`, whose key no item has, at its place in the order.
    fn enter(&mut self, item: LfuItem)
        requires
            sorted(old(self).items@),
            distinct_keys(pairs_of(old(self).items@)),
            forall|c: int| 0 <= c < old(self).items@.len() ==> (#[trigger] old(self).items@[c]).key != item.key,
        ensures
            final(self).items@ == old(self).items@.insert(item_place(old(self).items@, item), item),
            is_item_place(old(self).items@, item, item_place(old(self).items@, item)),
            sorted(final(self).items@),
            distinct_keys(pairs_of(final(self).items@)),
            final(self).capacity == old(self).capacity,
            final(self).next_id == old(self).next_id,
    {
        let ghost before = self.items@;
        let mut p: usize = 0;
        while p < self.items.len() && item_is_le(&self.items[p], &item)
            invariant
                0 <= p <= self.items@.len(),
                self.items@ == before,
                sorted(before),
                forall|c: int| 0 <= c < p ==> item_le(#[trigger] before[c], item),
            decreases self.items@.len() - p,
        {
            p += 1;
        }
        proof {
            assert forall|c: int| p <= c < before.len() implies !item_le(#[trigger] before[c], item) by {
                if c > p {
                    assert(item_le(before[p as int], before[c]));
                }
            }
            assert(is_item_place(before, item, p as int));
            lemma_item_place_is(before, item, p as int);
            lemma_items_insert(before, item, p as int);
        }
        self.items.insert(p, item);
    }
}

/// Whether `a` stands before `b`, or with it, in the LFU order.
fn item_is_le(a: &LfuItem, b: &LfuItem) -> (le: bool)
    ensures
        le == item_le(*a, *b),
{
    a.entry.frequency < b.entry.frequency || (a.entry.frequency == b.entry.frequency && (
    a.entry.created_at < b.entry.created_at || (a.entry.created_at == b.entry.created_at
        && a.unique_id <= b.unique_id)))
}

impl EvictionStrategy for LfuStrategy {
    open spec fn entries(&self) -> Seq<(u64, CacheEntry)> {
        pairs_of(self.items())
    }

    open spec fn limit(&self) -> usize {
        self.cap()
    }

    closed spec fn wf(&self) -> bool {
        &&& sorted(self.items@)
        &&& distinct_keys(pairs_of(self.items@))
        &&& (self.items@.len() <= self.capacity || self.items@.len() <= 1)
    }

    open spec fn after_insert(&self, key: u64, entry: CacheEntry) -> Seq<(u64, CacheEntry)> {
        pairs_of(items_after_insert(self.items(), self.limit(), key, entry, self.next_id()))
    }

    open spec fn after_access(&self, key: u64) -> Seq<(u64, CacheEntry)> {
        pairs_of(items_after_access(self.items(), key, self.next_id()))
    }

    fn insert(&mut self, key: CacheKey, entry: CacheEntry)
        ensures
            final(self).items() == items_after_insert(
                old(self).items(),
                old(self).limit(),
                key.key_obj,
                entry,
                old(self).next_id(),
            ),
            final(self).next_id() == next_of(old(self).next_id()),
    {
        let ghost before = self.items@;
        match self.position(key.key_obj) {
            Some(i) => {
                proof {
                    lemma_items_remove(before, i as int);
                }
                self.items.remove(i);
            },
            None => {
                if self.items.len() >= self.capacity && self.items.len() > 0 {
                    proof {
                        lemma_items_remove(before, 0);
                        assert(before.drop_first() =~= before.remove(0));
                        assert forall|c: int| 0 <= c < before.len() - 1 implies (
                        #[trigger] before.remove(0)[c]).key != key.key_obj by {
                            assert(before[c + 1].key != key.key_obj);
                        }
                    }
                    self.items.remove(0);
                }
            },
        }
        let id = self.alloc_id();
        self.enter(LfuItem { key: key.key_obj, entry, unique_id: id });
    }

    fn peek(&self, key: &CacheKey) -> (entry: Option<CacheEntry>) {
        match self.position(key.key_obj) {
            Some(i) => Some(self.items[i].entry),
            None => None,
        }
    }

    fn record_access(&mut self, key: &CacheKey)
        ensures
            final(self).items() == items_after_access(
                old(self).items(),
                key.key_obj,
                old(self).next_id(),
            ),
            final(self).next_id() == (if place_of(old(self).entries(), key.key_obj).is_some() {
                next_of(old(self).next_id())
            } else {
                old(self).next_id()
            }),
    {
        let ghost before = self.items@;
        match self.position(key.key_obj) {
            Some(i) => {
                proof {
                    lemma_items_remove(before, i as int);
                }
                let old_item = self.items.remove(i);
                let id = self.alloc_id();
                let mut entry = old_item.entry;
                if entry.frequency < u64::MAX {
                    entry.frequency += 1;
                }
                self.enter(LfuItem { key: key.key_obj, entry, unique_id: id });
            },
            None => {},
        }
    }

    fn remove(&mut self, key: &CacheKey) -> (entry: Option<CacheEntry>)
        ensures
            final(self).items() == (match place_of(old(self).entries(), key.key_obj) {
                Some(i) => old(self).items().remove(i),
                None => old(self).items(),
            }),
            final(self).next_id() == old(self).next_id(),
    {
        let ghost before = self.items@;
        match self.position(key.key_obj) {
            Some(i) => {
                proof {
                    lemma_items_remove(before, i as int);
                }
                let item = self.items.remove(i);
                Some(item.entry)
            },
            None => None,
        }
    }

    fn len(&self) -> (len: usize) {
        self.items.len()
    }

    fn clear(&mut self)
        ensures
            final(self).items() == Seq::<LfuItem>::empty(),
            final(self).next_id() == old(self).next_id(),
    {
        self.items.clear();
        assert(pairs_of(self.items@) =~= Seq::<(u64, CacheEntry)>::empty());
    }

    fn capacity(&self) -> (capacity: usize) {
        self.capacity
    }
}

} // verus!
