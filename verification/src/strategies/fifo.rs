//! First in, first out: an access moves nothing, and the front entry goes
//! when a new key comes to a full cache.

use super::linked::{
    linked_clear, linked_contains_key, linked_entries, linked_get, linked_insert, linked_len,
    linked_new, linked_pop_front, linked_remove, linked_replace, place_of,
};
use super::mru::lemma_room_keeps_absent;
use super::{distinct_keys, lemma_push_distinct, lemma_remove_distinct, EvictionStrategy};
use crate::entry::CacheEntry;
use crate::key::CacheKey;
use hashlink::LinkedHashMap;
use vstd::prelude::*;

verus! {

/// The FIFO strategy, over the linked map of `hashlink`.
pub struct FifoStrategy {
    map: LinkedHashMap<u64, CacheEntry>,
    capacity: usize,
}

/// The pairs with room made for one more at the back: the front pair goes
/// if there are `limit` pairs or more.
pub open spec fn room_at_front(entries: Seq<(u64, CacheEntry)>, limit: usize) -> Seq<
    (u64, CacheEntry),
> {
    if entries.len() >= limit && entries.len() > 0 {
        entries.drop_first()
    } else {
        entries
    }
}

impl FifoStrategy {
    /// The pairs that the strategy holds, the oldest first.
    pub closed spec fn pairs(&self) -> Seq<(u64, CacheEntry)> {
        linked_entries(self.map)
    }

    /// The capacity that the strategy was made with.
    pub closed spec fn cap(&self) -> usize {
        self.capacity
    }

    /// The strategy is sound.
    pub closed spec fn sound(&self) -> bool {
        &&& distinct_keys(linked_entries(self.map))
        &&& (linked_entries(self.map).len() <= self.capacity || linked_entries(self.map).len() <= 1)
    }

    /// An empty strategy with room for `capacity` entries.
    pub fn new(capacity: usize) -> (s: Self)
        ensures
            s.wf(),
            s.limit() == capacity,
            s.entries() == Seq::<(u64, CacheEntry)>::empty(),
    {
        Self { map: linked_new(), capacity }
    }
}

impl EvictionStrategy for FifoStrategy {
    open spec fn entries(&self) -> Seq<(u64, CacheEntry)> {
        self.pairs()
    }

    open spec fn limit(&self) -> usize {
        self.cap()
    }

    open spec fn wf(&self) -> bool {
        self.sound()
    }

    open spec fn after_insert(&self, key: u64, entry: CacheEntry) -> Seq<(u64, CacheEntry)> {
        match place_of(self.entries(), key) {
            Some(i) => self.entries().update(i, (key, entry)),
            None => room_at_front(self.entries(), self.limit()).push((key, entry)),
        }
    }

    open spec fn after_access(&self, key: u64) -> Seq<(u64, CacheEntry)> {
        self.entries()
    }

    fn insert(&mut self, key: CacheKey, entry: CacheEntry) {
        let ghost before = linked_entries(self.map);
        if linked_contains_key(&self.map, key.key_obj) {
            proof {
                let i = place_of(before, key.key_obj).unwrap();
                let after = before.update(i, (key.key_obj, entry));
                assert forall|a: int, b: int|
                    0 <= a < after.len() && 0 <= b < after.len() && a != b implies (
                #[trigger] after[a]).0 != (#[trigger] after[b]).0 by {
                    assert(before[a].0 != before[b].0);
                }
            }
            linked_replace(&mut self.map, key.key_obj, entry);
            return ;
        }
        if linked_len(&self.map) >= self.capacity {
            linked_pop_front(&mut self.map);
        }
        proof {
            lemma_room_keeps_absent(before, self.capacity, key.key_obj);
            lemma_push_distinct(room_at_front(before, self.capacity), key.key_obj, entry);
        }
        linked_insert(&mut self.map, key.key_obj, entry);
    }

    fn peek(&self, key: &CacheKey) -> (entry: Option<CacheEntry>) {
        linked_get(&self.map, key.key_obj)
    }

    fn record_access(&mut self, _key: &CacheKey) {
    }

    fn remove(&mut self, key: &CacheKey) -> (entry: Option<CacheEntry>) {
        proof {
            let before = linked_entries(self.map);
            match place_of(before, key.key_obj) {
                Some(i) => {
                    lemma_remove_distinct(before, i);
                },
                None => {},
            }
        }
        linked_remove(&mut self.map, key.key_obj)
    }

    fn len(&self) -> (len: usize) {
        linked_len(&self.map)
    }

    fn clear(&mut self) {
        linked_clear(&mut self.map);
    }

    fn capacity(&self) -> (capacity: usize) {
        self.capacity
    }
}

} // verus!
