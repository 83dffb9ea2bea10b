//! Most recently used: an access moves an entry to the back, and the back
//! entry goes when a new key comes to a full cache.

use super::linked::{
    linked_clear, linked_contains_key, linked_entries, linked_get, linked_insert, linked_len,
    linked_new, linked_pop_back, linked_remove, place_of,
};
use super::lru::lemma_drop_distinct;
use super::{distinct_keys, lemma_push_distinct, lemma_remove_distinct, EvictionStrategy};
use crate::entry::CacheEntry;
use crate::key::CacheKey;
use hashlink::LinkedHashMap;
use vstd::prelude::*;

verus! {

/// The MRU strategy, over the linked map of `hashlink`.
pub struct MruStrategy {
    map: LinkedHashMap<u64, CacheEntry>,
    capacity: usize,
}

/// The pairs with room made for one more at the back: the back pair goes
/// if there are `limit` pairs or more.
pub open spec fn room_at_back(entries: Seq<(u64, CacheEntry)>, limit: usize) -> Seq<(u64, CacheEntry)> {
    if entries.len() >= limit && entries.len() > 0 {
        entries.drop_last()
    } else {
        entries
    }
}

/// Making room at the back does not bring a key in.
pub proof fn lemma_room_keeps_absent(entries: Seq<(u64, CacheEntry)>, limit: usize, key: u64)
    requires
        distinct_keys(entries),
        place_of(entries, key).is_none(),
    ensures
        place_of(room_at_back(entries, limit), key).is_none(),
        place_of(super::fifo::room_at_front(entries, limit), key).is_none(),
        distinct_keys(room_at_back(entries, limit)),
        distinct_keys(super::fifo::room_at_front(entries, limit)),
{
    if entries.len() > 0 {
        lemma_drop_distinct(entries);
        let back = entries.drop_last();
        let front = entries.drop_first();
        assert forall|i: int| 0 <= i < back.len() implies (#[trigger] back[i]).0 != key by {
            assert(back[i] == entries[i]);
        }
        assert forall|i: int| 0 <= i < front.len() implies (#[trigger] front[i]).0 != key by {
            assert(front[i] == entries[i + 1]);
        }
    }
}

impl MruStrategy {
    /// The pairs that the strategy holds, the most recently used last.
    pub closed spec fn pairs(&self) -> Seq<(u64, CacheEntry)> {
        linked_entries(self.map)
    }

    /// The capacity that the strategy was made with.
    pub closed spec fn cap(&self) -> usize {
        self.capacity
    }

    /// The strategy is sound.
    pub closed spec fn sound(&self) -> bool {
        &&& distinct_keys(linked_entries(self.map))
        &&& (linked_entries(self.map).len() <= self.capacity || linked_entries(self.map).len() <= 1)
    }

    /// An empty strategy with room for `capacity` entries.
    pub fn new(capacity: usize) -> (s: Self)
        ensures
            s.wf(),
            s.limit() == capacity,
            s.entries() == Seq::<(u64, CacheEntry)>::empty(),
    {
        Self { map: linked_new(), capacity }
    }
}

impl EvictionStrategy for MruStrategy {
    open spec fn entries(&self) -> Seq<(u64, CacheEntry)> {
        self.pairs()
    }

    open spec fn limit(&self) -> usize {
        self.cap()
    }

    open spec fn wf(&self) -> bool {
        self.sound()
    }

    open spec fn after_insert(&self, key: u64, entry: CacheEntry) -> Seq<(u64, CacheEntry)> {
        match place_of(self.entries(), key) {
            Some(i) => self.entries().remove(i).push((key, entry)),
            None => room_at_back(self.entries(), self.limit()).push((key, entry)),
        }
    }

    open spec fn after_access(&self, key: u64) -> Seq<(u64, CacheEntry)> {
        match place_of(self.entries(), key) {
            Some(i) => self.entries().remove(i).push(self.entries()[i]),
            None => self.entries(),
        }
    }

    fn insert(&mut self, key: CacheKey, entry: CacheEntry) {
        let ghost before = linked_entries(self.map);
        if linked_contains_key(&self.map, key.key_obj) {
            proof {
                let i = place_of(before, key.key_obj).unwrap();
                lemma_remove_distinct(before, i);
                lemma_push_distinct(before.remove(i), key.key_obj, entry);
            }
            linked_remove(&mut self.map, key.key_obj);
        } else if linked_len(&self.map) >= self.capacity {
            proof {
                lemma_room_keeps_absent(before, self.capacity, key.key_obj);
                lemma_push_distinct(room_at_back(before, self.capacity), key.key_obj, entry);
            }
            linked_pop_back(&mut self.map);
        } else {
            proof {
                lemma_push_distinct(before, key.key_obj, entry);
            }
        }
        linked_insert(&mut self.map, key.key_obj, entry);
    }

    fn peek(&self, key: &CacheKey) -> (entry: Option<CacheEntry>) {
        linked_get(&self.map, key.key_obj)
    }

    fn record_access(&mut self, key: &CacheKey) {
        let ghost before = linked_entries(self.map);
        proof {
            match place_of(before, key.key_obj) {
                Some(i) => {
                    lemma_remove_distinct(before, i);
                    lemma_push_distinct(before.remove(i), before[i].0, before[i].1);
                },
                None => {},
            }
        }
        if let Some(entry) = linked_remove(&mut self.map, key.key_obj) {
            linked_insert(&mut self.map, key.key_obj, entry);
        }
    }

    fn remove(&mut self, key: &CacheKey) -> (entry: Option<CacheEntry>) {
        proof {
            let before = linked_entries(self.map);
            match place_of(before, key.key_obj) {
                Some(i) => {
                    lemma_remove_distinct(before, i);
                },
                None => {},
            }
        }
        linked_remove(&mut self.map, key.key_obj)
    }

    fn len(&self) -> (len: usize) {
        linked_len(&self.map)
    }

    fn clear(&mut self) {
        linked_clear(&mut self.map);
    }

    fn capacity(&self) -> (capacity: usize) {
        self.capacity
    }
}

} // verus!
