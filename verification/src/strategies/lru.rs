//! Least recently used: an access moves an entry to the back, and the
//! front entry goes when the cache is over its capacity.

use super::linked::{
    lru_clear, lru_entries, lru_get, lru_insert, lru_len, lru_limit, lru_new, lru_peek, lru_remove,
    place_of, put_back,
};
use super::{distinct_keys, lemma_push_distinct, lemma_remove_distinct, EvictionStrategy};
use crate::entry::CacheEntry;
use crate::key::CacheKey;
use hashlink::LruCache;
use vstd::prelude::*;

verus! {

/// The LRU strategy, over the LRU cache of `hashlink`.
pub struct LruStrategy {
    cache: LruCache<u64, CacheEntry>,
    cap: usize,
}

/// Putting a key at the back of pairs with distinct keys leaves distinct
/// keys.
pub proof fn lemma_put_back_distinct(entries: Seq<(u64, CacheEntry)>, key: u64, entry: CacheEntry)
    requires
        distinct_keys(entries),
    ensures
        distinct_keys(put_back(entries, key, entry)),
        put_back(entries, key, entry).len() == (if place_of(entries, key).is_some() {
            entries.len()
        } else {
            entries.len() + 1
        }),
{
    match place_of(entries, key) {
        Some(i) => {
            lemma_remove_distinct(entries, i);
            lemma_push_distinct(entries.remove(i), key, entry);
        },
        None => {
            lemma_push_distinct(entries, key, entry);
        },
    }
}

/// Dropping the front or the back of pairs with distinct keys leaves
/// distinct keys.
pub proof fn lemma_drop_distinct(entries: Seq<(u64, CacheEntry)>)
    requires
        distinct_keys(entries),
        entries.len() > 0,
    ensures
        distinct_keys(entries.drop_first()),
        distinct_keys(entries.drop_last()),
{
    assert(entries.drop_first() =~= entries.remove(0));
    assert(entries.drop_last() =~= entries.remove(entries.len() - 1));
    lemma_remove_distinct(entries, 0);
    lemma_remove_distinct(entries, entries.len() - 1);
}

impl LruStrategy {
    /// The pairs that the strategy holds, the least recently used first.
    pub closed spec fn pairs(&self) -> Seq<(u64, CacheEntry)> {
        lru_entries(self.cache)
    }

    /// The capacity that the strategy was made with.
    pub closed spec fn cap(&self) -> usize {
        self.cap
    }

    /// The strategy is sound.
    pub closed spec fn sound(&self) -> bool {
        &&& distinct_keys(lru_entries(self.cache))
        &&& lru_limit(self.cache) == self.cap
        &&& lru_entries(self.cache).len() <= self.cap
    }

    /// An empty strategy with room for `capacity` entries.
    pub fn new(capacity: usize) -> (s: Self)
        ensures
            s.wf(),
            s.limit() == capacity,
            s.entries() == Seq::<(u64, CacheEntry)>::empty(),
    {
        Self { cache: lru_new(capacity), cap: capacity }
    }
}

impl EvictionStrategy for LruStrategy {
    open spec fn entries(&self) -> Seq<(u64, CacheEntry)> {
        self.pairs()
    }

    open spec fn limit(&self) -> usize {
        self.cap()
    }

    open spec fn wf(&self) -> bool {
        self.sound()
    }

    open spec fn after_insert(&self, key: u64, entry: CacheEntry) -> Seq<(u64, CacheEntry)> {
        let put = put_back(self.entries(), key, entry);
        if put.len() > self.limit() {
            put.drop_first()
        } else {
            put
        }
    }

    open spec fn after_access(&self, key: u64) -> Seq<(u64, CacheEntry)> {
        match place_of(self.entries(), key) {
            Some(i) => self.entries().remove(i).push(self.entries()[i]),
            None => self.entries(),
        }
    }

    fn insert(&mut self, key: CacheKey, entry: CacheEntry) {
        proof {
            lemma_put_back_distinct(lru_entries(self.cache), key.key_obj, entry);
            let put = put_back(lru_entries(self.cache), key.key_obj, entry);
            if put.len() > 0 {
                lemma_drop_distinct(put);
            }
        }
        lru_insert(&mut self.cache, key.key_obj, entry);
    }

    fn peek(&self, key: &CacheKey) -> (entry: Option<CacheEntry>) {
        lru_peek(&self.cache, key.key_obj)
    }

    fn record_access(&mut self, key: &CacheKey) {
        proof {
            let entries = lru_entries(self.cache);
            match place_of(entries, key.key_obj) {
                Some(i) => {
                    lemma_remove_distinct(entries, i);
                    lemma_push_distinct(entries.remove(i), entries[i].0, entries[i].1);
                },
                None => {},
            }
        }
        lru_get(&mut self.cache, key.key_obj);
    }

    fn remove(&mut self, key: &CacheKey) -> (entry: Option<CacheEntry>) {
        proof {
            let entries = lru_entries(self.cache);
            match place_of(entries, key.key_obj) {
                Some(i) => {
                    lemma_remove_distinct(entries, i);
                },
                None => {},
            }
        }
        lru_remove(&mut self.cache, key.key_obj)
    }

    fn len(&self) -> (len: usize) {
        lru_len(&self.cache)
    }

    fn clear(&mut self) {
        lru_clear(&mut self.cache);
    }

    fn capacity(&self) -> (capacity: usize) {
        self.cap
    }
}

} // verus!
