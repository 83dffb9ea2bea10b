//! The eviction strategies of the in-process backend.
//!
//! A strategy holds the entries of the cache in eviction order and decides
//! which entry goes when the cache is full. The contracts see the entries
//! as the sequence of their pairs of key identity and entry, the next
//! victim of LRU, FIFO and LFU first.

pub mod linked;
pub mod fifo;
pub mod lfu;
pub mod lru;
pub mod mru;

use crate::entry::CacheEntry;
use crate::key::CacheKey;
use linked::{entry_of_key, place_of, taken_out};
use vstd::prelude::*;

verus! {

/// No key occurs twice among the pairs.
pub open spec fn distinct_keys(entries: Seq<(u64, CacheEntry)>) -> bool {
    forall|i: int, j: int|
        0 <= i < entries.len() && 0 <= j < entries.len() && i != j ==> (#[trigger] entries[i]).0
            != (#[trigger] entries[j]).0
}

/// The place of a key among pairs with distinct keys is the one place at
/// which the key stands.
pub proof fn lemma_place_of(entries: Seq<(u64, CacheEntry)>, key: u64, i: int)
    requires
        distinct_keys(entries),
        0 <= i < entries.len(),
        entries[i].0 == key,
    ensures
        place_of(entries, key) == Some(i),
{
    let c = choose|c: int| 0 <= c < entries.len() && (#[trigger] entries[c]).0 == key;
    assert(entries[c].0 == entries[i].0);
}

/// Taking a pair out of pairs with distinct keys leaves distinct keys, and
/// the key of the pair is gone.
pub proof fn lemma_remove_distinct(entries: Seq<(u64, CacheEntry)>, i: int)
    requires
        distinct_keys(entries),
        0 <= i < entries.len(),
    ensures
        distinct_keys(entries.remove(i)),
        place_of(entries.remove(i), entries[i].0).is_none(),
        forall|k: u64|
            k != entries[i].0 ==> entry_of_key(entries.remove(i), k) == entry_of_key(entries, k),
{
    let rest = entries.remove(i);
    assert forall|a: int, b: int| 0 <= a < rest.len() && 0 <= b < rest.len() && a != b implies (
    #[trigger] rest[a]).0 != (#[trigger] rest[b]).0 by {
        let a0 = if a < i { a } else { a + 1 };
        let b0 = if b < i { b } else { b + 1 };
        assert(entries[a0].0 != entries[b0].0);
    }
    assert forall|a: int| 0 <= a < rest.len() implies (#[trigger] rest[a]).0 != entries[i].0 by {
        let a0 = if a < i { a } else { a + 1 };
        assert(entries[a0].0 != entries[i].0);
    }
    assert forall|k: u64| k != entries[i].0 implies entry_of_key(rest, k) == entry_of_key(
        entries,
        k,
    ) by {
        match place_of(entries, k) {
            Some(p) => {
                let pa = if p < i { p } else { p - 1 };
                assert(rest[pa] == entries[p]);
                lemma_place_of(rest, k, pa);
            },
            None => {
                assert forall|a: int| 0 <= a < rest.len() implies (#[trigger] rest[a]).0 != k by {
                    let a0 = if a < i { a } else { a + 1 };
                    if rest[a].0 == k {
                        assert(entries[a0].0 == k);
                    }
                }
            },
        }
    }
}

/// Adding a pair with a new key at the back leaves distinct keys, and the
/// key stands at the back.
pub proof fn lemma_push_distinct(entries: Seq<(u64, CacheEntry)>, key: u64, entry: CacheEntry)
    requires
        distinct_keys(entries),
        place_of(entries, key).is_none(),
    ensures
        distinct_keys(entries.push((key, entry))),
        place_of(entries.push((key, entry)), key) == Some(entries.len() as int),
        entry_of_key(entries.push((key, entry)), key) == Some(entry),
        forall|k: u64|
            k != key ==> entry_of_key(entries.push((key, entry)), k) == entry_of_key(entries, k),
{
    let more = entries.push((key, entry));
    assert forall|a: int| 0 <= a < entries.len() implies (#[trigger] entries[a]).0 != key by {}
    assert(distinct_keys(more)) by {
        assert forall|a: int, b: int|
            0 <= a < more.len() && 0 <= b < more.len() && a != b implies (#[trigger] more[a]).0 != (
        #[trigger] more[b]).0 by {
            if a < entries.len() {
                assert(more[a] == entries[a]);
            }
            if b < entries.len() {
                assert(more[b] == entries[b]);
            }
        }
    }
    lemma_place_of(more, key, entries.len() as int);
    assert forall|k: u64| k != key implies entry_of_key(more, k) == entry_of_key(entries, k) by {
        match place_of(entries, k) {
            Some(p) => {
                assert(more[p] == entries[p]);
                lemma_place_of(more, k, p);
            },
            None => {
                assert forall|a: int| 0 <= a < more.len() implies (#[trigger] more[a]).0 != k by {
                    if a < entries.len() {
                        assert(more[a] == entries[a]);
                    }
                }
            },
        }
    }
}

/// A strategy: the entries of the cache in eviction order, and the rule by
/// which entries come, move and go.
pub trait EvictionStrategy {
    /// The pairs of key identity and entry that the strategy holds, in
    /// eviction order.
    spec fn entries(&self) -> Seq<(u64, CacheEntry)>;

    /// The capacity that the strategy was made with.
    spec fn limit(&self) -> usize;

    /// The strategy is sound: no key occurs twice, and there are no more
    /// entries than the capacity allows.
    spec fn wf(&self) -> bool;

    /// The pairs after an insert of `key` with `entry`.
    spec fn after_insert(&self, key: u64, entry: CacheEntry) -> Seq<(u64, CacheEntry)>;

    /// The pairs after an access to `key`.
    spec fn after_access(&self, key: u64) -> Seq<(u64, CacheEntry)>;

    /// Sets `key` to `entry`, evicting an entry if the cache is full and
    /// the key is new.
    fn insert(&mut self, key: CacheKey, entry: CacheEntry)
        requires
            old(self).wf(),
        ensures
            final(self).wf(),
            final(self).limit() == old(self).limit(),
            final(self).entries() == old(self).after_insert(key.key_obj, entry),
    ;

    /// The entry of `key`, without counting an access.
    fn peek(&self, key: &CacheKey) -> (entry: Option<CacheEntry>)
        requires
            self.wf(),
        ensures
            entry == entry_of_key(self.entries(), key.key_obj),
    ;

    /// Counts an access to `key`.
    fn record_access(&mut self, key: &CacheKey)
        requires
            old(self).wf(),
        ensures
            final(self).wf(),
            final(self).limit() == old(self).limit(),
            final(self).entries() == old(self).after_access(key.key_obj),
    ;

    /// Takes `key` out and returns the entry that it had.
    fn remove(&mut self, key: &CacheKey) -> (entry: Option<CacheEntry>)
        requires
            old(self).wf(),
        ensures
            final(self).wf(),
            final(self).limit() == old(self).limit(),
            final(self).entries() == taken_out(old(self).entries(), key.key_obj),
            entry == entry_of_key(old(self).entries(), key.key_obj),
    ;

    /// The number of entries.
    fn len(&self) -> (len: usize)
        requires
            self.wf(),
        ensures
            len == self.entries().len(),
    ;

    /// Takes every entry out.
    fn clear(&mut self)
        requires
            old(self).wf(),
        ensures
            final(self).wf(),
            final(self).limit() == old(self).limit(),
            final(self).entries() == Seq::<(u64, CacheEntry)>::empty(),
    ;

    /// The capacity that the strategy was made with.
    fn capacity(&self) -> (capacity: usize)
        ensures
            capacity == self.limit(),
    ;
}

/// The state of a strategy as the contracts see it: the pairs that it
/// holds in eviction order and its capacity, and under LFU the unique ids
/// of the items and the id that is handed out next.
pub enum StrategyState {
    Lru { pairs: Seq<(u64, CacheEntry)>, limit: usize },
    Mru { pairs: Seq<(u64, CacheEntry)>, limit: usize },
    Fifo { pairs: Seq<(u64, CacheEntry)>, limit: usize },
    Lfu { items: Seq<lfu::LfuItem>, limit: usize, next_id: u64 },
}

impl StrategyState {
    /// The pairs of key identity and entry, in eviction order.
    pub open spec fn pairs(self) -> Seq<(u64, CacheEntry)> {
        match self {
            StrategyState::Lru { pairs, .. } => pairs,
            StrategyState::Mru { pairs, .. } => pairs,
            StrategyState::Fifo { pairs, .. } => pairs,
            StrategyState::Lfu { items, .. } => lfu::pairs_of(items),
        }
    }

    /// The capacity.
    pub open spec fn limit(self) -> usize {
        match self {
            StrategyState::Lru { limit, .. } => limit,
            StrategyState::Mru { limit, .. } => limit,
            StrategyState::Fifo { limit, .. } => limit,
            StrategyState::Lfu { limit, .. } => limit,
        }
    }

    /// The state after an insert of `key` with `entry`.
    ///
    /// LRU puts the pair at the back and drops the front pair if it is
    /// over its capacity. MRU puts the pair at the back, after dropping the
    /// back pair if the key is new and the cache full. FIFO keeps the place
    /// of a key that is present, and else drops the front pair of a full
    /// cache and puts the new pair at the back. LFU drops the item of the
    /// key, or else the first item of a full cache, and enters the new item
    /// at its place in the order.
    pub open spec fn inserted(self, key: u64, entry: CacheEntry) -> StrategyState {
        match self {
            StrategyState::Lru { pairs, limit } => {
                let put = linked::put_back(pairs, key, entry);
                StrategyState::Lru {
                    pairs: if put.len() > limit {
                        put.drop_first()
                    } else {
                        put
                    },
                    limit,
                }
            },
            StrategyState::Mru { pairs, limit } => StrategyState::Mru {
                pairs: match place_of(pairs, key) {
                    Some(i) => pairs.remove(i).push((key, entry)),
                    None => mru::room_at_back(pairs, limit).push((key, entry)),
                },
                limit,
            },
            StrategyState::Fifo { pairs, limit } => StrategyState::Fifo {
                pairs: match place_of(pairs, key) {
                    Some(i) => pairs.update(i, (key, entry)),
                    None => fifo::room_at_front(pairs, limit).push((key, entry)),
                },
                limit,
            },
            StrategyState::Lfu { items, limit, next_id } => StrategyState::Lfu {
                items: lfu::items_after_insert(items, limit, key, entry, next_id),
                limit,
                next_id: lfu::next_of(next_id),
            },
        }
    }

    /// The state after an access to `key`: LRU and MRU move the pair to the
    /// back, FIFO changes nothing, LFU counts the access and moves the item
    /// to its new place. An access to a key that is not present changes
    /// nothing.
    pub open spec fn accessed(self, key: u64) -> StrategyState {
        match self {
            StrategyState::Lru { pairs, limit } => StrategyState::Lru {
                pairs: match place_of(pairs, key) {
                    Some(i) => pairs.remove(i).push(pairs[i]),
                    None => pairs,
                },
                limit,
            },
            StrategyState::Mru { pairs, limit } => StrategyState::Mru {
                pairs: match place_of(pairs, key) {
                    Some(i) => pairs.remove(i).push(pairs[i]),
                    None => pairs,
                },
                limit,
            },
            StrategyState::Fifo { pairs, limit } => self,
            StrategyState::Lfu { items, limit, next_id } => StrategyState::Lfu {
                items: lfu::items_after_access(items, key, next_id),
                limit,
                next_id: if place_of(lfu::pairs_of(items), key).is_some() {
                    lfu::next_of(next_id)
                } else {
                    next_id
                },
            },
        }
    }

    /// The state after `key` has been taken out.
    pub open spec fn removed(self, key: u64) -> StrategyState {
        match self {
            StrategyState::Lru { pairs, limit } => StrategyState::Lru {
                pairs: taken_out(pairs, key),
                limit,
            },
            StrategyState::Mru { pairs, limit } => StrategyState::Mru {
                pairs: taken_out(pairs, key),
                limit,
            },
            StrategyState::Fifo { pairs, limit } => StrategyState::Fifo {
                pairs: taken_out(pairs, key),
                limit,
            },
            StrategyState::Lfu { items, limit, next_id } => StrategyState::Lfu {
                items: match place_of(lfu::pairs_of(items), key) {
                    Some(i) => items.remove(i),
                    None => items,
                },
                limit,
                next_id,
            },
        }
    }

    /// The state after every pair has been taken out.
    pub open spec fn cleared(self) -> StrategyState {
        match self {
            StrategyState::Lru { pairs, limit } => StrategyState::Lru { pairs: Seq::empty(), limit },
            StrategyState::Mru { pairs, limit } => StrategyState::Mru { pairs: Seq::empty(), limit },
            StrategyState::Fifo { pairs, limit } => StrategyState::Fifo {
                pairs: Seq::empty(),
                limit,
            },
            StrategyState::Lfu { items, limit, next_id } => StrategyState::Lfu {
                items: Seq::empty(),
                limit,
                next_id,
            },
        }
    }

    /// The state after the accesses to `keys`, one after the other.
    pub open spec fn replayed(self, keys: Seq<u64>) -> StrategyState
        decreases keys.len(),
    {
        if keys.len() == 0 {
            self
        } else {
            self.accessed(keys[0]).replayed(keys.drop_first())
        }
    }
}

/// One of the four strategies.
pub enum StrategyEnum {
    Lru(lru::LruStrategy),
    Mru(mru::MruStrategy),
    Fifo(fifo::FifoStrategy),
    Lfu(lfu::LfuStrategy),
}

impl View for StrategyEnum {
    type V = StrategyState;

    open spec fn view(&self) -> StrategyState {
        match self {
            Self::Lru(s) => StrategyState::Lru { pairs: s.entries(), limit: s.limit() },
            Self::Mru(s) => StrategyState::Mru { pairs: s.entries(), limit: s.limit() },
            Self::Fifo(s) => StrategyState::Fifo { pairs: s.entries(), limit: s.limit() },
            Self::Lfu(s) => StrategyState::Lfu {
                items: s.items(),
                limit: s.limit(),
                next_id: s.next_id(),
            },
        }
    }
}

impl StrategyEnum {
    /// The pairs of key identity and entry that the strategy holds, in
    /// eviction order.
    pub open spec fn entries(&self) -> Seq<(u64, CacheEntry)> {
        self@.pairs()
    }

    /// The capacity that the strategy was made with.
    pub open spec fn limit(&self) -> usize {
        self@.limit()
    }

    /// The strategy is sound: no key occurs twice, there are no more
    /// entries than the capacity allows, and under LFU the items stand in
    /// LFU order.
    pub open spec fn wf(&self) -> bool {
        match self {
            Self::Lru(s) => s.wf(),
            Self::Mru(s) => s.wf(),
            Self::Fifo(s) => s.wf(),
            Self::Lfu(s) => s.wf(),
        }
    }

    /// The strategy with the policy number `strategy` and room for
    /// `max_size` entries: 0 is LRU, 1 MRU, 2 FIFO and 3 LFU. Any other
    /// number names no policy.
    pub fn with_policy(strategy: u8, max_size: usize) -> (r: Option<Self>)
        ensures
            match r {
                Some(s) => s.wf() && match strategy {
                    0 => s@ == (StrategyState::Lru { pairs: Seq::empty(), limit: max_size }),
                    1 => s@ == (StrategyState::Mru { pairs: Seq::empty(), limit: max_size }),
                    2 => s@ == (StrategyState::Fifo { pairs: Seq::empty(), limit: max_size }),
                    3 => s@ == (StrategyState::Lfu {
                        items: Seq::empty(),
                        limit: max_size,
                        next_id: 0,
                    }),
                    _ => false,
                },
                None => strategy > 3,
            },
    {
        match strategy {
            0 => Some(StrategyEnum::Lru(lru::LruStrategy::new(max_size))),
            1 => Some(StrategyEnum::Mru(mru::MruStrategy::new(max_size))),
            2 => Some(StrategyEnum::Fifo(fifo::FifoStrategy::new(max_size))),
            3 => Some(StrategyEnum::Lfu(lfu::LfuStrategy::new(max_size))),
            _ => None,
        }
    }

    /// Sets `key` to `entry`, evicting an entry if the cache is full and
    /// the key is new.
    pub fn insert(&mut self, key: CacheKey, entry: CacheEntry)
        requires
            old(self).wf(),
        ensures
            final(self).wf(),
            final(self)@ == old(self)@.inserted(key.key_obj, entry),
    {
        match self {
            Self::Lru(s) => s.insert(key, entry),
            Self::Mru(s) => s.insert(key, entry),
            Self::Fifo(s) => s.insert(key, entry),
            Self::Lfu(s) => s.insert(key, entry),
        }
    }

    /// The entry of `key`, without counting an access.
    pub fn peek(&self, key: &CacheKey) -> (entry: Option<CacheEntry>)
        requires
            self.wf(),
        ensures
            entry == entry_of_key(self.entries(), key.key_obj),
    {
        match self {
            Self::Lru(s) => s.peek(key),
            Self::Mru(s) => s.peek(key),
            Self::Fifo(s) => s.peek(key),
            Self::Lfu(s) => s.peek(key),
        }
    }

    /// Counts an access to `key`.
    pub fn record_access(&mut self, key: &CacheKey)
        requires
            old(self).wf(),
        ensures
            final(self).wf(),
            final(self)@ == old(self)@.accessed(key.key_obj),
    {
        match self {
            Self::Lru(s) => s.record_access(key),
            Self::Mru(s) => s.record_access(key),
            Self::Fifo(s) => s.record_access(key),
            Self::Lfu(s) => s.record_access(key),
        }
    }

    /// Takes `key` out and returns the entry that it had.
    pub fn remove(&mut self, key: &CacheKey) -> (entry: Option<CacheEntry>)
        requires
            old(self).wf(),
        ensures
            final(self).wf(),
            final(self)@ == old(self)@.removed(key.key_obj),
            entry == entry_of_key(old(self).entries(), key.key_obj),
    {
        match self {
            Self::Lru(s) => s.remove(key),
            Self::Mru(s) => s.remove(key),
            Self::Fifo(s) => s.remove(key),
            Self::Lfu(s) => s.remove(key),
        }
    }

    /// The number of entries.
    pub fn len(&self) -> (len: usize)
        requires
            self.wf(),
        ensures
            len == self.entries().len(),
    {
        match self {
            Self::Lru(s) => s.len(),
            Self::Mru(s) => s.len(),
            Self::Fifo(s) => s.len(),
            Self::Lfu(s) => s.len(),
        }
    }

    /// Takes every entry out.
    pub fn clear(&mut self)
        requires
            old(self).wf(),
        ensures
            final(self).wf(),
            final(self)@ == old(self)@.cleared(),
    {
        match self {
            Self::Lru(s) => s.clear(),
            Self::Mru(s) => s.clear(),
            Self::Fifo(s) => s.clear(),
            Self::Lfu(s) => s.clear(),
        }
    }

    /// The capacity that the strategy was made with.
    pub fn capacity(&self) -> (capacity: usize)
        ensures
            capacity == self.limit(),
    {
        match self {
            Self::Lru(s) => s.capacity(),
            Self::Mru(s) => s.capacity(),
            Self::Fifo(s) => s.capacity(),
            Self::Lfu(s) => s.capacity(),
        }
    }
}

} // verus!
