//! The in-process cache: what it decides between the calls of the wrapped
//! function.
//!
//! A hit is served under a shared lock: the strategy is only read, and the
//! access is noted in a bounded log. Whoever next holds the exclusive lock
//! replays the log before it changes the strategy. The embedding layer
//! holds the locks, keeps the counters and calls the wrapped function; the
//! state and the rules are here.

use crate::entry::CacheEntry;
use crate::key::CacheKey;
use crate::strategies::linked::entry_of_key;
use crate::strategies::{StrategyEnum, StrategyState};
use crate::text::{decimal, push_decimal};
use vstd::prelude::*;
use vstd::string::StringExecFns;

verus! {

/// The most accesses that the log holds. An access that finds the log full
/// is not noted.
pub const ACCESS_LOG_CAPACITY: usize = 64;

/// The statistics of an in-process cache.
#[derive(Clone, Copy, Debug)]
pub struct CacheInfo {
    pub hits: u64,
    pub misses: u64,
    pub max_size: usize,
    pub current_size: usize,
}

/// The description of the statistics `info`.
pub open spec fn info_text(info: CacheInfo) -> Seq<char> {
    "CacheInfo(hits="@ + decimal(info.hits as nat) + ", misses="@ + decimal(info.misses as nat)
        + ", max_size="@ + decimal(info.max_size as nat) + ", current_size="@ + decimal(
        info.current_size as nat,
    ) + ")"@
}

impl CacheInfo {
    /// The description of the statistics: the name of the type and, in
    /// parentheses, each field with its decimal value.
    pub fn repr(&self) -> (text: String)
        ensures
            text@ == info_text(*self),
    {
        let mut text = String::from_str("CacheInfo(hits=");
        push_decimal(&mut text, self.hits);
        text.append(", misses=");
        push_decimal(&mut text, self.misses);
        text.append(", max_size=");
        push_decimal(&mut text, self.max_size as u64);
        text.append(", current_size=");
        push_decimal(&mut text, self.current_size as u64);
        text.append(")");
        text
    }
}

/// Why a cache cannot be made with the given parameters.
#[derive(Clone, Copy, Debug, PartialEq, Eq, Structural)]
pub enum ConfigError {
    /// The policy number names no policy.
    BadStrategy,
    /// The capacity is zero.
    BadCapacity,
}

impl ConfigError {
    /// The text of the error.
    pub open spec fn text(self) -> Seq<char> {
        match self {
            ConfigError::BadStrategy => "unknown strategy"@,
            ConfigError::BadCapacity => "max_size must be positive"@,
        }
    }

    /// The text of the error.
    pub fn message(&self) -> (text: &'static str)
        ensures
            text@ == self.text(),
    {
        match self {
            ConfigError::BadStrategy => "unknown strategy",
            ConfigError::BadCapacity => "max_size must be positive",
        }
    }
}

/// The state that the exclusive lock protects: the strategy with its
/// entries, and the time to live.
pub struct CacheStoreInner {
    pub strategy: StrategyEnum,
    /// The time to live in nanoseconds; `None` if entries do not expire.
    pub ttl: Option<u64>,
}

/// The identities of the keys of a log, in its order.
pub open spec fn key_ids(log: Seq<CacheKey>) -> Seq<u64> {
    Seq::new(log.len(), |i: int| log[i].key_obj)
}

/// Whether an entry written at `created_at` has outlived `ttl` at `now`.
pub open spec fn is_stale(ttl: Option<u64>, created_at: u64, now: u64) -> bool {
    match ttl {
        Some(t) => now >= created_at && now - created_at > t,
        None => false,
    }
}

/// The entry that a call at time `now` installs for `value`.
pub open spec fn fresh_entry(value: u64, now: u64) -> CacheEntry {
    CacheEntry { value, created_at: now, frequency: 0 }
}

/// Replaying a log and then one more access is replaying the log with the
/// access at its end.
pub proof fn lemma_replayed_push(s: StrategyState, keys: Seq<u64>, key: u64)
    ensures
        s.replayed(keys.push(key)) == s.replayed(keys).accessed(key),
    decreases keys.len(),
{
    let more = keys.push(key);
    assert(s.replayed(more) == s.accessed(more[0]).replayed(more.drop_first()));
    if keys.len() == 0 {
        assert(more.drop_first() =~= keys);
        assert(s.accessed(key).replayed(keys) == s.accessed(key));
        assert(s.replayed(keys) == s);
    } else {
        assert(more.drop_first() =~= keys.drop_first().push(key));
        lemma_replayed_push(s.accessed(keys[0]), keys.drop_first(), key);
        assert(s.replayed(keys) == s.accessed(keys[0]).replayed(keys.drop_first()));
    }
}

/// Notes an access to `key` in the log, unless the log is full.
pub fn log_access(log: &mut Vec<CacheKey>, key: CacheKey)
    ensures
        final(log)@ == (if old(log)@.len() < ACCESS_LOG_CAPACITY {
            old(log)@.push(key)
        } else {
            old(log)@
        }),
{
    if log.len() < ACCESS_LOG_CAPACITY {
        log.push(key);
    }
}

impl CacheStoreInner {
    /// The store is sound.
    pub open spec fn wf(&self) -> bool {
        self.strategy.wf()
    }

    /// An empty store with the policy number `strategy` (0 LRU, 1 MRU, 2
    /// FIFO, 3 LFU), room for `max_size` entries and the time to live
    /// `ttl`. A policy number above 3 and a capacity of zero are rejected,
    /// the policy number first.
    pub fn new(strategy: u8, max_size: usize, ttl: Option<u64>) -> (r: Result<Self, ConfigError>)
        ensures
            match r {
                Ok(store) => {
                    &&& strategy <= 3
                    &&& max_size >= 1
                    &&& store.wf()
                    &&& store.ttl == ttl
                    &&& store.strategy@ == (match strategy {
                        1 => StrategyState::Mru { pairs: Seq::empty(), limit: max_size },
                        2 => StrategyState::Fifo { pairs: Seq::empty(), limit: max_size },
                        3 => StrategyState::Lfu { items: Seq::empty(), limit: max_size, next_id: 0 },
                        _ => StrategyState::Lru { pairs: Seq::empty(), limit: max_size },
                    })
                },
                Err(ConfigError::BadStrategy) => strategy > 3,
                Err(ConfigError::BadCapacity) => strategy <= 3 && max_size == 0,
            },
    {
        match StrategyEnum::with_policy(strategy, max_size) {
            None => Err(ConfigError::BadStrategy),
            Some(strategy) => {
                if max_size == 0 {
                    Err(ConfigError::BadCapacity)
                } else {
                    Ok(CacheStoreInner { strategy, ttl })
                }
            },
        }
    }

    /// Whether `entry` has outlived the time to live at `now`.
    pub fn entry_is_stale(&self, entry: &CacheEntry, now: u64) -> (stale: bool)
        ensures
            stale == is_stale(self.ttl, entry.created_at, now),
    {
        match self.ttl {
            Some(ttl) => now >= entry.created_at && now - entry.created_at > ttl,
            None => false,
        }
    }

    /// The fast path, under the shared lock: the value of `key` if it has a
    /// live entry at `now`. The strategy is not changed; the caller notes
    /// the access with `log_access`.
    pub fn lookup(&self, key: &CacheKey, now: u64) -> (value: Option<u64>)
        requires
            self.wf(),
        ensures
            value == (match entry_of_key(self.strategy.entries(), key.key_obj) {
                Some(entry) => if is_stale(self.ttl, entry.created_at, now) {
                    None
                } else {
                    Some(entry.value)
                },
                None => None,
            }),
    {
        match self.strategy.peek(key) {
            Some(entry) => {
                if self.entry_is_stale(&entry, now) {
                    None
                } else {
                    Some(entry.value)
                }
            },
            None => None,
        }
    }

    /// Replays the accesses of the log on the strategy, in their order, and
    /// empties the log.
    pub fn drain_access_log(&mut self, log: &mut Vec<CacheKey>)
        requires
            old(self).wf(),
        ensures
            final(self).wf(),
            final(self).ttl == old(self).ttl,
            final(self).strategy@ == old(self).strategy@.replayed(key_ids(old(log)@)),
            final(log)@ == Seq::<CacheKey>::empty(),
    {
        let ghost start = self.strategy@;
        let ghost keys = key_ids(log@);
        let mut i: usize = 0;
        proof {
            assert(keys.subrange(0, 0) =~= Seq::<u64>::empty());
        }
        while i < log.len()
            invariant
                0 <= i <= log@.len(),
                log@ == old(log)@,
                keys == key_ids(log@),
                self.wf(),
                self.ttl == old(self).ttl,
                start == old(self).strategy@,
                self.strategy@ == start.replayed(keys.subrange(0, i as int)),
            decreases log@.len() - i,
        {
            proof {
                lemma_replayed_push(start, keys.subrange(0, i as int), keys[i as int]);
                assert(keys.subrange(0, i as int).push(keys[i as int]) =~= keys.subrange(
                    0,
                    i + 1,
                ));
            }
            let key = log[i];
            self.strategy.record_access(&key);
            i += 1;
        }
        proof {
            assert(keys.subrange(0, i as int) =~= keys);
        }
        log.clear();
    }

    /// The slow path of a call, under the exclusive lock, after the wrapped
    /// function has returned `value`: replays the log; then, unless `key`
    /// has got a live entry in the meantime, removes what entry it has and
    /// inserts `value` as written at `now`. Returns whether it inserted.
    pub fn install(&mut self, log: &mut Vec<CacheKey>, key: CacheKey, value: u64, now: u64) -> (inserted:
        bool)
        requires
            old(self).wf(),
        ensures
            final(self).wf(),
            final(self).ttl == old(self).ttl,
            final(log)@ == Seq::<CacheKey>::empty(),
            ({
                let replayed = old(self).strategy@.replayed(key_ids(old(log)@));
                let needed = match entry_of_key(replayed.pairs(), key.key_obj) {
                    Some(entry) => is_stale(old(self).ttl, entry.created_at, now),
                    None => true,
                };
                &&& inserted == needed
                &&& final(self).strategy@ == (if needed {
                    replayed.removed(key.key_obj).inserted(key.key_obj, fresh_entry(value, now))
                } else {
                    replayed
                })
            }),
    {
        self.drain_access_log(log);
        let needs_insert = match self.strategy.peek(&key) {
            Some(entry) => self.entry_is_stale(&entry, now),
            None => true,
        };
        if needs_insert {
            self.strategy.remove(&key);
            self.strategy.insert(key, CacheEntry { value, created_at: now, frequency: 0 });
        }
        needs_insert
    }

    /// The slow path of a lookup, under the exclusive lock: replays the
    /// log; then an entry of `key` that has outlived the time to live is
    /// removed and the lookup is a miss, and a live entry counts the access
    /// and gives its value.
    pub fn get_slow(&mut self, log: &mut Vec<CacheKey>, key: &CacheKey, now: u64) -> (value: Option<
        u64,
    >)
        requires
            old(self).wf(),
        ensures
            final(self).wf(),
            final(self).ttl == old(self).ttl,
            final(log)@ == Seq::<CacheKey>::empty(),
            ({
                let replayed = old(self).strategy@.replayed(key_ids(old(log)@));
                match entry_of_key(replayed.pairs(), key.key_obj) {
                    Some(entry) => if is_stale(old(self).ttl, entry.created_at, now) {
                        value.is_none() && final(self).strategy@ == replayed.removed(key.key_obj)
                    } else {
                        value == Some(entry.value) && final(self).strategy@ == replayed.accessed(
                            key.key_obj,
                        )
                    },
                    None => value.is_none() && final(self).strategy@ == replayed,
                }
            }),
    {
        self.drain_access_log(log);
        match self.strategy.peek(key) {
            Some(entry) => {
                if self.entry_is_stale(&entry, now) {
                    self.strategy.remove(key);
                    None
                } else {
                    self.strategy.record_access(key);
                    Some(entry.value)
                }
            },
            None => None,
        }
    }

    /// Stores `value` for `key` as written at `now`, under the exclusive
    /// lock, after replaying the log.
    pub fn set(&mut self, log: &mut Vec<CacheKey>, key: CacheKey, value: u64, now: u64)
        requires
            old(self).wf(),
        ensures
            final(self).wf(),
            final(self).ttl == old(self).ttl,
            final(log)@ == Seq::<CacheKey>::empty(),
            final(self).strategy@ == old(self).strategy@.replayed(key_ids(old(log)@)).inserted(
                key.key_obj,
                fresh_entry(value, now),
            ),
    {
        self.drain_access_log(log);
        self.strategy.insert(key, CacheEntry { value, created_at: now, frequency: 0 });
    }

    /// Empties the cache and the log, under the exclusive lock.
    pub fn clear(&mut self, log: &mut Vec<CacheKey>)
        requires
            old(self).wf(),
        ensures
            final(self).wf(),
            final(self).ttl == old(self).ttl,
            final(log)@ == Seq::<CacheKey>::empty(),
            final(self).strategy@ == old(self).strategy@.cleared(),
    {
        self.strategy.clear();
        log.clear();
    }

    /// The statistics of the cache, with the counters that the caller
    /// keeps.
    pub fn info(&self, hits: u64, misses: u64) -> (info: CacheInfo)
        requires
            self.wf(),
        ensures
            info.hits == hits,
            info.misses == misses,
            info.max_size == self.strategy.limit(),
            info.current_size == self.strategy.entries().len(),
    {
        CacheInfo {
            hits,
            misses,
            max_size: self.strategy.capacity(),
            current_size: self.strategy.len(),
        }
    }
}

} // verus!
