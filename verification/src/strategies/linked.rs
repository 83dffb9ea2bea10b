//! The insertion-ordered maps of the `hashlink` crate, as the strategies
//! use them: keyed by the identity of the host key, holding cache entries.
//!
//! Nothing here is proved. Each function states what the method of
//! `hashlink` that it calls does to the entries of the map, seen as the
//! sequence of its key and entry pairs from front to back.

use crate::entry::CacheEntry;
use hashlink::{LinkedHashMap, LruCache};
use vstd::prelude::*;

verus! {

/// The hasher that the maps of `hashlink` are made with. Nothing is known
/// of it.
#[verifier::external_type_specification]
#[verifier::external_body]
pub struct ExDefaultHashBuilder(hashlink::DefaultHashBuilder);

/// The linked map of `hashlink`: a hash map that keeps its pairs in an
/// order. What it holds is known through `linked_entries` only.
#[verifier::external_type_specification]
#[verifier::external_body]
#[verifier::reject_recursive_types(K)]
#[verifier::reject_recursive_types(V)]
#[verifier::reject_recursive_types(S)]
pub struct ExLinkedHashMap<K, V, S>(hashlink::LinkedHashMap<K, V, S>);

/// The LRU cache of `hashlink`: a linked map with a capacity. What it
/// holds is known through `lru_entries` and `lru_limit` only.
#[verifier::external_type_specification]
#[verifier::external_body]
#[verifier::reject_recursive_types(K)]
#[verifier::reject_recursive_types(V)]
#[verifier::reject_recursive_types(S)]
pub struct ExLruCache<K, V, S>(hashlink::LruCache<K, V, S>);

/// The pairs that a linked map holds, from front to back.
pub uninterp spec fn linked_entries(m: LinkedHashMap<u64, CacheEntry>) -> Seq<(u64, CacheEntry)>;

/// The pairs that an LRU cache holds, from front to back.
pub uninterp spec fn lru_entries(c: LruCache<u64, CacheEntry>) -> Seq<(u64, CacheEntry)>;

/// The capacity that an LRU cache was made with.
pub uninterp spec fn lru_limit(c: LruCache<u64, CacheEntry>) -> usize;

/// The place of `key` among the pairs, if it is among them.
pub open spec fn place_of(entries: Seq<(u64, CacheEntry)>, key: u64) -> Option<int> {
    if exists|i: int| 0 <= i < entries.len() && (#[trigger] entries[i]).0 == key {
        Some(choose|i: int| 0 <= i < entries.len() && (#[trigger] entries[i]).0 == key)
    } else {
        None
    }
}

/// The pairs after `key` has been set to `entry` and put at the back.
pub open spec fn put_back(entries: Seq<(u64, CacheEntry)>, key: u64, entry: CacheEntry) -> Seq<
    (u64, CacheEntry),
> {
    match place_of(entries, key) {
        Some(i) => entries.remove(i).push((key, entry)),
        None => entries.push((key, entry)),
    }
}

/// The pairs after `key` has been taken out.
pub open spec fn taken_out(entries: Seq<(u64, CacheEntry)>, key: u64) -> Seq<(u64, CacheEntry)> {
    match place_of(entries, key) {
        Some(i) => entries.remove(i),
        None => entries,
    }
}

/// The entry of `key`, if it has one.
pub open spec fn entry_of_key(entries: Seq<(u64, CacheEntry)>, key: u64) -> Option<CacheEntry> {
    match place_of(entries, key) {
        Some(i) => Some(entries[i].1),
        None => None,
    }
}

/// `LinkedHashMap::new`: an empty map.
#[verifier::external_body]
pub(crate) fn linked_new() -> (m: LinkedHashMap<u64, CacheEntry>)
    ensures
        linked_entries(m) == Seq::<(u64, CacheEntry)>::empty(),
{
    LinkedHashMap::new()
}

/// `LinkedHashMap::len`: the number of pairs.
#[verifier::external_body]
pub(crate) fn linked_len(m: &LinkedHashMap<u64, CacheEntry>) -> (len: usize)
    ensures
        len == linked_entries(*m).len(),
{
    m.len()
}

/// `LinkedHashMap::contains_key`: whether the key has an entry.
#[verifier::external_body]
pub(crate) fn linked_contains_key(m: &LinkedHashMap<u64, CacheEntry>, key: u64) -> (found: bool)
    ensures
        found == place_of(linked_entries(*m), key).is_some(),
{
    m.contains_key(&key)
}

/// `LinkedHashMap::get`: the entry of the key; the order does not change.
#[verifier::external_body]
pub(crate) fn linked_get(m: &LinkedHashMap<u64, CacheEntry>, key: u64) -> (entry: Option<CacheEntry>)
    ensures
        entry == entry_of_key(linked_entries(*m), key),
{
    m.get(&key).copied()
}

/// `LinkedHashMap::insert`: sets the key to the entry and puts the pair at
/// the back, also if the key had an entry; returns the entry that it had.
#[verifier::external_body]
pub(crate) fn linked_insert(m: &mut LinkedHashMap<u64, CacheEntry>, key: u64, entry: CacheEntry) -> (had:
    Option<CacheEntry>)
    ensures
        linked_entries(*final(m)) == put_back(linked_entries(*old(m)), key, entry),
        had == entry_of_key(linked_entries(*old(m)), key),
{
    m.insert(key, entry)
}

/// `LinkedHashMap::replace`: sets the key to the entry; a key that had an
/// entry keeps its place, a new key goes to the back; returns the entry
/// that it had.
#[verifier::external_body]
pub(crate) fn linked_replace(m: &mut LinkedHashMap<u64, CacheEntry>, key: u64, entry: CacheEntry) -> (had:
    Option<CacheEntry>)
    ensures
        linked_entries(*final(m)) == (match place_of(linked_entries(*old(m)), key) {
            Some(i) => linked_entries(*old(m)).update(i, (key, entry)),
            None => linked_entries(*old(m)).push((key, entry)),
        }),
        had == entry_of_key(linked_entries(*old(m)), key),
{
    m.replace(key, entry)
}

/// `LinkedHashMap::remove`: takes the key out; returns the entry that it
/// had.
#[verifier::external_body]
pub(crate) fn linked_remove(m: &mut LinkedHashMap<u64, CacheEntry>, key: u64) -> (had: Option<CacheEntry>)
    ensures
        linked_entries(*final(m)) == taken_out(linked_entries(*old(m)), key),
        had == entry_of_key(linked_entries(*old(m)), key),
{
    m.remove(&key)
}

/// `LinkedHashMap::pop_front`: takes the front pair out and returns it.
#[verifier::external_body]
pub(crate) fn linked_pop_front(m: &mut LinkedHashMap<u64, CacheEntry>) -> (front: Option<
    (u64, CacheEntry),
>)
    ensures
        linked_entries(*old(m)).len() == 0 ==> front.is_none() && linked_entries(*final(m))
            == linked_entries(*old(m)),
        linked_entries(*old(m)).len() > 0 ==> front == Some(linked_entries(*old(m))[0])
            && linked_entries(*final(m)) == linked_entries(*old(m)).drop_first(),
{
    m.pop_front()
}

/// `LinkedHashMap::pop_back`: takes the back pair out and returns it.
#[verifier::external_body]
pub(crate) fn linked_pop_back(m: &mut LinkedHashMap<u64, CacheEntry>) -> (back: Option<
    (u64, CacheEntry),
>)
    ensures
        linked_entries(*old(m)).len() == 0 ==> back.is_none() && linked_entries(*final(m))
            == linked_entries(*old(m)),
        linked_entries(*old(m)).len() > 0 ==> back == Some(linked_entries(*old(m)).last())
            && linked_entries(*final(m)) == linked_entries(*old(m)).drop_last(),
{
    m.pop_back()
}

/// `LinkedHashMap::clear`: takes every pair out.
#[verifier::external_body]
pub(crate) fn linked_clear(m: &mut LinkedHashMap<u64, CacheEntry>)
    ensures
        linked_entries(*final(m)) == Seq::<(u64, CacheEntry)>::empty(),
{
    m.clear()
}

/// `LruCache::new`: an empty cache with the given capacity.
#[verifier::external_body]
pub(crate) fn lru_new(capacity: usize) -> (c: LruCache<u64, CacheEntry>)
    ensures
        lru_entries(c) == Seq::<(u64, CacheEntry)>::empty(),
        lru_limit(c) == capacity,
{
    LruCache::new(capacity)
}

/// `LruCache::len`: the number of pairs.
#[verifier::external_body]
pub(crate) fn lru_len(c: &LruCache<u64, CacheEntry>) -> (len: usize)
    ensures
        len == lru_entries(*c).len(),
{
    c.len()
}

/// `LruCache::insert`: sets the key to the entry and puts the pair at the
/// back; if the cache then holds more pairs than its capacity, the front
/// pair goes. Returns the entry that the key had.
#[verifier::external_body]
pub(crate) fn lru_insert(c: &mut LruCache<u64, CacheEntry>, key: u64, entry: CacheEntry) -> (had: Option<
    CacheEntry,
>)
    ensures
        lru_limit(*final(c)) == lru_limit(*old(c)),
        lru_entries(*final(c)) == (if put_back(lru_entries(*old(c)), key, entry).len() > lru_limit(
            *old(c),
        ) {
            put_back(lru_entries(*old(c)), key, entry).drop_first()
        } else {
            put_back(lru_entries(*old(c)), key, entry)
        }),
        had == entry_of_key(lru_entries(*old(c)), key),
{
    c.insert(key, entry)
}

/// `LruCache::peek`: the entry of the key; the order does not change.
#[verifier::external_body]
pub(crate) fn lru_peek(c: &LruCache<u64, CacheEntry>, key: u64) -> (entry: Option<CacheEntry>)
    ensures
        entry == entry_of_key(lru_entries(*c), key),
{
    c.peek(&key).copied()
}

/// `LruCache::get`: the entry of the key, which goes to the back.
#[verifier::external_body]
pub(crate) fn lru_get(c: &mut LruCache<u64, CacheEntry>, key: u64) -> (entry: Option<CacheEntry>)
    ensures
        lru_limit(*final(c)) == lru_limit(*old(c)),
        entry == entry_of_key(lru_entries(*old(c)), key),
        lru_entries(*final(c)) == (match place_of(lru_entries(*old(c)), key) {
            Some(i) => lru_entries(*old(c)).remove(i).push(lru_entries(*old(c))[i]),
            None => lru_entries(*old(c)),
        }),
{
    c.get(&key).copied()
}

/// `LruCache::remove`: takes the key out; returns the entry that it had.
#[verifier::external_body]
pub(crate) fn lru_remove(c: &mut LruCache<u64, CacheEntry>, key: u64) -> (had: Option<CacheEntry>)
    ensures
        lru_limit(*final(c)) == lru_limit(*old(c)),
        lru_entries(*final(c)) == taken_out(lru_entries(*old(c)), key),
        had == entry_of_key(lru_entries(*old(c)), key),
{
    c.remove(&key)
}

/// `LruCache::clear`: takes every pair out.
#[verifier::external_body]
pub(crate) fn lru_clear(c: &mut LruCache<u64, CacheEntry>)
    ensures
        lru_limit(*final(c)) == lru_limit(*old(c)),
        lru_entries(*final(c)) == Seq::<(u64, CacheEntry)>::empty(),
{
    c.clear()
}

} // verus!
