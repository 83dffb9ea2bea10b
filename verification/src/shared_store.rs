//! The cross-process cache as one cached function uses it: how its region
//! is named, how a host hash becomes a key hash, and what becomes of a
//! result that is to be stored.

use crate::codec::u64_le;
use crate::shm::layout::header_at;
use crate::shm::state::same_params;
use crate::shm::model::{find_entry, model_insert};
use crate::shm::region::{region_contents, region_wf};
use crate::shm::{counted, ShmCache, ShmCacheInfo};
use std::collections::hash_map::DefaultHasher;
use std::hash::Hasher;
use crate::text::{decimal, hex16, push_decimal, push_hex16};
use vstd::prelude::*;
use vstd::std_specs::hash::DefaultHasherAdditionalSpecFns;
use vstd::string::StringExecFns;
use vstd::utf8::encode_utf8;

verus! {

/// The bytes that a slot has room for a key, unless the caller says
/// otherwise.
pub const DEFAULT_MAX_KEY_SIZE: u32 = 512;

/// The bytes that a slot has room for a value, unless the caller says
/// otherwise.
pub const DEFAULT_MAX_VALUE_SIZE: u32 = 4096;

/// The statistics of a shared cache, as the host sees them.
#[derive(Clone, Copy, Debug)]
pub struct SharedCacheInfo {
    pub hits: u64,
    pub misses: u64,
    pub max_size: usize,
    pub current_size: usize,
    pub oversize_skips: u64,
}

/// The description of the statistics `info`.
pub open spec fn shared_info_text(info: SharedCacheInfo) -> Seq<char> {
    "SharedCacheInfo(hits="@ + decimal(info.hits as nat) + ", misses="@ + decimal(
        info.misses as nat,
    ) + ", max_size="@ + decimal(info.max_size as nat) + ", current_size="@ + decimal(
        info.current_size as nat,
    ) + ", oversize_skips="@ + decimal(info.oversize_skips as nat) + ")"@
}

impl SharedCacheInfo {
    /// The description of the statistics: the name of the type and, in
    /// parentheses, each field with its decimal value.
    pub fn repr(&self) -> (text: String)
        ensures
            text@ == shared_info_text(*self),
    {
        let mut text = String::from_str("SharedCacheInfo(hits=");
        push_decimal(&mut text, self.hits);
        text.append(", misses=");
        push_decimal(&mut text, self.misses);
        text.append(", max_size=");
        push_decimal(&mut text, self.max_size as u64);
        text.append(", current_size=");
        push_decimal(&mut text, self.current_size as u64);
        text.append(", oversize_skips=");
        push_decimal(&mut text, self.oversize_skips);
        text.append(")");
        text
    }

    /// The statistics of the engine, field by field.
    pub fn from_info(info: ShmCacheInfo) -> (r: SharedCacheInfo)
        ensures
            r.hits == info.hits,
            r.misses == info.misses,
            r.max_size == info.max_size,
            r.current_size == info.current_size,
            r.oversize_skips == info.oversize_skips,
    {
        SharedCacheInfo {
            hits: info.hits,
            misses: info.misses,
            max_size: info.max_size,
            current_size: info.current_size,
            oversize_skips: info.oversize_skips,
        }
    }
}

/// The key hash that stands for the host hash `host_hash`: the hash of its
/// eight bytes, least significant first, under the default hasher of the
/// standard library.
pub open spec fn folded(host_hash: isize) -> u64 {
    DefaultHasher::spec_finish(seq![u64_le(host_hash as i64 as u64)])
}

/// Folds a host hash into the 64-bit key hash of the shared backend. The
/// same host hash gives the same key hash in every process.
pub fn fold_hash(host_hash: isize) -> (key_hash: u64)
    ensures
        key_hash == folded(host_hash),
{
    let v = host_hash as i64 as u64;
    let mut bytes: Vec<u8> = Vec::new();
    bytes.push((v & 0xff) as u8);
    bytes.push(((v >> 8) & 0xff) as u8);
    bytes.push(((v >> 16) & 0xff) as u8);
    bytes.push(((v >> 24) & 0xff) as u8);
    bytes.push(((v >> 32) & 0xff) as u8);
    bytes.push(((v >> 40) & 0xff) as u8);
    bytes.push(((v >> 48) & 0xff) as u8);
    bytes.push(((v >> 56) & 0xff) as u8);
    proof {
        let lo = v as u32;
        let hi = (v >> 32) as u32;
        assert((lo & 0xff) as u8 == (v & 0xff) as u8 && ((lo >> 8) & 0xff) as u8 == ((v >> 8)
            & 0xff) as u8 && ((lo >> 16) & 0xff) as u8 == ((v >> 16) & 0xff) as u8 && ((lo >> 24)
            & 0xff) as u8 == ((v >> 24) & 0xff) as u8 && (hi & 0xff) as u8 == ((v >> 32)
            & 0xff) as u8 && ((hi >> 8) & 0xff) as u8 == ((v >> 40) & 0xff) as u8 && ((hi >> 16)
            & 0xff) as u8 == ((v >> 48) & 0xff) as u8 && ((hi >> 24) & 0xff) as u8 == ((v >> 56)
            & 0xff) as u8) by (bit_vector)
            requires
                lo == v as u32,
                hi == (v >> 32) as u32,
        ;
        assert(bytes@ =~= u64_le(v));
    }
    let mut hasher = DefaultHasher::new();
    hasher.write(bytes.as_slice());
    proof {
        assert(hasher@ =~= seq![u64_le(v)]);
    }
    hasher.finish()
}

/// The hash that closes the name of a region: the hash of `module` and
/// `qualname` under the default hasher of the standard library.
pub open spec fn name_hash(module: Seq<char>, qualname: Seq<char>) -> u64 {
    DefaultHasher::spec_finish(
        seq![encode_utf8(module), seq![0xffu8], encode_utf8(qualname), seq![0xffu8]],
    )
}

/// The name of the region of the function `qualname` of `module`.
pub open spec fn shm_name(module: Seq<char>, qualname: Seq<char>) -> Seq<char> {
    "warp_cache_"@ + module + "_"@ + qualname + "_"@ + hex16(name_hash(module, qualname))
}

/// Derives the name of the region of a cached function from the module and
/// the qualified name of the function: `warp_cache_`, the module, `_`, the
/// qualified name, `_`, and the sixteen hexadecimal digits of a hash of
/// both. The same function gives the same name in every process.
pub fn derive_shm_name(module: &str, qualname: &str) -> (name: String)
    ensures
        name@ == shm_name(module@, qualname@),
{
    let mut hasher = DefaultHasher::new();
    let mark: [u8; 1] = [0xff];
    hasher.write(module.as_bytes());
    hasher.write(vstd::array::array_as_slice(&mark));
    hasher.write(qualname.as_bytes());
    hasher.write(vstd::array::array_as_slice(&mark));
    proof {
        assert(mark@ =~= seq![0xffu8]);
        assert(hasher@ =~= seq![
            encode_utf8(module@),
            seq![0xffu8],
            encode_utf8(qualname@),
            seq![0xffu8],
        ]);
    }
    let hash = hasher.finish();
    let mut name = String::from_str("warp_cache_");
    name.append(module);
    name.append("_");
    name.append(qualname);
    name.append("_");
    push_hex16(&mut name, hash);
    name
}

/// Stores a serialized result: an entry that is too long for a slot is
/// counted as skipped and not cached; any other entry is inserted. Returns
/// whether the entry was inserted. The caller holds the writer lock.
pub fn store_result(
    cache: &mut ShmCache,
    region: &mut [u8],
    now: u64,
    key_hash: u64,
    key_bytes: &[u8],
    value_bytes: &[u8],
) -> (stored: bool)
    requires
        region_wf(old(region)@),
    ensures
        final(region)@.len() == old(region)@.len(),
        region_wf(final(region)@),
        same_params(header_at(old(region)@), header_at(final(region)@)),
        ({
            let h = header_at(old(region)@);
            let h2 = header_at(final(region)@);
            let before = region_contents(old(region)@);
            let oversize = key_bytes@.len() > h.max_key_size || value_bytes@.len()
                > h.max_value_size;
            &&& stored == !oversize
            &&& h2.hits == h.hits && h2.misses == h.misses
            &&& h2.oversize_skips == (if oversize {
                counted(h.oversize_skips)
            } else {
                h.oversize_skips
            })
            &&& region_contents(final(region)@) == (if oversize {
                before
            } else {
                model_insert(
                    h.strategy,
                    h.capacity as nat,
                    before,
                    key_hash,
                    key_bytes@,
                    value_bytes@,
                    now,
                    old(cache).next_id(),
                )
            })
            &&& final(cache).next_id() == (if !oversize && find_entry(
                before,
                key_hash,
                key_bytes@,
            ).is_none() {
                counted(old(cache).next_id())
            } else {
                old(cache).next_id()
            })
        }),
{
    if cache.is_oversize(region, key_bytes, value_bytes) {
        cache.record_oversize_skip(region);
        false
    } else {
        cache.insert(region, now, key_hash, key_bytes, value_bytes);
        true
    }
}

} // verus!
