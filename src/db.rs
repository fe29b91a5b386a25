//! The key/value store: shards of hash maps, the cache that enforces capacity
//! on top of them, and the entries it keeps.
pub mod cache;
pub mod cmap;

use rustc_hash::FxHasher;
use std::hash::{Hash, Hasher};
use vstd::prelude::*;

verus! {

/// The 64-bit Fx hash of a key's bytes.
pub uninterp spec fn fx_hash(key: Seq<u8>) -> u64;

/// Relies on `rustc_hash::FxHasher`: a fresh hasher, fed one byte slice, yields
/// a hash that depends on those bytes alone (no random seed).
#[verifier::external_body]
pub fn calculate_hash(key: &[u8]) -> (r: u64)
    ensures
        r == fx_hash(key@),
{
    let mut hasher = FxHasher::default();
    key.hash(&mut hasher);
    hasher.finish()
}

/// A stored pair with the instant it expires at, in milliseconds on the
/// cache's clock.
pub struct CacheEntry {
    pub key: Vec<u8>,
    pub value: Vec<u8>,
    pub expiration_time: u64,
}

impl CacheEntry {
    pub fn new(key: &[u8], value: &[u8], expiration_time: u64) -> (r: CacheEntry)
        ensures
            r.key@ == key@,
            r.value@ == value@,
            r.expiration_time == expiration_time,
    {
        CacheEntry {
            key: vstd::slice::slice_to_vec(key),
            value: vstd::slice::slice_to_vec(value),
            expiration_time,
        }
    }

    /// An entry has expired once the clock reaches its expiration time.
    pub fn is_expired(&self, now: u64) -> (r: bool)
        ensures
            r == (now >= self.expiration_time),
    {
        now >= self.expiration_time
    }
}

} // verus!
