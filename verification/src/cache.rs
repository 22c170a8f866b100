//! The hash map that keeps subtree hashes by routing prefix.
use crate::types::H256;
use rustc_hash::{FxBuildHasher, FxHashMap};
use vstd::prelude::*;

verus! {

/// The hasher of `FxHashMap`.
#[verifier::external_type_specification]
#[verifier::external_body]
pub struct ExFxBuildHasher(FxBuildHasher);

/// Cached subtree hashes, keyed by a node's routing nibble prefix.
pub type Cache = FxHashMap<Vec<u8>, H256>;

/// What a cache holds.
pub uninterp spec fn cached(c: Cache) -> Map<Seq<u8>, Seq<u8>>;

/// The contents of an empty cache.
pub open spec fn no_hashes() -> Map<Seq<u8>, Seq<u8>> {
    Map::empty()
}

/// `FxHashMap::default`: an empty map.
#[verifier::external_body]
pub(crate) fn cache_new() -> (r: Cache)
    ensures
        cached(r) == no_hashes(),
{
    FxHashMap::default()
}

/// `HashMap::get`: a copy of the hash stored under `key`, if there is one.
#[verifier::external_body]
pub(crate) fn cache_get(c: &Cache, key: &[u8]) -> (r: Option<H256>)
    ensures
        match r {
            Some(h) => cached(*c).contains_key(key@) && h@ == cached(*c)[key@],
            None => !cached(*c).contains_key(key@),
        },
{
    c.get(key).copied()
}

/// `HashMap::insert`: stores `hash` under `key`, replacing what was there.
#[verifier::external_body]
pub(crate) fn cache_insert(c: &mut Cache, key: Vec<u8>, hash: H256)
    ensures
        cached(*final(c)) == cached(*old(c)).insert(key@, hash@),
{
    c.insert(key, hash);
}

/// `HashMap::remove`: drops what is stored under `key`.
#[verifier::external_body]
pub(crate) fn cache_remove(c: &mut Cache, key: &[u8])
    ensures
        cached(*final(c)) == cached(*old(c)).remove(key@),
{
    c.remove(key);
}

/// `HashMap::clear`: drops everything.
#[verifier::external_body]
pub(crate) fn cache_clear(c: &mut Cache)
    ensures
        cached(*final(c)) == no_hashes(),
{
    c.clear();
}

/// `HashMap::is_empty`: whether nothing is stored.
#[verifier::external_body]
pub(crate) fn cache_is_empty(c: &Cache) -> (r: bool)
    ensures
        r == (cached(*c) == no_hashes()),
{
    c.is_empty()
}

} // verus!
