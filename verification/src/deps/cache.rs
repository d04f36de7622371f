//! A cache that knows what was used last, by the `lru` crate.

use vstd::prelude::*;

use crate::deps::shared::bytes_in;

verus! {

/// The cache of the `lru` crate.
#[verifier::external_type_specification]
#[verifier::external_body]
#[verifier::reject_recursive_types(K)]
#[verifier::reject_recursive_types(V)]
#[verifier::reject_recursive_types(S)]
pub struct ExLruCache<K, V, S>(lru::LruCache<K, V, S>);

/// The hasher that a cache takes where none is named.
#[verifier::external_type_specification]
#[verifier::external_body]
pub struct ExDefaultHasher(lru::DefaultHasher);

/// What a cache holds, what was used last first.
pub uninterp spec fn cached(cache: lru::LruCache<(u128, u32), bytes::Bytes>) -> Seq<
    ((u128, u32), Seq<u8>),
>;

/// Whether a cache drops nothing by itself, however much it holds.
pub uninterp spec fn never_evicts(cache: lru::LruCache<(u128, u32), bytes::Bytes>) -> bool;

/// Where a key stands.
pub open spec fn is_at(held: Seq<((u128, u32), Seq<u8>)>, key: (u128, u32), i: int) -> bool {
    0 <= i < held.len() && held[i].0 == key
}

/// Whether a key is held.
pub open spec fn is_cached(held: Seq<((u128, u32), Seq<u8>)>, key: (u128, u32)) -> bool {
    exists|i: int| is_at(held, key, i)
}

/// What is held under a key that is.
pub open spec fn cached_under(held: Seq<((u128, u32), Seq<u8>)>, key: (u128, u32)) -> Seq<u8> {
    held[choose|i: int| is_at(held, key, i)].1
}

/// What is held but for one key.
pub open spec fn all_but(held: Seq<((u128, u32), Seq<u8>)>, key: (u128, u32)) -> Seq<
    ((u128, u32), Seq<u8>),
> {
    held.filter(|item: ((u128, u32), Seq<u8>)| item.0 != key)
}

/// Calls `LruCache::unbounded`: a cache with nothing in it, which drops nothing
/// by itself.
#[verifier::external_body]
pub(crate) fn new_cache() -> (cache: lru::LruCache<(u128, u32), bytes::Bytes>)
    ensures
        cached(cache) == Seq::<((u128, u32), Seq<u8>)>::empty(),
        never_evicts(cache),
{
    lru::LruCache::unbounded()
}

/// Calls `LruCache::get`: what is held under a key, which moves to the front.
#[verifier::external_body]
pub(crate) fn cache_get(
    cache: &mut lru::LruCache<(u128, u32), bytes::Bytes>,
    key: (u128, u32),
) -> (hit: Option<bytes::Bytes>)
    ensures
        match hit {
            Some(bytes) => {
                &&& is_cached(cached(*old(cache)), key)
                &&& bytes_in(bytes) == cached_under(cached(*old(cache)), key)
                &&& cached(*final(cache)) == seq![(key, bytes_in(bytes))] + all_but(
                    cached(*old(cache)),
                    key,
                )
            },
            None => {
                &&& !is_cached(cached(*old(cache)), key)
                &&& cached(*final(cache)) == cached(*old(cache))
            },
        },
        never_evicts(*final(cache)) == never_evicts(*old(cache)),
{
    cache.get(&key).cloned()
}

/// Calls `LruCache::put` on a cache that drops nothing by itself: the bytes
/// stand in front, in place of what was held under the key, which comes back.
#[verifier::external_body]
pub(crate) fn cache_put(
    cache: &mut lru::LruCache<(u128, u32), bytes::Bytes>,
    key: (u128, u32),
    bytes: bytes::Bytes,
) -> (before: Option<bytes::Bytes>)
    requires
        never_evicts(*old(cache)),
    ensures
        never_evicts(*final(cache)),
        cached(*final(cache)) == seq![(key, bytes_in(bytes))] + all_but(cached(*old(cache)), key),
        match before {
            Some(before) => {
                &&& is_cached(cached(*old(cache)), key)
                &&& bytes_in(before) == cached_under(cached(*old(cache)), key)
            },
            None => !is_cached(cached(*old(cache)), key),
        },
{
    cache.put(key, bytes)
}

/// Calls `LruCache::pop_lru`: what was used longest ago leaves.
#[verifier::external_body]
pub(crate) fn cache_pop(cache: &mut lru::LruCache<(u128, u32), bytes::Bytes>) -> (oldest: Option<
    ((u128, u32), bytes::Bytes),
>)
    ensures
        match oldest {
            Some(oldest) => {
                &&& cached(*old(cache)).len() > 0
                &&& (oldest.0, bytes_in(oldest.1)) == cached(*old(cache)).last()
                &&& cached(*final(cache)) == cached(*old(cache)).drop_last()
            },
            None => {
                &&& cached(*old(cache)).len() == 0
                &&& cached(*final(cache)) == cached(*old(cache))
            },
        },
        never_evicts(*final(cache)) == never_evicts(*old(cache)),
{
    cache.pop_lru()
}

} // verus!
