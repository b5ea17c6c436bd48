//! The bounded least-recently-used caches that the node keeps, and what the
//! library takes on trust of them.

use vstd::prelude::*;
use lru::{DefaultHasher, LruCache};
use std::num::NonZeroUsize;
use crate::kbucket::Kbucket;
use crate::tables::Contact;
use crate::values::Value;

verus! {

/// The length of a key, an info-hash, in bytes.
pub const HASH_LENGTH: usize = 20;

/// `lru::LruCache`, which Verus does not look into.
#[verifier::external_type_specification]
#[verifier::external_body]
#[verifier::reject_recursive_types(K)]
#[verifier::reject_recursive_types(V)]
#[verifier::reject_recursive_types(S)]
pub struct ExLruCache<K, V, S>(LruCache<K, V, S>);

/// The hasher that `lru::LruCache` uses unless told otherwise, which Verus
/// does not look into.
#[verifier::external_type_specification]
#[verifier::external_body]
pub struct ExDefaultHasher(DefaultHasher);

/// The problems that a configuration can have.
#[derive(Clone, Copy, Debug, PartialEq, Eq, Structural)]
pub enum ConfigError {
    /// A cache was asked to hold no entry at all.
    ZeroCapacity,
}

/// The keys that a cache of routing tables holds.
pub uninterp spec fn table_keys(cache: LruCache<[u8; 20], Kbucket<[u8; 20], Contact>>) -> Set<Seq<u8>>;

/// The most entries that a cache of routing tables was made to hold.
pub uninterp spec fn table_limit(cache: LruCache<[u8; 20], Kbucket<[u8; 20], Contact>>) -> nat;

/// The keys that a cache of values holds.
pub uninterp spec fn value_keys(cache: LruCache<[u8; 20], Value>) -> Set<Seq<u8>>;

/// The most entries that a cache of values was made to hold.
pub uninterp spec fn value_limit(cache: LruCache<[u8; 20], Value>) -> nat;

/// Whether a cache for `max` entries can be laid out in memory. The table of
/// the cache is reserved at once, two words to an entry and one byte, for up
/// to three times as many entries as asked for: with at most
/// `usize::MAX / 128` entries its size stays below `isize::MAX`.
pub open spec fn fits(max: usize) -> bool {
    0 < max <= usize::MAX / 128
}

/// `LruCache::new` for routing tables: the new cache holds nothing and is
/// bounded by `max`. The call reserves the table for `max` entries, and
/// panics where its size in bytes overflows; `fits` leaves those out. As with
/// any allocation, nothing is said of a machine that has not the memory.
#[verifier::external_body]
pub(crate) fn new_table_cache(max: usize) -> (cache: LruCache<[u8; 20], Kbucket<[u8; 20], Contact>>)
    requires
        fits(max),
    ensures
        table_keys(cache) == Set::<Seq<u8>>::empty(),
        table_limit(cache) == max,
{
    LruCache::new(NonZeroUsize::new(max).unwrap())
}

/// `LruCache::len` for routing tables: the number of keys held.
#[verifier::external_body]
pub(crate) fn table_cache_len(cache: &LruCache<[u8; 20], Kbucket<[u8; 20], Contact>>) -> (count: usize)
    ensures
        count == table_keys(*cache).len(),
{
    cache.len()
}

/// `LruCache::cap` for routing tables: the bound that the cache was made
/// with.
#[verifier::external_body]
pub(crate) fn table_cache_cap(cache: &LruCache<[u8; 20], Kbucket<[u8; 20], Contact>>) -> (cap: usize)
    ensures
        cap == table_limit(*cache),
{
    cache.cap().get()
}

/// `LruCache::new` for values: the new cache holds nothing and is bounded by
/// `max`. The call reserves the table for `max` entries, and panics where its
/// size in bytes overflows; `fits` leaves those out. As with any allocation,
/// nothing is said of a machine that has not the memory.
#[verifier::external_body]
pub(crate) fn new_value_cache(max: usize) -> (cache: LruCache<[u8; 20], Value>)
    requires
        fits(max),
    ensures
        value_keys(cache) == Set::<Seq<u8>>::empty(),
        value_limit(cache) == max,
{
    LruCache::new(NonZeroUsize::new(max).unwrap())
}

/// `LruCache::len` for values: the number of keys held.
#[verifier::external_body]
pub(crate) fn value_cache_len(cache: &LruCache<[u8; 20], Value>) -> (count: usize)
    ensures
        count == value_keys(*cache).len(),
{
    cache.len()
}

/// `LruCache::cap` for values: the bound that the cache was made with.
#[verifier::external_body]
pub(crate) fn value_cache_cap(cache: &LruCache<[u8; 20], Value>) -> (cap: usize)
    ensures
        cap == value_limit(*cache),
{
    cache.cap().get()
}

} // verus!
