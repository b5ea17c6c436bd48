//! The values that peers have announced, one for each key.

use vstd::prelude::*;
use lru::LruCache;
use crate::cache::{
    fits, new_value_cache, value_cache_cap, value_cache_len, value_keys, value_limit, ConfigError,
};

verus! {

/// An announced value: who announced it, under which token, and the value.
pub struct Value {
    id: [u8; 20],
    token: Vec<u8>,
    v: Vec<u8>,
}

/// The announced values, least recently used first to go.
pub struct Values(LruCache<[u8; 20], Value>);

impl Values {
    /// The keys of the values held.
    pub closed spec fn keys(&self) -> Set<Seq<u8>> {
        value_keys(self.0)
    }

    /// The most values held at a time.
    pub closed spec fn limit(&self) -> nat {
        value_limit(self.0)
    }

    /// Makes an empty store that holds at most `max` values. A `max` of 0 is
    /// rejected.
    pub fn new(max: usize) -> (values: Result<Self, ConfigError>)
        requires
            max == 0 || fits(max),
        ensures
            max == 0 <==> values is Err,
            values matches Ok(values) ==> values.keys() == Set::<Seq<u8>>::empty()
                && values.limit() == max,
    {
        if max == 0 {
            return Err(ConfigError::ZeroCapacity);
        }
        Ok(Values(new_value_cache(max)))
    }

    /// The number of values held.
    pub fn len(&self) -> (len: usize)
        ensures
            len == self.keys().len(),
    {
        value_cache_len(&self.0)
    }

    /// The most values held at a time.
    pub fn capacity(&self) -> (capacity: usize)
        ensures
            capacity == self.limit(),
    {
        value_cache_cap(&self.0)
    }
}

} // verus!
