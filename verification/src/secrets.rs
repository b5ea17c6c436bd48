//! The two secrets from which tokens are made: the current one and the one
//! before it.

use vstd::prelude::*;
use crate::cache::HASH_LENGTH;

verus! {

/// The current secret and the previous one.
pub struct Secrets {
    a: [u8; HASH_LENGTH],
    b: [u8; HASH_LENGTH],
}

impl Secrets {
    /// The current secret.
    pub closed spec fn current(&self) -> [u8; HASH_LENGTH] {
        self.a
    }

    /// The secret before the current one.
    pub closed spec fn previous(&self) -> [u8; HASH_LENGTH] {
        self.b
    }

    /// The secrets `a`, the current one, and `b`, the one before.
    pub fn new(a: [u8; HASH_LENGTH], b: [u8; HASH_LENGTH]) -> (secrets: Self)
        ensures
            secrets.current() == a,
            secrets.previous() == b,
    {
        Secrets { a, b }
    }

    /// Makes `fresh` the current secret; the one that was current becomes the
    /// previous one, and the one that was previous is forgotten.
    pub fn rotate(&mut self, fresh: [u8; HASH_LENGTH])
        ensures
            final(self).current() == fresh,
            final(self).previous() == old(self).current(),
    {
        std::mem::swap(&mut self.a, &mut self.b);
        self.a = fresh;
    }

    /// The current secret.
    pub fn a(&self) -> (a: &[u8; HASH_LENGTH])
        ensures
            *a == self.current(),
    {
        &self.a
    }

    /// The secret before the current one.
    pub fn b(&self) -> (b: &[u8; HASH_LENGTH])
        ensures
            *b == self.previous(),
    {
        &self.b
    }
}

} // verus!
