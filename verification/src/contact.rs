//! What the routing table asks of the peers it stores.

use vstd::prelude::*;
use crate::distance::{xor_distance, xor_distance_spec};
use crate::identifier::Identifier;

verus! {

/// A peer that the routing table can hold.
///
/// The identity is fixed: it places the contact in the trie. The distance and
/// the replacement policy are hooks with defaults, and a contact type may
/// supply its own; the table states what it does for whatever they answer.
pub trait Contact: PartialEq + std::fmt::Debug {
    /// The type of the identifiers of such contacts.
    type Id: Identifier;

    /// The identity of this contact: what `id` borrows. Each contact type
    /// says what it is; the body here stands for no identity in particular.
    open spec fn identity(&self) -> Self::Id {
        arbitrary()
    }

    /// Borrows the identity of this contact.
    fn id(&self) -> (id: &Self::Id)
        ensures
            *id == self.identity(),
    ;

    /// The distance from this contact to `other_id`; by default the XOR metric.
    fn distance(&self, other_id: &Self::Id) -> (distance: usize)
        default_ensures
            distance == xor_distance_spec(self.identity().bytes(), other_id.bytes()),
    {
        xor_distance(self.id().as_bytes(), other_id.as_bytes())
    }

    /// Returns `true` if `other` should replace `self`; by default always.
    fn should_replace(&self, other: &Self) -> (replace: bool)
        default_ensures
            replace,
    {
        true
    }
}

/// The bytes of the identity of a contact.
pub open spec fn key<V: Contact>(contact: V) -> Seq<u8> {
    contact.identity().bytes()
}

/// A bare identifier of fixed width is a contact that knows nothing but its
/// identity.
impl<const N: usize> Contact for [u8; N] {
    type Id = [u8; N];

    open spec fn identity(&self) -> [u8; N] {
        *self
    }

    fn id(&self) -> (id: &[u8; N]) {
        self
    }
}

} // verus!
