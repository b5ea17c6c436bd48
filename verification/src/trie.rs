//! The routing table as a mathematical object: a binary trie over identifier
//! bits whose leaves are buckets.

use vstd::prelude::*;
use crate::branch::{branch, follows, Direction};
use crate::bucket::{distinct, holds, lookup, offered, side_of, without, Selection};
use crate::contact::{key, Contact};

verus! {

/// A trie of buckets.
pub enum Trie<V> {
    /// A bucket: its contacts, oldest first, and whether it is frozen, that
    /// is, never to be split.
    Leaf { contacts: Seq<V>, dont_split: bool },
    /// A fork: `left` for identifiers whose bit at this depth is 0, `right`
    /// for those whose bit is 1.
    Inner { left: Box<Trie<V>>, right: Box<Trie<V>> },
}

/// Whether `contacts` can be the bucket at `path` in the table of the node
/// `local` with buckets of `capacity` contacts: at most `capacity` contacts,
/// of distinct identities as long as `local`, each of which takes every turn
/// of `path`.
pub open spec fn bucket_wf<V: Contact>(
    contacts: Seq<V>,
    local: Seq<u8>,
    capacity: nat,
    path: Seq<Direction>,
) -> bool {
    &&& contacts.len() <= capacity
    &&& distinct(contacts)
    &&& forall|i: int|
        0 <= i < contacts.len() ==> {
            &&& key(#[trigger] contacts[i]).len() == local.len()
            &&& follows(key(contacts[i]), path)
        }
}

/// The number of bits that identifiers of `width` bytes have at and below
/// depth `bit_index`.
pub open spec fn bits_left(width: nat, bit_index: nat) -> nat {
    if bit_index < 8 * width {
        (8 * width - bit_index) as nat
    } else {
        0
    }
}

/// The two buckets that a bucket at depth `bit_index` splits into. The one on
/// the side that the local identifier does not take is frozen.
pub open spec fn split_spec<V: Contact>(contacts: Seq<V>, local: Seq<u8>, bit_index: nat) -> Trie<V> {
    Trie::Inner {
        left: Box::new(
            Trie::Leaf {
                contacts: side_of(contacts, bit_index, Direction::Left),
                dont_split: branch(local, bit_index) == Direction::Right,
            },
        ),
        right: Box::new(
            Trie::Leaf {
                contacts: side_of(contacts, bit_index, Direction::Right),
                dont_split: branch(local, bit_index) == Direction::Left,
            },
        ),
    }
}

impl<V: Contact> Trie<V> {
    /// The trie that a new routing table starts with: one empty bucket that
    /// may be split.
    pub open spec fn fresh() -> Trie<V> {
        Trie::Leaf { contacts: Seq::empty(), dont_split: false }
    }

    /// The number of contacts in all buckets.
    pub open spec fn len(self) -> nat
        decreases self,
    {
        match self {
            Trie::Leaf { contacts, .. } => contacts.len(),
            Trie::Inner { left, right } => left.len() + right.len(),
        }
    }

    /// The number of nodes, forks and buckets alike.
    pub open spec fn nodes(self) -> nat
        decreases self,
    {
        match self {
            Trie::Leaf { .. } => 1,
            Trie::Inner { left, right } => 1 + left.nodes() + right.nodes(),
        }
    }

    /// All contacts, in the order in which the table is walked: at a fork the
    /// right side first, and each bucket oldest first.
    pub open spec fn contacts(self) -> Seq<V>
        decreases self,
    {
        match self {
            Trie::Leaf { contacts, .. } => contacts,
            Trie::Inner { left, right } => right.contacts() + left.contacts(),
        }
    }

    /// The subtrie reached from here by `path`, if the trie goes that deep.
    pub open spec fn at(self, path: Seq<Direction>) -> Option<Trie<V>>
        decreases path.len(),
    {
        if path.len() == 0 {
            Some(self)
        } else {
            match self {
                Trie::Leaf { .. } => None,
                Trie::Inner { left, right } => match path[0] {
                    Direction::Left => left.at(path.skip(1)),
                    Direction::Right => right.at(path.skip(1)),
                },
            }
        }
    }

    /// The bucket that owns `id`: the leaf reached by turning as the bits of
    /// `id` say, starting with bit `bit_index` here.
    pub open spec fn bucket(self, id: Seq<u8>, bit_index: nat) -> Seq<V>
        decreases self,
    {
        match self {
            Trie::Leaf { contacts, .. } => contacts,
            Trie::Inner { left, right } => match branch(id, bit_index) {
                Direction::Left => left.bucket(id, bit_index + 1),
                Direction::Right => right.bucket(id, bit_index + 1),
            },
        }
    }

    /// The path from the root to the bucket that owns `id`, where this node
    /// stands at `path`.
    pub open spec fn bucket_path(self, id: Seq<u8>, path: Seq<Direction>) -> Seq<Direction>
        decreases self,
    {
        match self {
            Trie::Leaf { .. } => path,
            Trie::Inner { left, right } => match branch(id, path.len()) {
                Direction::Left => left.bucket_path(id, path.push(Direction::Left)),
                Direction::Right => right.bucket_path(id, path.push(Direction::Right)),
            },
        }
    }

    /// Whether one bucket owns both `id` and `other`.
    pub open spec fn same_bucket(self, id: Seq<u8>, other: Seq<u8>, bit_index: nat) -> bool
        decreases self,
    {
        match self {
            Trie::Leaf { .. } => true,
            Trie::Inner { left, right } => branch(id, bit_index) == branch(other, bit_index) && (
            match branch(id, bit_index) {
                Direction::Left => left.same_bucket(id, other, bit_index + 1),
                Direction::Right => right.same_bucket(id, other, bit_index + 1),
            }),
        }
    }

    /// The trie with `contacts` in the bucket that owns `id`.
    pub open spec fn with_bucket(self, id: Seq<u8>, bit_index: nat, contacts: Seq<V>) -> Trie<V>
        decreases self,
    {
        match self {
            Trie::Leaf { dont_split, .. } => Trie::Leaf { contacts, dont_split },
            Trie::Inner { left, right } => match branch(id, bit_index) {
                Direction::Left => Trie::Inner {
                    left: Box::new(left.with_bucket(id, bit_index + 1, contacts)),
                    right,
                },
                Direction::Right => Trie::Inner {
                    left,
                    right: Box::new(right.with_bucket(id, bit_index + 1, contacts)),
                },
            },
        }
    }

    /// The contact of identity `id`, if the table has one.
    pub open spec fn get(self, id: Seq<u8>, bit_index: nat) -> Option<V> {
        lookup(self.bucket(id, bit_index), id)
    }

    /// The trie without the contact of identity `id`. Forks stay, also where
    /// both sides are empty.
    pub open spec fn remove(self, id: Seq<u8>, bit_index: nat) -> Trie<V> {
        self.with_bucket(id, bit_index, without(self.bucket(id, bit_index), id))
    }

    /// The trie after the bucket that owns `id` has been split as often as it
    /// takes to make room for `id`: while the bucket is full, is not frozen,
    /// does not hold `id` already and a bit is left to split on.
    pub open spec fn make_room(
        self,
        local: Seq<u8>,
        capacity: nat,
        id: Seq<u8>,
        bit_index: nat,
    ) -> Trie<V>
        decreases bits_left(local.len(), bit_index), self,
    {
        match self {
            Trie::Leaf { contacts, dont_split } => {
                if holds(contacts, id) || contacts.len() < capacity || dont_split || bit_index >= 8
                    * local.len() {
                    self
                } else {
                    let left = Trie::Leaf {
                        contacts: side_of(contacts, bit_index, Direction::Left),
                        dont_split: branch(local, bit_index) == Direction::Right,
                    };
                    let right = Trie::Leaf {
                        contacts: side_of(contacts, bit_index, Direction::Right),
                        dont_split: branch(local, bit_index) == Direction::Left,
                    };
                    match branch(id, bit_index) {
                        Direction::Left => Trie::Inner {
                            left: Box::new(left.make_room(local, capacity, id, bit_index + 1)),
                            right: Box::new(right),
                        },
                        Direction::Right => Trie::Inner {
                            left: Box::new(left),
                            right: Box::new(right.make_room(local, capacity, id, bit_index + 1)),
                        },
                    }
                }
            },
            Trie::Inner { left, right } => match branch(id, bit_index) {
                Direction::Left => Trie::Inner {
                    left: Box::new(left.make_room(local, capacity, id, bit_index + 1)),
                    right,
                },
                Direction::Right => Trie::Inner {
                    left,
                    right: Box::new(right.make_room(local, capacity, id, bit_index + 1)),
                },
            },
        }
    }

    /// The bucket in which `id` is taken up or turned away: the one that owns
    /// it once room has been made.
    pub open spec fn landing(
        self,
        local: Seq<u8>,
        capacity: nat,
        id: Seq<u8>,
        bit_index: nat,
    ) -> Seq<V> {
        self.make_room(local, capacity, id, bit_index).bucket(id, bit_index)
    }

    /// The trie after `candidate` has been added: room is made for its
    /// identity, and it is offered to the bucket that then owns it.
    pub open spec fn add(
        self,
        local: Seq<u8>,
        capacity: nat,
        candidate: V,
        selection: Selection,
        bit_index: nat,
    ) -> Trie<V> {
        let id = key(candidate);
        self.make_room(local, capacity, id, bit_index).with_bucket(
            id,
            bit_index,
            offered(self.landing(local, capacity, id, bit_index), candidate, selection, capacity),
        )
    }

    /// The candidates for the contacts nearest to `target`: `found`, and the
    /// buckets of this trie in the order in which the bits of `target` lead
    /// to them, the side that `target` turns to before the other, up to and
    /// with the bucket that brings the count to `limit`.
    pub open spec fn gather(
        self,
        target: Seq<u8>,
        limit: Option<nat>,
        bit_index: nat,
        found: Seq<V>,
    ) -> Seq<V>
        decreases self,
    {
        if limit is Some && found.len() >= limit->0 {
            found
        } else {
            match self {
                Trie::Leaf { contacts, .. } => found + contacts,
                Trie::Inner { left, right } => match branch(target, bit_index) {
                    Direction::Left => right.gather(
                        target,
                        limit,
                        bit_index + 1,
                        left.gather(target, limit, bit_index + 1, found),
                    ),
                    Direction::Right => left.gather(
                        target,
                        limit,
                        bit_index + 1,
                        right.gather(target, limit, bit_index + 1, found),
                    ),
                },
            }
        }
    }

    /// Whether this is a well-formed subtrie at `path` of the table of the
    /// node `local` with buckets of `capacity` contacts.
    ///
    /// A bucket is one that can stand at `path`, and it is frozen exactly if
    /// `local` does not take every turn of `path`. A fork lies on the path of
    /// `local`, at a depth where identifiers still have a bit.
    pub open spec fn wf(self, local: Seq<u8>, capacity: nat, path: Seq<Direction>) -> bool
        decreases self,
    {
        match self {
            Trie::Leaf { contacts, dont_split } => {
                &&& bucket_wf(contacts, local, capacity, path)
                &&& dont_split == !follows(local, path)
            },
            Trie::Inner { left, right } => {
                &&& follows(local, path)
                &&& path.len() < 8 * local.len()
                &&& left.wf(local, capacity, path.push(Direction::Left))
                &&& right.wf(local, capacity, path.push(Direction::Right))
            },
        }
    }
}

} // verus!
