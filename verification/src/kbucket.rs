//! The routing table of a node: the contacts it knows, in buckets that are
//! the finer the closer they are to the node itself.

use vstd::prelude::*;
use crate::branch::{determine_node, Direction};
use crate::bucket::{index_of, lemma_index_of, Selection};
use crate::contact::{key, Contact};
use crate::identifier::{same_bytes, Identifier};
use crate::iter::{count, Iter};
use crate::laws::lemma_nearest;
use crate::nearest::{nearest, nearest_spec};
use crate::node::{borrowed, limit_of, Node, MAX_ID_BYTES};
use crate::notification::Notification;
use crate::trie::Trie;

verus! {

/// The number of contacts that a bucket holds unless the table is made with
/// another.
pub const DEFAULT_NODES_PER_KBUCKET: usize = 20;

/// The number of contacts to probe when a full bucket turns one away, unless
/// the table is made with another.
pub const DEFAULT_NODES_TO_PING: usize = 3;

/// A routing table as a mathematical object.
pub struct Routing<V> {
    /// The identifier of the node that the table belongs to.
    pub local: Seq<u8>,
    /// The most contacts that a bucket holds.
    pub capacity: nat,
    /// The number of contacts to probe when a full bucket turns one away.
    pub ping_count: nat,
    /// The buckets.
    pub trie: Trie<V>,
}

impl<V: Contact> Routing<V> {
    /// Whether the table is well formed: the bits of its identifier can be
    /// counted in a `u32`, and its trie is well formed from the root.
    pub open spec fn wf(self) -> bool {
        &&& self.local.len() <= MAX_ID_BYTES
        &&& self.trie.wf(self.local, self.capacity, Seq::empty())
    }

    /// Whether `candidate` can be offered to the table: its identifier is as
    /// long as the table's own, and it is not that very identifier where the
    /// buckets hold nothing. (Such a table splits on the way to any
    /// identifier, and on the way to its own it runs out of bits.)
    pub open spec fn admits(self, candidate: V) -> bool {
        &&& key(candidate).len() == self.local.len()
        &&& self.capacity > 0 || key(candidate) != self.local
    }

    /// Whether the table can be searched for `id`: it is no shorter than the
    /// table's own identifier, so that it has a bit at every fork.
    pub open spec fn reaches(self, id: Seq<u8>) -> bool {
        id.len() >= self.local.len()
    }

    /// The number of contacts.
    pub open spec fn len(self) -> nat {
        self.trie.len()
    }

    /// All contacts, in the order in which the table is walked.
    pub open spec fn contacts(self) -> Seq<V> {
        self.trie.contacts()
    }

    /// The contact of identity `id`, if there is one.
    pub open spec fn get(self, id: Seq<u8>) -> Option<V> {
        self.trie.get(id, 0)
    }

    /// The bucket in which `id` is taken up or turned away.
    pub open spec fn landing(self, id: Seq<u8>) -> Seq<V> {
        self.trie.landing(self.local, self.capacity, id, 0)
    }

    /// The table after `candidate` has been added, where `selection` is how
    /// an incumbent of its identity is settled with.
    pub open spec fn add(self, candidate: V, selection: Selection) -> Routing<V> {
        Routing { trie: self.trie.add(self.local, self.capacity, candidate, selection, 0), ..self }
    }

    /// The table without the contact of identity `id`.
    pub open spec fn remove(self, id: Seq<u8>) -> Routing<V> {
        Routing { trie: self.trie.remove(id, 0), ..self }
    }

    /// The candidates for the contacts nearest to `target`, gathered until
    /// there are `limit` of them.
    pub open spec fn candidates(self, target: Seq<u8>, limit: Option<nat>) -> Seq<V> {
        self.trie.gather(target, limit, 0, Seq::empty())
    }
}

/// Whether `distances` holds, for each of `contacts`, a distance that the
/// contact may give to `target`.
pub open spec fn measured<V: Contact>(contacts: Seq<V>, target: V::Id, distances: Seq<usize>) -> bool {
    &&& distances.len() == contacts.len()
    &&& forall|i: int|
        0 <= i < contacts.len() ==> call_ensures(
            V::distance,
            (&contacts[i], &target),
            #[trigger] distances[i],
        )
}

/// A routing table.
#[verifier::reject_recursive_types(I)]
#[derive(Debug)]
pub struct Kbucket<I: Identifier, V: Contact<Id = I>> {
    node_id: I,
    nodes_per_kbucket: usize,
    nodes_to_ping: usize,
    root: Node<V>,
}

impl<I: Identifier, V: Contact<Id = I>> View for Kbucket<I, V> {
    type V = Routing<V>;

    closed spec fn view(&self) -> Routing<V> {
        Routing {
            local: self.node_id.bytes(),
            capacity: self.nodes_per_kbucket as nat,
            ping_count: self.nodes_to_ping as nat,
            trie: self.root@,
        }
    }
}

impl<I: Identifier, V: Contact<Id = I>> Kbucket<I, V> {
    /// Whether the table is well formed.
    pub open spec fn wf(&self) -> bool {
        self@.wf()
    }

    /// Makes the empty routing table of the node `node_id`, with buckets of
    /// `nodes_per_kbucket` contacts (20 if `None`) and `nodes_to_ping`
    /// contacts to probe (3 if `None`).
    pub fn new(node_id: I, nodes_per_kbucket: Option<usize>, nodes_to_ping: Option<usize>) -> (table:
        Self)
        ensures
            table@ == (Routing::<V> {
                local: node_id.bytes(),
                capacity: match nodes_per_kbucket {
                    Some(n) => n as nat,
                    None => DEFAULT_NODES_PER_KBUCKET as nat,
                },
                ping_count: match nodes_to_ping {
                    Some(n) => n as nat,
                    None => DEFAULT_NODES_TO_PING as nat,
                },
                trie: Trie::fresh(),
            }),
            table.wf() <==> node_id.bytes().len() <= MAX_ID_BYTES,
    {
        let nodes_per_kbucket = match nodes_per_kbucket {
            Some(n) => n,
            None => DEFAULT_NODES_PER_KBUCKET,
        };
        let nodes_to_ping = match nodes_to_ping {
            Some(n) => n,
            None => DEFAULT_NODES_TO_PING,
        };
        Self {
            node_id,
            nodes_per_kbucket,
            nodes_to_ping,
            root: Node::Leaf { contacts: Vec::new(), dont_split: false },
        }
    }

    /// Adds `contact`, and tells what became of it.
    ///
    /// The bucket that owns its identity is split while it is full, may be
    /// split and does not hold that identity. Then an incumbent of the same
    /// identity is settled with; a new identity is stored as the youngest of
    /// its bucket if there is room, and turned away with a request to probe
    /// the oldest contacts of the bucket if there is none.
    pub fn add(&mut self, contact: V) -> (notification: Notification<V>)
        requires
            old(self).wf(),
            old(self)@.admits(contact),
        ensures
            final(self).wf(),
            final(self)@ == old(self)@.add(contact, notification.selection()),
            notification.reports(
                old(self)@.landing(key(contact)),
                contact,
                old(self)@.capacity,
                old(self)@.ping_count,
            ),
    {
        self.root.add(
            &self.node_id,
            self.nodes_per_kbucket,
            self.nodes_to_ping,
            contact,
            0,
            Ghost(Seq::empty()),
        )
    }

    /// Removes contact with the provided id, and returns it.
    pub fn remove(&mut self, id: I) -> (removed: Option<V>)
        requires
            old(self).wf(),
            old(self)@.reaches(id.bytes()),
        ensures
            final(self).wf(),
            final(self)@ == old(self)@.remove(id.bytes()),
            removed == old(self)@.get(id.bytes()),
    {
        self.root.remove(
            &id,
            0,
            Ghost(self.node_id.bytes()),
            Ghost(self.nodes_per_kbucket as nat),
            Ghost(Seq::empty()),
        )
    }

    /// Get a contact by its exact ID.
    pub fn get(&self, id: I) -> (found: Option<&V>)
        requires
            self.wf(),
            self@.reaches(id.bytes()),
        ensures
            match found {
                Some(contact) => self@.get(id.bytes()) == Some(*contact),
                None => self@.get(id.bytes()) is None,
            },
    {
        let mut bit_index: u32 = 0;
        let mut node = &self.root;
        let ghost mut path: Seq<Direction> = Seq::empty();
        loop
            invariant
                self.node_id.bytes().len() <= MAX_ID_BYTES,
                id.bytes().len() >= self.node_id.bytes().len(),
                node@.wf(self.node_id.bytes(), self.nodes_per_kbucket as nat, path),
                path.len() == bit_index,
                node@.bucket(id.bytes(), bit_index as nat) == self.root@.bucket(id.bytes(), 0),
            decreases node@.nodes(),
        {
            match node {
                Node::Inner { left, right } => {
                    node =
                    match determine_node(&id, bit_index) {
                        Direction::Left => {
                            proof {
                                path = path.push(Direction::Left);
                            }
                            &**left
                        },
                        Direction::Right => {
                            proof {
                                path = path.push(Direction::Right);
                            }
                            &**right
                        },
                    };
                    bit_index += 1;
                },
                Node::Leaf { contacts, .. } => {
                    proof {
                        lemma_index_of(contacts@, id.bytes());
                    }
                    return match index_of(contacts.as_slice(), &id) {
                        Some(index) => Some(&contacts[index]),
                        None => None,
                    };
                },
            }
        }
    }

    /// Counts the total number of contacts in the tree.
    pub fn len(&self) -> (len: usize)
        requires
            self@.len() <= usize::MAX,
        ensures
            len == self@.len(),
    {
        count(&self.root)
    }

    /// Get the n closest contacts to the provided node id. "Closest" here
    /// means: closest according to the distance that each contact gives.
    ///
    /// Buckets are gathered in the order in which the bits of `id` lead to
    /// them until `n` candidates are there; the candidates are put in
    /// ascending order of distance, and the first `n` of them are returned.
    /// With `None` for `n`, all contacts are returned in that order.
    pub fn closest(&self, id: I, n: Option<usize>) -> (closest: Vec<&V>)
        requires
            self.wf(),
            self@.reaches(id.bytes()),
        ensures
            exists|distances: Seq<usize>|
                {
                    &&& #[trigger] measured(
                        self@.candidates(id.bytes(), limit_of(n)),
                        id,
                        distances,
                    )
                    &&& borrowed(closest@) == nearest_spec(
                        self@.candidates(id.bytes(), limit_of(n)),
                        distances,
                        limit_of(n),
                    )
                },
            n matches Some(limit) ==> closest@.len() <= limit,
            closest@.len() <= self@.candidates(id.bytes(), limit_of(n)).len(),
    {
        let mut contacts: Vec<&V> = Vec::new();
        proof {
            assert(borrowed(contacts@) =~= Seq::<V>::empty());
        }
        self.root.gather(
            &id,
            n,
            0,
            &mut contacts,
            Ghost(self.node_id.bytes()),
            Ghost(self.nodes_per_kbucket as nat),
            Ghost(Seq::empty()),
        );
        let mut distances: Vec<usize> = Vec::new();
        let mut i: usize = 0;
        while i < contacts.len()
            invariant
                i <= contacts@.len(),
                distances@.len() == i,
                forall|j: int|
                    0 <= j < i ==> call_ensures(
                        V::distance,
                        (&borrowed(contacts@)[j], &id),
                        #[trigger] distances@[j],
                    ),
            decreases contacts@.len() - i,
        {
            let distance = contacts[i].distance(&id);
            distances.push(distance);
            i += 1;
        }
        let ghost candidates = borrowed(contacts@);
        let ghost keys = distances@;
        assert(candidates == self@.candidates(id.bytes(), limit_of(n)));
        assert(measured(candidates, id, keys));
        let closest = nearest(contacts, distances, n);
        proof {
            lemma_nearest(candidates, keys, limit_of(n));
        }
        closest
    }

    /// Tells whether `contact` can be added: whether the table admits it.
    pub fn admits(&self, contact: &V) -> (admits: bool)
        ensures
            admits == self@.admits(*contact),
    {
        let id = contact.id().as_bytes();
        let local = self.node_id.as_bytes();
        id.len() == local.len() && (self.nodes_per_kbucket > 0 || !same_bytes(id, local))
    }

    /// Tells whether the table can be searched for `id`.
    pub fn reaches(&self, id: &I) -> (reaches: bool)
        ensures
            reaches == self@.reaches(id.bytes()),
    {
        id.as_bytes().len() >= self.node_id.as_bytes().len()
    }

    /// Walks over all contacts.
    pub fn iter(&self) -> (iter: Iter<'_, V>)
        ensures
            iter.remaining() == self@.contacts(),
    {
        Iter::new(&self.root)
    }

    /// The identifier of the node that the table belongs to.
    pub fn node_id(&self) -> (node_id: &I)
        ensures
            node_id.bytes() == self@.local,
    {
        &self.node_id
    }

    /// The most contacts that a bucket holds.
    pub fn nodes_per_kbucket(&self) -> (nodes_per_kbucket: usize)
        ensures
            nodes_per_kbucket == self@.capacity,
    {
        self.nodes_per_kbucket
    }

    /// The number of contacts to probe when a full bucket turns one away.
    pub fn nodes_to_ping(&self) -> (nodes_to_ping: usize)
        ensures
            nodes_to_ping == self@.ping_count,
    {
        self.nodes_to_ping
    }

    /// The root of the trie.
    pub fn root(&self) -> (root: &Node<V>)
        ensures
            root@ == self@.trie,
    {
        &self.root
    }
}

} // verus!
