//! The nodes of the trie as they are stored.

use vstd::prelude::*;
use crate::branch::{addressable, determine_node, follows, Direction};
use crate::bucket::{
    index_of, lemma_index_of, ping_candidates, side_of, turns, update, Selection,
};
use crate::contact::{key, Contact};
use crate::identifier::Identifier;
use crate::notification::Notification;
use crate::trie::{bits_left, split_spec, Trie};
use crate::wellformed::{
    lemma_follows_push, lemma_full_bucket_has_a_bit, lemma_offered_wf, lemma_split_wf,
    lemma_without_wf,
};

verus! {

/// A node of the trie.
#[derive(Debug)]
pub enum Node<V: Contact> {
    /// A fork: `left` for identifiers whose bit at this depth is 0, `right`
    /// for those whose bit is 1.
    Inner { left: Box<Node<V>>, right: Box<Node<V>> },
    /// A bucket: its contacts, oldest first, and whether it is frozen.
    Leaf { contacts: Vec<V>, dont_split: bool },
}

impl<V: Contact> View for Node<V> {
    type V = Trie<V>;

    open spec fn view(&self) -> Trie<V>
        decreases self,
    {
        match self {
            Node::Leaf { contacts, dont_split } => Trie::Leaf {
                contacts: contacts@,
                dont_split: *dont_split,
            },
            Node::Inner { left, right } => Trie::Inner {
                left: Box::new((**left).view()),
                right: Box::new((**right).view()),
            },
        }
    }
}

/// The longest identifier, in bytes, whose every bit has an index in `u32`.
pub const MAX_ID_BYTES: usize = 0x1fff_ffff;

impl<V: Contact> Node<V> {
    /// The contacts of a bucket; a fork has none of its own.
    pub fn contacts(&self) -> (contacts: &[V])
        ensures
            contacts@ == match self@ {
                Trie::Leaf { contacts, .. } => contacts,
                Trie::Inner { .. } => Seq::empty(),
            },
    {
        match self {
            Node::Inner { .. } => {
                let none: &[V] = &[];
                none
            },
            Node::Leaf { contacts, .. } => contacts.as_slice(),
        }
    }
}

impl<V: Contact> Node<V> {
    /// Adds `contact` below this node, which stands at `path`, `bit_index`
    /// turns below the root.
    pub(crate) fn add<I: Identifier>(
        &mut self,
        node_id: &I,
        capacity: usize,
        ping_count: usize,
        contact: V,
        bit_index: u32,
        Ghost(path): Ghost<Seq<Direction>>,
    ) -> (notification: Notification<V>) where V: Contact<Id = I>
        requires
            old(self)@.wf(node_id.bytes(), capacity as nat, path),
            path.len() == bit_index,
            node_id.bytes().len() <= MAX_ID_BYTES,
            key(contact).len() == node_id.bytes().len(),
            follows(key(contact), path),
            capacity > 0 || key(contact) != node_id.bytes(),
        ensures
            final(self)@.wf(node_id.bytes(), capacity as nat, path),
            final(self)@ == old(self)@.add(
                node_id.bytes(),
                capacity as nat,
                contact,
                notification.selection(),
                bit_index as nat,
            ),
            notification.reports(
                old(self)@.landing(
                    node_id.bytes(),
                    capacity as nat,
                    key(contact),
                    bit_index as nat,
                ),
                contact,
                capacity as nat,
                ping_count as nat,
            ),
        decreases
                bits_left(node_id.bytes().len(), bit_index as nat),
                (if old(self)@ is Leaf {
                    1nat
                } else {
                    0nat
                }),
    {
        let ghost local = node_id.bytes();
        let ghost id = key(contact);
        match self {
            Node::Inner { left, right } => {
                proof {
                    lemma_follows_push(id, path, Direction::Left);
                    lemma_follows_push(id, path, Direction::Right);
                }
                match determine_node(contact.id(), bit_index) {
                    Direction::Left => left.add(
                        node_id,
                        capacity,
                        ping_count,
                        contact,
                        bit_index + 1,
                        Ghost(path.push(Direction::Left)),
                    ),
                    Direction::Right => right.add(
                        node_id,
                        capacity,
                        ping_count,
                        contact,
                        bit_index + 1,
                        Ghost(path.push(Direction::Right)),
                    ),
                }
            },
            Node::Leaf { contacts, dont_split } => {
                let ghost before = contacts@;
                proof {
                    lemma_index_of(before, id);
                }
                // check if the contact already exists
                let index = index_of(contacts.as_slice(), contact.id());
                if let Some(index) = index {
                    proof {
                        lemma_offered_wf(before, local, capacity as nat, path, contact, Selection::Replace);
                        lemma_offered_wf(before, local, capacity as nat, path, contact, Selection::Refresh);
                        lemma_offered_wf(before, local, capacity as nat, path, contact, Selection::Keep);
                    }
                    return match update(contacts, index, contact) {
                        Selection::Replace => Notification::Replaced,
                        Selection::Refresh => Notification::Refreshed,
                        Selection::Keep => Notification::Unchanged,
                    };
                }
                if contacts.len() < capacity {
                    proof {
                        lemma_offered_wf(before, local, capacity as nat, path, contact, Selection::Keep);
                    }
                    contacts.push(contact);
                    return Notification::Added;
                }
                // the bucket is full
                if *dont_split {
                    // the oldest contacts are to be probed before the new one
                    // can take the place of one of them
                    let candidates = ping_candidates(contacts.as_slice(), ping_count);
                    return Notification::PingRequested { candidates, pending: contact };
                }
                proof {
                    lemma_full_bucket_has_a_bit(before, local, capacity as nat, path, id);
                    lemma_split_wf(before, local, capacity as nat, path);
                }
                let node = split(node_id, contacts, bit_index);
                *self = node;
                self.add(node_id, capacity, ping_count, contact, bit_index, Ghost(path))
            },
        }
    }
}

/// The contacts that a sequence of borrowed contacts borrows.
pub open spec fn borrowed<V>(contacts: Seq<&V>) -> Seq<V> {
    contacts.map_values(|contact: &V| *contact)
}

/// A limit on a count as a number, where there is one.
pub open spec fn limit_of(n: Option<usize>) -> Option<nat> {
    match n {
        Some(n) => Some(n as nat),
        None => None,
    }
}

impl<V: Contact> Node<V> {
    /// Removes the contact of identity `id` from below this node, which
    /// stands at `path`, and returns it.
    pub(crate) fn remove<I: Identifier>(
        &mut self,
        id: &I,
        bit_index: u32,
        Ghost(local): Ghost<Seq<u8>>,
        Ghost(capacity): Ghost<nat>,
        Ghost(path): Ghost<Seq<Direction>>,
    ) -> (removed: Option<V>) where V: Contact<Id = I>
        requires
            old(self)@.wf(local, capacity, path),
            path.len() == bit_index,
            local.len() <= MAX_ID_BYTES,
            id.bytes().len() >= local.len(),
        ensures
            final(self)@.wf(local, capacity, path),
            final(self)@ == old(self)@.remove(id.bytes(), bit_index as nat),
            removed == old(self)@.get(id.bytes(), bit_index as nat),
        decreases old(self)@,
    {
        match self {
            Node::Inner { left, right } => {
                match determine_node(id, bit_index) {
                    Direction::Left => left.remove(
                        id,
                        bit_index + 1,
                        Ghost(local),
                        Ghost(capacity),
                        Ghost(path.push(Direction::Left)),
                    ),
                    Direction::Right => right.remove(
                        id,
                        bit_index + 1,
                        Ghost(local),
                        Ghost(capacity),
                        Ghost(path.push(Direction::Right)),
                    ),
                }
            },
            Node::Leaf { contacts, .. } => {
                proof {
                    lemma_without_wf(contacts@, local, capacity, path, id.bytes());
                }
                let index = index_of(contacts.as_slice(), id);
                if let Some(index) = index {
                    let contact = contacts.remove(index);
                    Some(contact)
                } else {
                    None
                }
            },
        }
    }

    /// Gathers the candidates for the contacts nearest to `id` below this
    /// node, which stands at `path`, onto `found`.
    pub(crate) fn gather<'a, I: Identifier>(
        &'a self,
        id: &I,
        n: Option<usize>,
        bit_index: u32,
        found: &mut Vec<&'a V>,
        Ghost(local): Ghost<Seq<u8>>,
        Ghost(capacity): Ghost<nat>,
        Ghost(path): Ghost<Seq<Direction>>,
    ) where V: Contact<Id = I>
        requires
            self@.wf(local, capacity, path),
            path.len() == bit_index,
            local.len() <= MAX_ID_BYTES,
            id.bytes().len() >= local.len(),
        ensures
            borrowed(final(found)@) == self@.gather(
                id.bytes(),
                limit_of(n),
                bit_index as nat,
                borrowed(old(found)@),
            ),
        decreases self@,
    {
        if let Some(n) = n {
            if found.len() >= n {
                return ;
            }
        }
        match self {
            Node::Inner { left, right } => {
                match determine_node(id, bit_index) {
                    Direction::Left => {
                        left.gather(
                            id,
                            n,
                            bit_index + 1,
                            found,
                            Ghost(local),
                            Ghost(capacity),
                            Ghost(path.push(Direction::Left)),
                        );
                        right.gather(
                            id,
                            n,
                            bit_index + 1,
                            found,
                            Ghost(local),
                            Ghost(capacity),
                            Ghost(path.push(Direction::Right)),
                        );
                    },
                    Direction::Right => {
                        right.gather(
                            id,
                            n,
                            bit_index + 1,
                            found,
                            Ghost(local),
                            Ghost(capacity),
                            Ghost(path.push(Direction::Right)),
                        );
                        left.gather(
                            id,
                            n,
                            bit_index + 1,
                            found,
                            Ghost(local),
                            Ghost(capacity),
                            Ghost(path.push(Direction::Left)),
                        );
                    },
                }
            },
            Node::Leaf { contacts, .. } => {
                let ghost before = borrowed(found@);
                let mut i: usize = 0;
                while i < contacts.len()
                    invariant
                        i <= contacts@.len(),
                        borrowed(found@) == before + contacts@.take(i as int),
                    decreases contacts@.len() - i,
                {
                    let ghost so_far = found@;
                    found.push(&contacts[i]);
                    proof {
                        assert(borrowed(so_far.push(&contacts@[i as int])) =~= borrowed(so_far).push(
                            contacts@[i as int],
                        ));
                        assert(contacts@.take(i + 1) =~= contacts@.take(i as int).push(
                            contacts@[i as int],
                        ));
                        assert(before + contacts@.take(i as int).push(contacts@[i as int]) =~= (
                        before + contacts@.take(i as int)).push(contacts@[i as int]));
                    }
                    i += 1;
                }
                proof {
                    assert(contacts@.take(contacts@.len() as int) =~= contacts@);
                }
            },
        }
    }
}

/// Splits a bucket at depth `bit_index`: hands its contacts out to two new
/// buckets by their bit at that depth, and freezes the one that the node's own
/// identifier does not fall into. `contacts` is left empty.
pub fn split<I: Identifier, V: Contact<Id = I>>(
    node_id: &I,
    contacts: &mut Vec<V>,
    bit_index: u32,
) -> (node: Node<V>)
    requires
        addressable(node_id.bytes(), bit_index as nat),
        forall|i: int|
            0 <= i < old(contacts)@.len() ==> addressable(
                key(#[trigger] old(contacts)@[i]),
                bit_index as nat,
            ),
    ensures
        node@ == split_spec(old(contacts)@, node_id.bytes(), bit_index as nat),
        final(contacts)@.len() == 0,
{
    let mut left_contacts: Vec<V> = Vec::new();
    let mut right_contacts: Vec<V> = Vec::new();
    let mut drained: Vec<V> = Vec::new();
    std::mem::swap(contacts, &mut drained);
    let ghost all = drained@;
    proof {
        assert(all.take(0) =~= Seq::<V>::empty());
        all.take(0).lemma_filter_len(turns(bit_index as nat, Direction::Left));
        all.take(0).lemma_filter_len(turns(bit_index as nat, Direction::Right));
    }
    for contact in it: drained
        invariant
            it.seq() == all,
            forall|i: int| 0 <= i < all.len() ==> addressable(key(#[trigger] all[i]), bit_index as nat),
            left_contacts@ == side_of(all.take(it.index() as int), bit_index as nat, Direction::Left),
            right_contacts@ == side_of(
                all.take(it.index() as int),
                bit_index as nat,
                Direction::Right,
            ),
    {
        proof {
            let seen = all.take(it.index() as int);
            assert(all.take(it.index() + 1) =~= seen.push(contact));
            seen.lemma_filter_push(contact, turns(bit_index as nat, Direction::Left));
            seen.lemma_filter_push(contact, turns(bit_index as nat, Direction::Right));
        }
        match determine_node(contact.id(), bit_index) {
            Direction::Left => left_contacts.push(contact),
            Direction::Right => right_contacts.push(contact),
        }
    }
    proof {
        assert(all.take(all.len() as int) =~= all);
    }
    let self_direction = determine_node(node_id, bit_index);
    let left = Node::Leaf { contacts: left_contacts, dont_split: self_direction == Direction::Right };
    let right = Node::Leaf { contacts: right_contacts, dont_split: self_direction == Direction::Left };
    let node = Node::Inner { left: Box::new(left), right: Box::new(right) };
    assert(node@ == Trie::Inner { left: Box::new(left@), right: Box::new(right@) });
    node
}

} // verus!
