//! Walking the whole trie, bucket by bucket.

use vstd::prelude::*;
use crate::contact::Contact;
use crate::node::Node;
use crate::trie::Trie;

verus! {

/// The contacts below the nodes of a stack, the top of the stack (its last
/// node) first.
pub open spec fn pending<V: Contact>(nodes: Seq<&Node<V>>) -> Seq<V>
    decreases nodes.len(),
{
    if nodes.len() == 0 {
        Seq::empty()
    } else {
        nodes.last()@.contacts() + pending(nodes.drop_last())
    }
}

/// The number of trie nodes at and below the nodes of a stack.
pub open spec fn weight<V: Contact>(nodes: Seq<&Node<V>>) -> nat
    decreases nodes.len(),
{
    if nodes.len() == 0 {
        0
    } else {
        nodes.last()@.nodes() + weight(nodes.drop_last())
    }
}

/// A trie has as many contacts as it lists.
pub proof fn lemma_contacts_len<V: Contact>(trie: Trie<V>)
    ensures
        trie.contacts().len() == trie.len(),
    decreases trie,
{
    match trie {
        Trie::Leaf { .. } => {},
        Trie::Inner { left, right } => {
            lemma_contacts_len(*left);
            lemma_contacts_len(*right);
        },
    }
}

/// Pushing a node puts its contacts before those of the stack.
pub proof fn lemma_pushed<V: Contact>(nodes: Seq<&Node<V>>, node: &Node<V>)
    ensures
        pending(nodes.push(node)) == node@.contacts() + pending(nodes),
        weight(nodes.push(node)) == node@.nodes() + weight(nodes),
{
    assert(nodes.push(node).drop_last() =~= nodes);
}

/// Replacing a fork on top of the stack by its two sides, the right one on
/// top, leaves the contacts to come as they were and takes one node off.
pub proof fn lemma_unfolded<V: Contact>(
    rest: Seq<&Node<V>>,
    fork: &Node<V>,
    left: &Node<V>,
    right: &Node<V>,
)
    requires
        fork@ == (Trie::Inner { left: Box::new(left@), right: Box::new(right@) }),
    ensures
        pending(rest.push(left).push(right)) == fork@.contacts() + pending(rest),
        weight(rest.push(left).push(right)) + 1 == fork@.nodes() + weight(rest),
{
    lemma_pushed(rest, left);
    lemma_pushed(rest.push(left), right);
    assert(right@.contacts() + (left@.contacts() + pending(rest)) =~= (right@.contacts()
        + left@.contacts()) + pending(rest));
}

/// Counts the contacts at and below `root`.
pub fn count<V: Contact>(root: &Node<V>) -> (count: usize)
    requires
        root@.len() <= usize::MAX,
    ensures
        count == root@.len(),
{
    let mut count: usize = 0;
    let mut nodes: Vec<&Node<V>> = Vec::new();
    nodes.push(root);
    proof {
        lemma_pushed(Seq::<&Node<V>>::empty(), root);
        lemma_contacts_len(root@);
        assert(pending(nodes@) =~= root@.contacts());
    }
    while nodes.len() > 0
        invariant
            count + pending(nodes@).len() == root@.len(),
            root@.len() <= usize::MAX,
        decreases weight(nodes@),
    {
        let ghost before = nodes@;
        let node = nodes.pop().unwrap();
        proof {
            assert(before.drop_last() =~= nodes@);
        }
        match node {
            Node::Inner { left, right } => {
                proof {
                    lemma_unfolded(nodes@, node, &**left, &**right);
                }
                nodes.push(left);
                nodes.push(right);
            },
            Node::Leaf { contacts, .. } => {
                count += contacts.len();
            },
        }
    }
    count
}

/// A walk over all contacts of a routing table: at a fork the right side
/// first, and each bucket oldest first.
#[derive(Debug)]
pub struct Iter<'a, V: Contact> {
    nodes: Vec<&'a Node<V>>,
    contacts: Option<&'a [V]>,
    i: usize,
}

impl<'a, V: Contact> Iter<'a, V> {
    /// The contacts that the walk has yet to yield, in that order.
    pub closed spec fn remaining(&self) -> Seq<V> {
        self.current() + pending(self.nodes@)
    }

    /// What is left of the bucket that the walk is in.
    pub closed spec fn current(&self) -> Seq<V> {
        match self.contacts {
            Some(contacts) => if self.i <= contacts@.len() {
                contacts@.skip(self.i as int)
            } else {
                Seq::empty()
            },
            None => Seq::empty(),
        }
    }

    /// Starts a walk at `root`.
    pub fn new(root: &'a Node<V>) -> (iter: Self)
        ensures
            iter.remaining() == root@.contacts(),
    {
        let mut nodes: Vec<&'a Node<V>> = Vec::new();
        nodes.push(root);
        proof {
            lemma_pushed(Seq::<&Node<V>>::empty(), root);
            assert(Seq::<V>::empty() + (root@.contacts() + Seq::<V>::empty()) =~= root@.contacts());
        }
        Iter { nodes, contacts: None, i: 0 }
    }

    /// Yields the next contact, or `None` once all have been yielded.
    pub fn next(&mut self) -> (item: Option<&'a V>)
        ensures
            match item {
                Some(contact) => {
                    &&& old(self).remaining().len() > 0
                    &&& *contact == old(self).remaining()[0]
                    &&& final(self).remaining() == old(self).remaining().skip(1)
                },
                None => old(self).remaining().len() == 0 && final(self).remaining().len() == 0,
            },
    {
        loop
            invariant
                self.remaining() == old(self).remaining(),
            decreases
                    2 * weight(self.nodes@) + (if self.contacts is Some {
                        1nat
                    } else {
                        0nat
                    }),
        {
            if let Some(contacts) = self.contacts {
                if self.i < contacts.len() {
                    let contact = &contacts[self.i];
                    proof {
                        assert(contacts@.skip(self.i as int)[0] == contacts@[self.i as int]);
                        assert(contacts@.skip(self.i as int).skip(1) =~= contacts@.skip(self.i + 1));
                        assert((contacts@.skip(self.i as int) + pending(self.nodes@)).skip(1)
                            =~= contacts@.skip(self.i + 1) + pending(self.nodes@));
                    }
                    self.i += 1;
                    return Some(contact);
                } else {
                    proof {
                        assert(self.current() =~= Seq::<V>::empty());
                    }
                    self.contacts = None;
                    self.i = 0;
                }
            }
            let ghost before = self.nodes@;
            assert(self.remaining() =~= pending(self.nodes@));
            let node = match self.nodes.pop() {
                Some(node) => node,
                None => {
                    return None;
                },
            };
            proof {
                assert(before.drop_last() =~= self.nodes@);
            }
            match node {
                Node::Inner { left, right } => {
                    proof {
                        lemma_unfolded(self.nodes@, node, &**left, &**right);
                    }
                    self.nodes.push(left);
                    self.nodes.push(right);
                    assert(self.remaining() =~= pending(self.nodes@));
                },
                Node::Leaf { contacts, .. } => {
                    self.contacts = Some(contacts.as_slice());
                    self.i = 0;
                    proof {
                        assert(contacts@.skip(0) =~= contacts@);
                    }
                },
            }
        }
    }
}

} // verus!
