//! Why the operations keep the trie well formed.

use vstd::prelude::*;
use crate::branch::{branch, follows, lemma_identifier_by_bits, Direction};
use crate::bucket::{
    distinct, holds, index_of_spec, lemma_index_of, offered, settled, side_of,
    without, Selection,
};
use crate::contact::{key, Contact};
use crate::trie::{bucket_wf, split_spec, Trie};

verus! {

/// An identifier that takes the turns of `path` and then turns to `side`
/// takes the turns of the longer path.
pub proof fn lemma_follows_push(id: Seq<u8>, path: Seq<Direction>, side: Direction)
    requires
        follows(id, path),
    ensures
        follows(id, path.push(side)) <==> branch(id, path.len()) == side,
{
    let longer = path.push(side);
    if branch(id, path.len()) == side {
        assert forall|i: int| 0 <= i < longer.len() implies branch(id, i as nat) == #[trigger] longer[i] by {
            if i < path.len() {
                assert(longer[i] == path[i]);
            }
        }
    } else {
        assert(longer[path.len() as int] == side);
    }
}

/// Below the last bit of the identifiers there is at most one identity: that
/// of the node itself.
pub proof fn lemma_one_identity_at_the_end(id: Seq<u8>, local: Seq<u8>, path: Seq<Direction>)
    requires
        id.len() == local.len(),
        follows(id, path),
        follows(local, path),
        path.len() >= 8 * local.len(),
    ensures
        id == local,
{
    assert forall|bit: nat| bit < 8 * id.len() implies branch(id, bit) == branch(local, bit) by {
        assert(branch(id, bit) == path[bit as int]);
        assert(branch(local, bit) == path[bit as int]);
    }
    lemma_identifier_by_bits(id, local);
}

/// A full bucket on the node's own path that does not hold `id`, which it
/// could own, stands above the last bit: it can be split.
pub proof fn lemma_full_bucket_has_a_bit<V: Contact>(
    contacts: Seq<V>,
    local: Seq<u8>,
    capacity: nat,
    path: Seq<Direction>,
    id: Seq<u8>,
)
    requires
        bucket_wf(contacts, local, capacity, path),
        follows(local, path),
        follows(id, path),
        id.len() == local.len(),
        !holds(contacts, id),
        contacts.len() >= capacity,
        capacity > 0 || id != local,
    ensures
        path.len() < 8 * local.len(),
{
    if path.len() >= 8 * local.len() {
        lemma_one_identity_at_the_end(id, local, path);
        if capacity > 0 {
            lemma_one_identity_at_the_end(key(contacts[0]), local, path);
            assert(key(contacts[0]) == id);
        }
    }
}

/// The contacts of one side of a bucket are contacts of the bucket, in their
/// order.
pub proof fn lemma_side_of<V: Contact>(contacts: Seq<V>, bit_index: nat, side: Direction)
    ensures
        side_of(contacts, bit_index, side).len() <= contacts.len(),
        forall|i: int|
            0 <= i < side_of(contacts, bit_index, side).len() ==> {
                &&& branch(key(#[trigger] side_of(contacts, bit_index, side)[i]), bit_index) == side
                &&& contacts.contains(side_of(contacts, bit_index, side)[i])
            },
        distinct(contacts) ==> distinct(side_of(contacts, bit_index, side)),
    decreases contacts.len(),
{
    reveal(Seq::filter);
    let out = side_of(contacts, bit_index, side);
    if contacts.len() > 0 {
        let rest = contacts.drop_last();
        let last = contacts.last();
        lemma_side_of(rest, bit_index, side);
        let sub = side_of(rest, bit_index, side);
        assert forall|i: int| 0 <= i < out.len() implies {
            &&& branch(key(#[trigger] out[i]), bit_index) == side
            &&& contacts.contains(out[i])
        } by {
            if i < sub.len() {
                assert(out[i] == sub[i]);
                let j = choose|j: int| 0 <= j < rest.len() && rest[j] == sub[i];
                assert(contacts[j] == out[i]);
            } else {
                assert(out[i] == last);
                assert(contacts[contacts.len() - 1] == last);
            }
        }
        if distinct(contacts) {
            assert(distinct(rest)) by {
                assert forall|i: int, j: int| 0 <= i < j < rest.len() implies key(
                    #[trigger] rest[i],
                ) != key(#[trigger] rest[j]) by {
                    assert(rest[i] == contacts[i]);
                    assert(rest[j] == contacts[j]);
                }
            }
            assert forall|i: int, j: int| 0 <= i < j < out.len() implies key(#[trigger] out[i])
                != key(#[trigger] out[j]) by {
                if j < sub.len() {
                    assert(out[i] == sub[i] && out[j] == sub[j]);
                } else {
                    assert(out[j] == last);
                    assert(out[i] == sub[i]);
                    let m = choose|m: int| 0 <= m < rest.len() && rest[m] == sub[i];
                    assert(contacts[m] == out[i]);
                    assert(contacts[contacts.len() - 1] == last);
                }
            }
        }
    }
}

/// Splitting a bucket on the node's own path, above the last bit, gives a
/// well-formed fork.
pub proof fn lemma_split_wf<V: Contact>(
    contacts: Seq<V>,
    local: Seq<u8>,
    capacity: nat,
    path: Seq<Direction>,
)
    requires
        bucket_wf(contacts, local, capacity, path),
        follows(local, path),
        path.len() < 8 * local.len(),
    ensures
        split_spec(contacts, local, path.len()).wf(local, capacity, path),
{
    let bit_index = path.len();
    lemma_follows_push(local, path, Direction::Left);
    lemma_follows_push(local, path, Direction::Right);
    lemma_side_wf(contacts, local, capacity, path, Direction::Left);
    lemma_side_wf(contacts, local, capacity, path, Direction::Right);
    let left = Trie::Leaf {
        contacts: side_of(contacts, bit_index, Direction::Left),
        dont_split: branch(local, bit_index) == Direction::Right,
    };
    let right = Trie::Leaf {
        contacts: side_of(contacts, bit_index, Direction::Right),
        dont_split: branch(local, bit_index) == Direction::Left,
    };
    assert(left.wf(local, capacity, path.push(Direction::Left)));
    assert(right.wf(local, capacity, path.push(Direction::Right)));
}

/// One side of a bucket is a bucket that can stand one turn further down.
pub proof fn lemma_side_wf<V: Contact>(
    contacts: Seq<V>,
    local: Seq<u8>,
    capacity: nat,
    path: Seq<Direction>,
    side: Direction,
)
    requires
        bucket_wf(contacts, local, capacity, path),
    ensures
        bucket_wf(side_of(contacts, path.len(), side), local, capacity, path.push(side)),
{
    let out = side_of(contacts, path.len(), side);
    lemma_side_of(contacts, path.len(), side);
    assert forall|i: int| 0 <= i < out.len() implies {
        &&& key(#[trigger] out[i]).len() == local.len()
        &&& follows(key(out[i]), path.push(side))
    } by {
        let j = choose|j: int| 0 <= j < contacts.len() && contacts[j] == out[i];
        assert(key(contacts[j]).len() == local.len());
        lemma_follows_push(key(out[i]), path, side);
    }
}

/// Settling with an incumbent keeps a bucket a bucket.
pub proof fn lemma_settled_wf<V: Contact>(
    contacts: Seq<V>,
    local: Seq<u8>,
    capacity: nat,
    path: Seq<Direction>,
    index: int,
    candidate: V,
    selection: Selection,
)
    requires
        bucket_wf(contacts, local, capacity, path),
        0 <= index < contacts.len(),
        key(contacts[index]) == key(candidate),
    ensures
        bucket_wf(settled(contacts, index, candidate, selection), local, capacity, path),
        settled(contacts, index, candidate, selection).len() == contacts.len(),
{
    let out = settled(contacts, index, candidate, selection);
    if selection != Selection::Keep {
        let rest = contacts.remove(index);
        assert forall|i: int| 0 <= i < rest.len() implies {
            &&& #[trigger] rest[i] == contacts[if i < index { i } else { i + 1 }]
        } by {}
        assert forall|i: int| 0 <= i < out.len() implies {
            &&& key(#[trigger] out[i]).len() == local.len()
            &&& follows(key(out[i]), path)
        } by {
            if i < rest.len() {
                assert(out[i] == rest[i]);
            } else {
                assert(key(out[i]) == key(contacts[index]));
            }
        }
        assert forall|i: int, j: int| 0 <= i < j < out.len() implies key(#[trigger] out[i]) != key(
            #[trigger] out[j],
        ) by {
            assert(out[i] == rest[i]);
            if j < rest.len() {
                assert(out[j] == rest[j]);
            } else {
                assert(key(out[j]) == key(contacts[index]));
            }
        }
    }
}

/// Offering a contact that could stand in a bucket keeps it a bucket.
pub proof fn lemma_offered_wf<V: Contact>(
    contacts: Seq<V>,
    local: Seq<u8>,
    capacity: nat,
    path: Seq<Direction>,
    candidate: V,
    selection: Selection,
)
    requires
        bucket_wf(contacts, local, capacity, path),
        key(candidate).len() == local.len(),
        follows(key(candidate), path),
    ensures
        bucket_wf(offered(contacts, candidate, selection, capacity), local, capacity, path),
{
    lemma_index_of(contacts, key(candidate));
    match index_of_spec(contacts, key(candidate)) {
        Some(index) => {
            lemma_settled_wf(contacts, local, capacity, path, index, candidate, selection);
        },
        None => {
            if contacts.len() < capacity {
                let out = contacts.push(candidate);
                assert forall|i: int, j: int| 0 <= i < j < out.len() implies key(#[trigger] out[i])
                    != key(#[trigger] out[j]) by {
                    assert(out[i] == contacts[i]);
                    if j < contacts.len() {
                        assert(out[j] == contacts[j]);
                    }
                }
                assert forall|i: int| 0 <= i < out.len() implies {
                    &&& key(#[trigger] out[i]).len() == local.len()
                    &&& follows(key(out[i]), path)
                } by {
                    if i < contacts.len() {
                        assert(out[i] == contacts[i]);
                    }
                }
            }
        },
    }
}

/// Taking a contact out keeps a bucket a bucket.
pub proof fn lemma_without_wf<V: Contact>(
    contacts: Seq<V>,
    local: Seq<u8>,
    capacity: nat,
    path: Seq<Direction>,
    id: Seq<u8>,
)
    requires
        bucket_wf(contacts, local, capacity, path),
    ensures
        bucket_wf(without(contacts, id), local, capacity, path),
{
    lemma_index_of(contacts, id);
    match index_of_spec(contacts, id) {
        Some(index) => {
            let out = contacts.remove(index);
            assert forall|i: int| 0 <= i < out.len() implies {
                &&& #[trigger] out[i] == contacts[if i < index { i } else { i + 1 }]
            } by {}
            assert forall|i: int| 0 <= i < out.len() implies {
                &&& key(#[trigger] out[i]).len() == local.len()
                &&& follows(key(out[i]), path)
            } by {}
            assert forall|i: int, j: int| 0 <= i < j < out.len() implies key(#[trigger] out[i])
                != key(#[trigger] out[j]) by {}
        },
        None => {},
    }
}

} // verus!
