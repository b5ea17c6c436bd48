//! What a table holds after it has been added to or removed from.

use vstd::prelude::*;
use crate::branch::{branch, follows, Direction};
use crate::bucket::{
    distinct, holds, index_of_spec, lemma_index_of, lemma_lookup_push, lemma_lookup_remove,
    lemma_lookup_removed, lemma_lookup_side, lemma_sides_len, lookup, offered, side_of, without,
    Selection,
};
use crate::contact::{key, Contact};
use crate::kbucket::Routing;
use crate::trie::{bits_left, bucket_wf, Trie};
use crate::wellformed::{
    lemma_follows_push, lemma_full_bucket_has_a_bit, lemma_offered_wf, lemma_split_wf,
    lemma_without_wf,
};

verus! {

/// Where the bucket that owns `id` holds it, no room needs to be made.
pub proof fn lemma_no_room_needed<V: Contact>(
    trie: Trie<V>,
    local: Seq<u8>,
    capacity: nat,
    id: Seq<u8>,
    bit_index: nat,
)
    requires
        holds(trie.bucket(id, bit_index), id),
    ensures
        trie.make_room(local, capacity, id, bit_index) == trie,
    decreases trie,
{
    match trie {
        Trie::Leaf { .. } => {},
        Trie::Inner { left, right } => match branch(id, bit_index) {
            Direction::Left => lemma_no_room_needed(*left, local, capacity, id, bit_index + 1),
            Direction::Right => lemma_no_room_needed(*right, local, capacity, id, bit_index + 1),
        },
    }
}

/// Changing the bucket that owns `id` changes the count by as much as the
/// bucket grows or shrinks, and putting its own contacts into it changes
/// nothing.
pub proof fn lemma_with_bucket<V: Contact>(
    trie: Trie<V>,
    id: Seq<u8>,
    bit_index: nat,
    contacts: Seq<V>,
)
    ensures
        trie.with_bucket(id, bit_index, contacts).len() + trie.bucket(id, bit_index).len()
            == trie.len() + contacts.len(),
        contacts == trie.bucket(id, bit_index) ==> trie.with_bucket(id, bit_index, contacts)
            == trie,
        trie is Inner <==> trie.with_bucket(id, bit_index, contacts) is Inner,
    decreases trie,
{
    match trie {
        Trie::Leaf { .. } => {},
        Trie::Inner { left, right } => {
            lemma_with_bucket(*left, id, bit_index + 1, contacts);
            lemma_with_bucket(*right, id, bit_index + 1, contacts);
        },
    }
}

/// What a bucket holds of an identity after a candidate has been offered to
/// it: of another identity what it held; of the candidate's own the candidate
/// where it replaced the incumbent or was new and found room, and the
/// incumbent where that stayed.
pub proof fn lemma_offered_lookup<V: Contact>(
    contacts: Seq<V>,
    candidate: V,
    selection: Selection,
    capacity: nat,
    id: Seq<u8>,
)
    requires
        holds(contacts, key(candidate)) ==> distinct(contacts),
    ensures
        lookup(offered(contacts, candidate, selection, capacity), id) == (if id != key(candidate) {
            lookup(contacts, id)
        } else if lookup(contacts, id) is Some {
            if selection is Replace {
                Some(candidate)
            } else {
                lookup(contacts, id)
            }
        } else if contacts.len() < capacity {
            Some(candidate)
        } else {
            None
        }),
        offered(contacts, candidate, selection, capacity).len() == contacts.len() + (if !holds(
            contacts,
            key(candidate),
        ) && contacts.len() < capacity {
            1nat
        } else {
            0nat
        }),
{
    lemma_index_of(contacts, key(candidate));
    match index_of_spec(contacts, key(candidate)) {
        Some(index) => {
            let rest = contacts.remove(index);
            if id != key(candidate) {
                lemma_lookup_remove(contacts, index, id);
            } else {
                lemma_lookup_removed(contacts, index);
            }
            lemma_lookup_push(rest, candidate, id);
            lemma_lookup_push(rest, contacts[index], id);
        },
        None => {
            lemma_lookup_push(contacts, candidate, id);
        },
    }
}

/// What a bucket of distinct identities holds of an identity after one has
/// been taken out: nothing of that one, and of another what it held.
pub proof fn lemma_without_lookup<V: Contact>(contacts: Seq<V>, id: Seq<u8>, other: Seq<u8>)
    requires
        distinct(contacts),
    ensures
        lookup(without(contacts, id), other) == (if other == id {
            None
        } else {
            lookup(contacts, other)
        }),
        without(contacts, id).len() + (if holds(contacts, id) {
            1nat
        } else {
            0nat
        }) == contacts.len(),
{
    lemma_index_of(contacts, id);
    match index_of_spec(contacts, id) {
        Some(index) => {
            if other == id {
                lemma_lookup_removed(contacts, index);
            } else {
                lemma_lookup_remove(contacts, index, other);
            }
        },
        None => {},
    }
}

/// The bucket that owns an identity in a well-formed trie is one that can
/// stand at its path, and the identity takes every turn of that path if it
/// takes those of the path of the trie.
pub proof fn lemma_bucket_wf<V: Contact>(
    trie: Trie<V>,
    local: Seq<u8>,
    capacity: nat,
    path: Seq<Direction>,
    id: Seq<u8>,
)
    requires
        trie.wf(local, capacity, path),
    ensures
        bucket_wf(trie.bucket(id, path.len()), local, capacity, trie.bucket_path(id, path)),
        follows(id, path) ==> follows(id, trie.bucket_path(id, path)),
    decreases trie,
{
    match trie {
        Trie::Leaf { .. } => {},
        Trie::Inner { left, right } => {
            match branch(id, path.len()) {
                Direction::Left => {
                    lemma_bucket_wf(*left, local, capacity, path.push(Direction::Left), id);
                    if follows(id, path) {
                        lemma_follows_push(id, path, Direction::Left);
                    }
                },
                Direction::Right => {
                    lemma_bucket_wf(*right, local, capacity, path.push(Direction::Right), id);
                    if follows(id, path) {
                        lemma_follows_push(id, path, Direction::Right);
                    }
                },
            }
        },
    }
}

/// Putting into the bucket that owns `id` contacts that can stand there keeps
/// a trie well formed.
pub proof fn lemma_with_bucket_wf<V: Contact>(
    trie: Trie<V>,
    local: Seq<u8>,
    capacity: nat,
    path: Seq<Direction>,
    id: Seq<u8>,
    contacts: Seq<V>,
)
    requires
        trie.wf(local, capacity, path),
        bucket_wf(contacts, local, capacity, trie.bucket_path(id, path)),
    ensures
        trie.with_bucket(id, path.len(), contacts).wf(local, capacity, path),
    decreases trie,
{
    match trie {
        Trie::Leaf { .. } => {},
        Trie::Inner { left, right } => {
            match branch(id, path.len()) {
                Direction::Left => lemma_with_bucket_wf(
                    *left,
                    local,
                    capacity,
                    path.push(Direction::Left),
                    id,
                    contacts,
                ),
                Direction::Right => lemma_with_bucket_wf(
                    *right,
                    local,
                    capacity,
                    path.push(Direction::Right),
                    id,
                    contacts,
                ),
            }
        },
    }
}

/// What a trie holds of an identity after the bucket that owns `id` has been
/// given other contacts: what those hold of it if that bucket owns it too,
/// and what the trie held of it if not.
pub proof fn lemma_with_bucket_get<V: Contact>(
    trie: Trie<V>,
    id: Seq<u8>,
    bit_index: nat,
    contacts: Seq<V>,
    other: Seq<u8>,
)
    ensures
        trie.with_bucket(id, bit_index, contacts).get(other, bit_index) == (if trie.same_bucket(
            id,
            other,
            bit_index,
        ) {
            lookup(contacts, other)
        } else {
            trie.get(other, bit_index)
        }),
        trie.same_bucket(id, other, bit_index) ==> trie.bucket(other, bit_index) == trie.bucket(
            id,
            bit_index,
        ),
        trie.same_bucket(id, id, bit_index),
    decreases trie,
{
    match trie {
        Trie::Leaf { .. } => {},
        Trie::Inner { left, right } => {
            lemma_with_bucket_get(*left, id, bit_index + 1, contacts, other);
            lemma_with_bucket_get(*right, id, bit_index + 1, contacts, other);
        },
    }
}

/// Making room loses no contact and adds none: the trie holds of every
/// identity what it held, and counts as many contacts.
pub proof fn lemma_make_room_keeps<V: Contact>(
    trie: Trie<V>,
    local: Seq<u8>,
    capacity: nat,
    id: Seq<u8>,
    bit_index: nat,
    other: Seq<u8>,
)
    ensures
        trie.make_room(local, capacity, id, bit_index).get(other, bit_index) == trie.get(
            other,
            bit_index,
        ),
        trie.make_room(local, capacity, id, bit_index).len() == trie.len(),
    decreases bits_left(local.len(), bit_index), trie,
{
    match trie {
        Trie::Leaf { contacts, dont_split } => {
            if holds(contacts, id) || contacts.len() < capacity || dont_split || bit_index >= 8
                * local.len() {
            } else {
                let left = Trie::Leaf {
                    contacts: side_of(contacts, bit_index, Direction::Left),
                    dont_split: branch(local, bit_index) == Direction::Right,
                };
                let right = Trie::Leaf {
                    contacts: side_of(contacts, bit_index, Direction::Right),
                    dont_split: branch(local, bit_index) == Direction::Left,
                };
                lemma_sides_len(contacts, bit_index);
                lemma_lookup_side(contacts, bit_index, other);
                lemma_make_room_keeps(left, local, capacity, id, bit_index + 1, other);
                lemma_make_room_keeps(right, local, capacity, id, bit_index + 1, other);
            }
        },
        Trie::Inner { left, right } => {
            lemma_make_room_keeps(*left, local, capacity, id, bit_index + 1, other);
            lemma_make_room_keeps(*right, local, capacity, id, bit_index + 1, other);
        },
    }
}

/// Making room for an identity that the table admits keeps a trie well
/// formed.
pub proof fn lemma_make_room_wf<V: Contact>(
    trie: Trie<V>,
    local: Seq<u8>,
    capacity: nat,
    path: Seq<Direction>,
    id: Seq<u8>,
)
    requires
        trie.wf(local, capacity, path),
        id.len() == local.len(),
        follows(id, path),
        capacity > 0 || id != local,
    ensures
        trie.make_room(local, capacity, id, path.len()).wf(local, capacity, path),
    decreases bits_left(local.len(), path.len()), trie,
{
    let bit_index = path.len();
    lemma_follows_push(id, path, Direction::Left);
    lemma_follows_push(id, path, Direction::Right);
    match trie {
        Trie::Leaf { contacts, dont_split } => {
            if holds(contacts, id) || contacts.len() < capacity || dont_split || bit_index >= 8
                * local.len() {
            } else {
                lemma_full_bucket_has_a_bit(contacts, local, capacity, path, id);
                lemma_split_wf(contacts, local, capacity, path);
                let left = Trie::Leaf {
                    contacts: side_of(contacts, bit_index, Direction::Left),
                    dont_split: branch(local, bit_index) == Direction::Right,
                };
                let right = Trie::Leaf {
                    contacts: side_of(contacts, bit_index, Direction::Right),
                    dont_split: branch(local, bit_index) == Direction::Left,
                };
                match branch(id, bit_index) {
                    Direction::Left => {
                        assert(left.wf(local, capacity, path.push(Direction::Left)));
                        lemma_make_room_wf(left, local, capacity, path.push(Direction::Left), id);
                    },
                    Direction::Right => {
                        assert(right.wf(local, capacity, path.push(Direction::Right)));
                        lemma_make_room_wf(right, local, capacity, path.push(Direction::Right), id);
                    },
                }
            }
        },
        Trie::Inner { left, right } => {
            match branch(id, bit_index) {
                Direction::Left => lemma_make_room_wf(
                    *left,
                    local,
                    capacity,
                    path.push(Direction::Left),
                    id,
                ),
                Direction::Right => lemma_make_room_wf(
                    *right,
                    local,
                    capacity,
                    path.push(Direction::Right),
                    id,
                ),
            }
        },
    }
}

/// Adding a contact that a well-formed table admits gives a well-formed
/// table, however an incumbent is settled with.
pub proof fn lemma_add_wf<V: Contact>(table: Routing<V>, candidate: V, selection: Selection)
    requires
        table.wf(),
        table.admits(candidate),
    ensures
        table.add(candidate, selection).wf(),
{
    let id = key(candidate);
    let root: Seq<Direction> = Seq::empty();
    lemma_make_room_wf(table.trie, table.local, table.capacity, root, id);
    let roomy = table.trie.make_room(table.local, table.capacity, id, 0);
    lemma_bucket_wf(roomy, table.local, table.capacity, root, id);
    lemma_offered_wf(
        roomy.bucket(id, 0),
        table.local,
        table.capacity,
        roomy.bucket_path(id, root),
        candidate,
        selection,
    );
    lemma_with_bucket_wf(
        roomy,
        table.local,
        table.capacity,
        root,
        id,
        offered(roomy.bucket(id, 0), candidate, selection, table.capacity),
    );
}

/// Removing from a well-formed table gives a well-formed table.
pub proof fn lemma_remove_wf<V: Contact>(table: Routing<V>, id: Seq<u8>)
    requires
        table.wf(),
    ensures
        table.remove(id).wf(),
{
    let root: Seq<Direction> = Seq::empty();
    lemma_bucket_wf(table.trie, table.local, table.capacity, root, id);
    lemma_without_wf(
        table.trie.bucket(id, 0),
        table.local,
        table.capacity,
        table.trie.bucket_path(id, root),
        id,
    );
    lemma_with_bucket_wf(
        table.trie,
        table.local,
        table.capacity,
        root,
        id,
        without(table.trie.bucket(id, 0), id),
    );
}

/// Whether the trie has a fork at `path`.
pub open spec fn fork_at<V: Contact>(trie: Trie<V>, path: Seq<Direction>) -> bool {
    trie.at(path) matches Some(node) && node is Inner
}

/// A fork is still there after room has been made.
pub proof fn lemma_make_room_keeps_forks<V: Contact>(
    trie: Trie<V>,
    local: Seq<u8>,
    capacity: nat,
    id: Seq<u8>,
    bit_index: nat,
    path: Seq<Direction>,
)
    requires
        fork_at(trie, path),
    ensures
        fork_at(trie.make_room(local, capacity, id, bit_index), path),
    decreases path.len(),
{
    if path.len() > 0 {
        match trie {
            Trie::Leaf { .. } => {},
            Trie::Inner { left, right } => match path[0] {
                Direction::Left => lemma_make_room_keeps_forks(
                    *left,
                    local,
                    capacity,
                    id,
                    bit_index + 1,
                    path.skip(1),
                ),
                Direction::Right => lemma_make_room_keeps_forks(
                    *right,
                    local,
                    capacity,
                    id,
                    bit_index + 1,
                    path.skip(1),
                ),
            },
        }
    }
}

/// A fork is still there after a bucket has been given other contacts.
pub proof fn lemma_with_bucket_keeps_forks<V: Contact>(
    trie: Trie<V>,
    id: Seq<u8>,
    bit_index: nat,
    contacts: Seq<V>,
    path: Seq<Direction>,
)
    requires
        fork_at(trie, path),
    ensures
        fork_at(trie.with_bucket(id, bit_index, contacts), path),
    decreases path.len(),
{
    if path.len() > 0 {
        match trie {
            Trie::Leaf { .. } => {},
            Trie::Inner { left, right } => match path[0] {
                Direction::Left => lemma_with_bucket_keeps_forks(
                    *left,
                    id,
                    bit_index + 1,
                    contacts,
                    path.skip(1),
                ),
                Direction::Right => lemma_with_bucket_keeps_forks(
                    *right,
                    id,
                    bit_index + 1,
                    contacts,
                    path.skip(1),
                ),
            },
        }
    }
}

/// The trie never merges or shrinks: a fork stays where it is when a contact
/// is added and when one is removed, also where both its sides are empty.
pub proof fn lemma_forks_stay<V: Contact>(
    table: Routing<V>,
    candidate: V,
    selection: Selection,
    id: Seq<u8>,
    path: Seq<Direction>,
)
    requires
        fork_at(table.trie, path),
    ensures
        fork_at(table.add(candidate, selection).trie, path),
        fork_at(table.remove(id).trie, path),
{
    let own = key(candidate);
    let roomy = table.trie.make_room(table.local, table.capacity, own, 0);
    lemma_make_room_keeps_forks(table.trie, table.local, table.capacity, own, 0, path);
    lemma_with_bucket_keeps_forks(
        roomy,
        own,
        0,
        offered(roomy.bucket(own, 0), candidate, selection, table.capacity),
        path,
    );
    lemma_with_bucket_keeps_forks(
        table.trie,
        id,
        0,
        without(table.trie.bucket(id, 0), id),
        path,
    );
}

/// Adding changes what the table holds of the candidate's identity only: it
/// then holds the candidate if that replaced an incumbent, or was new and
/// found room in its bucket; the incumbent if that stayed; and nothing if the
/// candidate was new and turned away.
pub proof fn lemma_add_get<V: Contact>(
    table: Routing<V>,
    candidate: V,
    selection: Selection,
    id: Seq<u8>,
)
    requires
        table.wf(),
    ensures
        table.add(candidate, selection).get(id) == (if id != key(candidate) {
            table.get(id)
        } else if table.get(id) is Some {
            if selection is Replace {
                Some(candidate)
            } else {
                table.get(id)
            }
        } else if table.landing(id).len() < table.capacity {
            Some(candidate)
        } else {
            None
        }),
{
    let own = key(candidate);
    let root: Seq<Direction> = Seq::empty();
    let roomy = table.trie.make_room(table.local, table.capacity, own, 0);
    let landing = roomy.bucket(own, 0);
    let after = offered(landing, candidate, selection, table.capacity);
    lemma_make_room_keeps(table.trie, table.local, table.capacity, own, 0, id);
    lemma_make_room_keeps(table.trie, table.local, table.capacity, own, 0, own);
    lemma_with_bucket_get(roomy, own, 0, after, id);
    lemma_index_of(landing, own);
    if holds(landing, own) {
        lemma_index_of(table.trie.bucket(own, 0), own);
        lemma_no_room_needed(table.trie, table.local, table.capacity, own, 0);
        lemma_bucket_wf(table.trie, table.local, table.capacity, root, own);
    }
    lemma_offered_lookup(landing, candidate, selection, table.capacity, id);
}

/// Adding a contact adds one to the count where the contact is new and finds
/// room in its bucket, and leaves the count as it is otherwise.
pub proof fn lemma_add_len<V: Contact>(table: Routing<V>, candidate: V, selection: Selection)
    requires
        table.wf(),
    ensures
        table.add(candidate, selection).len() == table.len() + (if table.get(key(candidate))
            is None && table.landing(key(candidate)).len() < table.capacity {
            1nat
        } else {
            0nat
        }),
{
    let own = key(candidate);
    let root: Seq<Direction> = Seq::empty();
    let roomy = table.trie.make_room(table.local, table.capacity, own, 0);
    let landing = roomy.bucket(own, 0);
    let after = offered(landing, candidate, selection, table.capacity);
    lemma_make_room_keeps(table.trie, table.local, table.capacity, own, 0, own);
    lemma_with_bucket(roomy, own, 0, after);
    lemma_index_of(landing, own);
    if holds(landing, own) {
        lemma_index_of(table.trie.bucket(own, 0), own);
        lemma_no_room_needed(table.trie, table.local, table.capacity, own, 0);
        lemma_bucket_wf(table.trie, table.local, table.capacity, root, own);
    }
    lemma_offered_lookup(landing, candidate, selection, table.capacity, own);
}

/// Removing changes what the table holds of the removed identity only: it
/// then holds nothing of it.
pub proof fn lemma_remove_get<V: Contact>(table: Routing<V>, id: Seq<u8>, other: Seq<u8>)
    requires
        table.wf(),
    ensures
        table.remove(id).get(other) == (if other == id {
            None
        } else {
            table.get(other)
        }),
{
    let root: Seq<Direction> = Seq::empty();
    let bucket = table.trie.bucket(id, 0);
    lemma_bucket_wf(table.trie, table.local, table.capacity, root, id);
    lemma_with_bucket_get(table.trie, id, 0, without(bucket, id), other);
    lemma_without_lookup(bucket, id, other);
}

} // verus!
