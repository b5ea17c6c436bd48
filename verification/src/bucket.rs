//! One bucket: the contacts of a single leaf, oldest first.

use vstd::prelude::*;
use vstd::std_specs::cmp::PartialEqSpec;
use crate::branch::{branch, Direction};
use crate::contact::{key, Contact};
use crate::identifier::{copy_bytes, same_bytes, Identifier};

verus! {

/// How a bucket settles between an incumbent and a candidate of one identity.
#[derive(Clone, Copy, Debug, PartialEq, Eq, Structural)]
pub enum Selection {
    /// The candidate takes the incumbent's place, at the tail.
    Replace,
    /// The incumbent stays and moves to the tail; the candidate is dropped.
    Refresh,
    /// The incumbent stays where it is; the candidate is dropped.
    Keep,
}

/// Whether `index` is the first position of `contacts` that holds `id`.
pub open spec fn is_first_match<V: Contact>(contacts: Seq<V>, id: Seq<u8>, index: int) -> bool {
    &&& 0 <= index < contacts.len()
    &&& key(contacts[index]) == id
    &&& forall|j: int| 0 <= j < index ==> key(#[trigger] contacts[j]) != id
}

/// Whether some contact of the bucket has identity `id`.
pub open spec fn holds<V: Contact>(contacts: Seq<V>, id: Seq<u8>) -> bool {
    exists|i: int| 0 <= i < contacts.len() && key(#[trigger] contacts[i]) == id
}

/// The first position of `contacts` that holds `id`, if there is one.
pub open spec fn index_of_spec<V: Contact>(contacts: Seq<V>, id: Seq<u8>) -> Option<int> {
    if exists|i: int| is_first_match(contacts, id, i) {
        Some(choose|i: int| is_first_match(contacts, id, i))
    } else {
        None
    }
}

/// No two contacts of the bucket have the same identity.
pub open spec fn distinct<V: Contact>(contacts: Seq<V>) -> bool {
    forall|i: int, j: int|
        0 <= i < j < contacts.len() ==> key(#[trigger] contacts[i]) != key(#[trigger] contacts[j])
}

/// The bucket after `selection` has been carried out between the incumbent
/// at `index` and `candidate`.
pub open spec fn settled<V: Contact>(
    contacts: Seq<V>,
    index: int,
    candidate: V,
    selection: Selection,
) -> Seq<V> {
    match selection {
        Selection::Replace => contacts.remove(index).push(candidate),
        Selection::Refresh => contacts.remove(index).push(contacts[index]),
        Selection::Keep => contacts,
    }
}

/// The bucket after `candidate` has been offered to it: an incumbent of the
/// same identity is settled with, a new identity is appended while there is
/// room for it, and is left out otherwise.
pub open spec fn offered<V: Contact>(
    contacts: Seq<V>,
    candidate: V,
    selection: Selection,
    capacity: nat,
) -> Seq<V> {
    match index_of_spec(contacts, key(candidate)) {
        Some(index) => settled(contacts, index, candidate, selection),
        None => if contacts.len() < capacity {
            contacts.push(candidate)
        } else {
            contacts
        },
    }
}

/// The bucket without the contact of identity `id`.
pub open spec fn without<V: Contact>(contacts: Seq<V>, id: Seq<u8>) -> Seq<V> {
    match index_of_spec(contacts, id) {
        Some(index) => contacts.remove(index),
        None => contacts,
    }
}

/// The contact of identity `id`, if the bucket has one.
pub open spec fn lookup<V: Contact>(contacts: Seq<V>, id: Seq<u8>) -> Option<V> {
    match index_of_spec(contacts, id) {
        Some(index) => Some(contacts[index]),
        None => None,
    }
}

/// Whether a contact turns towards `side` at `bit_index`.
pub open spec fn turns<V: Contact>(bit_index: nat, side: Direction) -> spec_fn(V) -> bool {
    |contact: V| branch(key(contact), bit_index) == side
}

/// The contacts of the bucket that turn towards `side` at `bit_index`, in
/// their order.
pub open spec fn side_of<V: Contact>(contacts: Seq<V>, bit_index: nat, side: Direction) -> Seq<V> {
    contacts.filter(turns(bit_index, side))
}

/// The identities of the `count` oldest contacts of the bucket, or of all of
/// them if there are fewer.
pub open spec fn oldest_ids<V: Contact>(contacts: Seq<V>, count: nat) -> Seq<Seq<u8>> {
    let n = if count <= contacts.len() {
        count as int
    } else {
        contacts.len() as int
    };
    Seq::new(n as nat, |i: int| key(contacts[i]))
}

/// What `index_of_spec` returns is the first match, and it returns nothing
/// only where nothing matches.
pub proof fn lemma_index_of<V: Contact>(contacts: Seq<V>, id: Seq<u8>)
    ensures
        match index_of_spec(contacts, id) {
            Some(index) => is_first_match(contacts, id, index),
            None => !holds(contacts, id),
        },
        holds(contacts, id) <==> index_of_spec(contacts, id) is Some,
{
    if holds(contacts, id) {
        let i = choose|i: int| 0 <= i < contacts.len() && key(#[trigger] contacts[i]) == id;
        lemma_first_match_exists(contacts, id, i);
    }
}

proof fn lemma_first_match_exists<V: Contact>(contacts: Seq<V>, id: Seq<u8>, i: int)
    requires
        0 <= i < contacts.len(),
        key(contacts[i]) == id,
    ensures
        exists|f: int| is_first_match(contacts, id, f),
    decreases i,
{
    if forall|j: int| 0 <= j < i ==> key(#[trigger] contacts[j]) != id {
        assert(is_first_match(contacts, id, i));
    } else {
        let j = choose|j: int| 0 <= j < i && key(#[trigger] contacts[j]) == id;
        lemma_first_match_exists(contacts, id, j);
    }
}

/// A first match is the first match.
pub proof fn lemma_first_match_is_index<V: Contact>(contacts: Seq<V>, id: Seq<u8>, index: int)
    requires
        is_first_match(contacts, id, index),
    ensures
        index_of_spec(contacts, id) == Some(index),
{
    let chosen = choose|i: int| is_first_match(contacts, id, i);
    assert(is_first_match(contacts, id, chosen));
    if chosen < index {
        assert(key(contacts[chosen]) != id);
    } else if index < chosen {
        assert(key(contacts[index]) != id);
    }
}

/// Looking up in a bucket with one more contact at the tail: what was found
/// before is found, and the new contact only where nothing was.
pub proof fn lemma_lookup_push<V: Contact>(contacts: Seq<V>, contact: V, id: Seq<u8>)
    ensures
        lookup(contacts.push(contact), id) == (if lookup(contacts, id) is Some {
            lookup(contacts, id)
        } else if key(contact) == id {
            Some(contact)
        } else {
            None
        }),
{
    let longer = contacts.push(contact);
    lemma_index_of(contacts, id);
    lemma_index_of(longer, id);
    match index_of_spec(contacts, id) {
        Some(index) => {
            assert(is_first_match(longer, id, index)) by {
                assert(longer[index] == contacts[index]);
                assert forall|j: int| 0 <= j < index implies key(#[trigger] longer[j]) != id by {
                    assert(longer[j] == contacts[j]);
                }
            }
            lemma_first_match_is_index(longer, id, index);
        },
        None => {
            if key(contact) == id {
                assert(is_first_match(longer, id, contacts.len() as int)) by {
                    assert forall|j: int| 0 <= j < contacts.len() implies key(#[trigger] longer[j])
                        != id by {
                        assert(longer[j] == contacts[j]);
                    }
                }
                lemma_first_match_is_index(longer, id, contacts.len() as int);
            } else {
                if holds(longer, id) {
                    let i = choose|i: int| 0 <= i < longer.len() && key(#[trigger] longer[i]) == id;
                    assert(longer[i] == contacts[i]);
                }
            }
        },
    }
}

/// Looking up an identity in a bucket from which a contact of another
/// identity was taken out: nothing changes.
pub proof fn lemma_lookup_remove<V: Contact>(contacts: Seq<V>, index: int, id: Seq<u8>)
    requires
        0 <= index < contacts.len(),
        key(contacts[index]) != id,
    ensures
        lookup(contacts.remove(index), id) == lookup(contacts, id),
{
    let shorter = contacts.remove(index);
    lemma_index_of(contacts, id);
    lemma_index_of(shorter, id);
    assert forall|j: int| 0 <= j < shorter.len() implies #[trigger] shorter[j] == contacts[if j
        < index {
        j
    } else {
        j + 1
    }] by {}
    match index_of_spec(contacts, id) {
        Some(found) => {
            let moved = if found < index {
                found
            } else {
                found - 1
            };
            assert(is_first_match(shorter, id, moved)) by {
                assert forall|j: int| 0 <= j < moved implies key(#[trigger] shorter[j]) != id by {
                    assert(key(contacts[if j < index {
                        j
                    } else {
                        j + 1
                    }]) != id);
                }
            }
            lemma_first_match_is_index(shorter, id, moved);
        },
        None => {
            if holds(shorter, id) {
                let i = choose|i: int| 0 <= i < shorter.len() && key(#[trigger] shorter[i]) == id;
                assert(key(contacts[if i < index {
                    i
                } else {
                    i + 1
                }]) == id);
            }
        },
    }
}

/// Taking the one contact of an identity out of a bucket of distinct
/// identities leaves none of that identity.
pub proof fn lemma_lookup_removed<V: Contact>(contacts: Seq<V>, index: int)
    requires
        0 <= index < contacts.len(),
        distinct(contacts),
    ensures
        lookup(contacts.remove(index), key(contacts[index])) is None,
{
    let id = key(contacts[index]);
    let shorter = contacts.remove(index);
    lemma_index_of(shorter, id);
    if holds(shorter, id) {
        let i = choose|i: int| 0 <= i < shorter.len() && key(#[trigger] shorter[i]) == id;
        let before = if i < index {
            i
        } else {
            i + 1
        };
        assert(shorter[i] == contacts[before]);
        if before < index {
            assert(key(contacts[before]) != key(contacts[index]));
        } else {
            assert(key(contacts[index]) != key(contacts[before]));
        }
    }
}

/// The side of a bucket that an identity turns to holds it exactly if the
/// bucket does, and holds the same contact of it.
pub proof fn lemma_lookup_side<V: Contact>(contacts: Seq<V>, bit_index: nat, id: Seq<u8>)
    ensures
        lookup(side_of(contacts, bit_index, branch(id, bit_index)), id) == lookup(contacts, id),
    decreases contacts.len(),
{
    reveal(Seq::filter);
    let side = branch(id, bit_index);
    if contacts.len() == 0 {
        lemma_index_of(contacts, id);
        lemma_index_of(side_of(contacts, bit_index, side), id);
    } else {
        let rest = contacts.drop_last();
        let last = contacts.last();
        lemma_lookup_side(rest, bit_index, id);
        assert(contacts =~= rest.push(last));
        lemma_lookup_push(rest, last, id);
        if branch(key(last), bit_index) == side {
            assert(side_of(contacts, bit_index, side) == side_of(rest, bit_index, side).push(last));
            lemma_lookup_push(side_of(rest, bit_index, side), last, id);
        } else {
            assert(side_of(contacts, bit_index, side) == side_of(rest, bit_index, side));
        }
    }
}

/// The two sides of a bucket have its contacts between them.
pub proof fn lemma_sides_len<V: Contact>(contacts: Seq<V>, bit_index: nat)
    ensures
        side_of(contacts, bit_index, Direction::Left).len() + side_of(
            contacts,
            bit_index,
            Direction::Right,
        ).len() == contacts.len(),
    decreases contacts.len(),
{
    reveal(Seq::filter);
    if contacts.len() > 0 {
        lemma_sides_len(contacts.drop_last(), bit_index);
    }
}

/// Finds the position of the contact of identity `id`.
pub fn index_of<I: Identifier, V: Contact<Id = I>>(contacts: &[V], id: &I) -> (index: Option<usize>)
    ensures
        match index {
            Some(i) => index_of_spec(contacts@, id.bytes()) == Some(i as int),
            None => index_of_spec(contacts@, id.bytes()) is None,
        },
{
    let mut i: usize = 0;
    while i < contacts.len()
        invariant
            i <= contacts@.len(),
            forall|j: int| 0 <= j < i ==> key(#[trigger] contacts@[j]) != id.bytes(),
        decreases contacts@.len() - i,
    {
        if same_bytes(contacts[i].id().as_bytes(), id.as_bytes()) {
            proof {
                lemma_first_match_is_index(contacts@, id.bytes(), i as int);
            }
            return Some(i);
        }
        i += 1;
    }
    proof {
        lemma_index_of(contacts@, id.bytes());
    }
    None
}

/// Carries out `selection` between the incumbent at `index` and `contact`.
pub fn settle<V: Contact>(contacts: &mut Vec<V>, index: usize, contact: V, selection: Selection)
    requires
        index < old(contacts)@.len(),
    ensures
        final(contacts)@ == settled(old(contacts)@, index as int, contact, selection),
{
    match selection {
        Selection::Replace => {
            contacts.remove(index);
            contacts.push(contact);
        },
        Selection::Refresh => {
            let incumbent = contacts.remove(index);
            contacts.push(incumbent);
        },
        Selection::Keep => {},
    }
}

/// Settles between the incumbent at `index` and `contact`, which has the same
/// identity: the incumbent is asked whether it should be replaced, and where
/// it declines it is refreshed only if the two are equal.
pub fn update<V: Contact>(contacts: &mut Vec<V>, index: usize, contact: V) -> (selection: Selection)
    requires
        index < old(contacts)@.len(),
    ensures
        final(contacts)@ == settled(old(contacts)@, index as int, contact, selection),
        call_ensures(
            V::should_replace,
            (&old(contacts)@[index as int], &contact),
            selection is Replace,
        ),
        V::obeys_eq_spec() && selection !is Replace ==> (selection is Refresh <==> old(
            contacts,
        )@[index as int].eq_spec(&contact)),
{
    let incumbent = &contacts[index];
    let should_replace = incumbent.should_replace(&contact);
    let selection = if should_replace {
        Selection::Replace
    } else if *incumbent != contact {
        Selection::Keep
    } else {
        Selection::Refresh
    };
    settle(contacts, index, contact, selection);
    selection
}

/// Copies the identities of the `count` oldest contacts.
pub fn ping_candidates<V: Contact>(contacts: &[V], count: usize) -> (ids: Vec<Vec<u8>>)
    ensures
        ids@.map_values(|id: Vec<u8>| id@) == oldest_ids(contacts@, count as nat),
{
    let n = if count <= contacts.len() {
        count
    } else {
        contacts.len()
    };
    let mut ids: Vec<Vec<u8>> = Vec::new();
    let mut i: usize = 0;
    while i < n
        invariant
            i <= n <= contacts@.len(),
            ids@.len() == i,
            forall|j: int| 0 <= j < i ==> (#[trigger] ids@[j])@ == key(contacts@[j]),
        decreases n - i,
    {
        ids.push(copy_bytes(contacts[i].id().as_bytes()));
        i += 1;
    }
    assert(ids@.map_values(|id: Vec<u8>| id@) =~= oldest_ids(contacts@, count as nat));
    ids
}

} // verus!
