//! What holds of the routing table whatever it is given.

use vstd::prelude::*;
use vstd::seq_lib::{lemma_multiset_commutative, to_multiset_build};
use crate::branch::{branch, follows, Direction};
use crate::bucket::{distinct, holds, lemma_index_of, offered, without, Selection};
use crate::contact::{key, Contact};
use crate::contents::{lemma_no_room_needed, lemma_with_bucket};
use crate::distance::{
    longer_len, pow256, xor_digit, xor_distance_spec, xor_fold, xor_number,
};
use crate::identifier::Identifier;
use crate::kbucket::{measured, Routing};
use crate::nearest::{
    ascending, lemma_ordered, nearest_entries, nearest_spec, ordered, paired, placed,
};
use crate::trie::{bits_left, bucket_wf, Trie};
use crate::wellformed::{lemma_follows_push, lemma_full_bucket_has_a_bit};

verus! {

/// The accumulator after `n` digits is the same in both directions.
proof fn lemma_fold_symmetric(a: Seq<u8>, b: Seq<u8>, n: nat)
    ensures
        xor_fold(a, b, n) == xor_fold(b, a, n),
    decreases n,
{
    if n > 0 {
        lemma_fold_symmetric(a, b, (n - 1) as nat);
        let i = n - 1;
        if i < a.len() && i < b.len() {
            let x = a[i];
            let y = b[i];
            assert(x ^ y == y ^ x) by (bit_vector);
        }
        assert(xor_digit(a, b, i) == xor_digit(b, a, i));
    }
}

/// Symmetry: the distance from `a` to `b` is the distance from `b` to `a`,
/// whatever their lengths.
pub proof fn lemma_distance_symmetric(a: Seq<u8>, b: Seq<u8>)
    ensures
        xor_distance_spec(a, b) == xor_distance_spec(b, a),
{
    lemma_fold_symmetric(a, b, longer_len(a, b));
}

/// The accumulator of an identifier against itself stays 0.
proof fn lemma_fold_identity(a: Seq<u8>, n: nat)
    requires
        n <= a.len(),
    ensures
        xor_fold(a, a, n) == 0,
    decreases n,
{
    if n > 0 {
        lemma_fold_identity(a, (n - 1) as nat);
        let x = a[n - 1];
        assert(x ^ x == 0) by (bit_vector);
        assert(xor_digit(a, a, n - 1) == 0);
    }
}

/// Identity: the distance from an identifier to itself is 0.
pub proof fn lemma_distance_identity(a: Seq<u8>)
    ensures
        xor_distance_spec(a, a) == 0,
{
    lemma_fold_identity(a, a.len());
}

/// `n` digits spell a number below 256 to the power of `n`.
proof fn lemma_number_bound(a: Seq<u8>, b: Seq<u8>, n: nat)
    ensures
        xor_number(a, b, n) < pow256(n),
    decreases n,
{
    if n > 0 {
        lemma_number_bound(a, b, (n - 1) as nat);
    }
}

/// The powers of 256 grow.
proof fn lemma_pow256_grows(n: nat, m: nat)
    requires
        n <= m,
    ensures
        pow256(n) <= pow256(m),
        pow256(n) >= 1,
    decreases m,
{
    if n < m {
        lemma_pow256_grows(n, (m - 1) as nat);
    } else if n > 0 {
        lemma_pow256_grows((n - 1) as nat, (n - 1) as nat);
    }
}

/// As many digits as the accumulator has bytes do not make it wrap.
proof fn lemma_pow256_fits(n: nat)
    requires
        8 * n <= usize::BITS,
    ensures
        pow256(n) <= usize::MAX + 1,
{
    assert(pow256(4) == 0x1_0000_0000) by {
        reveal_with_fuel(pow256, 5);
    }
    assert(pow256(8) == 0x1_0000_0000_0000_0000) by {
        reveal_with_fuel(pow256, 9);
    }
    if usize::BITS == 32 {
        lemma_pow256_grows(n, 4);
    } else {
        lemma_pow256_grows(n, 8);
    }
}

/// While the digits fit the accumulator, it holds the number that they
/// spell.
proof fn lemma_fold_exact(a: Seq<u8>, b: Seq<u8>, n: nat)
    requires
        pow256(n) <= usize::MAX + 1,
    ensures
        xor_fold(a, b, n) == xor_number(a, b, n),
    decreases n,
{
    if n > 0 {
        let m = (n - 1) as nat;
        lemma_pow256_grows(m, m);
        lemma_fold_exact(a, b, m);
        lemma_number_bound(a, b, m);
        lemma_number_bound(a, b, n);
        let acc = xor_fold(a, b, m);
        assert(acc * 256 + xor_digit(a, b, n - 1) <= usize::MAX);
        assert((acc as nat * 256nat) % ((usize::MAX + 1) as nat) == acc * 256) by {
            vstd::arithmetic::div_mod::lemma_small_mod(
                (acc * 256) as nat,
                (usize::MAX + 1) as nat,
            );
        }
    }
}

/// Within the width of the accumulator the distance is exact: for
/// identifiers of no more bytes than a `usize` has, it is the number that the
/// bytes of their XOR spell, most significant byte first, with `0xFF` for
/// each byte that only the longer one has.
pub proof fn lemma_distance_exact(a: Seq<u8>, b: Seq<u8>)
    requires
        8 * longer_len(a, b) <= usize::BITS,
    ensures
        xor_distance_spec(a, b) == xor_number(a, b, longer_len(a, b)),
{
    lemma_pow256_fits(longer_len(a, b));
    lemma_fold_exact(a, b, longer_len(a, b));
}

/// The XOR distance of each of `contacts` to `target`.
pub open spec fn xor_distances<V: Contact>(contacts: Seq<V>, target: Seq<u8>) -> Seq<usize> {
    Seq::new(contacts.len(), |i: int| xor_distance_spec(key(contacts[i]), target))
}

/// Whether contacts of this type measure distance by the XOR metric, as they
/// do unless the type says otherwise.
pub open spec fn keeps_xor_metric<V: Contact>() -> bool {
    forall|contact: V, target: V::Id, distance: usize|
        #[trigger] call_ensures(V::distance, (&contact, &target), distance) ==> distance
            == xor_distance_spec(key(contact), target.bytes())
}

/// Where the contacts keep the XOR metric, the distances by which `closest`
/// orders its candidates are their XOR distances to the target, and so what
/// it returns is determined by the table and the target.
pub proof fn lemma_measured_by_xor<V: Contact>(
    contacts: Seq<V>,
    target: V::Id,
    distances: Seq<usize>,
)
    requires
        keeps_xor_metric::<V>(),
        measured(contacts, target, distances),
    ensures
        distances == xor_distances(contacts, target.bytes()),
{
    assert(distances =~= xor_distances(contacts, target.bytes()));
}

/// Bare identifiers keep the XOR metric.
pub proof fn lemma_bare_identifiers_keep_xor_metric<const N: usize>()
    ensures
        keeps_xor_metric::<[u8; N]>(),
{
}

/// Idempotent refresh: adding a contact whose identity the table already has
/// never changes the number of contacts, however the two are settled.
pub proof fn lemma_refresh_keeps_len<V: Contact>(
    table: Routing<V>,
    candidate: V,
    selection: Selection,
)
    requires
        table.get(key(candidate)) is Some,
    ensures
        table.add(candidate, selection).len() == table.len(),
{
    let id = key(candidate);
    let bucket = table.trie.bucket(id, 0);
    lemma_index_of(bucket, id);
    lemma_no_room_needed(table.trie, table.local, table.capacity, id, 0);
    lemma_with_bucket(table.trie, id, 0, offered(bucket, candidate, selection, table.capacity));
}

/// Removal: removing an identity that the table has takes exactly one
/// contact away, namely that one; removing one that it does not have changes
/// nothing.
pub proof fn lemma_remove_len<V: Contact>(table: Routing<V>, id: Seq<u8>)
    ensures
        table.get(id) is Some ==> table.remove(id).len() == table.len() - 1,
        table.get(id) is None ==> table.remove(id) == table,
{
    let bucket = table.trie.bucket(id, 0);
    lemma_index_of(bucket, id);
    lemma_with_bucket(table.trie, id, 0, without(bucket, id));
}

/// The table after each of `candidates` has been added in turn, the `i`-th
/// settled by `selections[i]`.
pub open spec fn add_all<V: Contact>(
    table: Routing<V>,
    candidates: Seq<V>,
    selections: Seq<Selection>,
) -> Routing<V>
    decreases candidates.len(),
{
    if candidates.len() == 0 {
        table
    } else {
        add_all(table, candidates.drop_last(), selections).add(
            candidates.last(),
            selections[candidates.len() - 1],
        )
    }
}

/// The empty table of the node `local`.
pub open spec fn empty_table<V: Contact>(local: Seq<u8>, capacity: nat, ping_count: nat) -> Routing<
    V,
> {
    Routing { local, capacity, ping_count, trie: Trie::fresh() }
}

/// Bounded leaf: adding contacts of distinct identities to an empty table,
/// no more of them than a bucket holds, leaves the root a single bucket that
/// holds them in the order in which they came and is not frozen.
pub proof fn lemma_bounded_leaf<V: Contact>(
    local: Seq<u8>,
    capacity: nat,
    ping_count: nat,
    candidates: Seq<V>,
    selections: Seq<Selection>,
)
    requires
        distinct(candidates),
        candidates.len() <= capacity,
    ensures
        add_all(empty_table(local, capacity, ping_count), candidates, selections) == (Routing {
            local,
            capacity,
            ping_count,
            trie: Trie::Leaf { contacts: candidates, dont_split: false },
        }),
    decreases candidates.len(),
{
    let start = empty_table::<V>(local, capacity, ping_count);
    if candidates.len() == 0 {
        assert(candidates =~= Seq::<V>::empty());
    } else {
        let rest = candidates.drop_last();
        let last = candidates.last();
        assert(distinct(rest)) by {
            assert forall|i: int, j: int| 0 <= i < j < rest.len() implies key(#[trigger] rest[i])
                != key(#[trigger] rest[j]) by {
                assert(rest[i] == candidates[i] && rest[j] == candidates[j]);
            }
        }
        lemma_bounded_leaf(local, capacity, ping_count, rest, selections);
        let before = add_all(start, rest, selections);
        assert(!holds(rest, key(last))) by {
            if holds(rest, key(last)) {
                let i = choose|i: int| 0 <= i < rest.len() && key(#[trigger] rest[i]) == key(last);
                assert(rest[i] == candidates[i]);
                assert(candidates[candidates.len() - 1] == last);
            }
        }
        lemma_index_of(rest, key(last));
        assert(before.trie.make_room(local, capacity, key(last), 0) == before.trie);
        assert(rest.push(last) =~= candidates);
    }
}

/// Split trigger: adding one contact more than a bucket holds to an empty
/// table, all of distinct identities that the table admits, makes the root a
/// fork.
pub proof fn lemma_split_trigger<V: Contact>(
    local: Seq<u8>,
    capacity: nat,
    ping_count: nat,
    candidates: Seq<V>,
    selections: Seq<Selection>,
)
    requires
        distinct(candidates),
        candidates.len() == capacity + 1,
        forall|i: int|
            0 <= i < candidates.len() ==> empty_table::<V>(local, capacity, ping_count).admits(
                #[trigger] candidates[i],
            ),
    ensures
        add_all(empty_table(local, capacity, ping_count), candidates, selections).trie is Inner,
{
    let start = empty_table::<V>(local, capacity, ping_count);
    let rest = candidates.drop_last();
    let last = candidates.last();
    let id = key(last);
    assert(distinct(rest)) by {
        assert forall|i: int, j: int| 0 <= i < j < rest.len() implies key(#[trigger] rest[i])
            != key(#[trigger] rest[j]) by {
            assert(rest[i] == candidates[i] && rest[j] == candidates[j]);
        }
    }
    lemma_bounded_leaf(local, capacity, ping_count, rest, selections);
    let before = add_all(start, rest, selections);
    assert(!holds(rest, id)) by {
        if holds(rest, id) {
            let i = choose|i: int| 0 <= i < rest.len() && key(#[trigger] rest[i]) == id;
            assert(rest[i] == candidates[i]);
            assert(candidates[candidates.len() - 1] == last);
        }
    }
    let root: Seq<Direction> = Seq::empty();
    assert(bucket_wf(rest, local, capacity, root)) by {
        assert forall|i: int| 0 <= i < rest.len() implies {
            &&& key(#[trigger] rest[i]).len() == local.len()
            &&& follows(key(rest[i]), root)
        } by {
            assert(rest[i] == candidates[i]);
            assert(start.admits(candidates[i]));
        }
    }
    assert(start.admits(candidates[candidates.len() - 1]));
    lemma_full_bucket_has_a_bit(rest, local, capacity, root, id);
    let roomy = before.trie.make_room(local, capacity, id, 0);
    assert(roomy is Inner);
    lemma_with_bucket(
        roomy,
        id,
        0,
        offered(roomy.bucket(id, 0), last, selections[candidates.len() - 1], capacity),
    );
}

/// Freeze invariant, below a node at `prefix`: a bucket is frozen exactly if
/// its path leaves that of the node's own identifier.
pub proof fn lemma_frozen_off_the_path<V: Contact>(
    trie: Trie<V>,
    local: Seq<u8>,
    capacity: nat,
    prefix: Seq<Direction>,
    path: Seq<Direction>,
)
    requires
        trie.wf(local, capacity, prefix),
        trie.at(path) is Some,
    ensures
        trie.at(path)->0.wf(local, capacity, prefix + path),
        trie.at(path)->0 matches Trie::Leaf { dont_split, .. } ==> dont_split == !follows(
            local,
            prefix + path,
        ),
        trie.at(path)->0 is Inner ==> follows(local, prefix + path),
    decreases path.len(),
{
    if path.len() == 0 {
        assert(prefix + path =~= prefix);
    } else {
        match trie {
            Trie::Leaf { .. } => {},
            Trie::Inner { left, right } => {
                assert(prefix.push(path[0]) + path.skip(1) =~= prefix + path);
                match path[0] {
                    Direction::Left => lemma_frozen_off_the_path(
                        *left,
                        local,
                        capacity,
                        prefix.push(Direction::Left),
                        path.skip(1),
                    ),
                    Direction::Right => lemma_frozen_off_the_path(
                        *right,
                        local,
                        capacity,
                        prefix.push(Direction::Right),
                        path.skip(1),
                    ),
                }
            },
        }
    }
}

/// Freeze invariant: in a well-formed table, and so after any split, every
/// bucket whose path leaves that of the node's own identifier is frozen, and
/// every bucket on that path is not; and every fork lies on that path.
pub proof fn lemma_freeze<V: Contact>(table: Routing<V>, path: Seq<Direction>)
    requires
        table.wf(),
        table.trie.at(path) is Some,
    ensures
        table.trie.at(path)->0 matches Trie::Leaf { dont_split, .. } ==> dont_split == !follows(
            table.local,
            path,
        ),
        table.trie.at(path)->0 is Inner ==> follows(table.local, path),
{
    lemma_frozen_off_the_path(table.trie, table.local, table.capacity, Seq::empty(), path);
    assert(Seq::<Direction>::empty() + path =~= path);
}

/// Below a node that identifiers reach with `bits` bits to go there are no
/// more buckets than `bits + 1`, one to each bit and one at the end: the side
/// of a fork that the node's own identifier does not take is a single frozen
/// bucket.
pub proof fn lemma_size_below<V: Contact>(
    trie: Trie<V>,
    local: Seq<u8>,
    capacity: nat,
    path: Seq<Direction>,
)
    requires
        trie.wf(local, capacity, path),
    ensures
        trie.len() <= capacity * (bits_left(local.len(), path.len()) + 1),
        trie.nodes() <= 2 * bits_left(local.len(), path.len()) + 1,
    decreases trie,
{
    match trie {
        Trie::Leaf { contacts, .. } => {
            assert(capacity * (bits_left(local.len(), path.len()) + 1) >= capacity)
                by (nonlinear_arith);
        },
        Trie::Inner { left, right } => {
            let bits = bits_left(local.len(), path.len());
            let on = path.push(branch(local, path.len()));
            lemma_follows_push(local, path, Direction::Left);
            lemma_follows_push(local, path, Direction::Right);
            lemma_size_below(*left, local, capacity, path.push(Direction::Left));
            lemma_size_below(*right, local, capacity, path.push(Direction::Right));
            assert(bits_left(local.len(), path.len() + 1) == bits - 1);
            assert(capacity * (bits - 1 + 1) + capacity == capacity * (bits + 1))
                by (nonlinear_arith);
            match branch(local, path.len()) {
                Direction::Left => {
                    assert(*right is Leaf);
                },
                Direction::Right => {
                    assert(*left is Leaf);
                },
            }
        },
    }
}

/// Bounded size: a well-formed table has no more buckets than its
/// identifiers have bits, and one; so it holds no more contacts than that
/// many buckets hold.
pub proof fn lemma_size_bound<V: Contact>(table: Routing<V>)
    requires
        table.wf(),
    ensures
        table.len() <= table.capacity * (8 * table.local.len() + 1),
        table.trie.nodes() <= 16 * table.local.len() + 1,
{
    lemma_size_below(table.trie, table.local, table.capacity, Seq::empty());
}

/// Gathering without a limit that is reached takes every contact below the
/// node, each once.
pub proof fn lemma_gather_all<V: Contact>(
    trie: Trie<V>,
    target: Seq<u8>,
    limit: Option<nat>,
    bit_index: nat,
    found: Seq<V>,
)
    requires
        limit is Some ==> found.len() + trie.len() <= limit->0,
    ensures
        trie.gather(target, limit, bit_index, found).to_multiset() == found.to_multiset().add(
            trie.contacts().to_multiset(),
        ),
        trie.gather(target, limit, bit_index, found).len() == found.len() + trie.len(),
    decreases trie,
{
    broadcast use lemma_multiset_commutative;

    match trie {
        Trie::Leaf { contacts, .. } => {
            if limit is Some && found.len() >= limit->0 {
                assert(contacts =~= Seq::<V>::empty());
                assert(found + contacts =~= found);
            }
        },
        Trie::Inner { left, right } => {
            if limit is Some && found.len() >= limit->0 {
                lemma_no_contacts(*left);
                lemma_no_contacts(*right);
                assert(trie.contacts() =~= Seq::<V>::empty());
                assert(found + trie.contacts() =~= found);
            } else {
                match branch(target, bit_index) {
                    Direction::Left => {
                        lemma_gather_all(*left, target, limit, bit_index + 1, found);
                        let first = left.gather(target, limit, bit_index + 1, found);
                        lemma_gather_all(*right, target, limit, bit_index + 1, first);
                    },
                    Direction::Right => {
                        lemma_gather_all(*right, target, limit, bit_index + 1, found);
                        let first = right.gather(target, limit, bit_index + 1, found);
                        lemma_gather_all(*left, target, limit, bit_index + 1, first);
                    },
                }
                assert(found.to_multiset().add(left.contacts().to_multiset()).add(
                    right.contacts().to_multiset(),
                ) =~= found.to_multiset().add(
                    right.contacts().to_multiset().add(left.contacts().to_multiset()),
                ));
                assert(found.to_multiset().add(right.contacts().to_multiset()).add(
                    left.contacts().to_multiset(),
                ) =~= found.to_multiset().add(
                    right.contacts().to_multiset().add(left.contacts().to_multiset()),
                ));
            }
        },
    }
}

/// A trie that counts no contact lists none.
proof fn lemma_no_contacts<V: Contact>(trie: Trie<V>)
    requires
        trie.len() == 0,
    ensures
        trie.contacts() =~= Seq::<V>::empty(),
    decreases trie,
{
    match trie {
        Trie::Leaf { .. } => {},
        Trie::Inner { left, right } => {
            lemma_no_contacts(*left);
            lemma_no_contacts(*right);
        },
    }
}

/// The contacts of some entries.
pub open spec fn contacts_of<V>(entries: Seq<(usize, V)>) -> Seq<V> {
    entries.map_values(|entry: (usize, V)| entry.1)
}

/// Placing an entry adds its contact to the contacts, and nothing else.
proof fn lemma_placed_contacts<V>(sorted: Seq<(usize, V)>, entry: (usize, V))
    ensures
        contacts_of(placed(sorted, entry)).to_multiset() == contacts_of(sorted).to_multiset().insert(
            entry.1,
        ),
    decreases sorted.len(),
{
    broadcast use to_multiset_build;

    if sorted.len() == 0 {
        assert(contacts_of(seq![entry]) =~= Seq::<V>::empty().push(entry.1));
        assert(contacts_of(sorted) =~= Seq::<V>::empty());
    } else if sorted.last().0 <= entry.0 {
        assert(contacts_of(sorted.push(entry)) =~= contacts_of(sorted).push(entry.1));
    } else {
        let rest = sorted.drop_last();
        let last = sorted.last();
        lemma_placed_contacts(rest, entry);
        assert(contacts_of(placed(rest, entry).push(last)) =~= contacts_of(placed(rest, entry)).push(
            last.1,
        ));
        assert(sorted =~= rest.push(last));
        assert(contacts_of(rest.push(last)) =~= contacts_of(rest).push(last.1));
        assert(contacts_of(rest).to_multiset().insert(entry.1).insert(last.1) =~= contacts_of(
            rest,
        ).to_multiset().insert(last.1).insert(entry.1));
    }
}

/// Ordering contacts by distance neither adds nor drops a contact.
pub proof fn lemma_ordered_contacts<V>(contacts: Seq<V>, distances: Seq<usize>)
    ensures
        contacts_of(ordered(paired(distances, contacts))).to_multiset() == contacts.to_multiset(),
    decreases contacts.len(),
{
    broadcast use to_multiset_build;

    let entries = paired(distances, contacts);
    if contacts.len() == 0 {
        assert(contacts_of(ordered(entries)) =~= Seq::<V>::empty());
        assert(contacts =~= Seq::<V>::empty());
    } else {
        let rest = contacts.drop_last();
        assert(entries.drop_last() =~= paired(distances, rest));
        lemma_ordered_contacts(rest, distances);
        lemma_placed_contacts(ordered(entries.drop_last()), entries.last());
        assert(contacts =~= rest.push(contacts.last()));
    }
}

/// Closest bound, of the ordering: what is returned is no longer than the
/// limit, and shorter only where there are no more candidates; it is in
/// ascending order of distance; each contact in it is a candidate, with the
/// distance that was given for it; and where the limit does not cut, it is
/// made of the candidates, each once.
pub proof fn lemma_nearest<V>(contacts: Seq<V>, distances: Seq<usize>, limit: Option<nat>)
    requires
        contacts.len() == distances.len(),
    ensures
        nearest_spec(contacts, distances, limit).len() == nearest_entries(
            contacts,
            distances,
            limit,
        ).len(),
        nearest_spec(contacts, distances, limit).len() == (if limit is Some && limit->0
            < contacts.len() {
            limit->0
        } else {
            contacts.len()
        }),
        ascending(nearest_entries(contacts, distances, limit)),
        forall|i: int|
            0 <= i < nearest_entries(contacts, distances, limit).len() ==> {
                &&& nearest_spec(contacts, distances, limit)[i] == nearest_entries(
                    contacts,
                    distances,
                    limit,
                )[i].1
                &&& exists|j: int|
                    0 <= j < contacts.len() && #[trigger] nearest_entries(
                        contacts,
                        distances,
                        limit,
                    )[i] == (distances[j], #[trigger] contacts[j])
            },
        limit is None || contacts.len() <= limit->0 ==> nearest_spec(
            contacts,
            distances,
            limit,
        ).to_multiset() == contacts.to_multiset(),
{
    let entries = paired(distances, contacts);
    let all = ordered(entries);
    let cut = nearest_entries(contacts, distances, limit);
    lemma_ordered(entries);
    lemma_ordered_contacts(contacts, distances);
    assert forall|i: int| 0 <= i < cut.len() implies {
        &&& nearest_spec(contacts, distances, limit)[i] == cut[i].1
        &&& exists|j: int|
            0 <= j < contacts.len() && #[trigger] cut[i] == (distances[j], #[trigger] contacts[j])
    } by {
        assert(cut[i] == all[i]);
        all.to_multiset_ensures();
        entries.to_multiset_ensures();
        assert(all.contains(all[i]));
        assert(entries.to_multiset().count(all[i]) > 0);
        assert(entries.contains(all[i]));
        let j = choose|j: int| 0 <= j < entries.len() && entries[j] == all[i];
        assert(cut[i] == (distances[j], contacts[j]));
    }
    if limit is None || contacts.len() <= limit->0 {
        assert(nearest_spec(contacts, distances, limit) =~= contacts_of(all));
    }
}

/// Closest bound, of the table: where the table has fewer contacts than are
/// asked for, or all are asked for, the candidates are all its contacts, each
/// once, and so is what `closest` returns.
pub proof fn lemma_closest_takes_all<V: Contact>(
    table: Routing<V>,
    target: Seq<u8>,
    limit: Option<nat>,
    distances: Seq<usize>,
)
    requires
        limit is Some ==> table.len() <= limit->0,
        distances.len() == table.candidates(target, limit).len(),
    ensures
        table.candidates(target, limit).to_multiset() == table.contacts().to_multiset(),
        nearest_spec(table.candidates(target, limit), distances, limit).to_multiset()
            == table.contacts().to_multiset(),
        nearest_spec(table.candidates(target, limit), distances, limit).len() == table.len(),
{
    let none: Seq<V> = Seq::empty();
    lemma_gather_all(table.trie, target, limit, 0, none);
    assert(none.to_multiset().add(table.contacts().to_multiset()) =~= table.contacts().to_multiset())
        by {
        none.to_multiset_ensures();
    }
    lemma_nearest(table.candidates(target, limit), distances, limit);
}

} // verus!
