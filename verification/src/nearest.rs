//! Ordering candidates by their distance to a target.

use vstd::prelude::*;
use vstd::seq_lib::to_multiset_build;
use crate::node::{borrowed, limit_of};

verus! {

/// `sorted` with `entry` put in behind every entry that is not farther than
/// it: the one place that keeps an ascending sequence ascending and keeps
/// entries at one distance in the order in which they came.
pub open spec fn placed<V>(sorted: Seq<(usize, V)>, entry: (usize, V)) -> Seq<(usize, V)>
    decreases sorted.len(),
{
    if sorted.len() == 0 {
        seq![entry]
    } else if sorted.last().0 <= entry.0 {
        sorted.push(entry)
    } else {
        placed(sorted.drop_last(), entry).push(sorted.last())
    }
}

/// `entries` in ascending order of distance, entries at one distance in the
/// order in which they stand in `entries`.
pub open spec fn ordered<V>(entries: Seq<(usize, V)>) -> Seq<(usize, V)>
    decreases entries.len(),
{
    if entries.len() == 0 {
        Seq::empty()
    } else {
        placed(ordered(entries.drop_last()), entries.last())
    }
}

/// Each contact with its distance.
pub open spec fn paired<V>(distances: Seq<usize>, contacts: Seq<V>) -> Seq<(usize, V)> {
    Seq::new(contacts.len(), |i: int| (distances[i], contacts[i]))
}

/// The first `limit` of `items`, or all of them where there is no limit or
/// there are no more than that.
pub open spec fn truncated<A>(items: Seq<A>, limit: Option<nat>) -> Seq<A> {
    match limit {
        Some(n) => if n < items.len() {
            items.take(n as int)
        } else {
            items
        },
        None => items,
    }
}

/// The entries nearest to the target: `contacts` with their `distances`, in
/// ascending order of distance, cut off at `limit`.
pub open spec fn nearest_entries<V>(
    contacts: Seq<V>,
    distances: Seq<usize>,
    limit: Option<nat>,
) -> Seq<(usize, V)> {
    truncated(ordered(paired(distances, contacts)), limit)
}

/// The contacts nearest to the target, nearest first.
pub open spec fn nearest_spec<V>(contacts: Seq<V>, distances: Seq<usize>, limit: Option<nat>) -> Seq<
    V,
> {
    nearest_entries(contacts, distances, limit).map_values(|entry: (usize, V)| entry.1)
}

/// Whether no entry is farther than a later one.
pub open spec fn ascending<V>(entries: Seq<(usize, V)>) -> bool {
    forall|i: int, j: int| 0 <= i <= j < entries.len() ==> entries[i].0 <= entries[j].0
}

/// Putting an entry in at `position` is placing it, where every entry from
/// `position` on is farther than it and the one before is not.
pub proof fn lemma_placed_at<V>(sorted: Seq<(usize, V)>, entry: (usize, V), position: int)
    requires
        0 <= position <= sorted.len(),
        forall|j: int| position <= j < sorted.len() ==> sorted[j].0 > entry.0,
        position > 0 ==> sorted[position - 1].0 <= entry.0,
    ensures
        placed(sorted, entry) == sorted.insert(position, entry),
    decreases sorted.len(),
{
    if sorted.len() == 0 {
        assert(sorted.insert(position, entry) =~= seq![entry]);
    } else if position == sorted.len() {
        assert(sorted.insert(position, entry) =~= sorted.push(entry));
    } else {
        lemma_placed_at(sorted.drop_last(), entry, position);
        assert(sorted.drop_last().insert(position, entry).push(sorted.last()) =~= sorted.insert(
            position,
            entry,
        ));
    }
}

/// Placing an entry adds that entry and nothing else, and keeps an ascending
/// sequence ascending.
pub proof fn lemma_placed<V>(sorted: Seq<(usize, V)>, entry: (usize, V))
    ensures
        placed(sorted, entry).len() == sorted.len() + 1,
        placed(sorted, entry).to_multiset() == sorted.to_multiset().insert(entry),
        ascending(sorted) ==> ascending(placed(sorted, entry)),
    decreases sorted.len(),
{
    broadcast use to_multiset_build;

    if sorted.len() == 0 {
        assert(seq![entry] =~= Seq::<(usize, V)>::empty().push(entry));
        assert(sorted =~= Seq::<(usize, V)>::empty());
    } else if sorted.last().0 <= entry.0 {
        if ascending(sorted) {
            let out = sorted.push(entry);
            assert forall|i: int, j: int| 0 <= i <= j < out.len() implies out[i].0 <= out[j].0 by {
                if j == sorted.len() && i < sorted.len() {
                    assert(sorted[i].0 <= sorted[sorted.len() - 1].0);
                }
            }
        }
    } else {
        let rest = sorted.drop_last();
        let last = sorted.last();
        lemma_placed(rest, entry);
        assert(sorted =~= rest.push(last));
        assert(rest.to_multiset().insert(entry).insert(last) =~= rest.to_multiset().insert(
            last,
        ).insert(entry));
        if ascending(sorted) {
            assert(ascending(rest));
            let inner = placed(rest, entry);
            let out = inner.push(last);
            assert forall|i: int| 0 <= i < inner.len() implies (#[trigger] inner[i]).0 <= last.0 by {
                assert(inner.to_multiset().count(inner[i]) > 0) by {
                    inner.to_multiset_ensures();
                    assert(inner.contains(inner[i]));
                }
                if inner[i] != entry {
                    assert(rest.to_multiset().count(inner[i]) > 0);
                    rest.to_multiset_ensures();
                    assert(rest.contains(inner[i]));
                    let m = choose|m: int| 0 <= m < rest.len() && rest[m] == inner[i];
                    assert(sorted[m].0 <= sorted[sorted.len() - 1].0);
                }
            }
            assert forall|i: int, j: int| 0 <= i <= j < out.len() implies out[i].0 <= out[j].0 by {
                if j < inner.len() {
                    assert(inner[i].0 <= inner[j].0);
                } else if i < inner.len() {
                    assert(out[i] == inner[i]);
                }
            }
        }
    }
}

/// Ordering neither adds nor drops an entry, and what it gives is ascending.
pub proof fn lemma_ordered<V>(entries: Seq<(usize, V)>)
    ensures
        ordered(entries).len() == entries.len(),
        ordered(entries).to_multiset() == entries.to_multiset(),
        ascending(ordered(entries)),
    decreases entries.len(),
{
    broadcast use to_multiset_build;

    if entries.len() == 0 {
        assert(entries =~= Seq::<(usize, V)>::empty());
    } else {
        lemma_ordered(entries.drop_last());
        lemma_placed(ordered(entries.drop_last()), entries.last());
        assert(entries =~= entries.drop_last().push(entries.last()));
    }
}

/// Whether an entry is at `distance`.
pub open spec fn is_at<V>(distance: usize) -> spec_fn((usize, V)) -> bool {
    |entry: (usize, V)| entry.0 == distance
}

/// The entries at `distance`, in their order.
pub open spec fn at_distance<V>(entries: Seq<(usize, V)>, distance: usize) -> Seq<(usize, V)> {
    entries.filter(is_at(distance))
}

/// Placing an entry puts it behind the entries at its distance, and leaves
/// the entries at any other distance as they were.
pub proof fn lemma_placed_stable<V>(sorted: Seq<(usize, V)>, entry: (usize, V), distance: usize)
    ensures
        at_distance(placed(sorted, entry), distance) == (if entry.0 == distance {
            at_distance(sorted, distance).push(entry)
        } else {
            at_distance(sorted, distance)
        }),
    decreases sorted.len(),
{
    if sorted.len() == 0 {
        assert(sorted =~= Seq::<(usize, V)>::empty());
        assert(seq![entry] =~= sorted.push(entry));
        sorted.lemma_filter_push(entry, is_at(distance));
    } else if sorted.last().0 <= entry.0 {
        sorted.lemma_filter_push(entry, is_at(distance));
    } else {
        let rest = sorted.drop_last();
        let last = sorted.last();
        lemma_placed_stable(rest, entry, distance);
        placed(rest, entry).lemma_filter_push(last, is_at(distance));
        assert(sorted =~= rest.push(last));
        rest.lemma_filter_push(last, is_at(distance));
    }
}

/// Ordering is stable: the entries at any one distance stand in the order in
/// which they came.
pub proof fn lemma_ordered_stable<V>(entries: Seq<(usize, V)>, distance: usize)
    ensures
        at_distance(ordered(entries), distance) == at_distance(entries, distance),
    decreases entries.len(),
{
    if entries.len() == 0 {
        assert(entries =~= ordered(entries));
    } else {
        let rest = entries.drop_last();
        let last = entries.last();
        lemma_ordered_stable(rest, distance);
        lemma_placed_stable(ordered(rest), last, distance);
        assert(entries =~= rest.push(last));
        rest.lemma_filter_push(last, is_at(distance));
    }
}

/// Orders `contacts` by `distances`, the distance of each, and keeps the
/// nearest `n`.
pub fn nearest<'a, V>(contacts: Vec<&'a V>, distances: Vec<usize>, n: Option<usize>) -> (nearest:
    Vec<&'a V>)
    requires
        contacts@.len() == distances@.len(),
    ensures
        borrowed(nearest@) == nearest_spec(borrowed(contacts@), distances@, limit_of(n)),
{
    let ghost entries = paired(distances@, borrowed(contacts@));
    let mut keys: Vec<usize> = Vec::new();
    let mut sorted: Vec<&'a V> = Vec::new();
    let mut i: usize = 0;
    proof {
        assert(entries.take(0) =~= Seq::<(usize, V)>::empty());
        assert(paired(keys@, borrowed(sorted@)) =~= Seq::<(usize, V)>::empty());
    }
    while i < contacts.len()
        invariant
            i <= contacts@.len(),
            contacts@.len() == distances@.len(),
            entries == paired(distances@, borrowed(contacts@)),
            keys@.len() == sorted@.len(),
            keys@.len() == i,
            paired(keys@, borrowed(sorted@)) == ordered(entries.take(i as int)),
        decreases contacts@.len() - i,
    {
        let distance = distances[i];
        let contact = contacts[i];
        let mut position = keys.len();
        while position > 0 && keys[position - 1] > distance
            invariant
                position <= keys@.len(),
                forall|j: int| position <= j < keys@.len() ==> keys@[j] > distance,
            decreases position,
        {
            position -= 1;
        }
        proof {
            let before = paired(keys@, borrowed(sorted@));
            let entry = (distance, *contact);
            lemma_placed_at(before, entry, position as int);
            assert(entries.take(i + 1).drop_last() =~= entries.take(i as int));
            assert(entries.take(i + 1).last() == entry);
            assert(paired(keys@.insert(position as int, distance), borrowed(sorted@.insert(position as int, contact)))
                =~= before.insert(position as int, entry));
        }
        keys.insert(position, distance);
        sorted.insert(position, contact);
        i += 1;
    }
    proof {
        assert(entries.take(contacts@.len() as int) =~= entries);
        lemma_ordered(entries);
    }
    if let Some(n) = n {
        sorted.truncate(n);
        proof {
            let all = ordered(entries);
            if n < all.len() {
                assert(borrowed(sorted@) =~= all.take(n as int).map_values(|entry: (usize, V)| entry.1));
            } else {
                assert(borrowed(sorted@) =~= all.map_values(|entry: (usize, V)| entry.1));
            }
        }
    } else {
        proof {
            assert(borrowed(sorted@) =~= ordered(entries).map_values(|entry: (usize, V)| entry.1));
        }
    }
    sorted
}

} // verus!
