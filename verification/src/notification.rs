//! What the routing table reports of an addition.

use vstd::prelude::*;
use vstd::std_specs::cmp::PartialEqSpec;
use crate::bucket::{index_of_spec, oldest_ids, Selection};
use crate::contact::{key, Contact};

verus! {

/// The outcome of adding a contact.
#[derive(Debug)]
pub enum Notification<V> {
    /// The identity was new, and the contact is now the youngest of its
    /// bucket.
    Added,
    /// The contact took the place of the incumbent of its identity.
    Replaced,
    /// The incumbent of that identity stays, and is now the youngest of its
    /// bucket.
    Refreshed,
    /// The incumbent of that identity stays where it was.
    Unchanged,
    /// The identity was new, but its bucket is full and frozen. Nothing was
    /// stored: the oldest contacts of the bucket should be probed, and
    /// `pending` takes the place of one that does not answer.
    PingRequested {
        /// The identities of the contacts to probe, oldest first.
        candidates: Vec<Vec<u8>>,
        /// The contact that was turned away.
        pending: V,
    },
}

impl<V: Contact> Notification<V> {
    /// How the bucket settled, where the notification tells of an incumbent.
    pub open spec fn selection(self) -> Selection {
        match self {
            Notification::Replaced => Selection::Replace,
            Notification::Refreshed => Selection::Refresh,
            _ => Selection::Keep,
        }
    }

    /// Whether this is the notification due when `candidate` is offered to
    /// `landing`, a bucket of `capacity` contacts, in a table that has
    /// `ping_count` contacts probed.
    ///
    /// With an incumbent of the same identity the outcome is `Replaced` if
    /// the incumbent says it should be replaced; if it says not, `Refreshed`
    /// where the candidate equals it and `Unchanged` where it does not.
    /// Without one it is `Added` while the bucket has room and
    /// `PingRequested` when it is full.
    pub open spec fn reports(
        self,
        landing: Seq<V>,
        candidate: V,
        capacity: nat,
        ping_count: nat,
    ) -> bool {
        match index_of_spec(landing, key(candidate)) {
            Some(index) => {
                &&& self is Replaced || self is Refreshed || self is Unchanged
                &&& call_ensures(V::should_replace, (&landing[index], &candidate), self is Replaced)
                &&& V::obeys_eq_spec() && self !is Replaced ==> (self is Refreshed
                    <==> landing[index].eq_spec(&candidate))
            },
            None => if landing.len() < capacity {
                self is Added
            } else {
                &&& self matches Notification::PingRequested { candidates, pending }
                &&& pending == candidate
                &&& candidates@.map_values(|id: Vec<u8>| id@) == oldest_ids(landing, ping_count)
            },
        }
    }
}

} // verus!
