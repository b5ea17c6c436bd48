//! The routing tables of the lookups in progress, one for each key, and the
//! contacts that they hold.

use vstd::prelude::*;
use lru::LruCache;
use std::time::Duration;
use url::Host;
use crate::cache::{
    fits, new_table_cache, table_cache_cap, table_cache_len, table_keys, table_limit, ConfigError,
};
use crate::kbucket::Kbucket;

verus! {

/// `url::Host`, which Verus does not look into: the tables carry it along.
#[verifier::external_type_specification]
#[verifier::external_body]
#[verifier::reject_recursive_types(S)]
pub struct ExHost<S>(Host<S>);

/// `Clone` for `url::Host`, of which nothing is claimed.
pub assume_specification<S: Clone>[ <Host<S> as Clone>::clone ](host: &Host<S>) -> Host<S>;

/// A peer as the transport knows it: its identity, where to reach it, and the
/// token that it has handed out.
#[derive(Debug, PartialEq, Eq)]
pub struct Contact {
    id: [u8; 20],
    host: Host,
    port: u16,
    token: Vec<u8>,
}

impl Contact {
    /// A contact of these parts.
    pub fn new(id: [u8; 20], host: Host, port: u16, token: Vec<u8>) -> (contact: Self)
        ensures
            contact.id_spec() == id,
            contact.host_spec() == host,
            contact.port_spec() == port,
            contact.token_spec() == token@,
    {
        Contact { id, host, port, token }
    }

    /// The identity.
    pub closed spec fn id_spec(&self) -> [u8; 20] {
        self.id
    }

    /// The host.
    pub closed spec fn host_spec(&self) -> Host {
        self.host
    }

    /// The port.
    pub closed spec fn port_spec(&self) -> u16 {
        self.port
    }

    /// The token.
    pub closed spec fn token_spec(&self) -> Seq<u8> {
        self.token@
    }

    /// The host at which the peer is reached.
    pub fn host(&self) -> (host: &Host)
        ensures
            *host == self.host_spec(),
    {
        &self.host
    }

    /// The port at which the peer is reached.
    pub fn port(&self) -> (port: u16)
        ensures
            port == self.port_spec(),
    {
        self.port
    }

    /// The token that the peer has handed out.
    pub fn token(&self) -> (token: &[u8])
        ensures
            token@ == self.token_spec(),
    {
        self.token.as_slice()
    }
}

impl Clone for Contact {
    /// A contact of the same identity, port and token, at a copy of the host.
    fn clone(&self) -> (copy: Self)
        ensures
            copy.id_spec() == self.id_spec(),
            copy.port_spec() == self.port_spec(),
            copy.token_spec() == self.token_spec(),
    {
        Contact {
            id: self.id,
            host: self.host.clone(),
            port: self.port,
            token: self.token.clone(),
        }
    }
}

impl crate::contact::Contact for Contact {
    type Id = [u8; 20];

    open spec fn identity(&self) -> [u8; 20] {
        self.id_spec()
    }

    fn id(&self) -> (id: &[u8; 20]) {
        &self.id
    }
}

/// The routing tables of the lookups in progress, least recently used first
/// to go.
pub struct Tables(LruCache<[u8; 20], Kbucket<[u8; 20], Contact>>);

impl Tables {
    /// The keys of the tables held.
    pub closed spec fn keys(&self) -> Set<Seq<u8>> {
        table_keys(self.0)
    }

    /// The most tables held at a time.
    pub closed spec fn limit(&self) -> nat {
        table_limit(self.0)
    }

    /// Makes an empty set of tables that holds at most `max` of them. A `max`
    /// of 0 is rejected.
    pub fn new(max_age: Duration, max: usize) -> (tables: Result<Self, ConfigError>)
        requires
            max == 0 || fits(max),
        ensures
            max == 0 <==> tables is Err,
            tables matches Ok(tables) ==> tables.keys() == Set::<Seq<u8>>::empty()
                && tables.limit() == max,
    {
        if max == 0 {
            return Err(ConfigError::ZeroCapacity);
        }
        Ok(Tables(new_table_cache(max)))
    }

    /// The number of tables held.
    pub fn len(&self) -> (len: usize)
        ensures
            len == self.keys().len(),
    {
        table_cache_len(&self.0)
    }

    /// The most tables held at a time.
    pub fn capacity(&self) -> (capacity: usize)
        ensures
            capacity == self.limit(),
    {
        table_cache_cap(&self.0)
    }
}

} // verus!
