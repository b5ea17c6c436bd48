//! The state of a running node, and what it does with what happens to it.

use vstd::prelude::*;
use std::time::Duration;
use url::Url;
use crate::cache::{fits, ConfigError, HASH_LENGTH};
use crate::opts::{rotate_interval, Opts};
use crate::secrets::Secrets;
use crate::tables::Tables;
use crate::values::Values;

verus! {

/// What the owner of a node can ask of it.
#[derive(Clone, Copy, Debug, PartialEq, Eq, Structural)]
pub enum ActorMessage {
    /// Stop.
    Shutdown,
}

/// What can happen to a running node.
#[derive(Clone, Copy, Debug)]
pub enum Event {
    /// Its owner sent a message.
    Message(ActorMessage),
    /// The rotation interval has passed; a fresh secret comes with it.
    Tick([u8; HASH_LENGTH]),
    /// Its owner is gone, and no message will come any more.
    Closed,
}

/// Whether a node goes on after an event.
#[derive(Clone, Copy, Debug, PartialEq, Eq, Structural)]
pub enum Control {
    /// The node waits for the next event.
    Continue,
    /// The node stops.
    Stop,
}

/// The state of a node.
pub struct Actor {
    tables: Tables,
    values: Values,
    secrets: Secrets,
    host: Option<Url>,
    listening: bool,
    destroyed: bool,
    node_id: [u8; 20],
    bucket_outdated_time_span: Duration,
}

impl Actor {
    /// The identifier of the node.
    pub closed spec fn node_id_spec(&self) -> [u8; 20] {
        self.node_id
    }

    /// The secrets of the node.
    pub closed spec fn secrets_spec(&self) -> Secrets {
        self.secrets
    }

    /// The routing tables of the node.
    pub closed spec fn tables_spec(&self) -> Tables {
        self.tables
    }

    /// The announced values that the node holds.
    pub closed spec fn values_spec(&self) -> Values {
        self.values
    }

    /// The host of the local peer, if there is one.
    pub closed spec fn host_spec(&self) -> Option<Url> {
        self.host
    }

    /// Whether the node listens.
    pub closed spec fn listening_spec(&self) -> bool {
        self.listening
    }

    /// Whether the node has been torn down.
    pub closed spec fn destroyed_spec(&self) -> bool {
        self.destroyed
    }

    /// The span after which a bucket counts as outdated.
    pub closed spec fn bucket_outdated_spec(&self) -> Duration {
        self.bucket_outdated_time_span
    }

    /// Sets up the state of a node from its options. The node has the
    /// identifier that the options give it, and `fresh_id` where they give
    /// none. A bound of 0 on the tables or on the values is rejected.
    pub fn new(opts: Opts, fresh_id: Option<[u8; 20]>, secrets: Secrets) -> (actor: Result<
        Self,
        ConfigError,
    >)
        requires
            opts.node_id is None ==> fresh_id is Some,
            opts.max_tables == 0 || fits(opts.max_tables),
            opts.max_tables != 0 ==> opts.max_values == 0 || fits(opts.max_values),
        ensures
            actor is Err <==> opts.max_tables == 0 || opts.max_values == 0,
            actor matches Ok(actor) ==> {
                &&& actor.node_id_spec() == match opts.node_id {
                    Some(id) => id,
                    None => fresh_id->0,
                }
                &&& actor.secrets_spec() == secrets
                &&& actor.tables_spec().keys() == Set::<Seq<u8>>::empty()
                &&& actor.tables_spec().limit() == opts.max_tables
                &&& actor.values_spec().keys() == Set::<Seq<u8>>::empty()
                &&& actor.values_spec().limit() == opts.max_values
                &&& actor.host_spec() == opts.host
                &&& !actor.listening_spec()
                &&& !actor.destroyed_spec()
                &&& actor.bucket_outdated_spec() == opts.time_bucket_outdated
            },
    {
        let node_id = match opts.node_id {
            Some(id) => id,
            None => fresh_id.unwrap(),
        };
        let tables = match Tables::new(rotate_interval(), opts.max_tables) {
            Ok(tables) => tables,
            Err(error) => {
                return Err(error);
            },
        };
        let values = match Values::new(opts.max_values) {
            Ok(values) => values,
            Err(error) => {
                return Err(error);
            },
        };
        Ok(
            Actor {
                tables,
                values,
                secrets,
                host: opts.host,
                listening: false,
                destroyed: false,
                node_id,
                bucket_outdated_time_span: opts.time_bucket_outdated,
            },
        )
    }

    /// Takes in an event, and tells whether the node goes on: a tick rotates
    /// the secrets and the node goes on; on a shutdown message, and when no
    /// message can come any more, the node stops as it is.
    pub fn handle(&mut self, event: Event) -> (control: Control)
        ensures
            control is Continue <==> event is Tick,
            event matches Event::Tick(fresh) ==> {
                &&& final(self).secrets_spec().current() == fresh
                &&& final(self).secrets_spec().previous() == old(self).secrets_spec().current()
            },
            !(event is Tick) ==> final(self).secrets_spec() == old(self).secrets_spec(),
            final(self).node_id_spec() == old(self).node_id_spec(),
            final(self).tables_spec() == old(self).tables_spec(),
            final(self).values_spec() == old(self).values_spec(),
            final(self).host_spec() == old(self).host_spec(),
            final(self).listening_spec() == old(self).listening_spec(),
            final(self).destroyed_spec() == old(self).destroyed_spec(),
            final(self).bucket_outdated_spec() == old(self).bucket_outdated_spec(),
    {
        match event {
            Event::Message(ActorMessage::Shutdown) => Control::Stop,
            Event::Tick(fresh) => {
                self.secrets.rotate(fresh);
                Control::Continue
            },
            Event::Closed => Control::Stop,
        }
    }

    /// The identifier of the node.
    pub fn node_id(&self) -> (node_id: &[u8; 20])
        ensures
            *node_id == self.node_id_spec(),
    {
        &self.node_id
    }

    /// The secrets of the node.
    pub fn secrets(&self) -> (secrets: &Secrets)
        ensures
            *secrets == self.secrets_spec(),
    {
        &self.secrets
    }

    /// The routing tables of the node.
    pub fn tables(&self) -> (tables: &Tables)
        ensures
            *tables == self.tables_spec(),
    {
        &self.tables
    }

    /// The announced values that the node holds.
    pub fn values(&self) -> (values: &Values)
        ensures
            *values == self.values_spec(),
    {
        &self.values
    }
}

} // verus!
