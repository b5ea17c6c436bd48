use dht::actor::{Actor, ActorMessage, Control, Event};
use dht::cache::ConfigError;
use dht::contact::Contact as _;
use dht::kbucket::Kbucket;
use dht::opts::{rotate_interval, Opts};
use dht::secrets::Secrets;
use dht::tables::{Contact, Tables};
use dht::values::Values;
use std::time::Duration;
use url::Host;

fn peer(first: u8, port: u16) -> Contact {
    let mut id = [0u8; 20];
    id[0] = first;
    Contact::new(id, Host::parse("peer.example.com").unwrap(), port, vec![first, 1, 2])
}

#[test]
fn test_tables_reject_a_bound_of_zero() {
    assert!(matches!(Tables::new(Duration::from_secs(300), 0), Err(ConfigError::ZeroCapacity)));
}

#[test]
fn test_tables_start_empty_with_their_bound() {
    let tables = Tables::new(Duration::from_secs(300), 1000).unwrap();
    assert_eq!(tables.len(), 0);
    assert_eq!(tables.capacity(), 1000);
    let tables = Tables::new(Duration::from_secs(300), 1).unwrap();
    assert_eq!(tables.capacity(), 1);
}

#[test]
fn test_values_reject_a_bound_of_zero() {
    assert!(matches!(Values::new(0), Err(ConfigError::ZeroCapacity)));
}

#[test]
fn test_values_start_empty_with_their_bound() {
    let values = Values::new(7).unwrap();
    assert_eq!(values.len(), 0);
    assert_eq!(values.capacity(), 7);
}

#[test]
fn test_transport_contacts_are_kept_by_identity() {
    let mut table = Kbucket::new([0u8; 20], None, None);
    table.add(peer(0x80, 6881));
    table.add(peer(0x01, 6882));
    assert_eq!(table.len(), 2);
    let found = table.get(*peer(0x01, 0).id()).unwrap();
    assert_eq!(found.port(), 6882);
    assert_eq!(found.token(), &[0x01, 1, 2]);
    assert_eq!(found.host(), &Host::parse("peer.example.com").unwrap());
    // the same identity at another port takes the place of the incumbent
    table.add(peer(0x01, 7000));
    assert_eq!(table.len(), 2);
    assert_eq!(table.get(*peer(0x01, 0).id()).unwrap().port(), 7000);
    let mut target = [0u8; 20];
    target[0] = 0x81;
    let closest = table.closest(target, Some(1));
    assert_eq!(closest[0].port(), 6881);
}

#[test]
fn test_transport_contact_clones_to_an_equal_contact() {
    let contact = peer(0x33, 6881);
    let copy = contact.clone();
    assert_eq!(copy, contact);
    assert_eq!(copy.id(), contact.id());
    assert_eq!(copy.port(), 6881);
    assert_eq!(copy.token(), contact.token());
    assert_eq!(copy.host(), contact.host());
}

#[test]
fn test_secrets_rotate() {
    let mut secrets = Secrets::new([1; 20], [2; 20]);
    assert_eq!(secrets.a(), &[1; 20]);
    assert_eq!(secrets.b(), &[2; 20]);
    secrets.rotate([3; 20]);
    assert_eq!(secrets.a(), &[3; 20]);
    assert_eq!(secrets.b(), &[1; 20]);
    secrets.rotate([4; 20]);
    assert_eq!(secrets.a(), &[4; 20]);
    assert_eq!(secrets.b(), &[3; 20]);
}

#[test]
fn test_default_options() {
    let opts = Opts::default();
    assert_eq!(opts.node_id, None);
    assert!(opts.bootstrap.is_empty());
    assert!(opts.host.is_none());
    assert_eq!(opts.concurrency, 16);
    assert_eq!(opts.time_bucket_outdated, Duration::from_secs(240));
    assert_eq!(opts.max_tables, 1000);
    assert_eq!(opts.max_values, 1000);
    assert_eq!(opts.max_age, None);
    assert_eq!(opts.max_peers, 10000);
}

#[test]
fn test_rotate_interval_is_five_minutes() {
    assert_eq!(rotate_interval(), Duration::from_secs(5 * 60));
}

#[test]
fn test_actor_takes_the_configured_identifier() {
    let mut opts = Opts::default();
    opts.node_id = Some([9; 20]);
    let actor = Actor::new(opts, None, Secrets::new([1; 20], [2; 20])).ok().unwrap();
    assert_eq!(actor.node_id(), &[9; 20]);
    assert_eq!(actor.secrets().a(), &[1; 20]);
    assert_eq!(actor.tables().capacity(), 1000);
    assert_eq!(actor.values().capacity(), 1000);
    assert_eq!(actor.tables().len(), 0);
}

#[test]
fn test_actor_falls_back_to_the_fresh_identifier() {
    let actor = Actor::new(Opts::default(), Some([5; 20]), Secrets::new([1; 20], [2; 20]));
    assert_eq!(actor.ok().unwrap().node_id(), &[5; 20]);
}

#[test]
fn test_actor_rejects_bounds_of_zero() {
    let mut opts = Opts::default();
    opts.max_tables = 0;
    let actor = Actor::new(opts, Some([5; 20]), Secrets::new([1; 20], [2; 20]));
    assert!(matches!(actor, Err(ConfigError::ZeroCapacity)));
    let mut opts = Opts::default();
    opts.max_values = 0;
    let actor = Actor::new(opts, Some([5; 20]), Secrets::new([1; 20], [2; 20]));
    assert!(matches!(actor, Err(ConfigError::ZeroCapacity)));
}

#[test]
fn test_actor_rotates_on_tick_and_stops_on_shutdown() {
    let actor = Actor::new(Opts::default(), Some([5; 20]), Secrets::new([1; 20], [2; 20]));
    let mut actor = actor.ok().unwrap();
    assert_eq!(actor.handle(Event::Tick([7; 20])), Control::Continue);
    assert_eq!(actor.secrets().a(), &[7; 20]);
    assert_eq!(actor.secrets().b(), &[1; 20]);
    assert_eq!(actor.handle(Event::Message(ActorMessage::Shutdown)), Control::Stop);
    assert_eq!(actor.secrets().a(), &[7; 20]);
    assert_eq!(actor.handle(Event::Closed), Control::Stop);
    assert_eq!(actor.secrets().b(), &[1; 20]);
}
