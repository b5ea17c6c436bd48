use dht::bucket::{update, Selection};
use dht::contact::Contact;
use dht::kbucket::Kbucket;
use dht::node::Node;
use dht::notification::Notification;

/// A contact with a version, which gives way only to a later version, and
/// which measures distance by its own rule.
#[derive(Debug, Clone, PartialEq)]
struct Versioned {
    id: [u8; 1],
    version: u32,
}

impl Contact for Versioned {
    type Id = [u8; 1];

    fn id(&self) -> &[u8; 1] {
        &self.id
    }

    fn distance(&self, other_id: &[u8; 1]) -> usize {
        // everything on one side of the target is equally far
        if self.id[0] < other_id[0] {
            1
        } else {
            2
        }
    }

    fn should_replace(&self, other: &Self) -> bool {
        other.version > self.version
    }
}

fn versioned(id: u8, version: u32) -> Versioned {
    Versioned { id: [id], version }
}

fn leaf_of(table: &Kbucket<[u8; 1], Versioned>) -> Vec<Versioned> {
    match table.root() {
        Node::Leaf { contacts, .. } => contacts.clone(),
        Node::Inner { .. } => panic!("the root is a fork"),
    }
}

#[test]
fn test_later_version_replaces_and_moves_to_tail() {
    let mut table = Kbucket::new([0u8], None, None);
    table.add(versioned(1, 1));
    table.add(versioned(2, 1));
    let outcome = table.add(versioned(1, 2));
    assert!(matches!(outcome, Notification::Replaced));
    assert_eq!(leaf_of(&table), vec![versioned(2, 1), versioned(1, 2)]);
}

#[test]
fn test_equal_contact_refreshes_incumbent() {
    let mut table = Kbucket::new([0u8], None, None);
    table.add(versioned(1, 5));
    table.add(versioned(2, 1));
    let outcome = table.add(versioned(1, 5));
    assert!(matches!(outcome, Notification::Refreshed));
    assert_eq!(leaf_of(&table), vec![versioned(2, 1), versioned(1, 5)]);
}

#[test]
fn test_earlier_version_changes_nothing() {
    let mut table = Kbucket::new([0u8], None, None);
    table.add(versioned(1, 5));
    table.add(versioned(2, 1));
    let outcome = table.add(versioned(1, 3));
    assert!(matches!(outcome, Notification::Unchanged));
    assert_eq!(leaf_of(&table), vec![versioned(1, 5), versioned(2, 1)]);
}

#[test]
fn test_update_reports_the_selection() {
    let mut contacts = vec![versioned(1, 5), versioned(2, 1), versioned(3, 1)];
    assert_eq!(update(&mut contacts, 1, versioned(2, 2)), Selection::Replace);
    assert_eq!(contacts, vec![versioned(1, 5), versioned(3, 1), versioned(2, 2)]);
    assert_eq!(update(&mut contacts, 0, versioned(1, 5)), Selection::Refresh);
    assert_eq!(contacts, vec![versioned(3, 1), versioned(2, 2), versioned(1, 5)]);
    assert_eq!(update(&mut contacts, 0, versioned(3, 0)), Selection::Keep);
    assert_eq!(contacts, vec![versioned(3, 1), versioned(2, 2), versioned(1, 5)]);
}

#[test]
fn test_closest_goes_by_the_contacts_own_distance_and_keeps_ties_in_order() {
    let mut table = Kbucket::new([0u8], None, None);
    for id in [9u8, 3, 7, 1, 8] {
        table.add(versioned(id, 1));
    }
    let closest = table.closest([5u8], None);
    let ids: Vec<u8> = closest.iter().map(|contact| contact.id[0]).collect();
    // 3 and 1 are at distance 1, the others at distance 2
    assert_eq!(ids, vec![3, 1, 9, 7, 8]);
}
