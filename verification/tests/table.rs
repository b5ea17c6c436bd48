use dht::bucket::{index_of, ping_candidates, settle, Selection};
use dht::contact::Contact;
use dht::iter::Iter;
use dht::kbucket::Kbucket;
use dht::nearest::nearest;
use dht::node::{split, Node};
use dht::notification::Notification;

fn leaf(node: &Node<[u8; 1]>) -> (Vec<[u8; 1]>, bool) {
    match node {
        Node::Leaf { contacts, dont_split } => (contacts.clone(), *dont_split),
        Node::Inner { .. } => panic!("a fork where a bucket was expected"),
    }
}

fn sides(node: &Node<[u8; 1]>) -> (&Node<[u8; 1]>, &Node<[u8; 1]>) {
    match node {
        Node::Inner { left, right } => (left, right),
        Node::Leaf { .. } => panic!("a bucket where a fork was expected"),
    }
}

/// Checks that a bucket is frozen exactly if its path leaves that of `local`,
/// and that every fork lies on the path of `local`.
fn check_frozen(node: &Node<[u8; 1]>, local: u8, depth: u32, on_path: bool) {
    match node {
        Node::Inner { left, right } => {
            assert!(on_path);
            let local_goes_right = local & (0x80 >> depth) != 0;
            check_frozen(left, local, depth + 1, !local_goes_right);
            check_frozen(right, local, depth + 1, local_goes_right);
        }
        Node::Leaf { dont_split, .. } => {
            assert_eq!(*dont_split, !on_path);
        }
    }
}

#[test]
fn test_new_table_has_the_defaults() {
    let table: Kbucket<[u8; 1], [u8; 1]> = Kbucket::new([7u8], None, None);
    assert_eq!(table.nodes_per_kbucket(), 20);
    assert_eq!(table.nodes_to_ping(), 3);
    assert_eq!(table.node_id(), &[7u8]);
    assert_eq!(table.len(), 0);
    assert_eq!(leaf(table.root()), (vec![], false));
}

#[test]
fn test_new_table_takes_the_bounds_given() {
    let table: Kbucket<[u8; 1], [u8; 1]> = Kbucket::new([7u8], Some(4), Some(2));
    assert_eq!(table.nodes_per_kbucket(), 4);
    assert_eq!(table.nodes_to_ping(), 2);
}

#[test]
fn test_add_reports_added_and_appends() {
    let mut table = Kbucket::new([0u8], None, None);
    assert!(matches!(table.add([3u8]), Notification::Added));
    assert!(matches!(table.add([1u8]), Notification::Added));
    assert!(matches!(table.add([2u8]), Notification::Added));
    assert_eq!(leaf(table.root()), (vec![[3], [1], [2]], false));
}

#[test]
fn test_adding_present_identity_moves_it_to_the_tail() {
    let mut table = Kbucket::new([0u8], None, None);
    table.add([3u8]);
    table.add([1u8]);
    table.add([2u8]);
    assert!(matches!(table.add([3u8]), Notification::Replaced));
    assert_eq!(leaf(table.root()), (vec![[1], [2], [3]], false));
    assert_eq!(table.len(), 3);
}

#[test]
fn test_adding_present_identity_never_changes_len() {
    let mut table = Kbucket::new([0u8], Some(2), None);
    for id in [0x80u8, 0x81, 0x01, 0x02, 0x41] {
        table.add([id]);
    }
    let before = table.len();
    for id in [0x80u8, 0x81, 0x01, 0x02, 0x41, 0x80] {
        table.add([id]);
        assert_eq!(table.len(), before);
    }
}

#[test]
fn test_up_to_capacity_the_root_stays_one_bucket() {
    for capacity in 1usize..6 {
        let mut table = Kbucket::new([0x2cu8], Some(capacity), None);
        let mut expected = Vec::new();
        for i in 0..capacity {
            table.add([(i * 40) as u8]);
            expected.push([(i * 40) as u8]);
            assert_eq!(leaf(table.root()), (expected.clone(), false));
        }
    }
}

#[test]
fn test_one_more_than_capacity_splits_the_root() {
    for capacity in 0usize..6 {
        let mut table = Kbucket::new([0x2cu8], Some(capacity), None);
        for i in 0..capacity + 1 {
            table.add([(i * 40 + 1) as u8]);
        }
        assert!(matches!(table.root(), Node::Inner { .. }));
    }
}

#[test]
fn test_full_frozen_bucket_asks_for_a_ping() {
    let mut table = Kbucket::new([0x00u8], Some(2), Some(1));
    table.add([0x80u8]);
    table.add([0x81u8]);
    match table.add([0x82u8]) {
        Notification::PingRequested { candidates, pending } => {
            assert_eq!(candidates, vec![vec![0x80u8]]);
            assert_eq!(pending, [0x82u8]);
        }
        other => panic!("unexpected outcome {:?}", other),
    }
    let (left, right) = sides(table.root());
    assert_eq!(leaf(left), (vec![], false));
    assert_eq!(leaf(right), (vec![[0x80], [0x81]], true));
    assert_eq!(table.len(), 2);
    assert!(table.get([0x82u8]).is_none());
}

#[test]
fn test_ping_names_no_more_candidates_than_the_bucket_has() {
    let mut table = Kbucket::new([0x00u8], Some(2), Some(5));
    table.add([0x80u8]);
    table.add([0x81u8]);
    match table.add([0xffu8]) {
        Notification::PingRequested { candidates, pending } => {
            assert_eq!(candidates, vec![vec![0x80u8], vec![0x81u8]]);
            assert_eq!(pending, [0xffu8]);
        }
        other => panic!("unexpected outcome {:?}", other),
    }
}

#[test]
fn test_split_is_repeated_until_there_is_room() {
    let mut table = Kbucket::new([0x00u8], Some(2), None);
    table.add([0x01u8]);
    table.add([0x02u8]);
    // all three share their first five bits with the node's identifier
    assert!(matches!(table.add([0x04u8]), Notification::Added));
    let mut node = table.root();
    for _ in 0..5 {
        let (left, right) = sides(node);
        assert_eq!(leaf(right), (vec![], true));
        node = left;
    }
    let (left, right) = sides(node);
    assert_eq!(leaf(left), (vec![[0x01], [0x02]], false));
    assert_eq!(leaf(right), (vec![[0x04]], true));
}

#[test]
fn test_table_without_room_in_its_buckets_stores_nothing() {
    let mut table = Kbucket::new([0x00u8], Some(0), Some(3));
    match table.add([0x40u8]) {
        Notification::PingRequested { candidates, pending } => {
            assert!(candidates.is_empty());
            assert_eq!(pending, [0x40u8]);
        }
        other => panic!("unexpected outcome {:?}", other),
    }
    assert_eq!(table.len(), 0);
    let (left, right) = sides(table.root());
    assert_eq!(leaf(right), (vec![], true));
    let (left, right) = sides(left);
    assert_eq!(leaf(left), (vec![], false));
    assert_eq!(leaf(right), (vec![], true));
}

#[test]
fn test_buckets_off_the_nodes_path_are_frozen() {
    for local in [0x00u8, 0x2c, 0xff, 0x80] {
        let mut table = Kbucket::new([local], Some(3), None);
        for i in 0..=255u8 {
            table.add([i.wrapping_mul(37)]);
            check_frozen(table.root(), local, 0, true);
        }
        for i in 0..100u8 {
            table.remove([i.wrapping_mul(11)]);
            check_frozen(table.root(), local, 0, true);
        }
    }
}

#[test]
fn test_remove_takes_exactly_that_contact() {
    let mut table = Kbucket::new([0u8], None, None);
    for id in [5u8, 6, 7] {
        table.add([id]);
    }
    assert_eq!(table.remove([6u8]), Some([6u8]));
    assert_eq!(table.len(), 2);
    assert_eq!(leaf(table.root()), (vec![[5], [7]], false));
    assert!(table.get([6u8]).is_none());
}

#[test]
fn test_remove_of_absent_identity_changes_nothing() {
    let mut table = Kbucket::new([0u8], None, None);
    for id in [5u8, 6, 7] {
        table.add([id]);
    }
    assert_eq!(table.remove([8u8]), None);
    assert_eq!(table.len(), 3);
    assert_eq!(leaf(table.root()), (vec![[5], [6], [7]], false));
}

#[test]
fn test_forks_stay_when_their_buckets_empty_out() {
    let mut table = Kbucket::new([0x00u8], Some(1), None);
    table.add([0x80u8]);
    table.add([0x01u8]);
    assert_eq!(table.remove([0x80u8]), Some([0x80u8]));
    assert_eq!(table.remove([0x01u8]), Some([0x01u8]));
    assert_eq!(table.len(), 0);
    let (left, right) = sides(table.root());
    assert_eq!(leaf(left), (vec![], false));
    assert_eq!(leaf(right), (vec![], true));
}

#[test]
fn test_get_finds_by_exact_identity() {
    let mut table = Kbucket::new([0x00u8], Some(2), None);
    for id in [0x80u8, 0x81, 0x01, 0x02, 0x41, 0x82] {
        table.add([id]);
    }
    for id in [0x80u8, 0x81, 0x01, 0x02, 0x41] {
        assert_eq!(table.get([id]), Some(&[id]));
    }
    // turned away by the full bucket of 0x80 and 0x81, which is frozen
    assert_eq!(table.get([0x82u8]), None);
    assert_eq!(table.get([0x03u8]), None);
    assert_eq!(table.get([0xffu8]), None);
}

#[test]
fn test_len_counts_every_bucket() {
    let mut table = Kbucket::new([0x00u8], Some(2), None);
    let mut expected = 0;
    for id in [0x80u8, 0x81, 0x01, 0x40, 0x20, 0x21] {
        if matches!(table.add([id]), Notification::Added) {
            expected += 1;
        }
        assert_eq!(table.len(), expected);
    }
    assert_eq!(expected, 6);
}

#[test]
fn test_iter_walks_the_right_side_first() {
    let mut table = Kbucket::new([0x00u8], Some(2), None);
    for id in [0x80u8, 0x81, 0x01, 0x40, 0x02] {
        table.add([id]);
    }
    let mut iter = table.iter();
    let mut seen = Vec::new();
    while let Some(contact) = iter.next() {
        seen.push(*contact);
    }
    assert_eq!(seen, vec![[0x80], [0x81], [0x40], [0x01], [0x02]]);
    assert_eq!(iter.next(), None);
    assert_eq!(seen.len(), table.len());
}

#[test]
fn test_iter_of_empty_table_yields_nothing() {
    let table: Kbucket<[u8; 1], [u8; 1]> = Kbucket::new([0u8], None, None);
    let mut iter: Iter<'_, [u8; 1]> = table.iter();
    assert_eq!(iter.next(), None);
    assert_eq!(iter.next(), None);
}

#[test]
fn test_closest_returns_all_in_order_when_fewer_than_asked() {
    let mut table = Kbucket::new([0x00u8], Some(2), None);
    for id in [0x80u8, 0x81, 0x01, 0x40, 0x02] {
        table.add([id]);
    }
    let closest = table.closest([0x03u8], Some(10));
    let ids: Vec<u8> = closest.iter().map(|contact| contact[0]).collect();
    assert_eq!(ids, vec![0x02, 0x01, 0x40, 0x81, 0x80]);
}

#[test]
fn test_closest_without_a_limit_returns_all_in_order() {
    let mut table = Kbucket::new([0x00u8], Some(2), None);
    for id in [0x80u8, 0x81, 0x01, 0x40, 0x02] {
        table.add([id]);
    }
    let closest = table.closest([0x82u8], None);
    let ids: Vec<u8> = closest.iter().map(|contact| contact[0]).collect();
    assert_eq!(ids, vec![0x80, 0x81, 0x02, 0x01, 0x40]);
}

#[test]
fn test_closest_returns_at_most_n() {
    let mut table = Kbucket::new([0x00u8], Some(2), None);
    for id in [0x80u8, 0x81, 0x01, 0x40, 0x02] {
        table.add([id]);
    }
    for n in 0..8usize {
        let closest = table.closest([0x41u8], Some(n));
        assert_eq!(closest.len(), n.min(5));
        for pair in closest.windows(2) {
            assert!(pair[0].distance(&[0x41u8]) <= pair[1].distance(&[0x41u8]));
        }
    }
    assert!(table.closest([0x41u8], Some(0)).is_empty());
}

#[test]
fn test_closest_orders_only_the_buckets_it_gathered() {
    let mut table = Kbucket::new([0x00u8], Some(2), None);
    for id in [0x80u8, 0x81, 0x01, 0x40, 0x02] {
        table.add([id]);
    }
    // the target turns right at the root, where two candidates are found
    let closest = table.closest([0xc0u8], Some(2));
    let ids: Vec<u8> = closest.iter().map(|contact| contact[0]).collect();
    assert_eq!(ids, vec![0x80, 0x81]);
    // one more is asked for than that bucket has: the rest is gathered too
    let closest = table.closest([0xc0u8], Some(3));
    let ids: Vec<u8> = closest.iter().map(|contact| contact[0]).collect();
    assert_eq!(ids, vec![0x80, 0x81, 0x40]);
}

#[test]
fn test_closest_takes_longer_targets() {
    let mut table = Kbucket::new([0x00u8], None, None);
    for id in [0x01u8, 0x02, 0x03] {
        table.add([id]);
    }
    let closest = table.closest([0x03u8], Some(1));
    assert_eq!(closest, vec![&[0x03u8]]);
}

#[test]
fn test_nearest_keeps_contacts_at_one_distance_in_their_order() {
    let (a, b, c, d, e) = ([1u8], [2u8], [3u8], [4u8], [5u8]);
    let contacts = vec![&a, &b, &c, &d, &e];
    let distances = vec![7, 3, 7, 3, 1];
    assert_eq!(nearest(contacts.clone(), distances.clone(), None), vec![&e, &b, &d, &a, &c]);
    assert_eq!(nearest(contacts.clone(), distances.clone(), Some(3)), vec![&e, &b, &d]);
    assert_eq!(nearest(contacts.clone(), distances.clone(), Some(9)), vec![&e, &b, &d, &a, &c]);
    assert!(nearest(contacts, distances, Some(0)).is_empty());
}

#[test]
fn test_index_of_finds_the_first_match() {
    let contacts = vec![[4u8], [9], [4], [1]];
    assert_eq!(index_of(&contacts, &[4u8]), Some(0));
    assert_eq!(index_of(&contacts, &[9u8]), Some(1));
    assert_eq!(index_of(&contacts, &[1u8]), Some(3));
    assert_eq!(index_of(&contacts, &[2u8]), None);
    assert_eq!(index_of(&Vec::<[u8; 1]>::new(), &[2u8]), None);
}

#[test]
fn test_settle_carries_out_each_selection() {
    let mut contacts = vec![[1u8, 0], [2, 0], [3, 0]];
    settle(&mut contacts, 0, [1, 9], Selection::Replace);
    assert_eq!(contacts, vec![[2, 0], [3, 0], [1, 9]]);
    settle(&mut contacts, 0, [2, 9], Selection::Refresh);
    assert_eq!(contacts, vec![[3, 0], [1, 9], [2, 0]]);
    settle(&mut contacts, 1, [1, 7], Selection::Keep);
    assert_eq!(contacts, vec![[3, 0], [1, 9], [2, 0]]);
}

#[test]
fn test_ping_candidates_are_the_oldest() {
    let contacts = vec![[4u8], [9], [1]];
    assert_eq!(ping_candidates(&contacts, 2), vec![vec![4u8], vec![9]]);
    assert_eq!(ping_candidates(&contacts, 0), Vec::<Vec<u8>>::new());
    assert_eq!(ping_candidates(&contacts, 7), vec![vec![4u8], vec![9], vec![1]]);
}

#[test]
fn test_split_hands_contacts_out_by_their_bit() {
    let mut contacts = vec![[0x80u8], [0x01], [0xc0], [0x02]];
    let node = split(&[0x00u8], &mut contacts, 0);
    assert!(contacts.is_empty());
    let (left, right) = sides(&node);
    assert_eq!(leaf(left), (vec![[0x01], [0x02]], false));
    assert_eq!(leaf(right), (vec![[0x80], [0xc0]], true));

    let mut contacts = vec![[0x80u8], [0x01], [0xc0], [0x02]];
    let node = split(&[0xf0u8], &mut contacts, 1);
    let (left, right) = sides(&node);
    assert_eq!(leaf(left), (vec![[0x80], [0x01], [0x02]], true));
    assert_eq!(leaf(right), (vec![[0xc0]], false));
}

#[test]
fn test_contacts_of_a_fork_are_none() {
    let mut contacts = vec![[0x80u8], [0x01]];
    let node = split(&[0x00u8], &mut contacts, 0);
    assert!(node.contacts().is_empty());
    let (left, _) = sides(&node);
    assert_eq!(left.contacts(), &[[0x01u8]]);
}

#[derive(Debug, PartialEq)]
struct Named(Vec<u8>);

impl Contact for Named {
    type Id = Vec<u8>;
    fn id(&self) -> &Vec<u8> {
        &self.0
    }
}

#[test]
fn test_identifiers_can_be_vectors() {
    let mut table = Kbucket::new(vec![0u8, 0], Some(1), None);
    table.add(Named(vec![0x80, 0x01]));
    table.add(Named(vec![0x00, 0x01]));
    assert_eq!(table.len(), 2);
    assert_eq!(table.get(vec![0x00, 0x01]), Some(&Named(vec![0x00, 0x01])));
    let closest = table.closest(vec![0x80, 0x00], Some(1));
    assert_eq!(closest, vec![&Named(vec![0x80, 0x01])]);
}

#[test]
fn test_table_tells_what_it_admits_and_reaches() {
    let table: Kbucket<Vec<u8>, Named> = Kbucket::new(vec![0u8, 0], Some(0), None);
    assert!(table.admits(&Named(vec![0, 1])));
    assert!(!table.admits(&Named(vec![0, 0])));
    assert!(!table.admits(&Named(vec![0])));
    assert!(!table.admits(&Named(vec![0, 1, 2])));
    assert!(table.reaches(&vec![0, 1]));
    assert!(table.reaches(&vec![0, 1, 2]));
    assert!(!table.reaches(&vec![0]));
    let table: Kbucket<Vec<u8>, Named> = Kbucket::new(vec![0u8, 0], Some(1), None);
    assert!(table.admits(&Named(vec![0, 0])));
    assert!(!table.admits(&Named(vec![])));
}
