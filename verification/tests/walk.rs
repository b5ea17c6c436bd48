//! The table against a second table that walks the trie with loops and a
//! stack, on long runs of arbitrary operations.

use dht::contact::Contact;
use dht::kbucket::Kbucket;
use dht::node::Node;
use dht::notification::Notification;

#[derive(Debug, Clone, PartialEq)]
struct Peer {
    id: Vec<u8>,
    stamp: u32,
}

impl Contact for Peer {
    type Id = Vec<u8>;
    fn id(&self) -> &Vec<u8> {
        &self.id
    }
}

#[derive(Debug, Clone, PartialEq)]
enum Plain {
    Inner(Box<Plain>, Box<Plain>),
    Leaf(Vec<Peer>, bool),
}

fn goes_right(id: &[u8], bit_index: u32) -> bool {
    let byte = (bit_index >> 3) as usize;
    let within = bit_index % 8;
    if id.len() <= byte && within != 0 {
        return false;
    }
    (id[byte] as u32) & (1 << (7 - within)) > 0
}

fn far(a: &[u8], b: &[u8]) -> usize {
    let mut distance = 0usize;
    for i in 0..a.len().max(b.len()) {
        let digit = if i < a.len() && i < b.len() { (a[i] ^ b[i]) as usize } else { 255 };
        distance = distance.wrapping_mul(256).wrapping_add(digit);
    }
    distance
}

struct PlainTable {
    local: Vec<u8>,
    capacity: usize,
    root: Plain,
}

impl PlainTable {
    fn new(local: Vec<u8>, capacity: usize) -> Self {
        PlainTable { local, capacity, root: Plain::Leaf(Vec::new(), false) }
    }

    /// Returns whether the peer was stored as a new one.
    fn add(&mut self, peer: Peer) -> bool {
        loop {
            let mut bit_index = 0u32;
            let mut node = &mut self.root;
            while let Plain::Inner(left, right) = node {
                node = if goes_right(&peer.id, bit_index) { right } else { left };
                bit_index += 1;
            }
            let Plain::Leaf(peers, frozen) = node else { unreachable!() };
            if let Some(index) = peers.iter().position(|p| p.id == peer.id) {
                peers.remove(index);
                peers.push(peer);
                return false;
            }
            if peers.len() < self.capacity {
                peers.push(peer);
                return true;
            }
            if *frozen {
                return false;
            }
            let mut left = Vec::new();
            let mut right = Vec::new();
            for p in peers.drain(..) {
                if goes_right(&p.id, bit_index) {
                    right.push(p)
                } else {
                    left.push(p)
                }
            }
            let local_right = goes_right(&self.local, bit_index);
            *node = Plain::Inner(
                Box::new(Plain::Leaf(left, local_right)),
                Box::new(Plain::Leaf(right, !local_right)),
            );
        }
    }

    fn leaf(&mut self, id: &[u8]) -> &mut Vec<Peer> {
        let mut bit_index = 0u32;
        let mut node = &mut self.root;
        while let Plain::Inner(left, right) = node {
            node = if goes_right(id, bit_index) { right } else { left };
            bit_index += 1;
        }
        let Plain::Leaf(peers, _) = node else { unreachable!() };
        peers
    }

    fn remove(&mut self, id: &[u8]) -> Option<Peer> {
        let peers = self.leaf(id);
        let index = peers.iter().position(|p| p.id == id)?;
        Some(peers.remove(index))
    }

    fn get(&mut self, id: &[u8]) -> Option<Peer> {
        self.leaf(id).iter().find(|p| p.id == id).cloned()
    }

    fn walk(&self) -> Vec<Peer> {
        let mut all = Vec::new();
        let mut nodes = vec![&self.root];
        while let Some(node) = nodes.pop() {
            match node {
                Plain::Inner(left, right) => {
                    nodes.push(left);
                    nodes.push(right);
                }
                Plain::Leaf(peers, _) => all.extend(peers.iter().cloned()),
            }
        }
        all
    }

    fn closest(&self, id: &[u8], n: Option<usize>) -> Vec<Peer> {
        let mut found: Vec<&Peer> = Vec::new();
        let mut nodes = vec![&self.root];
        let mut bit_index = 0u32;
        while let Some(node) = nodes.pop() {
            if let Some(n) = n {
                if found.len() >= n {
                    break;
                }
            }
            match node {
                Plain::Inner(left, right) => {
                    if goes_right(id, bit_index) {
                        nodes.push(left);
                        nodes.push(right);
                    } else {
                        nodes.push(right);
                        nodes.push(left);
                    }
                    bit_index += 1;
                }
                Plain::Leaf(peers, _) => found.extend(peers),
            }
        }
        found.sort_by(|a, b| far(&a.id, id).cmp(&far(&b.id, id)));
        if let Some(n) = n {
            found.truncate(n);
        }
        found.into_iter().cloned().collect()
    }
}

fn plain(node: &Node<Peer>) -> Plain {
    match node {
        Node::Inner { left, right } => Plain::Inner(Box::new(plain(left)), Box::new(plain(right))),
        Node::Leaf { contacts, dont_split } => Plain::Leaf(contacts.clone(), *dont_split),
    }
}

struct Dice(u64);

impl Dice {
    fn roll(&mut self, sides: u64) -> u64 {
        self.0 = self.0.wrapping_mul(6364136223846793005).wrapping_add(1442695040888963407);
        (self.0 >> 33) % sides
    }

    fn id(&mut self, width: usize, spread: u64) -> Vec<u8> {
        (0..width).map(|_| (self.roll(spread) * (256 / spread)) as u8 | self.roll(2) as u8).collect()
    }
}

fn run(seed: u64, width: usize, capacity: usize, spread: u64, steps: usize) {
    let mut dice = Dice(seed);
    let local = dice.id(width, spread);
    let mut table: Kbucket<Vec<u8>, Peer> = Kbucket::new(local.clone(), Some(capacity), Some(2));
    let mut other = PlainTable::new(local.clone(), capacity);
    for step in 0..steps {
        let id = dice.id(width, spread);
        match dice.roll(6) {
            0 | 1 | 2 => {
                let peer = Peer { id: id.clone(), stamp: step as u32 };
                if capacity == 0 && id == local {
                    continue;
                }
                assert!(table.admits(&peer));
                let stored = other.add(peer.clone());
                let outcome = table.add(peer);
                assert_eq!(stored, matches!(outcome, Notification::Added));
            }
            3 => {
                assert_eq!(table.remove(id.clone()), other.remove(&id));
            }
            4 => {
                assert_eq!(table.get(id.clone()).cloned(), other.get(&id));
            }
            _ => {
                let n = match dice.roll(4) {
                    0 => None,
                    _ => Some(dice.roll(12) as usize),
                };
                let closest: Vec<Peer> =
                    table.closest(id.clone(), n).into_iter().cloned().collect();
                assert_eq!(closest, other.closest(&id, n));
            }
        }
        assert_eq!(plain(table.root()), other.root);
        let walked = other.walk();
        assert_eq!(table.len(), walked.len());
        let mut iter = table.iter();
        let mut seen = Vec::new();
        while let Some(peer) = iter.next() {
            seen.push(peer.clone());
        }
        assert_eq!(seen, walked);
    }
}

#[test]
fn test_table_agrees_with_a_walk_by_loops_on_one_byte_identifiers() {
    for seed in 0..40 {
        run(seed, 1, (seed % 5) as usize, 128, 300);
    }
}

#[test]
fn test_table_agrees_with_a_walk_by_loops_on_two_byte_identifiers() {
    for seed in 100..130 {
        run(seed, 2, (seed % 4) as usize + 1, 8, 400);
    }
}

#[test]
fn test_table_agrees_with_a_walk_by_loops_on_wide_identifiers() {
    for seed in 200..210 {
        run(seed, 20, 3, 2, 300);
    }
}

#[test]
fn test_table_agrees_with_a_walk_by_loops_with_default_buckets() {
    for seed in 300..305 {
        run(seed, 2, 20, 128, 1500);
    }
}
