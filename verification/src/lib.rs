//! The routing table of a Kademlia-style DHT node, with proofs.
//!
//! The core is the k-bucket trie of [`kbucket::Kbucket`]: a binary trie over
//! the bits of identifiers whose leaves are buckets of contacts, split only
//! on the path of the node's own identifier. What it does is stated over a
//! mathematical model, [`trie::Trie`], and proved; what holds of it whatever
//! it is given is collected in [`laws`] and [`contents`].
//!
//! Around it stand the pieces of a node that the table lives in: the bounded
//! caches of [`tables`] and [`values`], the [`secrets`], the options of
//! [`opts`] and the state of a running node in [`actor`].

pub mod actor;
pub mod branch;
pub mod bucket;
pub mod cache;
pub mod contact;
pub mod contents;
pub mod distance;
pub mod identifier;
pub mod iter;
pub mod kbucket;
pub mod laws;
pub mod nearest;
pub mod node;
pub mod notification;
pub mod opts;
pub mod secrets;
pub mod tables;
pub mod trie;
pub mod values;
pub mod wellformed;
