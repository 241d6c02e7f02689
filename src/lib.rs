//! A discrete-event model of the IPFS Kademlia DHT: the XOR keyspace and
//! k-bucket routing table, the iterative FIND_NODE lookup, the value
//! orchestrations built on it, record storage and the lookup oracle.
//!
//! - `key`: 256-bit keys, the XOR metric, SHA-256 keys of content and peers.
//! - `bucket`: the k-bucket routing table and its closest-peer queries.
//! - `find_node`: the alpha-parallel lookup state machine and its scoring.
//! - `value_query`, `pool`, `query`: GET_VALUE / PUT_VALUE and the queries
//!   in flight.
//! - `storage`: records and the two stores of a peer.
//! - `keys_tree`: the oracle, a trie over every peer key.
//! - `peer`: a peer's handlers; what they send is left in an outbox for
//!   the event queue outside to deliver.
//! - `message`, `stats`, `topology`, `order`, `bitarray`: support.
//!
//! Time is a logical clock of `u64` ticks; the caller picks the unit.
use vstd::prelude::*;

pub mod bitarray;
pub mod bucket;
pub mod find_node;
pub mod key;
pub mod keys_tree;
pub mod message;
pub mod order;
pub mod peer;
pub mod pool;
pub mod query;
pub mod stats;
pub mod storage;
pub mod topology;
pub mod value_query;

verus! {

/// Dense handle of a peer, assigned when the peer is registered.
pub type PeerId = u32;

} // verus!
