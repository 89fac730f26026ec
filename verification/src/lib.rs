//! A Kademlia-style distributed hash table: identifiers and the XOR metric,
//! the bucketed routing table, the datagram protocol, the local store with
//! expiry, and the iterative lookup, each with a contract that is proved.

use vstd::prelude::*;

pub mod algs;
pub mod convergence;
pub mod hash;
pub mod lookup;
pub mod node;
pub mod platform;
pub mod replica;
pub mod routing;
pub mod rpc;
pub mod storage;
pub mod types;

verus! {

/// Maximum number of contacts in a bucket, and the size of a lookup's result.
pub const K: usize = 20;

/// Number of probes that one lookup round may have in flight.
pub const ALPHA: usize = 3;

/// Width of identifiers and keys, in bits.
pub const KEY_SIZE: usize = 160;

/// Width of identifiers and keys, in bytes.
pub const ID_BYTES: usize = 20;

/// The time, in seconds, after which a node stores its values again: an
/// hour.
pub const REPUBLISH_INTERVAL: u64 = 3600;

/// The time, in seconds, after which a node refreshes a bucket: an hour.
pub const BUCKET_REFRESH_INTERVAL: u64 = 3600;

} // verus!
