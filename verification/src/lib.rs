//! Verified core of a RAFT consensus node: the replicated log, the key-value
//! state machine, the node's decision logic, message framing and the packet
//! classifier, with the types that travel between nodes.

pub mod bounded;
pub mod classifier;
pub mod cli;
pub mod config;
pub mod ipc;
pub mod log;
pub mod map_names;
pub mod maps;
pub mod network;
pub mod node;
pub mod protocol;
pub mod snapshot_format;
pub mod state;
pub mod state_machine;
pub mod strmap;
pub mod text;

use vstd::prelude::*;

verus! {

/// Default RAFT communication port
pub const RAFT_PORT: u16 = 5555;

/// Maximum number of peers in a cluster
pub const MAX_PEERS: usize = 16;

/// Maximum size of a log entry value in bytes
pub const MAX_VALUE_SIZE: usize = 1024;

/// Maximum size of a key in bytes
pub const MAX_KEY_SIZE: usize = 256;

/// Capacity, in bytes, of a node identifier or an address carried in a message
pub const MAX_ID_SIZE: usize = 64;

/// Maximum number of log entries carried by one AppendEntries request
pub const MAX_ENTRIES_PER_REQUEST: usize = 64;

} // verus!
