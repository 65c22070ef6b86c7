//! Map names used by the packet classifier and its loader.

use vstd::prelude::*;

verus! {

/// HashMap storing peer metadata keyed by IP address
pub const PEER_STATE: &'static str = "PEER_STATE";

/// Ring buffer for packet events
pub const RAFT_EVENTS: &'static str = "RAFT_EVENTS";

/// Array for statistics
pub const STATS: &'static str = "STATS";

} // verus!
