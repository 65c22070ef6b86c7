//! Node state: roles, persistent and volatile state, peers.

use crate::bounded::{fit_str, fit_text};
use vstd::prelude::*;

verus! {

/// The three possible states of a RAFT node
#[derive(Clone, Copy, Debug, PartialEq, Eq, Structural)]
pub enum NodeRole {
    /// Passive node that responds to requests from leaders and candidates
    Follower,
    /// Node actively seeking votes to become leader
    Candidate,
    /// Node that handles all client requests and log replication
    Leader,
}

impl Default for NodeRole {
    fn default() -> (r: Self)
        ensures
            r == NodeRole::Follower,
    {
        NodeRole::Follower
    }
}

/// Persistent state that must be saved to stable storage before responding to RPCs
#[derive(Debug)]
pub struct PersistentState {
    /// Latest term server has seen (initialized to 0, increases monotonically)
    pub current_term: u64,
    /// Candidate ID that received vote in current term (or None)
    pub voted_for: Option<String>,
}

/// Persistent state as a mathematical value.
pub struct PersistentStateView {
    pub current_term: u64,
    pub voted_for: Option<Seq<char>>,
}

/// The view of an optional string.
pub open spec fn opt_text(s: Option<String>) -> Option<Seq<char>> {
    match s {
        Some(t) => Some(t@),
        None => None,
    }
}

impl View for PersistentState {
    type V = PersistentStateView;

    open spec fn view(&self) -> PersistentStateView {
        PersistentStateView { current_term: self.current_term, voted_for: opt_text(self.voted_for) }
    }
}

/// Copies an optional string.
pub fn copy_opt_string(s: &Option<String>) -> (r: Option<String>)
    ensures
        opt_text(r) == opt_text(*s),
{
    match s {
        Some(t) => Some(t.clone()),
        None => None,
    }
}

impl Clone for PersistentState {
    fn clone(&self) -> (r: Self)
        ensures
            r@ == self@,
    {
        PersistentState {
            current_term: self.current_term,
            voted_for: copy_opt_string(&self.voted_for),
        }
    }
}

impl Default for PersistentState {
    fn default() -> (r: Self)
        ensures
            r.current_term == 0,
            r.voted_for.is_none(),
    {
        PersistentState { current_term: 0, voted_for: None }
    }
}

/// Volatile state on all servers
#[derive(Clone, Copy, Debug)]
pub struct VolatileState {
    /// Index of highest log entry known to be committed (initialized to 0)
    pub commit_index: u64,
    /// Index of highest log entry applied to state machine (initialized to 0)
    pub last_applied: u64,
}

impl Default for VolatileState {
    fn default() -> (r: Self)
        ensures
            r.commit_index == 0,
            r.last_applied == 0,
    {
        VolatileState { commit_index: 0, last_applied: 0 }
    }
}

/// Volatile state on leaders (reinitialized after election)
#[derive(Debug)]
pub struct LeaderState {
    /// For each server, index of the next log entry to send to that server
    /// (initialized to leader last log index + 1)
    pub next_index: Vec<(String, u64)>,
    /// For each server, index of highest log entry known to be replicated
    /// (initialized to 0)
    pub match_index: Vec<(String, u64)>,
}

impl Default for LeaderState {
    fn default() -> (r: Self)
        ensures
            r.next_index@.len() == 0,
            r.match_index@.len() == 0,
    {
        LeaderState { next_index: Vec::new(), match_index: Vec::new() }
    }
}

/// Information about a peer node in the cluster
#[derive(Debug)]
pub struct PeerInfo {
    /// Unique identifier for this peer
    pub id: String,
    /// Network address (IP:port)
    pub address: String,
}

impl PeerInfo {
    /// Create a new peer info; a field longer than its capacity is kept empty.
    pub fn new(id: &str, address: &str) -> (r: Self)
        ensures
            r.id@ == fit_text(id@, crate::MAX_ID_SIZE as nat),
            r.address@ == fit_text(address@, crate::MAX_ID_SIZE as nat),
    {
        PeerInfo { id: fit_str(id, crate::MAX_ID_SIZE), address: fit_str(address, crate::MAX_ID_SIZE) }
    }
}

impl Clone for PeerInfo {
    fn clone(&self) -> (r: Self)
        ensures
            r.id@ == self.id@,
            r.address@ == self.address@,
    {
        PeerInfo { id: self.id.clone(), address: self.address.clone() }
    }
}

/// Cluster configuration
#[derive(Debug)]
pub struct ClusterConfig {
    /// List of all peers in the cluster (including self)
    pub peers: Vec<PeerInfo>,
}

impl Default for ClusterConfig {
    fn default() -> (r: Self)
        ensures
            r.peers@.len() == 0,
    {
        ClusterConfig { peers: Vec::new() }
    }
}

} // verus!
