//! RAFT protocol messages, as the RAFT paper defines them.

use crate::bounded::{fit_str, fit_text};
use vstd::prelude::*;

verus! {

/// A single entry in the RAFT log
#[derive(Debug)]
pub struct LogEntry {
    /// Position in the log (1-indexed)
    pub index: u64,
    /// Term when entry was received by leader
    pub term: u64,
    /// The command to apply to the state machine
    pub command: Command,
}

/// Commands that can be applied to the state machine
#[derive(Debug)]
pub enum Command {
    /// Store a key-value pair
    Put { key: String, value: Vec<u8> },
    /// Delete a key
    Delete { key: String },
    /// No-op command (used for leader commit)
    Noop,
}

/// A command as a mathematical value.
pub enum CommandView {
    Put { key: Seq<char>, value: Seq<u8> },
    Delete { key: Seq<char> },
    Noop,
}

/// A log entry as a mathematical value.
pub struct LogEntryView {
    pub index: u64,
    pub term: u64,
    pub command: CommandView,
}

impl View for Command {
    type V = CommandView;

    open spec fn view(&self) -> CommandView {
        match self {
            Command::Put { key, value } => CommandView::Put { key: key@, value: value@ },
            Command::Delete { key } => CommandView::Delete { key: key@ },
            Command::Noop => CommandView::Noop,
        }
    }
}

impl View for LogEntry {
    type V = LogEntryView;

    open spec fn view(&self) -> LogEntryView {
        LogEntryView { index: self.index, term: self.term, command: self.command@ }
    }
}

impl Clone for Command {
    fn clone(&self) -> (r: Self)
        ensures
            r@ == self@,
    {
        match self {
            Command::Put { key, value } => Command::Put { key: key.clone(), value: value.clone() },
            Command::Delete { key } => Command::Delete { key: key.clone() },
            Command::Noop => Command::Noop,
        }
    }
}

impl Clone for LogEntry {
    fn clone(&self) -> (r: Self)
        ensures
            r@ == self@,
    {
        LogEntry { index: self.index, term: self.term, command: self.command.clone() }
    }
}

/// The views of a sequence of entries.
pub open spec fn entries_view(s: Seq<LogEntry>) -> Seq<LogEntryView> {
    s.map_values(|e: LogEntry| e@)
}

/// RAFT protocol message types
#[derive(Debug)]
pub enum RaftMessage {
    /// AppendEntries RPC (heartbeat and log replication)
    AppendEntries(AppendEntriesRequest),
    /// Response to AppendEntries
    AppendEntriesResponse(AppendEntriesResponse),
    /// RequestVote RPC (leader election)
    RequestVote(RequestVoteRequest),
    /// Response to RequestVote
    RequestVoteResponse(RequestVoteResponse),
    /// Client request to propose a command
    ClientRequest(ClientRequest),
    /// Response to client request
    ClientResponse(ClientResponse),
}

/// AppendEntries RPC request
///
/// Invoked by leader to replicate log entries; also used as heartbeat.
#[derive(Debug)]
pub struct AppendEntriesRequest {
    /// Leader's term
    pub term: u64,
    /// Leader's ID so follower can redirect clients
    pub leader_id: String,
    /// Index of log entry immediately preceding new ones
    pub prev_log_index: u64,
    /// Term of prev_log_index entry
    pub prev_log_term: u64,
    /// Log entries to store (empty for heartbeat)
    pub entries: Vec<LogEntry>,
    /// Leader's commit index
    pub leader_commit: u64,
}

/// AppendEntries RPC response
#[derive(Debug)]
pub struct AppendEntriesResponse {
    /// Current term, for leader to update itself
    pub term: u64,
    /// True if follower contained entry matching prev_log_index and prev_log_term
    pub success: bool,
    /// The index of the last log entry (for fast backtracking)
    pub last_log_index: u64,
    /// Responder's node ID
    pub node_id: String,
}

/// RequestVote RPC request
///
/// Invoked by candidates to gather votes.
#[derive(Debug)]
pub struct RequestVoteRequest {
    /// Candidate's term
    pub term: u64,
    /// Candidate requesting vote
    pub candidate_id: String,
    /// Index of candidate's last log entry
    pub last_log_index: u64,
    /// Term of candidate's last log entry
    pub last_log_term: u64,
}

impl Clone for RequestVoteRequest {
    fn clone(&self) -> (r: Self)
        ensures
            r.term == self.term,
            r.candidate_id@ == self.candidate_id@,
            r.last_log_index == self.last_log_index,
            r.last_log_term == self.last_log_term,
    {
        RequestVoteRequest {
            term: self.term,
            candidate_id: self.candidate_id.clone(),
            last_log_index: self.last_log_index,
            last_log_term: self.last_log_term,
        }
    }
}

/// RequestVote RPC response
#[derive(Debug)]
pub struct RequestVoteResponse {
    /// Current term, for candidate to update itself
    pub term: u64,
    /// True means candidate received vote
    pub vote_granted: bool,
    /// Responder's node ID
    pub node_id: String,
}

/// Client request to the RAFT cluster
#[derive(Debug)]
pub struct ClientRequest {
    /// Unique request ID for deduplication
    pub request_id: u64,
    /// The command to execute
    pub command: Command,
}

/// Response to a client request
#[derive(Debug)]
pub struct ClientResponse {
    /// Whether the request was successful
    pub success: bool,
    /// The request ID this is responding to
    pub request_id: u64,
    /// Result data (for Get operations)
    pub data: Option<Vec<u8>>,
    /// Error message if not successful
    pub error: Option<String>,
    /// Current leader ID (for redirects)
    pub leader_id: Option<String>,
}

/// Message envelope for network transmission
#[derive(Debug)]
pub struct MessageEnvelope {
    /// Sender's node ID
    pub from: String,
    /// Recipient's node ID (empty for broadcast)
    pub to: String,
    /// The actual message
    pub message: RaftMessage,
}

impl MessageEnvelope {
    /// Create a new message envelope; an identifier longer than the
    /// envelope's capacity is carried as the empty string.
    pub fn new(from: &str, to: &str, message: RaftMessage) -> (r: Self)
        ensures
            r.from@ == fit_text(from@, crate::MAX_ID_SIZE as nat),
            r.to@ == fit_text(to@, crate::MAX_ID_SIZE as nat),
            r.message == message,
    {
        MessageEnvelope {
            from: fit_str(from, crate::MAX_ID_SIZE),
            to: fit_str(to, crate::MAX_ID_SIZE),
            message,
        }
    }
}

} // verus!
