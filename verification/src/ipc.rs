//! The answers of a node to the requests of its command-line client.
//!
//! Reading requests from the socket, waiting for a commit and writing the
//! answer are the caller's; this module decides what is proposed for a
//! request and what the client is answered.

use crate::bounded::{fit_bytes, fit_data, fit_str, fit_text};
use crate::node::{NodeStatus, ProposeResult};
use crate::protocol::{Command, CommandView};
use crate::state::{copy_opt_string, opt_text, NodeRole};
use crate::state_machine::message_prefix;
use crate::text::{decimal, push_decimal, push_text};
use vstd::prelude::*;

verus! {

/// IPC request from CLI
#[derive(Debug)]
pub enum IpcRequest {
    /// Join a new peer to the cluster
    Join { node_id: String, address: String },
    /// Remove a peer from the cluster
    Leave { node_id: String },
    /// Get cluster status
    Status,
    /// Propose a command
    Propose { key: String, value: Option<String> },
    /// Get a value
    Get { key: String },
    /// Send a message to the cluster
    Send { message: String },
    /// Get recent messages
    Messages { limit: Option<u64>, since_index: Option<u64> },
}

/// Status response for IPC
#[derive(Debug)]
pub struct StatusResponse {
    pub node_id: String,
    pub role: String,
    pub current_term: u64,
    pub commit_index: u64,
    pub last_applied: u64,
    pub leader_id: Option<String>,
    pub peers: Vec<String>,
}

/// The data an answer carries.
#[derive(Debug)]
pub enum IpcData {
    /// The leader to ask instead
    LeaderHint { leader_id: String },
    /// The node's status
    Status(StatusResponse),
    /// A key and the value stored under it
    Value { key: String, value: Option<Vec<u8>> },
    /// The log index a message was committed at
    Index { index: u64 },
    /// Recent messages, newest first, and the last applied index
    Messages { messages: Vec<Vec<u8>>, last_applied: u64 },
}

/// IPC response to CLI
#[derive(Debug)]
pub struct IpcResponse {
    pub success: bool,
    pub message: String,
    pub data: Option<IpcData>,
}

/// Which request waits for a commit.
#[derive(Debug, Clone, Copy, PartialEq, Eq, Structural)]
pub enum ProposalKind {
    /// A key-value proposal
    Propose,
    /// A message sent to the cluster
    Send,
}

/// How the wait for a proposal's commit ended.
#[derive(Debug)]
pub enum CommitWait {
    /// The node answered
    Answered(ProposeResult),
    /// The node dropped the answer channel
    Closed,
    /// No answer came in time
    TimedOut,
}

/// The name of a role, as it is shown.
pub open spec fn role_text(role: NodeRole) -> Seq<char> {
    match role {
        NodeRole::Follower => "Follower"@,
        NodeRole::Candidate => "Candidate"@,
        NodeRole::Leader => "Leader"@,
    }
}

/// The name of a role, as it is shown
pub fn role_name(role: NodeRole) -> (r: String)
    ensures
        r@ == role_text(role),
{
    match role {
        NodeRole::Follower => "Follower".to_owned(),
        NodeRole::Candidate => "Candidate".to_owned(),
        NodeRole::Leader => "Leader".to_owned(),
    }
}

impl StatusResponse {
    /// The status as the client sees it
    pub fn from(s: NodeStatus) -> (r: Self)
        ensures
            r.node_id@ == s.node_id@,
            r.role@ == role_text(s.role),
            r.current_term == s.current_term,
            r.commit_index == s.commit_index,
            r.last_applied == s.last_applied,
            opt_text(r.leader_id) == opt_text(s.leader_id),
            r.peers@ == s.peers@,
    {
        StatusResponse {
            node_id: s.node_id,
            role: role_name(s.role),
            current_term: s.current_term,
            commit_index: s.commit_index,
            last_applied: s.last_applied,
            leader_id: s.leader_id,
            peers: s.peers,
        }
    }
}

/// The command that a proposal stands for: with a value, store it under the
/// key; without, delete the key.  Key and value are cut as a command holds them.
pub fn propose_command(key: &str, value: Option<&str>) -> (r: Command)
    ensures
        r@ == match value {
            Some(v) => CommandView::Put {
                key: fit_text(key@, crate::MAX_KEY_SIZE as nat),
                value: fit_data(vstd::utf8::encode_utf8(v@), crate::MAX_VALUE_SIZE as nat),
            },
            None => CommandView::Delete { key: fit_text(key@, crate::MAX_KEY_SIZE as nat) },
        },
{
    match value {
        Some(v) => Command::Put {
            key: fit_str(key, crate::MAX_KEY_SIZE),
            value: fit_bytes(v.as_bytes(), crate::MAX_VALUE_SIZE),
        },
        None => Command::Delete { key: fit_str(key, crate::MAX_KEY_SIZE) },
    }
}

/// The key a message sent at `timestamp` (milliseconds) is stored under.
pub open spec fn message_key(timestamp: u128) -> Seq<char> {
    message_prefix() + decimal(timestamp as nat)
}

/// The command that stores a message sent at `timestamp`, whose JSON
/// record is `record`: put under the message key, cut as a command holds it.
pub fn message_command(timestamp: u128, record: &[u8]) -> (r: Command)
    ensures
        r@ == (CommandView::Put {
            key: fit_text(message_key(timestamp), crate::MAX_KEY_SIZE as nat),
            value: fit_data(record@, crate::MAX_VALUE_SIZE as nat),
        }),
{
    let mut key = String::new();
    push_text(&mut key, "_msg:");
    proof {
        reveal_strlit("_msg:");
    }
    push_decimal(&mut key, timestamp);
    assert(key@ =~= message_key(timestamp));
    Command::Put {
        key: fit_str(key.as_str(), crate::MAX_KEY_SIZE),
        value: fit_bytes(record, crate::MAX_VALUE_SIZE),
    }
}

/// The JSON string that `serde_json` writes for the text `t`: `t` within
/// double quotes, with its quotes, backslashes and control characters
/// escaped.
pub uninterp spec fn json_string_text(t: Seq<char>) -> Seq<char>;

/// `serde_json::to_string` of a text: the JSON string that holds it.
/// Writing a string into a `String` does not fail.
#[verifier::external_body]
fn json_string(t: &str) -> (r: String)
    ensures
        r@ == json_string_text(t@),
{
    serde_json::to_string(t).unwrap_or_default()
}

/// The JSON record of a message sent to the cluster, as `serde_json` writes
/// an object with its keys in order: the sender, the message, and the
/// timestamp in milliseconds.
pub open spec fn message_record_text(from: Seq<char>, timestamp: u128, message: Seq<char>) -> Seq<char> {
    "{\"from\":"@ + json_string_text(from) + ",\"message\":"@ + json_string_text(message) + ",\"timestamp\":"@
        + decimal(timestamp as nat) + "}"@
}

/// The JSON record of a message that `from` sends at `timestamp`; a
/// timestamp past the largest `u64` is not a JSON number `serde_json` writes.
pub fn message_record(from: &str, timestamp: u128, message: &str) -> (r: String)
    requires
        timestamp <= u64::MAX,
    ensures
        r@ == message_record_text(from@, timestamp, message@),
{
    let mut s = String::new();
    push_text(&mut s, "{\"from\":");
    let f = json_string(from);
    push_text(&mut s, f.as_str());
    push_text(&mut s, ",\"message\":");
    let m = json_string(message);
    push_text(&mut s, m.as_str());
    push_text(&mut s, ",\"timestamp\":");
    push_decimal(&mut s, timestamp);
    push_text(&mut s, "}");
    s
}

/// The command that stores a message that `from` sends at `timestamp`: its
/// JSON record put under the message key, cut as a command holds it.
pub fn send_command(from: &str, timestamp: u128, message: &str) -> (r: Command)
    requires
        timestamp <= u64::MAX,
    ensures
        r@ == (CommandView::Put {
            key: fit_text(message_key(timestamp), crate::MAX_KEY_SIZE as nat),
            value: fit_data(
                vstd::utf8::encode_utf8(message_record_text(from@, timestamp, message@)),
                crate::MAX_VALUE_SIZE as nat,
            ),
        }),
{
    let record = message_record(from, timestamp, message);
    message_command(timestamp, record.as_str().as_bytes())
}

/// The answer to a join: the peer was added.
pub fn join_response(node_id: &str, address: &str) -> (r: IpcResponse)
    ensures
        r.success,
        r.message@ == "Added peer "@ + node_id@ + " at "@ + address@,
        r.data is None,
{
    let mut message = String::new();
    push_text(&mut message, "Added peer ");
    push_text(&mut message, node_id);
    push_text(&mut message, " at ");
    push_text(&mut message, address);
    IpcResponse { success: true, message, data: None }
}

/// The answer to a leave: the peer was removed.
pub fn leave_response(node_id: &str) -> (r: IpcResponse)
    ensures
        r.success,
        r.message@ == "Removed peer "@ + node_id@,
        r.data is None,
{
    let mut message = String::new();
    push_text(&mut message, "Removed peer ");
    push_text(&mut message, node_id);
    IpcResponse { success: true, message, data: None }
}

/// The answer to a status request.
pub fn status_response(status: NodeStatus) -> (r: IpcResponse)
    ensures
        r.success,
        r.message@ == "OK"@,
        r.data matches Some(IpcData::Status(s)) && s.node_id@ == status.node_id@ && s.role@ == role_text(
            status.role,
        ) && s.current_term == status.current_term && s.commit_index == status.commit_index
            && s.last_applied == status.last_applied && opt_text(s.leader_id) == opt_text(status.leader_id)
            && s.peers@ == status.peers@,
{
    IpcResponse { success: true, message: "OK".to_owned(), data: Some(IpcData::Status(StatusResponse::from(status))) }
}

/// The answer to a read of `key`, with the value stored under it.
pub fn get_response(key: &str, value: Option<Vec<u8>>) -> (r: IpcResponse)
    ensures
        r.success,
        r.message@ == "OK"@,
        r.data matches Some(IpcData::Value { key: k, value: v }) && k@ == key@ && v == value,
{
    IpcResponse { success: true, message: "OK".to_owned(), data: Some(IpcData::Value { key: key.to_owned(), value }) }
}

/// The answer to a request for messages.
pub fn messages_response(messages: Vec<Vec<u8>>, last_applied: u64) -> (r: IpcResponse)
    ensures
        r.success,
        r.message@ == "OK"@,
        r.data matches Some(IpcData::Messages { messages: m, last_applied: a }) && m == messages && a == last_applied,
{
    IpcResponse { success: true, message: "OK".to_owned(), data: Some(IpcData::Messages { messages, last_applied }) }
}

/// How many messages a request asks for, and from which index: 10 and 0
/// when it does not say.
pub fn messages_request_bounds(limit: Option<u64>, since_index: Option<u64>) -> (r: (u64, u64))
    ensures
        r.0 == match limit {
            Some(l) => l,
            None => 10,
        },
        r.1 == match since_index {
            Some(s) => s,
            None => 0,
        },
{
    let l = match limit {
        Some(l) => l,
        None => 10,
    };
    let s = match since_index {
        Some(s) => s,
        None => 0,
    };
    (l, s)
}

/// The answer to a request that does not parse, with the parser's words.
pub fn invalid_request_response(error: &str) -> (r: IpcResponse)
    ensures
        !r.success,
        r.message@ == "Invalid request: "@ + error@,
        r.data is None,
{
    let mut message = String::new();
    push_text(&mut message, "Invalid request: ");
    push_text(&mut message, error);
    IpcResponse { success: false, message, data: None }
}

/// The answer when a proposal could not be made, with the reason.
pub fn proposal_failed_response(kind: ProposalKind, error: &str) -> (r: IpcResponse)
    ensures
        !r.success,
        r.message@ == (if kind == ProposalKind::Propose { "Propose failed: "@ } else { "Send failed: "@ }) + error@,
        r.data is None,
{
    let mut message = String::new();
    match kind {
        ProposalKind::Propose => push_text(&mut message, "Propose failed: "),
        ProposalKind::Send => push_text(&mut message, "Send failed: "),
    }
    push_text(&mut message, error);
    IpcResponse { success: false, message, data: None }
}

/// The answer once the wait for a proposal's commit ends.
pub fn commit_response(kind: ProposalKind, wait: CommitWait) -> (r: IpcResponse)
    ensures
        match wait {
            CommitWait::Answered(ProposeResult::Success { index }) => {
                &&& r.success
                &&& kind == ProposalKind::Propose ==> r.message@ == "Committed at index "@ + decimal(index as nat)
                    && r.data is None
                &&& kind == ProposalKind::Send ==> r.message@ == "Message sent (index "@ + decimal(index as nat)
                    + ")"@ && (r.data matches Some(IpcData::Index { index: i }) && i == index)
            },
            CommitWait::Answered(ProposeResult::NotLeader { leader_id }) => {
                &&& !r.success
                &&& r.message@ == (if kind == ProposalKind::Propose {
                    "Not leader"@
                } else {
                    "Not leader - send to leader node"@
                })
                &&& match leader_id {
                    Some(l) => r.data matches Some(IpcData::LeaderHint { leader_id: h }) && h@ == l@,
                    None => r.data is None,
                }
            },
            CommitWait::Answered(ProposeResult::Failed { reason }) => !r.success && r.message@ == reason@
                && r.data is None,
            CommitWait::Closed => !r.success && r.message@ == "Channel closed"@ && r.data is None,
            CommitWait::TimedOut => !r.success && r.message@ == (if kind == ProposalKind::Propose {
                "Timeout waiting for commit"@
            } else {
                "Timeout waiting for replication"@
            }) && r.data is None,
        },
{
    match wait {
        CommitWait::Answered(ProposeResult::Success { index }) => {
            let mut message = String::new();
            match kind {
                ProposalKind::Propose => {
                    push_text(&mut message, "Committed at index ");
                    push_decimal(&mut message, index as u128);
                    IpcResponse { success: true, message, data: None }
                },
                ProposalKind::Send => {
                    push_text(&mut message, "Message sent (index ");
                    push_decimal(&mut message, index as u128);
                    push_text(&mut message, ")");
                    IpcResponse { success: true, message, data: Some(IpcData::Index { index }) }
                },
            }
        },
        CommitWait::Answered(ProposeResult::NotLeader { leader_id }) => {
            let message = match kind {
                ProposalKind::Propose => "Not leader".to_owned(),
                ProposalKind::Send => "Not leader - send to leader node".to_owned(),
            };
            let data = match leader_id {
                Some(l) => Some(IpcData::LeaderHint { leader_id: l }),
                None => None,
            };
            IpcResponse { success: false, message, data }
        },
        CommitWait::Answered(ProposeResult::Failed { reason }) => {
            IpcResponse { success: false, message: reason, data: None }
        },
        CommitWait::Closed => IpcResponse { success: false, message: "Channel closed".to_owned(), data: None },
        CommitWait::TimedOut => {
            let message = match kind {
                ProposalKind::Propose => "Timeout waiting for commit".to_owned(),
                ProposalKind::Send => "Timeout waiting for replication".to_owned(),
            };
            IpcResponse { success: false, message, data: None }
        },
    }
}

/// A message stored with `message_command` is found again under its
/// timestamp: its key reads back as the timestamp it was sent at.
pub proof fn law_message_key_reads_back(timestamp: u128)
    ensures
        crate::state_machine::message_timestamp(message_key(timestamp)) == Some(timestamp),
{
    let k = message_key(timestamp);
    assert(k.take(5) =~= message_prefix());
    assert(k.skip(5) =~= decimal(timestamp as nat));
    crate::text::law_decimal_reads_back(timestamp);
}


/// The roles are shown by their names: "Follower", "Candidate" and
/// "Leader", so distinct roles are shown differently.
pub proof fn law_role_names(role: NodeRole, other: NodeRole, r: String)
    requires
        r@ == role_text(role),
    ensures
        role == NodeRole::Follower ==> r@ == "Follower"@,
        role == NodeRole::Candidate ==> r@ == "Candidate"@,
        role == NodeRole::Leader ==> r@ == "Leader"@,
        role != other ==> r@ != role_text(other),
{
    reveal_strlit("Follower");
    reveal_strlit("Candidate");
    reveal_strlit("Leader");
    assert("Follower"@.len() == 8);
    assert("Candidate"@.len() == 9);
    assert("Leader"@.len() == 6);
}

/// A status answer shows the node's role by its name: "Follower" for a
/// follower, "Candidate" for a candidate, "Leader" for a leader.
pub proof fn law_status_shows_role_name(status: NodeStatus, r: IpcResponse)
    requires
        r.data matches Some(IpcData::Status(s)) && s.role@ == role_text(status.role),
    ensures
        r.data matches Some(IpcData::Status(s)) && s.role@ == match status.role {
            NodeRole::Follower => "Follower"@,
            NodeRole::Candidate => "Candidate"@,
            NodeRole::Leader => "Leader"@,
        },
{
}

} // verus!
