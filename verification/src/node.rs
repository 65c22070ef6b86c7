//! The decisions of a RAFT node.
//!
//! A [`RaftNode`] holds the node's state; each handler takes one event (a
//! message, a timeout, a proposal, a change of membership) and returns what
//! the caller must do: the messages to send, whether to restart the election
//! timer, and which pending proposals are now committed.  Writes that the
//! disk must receive are queued in the node's log.

use crate::bounded::{fit_str, fit_text};
use crate::config::Config;
use crate::log::{
    apply_writes, disk_of, entries_below, in_step, lemma_apply_concat, lemma_apply_one, lemma_with_entries_sound,
    law_append_persists, law_rewrite_persists, lines_before, max_index, sound_entries, storable, with_entries, DiskImage,
    DiskWriteView, RaftLog,
};
use crate::protocol::{
    entries_view, AppendEntriesRequest, AppendEntriesResponse, Command, LogEntry, LogEntryView, MessageEnvelope,
    RaftMessage, RequestVoteRequest, RequestVoteResponse,
};
use crate::state::{NodeRole, PeerInfo, PersistentStateView, opt_text, copy_opt_string};
use crate::state_machine::{apply_range, StateMachine};
use crate::strmap::{has_key, keys_unique, pairs_map, StrMap};
use vstd::prelude::*;

verus! {

/// Result of a propose operation
#[derive(Debug)]
pub enum ProposeResult {
    /// Command was committed
    Success { index: u64 },
    /// Node is not the leader
    NotLeader { leader_id: Option<String> },
    /// Failed to replicate
    Failed { reason: String },
}

/// Current status of the node
#[derive(Debug)]
pub struct NodeStatus {
    pub node_id: String,
    pub role: NodeRole,
    pub current_term: u64,
    pub commit_index: u64,
    pub last_applied: u64,
    pub leader_id: Option<String>,
    pub peers: Vec<String>,
}

/// What the caller must do after a handler returns.
#[derive(Debug)]
pub struct NodeOutput {
    /// Messages to send, in order
    pub messages: Vec<MessageEnvelope>,
    /// Whether the election timer restarts now
    pub reset_election_timer: bool,
    /// Indices of pending proposals that are now committed
    pub committed: Vec<u64>,
}

/// Whether `m` is a vote reply from `me` to `to` carrying `term` and `granted`.
pub open spec fn is_vote_reply(m: MessageEnvelope, me: Seq<char>, to: Seq<char>, term: u64, granted: bool) -> bool {
    &&& m.from@ == fit_text(me, crate::MAX_ID_SIZE as nat)
    &&& m.to@ == fit_text(to, crate::MAX_ID_SIZE as nat)
    &&& m.message matches RaftMessage::RequestVoteResponse(r) && r.term == term && r.vote_granted
        == granted && r.node_id@ == fit_text(me, crate::MAX_ID_SIZE as nat)
}

/// Whether `m` is an AppendEntries reply from `me` to `to`.
pub open spec fn is_append_reply(
    m: MessageEnvelope,
    me: Seq<char>,
    to: Seq<char>,
    term: u64,
    success: bool,
    last_log_index: u64,
) -> bool {
    &&& m.from@ == fit_text(me, crate::MAX_ID_SIZE as nat)
    &&& m.to@ == fit_text(to, crate::MAX_ID_SIZE as nat)
    &&& m.message matches RaftMessage::AppendEntriesResponse(r) && r.term == term && r.success
        == success && r.last_log_index == last_log_index && r.node_id@ == fit_text(
        me,
        crate::MAX_ID_SIZE as nat,
    )
}

/// Whether a candidate whose last entry has `cand_term` and `cand_index`
/// holds a log at least as up to date as one whose last entry has
/// `our_term` and `our_index`.
pub open spec fn log_up_to_date(cand_term: u64, cand_index: u64, our_term: u64, our_index: u64) -> bool {
    cand_term > our_term || (cand_term == our_term && cand_index >= our_index)
}

/// Whether a vote goes to `candidate`, given the vote already cast in the
/// term and whether the candidate's log is up to date.
pub open spec fn grants_vote(voted: Option<Seq<char>>, candidate: Seq<char>, up_to_date: bool) -> bool {
    (voted is None || voted == Some(candidate)) && up_to_date
}

/// The term of the last entry of `log`, or 0.
pub open spec fn last_log_term(log: RaftLog) -> u64 {
    if log.entry_map().contains_key(log.last()) {
        log.entry_map()[log.last()].term
    } else {
        0
    }
}

/// The term and vote after a vote request in `req_term` is handled by a node
/// in `term` that cast `voted`, and whether the vote is granted.
pub open spec fn vote_step(
    term: u64,
    voted: Option<Seq<char>>,
    req_term: u64,
    candidate: Seq<char>,
    up_to_date: bool,
) -> (u64, Option<Seq<char>>, bool) {
    if req_term < term {
        (term, voted, false)
    } else {
        let voted0 = if req_term > term { None } else { voted };
        let granted = grants_vote(voted0, candidate, up_to_date);
        (req_term, if granted { Some(fit_text(candidate, crate::MAX_ID_SIZE as nat)) } else { voted0 }, granted)
    }
}

/// Whether `m` is an AppendEntries request from `me` to `to` with these fields.
pub open spec fn is_append_request(
    m: MessageEnvelope,
    me: Seq<char>,
    to: Seq<char>,
    term: u64,
    prev_log_index: u64,
    prev_log_term: u64,
    entries: Seq<LogEntryView>,
    leader_commit: u64,
) -> bool {
    &&& m.from@ == fit_text(me, crate::MAX_ID_SIZE as nat)
    &&& m.to@ == fit_text(to, crate::MAX_ID_SIZE as nat)
    &&& m.message matches RaftMessage::AppendEntries(q) && q.term == term && q.leader_id@ == fit_text(
        me,
        crate::MAX_ID_SIZE as nat,
    ) && q.prev_log_index == prev_log_index && q.prev_log_term == prev_log_term && entries_view(
        q.entries@,
    ) == entries && q.leader_commit == leader_commit
}

/// Whether `m` is a vote request from `me` to `to` with these fields.
pub open spec fn is_vote_request(
    m: MessageEnvelope,
    me: Seq<char>,
    to: Seq<char>,
    term: u64,
    last_log_index: u64,
    last_log_term: u64,
) -> bool {
    &&& m.from@ == fit_text(me, crate::MAX_ID_SIZE as nat)
    &&& m.to@ == fit_text(to, crate::MAX_ID_SIZE as nat)
    &&& m.message matches RaftMessage::RequestVote(q) && q.term == term && q.candidate_id@ == fit_text(
        me,
        crate::MAX_ID_SIZE as nat,
    ) && q.last_log_index == last_log_index && q.last_log_term == last_log_term
}

/// At most the first `MAX_ENTRIES_PER_REQUEST` of `es`.
pub open spec fn first_batch(es: Seq<LogEntryView>) -> Seq<LogEntryView> {
    if es.len() > crate::MAX_ENTRIES_PER_REQUEST {
        es.take(crate::MAX_ENTRIES_PER_REQUEST as int)
    } else {
        es
    }
}

/// The map `m` with every key of `ks` set to `v`.
pub open spec fn set_all(m: Map<Seq<char>, u64>, ks: Seq<Seq<char>>, v: u64) -> Map<Seq<char>, u64> {
    Map::new(|k: Seq<char>| m.contains_key(k) || ks.contains(k), |k: Seq<char>| if ks.contains(k) { v } else { m[k] })
}

/// The majority of a cluster of `peers` peers and this node.
pub open spec fn majority(peers: nat) -> nat {
    (peers + 1) / 2 + 1
}

/// Setting one more key: the keys `ks` up to `i + 1` are the keys up to `i` and `ks[i]`.
pub proof fn lemma_set_all_step(m: Map<Seq<char>, u64>, ks: Seq<Seq<char>>, i: int, v: u64)
    requires
        0 <= i < ks.len(),
    ensures
        set_all(m, ks.take(i + 1), v) == set_all(m, ks.take(i), v).insert(ks[i], v),
{
    assert forall|k: Seq<char>| #[trigger] ks.take(i + 1).contains(k) <==> (ks.take(i).contains(k) || k == ks[i]) by {
        if ks.take(i + 1).contains(k) {
            let j = choose|j: int| 0 <= j < ks.take(i + 1).len() && #[trigger] ks.take(i + 1)[j] == k;
            if j < i {
                assert(ks.take(i)[j] == k);
            }
        }
        if ks.take(i).contains(k) {
            let j = choose|j: int| 0 <= j < ks.take(i).len() && #[trigger] ks.take(i)[j] == k;
            assert(ks.take(i + 1)[j] == k);
        }
        if k == ks[i] {
            assert(ks.take(i + 1)[i] == k);
        }
    }
    let a = set_all(m, ks.take(i + 1), v);
    let b = set_all(m, ks.take(i), v).insert(ks[i], v);
    assert forall|k: Seq<char>| #[trigger] a.contains_key(k) <==> b.contains_key(k) by {
        assert(ks.take(i + 1).contains(k) <==> (ks.take(i).contains(k) || k == ks[i]));
    }
    assert forall|k: Seq<char>| #[trigger] a.contains_key(k) implies a[k] == b[k] by {
        assert(ks.take(i + 1).contains(k) <==> (ks.take(i).contains(k) || k == ks[i]));
    }
    assert(a =~= b);
}

/// Setting no key leaves the map as it is.
pub proof fn lemma_set_all_none(m: Map<Seq<char>, u64>, ks: Seq<Seq<char>>, v: u64)
    requires
        ks.len() == 0,
    ensures
        set_all(m, ks, v) == m,
{
    assert(set_all(m, ks, v) =~= m);
}

/// The index of the first entry of `es` whose index holds, in `m`, an entry
/// of another term.
pub open spec fn first_conflict(m: Map<u64, LogEntryView>, es: Seq<LogEntryView>) -> Option<u64>
    decreases es.len(),
{
    if es.len() == 0 {
        None
    } else if m.contains_key(es[0].index) && m[es[0].index].term != es[0].term {
        Some(es[0].index)
    } else {
        first_conflict(m, es.drop_first())
    }
}

/// A conflict lies at the index of an entry that the log holds.
proof fn lemma_conflict_is_held(m: Map<u64, LogEntryView>, es: Seq<LogEntryView>)
    ensures
        first_conflict(m, es) matches Some(c) ==> m.contains_key(c),
    decreases es.len(),
{
    if es.len() > 0 {
        lemma_conflict_is_held(m, es.drop_first());
    }
}

/// Whether a log holding the entries `m` matches a leader's log at `index` in `term`.
pub open spec fn holds_entry(m: Map<u64, LogEntryView>, index: u64, term: u64) -> bool {
    if m.contains_key(index) {
        m[index].term == term
    } else {
        index == 0
    }
}

/// How many of the match indices `s` reach `n`.
pub open spec fn count_at_least(s: Seq<(String, u64)>, n: u64) -> nat
    decreases s.len(),
{
    if s.len() == 0 {
        0
    } else {
        count_at_least(s.drop_last(), n) + if s.last().1 >= n { 1nat } else { 0nat }
    }
}

/// Whether a leader in `term` may commit index `n`: its log holds an entry
/// of `term` there, and that entry is on a majority of the cluster, this
/// node included, as the match indices `matches` tell.
pub open spec fn commit_ready(
    lm: Map<u64, LogEntryView>,
    term: u64,
    matches: Seq<(String, u64)>,
    peers: nat,
    n: u64,
) -> bool {
    &&& lm.contains_key(n)
    &&& lm[n].term == term
    &&& 1 + count_at_least(matches, n) >= majority(peers)
}

/// The indices not beyond `up`.
pub open spec fn at_most(up: u64) -> spec_fn(u64) -> bool {
    |i: u64| i <= up
}

/// The indices beyond `up`.
pub open spec fn beyond(up: u64) -> spec_fn(u64) -> bool {
    |i: u64| i > up
}

/// `rand::Rng::gen_range` over `min..=max` on the thread's generator:
/// some number in that range, chosen at random.
#[verifier::external_body]
fn random_in_range(min: u64, max: u64) -> (r: u64)
    requires
        min <= max,
    ensures
        min <= r <= max,
{
    rand::Rng::gen_range(&mut rand::thread_rng(), min..=max)
}

/// Whether an election starts now: a follower or a candidate that has heard
/// from no leader, and granted no vote, for at least its election timeout.
pub fn election_due(role: NodeRole, elapsed_ms: u64, timeout_ms: u64) -> (r: bool)
    ensures
        r == ((role == NodeRole::Follower || role == NodeRole::Candidate) && elapsed_ms >= timeout_ms),
{
    (role == NodeRole::Follower || role == NodeRole::Candidate) && elapsed_ms >= timeout_ms
}

/// Whether heartbeats go out now: only a leader sends them.
pub fn heartbeat_due(role: NodeRole) -> (r: bool)
    ensures
        r == (role == NodeRole::Leader),
{
    role == NodeRole::Leader
}

/// The main RAFT node
pub struct RaftNode {
    /// Node ID
    node_id: String,
    /// Configuration
    config: Config,
    /// Current role
    role: NodeRole,
    /// Persistent log
    log: RaftLog,
    /// State machine
    state_machine: StateMachine,
    /// Commit index
    commit_index: u64,
    /// Last applied index
    last_applied: u64,
    /// Current leader ID
    leader_id: Option<String>,
    /// Peers in the cluster
    peers: StrMap<PeerInfo>,
    /// Leader state: next_index for each peer
    next_index: StrMap<u64>,
    /// Leader state: match_index for each peer
    match_index: StrMap<u64>,
    /// Votes received (candidate state)
    votes_received: Vec<String>,
    /// Indices of proposals that wait for their commit
    pending_requests: Vec<u64>,
}

impl RaftNode {
    /// This node's identifier.
    pub closed spec fn id(&self) -> Seq<char> {
        self.node_id@
    }

    /// The node's configuration.
    pub closed spec fn configuration(&self) -> Config {
        self.config
    }

    /// The current role.
    pub closed spec fn role_spec(&self) -> NodeRole {
        self.role
    }

    /// The log, with the persistent state.
    pub closed spec fn log_spec(&self) -> RaftLog {
        self.log
    }

    /// The current term.
    pub open spec fn term(&self) -> u64 {
        self.log_spec().state().current_term
    }

    /// The vote cast in the current term.
    pub open spec fn voted(&self) -> Option<Seq<char>> {
        self.log_spec().state().voted_for
    }

    /// The state machine.
    pub closed spec fn machine(&self) -> StateMachine {
        self.state_machine
    }

    /// The commit index.
    pub closed spec fn commit(&self) -> u64 {
        self.commit_index
    }

    /// The last applied index.
    pub closed spec fn applied(&self) -> u64 {
        self.last_applied
    }

    /// The leader this node knows of.
    pub closed spec fn leader(&self) -> Option<Seq<char>> {
        opt_text(self.leader_id)
    }

    /// The peers, in the order they are kept, with their information.
    pub closed spec fn peer_entries(&self) -> Seq<(String, PeerInfo)> {
        self.peers.entries()
    }

    /// The identifiers of the peers, in order.
    pub open spec fn peer_ids(&self) -> Seq<Seq<char>> {
        self.peer_entries().map_values(|p: (String, PeerInfo)| p.0@)
    }

    /// For each peer, the index of the next entry to send.
    pub closed spec fn next_map(&self) -> Map<Seq<char>, u64> {
        self.next_index.map()
    }

    /// For each follower, the index of its last entry known to match.
    pub closed spec fn match_map(&self) -> Map<Seq<char>, u64> {
        self.match_index.map()
    }

    /// The match indices, in the order they are kept.
    pub closed spec fn match_entries(&self) -> Seq<(String, u64)> {
        self.match_index.entries()
    }

    /// The nodes whose vote this candidate holds.
    pub closed spec fn votes(&self) -> Seq<Seq<char>> {
        self.votes_received@.map_values(|s: String| s@)
    }

    /// The indices of proposals that wait for their commit.
    pub closed spec fn pending(&self) -> Seq<u64> {
        self.pending_requests@
    }

    /// The node's invariant.
    pub closed spec fn wf(&self) -> bool {
        &&& self.peers.wf()
        &&& self.next_index.wf()
        &&& self.match_index.wf()
        &&& self.log.well_placed()
    }

    /// Whether only the term, the vote, the pending disk writes and the role may differ.
    pub open spec fn same_but_vote(&self, other: &Self) -> bool {
        &&& self.id() == other.id()
        &&& self.configuration() == other.configuration()
        &&& self.log_spec().entry_map() == other.log_spec().entry_map()
        &&& self.log_spec().last() == other.log_spec().last()
        &&& self.machine() == other.machine()
        &&& self.commit() == other.commit()
        &&& self.applied() == other.applied()
        &&& self.leader() == other.leader()
        &&& self.peer_entries() == other.peer_entries()
        &&& self.next_map() == other.next_map()
        &&& self.match_entries() == other.match_entries()
        &&& self.votes() == other.votes()
        &&& self.pending() == other.pending()
    }

    /// Create a new RAFT node from its configuration and its log; every
    /// configured peer is known, keyed by its identifier.
    pub fn new(config: Config, log: RaftLog) -> (r: Self)
        requires
            log.well_placed(),
        ensures
            r.wf(),
            r.id() == config.server.node_id@,
            r.configuration() == config,
            r.role_spec() == NodeRole::Follower,
            r.log_spec() == log,
            r.machine().data() == Map::<Seq<char>, Seq<u8>>::empty(),
            r.machine().applied() == 0,
            r.commit() == 0,
            r.applied() == 0,
            r.leader() is None,
            forall|k: Seq<char>| r.peer_ids().contains(k) <==> exists|i: int| 0 <= i < config.peers@.len() && (#[trigger] config.peers@[i]).id@ == k,
            r.next_map() == Map::<Seq<char>, u64>::empty(),
            r.match_map() == Map::<Seq<char>, u64>::empty(),
            r.votes().len() == 0,
            r.pending().len() == 0,
    {
        let mut peers: StrMap<PeerInfo> = StrMap::new();
        let mut i: usize = 0;
        while i < config.peers.len()
            invariant
                i <= config.peers@.len(),
                peers.wf(),
                peers.entries().len() <= i,
                forall|k: Seq<char>| has_key(peers.entries(), k) <==> exists|j: int| 0 <= j < i && (#[trigger] config.peers@[j]).id@ == k,
            decreases config.peers@.len() - i,
        {
            let peer = &config.peers[i];
            let info = PeerInfo::new(peer.id.as_str(), peer.address.as_str());
            let ghost before = peers.entries();
            peers.insert(peer.id.clone(), info);
            proof {
                assert forall|k: Seq<char>| has_key(peers.entries(), k) <==> exists|j: int| 0 <= j < i + 1 && (#[trigger] config.peers@[j]).id@ == k by {
                    if has_key(peers.entries(), k) {
                        let m = peers.map();
                        assert(m.contains_key(k));
                    }
                    if exists|j: int| 0 <= j < i + 1 && (#[trigger] config.peers@[j]).id@ == k {
                        assert(peers.map().contains_key(k));
                    }
                }
            }
            i = i + 1;
        }
        let node_id = config.server.node_id.clone();
        let r = RaftNode {
            node_id,
            config,
            role: NodeRole::Follower,
            log,
            state_machine: StateMachine::new(),
            commit_index: 0,
            last_applied: 0,
            leader_id: None,
            peers,
            next_index: StrMap::new(),
            match_index: StrMap::new(),
            votes_received: Vec::new(),
            pending_requests: Vec::new(),
        };
        proof {
            assert forall|k: Seq<char>| r.peer_ids().contains(k) <==> has_key(r.peer_entries(), k) by {
                if r.peer_ids().contains(k) {
                    let j = choose|j: int| 0 <= j < r.peer_ids().len() && #[trigger] r.peer_ids()[j] == k;
                    assert(r.peer_entries()[j].0@ == k);
                }
                if has_key(r.peer_entries(), k) {
                    let j = choose|j: int| 0 <= j < r.peer_entries().len() && (#[trigger] r.peer_entries()[j]).0@ == k;
                    assert(r.peer_ids()[j] == k);
                }
            }
        }
        r
    }

    /// Get current term
    pub fn current_term(&self) -> (r: u64)
        ensures
            r == self.term(),
    {
        self.log.current_term()
    }

    /// Get current role
    pub fn role(&self) -> (r: NodeRole)
        ensures
            r == self.role_spec(),
    {
        self.role
    }

    /// The index of the last log entry.
    pub fn last_log_index(&self) -> (r: u64)
        ensures
            r == self.log_spec().last(),
    {
        self.log.last_index()
    }

    /// This node's identifier.
    pub fn node_id(&self) -> (r: &String)
        ensures
            r@ == self.id(),
    {
        &self.node_id
    }

    /// Hand out the writes that the disk has not received yet, oldest first.
    pub fn take_pending_writes(&mut self) -> (r: Vec<crate::log::DiskWrite>)
        requires
            old(self).wf(),
        ensures
            final(self).wf(),
            crate::log::writes_view(r@) == old(self).log_spec().pending(),
            final(self).log_spec().pending().len() == 0,
            final(self).log_spec().entry_map() == old(self).log_spec().entry_map(),
            final(self).log_spec().last() == old(self).log_spec().last(),
            final(self).log_spec().state() == old(self).log_spec().state(),
            final(self).same_but_vote(old(self)),
            final(self).role_spec() == old(self).role_spec(),
            forall|img: DiskImage| #[trigger] in_step(img, old(self).log_spec()) ==> in_step(
                apply_writes(img, crate::log::writes_view(r@)),
                final(self).log_spec(),
            ),
    {
        self.log.take_pending_writes()
    }

    /// Build a vote reply to `to`.
    fn vote_reply(&self, to: &str, term: u64, vote_granted: bool) -> (m: MessageEnvelope)
        ensures
            is_vote_reply(m, self.id(), to@, term, vote_granted),
    {
        let response = RequestVoteResponse {
            term,
            vote_granted,
            node_id: fit_str(self.node_id.as_str(), crate::MAX_ID_SIZE),
        };
        MessageEnvelope::new(self.node_id.as_str(), to, RaftMessage::RequestVoteResponse(response))
    }

    /// Build an AppendEntries reply to `to`, carrying the index of the last log entry.
    fn append_reply(&self, to: &str, term: u64, success: bool) -> (m: MessageEnvelope)
        ensures
            is_append_reply(m, self.id(), to@, term, success, self.log_spec().last()),
    {
        let response = AppendEntriesResponse {
            term,
            success,
            last_log_index: self.log.last_index(),
            node_id: fit_str(self.node_id.as_str(), crate::MAX_ID_SIZE),
        };
        MessageEnvelope::new(self.node_id.as_str(), to, RaftMessage::AppendEntriesResponse(response))
    }

    /// Handle RequestVote RPC: a request from an older term is refused; a
    /// newer term makes this node a follower in it; the vote goes to the
    /// candidate when no other vote was cast in the term and the candidate's
    /// log is at least as up to date.
    pub fn handle_request_vote(&mut self, from: &str, req: RequestVoteRequest) -> (r: NodeOutput)
        requires
            old(self).wf(),
        ensures
            final(self).wf(),
            request_vote_done(*old(self), *final(self), from@, req, r),
    {
        let ghost p0 = self.log.pending();
        let current_term = self.log.current_term();
        if req.term < current_term {
            let m = self.vote_reply(from, current_term, false);
            assert(self.log.pending() =~= p0 + Seq::<DiskWriteView>::empty() + Seq::<DiskWriteView>::empty());
            return NodeOutput { messages: vec![m], reset_election_timer: false, committed: Vec::new() };
        }
        if req.term > current_term {
            self.log.set_current_term(req.term);
            self.role = NodeRole::Follower;
        }
        let ghost p1 = self.log.pending();
        let voted_for = self.log.voted_for();
        let can_vote = match &voted_for {
            None => true,
            Some(v) => *v == req.candidate_id,
        };
        let last_term = self.log.last_term();
        let last_index = self.log.last_index();
        let log_ok = req.last_log_term > last_term || (req.last_log_term == last_term && req.last_log_index
            >= last_index);
        let term_now = self.log.current_term();
        if can_vote && log_ok {
            self.log.set_voted_for(Some(req.candidate_id.as_str()));
            let m = self.vote_reply(from, term_now, true);
            assert(self.log.pending() =~= p0 + (p1.subrange(p0.len() as int, p1.len() as int)) + seq![DiskWriteView::SaveState(self.log.state())]);
            NodeOutput { messages: vec![m], reset_election_timer: true, committed: Vec::new() }
        } else {
            let m = self.vote_reply(from, term_now, false);
            assert(self.log.pending() =~= p0 + (p1.subrange(p0.len() as int, p1.len() as int)) + Seq::<DiskWriteView>::empty());
            NodeOutput { messages: vec![m], reset_election_timer: false, committed: Vec::new() }
        }
    }

    /// Whether `m` is the heartbeat that this node sends to `peer`: it
    /// carries the entries from the peer's next index (1 when unknown) up to
    /// the last one, at most a batch of them, after the entry just before.
    pub open spec fn is_heartbeat(&self, m: MessageEnvelope, peer: Seq<char>) -> bool {
        let next = if self.next_map().contains_key(peer) { self.next_map()[peer] } else { 1 };
        let prev: u64 = if next == 0 { 0 } else { (next - 1) as u64 };
        let lm = self.log_spec().entry_map();
        let prev_term = if lm.contains_key(prev) { lm[prev].term } else { 0 };
        is_append_request(
            m,
            self.id(),
            peer,
            self.term(),
            prev,
            prev_term,
            first_batch(crate::log::entries_between(lm, next as int, self.log_spec().last() as int)),
            self.commit(),
        )
    }

    /// Send heartbeats to all followers: nothing unless this node leads;
    /// otherwise one AppendEntries request per peer, in peer order.
    pub fn send_heartbeats(&self) -> (r: Vec<MessageEnvelope>)
        requires
            self.wf(),
        ensures
            self.role_spec() != NodeRole::Leader ==> r@.len() == 0,
            self.role_spec() == NodeRole::Leader ==> {
                &&& r@.len() == self.peer_entries().len()
                &&& forall|i: int| 0 <= i < r@.len() ==> self.is_heartbeat(#[trigger] r@[i], self.peer_ids()[i])
            },
    {
        let mut out: Vec<MessageEnvelope> = Vec::new();
        if self.role != NodeRole::Leader {
            return out;
        }
        let current_term = self.log.current_term();
        let commit_index = self.commit_index;
        let last = self.log.last_index();
        let n = self.peers.len();
        let mut i: usize = 0;
        while i < n
            invariant
                n == self.peer_entries().len(),
                i <= n,
                self.wf(),
                current_term == self.term(),
                commit_index == self.commit(),
                last == self.log_spec().last(),
                out@.len() == i,
                forall|j: int| 0 <= j < i ==> self.is_heartbeat(#[trigger] out@[j], self.peer_ids()[j]),
            decreases n - i,
        {
            let (peer_id, _) = self.peers.entry_at(i);
            let next_idx = match self.next_index.get(peer_id.as_str()) {
                Some(v) => *v,
                None => 1,
            };
            let prev_log_index = if next_idx == 0 { 0 } else { next_idx - 1 };
            let prev_log_term = match self.log.term_at(prev_log_index) {
                Some(t) => t,
                None => 0,
            };
            let mut entries = self.log.get_entries(next_idx, last);
            let ghost all = entries_view(entries@);
            entries.truncate(crate::MAX_ENTRIES_PER_REQUEST);
            assert(entries_view(entries@) =~= first_batch(all));
            let request = AppendEntriesRequest {
                term: current_term,
                leader_id: fit_str(self.node_id.as_str(), crate::MAX_ID_SIZE),
                prev_log_index,
                prev_log_term,
                entries,
                leader_commit: commit_index,
            };
            let m = MessageEnvelope::new(self.node_id.as_str(), peer_id.as_str(), RaftMessage::AppendEntries(request));
            assert(self.peer_ids()[i as int] == peer_id@);
            out.push(m);
            i = i + 1;
        }
        out
    }

    /// Whether this node is `old` after it became leader: it leads in the
    /// same term, sends each peer entries from the index after its last one,
    /// knows no entry to match on any peer, and changed nothing else.
    pub open spec fn became_leader_from(&self, old: &Self) -> bool {
        &&& self.role_spec() == NodeRole::Leader
        &&& self.leader() == Some(old.id())
        &&& self.next_map() == set_all(old.next_map(), old.peer_ids(), (old.log_spec().last() + 1) as u64)
        &&& self.match_map() == set_all(old.match_map(), old.peer_ids(), 0)
        &&& self.id() == old.id()
        &&& self.configuration() == old.configuration()
        &&& self.log_spec() == old.log_spec()
        &&& self.machine() == old.machine()
        &&& self.commit() == old.commit()
        &&& self.applied() == old.applied()
        &&& self.peer_entries() == old.peer_entries()
        &&& self.pending() == old.pending()
    }

    /// Whether `ms` are the heartbeats of this node, one per peer in peer order.
    pub open spec fn are_heartbeats(&self, ms: Seq<MessageEnvelope>) -> bool {
        &&& ms.len() == self.peer_entries().len()
        &&& forall|i: int| 0 <= i < ms.len() ==> self.is_heartbeat(#[trigger] ms[i], self.peer_ids()[i])
    }

    /// Sets `v` as the value of every peer in `m`.
    fn set_for_peers(&self, m: &mut StrMap<u64>, v: u64)
        requires
            self.wf(),
            old(m).wf(),
        ensures
            final(m).wf(),
            final(m).map() == set_all(old(m).map(), self.peer_ids(), v),
    {
        let n = self.peers.len();
        let ghost m0 = m.map();
        let ghost ks = self.peer_ids();
        let mut i: usize = 0;
        proof {
            lemma_set_all_none(m0, ks.take(0), v);
        }
        while i < n
            invariant
                n == self.peer_entries().len(),
                ks == self.peer_ids(),
                i <= n,
                m.wf(),
                m.map() == set_all(m0, ks.take(i as int), v),
            decreases n - i,
        {
            let (peer_id, _) = self.peers.entry_at(i);
            proof {
                lemma_set_all_step(m0, ks, i as int, v);
            }
            m.insert(peer_id.clone(), v);
            i = i + 1;
        }
        assert(ks.take(n as int) =~= ks);
    }

    /// Become leader
    fn become_leader(&mut self) -> (r: Vec<MessageEnvelope>)
        requires
            old(self).wf(),
            old(self).log_spec().last() < u64::MAX,
        ensures
            final(self).wf(),
            final(self).became_leader_from(old(self)),
            final(self).votes() == old(self).votes(),
            final(self).are_heartbeats(r@),
    {
        self.role = NodeRole::Leader;
        self.leader_id = Some(self.node_id.clone());
        let last_index = self.log.last_index();
        let mut next_index = StrMap::new();
        std::mem::swap(&mut next_index, &mut self.next_index);
        self.set_for_peers(&mut next_index, last_index + 1);
        self.next_index = next_index;
        let mut match_index = StrMap::new();
        std::mem::swap(&mut match_index, &mut self.match_index);
        self.set_for_peers(&mut match_index, 0);
        self.match_index = match_index;
        self.send_heartbeats()
    }

    /// Start an election: a new term begins, this node votes for itself and
    /// asks every peer for its vote; alone in its cluster it becomes leader.
    pub fn start_election(&mut self) -> (r: NodeOutput)
        requires
            old(self).wf(),
            old(self).term() < u64::MAX,
            old(self).peer_entries().len() == 0 ==> old(self).log_spec().last() < u64::MAX,
        ensures
            final(self).wf(),
            final(self).term() == old(self).term() + 1,
            final(self).voted() == Some(fit_text(old(self).id(), crate::MAX_ID_SIZE as nat)),
            final(self).votes() == seq![old(self).id()],
            final(self).log_spec().entry_map() == old(self).log_spec().entry_map(),
            final(self).log_spec().last() == old(self).log_spec().last(),
            final(self).log_spec().pending() == old(self).log_spec().pending() + seq![
                DiskWriteView::SaveState(PersistentStateView { current_term: final(self).term(), voted_for: None }),
                DiskWriteView::SaveState(PersistentStateView { current_term: final(self).term(), voted_for: final(self).voted() }),
            ],
            final(self).id() == old(self).id(),
            final(self).configuration() == old(self).configuration(),
            final(self).machine() == old(self).machine(),
            final(self).commit() == old(self).commit(),
            final(self).applied() == old(self).applied(),
            final(self).peer_entries() == old(self).peer_entries(),
            final(self).pending() == old(self).pending(),
            forall|img: DiskImage| #[trigger] in_step(img, old(self).log_spec()) ==> in_step(img, final(self).log_spec()),
            r.reset_election_timer,
            r.committed@.len() == 0,
            old(self).peer_entries().len() > 0 ==> {
                &&& final(self).role_spec() == NodeRole::Candidate
                &&& final(self).leader() == old(self).leader()
                &&& final(self).next_map() == old(self).next_map()
                &&& final(self).match_entries() == old(self).match_entries()
                &&& r.messages@.len() == old(self).peer_entries().len()
                &&& forall|i: int| 0 <= i < r.messages@.len() ==> is_vote_request(
                    #[trigger] r.messages@[i],
                    old(self).id(),
                    old(self).peer_ids()[i],
                    final(self).term(),
                    old(self).log_spec().last(),
                    last_log_term(old(self).log_spec()),
                )
            },
            old(self).peer_entries().len() == 0 ==> {
                &&& final(self).role_spec() == NodeRole::Leader
                &&& final(self).leader() == Some(old(self).id())
                &&& final(self).next_map() == old(self).next_map()
                &&& final(self).match_map() == old(self).match_map()
                &&& r.messages@.len() == 0
            },
    {
        let ghost p0 = self.log.pending();
        let ghost log0 = self.log;
        let new_term = self.log.current_term() + 1;
        self.log.set_current_term(new_term);
        let ghost log1 = self.log;
        self.log.set_voted_for(Some(self.node_id.as_str()));
        proof {
            assert forall|img: DiskImage| #[trigger] in_step(img, log0) implies in_step(img, self.log) by {
                assert(in_step(img, log1));
            }
        }
        assert(self.log.pending() =~= p0 + seq![
            DiskWriteView::SaveState(PersistentStateView { current_term: new_term, voted_for: None }),
            DiskWriteView::SaveState(self.log.state()),
        ]);
        self.role = NodeRole::Candidate;
        self.votes_received = vec![self.node_id.clone()];
        assert(self.votes() =~= seq![self.node_id@]);
        let last_log_index = self.log.last_index();
        let last_log_term = self.log.last_term();
        let request = RequestVoteRequest {
            term: new_term,
            candidate_id: fit_str(self.node_id.as_str(), crate::MAX_ID_SIZE),
            last_log_index,
            last_log_term,
        };
        let mut messages: Vec<MessageEnvelope> = Vec::new();
        let n = self.peers.len();
        let mut i: usize = 0;
        while i < n
            invariant
                n == self.peer_entries().len(),
                i <= n,
                self.wf(),
                request.term == new_term,
                request.candidate_id@ == fit_text(self.id(), crate::MAX_ID_SIZE as nat),
                request.last_log_index == last_log_index,
                request.last_log_term == last_log_term,
                messages@.len() == i,
                forall|j: int| 0 <= j < i ==> is_vote_request(
                    #[trigger] messages@[j],
                    self.id(),
                    self.peer_ids()[j],
                    new_term,
                    last_log_index,
                    last_log_term,
                ),
            decreases n - i,
        {
            let (peer_id, _) = self.peers.entry_at(i);
            let m = MessageEnvelope::new(self.node_id.as_str(), peer_id.as_str(), RaftMessage::RequestVote(request.clone()));
            assert(self.peer_ids()[i as int] == peer_id@);
            messages.push(m);
            i = i + 1;
        }
        if n == 0 {
            let ghost before = *self;
            let hb = self.become_leader();
            proof {
                lemma_set_all_none(before.next_map(), before.peer_ids(), (before.log_spec().last() + 1) as u64);
                lemma_set_all_none(before.match_map(), before.peer_ids(), 0);
            }
            assert(hb@.len() == 0);
        }
        NodeOutput { messages, reset_election_timer: true, committed: Vec::new() }
    }

    /// Whether `from` is among the votes received.
    fn has_vote_from(&self, from: &String) -> (r: bool)
        ensures
            r == self.votes().contains(from@),
    {
        let mut i: usize = 0;
        while i < self.votes_received.len()
            invariant
                i <= self.votes_received@.len(),
                forall|j: int| 0 <= j < i ==> (#[trigger] self.votes_received@[j])@ != from@,
            decreases self.votes_received@.len() - i,
        {
            if self.votes_received[i] == *from {
                assert(self.votes()[i as int] == from@);
                return true;
            }
            i = i + 1;
        }
        proof {
            if self.votes().contains(from@) {
                let j = choose|j: int| 0 <= j < self.votes().len() && #[trigger] self.votes()[j] == from@;
                assert(self.votes_received@[j]@ == from@);
            }
        }
        false
    }

    /// Whether the vote reply `resp` from `from` makes this candidate leader.
    pub fn wins_with_vote(&self, from: &str, resp: &RequestVoteResponse) -> (r: bool)
        ensures
            r == vote_wins(*self, from@, *resp),
    {
        if self.role != NodeRole::Candidate || resp.term > self.log.current_term() || !resp.vote_granted {
            return false;
        }
        let voter = from.to_owned();
        let known = self.has_vote_from(&voter);
        let count: u128 = if known { self.votes_received.len() as u128 } else { self.votes_received.len() as u128 + 1 };
        let total: u128 = self.peers.len() as u128 + 1;
        count >= total / 2 + 1
    }

    /// Handle RequestVote response: only a candidate listens; a newer term
    /// makes it a follower; a granted vote is counted once per voter, and a
    /// candidate whose recorded votes, its own among them, reach a majority
    /// of the cluster becomes leader.
    pub fn handle_request_vote_response(&mut self, from: &str, resp: RequestVoteResponse) -> (r: NodeOutput)
        requires
            old(self).wf(),
            vote_wins(*old(self), from@, resp) ==> old(self).log_spec().last() < u64::MAX,
        ensures
            final(self).wf(),
            vote_response_done(*old(self), *final(self), from@, resp, r),
    {
        let none = NodeOutput { messages: Vec::new(), reset_election_timer: false, committed: Vec::new() };
        if self.role != NodeRole::Candidate {
            return none;
        }
        if resp.term > self.log.current_term() {
            self.log.set_current_term(resp.term);
            self.role = NodeRole::Follower;
            return none;
        }
        if !resp.vote_granted {
            return none;
        }
        let voter = from.to_owned();
        let ghost votes0 = self.votes();
        if !self.has_vote_from(&voter) {
            self.votes_received.push(voter);
            assert(self.votes() =~= votes0.push(from@));
        }
        let total: u128 = self.peers.len() as u128 + 1;
        let needed: u128 = total / 2 + 1;
        if self.votes_received.len() as u128 >= needed {
            let messages = self.become_leader();
            NodeOutput { messages, reset_election_timer: false, committed: Vec::new() }
        } else {
            none
        }
    }

    /// Whether only the votes received may differ.
    pub open spec fn same_but_votes(&self, other: &Self) -> bool {
        &&& self.id() == other.id()
        &&& self.configuration() == other.configuration()
        &&& self.role_spec() == other.role_spec()
        &&& self.log_spec() == other.log_spec()
        &&& self.machine() == other.machine()
        &&& self.commit() == other.commit()
        &&& self.applied() == other.applied()
        &&& self.leader() == other.leader()
        &&& self.peer_entries() == other.peer_entries()
        &&& self.next_map() == other.next_map()
        &&& self.match_entries() == other.match_entries()
        &&& self.pending() == other.pending()
    }

    /// Apply committed entries to state machine, in index order, up to the commit index
    fn apply_committed_entries(&mut self)
        requires
            old(self).wf(),
        ensures
            final(self).wf(),
            ({
                let (d, a) = apply_range(
                    old(self).machine().data(),
                    old(self).machine().applied(),
                    old(self).log_spec().entry_map(),
                    old(self).applied() + 1,
                    old(self).commit() as int,
                );
                &&& final(self).machine().data() == d
                &&& final(self).machine().applied() == a
            }),
            final(self).applied() == (if old(self).applied() < old(self).commit() {
                old(self).commit()
            } else {
                old(self).applied()
            }),
            final(self).same_but_machine(old(self)),
    {
        let ghost d0 = self.state_machine.data();
        let ghost a0 = self.state_machine.applied();
        let ghost start = self.last_applied;
        let ghost lm = self.log.entry_map();
        let commit_index = self.commit_index;
        while self.last_applied < commit_index
            invariant
                self.wf(),
                commit_index == self.commit_index,
                lm == self.log.entry_map(),
                start <= self.last_applied,
                start < commit_index ==> self.last_applied <= commit_index,
                start >= commit_index ==> self.last_applied == start,
                start == old(self).applied(),
                ({
                    let (d, a) = apply_range(d0, a0, lm, start + 1, self.last_applied as int);
                    &&& self.state_machine.data() == d
                    &&& self.state_machine.applied() == a
                }),
                self.same_but_machine(old(self)),
            decreases commit_index - self.last_applied,
        {
            self.last_applied = self.last_applied + 1;
            let ghost i = self.last_applied;
            match self.log.get(self.last_applied) {
                Some(entry) => {
                    assert(entry.index == i);
                    self.state_machine.apply(entry);
                },
                None => {},
            }
            assert(apply_range(d0, a0, lm, start + 1, i as int) == {
                let (d1, a1) = apply_range(d0, a0, lm, start + 1, i - 1);
                if lm.contains_key(i) {
                    crate::state_machine::apply_entry(d1, a1, lm[i])
                } else {
                    (d1, a1)
                }
            });
        }
        proof {
            if start >= commit_index {
                assert(apply_range(d0, a0, lm, start + 1, commit_index as int) == (d0, a0));
                assert(apply_range(d0, a0, lm, start + 1, start as int) == (d0, a0));
            }
        }
    }

    /// Whether only the state machine and the last applied index may differ.
    pub open spec fn same_but_machine(&self, other: &Self) -> bool {
        &&& self.id() == other.id()
        &&& self.configuration() == other.configuration()
        &&& self.role_spec() == other.role_spec()
        &&& self.log_spec() == other.log_spec()
        &&& self.commit() == other.commit()
        &&& self.leader() == other.leader()
        &&& self.peer_entries() == other.peer_entries()
        &&& self.next_map() == other.next_map()
        &&& self.match_entries() == other.match_entries()
        &&& self.votes() == other.votes()
        &&& self.pending() == other.pending()
    }

    /// The first entry of `entries` whose index holds an entry of another term in the log.
    fn find_conflict(&self, entries: &Vec<LogEntry>) -> (r: Option<u64>)
        ensures
            r == first_conflict(self.log_spec().entry_map(), entries_view(entries@)),
    {
        let ghost lm = self.log.entry_map();
        let ghost es = entries_view(entries@);
        let n = entries.len();
        let mut i: usize = 0;
        assert(es.subrange(0, n as int) =~= es);
        while i < n
            invariant
                n == es.len(),
                es == entries_view(entries@),
                lm == self.log.entry_map(),
                i <= n,
                first_conflict(lm, es) == first_conflict(lm, es.subrange(i as int, n as int)),
            decreases n - i,
        {
            let e = &entries[i];
            let ghost rest = es.subrange(i as int, n as int);
            assert(rest[0] == e@);
            assert(rest.drop_first() =~= es.subrange(i + 1, n as int));
            match self.log.term_at(e.index) {
                Some(t) => {
                    if t != e.term {
                        return Some(e.index);
                    }
                },
                None => {},
            }
            i = i + 1;
        }
        assert(es.subrange(n as int, n as int).len() == 0);
        None
    }

    /// Handle AppendEntries RPC: a request from an older term is refused; a
    /// newer term makes this node a follower in it; the sender becomes the
    /// known leader and the election timer restarts; a request whose previous
    /// entry this log does not hold is refused; otherwise the log drops what
    /// conflicts with the request, stores its entries, follows the leader's
    /// commit index up to the last entry the request brings (or its previous
    /// entry, when it brings none), and applies what is committed.
    pub fn handle_append_entries(&mut self, from: &str, req: AppendEntriesRequest) -> (r: NodeOutput)
        requires
            old(self).wf(),
        ensures
            final(self).wf(),
            append_entries_done(*old(self), *final(self), from@, req, r),
    {
        let ghost lm = self.log.entry_map();
        let ghost p0 = self.log.pending();
        let current_term = self.log.current_term();
        if req.term < current_term {
            let m = self.append_reply(from, current_term, false);
            return NodeOutput { messages: vec![m], reset_election_timer: false, committed: Vec::new() };
        }
        if req.term > current_term {
            self.log.set_current_term(req.term);
            self.role = NodeRole::Follower;
        }
        let ghost p1 = self.log.pending();
        assert(p1 =~= p0 + (if req.term > current_term {
            seq![DiskWriteView::SaveState(PersistentStateView { current_term: req.term, voted_for: None })]
        } else {
            Seq::<DiskWriteView>::empty()
        }));
        self.leader_id = Some(req.leader_id.clone());
        if req.prev_log_index > 0 && !self.log.has_entry(req.prev_log_index, req.prev_log_term) {
            let term_now = self.log.current_term();
            let m = self.append_reply(from, term_now, false);
            return NodeOutput { messages: vec![m], reset_election_timer: true, committed: Vec::new() };
        }
        let leader_commit = req.leader_commit;
        let entries = req.entries;
        let ghost es = entries_view(entries@);
        let last_new_entry: u64 = if entries.len() > 0 {
            entries[entries.len() - 1].index
        } else {
            req.prev_log_index
        };
        if entries.len() > 0 {
            let conflict = self.find_conflict(&entries);
            match conflict {
                Some(c) => {
                    proof {
                        lemma_conflict_is_held(lm, es);
                    }
                    self.log.truncate_from(c);
                },
                None => {},
            }
            let ghost p2 = self.log.pending();
            self.log.append_entries(entries);
            proof {
                let p_trunc = match conflict {
                    Some(c) => seq![DiskWriteView::Rewrite(lines_before(entries_below(lm, c), c as int))],
                    None => Seq::<DiskWriteView>::empty(),
                };
                assert(p2 =~= p1 + p_trunc);
            }
        } else {
            assert(first_conflict(lm, es) is None);
            assert(with_entries(lm, es) == lm);
            assert(max_index(self.log.last(), es) == self.log.last());
            assert(self.log.pending() =~= p1 + Seq::<DiskWriteView>::empty() + Seq::<DiskWriteView>::empty());
        }
        if leader_commit > self.commit_index {
            self.commit_index = if leader_commit < last_new_entry { leader_commit } else { last_new_entry };
        }
        self.apply_committed_entries();
        let term_now = self.log.current_term();
        let m = self.append_reply(from, term_now, true);
        NodeOutput { messages: vec![m], reset_election_timer: true, committed: Vec::new() }
    }

    /// Notify pending client requests: the proposals with an index up to
    /// `up_to_index` leave the pending set and are returned.
    fn notify_pending_requests(&mut self, up_to_index: u64) -> (r: Vec<u64>)
        requires
            old(self).wf(),
        ensures
            final(self).wf(),
            r@ == old(self).pending().filter(at_most(up_to_index)),
            final(self).pending() == old(self).pending().filter(beyond(up_to_index)),
            final(self).same_but_pending(old(self)),
    {
        let ghost p0 = self.pending_requests@;
        let mut done: Vec<u64> = Vec::new();
        let mut rest: Vec<u64> = Vec::new();
        let mut i: usize = 0;
        while i < self.pending_requests.len()
            invariant
                p0 == self.pending_requests@,
                i <= p0.len(),
                done@ == p0.take(i as int).filter(at_most(up_to_index)),
                rest@ == p0.take(i as int).filter(beyond(up_to_index)),
            decreases p0.len() - i,
        {
            let idx = self.pending_requests[i];
            proof {
                assert(p0.take(i + 1) =~= p0.take(i as int).push(idx));
                p0.take(i as int).lemma_filter_push(idx, at_most(up_to_index));
                p0.take(i as int).lemma_filter_push(idx, beyond(up_to_index));
            }
            if idx <= up_to_index {
                done.push(idx);
            } else {
                rest.push(idx);
            }
            i = i + 1;
        }
        assert(p0.take(i as int) =~= p0);
        self.pending_requests = rest;
        done
    }

    /// Whether only the pending proposals may differ.
    pub open spec fn same_but_pending(&self, other: &Self) -> bool {
        &&& self.id() == other.id()
        &&& self.configuration() == other.configuration()
        &&& self.role_spec() == other.role_spec()
        &&& self.log_spec() == other.log_spec()
        &&& self.machine() == other.machine()
        &&& self.commit() == other.commit()
        &&& self.applied() == other.applied()
        &&& self.leader() == other.leader()
        &&& self.peer_entries() == other.peer_entries()
        &&& self.next_map() == other.next_map()
        &&& self.match_entries() == other.match_entries()
        &&& self.votes() == other.votes()
    }

    /// How many match indices reach `n`, this node counted too.
    fn replicated_count(&self, n: u64) -> (r: u128)
        ensures
            r == 1 + count_at_least(self.match_entries(), n),
    {
        let ghost s = self.match_entries();
        let len = self.match_index.len();
        let mut count: u128 = 1;
        let mut i: usize = 0;
        while i < len
            invariant
                len == s.len(),
                s == self.match_entries(),
                i <= len,
                count == 1 + count_at_least(s.take(i as int), n),
                count <= 1 + i,
            decreases len - i,
        {
            let (_, idx) = self.match_index.entry_at(i);
            assert(s.take(i + 1).drop_last() =~= s.take(i as int));
            if *idx >= n {
                count = count + 1;
            }
            i = i + 1;
        }
        assert(s.take(len as int) =~= s);
        count
    }

    /// Try to advance commit index (leader only): the greatest index above
    /// the commit index that `commit_ready` allows becomes the commit index;
    /// the entries up to it are applied and the proposals up to it returned.
    fn try_advance_commit_index(&mut self) -> (r: Vec<u64>)
        requires
            old(self).wf(),
        ensures
            final(self).wf(),
            old(self).role_spec() != NodeRole::Leader ==> *final(self) == *old(self) && r@.len() == 0,
            old(self).role_spec() == NodeRole::Leader ==> {
                &&& final(self).commit_step(old(self), r@)
                &&& final(self).match_entries() == old(self).match_entries()
                &&& final(self).next_map() == old(self).next_map()
            },
    {
        if self.role != NodeRole::Leader {
            return Vec::new();
        }
        match self.commit_candidate() {
            Some(n) => {
                self.commit_index = n;
                self.apply_committed_entries();
                self.notify_pending_requests(n)
            },
            None => Vec::new(),
        }
    }

    /// The greatest index above the commit index that `commit_ready` allows, if any.
    fn commit_candidate(&self) -> (r: Option<u64>)
        requires
            self.wf(),
        ensures
            ({
                let lm = self.log_spec().entry_map();
                let (t, ms, np) = (self.term(), self.match_entries(), self.peer_entries().len());
                match r {
                    Some(c) => {
                        &&& self.commit() < c <= self.log_spec().last()
                        &&& commit_ready(lm, t, ms, np, c)
                        &&& forall|k: u64| c < k <= self.log_spec().last() ==> !#[trigger] commit_ready(lm, t, ms, np, k)
                    },
                    None => forall|k: u64|
                        self.commit() < k <= self.log_spec().last() ==> !#[trigger] commit_ready(lm, t, ms, np, k),
                }
            }),
    {
        let ghost lm = self.log.entry_map();
        let ghost t = self.term();
        let ghost ms = self.match_entries();
        let ghost np = self.peer_entries().len();
        let current_term = self.log.current_term();
        let last_log_index = self.log.last_index();
        let current_commit = self.commit_index;
        let total: u128 = self.peers.len() as u128 + 1;
        let needed: u128 = total / 2 + 1;
        let mut n: u64 = last_log_index;
        while n > current_commit
            invariant
                self.wf(),
                current_term == t,
                t == self.term(),
                ms == self.match_entries(),
                np == self.peer_entries().len(),
                last_log_index == self.log_spec().last(),
                current_commit == self.commit(),
                needed == majority(np),
                lm == self.log_spec().entry_map(),
                n <= last_log_index,
                forall|k: u64| n < k <= last_log_index ==> !#[trigger] commit_ready(lm, t, ms, np, k),
            decreases n,
        {
            match self.log.term_at(n) {
                Some(term_n) => {
                    if term_n == current_term {
                        let count = self.replicated_count(n);
                        if count >= needed {
                            assert(commit_ready(lm, t, ms, np, n));
                            return Some(n);
                        }
                    }
                },
                None => {},
            }
            assert(!commit_ready(lm, t, ms, np, n));
            n = n - 1;
        }
        None
    }

    /// Whether this node is `old` after the commit step of a leader: with
    /// the match indices this node holds, the greatest index above the old
    /// commit index that `commit_ready` allows, if any, is the commit index,
    /// the entries up to it are applied and the proposals up to it are
    /// `committed`; nothing else changed.
    pub open spec fn commit_step(&self, old: &Self, committed: Seq<u64>) -> bool {
        let lm = old.log_spec().entry_map();
        let (t, ms, np) = (old.term(), self.match_entries(), old.peer_entries().len());
        &&& self.id() == old.id()
        &&& self.configuration() == old.configuration()
        &&& self.role_spec() == old.role_spec()
        &&& self.log_spec() == old.log_spec()
        &&& self.leader() == old.leader()
        &&& self.peer_entries() == old.peer_entries()
        &&& self.votes() == old.votes()
        &&& if exists|n: u64| old.commit() < n <= old.log_spec().last() && #[trigger] commit_ready(lm, t, ms, np, n) {
            let c = self.commit();
            let (d, a) = apply_range(old.machine().data(), old.machine().applied(), lm, old.applied() + 1, c as int);
            &&& old.commit() < c <= old.log_spec().last()
            &&& commit_ready(lm, t, ms, np, c)
            &&& forall|n: u64| c < n <= old.log_spec().last() ==> !#[trigger] commit_ready(lm, t, ms, np, n)
            &&& self.machine().data() == d
            &&& self.machine().applied() == a
            &&& self.applied() == (if old.applied() < c { c } else { old.applied() })
            &&& committed == old.pending().filter(at_most(c))
            &&& self.pending() == old.pending().filter(beyond(c))
        } else {
            &&& self.commit() == old.commit()
            &&& self.machine() == old.machine()
            &&& self.applied() == old.applied()
            &&& self.pending() == old.pending()
            &&& committed.len() == 0
        }
    }

    /// Handle AppendEntries response (leader only): a newer term makes this
    /// node a follower; a success records how far the follower matches and
    /// may advance the commit index; a failure moves the follower's next
    /// index one back, never below 1.
    pub fn handle_append_entries_response(&mut self, from: &str, resp: AppendEntriesResponse) -> (r: NodeOutput)
        requires
            old(self).wf(),
            old(self).role_spec() == NodeRole::Leader && resp.term <= old(self).term() && resp.success
                ==> resp.last_log_index < u64::MAX,
        ensures
            final(self).wf(),
            append_response_done(*old(self), *final(self), from@, resp, r),
    {
        if self.role != NodeRole::Leader {
            return NodeOutput { messages: Vec::new(), reset_election_timer: false, committed: Vec::new() };
        }
        if resp.term > self.log.current_term() {
            self.log.set_current_term(resp.term);
            self.role = NodeRole::Follower;
            return NodeOutput { messages: Vec::new(), reset_election_timer: false, committed: Vec::new() };
        }
        if resp.success {
            let new_match = resp.last_log_index;
            let mut match_index = StrMap::new();
            std::mem::swap(&mut match_index, &mut self.match_index);
            match_index.insert(from.to_owned(), new_match);
            self.match_index = match_index;
            let mut next_index = StrMap::new();
            std::mem::swap(&mut next_index, &mut self.next_index);
            next_index.insert(from.to_owned(), new_match + 1);
            self.next_index = next_index;
            let committed = self.try_advance_commit_index();
            NodeOutput { messages: Vec::new(), reset_election_timer: false, committed }
        } else {
            let current = match self.next_index.get(from) {
                Some(v) => Some(*v),
                None => None,
            };
            match current {
                Some(v) => {
                    let lowered = if v <= 2 { 1 } else { v - 1 };
                    let mut next_index = StrMap::new();
                    std::mem::swap(&mut next_index, &mut self.next_index);
                    next_index.insert(from.to_owned(), lowered);
                    self.next_index = next_index;
                },
                None => {},
            }
            NodeOutput { messages: Vec::new(), reset_election_timer: false, committed: Vec::new() }
        }
    }

    /// Whether only the next indices may differ.
    pub open spec fn same_but_next(&self, other: &Self) -> bool {
        &&& self.id() == other.id()
        &&& self.configuration() == other.configuration()
        &&& self.role_spec() == other.role_spec()
        &&& self.log_spec() == other.log_spec()
        &&& self.machine() == other.machine()
        &&& self.commit() == other.commit()
        &&& self.applied() == other.applied()
        &&& self.leader() == other.leader()
        &&& self.peer_entries() == other.peer_entries()
        &&& self.match_entries() == other.match_entries()
        &&& self.votes() == other.votes()
        &&& self.pending() == other.pending()
    }

    /// Handle an incoming message: each RAFT message goes to its handler,
    /// with the envelope's sender; client messages are not handled here.
    pub fn handle_message(&mut self, envelope: MessageEnvelope) -> (r: NodeOutput)
        requires
            old(self).wf(),
            message_acceptable(*old(self), envelope),
        ensures
            final(self).wf(),
            match envelope.message {
                RaftMessage::AppendEntries(req) => append_entries_done(*old(self), *final(self), envelope.from@, req, r),
                RaftMessage::AppendEntriesResponse(resp) => append_response_done(
                    *old(self),
                    *final(self),
                    envelope.from@,
                    resp,
                    r,
                ),
                RaftMessage::RequestVote(req) => request_vote_done(*old(self), *final(self), envelope.from@, req, r),
                RaftMessage::RequestVoteResponse(resp) => vote_response_done(
                    *old(self),
                    *final(self),
                    envelope.from@,
                    resp,
                    r,
                ),
                _ => *final(self) == *old(self) && r.messages@.len() == 0 && !r.reset_election_timer
                    && r.committed@.len() == 0,
            },
    {
        let from = envelope.from;
        match envelope.message {
            RaftMessage::AppendEntries(req) => self.handle_append_entries(from.as_str(), req),
            RaftMessage::AppendEntriesResponse(resp) => self.handle_append_entries_response(from.as_str(), resp),
            RaftMessage::RequestVote(req) => self.handle_request_vote(from.as_str(), req),
            RaftMessage::RequestVoteResponse(resp) => self.handle_request_vote_response(from.as_str(), resp),
            RaftMessage::ClientRequest(_) | RaftMessage::ClientResponse(_) => {
                NodeOutput { messages: Vec::new(), reset_election_timer: false, committed: Vec::new() }
            },
        }
    }

    /// Whether `index` waits for its commit.
    fn is_pending(&self, index: u64) -> (r: bool)
        ensures
            r == self.pending().contains(index),
    {
        let mut i: usize = 0;
        while i < self.pending_requests.len()
            invariant
                i <= self.pending_requests@.len(),
                forall|j: int| 0 <= j < i ==> self.pending_requests@[j] != index,
            decreases self.pending_requests@.len() - i,
        {
            if self.pending_requests[i] == index {
                assert(self.pending()[i as int] == index);
                return true;
            }
            i = i + 1;
        }
        false
    }

    /// Propose a new command: only the leader takes one; it appends the
    /// command to its log in its term, waits for its commit, and replicates
    /// it to the followers at once. A leader without peers is a majority on
    /// its own: it commits the entry, applies it and answers at once.
    pub fn propose(&mut self, command: Command) -> (r: Result<(u64, NodeOutput), ProposeResult>)
        requires
            old(self).wf(),
            old(self).role_spec() == NodeRole::Leader ==> old(self).log_spec().last() < u64::MAX,
        ensures
            final(self).wf(),
            old(self).role_spec() != NodeRole::Leader ==> {
                &&& *final(self) == *old(self)
                &&& r matches Err(ProposeResult::NotLeader { leader_id }) && opt_text(leader_id) == old(self).leader()
            },
            old(self).role_spec() == NodeRole::Leader ==> {
                let index = (old(self).log_spec().last() + 1) as u64;
                let ev = LogEntryView { index, term: old(self).term(), command: command@ };
                let lm = old(self).log_spec().entry_map().insert(index, ev);
                let waiting = if old(self).pending().contains(index) {
                    old(self).pending()
                } else {
                    old(self).pending().push(index)
                };
                let commits = old(self).peer_entries().len() == 0 && old(self).commit() < index;
                let (d, a) = apply_range(
                    old(self).machine().data(),
                    old(self).machine().applied(),
                    lm,
                    old(self).applied() + 1,
                    index as int,
                );
                &&& r matches Ok((i, out)) && i == index && final(self).are_heartbeats(out.messages@)
                    && !out.reset_election_timer
                &&& commits ==> {
                    &&& r matches Ok((_, out)) && out.committed@ == waiting.filter(at_most(index))
                    &&& final(self).pending() == waiting.filter(beyond(index))
                    &&& final(self).commit() == index
                    &&& final(self).machine().data() == d
                    &&& final(self).machine().applied() == a
                    &&& final(self).applied() == (if old(self).applied() < index { index } else { old(self).applied() })
                }
                &&& !commits ==> {
                    &&& r matches Ok((_, out)) && out.committed@.len() == 0
                    &&& final(self).pending() == waiting
                    &&& final(self).machine() == old(self).machine()
                    &&& final(self).commit() == old(self).commit()
                    &&& final(self).applied() == old(self).applied()
                }
                &&& final(self).log_spec().entry_map() == lm
                &&& final(self).log_spec().last() == index
                &&& final(self).log_spec().state() == old(self).log_spec().state()
                &&& final(self).log_spec().pending() == old(self).log_spec().pending().push(
                    DiskWriteView::Append(seq![disk_of(ev)]),
                )
                &&& final(self).id() == old(self).id()
                &&& final(self).configuration() == old(self).configuration()
                &&& final(self).role_spec() == old(self).role_spec()
                &&& final(self).leader() == old(self).leader()
                &&& final(self).peer_entries() == old(self).peer_entries()
                &&& final(self).next_map() == old(self).next_map()
                &&& final(self).match_entries() == old(self).match_entries()
                &&& final(self).votes() == old(self).votes()
                &&& forall|img: DiskImage| #[trigger] in_step(img, old(self).log_spec()) && storable(ev) ==> in_step(
                    img,
                    final(self).log_spec(),
                )
                &&& sound_entries(old(self).log_spec().entry_map()) && storable(ev) ==> sound_entries(
                    final(self).log_spec().entry_map(),
                )
            },
    {
        if self.role != NodeRole::Leader {
            let leader_id = copy_opt_string(&self.leader_id);
            return Err(ProposeResult::NotLeader { leader_id });
        }
        let term = self.log.current_term();
        let index = self.log.append(term, command);
        if !self.is_pending(index) {
            self.pending_requests.push(index);
        }
        let messages = self.send_heartbeats();
        if self.peers.len() == 0 && self.commit_index < index {
            self.commit_index = index;
            self.apply_committed_entries();
            let committed = self.notify_pending_requests(index);
            return Ok((index, NodeOutput { messages, reset_election_timer: false, committed }));
        }
        Ok((index, NodeOutput { messages, reset_election_timer: false, committed: Vec::new() }))
    }

    /// The peers, by identifier.
    pub open spec fn peer_map(&self) -> Map<Seq<char>, PeerInfo> {
        pairs_map(self.peer_entries())
    }

    /// Add a peer to the cluster; a leader starts to replicate to it from
    /// the index after its last entry.
    pub fn add_peer(&mut self, id: String, address: String)
        requires
            old(self).wf(),
            old(self).role_spec() == NodeRole::Leader ==> old(self).log_spec().last() < u64::MAX,
        ensures
            final(self).wf(),
            final(self).peer_map().dom() == old(self).peer_map().dom().insert(id@),
            forall|k: Seq<char>| k != id@ && #[trigger] old(self).peer_map().contains_key(k) ==> final(self).peer_map()[k] == old(self).peer_map()[k],
            final(self).peer_map()[id@].id@ == fit_text(id@, crate::MAX_ID_SIZE as nat),
            final(self).peer_map()[id@].address@ == fit_text(address@, crate::MAX_ID_SIZE as nat),
            old(self).role_spec() == NodeRole::Leader ==> {
                &&& final(self).next_map() == old(self).next_map().insert(id@, (old(self).log_spec().last() + 1) as u64)
                &&& final(self).match_map() == old(self).match_map().insert(id@, 0)
            },
            old(self).role_spec() != NodeRole::Leader ==> {
                &&& final(self).next_map() == old(self).next_map()
                &&& final(self).match_entries() == old(self).match_entries()
            },
            final(self).id() == old(self).id(),
            final(self).configuration() == old(self).configuration(),
            final(self).role_spec() == old(self).role_spec(),
            final(self).log_spec() == old(self).log_spec(),
            final(self).machine() == old(self).machine(),
            final(self).commit() == old(self).commit(),
            final(self).applied() == old(self).applied(),
            final(self).leader() == old(self).leader(),
            final(self).votes() == old(self).votes(),
            final(self).pending() == old(self).pending(),
    {
        let info = PeerInfo::new(id.as_str(), address.as_str());
        let mut peers = StrMap::new();
        std::mem::swap(&mut peers, &mut self.peers);
        peers.insert(id.clone(), info);
        self.peers = peers;
        if self.role == NodeRole::Leader {
            let last_index = self.log.last_index();
            let mut next_index = StrMap::new();
            std::mem::swap(&mut next_index, &mut self.next_index);
            next_index.insert(id.clone(), last_index + 1);
            self.next_index = next_index;
            let mut match_index = StrMap::new();
            std::mem::swap(&mut match_index, &mut self.match_index);
            match_index.insert(id, 0);
            self.match_index = match_index;
        }
    }

    /// Remove a peer from the cluster, with what the leader knows of it
    pub fn remove_peer(&mut self, id: &str)
        requires
            old(self).wf(),
        ensures
            final(self).wf(),
            final(self).peer_map() == old(self).peer_map().remove(id@),
            final(self).next_map() == old(self).next_map().remove(id@),
            final(self).match_map() == old(self).match_map().remove(id@),
            final(self).id() == old(self).id(),
            final(self).configuration() == old(self).configuration(),
            final(self).role_spec() == old(self).role_spec(),
            final(self).log_spec() == old(self).log_spec(),
            final(self).machine() == old(self).machine(),
            final(self).commit() == old(self).commit(),
            final(self).applied() == old(self).applied(),
            final(self).leader() == old(self).leader(),
            final(self).votes() == old(self).votes(),
            final(self).pending() == old(self).pending(),
    {
        let mut peers = StrMap::new();
        std::mem::swap(&mut peers, &mut self.peers);
        peers.remove(id);
        self.peers = peers;
        let mut next_index = StrMap::new();
        std::mem::swap(&mut next_index, &mut self.next_index);
        next_index.remove(id);
        self.next_index = next_index;
        let mut match_index = StrMap::new();
        std::mem::swap(&mut match_index, &mut self.match_index);
        match_index.remove(id);
        self.match_index = match_index;
    }

    /// Get current node status
    pub fn get_status(&self) -> (r: NodeStatus)
        requires
            self.wf(),
        ensures
            r.node_id@ == self.id(),
            r.role == self.role_spec(),
            r.current_term == self.term(),
            r.commit_index == self.commit(),
            r.last_applied == self.applied(),
            opt_text(r.leader_id) == self.leader(),
            r.peers@.map_values(|s: String| s@) == self.peer_ids(),
    {
        let mut peers: Vec<String> = Vec::new();
        let n = self.peers.len();
        let mut i: usize = 0;
        while i < n
            invariant
                n == self.peer_entries().len(),
                i <= n,
                peers@.map_values(|s: String| s@) == self.peer_ids().take(i as int),
            decreases n - i,
        {
            let (k, _) = self.peers.entry_at(i);
            let ghost before = peers@.map_values(|s: String| s@);
            peers.push(k.clone());
            assert(self.peer_ids()[i as int] == k@);
            assert(peers@.map_values(|s: String| s@) =~= before.push(k@));
            assert(self.peer_ids().take(i + 1) =~= self.peer_ids().take(i as int).push(k@));
            i = i + 1;
        }
        assert(self.peer_ids().take(n as int) =~= self.peer_ids());
        NodeStatus {
            node_id: self.node_id.clone(),
            role: self.role,
            current_term: self.log.current_term(),
            commit_index: self.commit_index,
            last_applied: self.last_applied,
            leader_id: copy_opt_string(&self.leader_id),
            peers,
        }
    }

    /// Get heartbeat interval, in milliseconds
    pub fn heartbeat_interval(&self) -> (r: u64)
        ensures
            r == self.configuration().timing.heartbeat_interval_ms,
    {
        self.config.timing.heartbeat_interval_ms
    }

    /// Get election timeout duration, in milliseconds: a random value
    /// between the configured least and greatest timeouts
    pub fn election_timeout(&self) -> (r: u64)
        requires
            self.configuration().timing.election_timeout_min_ms <= self.configuration().timing.election_timeout_max_ms,
        ensures
            self.configuration().timing.election_timeout_min_ms <= r <= self.configuration().timing.election_timeout_max_ms,
    {
        random_in_range(self.config.timing.election_timeout_min_ms, self.config.timing.election_timeout_max_ms)
    }

    /// Get recent messages from the state machine, newest first, at most `limit`
    pub fn get_messages(&self, limit: u64, _since_index: u64) -> (r: Vec<Vec<u8>>)
        ensures
            exists|sorted: Seq<(u128, Seq<u8>)>| #![trigger crate::state_machine::newest_first(sorted)] {
                let all = crate::state_machine::messages_of(self.machine().stored());
                let n = if all.len() < limit { all.len() } else { limit as nat };
                &&& sorted.to_multiset() == all.to_multiset()
                &&& crate::state_machine::newest_first(sorted)
                &&& r@.map_values(|v: Vec<u8>| v@) == sorted.take(n as int).map_values(|p: (u128, Seq<u8>)| p.1)
            },
            crate::state_machine::lists_data(self.machine().stored(), self.machine().data()),
    {
        self.state_machine.get_messages(limit)
    }

    /// Get a value from the state machine
    pub fn get_value(&self, key: &str) -> (r: Option<Vec<u8>>)
        ensures
            match r {
                Some(v) => self.machine().data().contains_key(key@) && self.machine().data()[key@] == v@,
                None => !self.machine().data().contains_key(key@),
            },
    {
        self.state_machine.get(key)
    }
}

/// What `handle_message` needs of the node and the message: a vote reply
/// may make the node leader, which sets next indices after the last entry;
/// a successful AppendEntries reply sets a next index after the reported one.
pub open spec fn message_acceptable(node: RaftNode, envelope: MessageEnvelope) -> bool {
    match envelope.message {
        RaftMessage::RequestVoteResponse(resp) => vote_wins(node, envelope.from@, resp) ==> node.log_spec().last()
            < u64::MAX,
        RaftMessage::AppendEntriesResponse(resp) => node.role_spec() == NodeRole::Leader && resp.term
            <= node.term() && resp.success ==> resp.last_log_index < u64::MAX,
        _ => true,
    }
}

/// Whether a vote reply `resp` from `from` makes the candidate `node` leader:
/// a granted vote, not from a newer term, that brings the votes it holds,
/// its own among them, to a majority.
pub open spec fn vote_wins(node: RaftNode, from: Seq<char>, resp: RequestVoteResponse) -> bool {
    let votes = if node.votes().contains(from) { node.votes() } else { node.votes().push(from) };
    &&& node.role_spec() == NodeRole::Candidate
    &&& resp.term <= node.term()
    &&& resp.vote_granted
    &&& votes.len() >= majority(node.peer_entries().len())
}

/// A vote request from `from` was handled: the state went from `old` to `new` and `r` is what the handler returned.
pub open spec fn request_vote_done(old: RaftNode, new: RaftNode, from: Seq<char>, req: RequestVoteRequest, r: NodeOutput) -> bool {
    &&& new.same_but_vote(&old)
    &&& ({
        let up = log_up_to_date(
            req.last_log_term,
            req.last_log_index,
            last_log_term(old.log_spec()),
            old.log_spec().last(),
        );
        let (t, v, granted) = vote_step(old.term(), old.voted(), req.term, req.candidate_id@, up);
        &&& new.term() == t
        &&& new.voted() == v
        &&& new.role_spec() == (if req.term > old.term() {
            NodeRole::Follower
        } else {
            old.role_spec()
        })
        &&& r.messages@.len() == 1
        &&& is_vote_reply(r.messages@[0], old.id(), from, t, granted)
        &&& r.reset_election_timer == granted
        &&& r.committed@.len() == 0
        &&& new.log_spec().pending() =~= old.log_spec().pending()
            + (if req.term > old.term() {
            seq![DiskWriteView::SaveState(PersistentStateView { current_term: t, voted_for: None })]
        } else {
            Seq::empty()
        }) + (if granted {
            seq![DiskWriteView::SaveState(PersistentStateView { current_term: t, voted_for: v })]
        } else {
            Seq::empty()
        })
    })
}

/// A vote reply from `from` was handled: the state went from `old` to `new` and `r` is what the handler returned.
pub open spec fn vote_response_done(old: RaftNode, new: RaftNode, from: Seq<char>, resp: RequestVoteResponse, r: NodeOutput) -> bool {
    &&& r.committed@.len() == 0
    &&& !r.reset_election_timer
    &&& old.role_spec() != NodeRole::Candidate ==> new == old && r.messages@.len() == 0
    &&& old.role_spec() == NodeRole::Candidate && resp.term > old.term() ==> {
        &&& new.same_but_vote(&old)
        &&& new.term() == resp.term
        &&& new.voted() is None
        &&& new.role_spec() == NodeRole::Follower
        &&& new.log_spec().pending() =~= old.log_spec().pending().push(
            DiskWriteView::SaveState(PersistentStateView { current_term: resp.term, voted_for: None }),
        )
        &&& r.messages@.len() == 0
    }
    &&& old.role_spec() == NodeRole::Candidate && resp.term <= old.term() && !resp.vote_granted
        ==> new == old && r.messages@.len() == 0
    &&& old.role_spec() == NodeRole::Candidate && resp.term <= old.term() && resp.vote_granted
        ==> {
        let votes = if old.votes().contains(from) {
            old.votes()
        } else {
            old.votes().push(from)
        };
        &&& new.votes() =~= votes
        &&& new.log_spec() == old.log_spec()
        &&& if votes.len() >= majority(old.peer_entries().len()) {
            &&& new.became_leader_from(&old)
            &&& new.are_heartbeats(r.messages@)
        } else {
            &&& new.same_but_votes(&old)
            &&& r.messages@.len() == 0
        }
    }
}

/// An AppendEntries request from `from` was handled: the state went from `old` to `new` and `r` is what the handler returned.
pub open spec fn append_entries_done(old: RaftNode, new: RaftNode, from: Seq<char>, req: AppendEntriesRequest, r: NodeOutput) -> bool {
    &&& r.committed@.len() == 0
    &&& req.term < old.term() ==> {
        &&& new == old
        &&& r.messages@.len() == 1
        &&& is_append_reply(r.messages@[0], old.id(), from, old.term(), false, old.log_spec().last())
        &&& !r.reset_election_timer
    }
    &&& req.term >= old.term() ==> {
        let stepped = req.term > old.term();
        let lm = old.log_spec().entry_map();
        let es = entries_view(req.entries@);
        let consistent = req.prev_log_index == 0 || holds_entry(lm, req.prev_log_index, req.prev_log_term);
        let conflict = first_conflict(lm, es);
        let m1 = match conflict {
            Some(c) => entries_below(lm, c),
            None => lm,
        };
        let last1: u64 = match conflict {
            Some(c) => if c == 0 { 0 } else { (c - 1) as u64 },
            None => old.log_spec().last(),
        };
        let m2 = with_entries(m1, es);
        let last2 = max_index(last1, es);
        let p_step = if stepped {
            seq![DiskWriteView::SaveState(PersistentStateView { current_term: req.term, voted_for: None })]
        } else {
            Seq::empty()
        };
        let p_trunc = match conflict {
            Some(c) => seq![DiskWriteView::Rewrite(lines_before(m1, c as int))],
            None => Seq::empty(),
        };
        let p_app = if es.len() > 0 {
            seq![DiskWriteView::Append(es.map_values(|e: LogEntryView| disk_of(e)))]
        } else {
            Seq::empty()
        };
        let last_new = if es.len() > 0 { es.last().index } else { req.prev_log_index };
        let new_commit = if req.leader_commit > old.commit() {
            if req.leader_commit < last_new { req.leader_commit } else { last_new }
        } else {
            old.commit()
        };
        &&& new.term() == req.term
        &&& new.voted() == (if stepped { None } else { old.voted() })
        &&& new.role_spec() == (if stepped { NodeRole::Follower } else { old.role_spec() })
        &&& new.leader() == Some(req.leader_id@)
        &&& r.reset_election_timer
        &&& r.messages@.len() == 1
        &&& new.id() == old.id()
        &&& new.configuration() == old.configuration()
        &&& new.peer_entries() == old.peer_entries()
        &&& new.next_map() =~= old.next_map()
        &&& new.match_entries() == old.match_entries()
        &&& new.votes() =~= old.votes()
        &&& new.pending() =~= old.pending()
        &&& if !consistent {
            &&& new.log_spec().entry_map() =~= lm
            &&& new.log_spec().last() == old.log_spec().last()
            &&& new.log_spec().pending() =~= old.log_spec().pending() + p_step
            &&& new.machine() == old.machine()
            &&& new.commit() == old.commit()
            &&& new.applied() == old.applied()
            &&& is_append_reply(r.messages@[0], old.id(), from, req.term, false, old.log_spec().last())
        } else {
            let (d, a) = apply_range(
                old.machine().data(),
                old.machine().applied(),
                m2,
                old.applied() + 1,
                new_commit as int,
            );
            &&& new.log_spec().entry_map() =~= m2
            &&& new.log_spec().last() == last2
            &&& new.log_spec().pending() =~= old.log_spec().pending() + p_step + p_trunc + p_app
            &&& new.commit() == new_commit
            &&& new.machine().data() =~= d
            &&& new.machine().applied() == a
            &&& new.applied() == (if old.applied() < new_commit { new_commit } else { old.applied() })
            &&& is_append_reply(r.messages@[0], old.id(), from, req.term, true, last2)
        }
    }
}

/// An AppendEntries reply from `from` was handled: the state went from `old` to `new` and `r` is what the handler returned.
pub open spec fn append_response_done(old: RaftNode, new: RaftNode, from: Seq<char>, resp: AppendEntriesResponse, r: NodeOutput) -> bool {
    &&& r.messages@.len() == 0
    &&& !r.reset_election_timer
    &&& old.role_spec() != NodeRole::Leader ==> new == old && r.committed@.len() == 0
    &&& old.role_spec() == NodeRole::Leader && resp.term > old.term() ==> {
        &&& new.same_but_vote(&old)
        &&& new.term() == resp.term
        &&& new.voted() is None
        &&& new.role_spec() == NodeRole::Follower
        &&& new.log_spec().pending() =~= old.log_spec().pending().push(
            DiskWriteView::SaveState(PersistentStateView { current_term: resp.term, voted_for: None }),
        )
        &&& r.committed@.len() == 0
    }
    &&& old.role_spec() == NodeRole::Leader && resp.term <= old.term() && resp.success ==> {
        &&& new.match_map() =~= old.match_map().insert(from, resp.last_log_index)
        &&& new.next_map() =~= old.next_map().insert(from, (resp.last_log_index + 1) as u64)
        &&& new.commit_step(&old, r.committed@)
    }
    &&& old.role_spec() == NodeRole::Leader && resp.term <= old.term() && !resp.success ==> {
        &&& new.next_map() =~= (if old.next_map().contains_key(from) {
            let v = old.next_map()[from];
            old.next_map().insert(from, if v <= 2 { 1 } else { (v - 1) as u64 })
        } else {
            old.next_map()
        })
        &&& new.match_entries() == old.match_entries()
        &&& new.log_spec() == old.log_spec()
        &&& new.role_spec() == old.role_spec()
        &&& new.same_but_next(&old)
        &&& r.committed@.len() == 0
    }
}

/// A message from the envelope `envelope` was handled: the state went from
/// `old` to `new` and `r` is what `handle_message` returned.
pub open spec fn message_done(old: RaftNode, new: RaftNode, envelope: MessageEnvelope, r: NodeOutput) -> bool {
    match envelope.message {
        RaftMessage::AppendEntries(req) => append_entries_done(old, new, envelope.from@, req, r),
        RaftMessage::AppendEntriesResponse(resp) => append_response_done(old, new, envelope.from@, resp, r),
        RaftMessage::RequestVote(req) => request_vote_done(old, new, envelope.from@, req, r),
        RaftMessage::RequestVoteResponse(resp) => vote_response_done(old, new, envelope.from@, resp, r),
        _ => new == old && r.messages@.len() == 0 && !r.reset_election_timer && r.committed@.len() == 0,
    }
}

/// The current term never decreases: no message makes a node go back to
/// an earlier term.
pub proof fn law_term_never_decreases(old: RaftNode, new: RaftNode, envelope: MessageEnvelope, r: NodeOutput)
    requires
        message_done(old, new, envelope, r),
    ensures
        new.term() >= old.term(),
{
}

/// A node votes for at most one candidate in a term: once it has voted,
/// no message in the same term changes its vote, and a vote it grants
/// goes only to the candidate it already voted for.
pub proof fn law_one_vote_per_term(
    old: RaftNode,
    new: RaftNode,
    envelope: MessageEnvelope,
    r: NodeOutput,
    c: Seq<char>,
)
    requires
        message_done(old, new, envelope, r),
        old.wf(),
        old.voted() == Some(c),
        new.term() == old.term(),
    ensures
        new.voted() == Some(c),
        (envelope.message matches RaftMessage::RequestVote(req) && is_vote_reply(
            r.messages@[0],
            old.id(),
            envelope.from@,
            new.term(),
            true,
        )) ==> envelope.message->RequestVote_0.candidate_id@ == c,
{
    match envelope.message {
        RaftMessage::RequestVote(req) => {
            assert(fit_text(c, crate::MAX_ID_SIZE as nat) == c);
        },
        _ => {},
    }
}

/// A node grants its vote only to a candidate whose log is at least as up
/// to date as its own, and only in a term not below its own.
pub proof fn law_vote_needs_up_to_date_log(
    old: RaftNode,
    new: RaftNode,
    from: Seq<char>,
    req: RequestVoteRequest,
    r: NodeOutput,
)
    requires
        request_vote_done(old, new, from, req, r),
        r.messages@[0].message matches RaftMessage::RequestVoteResponse(v) && v.vote_granted,
    ensures
        req.term >= old.term(),
        log_up_to_date(req.last_log_term, req.last_log_index, last_log_term(old.log_spec()), old.log_spec().last()),
{
}

/// The entries `es` stored in order, each at its index, leave each entry at
/// its index when no two of them share one.
pub proof fn lemma_with_entries_holds(m: Map<u64, LogEntryView>, es: Seq<LogEntryView>)
    requires
        forall|i: int, j: int| 0 <= i < j < es.len() ==> (#[trigger] es[i]).index != (#[trigger] es[j]).index,
    ensures
        forall|i: int| 0 <= i < es.len() ==> with_entries(m, es).contains_key((#[trigger] es[i]).index)
            && with_entries(m, es)[es[i].index] == es[i],
    decreases es.len(),
{
    if es.len() > 0 {
        let init = es.drop_last();
        assert forall|i: int, j: int| 0 <= i < j < init.len() implies (#[trigger] init[i]).index != (#[trigger] init[j]).index by {
            assert(init[i] == es[i] && init[j] == es[j]);
        }
        lemma_with_entries_holds(m, init);
        assert forall|i: int| 0 <= i < es.len() implies with_entries(m, es).contains_key((#[trigger] es[i]).index)
            && with_entries(m, es)[es[i].index] == es[i] by {
            if i < es.len() - 1 {
                assert(init[i] == es[i]);
                assert(es[i].index != es[es.len() - 1].index);
            }
        }
    }
}

/// A follower that acknowledges an AppendEntries request holds the entry
/// just before the new ones and every new entry, each at its index with
/// its term, when no two new entries share an index.
pub proof fn law_acknowledged_entries_are_held(
    old: RaftNode,
    new: RaftNode,
    from: Seq<char>,
    req: AppendEntriesRequest,
    r: NodeOutput,
)
    requires
        append_entries_done(old, new, from, req, r),
        r.messages@[0].message matches RaftMessage::AppendEntriesResponse(a) && a.success,
        forall|i: int, j: int|
            0 <= i < j < req.entries@.len() ==> (#[trigger] req.entries@[i]).index != (#[trigger] req.entries@[j]).index,
    ensures
        forall|i: int|
            0 <= i < req.entries@.len() ==> new.log_spec().entry_map().contains_key((#[trigger] req.entries@[i]).index)
                && new.log_spec().entry_map()[req.entries@[i].index] == req.entries@[i]@,
        req.prev_log_index == 0 || holds_entry(old.log_spec().entry_map(), req.prev_log_index, req.prev_log_term),
{
    let es = entries_view(req.entries@);
    assert forall|i: int, j: int| 0 <= i < j < es.len() implies (#[trigger] es[i]).index != (#[trigger] es[j]).index by {
        assert(es[i] == req.entries@[i]@);
        assert(es[j] == req.entries@[j]@);
    }
    let lm = old.log_spec().entry_map();
    let conflict = first_conflict(lm, es);
    let m1 = match conflict {
        Some(c) => entries_below(lm, c),
        None => lm,
    };
    lemma_with_entries_holds(m1, es);
    assert forall|i: int| 0 <= i < req.entries@.len() implies new.log_spec().entry_map().contains_key((#[trigger] req.entries@[i]).index)
        && new.log_spec().entry_map()[req.entries@[i].index] == req.entries@[i]@ by {
        assert(es[i] == req.entries@[i]@);
    }
}

/// A leader's commit step never lowers the commit index, and a new commit
/// index holds an entry of the leader's term that a majority holds.
pub proof fn law_leader_commits_own_term(old: RaftNode, new: RaftNode, committed: Seq<u64>)
    requires
        new.commit_step(&old, committed),
    ensures
        new.commit() >= old.commit(),
        new.commit() > old.commit() ==> commit_ready(
            old.log_spec().entry_map(),
            old.term(),
            new.match_entries(),
            old.peer_entries().len(),
            new.commit(),
        ),
{
}


/// Writes that only save the state leave the log file as it is, and leave
/// the last state saved.
proof fn lemma_states_only(d: DiskImage, extra: Seq<DiskWriteView>)
    requires
        forall|i: int| 0 <= i < extra.len() ==> #[trigger] extra[i] is SaveState,
    ensures
        apply_writes(d, extra).lines == d.lines,
        extra.len() == 0 ==> apply_writes(d, extra).state == d.state,
        extra.len() > 0 ==> apply_writes(d, extra).state == extra.last()->SaveState_0,
    decreases extra.len(),
{
    if extra.len() > 0 {
        let init = extra.drop_last();
        assert forall|i: int| 0 <= i < init.len() implies #[trigger] init[i] is SaveState by {
            assert(init[i] == extra[i]);
        }
        lemma_states_only(d, init);
        assert(extra[extra.len() - 1] == extra.last());
    }
}

/// A log whose entries stay and whose added writes only save the state,
/// the last of them its new state, stays in step with the disk.
proof fn lemma_state_writes_keep_step(img: DiskImage, old: RaftLog, new: RaftLog, extra: Seq<DiskWriteView>)
    requires
        in_step(img, old),
        new.pending() =~= old.pending() + extra,
        new.entry_map() == old.entry_map(),
        forall|i: int| 0 <= i < extra.len() ==> #[trigger] extra[i] is SaveState,
        extra.len() == 0 ==> new.state() == old.state(),
        extra.len() > 0 ==> extra.last() == DiskWriteView::SaveState(new.state()),
    ensures
        in_step(img, new),
{
    lemma_apply_concat(img, old.pending(), extra);
    assert(new.pending() == old.pending() + extra);
    lemma_states_only(apply_writes(img, old.pending()), extra);
}

/// The disk stays in step with a node that handles an AppendEntries request.
proof fn lemma_append_request_keeps_step(
    img: DiskImage,
    old: RaftNode,
    new: RaftNode,
    from: Seq<char>,
    req: AppendEntriesRequest,
    r: NodeOutput,
)
    requires
        old.wf(),
        append_entries_done(old, new, from, req, r),
        in_step(img, old.log_spec()),
        sound_entries(old.log_spec().entry_map()),
        forall|i: int| 0 <= i < req.entries@.len() ==> (#[trigger] req.entries@[i]).index > 0 && storable(req.entries@[i]@),
    ensures
        in_step(img, new.log_spec()),
        sound_entries(new.log_spec().entry_map()),
{
    if req.term >= old.term() {
        let stepped = req.term > old.term();
        let lm = old.log_spec().entry_map();
        let es = entries_view(req.entries@);
        let consistent = req.prev_log_index == 0 || holds_entry(lm, req.prev_log_index, req.prev_log_term);
        let conflict = first_conflict(lm, es);
        let m1 = match conflict {
            Some(c) => entries_below(lm, c),
            None => lm,
        };
        let m2 = with_entries(m1, es);
        let st1 = PersistentStateView { current_term: req.term, voted_for: None };
        let p_step = if stepped { seq![DiskWriteView::SaveState(st1)] } else { Seq::<DiskWriteView>::empty() };
        let p_trunc = match conflict {
            Some(c) => seq![DiskWriteView::Rewrite(lines_before(m1, c as int))],
            None => Seq::<DiskWriteView>::empty(),
        };
        let p_app = if es.len() > 0 {
            seq![DiskWriteView::Append(es.map_values(|e: LogEntryView| disk_of(e)))]
        } else {
            Seq::<DiskWriteView>::empty()
        };
        let p0 = old.log_spec().pending();
        let d0 = apply_writes(img, p0);
        lemma_apply_concat(img, p0, p_step);
        let d1 = apply_writes(d0, p_step);
        if stepped {
            lemma_apply_one(d0, DiskWriteView::SaveState(st1));
        }
        assert(d1.lines == d0.lines);
        assert(d1.state == new.log_spec().state());
        if !consistent {
            assert(new.log_spec().pending() == p0 + p_step);
        } else {
            assert forall|i: int| 0 <= i < es.len() implies (#[trigger] es[i]).index > 0 && storable(es[i]) by {
                assert(es[i] == req.entries@[i]@);
            }
            lemma_apply_concat(img, p0 + p_step, p_trunc);
            let d2 = apply_writes(d1, p_trunc);
            match conflict {
                Some(c) => {
                    lemma_apply_one(d1, DiskWriteView::Rewrite(lines_before(m1, c as int)));
                    law_rewrite_persists(lm, c);
                },
                None => {},
            }
            assert(crate::log::loaded_entries(d2.lines) == m1);
            assert(d2.state == d1.state);
            assert(sound_entries(m1));
            lemma_apply_concat(img, p0 + p_step + p_trunc, p_app);
            let d3 = apply_writes(d2, p_app);
            if es.len() > 0 {
                lemma_apply_one(d2, DiskWriteView::Append(es.map_values(|e: LogEntryView| disk_of(e))));
                law_append_persists(d2.lines, m1, es);
            } else {
                assert(m2 == m1);
            }
            lemma_with_entries_sound(m1, es);
            assert(crate::log::loaded_entries(d3.lines) == m2);
            assert(new.log_spec().pending() == p0 + p_step + p_trunc + p_app);
        }
    }
}

/// Handling a message keeps the node's disk in step with its log: when the
/// disk, once the writes pending before reach it, reads back the node's
/// entries and saved state, it does so too once the writes pending after
/// reach it, and the node's entries stay at indices above 0 and fit what a
/// command holds, when the entries a leader sends do.
pub proof fn law_handling_keeps_disk_in_step(
    img: DiskImage,
    old: RaftNode,
    new: RaftNode,
    envelope: MessageEnvelope,
    r: NodeOutput,
)
    requires
        old.wf(),
        message_done(old, new, envelope, r),
        in_step(img, old.log_spec()),
        sound_entries(old.log_spec().entry_map()),
        envelope.message matches RaftMessage::AppendEntries(req) ==> forall|i: int|
            0 <= i < req.entries@.len() ==> (#[trigger] req.entries@[i]).index > 0 && storable(req.entries@[i]@),
    ensures
        in_step(img, new.log_spec()),
        sound_entries(new.log_spec().entry_map()),
{
    match envelope.message {
        RaftMessage::AppendEntries(req) => {
            lemma_append_request_keeps_step(img, old, new, envelope.from@, req, r);
        },
        RaftMessage::RequestVote(req) => {
            let up = log_up_to_date(
                req.last_log_term,
                req.last_log_index,
                last_log_term(old.log_spec()),
                old.log_spec().last(),
            );
            let (t, v, granted) = vote_step(old.term(), old.voted(), req.term, req.candidate_id@, up);
            let a = if req.term > old.term() {
                seq![DiskWriteView::SaveState(PersistentStateView { current_term: t, voted_for: None })]
            } else {
                Seq::<DiskWriteView>::empty()
            };
            let b = if granted {
                seq![DiskWriteView::SaveState(PersistentStateView { current_term: t, voted_for: v })]
            } else {
                Seq::<DiskWriteView>::empty()
            };
            let extra = a + b;
            assert(new.log_spec().pending() =~= old.log_spec().pending() + extra);
            assert forall|i: int| 0 <= i < extra.len() implies #[trigger] extra[i] is SaveState by {
                if i < a.len() {
                    assert(extra[i] == a[i]);
                } else {
                    assert(extra[i] == b[i - a.len()]);
                }
            }
            if extra.len() > 0 {
                assert(extra.last() == extra[extra.len() - 1]);
            }
            lemma_state_writes_keep_step(img, old.log_spec(), new.log_spec(), extra);
        },
        RaftMessage::RequestVoteResponse(resp) => {
            if old.role_spec() == NodeRole::Candidate && resp.term > old.term() {
                let extra = seq![
                    DiskWriteView::SaveState(PersistentStateView { current_term: resp.term, voted_for: None }),
                ];
                lemma_state_writes_keep_step(img, old.log_spec(), new.log_spec(), extra);
            }
        },
        RaftMessage::AppendEntriesResponse(resp) => {
            if old.role_spec() == NodeRole::Leader && resp.term > old.term() {
                let extra = seq![
                    DiskWriteView::SaveState(PersistentStateView { current_term: resp.term, voted_for: None }),
                ];
                lemma_state_writes_keep_step(img, old.log_spec(), new.log_spec(), extra);
            }
        },
        _ => {},
    }
}


/// Majority vote wins: a candidate becomes leader on a vote reply only when
/// the votes it has recorded, its own among them, reach a majority of the
/// cluster.
pub proof fn law_leader_needs_majority(
    old: RaftNode,
    new: RaftNode,
    from: Seq<char>,
    resp: RequestVoteResponse,
    r: NodeOutput,
)
    requires
        vote_response_done(old, new, from, resp, r),
        old.role_spec() == NodeRole::Candidate,
        new.role_spec() == NodeRole::Leader,
    ensures
        new.votes().len() >= majority(old.peer_entries().len()),
{
}



/// The identifiers that a status lists are the keys of the peer map.
pub proof fn law_status_lists_peer_map(n: RaftNode, k: Seq<char>)
    ensures
        n.peer_ids().contains(k) <==> n.peer_map().contains_key(k),
{
    let es = n.peer_entries();
    if n.peer_ids().contains(k) {
        let j = choose|j: int| 0 <= j < n.peer_ids().len() && #[trigger] n.peer_ids()[j] == k;
        assert(es[j].0@ == k);
        assert(has_key(es, k));
    }
    if n.peer_map().contains_key(k) {
        assert(has_key(es, k));
        let j = choose|j: int| 0 <= j < es.len() && (#[trigger] es[j]).0@ == k;
        assert(n.peer_ids()[j] == k);
    }
}

/// A joined peer is listed, a removed one is not: after `add_peer` of `id`
/// took `before` to `joined`, and `remove_peer` of `gone` took `before` to
/// `left`, the status of `joined` lists `id` and that of `left` does not
/// list `gone`.
pub proof fn law_join_and_leave_show_in_status(
    before: RaftNode,
    joined: RaftNode,
    left: RaftNode,
    id: Seq<char>,
    gone: Seq<char>,
)
    requires
        joined.peer_map().dom() == before.peer_map().dom().insert(id),
        left.peer_map() == before.peer_map().remove(gone),
    ensures
        joined.peer_ids().contains(id),
        !left.peer_ids().contains(gone),
{
    law_status_lists_peer_map(joined, id);
    law_status_lists_peer_map(left, gone);
    assert(joined.peer_map().contains_key(id));
}


/// The term of the last entry of `log`, read from its entries: 0 when the
/// log holds no entry at its last index.
proof fn lemma_last_term_read(log: RaftLog)
    ensures
        last_log_term(log) == (if log.entry_map().contains_key(log.last()) {
            log.entry_map()[log.last()].term
        } else {
            0
        }),
{
}

/// A vote is refused to a candidate whose log is shorter than this node's
/// with the same last term: when the request's last log term is the term of
/// this node's last entry (0 when there is none) and its last log index is
/// below this node's last index, the one reply refuses the vote, no vote is
/// recorded for the candidate and the election timer keeps running.
pub proof fn law_vote_refused_to_shorter_log(
    old: RaftNode,
    new: RaftNode,
    from: Seq<char>,
    req: RequestVoteRequest,
    r: NodeOutput,
)
    requires
        request_vote_done(old, new, from, req, r),
        req.last_log_term == (if old.log_spec().entry_map().contains_key(old.log_spec().last()) {
            old.log_spec().entry_map()[old.log_spec().last()].term
        } else {
            0
        }),
        req.last_log_index < old.log_spec().last(),
    ensures
        r.messages@.len() == 1,
        r.messages@[0].message matches RaftMessage::RequestVoteResponse(v) && !v.vote_granted,
        new.voted() == (if req.term > old.term() { None } else { old.voted() }),
        !r.reset_election_timer,
{
    lemma_last_term_read(old.log_spec());
}

/// A vote is refused to a candidate whose last entry is of an older term
/// than this node's last entry.
pub proof fn law_vote_refused_to_older_log(
    old: RaftNode,
    new: RaftNode,
    from: Seq<char>,
    req: RequestVoteRequest,
    r: NodeOutput,
)
    requires
        request_vote_done(old, new, from, req, r),
        old.log_spec().entry_map().contains_key(old.log_spec().last()),
        req.last_log_term < old.log_spec().entry_map()[old.log_spec().last()].term,
    ensures
        r.messages@.len() == 1,
        r.messages@[0].message matches RaftMessage::RequestVoteResponse(v) && !v.vote_granted,
        new.voted() == (if req.term > old.term() { None } else { old.voted() }),
{
    lemma_last_term_read(old.log_spec());
}

/// A vote is granted to a candidate in a term not below this node's whose
/// last entry is of a newer term than this node's last entry (or whose log
/// is at least as long with the same last term), when this node cast no
/// other vote in that term: the reply grants it in the request's term, the
/// vote is recorded, and the election timer restarts.
pub proof fn law_vote_granted_to_up_to_date_log(
    old: RaftNode,
    new: RaftNode,
    from: Seq<char>,
    req: RequestVoteRequest,
    r: NodeOutput,
)
    requires
        request_vote_done(old, new, from, req, r),
        req.term >= old.term(),
        req.term > old.term() || old.voted() is None || old.voted() == Some(req.candidate_id@),
        ({
            let our = if old.log_spec().entry_map().contains_key(old.log_spec().last()) {
                old.log_spec().entry_map()[old.log_spec().last()].term
            } else {
                0
            };
            req.last_log_term > our || (req.last_log_term == our && req.last_log_index >= old.log_spec().last())
        }),
    ensures
        r.messages@.len() == 1,
        r.messages@[0].message matches RaftMessage::RequestVoteResponse(v) && v.vote_granted && v.term == req.term,
        new.voted() == Some(fit_text(req.candidate_id@, crate::MAX_ID_SIZE as nat)),
        new.term() == req.term,
        r.reset_election_timer,
{
    lemma_last_term_read(old.log_spec());
}

/// A leader commits an index only when a strict majority of the cluster
/// holds it, the leader counted once: when a commit step raises the commit
/// index to `c`, the leader and the followers whose match index reaches `c`
/// are more than half of the peers and the leader; the entry at `c` is of
/// the leader's term. When the commit index does not rise, no proposal is
/// reported committed.
pub proof fn law_commit_needs_strict_majority(old: RaftNode, new: RaftNode, committed: Seq<u64>)
    requires
        new.commit_step(&old, committed),
    ensures
        new.commit() > old.commit() ==> {
            &&& 2 * (1 + count_at_least(new.match_entries(), new.commit())) > old.peer_entries().len() + 1
            &&& old.log_spec().entry_map().contains_key(new.commit())
            &&& old.log_spec().entry_map()[new.commit()].term == old.term()
            &&& new.commit() <= old.log_spec().last()
        },
        new.commit() == old.commit() ==> committed.len() == 0,
{
    if new.commit() > old.commit() {
        let p = old.peer_entries().len();
        let cnt = count_at_least(new.match_entries(), new.commit());
        assert(1 + cnt >= (p + 1) / 2 + 1);
        assert(2 * (1 + cnt) > p + 1) by (nonlinear_arith)
            requires
                1 + cnt >= (p + 1) / 2 + 1,
        ;
    }
}

/// A leader's AppendEntries reply commits only what a strict majority
/// holds: after a leader handles a successful reply that is not from a
/// newer term, a raised commit index is held by more than half of the
/// cluster, the leader counted once, and an unchanged one reports no
/// proposal committed.
pub proof fn law_reply_commits_only_majority_entries(
    old: RaftNode,
    new: RaftNode,
    from: Seq<char>,
    resp: AppendEntriesResponse,
    r: NodeOutput,
)
    requires
        append_response_done(old, new, from, resp, r),
        old.role_spec() == NodeRole::Leader,
        resp.term <= old.term(),
        resp.success,
    ensures
        new.commit() > old.commit() ==> 2 * (1 + count_at_least(new.match_entries(), new.commit()))
            > old.peer_entries().len() + 1,
        new.commit() == old.commit() ==> r.committed@.len() == 0,
{
    law_commit_needs_strict_majority(old, new, r.committed@);
}

/// Each heartbeat carries, as the term of its previous entry, the term of
/// the leader's own entry at that index, or 0 when the leader's log holds
/// none there; it carries the leader's term and commit index, and its
/// previous index is the one just before the peer's next index (1 when the
/// leader knows none).
pub proof fn law_heartbeats_carry_previous_term(node: RaftNode, ms: Seq<MessageEnvelope>)
    requires
        node.are_heartbeats(ms),
    ensures
        ms.len() == node.peer_entries().len(),
        forall|i: int|
            0 <= i < ms.len() ==> ((#[trigger] ms[i]).message matches RaftMessage::AppendEntries(q) && (q.prev_log_index + 1
                == (if node.next_map().contains_key(node.peer_ids()[i]) {
                node.next_map()[node.peer_ids()[i]]
            } else {
                1
            }) || q.prev_log_index == 0 && node.next_map().contains_key(node.peer_ids()[i]) && node.next_map()[node.peer_ids()[i]] == 0)),
        forall|i: int|
            0 <= i < ms.len() ==> ((#[trigger] ms[i]).message matches RaftMessage::AppendEntries(q) && q.prev_log_term == (
            if node.log_spec().entry_map().contains_key(q.prev_log_index) {
                node.log_spec().entry_map()[q.prev_log_index].term
            } else {
                0
            }) && q.term == node.term() && q.leader_commit == node.commit()),
{
    assert forall|i: int| 0 <= i < ms.len() implies (#[trigger] ms[i]).message matches RaftMessage::AppendEntries(q)
        && q.prev_log_term == (if node.log_spec().entry_map().contains_key(q.prev_log_index) {
        node.log_spec().entry_map()[q.prev_log_index].term
    } else {
        0
    }) && q.term == node.term() && q.leader_commit == node.commit() by {
        assert(node.is_heartbeat(ms[i], node.peer_ids()[i]));
    }
    assert forall|i: int|
        0 <= i < ms.len() implies ((#[trigger] ms[i]).message matches RaftMessage::AppendEntries(q) && (q.prev_log_index + 1
            == (if node.next_map().contains_key(node.peer_ids()[i]) {
            node.next_map()[node.peer_ids()[i]]
        } else {
            1
        }) || q.prev_log_index == 0 && node.next_map().contains_key(node.peer_ids()[i]) && node.next_map()[node.peer_ids()[i]] == 0)) by {
        assert(node.is_heartbeat(ms[i], node.peer_ids()[i]));
    }
}

} // verus!
