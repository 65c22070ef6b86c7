use raft::config::{Config, PeerConfig};
use raft::log::RaftLog;
use raft::node::{ProposeResult, RaftNode};
use raft::protocol::{
    AppendEntriesRequest, AppendEntriesResponse, Command, LogEntry, MessageEnvelope, RaftMessage,
    RequestVoteRequest, RequestVoteResponse,
};
use raft::state::NodeRole;

fn cluster_config(me: &str, peers: &[&str]) -> Config {
    let mut config = Config::default_for_testing(me, 7000);
    for p in peers {
        config.peers.push(PeerConfig { id: p.to_string(), address: format!("{}:5555", p) });
    }
    config
}

fn envelope(from: &str, to: &str, message: RaftMessage) -> MessageEnvelope {
    MessageEnvelope::new(from, to, message)
}

fn vote_granted(from: &str, term: u64) -> MessageEnvelope {
    envelope(
        from,
        "n1",
        RaftMessage::RequestVoteResponse(RequestVoteResponse { term, vote_granted: true, node_id: from.to_string() }),
    )
}

#[test]
fn single_node_elects_itself() {
    let mut node = RaftNode::new(cluster_config("n1", &[]), RaftLog::new());
    assert_eq!(node.role(), NodeRole::Follower);
    let out = node.start_election();
    assert!(out.reset_election_timer);
    assert!(out.messages.is_empty());
    assert_eq!(node.role(), NodeRole::Leader);
    assert_eq!(node.current_term(), 1);
    let status = node.get_status();
    assert_eq!(status.leader_id.as_deref(), Some("n1"));
    assert!(status.peers.is_empty());
}

#[test]
fn candidate_becomes_leader_with_majority() {
    let mut node = RaftNode::new(cluster_config("n1", &["n2", "n3"]), RaftLog::new());
    let out = node.start_election();
    assert_eq!(node.role(), NodeRole::Candidate);
    assert_eq!(out.messages.len(), 2);
    for m in &out.messages {
        match &m.message {
            RaftMessage::RequestVote(req) => {
                assert_eq!(req.term, 1);
                assert_eq!(req.candidate_id, "n1");
            }
            other => panic!("unexpected message {:?}", other),
        }
    }
    let out = node.handle_message(vote_granted("n2", 1));
    assert_eq!(node.role(), NodeRole::Leader);
    assert_eq!(out.messages.len(), 2);
    for m in &out.messages {
        match &m.message {
            RaftMessage::AppendEntries(req) => {
                assert_eq!(req.term, 1);
                assert_eq!(req.prev_log_index, 0);
                assert!(req.entries.is_empty());
            }
            other => panic!("unexpected message {:?}", other),
        }
    }
}

#[test]
fn newer_term_in_vote_reply_makes_candidate_follow() {
    let mut node = RaftNode::new(cluster_config("n1", &["n2", "n3"]), RaftLog::new());
    node.start_election();
    let reply = envelope(
        "n2",
        "n1",
        RaftMessage::RequestVoteResponse(RequestVoteResponse { term: 4, vote_granted: false, node_id: "n2".to_string() }),
    );
    node.handle_message(reply);
    assert_eq!(node.role(), NodeRole::Follower);
    assert_eq!(node.current_term(), 4);
}

#[test]
fn vote_is_given_once_per_term() {
    let mut node = RaftNode::new(cluster_config("n1", &["n2", "n3"]), RaftLog::new());
    let ask = |cand: &str, term: u64| {
        envelope(
            cand,
            "n1",
            RaftMessage::RequestVote(RequestVoteRequest {
                term,
                candidate_id: cand.to_string(),
                last_log_index: 0,
                last_log_term: 0,
            }),
        )
    };
    let granted = |out: &raft::node::NodeOutput| match &out.messages[0].message {
        RaftMessage::RequestVoteResponse(r) => r.vote_granted,
        _ => panic!("expected a vote reply"),
    };
    let out = node.handle_message(ask("n2", 1));
    assert!(granted(&out));
    assert!(out.reset_election_timer);
    let out = node.handle_message(ask("n3", 1));
    assert!(!granted(&out));
    let out = node.handle_message(ask("n2", 1));
    assert!(granted(&out));
    let out = node.handle_message(ask("n3", 2));
    assert!(granted(&out));
    assert_eq!(node.current_term(), 2);
    let out = node.handle_message(ask("n2", 1));
    assert!(!granted(&out));
    match &out.messages[0].message {
        RaftMessage::RequestVoteResponse(r) => assert_eq!(r.term, 2),
        _ => panic!("expected a vote reply"),
    }
}

#[test]
fn vote_refused_to_stale_log() {
    let mut log = RaftLog::new();
    log.append(3, Command::Noop);
    let mut node = RaftNode::new(cluster_config("n1", &["n2"]), log);
    let req = RaftMessage::RequestVote(RequestVoteRequest {
        term: 5,
        candidate_id: "n2".to_string(),
        last_log_index: 9,
        last_log_term: 2,
    });
    let out = node.handle_message(envelope("n2", "n1", req));
    match &out.messages[0].message {
        RaftMessage::RequestVoteResponse(r) => {
            assert!(!r.vote_granted);
            assert_eq!(r.term, 5);
        }
        _ => panic!("expected a vote reply"),
    }
}

#[test]
fn follower_stores_entries_and_applies_committed_ones() {
    let mut node = RaftNode::new(cluster_config("n2", &["n1"]), RaftLog::new());
    let req = AppendEntriesRequest {
        term: 1,
        leader_id: "n1".to_string(),
        prev_log_index: 0,
        prev_log_term: 0,
        entries: vec![
            LogEntry { index: 1, term: 1, command: Command::Put { key: "a".to_string(), value: b"1".to_vec() } },
            LogEntry { index: 2, term: 1, command: Command::Put { key: "b".to_string(), value: b"2".to_vec() } },
        ],
        leader_commit: 1,
    };
    let out = node.handle_message(envelope("n1", "n2", RaftMessage::AppendEntries(req)));
    assert!(out.reset_election_timer);
    match &out.messages[0].message {
        RaftMessage::AppendEntriesResponse(r) => {
            assert!(r.success);
            assert_eq!(r.term, 1);
            assert_eq!(r.last_log_index, 2);
            assert_eq!(r.node_id, "n2");
        }
        _ => panic!("expected an append reply"),
    }
    assert_eq!(node.get_value("a"), Some(b"1".to_vec()));
    assert_eq!(node.get_value("b"), None);
    let status = node.get_status();
    assert_eq!(status.commit_index, 1);
    assert_eq!(status.last_applied, 1);
    assert_eq!(status.leader_id.as_deref(), Some("n1"));
}

#[test]
fn follower_refuses_inconsistent_and_stale_requests() {
    let mut node = RaftNode::new(cluster_config("n2", &["n1"]), RaftLog::new());
    let req = AppendEntriesRequest {
        term: 2,
        leader_id: "n1".to_string(),
        prev_log_index: 3,
        prev_log_term: 1,
        entries: vec![],
        leader_commit: 0,
    };
    let out = node.handle_message(envelope("n1", "n2", RaftMessage::AppendEntries(req)));
    match &out.messages[0].message {
        RaftMessage::AppendEntriesResponse(r) => assert!(!r.success),
        _ => panic!("expected an append reply"),
    }
    assert_eq!(node.current_term(), 2);
    let stale = AppendEntriesRequest {
        term: 1,
        leader_id: "n3".to_string(),
        prev_log_index: 0,
        prev_log_term: 0,
        entries: vec![],
        leader_commit: 0,
    };
    let out = node.handle_message(envelope("n3", "n2", RaftMessage::AppendEntries(stale)));
    assert!(!out.reset_election_timer);
    match &out.messages[0].message {
        RaftMessage::AppendEntriesResponse(r) => {
            assert!(!r.success);
            assert_eq!(r.term, 2);
        }
        _ => panic!("expected an append reply"),
    }
}

#[test]
fn conflicting_entries_are_replaced() {
    let mut log = RaftLog::new();
    log.append(1, Command::Noop);
    log.append(1, Command::Noop);
    log.append(1, Command::Noop);
    let mut node = RaftNode::new(cluster_config("n2", &["n1"]), log);
    let req = AppendEntriesRequest {
        term: 2,
        leader_id: "n1".to_string(),
        prev_log_index: 1,
        prev_log_term: 1,
        entries: vec![LogEntry { index: 2, term: 2, command: Command::Noop }],
        leader_commit: 0,
    };
    let out = node.handle_message(envelope("n1", "n2", RaftMessage::AppendEntries(req)));
    match &out.messages[0].message {
        RaftMessage::AppendEntriesResponse(r) => {
            assert!(r.success);
            assert_eq!(r.last_log_index, 2);
        }
        _ => panic!("expected an append reply"),
    }
    assert_eq!(node.last_log_index(), 2);
}

#[test]
fn leader_commits_when_majority_matches() {
    let mut node = RaftNode::new(cluster_config("n1", &["n2", "n3"]), RaftLog::new());
    node.start_election();
    node.handle_message(vote_granted("n2", 1));
    assert_eq!(node.role(), NodeRole::Leader);
    let (index, out) = match node.propose(Command::Put { key: "k".to_string(), value: b"v".to_vec() }) {
        Ok(p) => p,
        Err(e) => panic!("unexpected refusal {:?}", e),
    };
    assert_eq!(index, 1);
    assert_eq!(out.messages.len(), 2);
    match &out.messages[0].message {
        RaftMessage::AppendEntries(req) => assert_eq!(req.entries.len(), 1),
        _ => panic!("expected an append request"),
    }
    let ack = envelope(
        "n2",
        "n1",
        RaftMessage::AppendEntriesResponse(AppendEntriesResponse {
            term: 1,
            success: true,
            last_log_index: 1,
            node_id: "n2".to_string(),
        }),
    );
    let out = node.handle_message(ack);
    assert_eq!(out.committed, vec![1]);
    assert_eq!(node.get_status().commit_index, 1);
    assert_eq!(node.get_value("k"), Some(b"v".to_vec()));
}

#[test]
fn failed_append_moves_next_index_back() {
    let mut log = RaftLog::new();
    log.append(1, Command::Noop);
    log.append(1, Command::Noop);
    let mut node = RaftNode::new(cluster_config("n1", &["n2"]), log);
    node.start_election();
    assert_eq!(node.role(), NodeRole::Candidate);
    node.handle_message(vote_granted("n2", 1));
    assert_eq!(node.role(), NodeRole::Leader);
    let nack = envelope(
        "n2",
        "n1",
        RaftMessage::AppendEntriesResponse(AppendEntriesResponse {
            term: 1,
            success: false,
            last_log_index: 0,
            node_id: "n2".to_string(),
        }),
    );
    node.handle_message(nack);
    let hb = node.send_heartbeats();
    match &hb[0].message {
        RaftMessage::AppendEntries(req) => {
            assert_eq!(req.prev_log_index, 1);
            assert_eq!(req.entries.len(), 1);
        }
        _ => panic!("expected an append request"),
    }
}

#[test]
fn follower_refuses_proposals() {
    let mut node = RaftNode::new(cluster_config("n1", &["n2"]), RaftLog::new());
    match node.propose(Command::Noop) {
        Err(ProposeResult::NotLeader { leader_id }) => assert!(leader_id.is_none()),
        _ => panic!("expected a refusal"),
    }
}

#[test]
fn peers_can_join_and_leave() {
    let mut node = RaftNode::new(cluster_config("n1", &[]), RaftLog::new());
    node.start_election();
    node.add_peer("n4".to_string(), "10.0.0.4:5555".to_string());
    assert_eq!(node.get_status().peers, vec!["n4".to_string()]);
    let hb = node.send_heartbeats();
    assert_eq!(hb.len(), 1);
    assert_eq!(hb[0].to, "n4");
    node.remove_peer("n4");
    assert!(node.get_status().peers.is_empty());
    assert!(node.send_heartbeats().is_empty());
}

#[test]
fn election_timeout_stays_in_range() {
    let node = RaftNode::new(cluster_config("n1", &[]), RaftLog::new());
    for _ in 0..50 {
        let t = node.election_timeout();
        assert!((150..=300).contains(&t));
    }
    assert_eq!(node.heartbeat_interval(), 50);
}

#[test]
fn pending_writes_follow_the_node() {
    let mut node = RaftNode::new(cluster_config("n1", &[]), RaftLog::new());
    node.start_election();
    let writes = node.take_pending_writes();
    assert_eq!(writes.len(), 2);
    assert!(node.take_pending_writes().is_empty());
}

#[test]
fn client_messages_are_ignored() {
    let mut node = RaftNode::new(cluster_config("n1", &[]), RaftLog::new());
    let m = envelope(
        "c",
        "n1",
        RaftMessage::ClientRequest(raft::protocol::ClientRequest { request_id: 1, command: Command::Noop }),
    );
    let out = node.handle_message(m);
    assert!(out.messages.is_empty());
    assert_eq!(node.current_term(), 0);
}

/// Performs the pending writes on a disk held in memory.
fn replay_on(
    writes: Vec<raft::log::DiskWrite>,
    state: &mut raft::state::PersistentState,
    lines: &mut Vec<raft::log::DiskLogEntry>,
) {
    for w in writes {
        match w {
            raft::log::DiskWrite::SaveState(s) => *state = s,
            raft::log::DiskWrite::Append(ls) => lines.extend(ls),
            raft::log::DiskWrite::Rewrite(ls) => *lines = ls,
        }
    }
}

#[test]
fn follower_disk_reads_back_after_conflict() {
    let mut node = RaftNode::new(cluster_config("n2", &["n1", "n3"]), RaftLog::new());
    let put = |index: u64, term: u64, key: &str| LogEntry {
        index,
        term,
        command: Command::Put { key: key.to_string(), value: key.as_bytes().to_vec() },
    };
    let mut state = raft::state::PersistentState::default();
    let mut lines = Vec::new();
    let first = AppendEntriesRequest {
        term: 1,
        leader_id: "n1".to_string(),
        prev_log_index: 0,
        prev_log_term: 0,
        entries: vec![put(1, 1, "a"), put(2, 1, "b"), put(3, 1, "c")],
        leader_commit: 0,
    };
    node.handle_message(envelope("n1", "n2", RaftMessage::AppendEntries(first)));
    replay_on(node.take_pending_writes(), &mut state, &mut lines);
    let second = AppendEntriesRequest {
        term: 2,
        leader_id: "n3".to_string(),
        prev_log_index: 1,
        prev_log_term: 1,
        entries: vec![put(2, 2, "x")],
        leader_commit: 0,
    };
    node.handle_message(envelope("n3", "n2", RaftMessage::AppendEntries(second)));
    replay_on(node.take_pending_writes(), &mut state, &mut lines);

    let reloaded = RaftLog::load(state, &lines);
    assert_eq!(reloaded.current_term(), 2);
    assert_eq!(reloaded.term_at(1), Some(1));
    assert_eq!(reloaded.term_at(2), Some(2));
    assert_eq!(reloaded.term_at(3), None);
    match &reloaded.get(2).unwrap().command {
        Command::Put { key, .. } => assert_eq!(key, "x"),
        other => panic!("unexpected command {:?}", other),
    }
    assert_eq!(reloaded.last_index(), 2);
}

#[test]
fn four_nodes_need_three_votes() {
    let mut node = RaftNode::new(cluster_config("n1", &["n2", "n3", "n4"]), RaftLog::new());
    node.start_election();
    assert_eq!(node.role(), NodeRole::Candidate);
    node.handle_message(vote_granted("n2", 1));
    assert_eq!(node.role(), NodeRole::Candidate);
    node.handle_message(vote_granted("n2", 1));
    assert_eq!(node.role(), NodeRole::Candidate);
    node.handle_message(vote_granted("n3", 1));
    assert_eq!(node.role(), NodeRole::Leader);
}

#[test]
fn lone_leader_commits_its_proposal_at_once() {
    let mut node = RaftNode::new(cluster_config("n1", &[]), RaftLog::new());
    node.start_election();
    assert_eq!(node.role(), NodeRole::Leader);
    let (index, out) = node
        .propose(Command::Put { key: "k".to_string(), value: b"v".to_vec() })
        .expect("leader takes proposals");
    assert_eq!(index, 1);
    assert_eq!(out.committed, vec![1]);
    assert!(out.messages.is_empty());
    assert_eq!(node.get_status().commit_index, 1);
    assert_eq!(node.get_status().last_applied, 1);
    assert_eq!(node.get_value("k"), Some(b"v".to_vec()));
}

/// Hands `m` to `node` and returns the messages it answers with.
fn deliver(node: &mut RaftNode, m: MessageEnvelope) -> Vec<MessageEnvelope> {
    node.handle_message(m).messages
}

/// The one message of `ms` addressed to `to`.
fn addressed(ms: &[MessageEnvelope], to: &str) -> MessageEnvelope {
    let m = ms.iter().find(|m| m.to == to).expect("a message to the peer");
    MessageEnvelope::new(&m.from, &m.to, match &m.message {
        RaftMessage::AppendEntries(r) => RaftMessage::AppendEntries(AppendEntriesRequest {
            term: r.term,
            leader_id: r.leader_id.clone(),
            prev_log_index: r.prev_log_index,
            prev_log_term: r.prev_log_term,
            entries: r.entries.clone(),
            leader_commit: r.leader_commit,
        }),
        RaftMessage::RequestVote(r) => RaftMessage::RequestVote(r.clone()),
        other => panic!("unexpected {:?}", other),
    })
}

/// A follower answers a heartbeat with its own last index, even past what
/// the leader sent; a leader that counts that reply as a match can commit
/// an entry that only it holds, and another leader can later commit a
/// different entry at the same index.
#[test]
fn follower_last_index_counts_as_match() {
    let put = |key: &str| Command::Put { key: key.to_string(), value: key.as_bytes().to_vec() };
    let mut n1 = RaftNode::new(cluster_config("n1", &["n2", "n3"]), RaftLog::new());
    let mut n2 = RaftNode::new(cluster_config("n2", &["n1", "n3"]), RaftLog::new());
    let mut n3 = RaftNode::new(cluster_config("n3", &["n1", "n2"]), RaftLog::new());

    // n1 leads term 1 and appends two entries that reach no one.
    let asks = n1.start_election().messages;
    let votes = deliver(&mut n2, addressed(&asks, "n2"));
    deliver(&mut n1, votes.into_iter().next().unwrap());
    assert_eq!(n1.role(), NodeRole::Leader);
    n1.propose(put("a")).ok().unwrap();
    n1.propose(put("b")).ok().unwrap();

    // n2 leads term 2 with n3's vote, its log empty.
    let asks = n2.start_election().messages;
    let votes = deliver(&mut n3, addressed(&asks, "n3"));
    deliver(&mut n2, votes.into_iter().next().unwrap());
    assert_eq!(n2.role(), NodeRole::Leader);

    // n2's first heartbeat reaches n1, whose reply is delayed.
    let beats = n2.send_heartbeats();
    let delayed = deliver(&mut n1, addressed(&beats, "n1"));
    match &delayed[0].message {
        RaftMessage::AppendEntriesResponse(r) => {
            assert!(r.success);
            assert_eq!(r.last_log_index, 2);
        }
        other => panic!("unexpected {:?}", other),
    }

    // n2 takes a proposal; the delayed reply then counts n1 as holding it.
    let (index, _) = n2.propose(put("x")).ok().unwrap();
    assert_eq!(index, 1);
    deliver(&mut n2, delayed.into_iter().next().unwrap());
    assert_eq!(n2.get_status().commit_index, 1);
    assert_eq!(n2.get_value("x"), Some(b"x".to_vec()));

    // n1 leads term 3 with n3's vote and commits its own entries.
    let asks = n1.start_election().messages;
    let votes = deliver(&mut n3, addressed(&asks, "n3"));
    deliver(&mut n1, votes.into_iter().next().unwrap());
    assert_eq!(n1.role(), NodeRole::Leader);
    n1.propose(put("c")).ok().unwrap();
    for _ in 0..4 {
        let beats = n1.send_heartbeats();
        let replies = deliver(&mut n3, addressed(&beats, "n3"));
        deliver(&mut n1, replies.into_iter().next().unwrap());
    }
    assert_eq!(n1.get_status().commit_index, 3);
    assert_eq!(n1.get_value("a"), Some(b"a".to_vec()));

    // Index 1 is committed on both leaders, with different entries.
    assert_eq!(n1.get_value("x"), None);
    assert_eq!(n2.get_value("a"), None);
}

#[test]
fn follower_commits_only_up_to_the_last_new_entry() {
    let mut log = RaftLog::new();
    log.append(1, Command::Noop);
    log.append(1, Command::Noop);
    log.append(1, Command::Noop);
    log.append(1, Command::Put { key: "stale".to_string(), value: b"s".to_vec() });
    let mut node = RaftNode::new(cluster_config("n2", &["n1"]), log);
    let req = AppendEntriesRequest {
        term: 1,
        leader_id: "n1".to_string(),
        prev_log_index: 2,
        prev_log_term: 1,
        entries: vec![LogEntry { index: 3, term: 1, command: Command::Noop }],
        leader_commit: 4,
    };
    node.handle_message(envelope("n1", "n2", RaftMessage::AppendEntries(req)));
    let status = node.get_status();
    assert_eq!(status.commit_index, 3);
    assert_eq!(status.last_applied, 3);
    assert_eq!(node.get_value("stale"), None);
    assert_eq!(node.last_log_index(), 4);
}

/// A granted vote from an earlier term still counts: a candidate can win a
/// term with a vote given in the term before, while another node wins the
/// same term with the same voter's vote.
#[test]
fn vote_from_an_earlier_term_counts() {
    let mut n1 = RaftNode::new(cluster_config("n1", &["n2", "n3"]), RaftLog::new());
    let mut n2 = RaftNode::new(cluster_config("n2", &["n1", "n3"]), RaftLog::new());
    let mut n3 = RaftNode::new(cluster_config("n3", &["n1", "n2"]), RaftLog::new());

    let asks = n1.start_election().messages;
    let old_vote = deliver(&mut n2, addressed(&asks, "n2")).into_iter().next().unwrap();
    n1.start_election();
    assert_eq!(n1.current_term(), 2);
    deliver(&mut n1, old_vote);
    assert_eq!(n1.role(), NodeRole::Leader);

    n3.start_election();
    let asks = n3.start_election().messages;
    assert_eq!(n3.current_term(), 2);
    let vote = deliver(&mut n2, addressed(&asks, "n2")).into_iter().next().unwrap();
    deliver(&mut n3, vote);
    assert_eq!(n3.role(), NodeRole::Leader);
    assert_eq!(n1.current_term(), n3.current_term());
}
