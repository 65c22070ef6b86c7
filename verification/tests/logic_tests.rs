use raft::bounded::{fit_bytes, fit_str};
use raft::classifier::{classify_packet, ip_to_string, record_packet, try_classify_raft, update_peer, Classified, Monitor};
use raft::cli::{
    chrono_lite, cli_error_text, join_lines, leave_lines, message_line, messages_lines, propose_lines, propose_request,
    send_lines, status_failed_lines, status_lines, watch_header, watch_key, CliError, Shown,
};
use raft::ipc::{
    commit_response, get_response, invalid_request_response, join_response, leave_response, message_command,
    messages_request_bounds, proposal_failed_response, propose_command, role_name, status_response, CommitWait,
    IpcData, IpcRequest, ProposalKind, StatusResponse, message_record, send_command,
};
use raft::maps::{EbpfStats, PeerMetadata};
use raft::network::{decode_frame, encode_frame, next_frame, FrameError, FrameStep, MAX_MESSAGE_SIZE};
use raft::node::{election_due, heartbeat_due, NodeStatus, ProposeResult};
use raft::protocol::{Command, LogEntry, MessageEnvelope, RaftMessage};
use raft::state::{NodeRole, PeerInfo, PersistentState, VolatileState};
use raft::state_machine::{ApplyResult, StateMachine};
use raft::text::{decimal_string, parse_u128_text};

fn put(index: u64, key: &str, value: &[u8]) -> LogEntry {
    LogEntry { index, term: 1, command: Command::Put { key: key.to_string(), value: value.to_vec() } }
}

#[test]
fn state_machine_applies_in_order_once() {
    let mut sm = StateMachine::new();
    assert_eq!(sm.last_applied(), 0);
    assert!(matches!(sm.apply(&put(1, "a", b"x")), ApplyResult::Applied));
    assert_eq!(sm.get("a"), Some(b"x".to_vec()));
    assert!(matches!(sm.apply(&put(1, "a", b"y")), ApplyResult::Applied));
    assert_eq!(sm.get("a"), Some(b"x".to_vec()));
    assert!(matches!(sm.apply(&LogEntry { index: 2, term: 1, command: Command::Noop }), ApplyResult::Noop));
    sm.apply(&LogEntry { index: 3, term: 1, command: Command::Delete { key: "a".to_string() } });
    assert_eq!(sm.get("a"), None);
    assert_eq!(sm.last_applied(), 3);
}

#[test]
fn state_machine_keys_are_listed_once() {
    let mut sm = StateMachine::default();
    sm.apply(&put(1, "a", b"1"));
    sm.apply(&put(2, "b", b"2"));
    sm.apply(&put(3, "a", b"3"));
    let mut keys = sm.keys();
    keys.sort();
    assert_eq!(keys, vec!["a".to_string(), "b".to_string()]);
}

#[test]
fn messages_come_newest_first() {
    let mut sm = StateMachine::new();
    sm.apply(&put(1, "_msg:100", br#"{"message":"old"}"#));
    sm.apply(&put(2, "_msg:300", br#"{"message":"new"}"#));
    sm.apply(&put(3, "_msg:200", br#"{"message":"mid"}"#));
    sm.apply(&put(4, "_msg:abc", br#"{"message":"bad key"}"#));
    sm.apply(&put(5, "_msg:400", b"not json"));
    sm.apply(&put(6, "other", br#"{"message":"not a message"}"#));
    let all = sm.get_messages(10);
    let texts: Vec<String> = all.iter().map(|b| String::from_utf8(b.clone()).unwrap()).collect();
    assert_eq!(texts, vec![
        r#"{"message":"new"}"#.to_string(),
        r#"{"message":"mid"}"#.to_string(),
        r#"{"message":"old"}"#.to_string(),
    ]);
    assert_eq!(sm.get_messages(2).len(), 2);
    assert!(sm.get_messages(0).is_empty());
}

#[test]
fn snapshot_restores_data() {
    let mut sm = StateMachine::new();
    sm.apply(&put(1, "a", b"1"));
    sm.apply(&put(2, "b", b"22"));
    let snap = sm.snapshot();
    assert!(!snap.is_empty());
    let mut other = StateMachine::new();
    other.restore(&snap, 7).expect("restore");
    assert_eq!(other.last_applied(), 7);
    assert_eq!(other.get("a"), Some(b"1".to_vec()));
    assert_eq!(other.get("b"), Some(b"22".to_vec()));
    assert!(other.restore(&[1, 2, 3], 9).is_err());
    assert_eq!(other.last_applied(), 7);
}

#[test]
fn snapshot_encoding_is_bincode_map() {
    let mut sm = StateMachine::new();
    sm.apply(&put(1, "k", b"v"));
    let snap = sm.snapshot();
    let mut expected: std::collections::HashMap<String, Vec<u8>> = std::collections::HashMap::new();
    expected.insert("k".to_string(), b"v".to_vec());
    assert_eq!(snap, bincode::serialize(&expected).unwrap());
}

#[test]
fn frames_round_trip() {
    let payload = b"hello".to_vec();
    let frame = encode_frame(&payload);
    assert_eq!(frame, vec![0, 0, 0, 5, b'h', b'e', b'l', b'l', b'o']);
    assert_eq!(decode_frame(&frame), Ok(payload));
    assert_eq!(decode_frame(&[0, 0]), Err(FrameError::TooShort));
    assert_eq!(decode_frame(&[0, 0, 0, 9, 1]), Err(FrameError::Incomplete));
    assert_eq!(next_frame(&frame), FrameStep::Ready(5));
    assert_eq!(next_frame(&frame[..6]), FrameStep::NeedMore);
    assert_eq!(next_frame(&[0, 0x20, 0, 0]), FrameStep::TooLarge(0x200000));
    assert_eq!(MAX_MESSAGE_SIZE, 1024 * 1024);
}

fn raft_packet(dst_port: u16, ihl: u8, len: usize) -> Vec<u8> {
    let mut p = vec![0u8; len];
    p[12] = 0x08;
    p[13] = 0x00;
    p[14] = 0x40 | ihl;
    p[14 + 9] = 6;
    p[26..30].copy_from_slice(&[10, 0, 0, 1]);
    p[30..34].copy_from_slice(&[10, 0, 0, 2]);
    let t = 14 + (ihl as usize) * 4;
    p[t..t + 2].copy_from_slice(&40000u16.to_be_bytes());
    p[t + 2..t + 4].copy_from_slice(&dst_port.to_be_bytes());
    p[t + 4..t + 8].copy_from_slice(&7u32.to_be_bytes());
    p[t + 8..t + 12].copy_from_slice(&9u32.to_be_bytes());
    p[t + 13] = 0xff;
    p
}

#[test]
fn classifier_detects_raft_traffic() {
    let p = raft_packet(5555, 5, 54);
    match classify_packet(&p, 42) {
        Classified::Raft(e) => {
            assert_eq!(e.src_ip.to_le_bytes(), [10, 0, 0, 1]);
            assert_eq!(e.dst_ip.to_le_bytes(), [10, 0, 0, 2]);
            assert_eq!(e.src_ip, 0x0100000a);
            assert_eq!(e.src_port, 40000);
            assert_eq!(e.dst_port, 5555);
            assert_eq!(e.seq, 7);
            assert_eq!(e.ack, 9);
            assert_eq!(e.flags, 0x3f);
            assert_eq!(e.timestamp_ns, 42);
            assert_eq!(e.msg_type, 0);
        }
        other => panic!("unexpected {:?}", other),
    }
    assert!(matches!(classify_packet(&raft_packet(80, 5, 54), 1), Classified::Other));
    assert!(matches!(classify_packet(&raft_packet(5555, 6, 54), 1), Classified::Malformed));
    assert!(matches!(classify_packet(&p[..10], 1), Classified::Malformed));
    let mut not_ip = p.clone();
    not_ip[12] = 0x86;
    assert!(matches!(classify_packet(&not_ip, 1), Classified::Other));
}

#[test]
fn classifier_counts_and_tracks_peers() {
    let stats = EbpfStats { packets_total: u64::MAX, raft_packets: 1, errors: 0 };
    let s = record_packet(stats, &Classified::Malformed);
    assert_eq!(s.packets_total, 0);
    assert_eq!(s.raft_packets, 1);
    assert_eq!(s.errors, 1);
    let first = update_peer(None, 5, 11);
    assert_eq!(first.packet_count, 1);
    let next = update_peer(Some(first), 6, 12);
    assert_eq!(next.packet_count, 2);
    assert_eq!(next.last_seen_ns, 6);
    assert_eq!(next.last_seq, 12);
    let d = PeerMetadata::default();
    assert_eq!(d.packet_count, 0);
}

#[test]
fn ipc_answers() {
    let r = join_response("node-04", "10.0.0.4:5555");
    assert!(r.success);
    assert_eq!(r.message, "Added peer node-04 at 10.0.0.4:5555");
    assert_eq!(leave_response("node-04").message, "Removed peer node-04");
    let r = commit_response(ProposalKind::Propose, CommitWait::Answered(ProposeResult::Success { index: 12 }));
    assert!(r.success);
    assert_eq!(r.message, "Committed at index 12");
    let r = commit_response(ProposalKind::Send, CommitWait::Answered(ProposeResult::Success { index: 5 }));
    assert_eq!(r.message, "Message sent (index 5)");
    assert!(matches!(r.data, Some(IpcData::Index { index: 5 })));
    let r = commit_response(
        ProposalKind::Send,
        CommitWait::Answered(ProposeResult::NotLeader { leader_id: Some("node-02".to_string()) }),
    );
    assert!(!r.success);
    assert_eq!(r.message, "Not leader - send to leader node");
    match r.data {
        Some(IpcData::LeaderHint { leader_id }) => assert_eq!(leader_id, "node-02"),
        _ => panic!("expected a leader hint"),
    }
    assert_eq!(commit_response(ProposalKind::Propose, CommitWait::TimedOut).message, "Timeout waiting for commit");
    assert_eq!(commit_response(ProposalKind::Send, CommitWait::TimedOut).message, "Timeout waiting for replication");
    assert_eq!(commit_response(ProposalKind::Send, CommitWait::Closed).message, "Channel closed");
    assert_eq!(invalid_request_response("eof").message, "Invalid request: eof");
    assert_eq!(proposal_failed_response(ProposalKind::Send, "disk").message, "Send failed: disk");
    assert_eq!(messages_request_bounds(None, Some(3)), (10, 3));
    let r = get_response("k", Some(b"v".to_vec()));
    match r.data {
        Some(IpcData::Value { key, value }) => {
            assert_eq!(key, "k");
            assert_eq!(value, Some(b"v".to_vec()));
        }
        _ => panic!("expected a value"),
    }
    let status = NodeStatus {
        node_id: "node-02".to_string(),
        role: NodeRole::Leader,
        current_term: 1783,
        commit_index: 4,
        last_applied: 4,
        leader_id: Some("node-02".to_string()),
        peers: vec!["node-01".to_string()],
    };
    match status_response(status).data {
        Some(IpcData::Status(s)) => {
            assert_eq!(s.role, "Leader");
            assert_eq!(s.current_term, 1783);
        }
        _ => panic!("expected a status"),
    }
    assert_eq!(role_name(NodeRole::Candidate), "Candidate");
}

#[test]
fn proposals_become_commands() {
    match propose_command("mykey", Some("my value")) {
        Command::Put { key, value } => {
            assert_eq!(key, "mykey");
            assert_eq!(value, b"my value".to_vec());
        }
        _ => panic!("expected a put"),
    }
    assert!(matches!(propose_command("mykey", None), Command::Delete { .. }));
    match message_command(1700000000123, br#"{"m":1}"#) {
        Command::Put { key, value } => {
            assert_eq!(key, "_msg:1700000000123");
            assert_eq!(value, br#"{"m":1}"#.to_vec());
        }
        _ => panic!("expected a put"),
    }
    let mut sm = StateMachine::new();
    sm.apply(&LogEntry { index: 1, term: 1, command: message_command(5, br#"{"m":1}"#) });
    assert_eq!(sm.get_messages(5).len(), 1);
}

#[test]
fn cli_helpers() {
    assert_eq!(chrono_lite(0), "00:00:00");
    assert_eq!(chrono_lite(3600 * 25 + 61), "01:01:01");
    assert_eq!(chrono_lite(86399), "23:59:59");
    assert_eq!(message_line(10_000, "node-02", "hi"), "[00:00:10] node-02: hi");
    assert_eq!(watch_key(123, "hi"), "123:hi");
    assert!(matches!(propose_request("put", "k", None), Err(CliError::ValueRequired)));
    assert!(matches!(propose_request("put", "k", Some("v")), Ok(IpcRequest::Propose { value: Some(_), .. })));
    assert!(matches!(propose_request("delete", "k", None), Ok(IpcRequest::Propose { value: None, .. })));
    assert!(matches!(propose_request("get", "k", None), Ok(IpcRequest::Get { .. })));
    let e = propose_request("frob", "k", None).err().unwrap();
    assert_eq!(cli_error_text(&e), "Unknown operation: frob");
    assert_eq!(cli_error_text(&CliError::ValueRequired), "Value required for put operation");
}

#[test]
fn bounded_copies() {
    assert_eq!(fit_str("abc", 3), "abc");
    assert_eq!(fit_str("abcd", 3), "");
    assert_eq!(fit_str("é", 1), "");
    assert_eq!(fit_bytes(&[1, 2, 3], 2), vec![1, 2]);
    let env = MessageEnvelope::new(&"x".repeat(65), "to", RaftMessage::ClientRequest(raft::protocol::ClientRequest {
        request_id: 0,
        command: Command::Noop,
    }));
    assert_eq!(env.from, "");
    assert_eq!(env.to, "to");
    let p = PeerInfo::new("n1", "1.2.3.4:5555");
    assert_eq!(p.id, "n1");
    assert_eq!(p.address, "1.2.3.4:5555");
}

#[test]
fn decimal_text() {
    assert_eq!(decimal_string(0), "0");
    assert_eq!(decimal_string(u128::MAX), u128::MAX.to_string());
    let c = |s: &str| s.chars().collect::<Vec<char>>();
    assert_eq!(parse_u128_text(&c("+42")), Some(42));
    assert_eq!(parse_u128_text(&c("+")), None);
    assert_eq!(parse_u128_text(&c("")), None);
    assert_eq!(parse_u128_text(&c("-1")), None);
    assert_eq!(parse_u128_text(&c("340282366920938463463374607431768211456")), None);
    assert_eq!(parse_u128_text(&c("340282366920938463463374607431768211455")), Some(u128::MAX));
}

#[test]
fn state_defaults() {
    let s = PersistentState::default();
    assert_eq!(s.current_term, 0);
    assert!(s.voted_for.is_none());
    let v = VolatileState::default();
    assert_eq!(v.commit_index, 0);
    assert_eq!(v.last_applied, 0);
    assert_eq!(NodeRole::default(), NodeRole::Follower);
}

#[test]
fn ip_addresses_print_dotted() {
    assert_eq!(ip_to_string(0x0A00_0001), "10.0.0.1");
    assert_eq!(ip_to_string(0), "0.0.0.0");
    assert_eq!(ip_to_string(u32::MAX), "255.255.255.255");
    assert_eq!(ip_to_string(0xC0A8_0102), "192.168.1.2");
}

#[test]
fn snapshot_bytes_are_lengths_then_data() {
    let empty = StateMachine::new();
    assert_eq!(empty.snapshot(), vec![0u8; 8]);
    let mut sm = StateMachine::new();
    sm.apply(&put(1, "k", b"v"));
    let mut expected = vec![1u8, 0, 0, 0, 0, 0, 0, 0];
    expected.extend_from_slice(&[1, 0, 0, 0, 0, 0, 0, 0, b'k']);
    expected.extend_from_slice(&[1, 0, 0, 0, 0, 0, 0, 0, b'v']);
    assert_eq!(sm.snapshot(), expected);
}

#[test]
fn monitor_records_only_raft_packets() {
    let mut m = Monitor::new();
    let p = raft_packet(5555, 5, 54);
    assert!(matches!(try_classify_raft(&mut m, &p, 10), Classified::Raft(_)));
    assert!(matches!(try_classify_raft(&mut m, &p, 20), Classified::Raft(_)));
    assert!(matches!(try_classify_raft(&mut m, &raft_packet(80, 5, 54), 30), Classified::Other));
    assert!(matches!(try_classify_raft(&mut m, &p[..10], 40), Classified::Malformed));
    assert_eq!(m.stats.packets_total, 4);
    assert_eq!(m.stats.raft_packets, 2);
    assert_eq!(m.stats.errors, 1);
    assert_eq!(m.peers.len(), 1);
    let rec = m.peers[&u32::from_le_bytes([10, 0, 0, 1])];
    assert_eq!(rec.packet_count, 2);
    assert_eq!(rec.last_seen_ns, 20);
    assert_eq!(rec.last_seq, 7);
}

#[test]
fn status_shows_as_documented() {
    let s = StatusResponse {
        node_id: "node-02".to_string(),
        role: "Leader".to_string(),
        current_term: 1783,
        commit_index: 4,
        last_applied: 4,
        leader_id: Some("node-02".to_string()),
        peers: vec!["node-01".to_string(), "node-03".to_string()],
    };
    assert_eq!(
        status_lines(&s),
        vec![
            "RAFT Cluster Status",
            "==================",
            "Node ID:      node-02",
            "Role:         Leader",
            "Current Term: 1783",
            "Commit Index: 4",
            "Last Applied: 4",
            "Leader:       node-02",
            "Peers:        [\"node-01\", \"node-03\"]",
        ]
    );
    let lone = StatusResponse { leader_id: None, peers: vec![], ..s };
    let lines = status_lines(&lone);
    assert_eq!(lines[7], "Leader:       (none)");
    assert_eq!(lines[8], "Peers:        []");
}

#[test]
fn timers_decide_by_role() {
    assert!(election_due(NodeRole::Follower, 300, 300));
    assert!(election_due(NodeRole::Candidate, 301, 300));
    assert!(!election_due(NodeRole::Follower, 299, 300));
    assert!(!election_due(NodeRole::Leader, 1000, 300));
    assert!(heartbeat_due(NodeRole::Leader));
    assert!(!heartbeat_due(NodeRole::Follower));
    assert!(!heartbeat_due(NodeRole::Candidate));
}

fn texts(lines: Vec<Shown>) -> Vec<String> {
    lines
        .into_iter()
        .map(|l| match l {
            Shown::Out(t) => format!("out {}", t),
            Shown::Error(t) => format!("err {}", t),
        })
        .collect()
}

#[test]
fn client_lines_as_the_readme_shows() {
    assert_eq!(texts(join_lines(true, "n4", "10.0.0.4:5555", "")), vec!["out ✓ Successfully joined n4 at 10.0.0.4:5555"]);
    assert_eq!(texts(join_lines(false, "n4", "a", "boom")), vec!["err ✗ Failed to join: boom"]);
    assert_eq!(texts(leave_lines(true, "n4", "")), vec!["out ✓ Successfully removed n4"]);
    assert_eq!(texts(leave_lines(false, "n4", "no")), vec!["err ✗ Failed to remove: no"]);
    assert_eq!(texts(propose_lines("put", "k", Some("v"), true, "", None, None)), vec!["out ✓ Set k=v"]);
    assert_eq!(texts(propose_lines("delete", "k", None, true, "", None, None)), vec!["out ✓ Deleted k"]);
    assert_eq!(texts(propose_lines("get", "k", None, true, "", Some(None), None)), vec!["out k: (not found)"]);
    assert_eq!(
        texts(propose_lines("get", "k", None, true, "", Some(Some("v".to_string())), None)),
        vec!["out k: v"]
    );
    assert_eq!(
        texts(propose_lines("put", "k", Some("v"), false, "Not leader", None, Some("node-02".to_string()))),
        vec!["err ✗ Operation failed: Not leader", "err   Hint: Try connecting to leader node: node-02"]
    );
    assert_eq!(
        texts(send_lines("hi", true, "", Some(5), None)),
        vec!["out ✓ Message sent: \"hi\"", "out   Replicated at log index 5"]
    );
    assert_eq!(
        texts(send_lines("hi", false, "Not leader - send to leader node", None, Some("node-02".to_string()))),
        vec!["err ✗ Failed to send: Not leader - send to leader node", "err   Hint: Send from leader node: node-02"]
    );
    assert_eq!(
        texts(messages_lines(true, "", Some(5), Some(vec![(10_800_000, "node-02".to_string(), "Hello".to_string())]))),
        vec![
            "out Messages (last applied index: 5)".to_string(),
            format!("out {}", "=".repeat(50)),
            "out [03:00:00] node-02: Hello".to_string(),
        ]
    );
    assert_eq!(texts(messages_lines(true, "", None, Some(vec![]))), vec!["out (no messages)"]);
    assert_eq!(texts(messages_lines(false, "down", None, None)), vec!["err ✗ Failed to get messages: down"]);
    assert_eq!(texts(status_failed_lines("down")), vec!["err ✗ Failed to get status: down"]);
    assert_eq!(
        texts(watch_header("node-01")),
        vec!["out Watching for messages on node-01 (Ctrl+C to stop)...".to_string(), format!("out {}", "=".repeat(50))]
    );
}

#[test]
fn message_record_is_the_json_object() {
    let record = message_record("node-02", 1234, "say \"hi\"\n");
    assert_eq!(record, r#"{"from":"node-02","message":"say \"hi\"\n","timestamp":1234}"#);
    let parsed: serde_json::Value = serde_json::from_str(&record).unwrap();
    assert_eq!(parsed["timestamp"].as_u64(), Some(1234));
    match send_command("node-02", 1234, "x") {
        Command::Put { key, value } => {
            assert_eq!(key, "_msg:1234");
            assert_eq!(value, br#"{"from":"node-02","message":"x","timestamp":1234}"#.to_vec());
        }
        other => panic!("unexpected {:?}", other),
    }
}

#[test]
fn messages_are_selected_by_the_parse_flags() {
    let pairs = vec![
        ("_msg:1".to_string(), b"{}".to_vec()),
        ("_msg:3".to_string(), b"[]".to_vec()),
        ("other".to_string(), b"1".to_vec()),
        ("_msg:2".to_string(), b"2".to_vec()),
    ];
    let out = StateMachine::select_messages(&pairs, &vec![true, true, true, false], 10);
    assert_eq!(out, vec![b"[]".to_vec(), b"{}".to_vec()]);
    let out = StateMachine::select_messages(&pairs, &vec![true, true, true, true], 2);
    assert_eq!(out, vec![b"[]".to_vec(), b"2".to_vec()]);
}
