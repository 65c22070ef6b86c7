use raft::log::{DiskLogEntry, DiskWrite, RaftLog};
use raft::protocol::{Command, LogEntry};
use raft::state::PersistentState;

fn make_key(s: &str) -> String {
    s.to_string()
}

fn make_value(data: &[u8]) -> Vec<u8> {
    data.to_vec()
}

/// Performs the log's pending writes on a disk held in memory.
fn replay(writes: Vec<DiskWrite>, state: &mut PersistentState, lines: &mut Vec<DiskLogEntry>) {
    for w in writes {
        match w {
            DiskWrite::SaveState(s) => *state = s,
            DiskWrite::Append(ls) => lines.extend(ls),
            DiskWrite::Rewrite(ls) => *lines = ls,
        }
    }
}

#[test]
fn test_new_raft_log() {
    let log = RaftLog::new();

    assert_eq!(log.current_term(), 0);
    assert_eq!(log.last_index(), 0);
    assert_eq!(log.last_term(), 0);
    assert!(log.voted_for().is_none());
}

#[test]
fn test_set_current_term() {
    let mut log = RaftLog::new();

    log.set_current_term(5);
    assert_eq!(log.current_term(), 5);

    // Setting term should clear voted_for
    log.set_voted_for(Some("candidate-01"));
    assert!(log.voted_for().is_some());

    log.set_current_term(6);
    assert_eq!(log.current_term(), 6);
    assert!(log.voted_for().is_none()); // Should be cleared
}

#[test]
fn test_voted_for() {
    let mut log = RaftLog::new();

    assert!(log.voted_for().is_none());

    log.set_voted_for(Some("node-02"));
    assert_eq!(log.voted_for(), Some("node-02".to_string()));

    log.set_voted_for(None);
    assert!(log.voted_for().is_none());
}

#[test]
fn test_append_entry() {
    let mut log = RaftLog::new();

    let index = log.append(1, Command::Noop);
    assert_eq!(index, 1);
    assert_eq!(log.last_index(), 1);
    assert_eq!(log.last_term(), 1);

    let entry = log.get(1).expect("get entry");
    assert_eq!(entry.index, 1);
    assert_eq!(entry.term, 1);
}

#[test]
fn test_append_multiple_entries() {
    let mut log = RaftLog::new();

    log.append(1, Command::Noop);
    log.append(1, Command::Put {
        key: make_key("key1"),
        value: make_value(b"value1"),
    });
    log.append(2, Command::Delete {
        key: make_key("key1"),
    });

    assert_eq!(log.last_index(), 3);
    assert_eq!(log.last_term(), 2);

    assert_eq!(log.term_at(1), Some(1));
    assert_eq!(log.term_at(2), Some(1));
    assert_eq!(log.term_at(3), Some(2));
}

#[test]
fn test_get_entries_range() {
    let mut log = RaftLog::new();

    for _ in 1..=5 {
        log.append(1, Command::Noop);
    }

    let entries = log.get_entries(2, 4);
    assert_eq!(entries.len(), 3);
    assert_eq!(entries[0].index, 2);
    assert_eq!(entries[1].index, 3);
    assert_eq!(entries[2].index, 4);
}

#[test]
fn test_has_entry() {
    let mut log = RaftLog::new();

    log.append(1, Command::Noop);
    log.append(2, Command::Noop);

    assert!(log.has_entry(0, 0)); // Index 0 always matches
    assert!(log.has_entry(1, 1)); // Correct term
    assert!(!log.has_entry(1, 2)); // Wrong term
    assert!(log.has_entry(2, 2)); // Correct term
    assert!(!log.has_entry(3, 1)); // Non-existent index
}

#[test]
fn test_truncate_from() {
    let mut log = RaftLog::new();

    for _ in 1..=5 {
        log.append(1, Command::Noop);
    }
    assert_eq!(log.last_index(), 5);

    log.truncate_from(3);
    assert_eq!(log.last_index(), 2);
    assert!(log.get(1).is_some());
    assert!(log.get(2).is_some());
    assert!(log.get(3).is_none());
    assert!(log.get(4).is_none());
    assert!(log.get(5).is_none());
}

#[test]
fn test_append_entries_from_leader() {
    let mut log = RaftLog::new();

    let entries = vec![
        LogEntry {
            index: 1,
            term: 1,
            command: Command::Noop,
        },
        LogEntry {
            index: 2,
            term: 1,
            command: Command::Put {
                key: make_key("k"),
                value: make_value(b"v"),
            },
        },
    ];

    log.append_entries(entries);
    assert_eq!(log.last_index(), 2);
    assert!(log.get(1).is_some());
    assert!(log.get(2).is_some());
}

#[test]
fn test_persistence_across_restarts() {
    let mut state = PersistentState::default();
    let mut lines: Vec<DiskLogEntry> = Vec::new();

    // Create log, add entries, and drop it
    {
        let mut log = RaftLog::load(state.clone(), &lines);
        log.set_current_term(5);
        log.set_voted_for(Some("node-01"));
        log.append(5, Command::Put {
            key: make_key("persistent"),
            value: make_value(b"data"),
        });
        replay(log.take_pending_writes(), &mut state, &mut lines);
    }

    // Reopen log and verify state persisted
    {
        let log = RaftLog::load(state.clone(), &lines);
        assert_eq!(log.current_term(), 5);
        assert_eq!(log.voted_for(), Some("node-01".to_string()));
        assert_eq!(log.last_index(), 1);
        assert_eq!(log.last_term(), 5);

        let entry = log.get(1).expect("get entry");
        if let Command::Put { key, value } = &entry.command {
            assert_eq!(key.as_str(), "persistent");
            assert_eq!(value.as_slice(), b"data");
        } else {
            panic!("Expected Put command");
        }
    }
}

#[test]
fn test_term_at_nonexistent_index() {
    let log = RaftLog::new();

    assert!(log.term_at(999).is_none());
}

#[test]
fn test_get_nonexistent_entry() {
    let log = RaftLog::new();

    assert!(log.get(999).is_none());
}

#[test]
fn test_empty_get_entries_range() {
    let log = RaftLog::new();

    let entries = log.get_entries(1, 10);
    assert!(entries.is_empty());
}

#[test]
fn truncate_rewrites_file_and_reload_matches() {
    let mut state = PersistentState::default();
    let mut lines: Vec<DiskLogEntry> = Vec::new();
    let mut log = RaftLog::load(state.clone(), &lines);
    for t in 1..=4 {
        log.append(t, Command::Noop);
    }
    log.truncate_from(3);
    log.append(9, Command::Delete { key: make_key("x") });
    replay(log.take_pending_writes(), &mut state, &mut lines);
    assert_eq!(lines.len(), 3);
    let back = RaftLog::load(state.clone(), &lines);
    assert_eq!(back.last_index(), 3);
    assert_eq!(back.term_at(1), Some(1));
    assert_eq!(back.term_at(2), Some(2));
    assert_eq!(back.term_at(3), Some(9));
    assert!(back.get(4).is_none());
}

#[test]
fn disk_record_round_trip() {
    let entry = LogEntry { index: 7, term: 3, command: Command::Put { key: make_key("k"), value: make_value(b"v1") } };
    let disk = RaftLog::entry_to_disk(&entry);
    assert_eq!(disk.command_type, "Put");
    assert_eq!(disk.key.as_deref(), Some("k"));
    assert_eq!(disk.value.as_deref(), Some(&b"v1"[..]));
    let back = RaftLog::disk_entry_to_log_entry(&disk);
    assert_eq!(back.index, 7);
    assert_eq!(back.term, 3);
    match back.command {
        Command::Put { key, value } => {
            assert_eq!(key, "k");
            assert_eq!(value, b"v1".to_vec());
        }
        _ => panic!("Expected Put command"),
    }
}

#[test]
fn disk_record_unknown_type_reads_as_noop_and_long_values_are_cut() {
    let disk = DiskLogEntry { index: 1, term: 1, command_type: "Bogus".to_string(), key: None, value: None };
    assert!(matches!(RaftLog::disk_entry_to_log_entry(&disk).command, Command::Noop));
    let long_key = "k".repeat(300);
    let disk = DiskLogEntry {
        index: 2,
        term: 1,
        command_type: "Put".to_string(),
        key: Some(long_key),
        value: Some(vec![7u8; 2000]),
    };
    match RaftLog::disk_entry_to_log_entry(&disk).command {
        Command::Put { key, value } => {
            assert_eq!(key, "");
            assert_eq!(value.len(), 1024);
        }
        _ => panic!("Expected Put command"),
    }
}

#[test]
fn append_entries_overwrites_and_keeps_greatest_index() {
    let mut log = RaftLog::new();
    log.append_entries(vec![
        LogEntry { index: 5, term: 2, command: Command::Noop },
        LogEntry { index: 3, term: 2, command: Command::Noop },
    ]);
    assert_eq!(log.last_index(), 5);
    log.append_entries(vec![LogEntry { index: 3, term: 4, command: Command::Noop }]);
    assert_eq!(log.term_at(3), Some(4));
    assert_eq!(log.last_index(), 5);
    let writes = log.take_pending_writes();
    assert_eq!(writes.len(), 2);
    assert!(log.take_pending_writes().is_empty());
}

#[test]
fn truncate_from_zero_and_beyond() {
    let mut log = RaftLog::new();
    log.append(1, Command::Noop);
    log.truncate_from(10);
    assert_eq!(log.last_index(), 1);
    assert!(log.get(1).is_some());
    log.truncate_from(0);
    assert_eq!(log.last_index(), 0);
    assert!(log.get(1).is_none());
}
