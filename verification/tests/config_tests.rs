use raft::config::{Config, EbpfConfig, PeerConfig, TimingConfig};
use raft::{MAX_KEY_SIZE, MAX_PEERS, MAX_VALUE_SIZE, RAFT_PORT};

#[test]
fn test_constants() {
    assert_eq!(RAFT_PORT, 5555);
    assert_eq!(MAX_PEERS, 16);
    assert_eq!(MAX_VALUE_SIZE, 1024);
    assert_eq!(MAX_KEY_SIZE, 256);
}

#[test]
fn test_timing_config_defaults() {
    let timing = TimingConfig::default();
    assert_eq!(timing.heartbeat_interval_ms, 50);
    assert_eq!(timing.election_timeout_min_ms, 150);
    assert_eq!(timing.election_timeout_max_ms, 300);
    assert_eq!(timing.rpc_timeout_ms, 1000);
}

#[test]
fn test_ebpf_config_defaults() {
    let ebpf = EbpfConfig::default();
    assert!(ebpf.enabled);
    assert_eq!(ebpf.interface, "eth0");
}

#[test]
fn test_default_for_testing() {
    let config = Config::default_for_testing("test-node", 6000);
    assert_eq!(config.server.node_id, "test-node");
    assert_eq!(config.server.listen_addr, "127.0.0.1:6000");
    assert_eq!(config.server.data_dir, "/tmp/raft-test-node");
    assert_eq!(config.server.log_level, "debug");
    assert!(!config.ebpf.enabled);
    assert!(config.peers.is_empty());
}

#[test]
fn test_peer_config() {
    let peer = PeerConfig {
        id: "peer-01".to_string(),
        address: "10.0.0.1:5555".to_string(),
    };
    assert_eq!(peer.id, "peer-01");
    assert_eq!(peer.address, "10.0.0.1:5555");
}
