//! Configuration of a node: identity, timing, peers and packet monitoring.
//!
//! Reading the configuration file is left to the caller; this module holds
//! the structure, its defaults and the configuration used in tests.

use crate::text::{decimal, push_decimal, push_text};
use vstd::prelude::*;

verus! {

/// Main configuration structure
#[derive(Clone, Debug)]
pub struct Config {
    /// Server configuration
    pub server: ServerConfig,
    /// Timing configuration
    pub timing: TimingConfig,
    /// Peer nodes
    pub peers: Vec<PeerConfig>,
    /// eBPF configuration
    pub ebpf: EbpfConfig,
}

/// Server-specific configuration
#[derive(Clone, Debug)]
pub struct ServerConfig {
    /// Unique node identifier
    pub node_id: String,
    /// Address to listen on (e.g., "0.0.0.0:5555")
    pub listen_addr: String,
    /// Directory for persistent data
    pub data_dir: String,
    /// Log level
    pub log_level: String,
}

/// The data directory used when the configuration names none.
pub fn default_data_dir() -> (r: String)
    ensures
        r@ == "/var/lib/raft"@,
{
    "/var/lib/raft".to_owned()
}

/// The log level used when the configuration names none.
pub fn default_log_level() -> (r: String)
    ensures
        r@ == "info"@,
{
    "info".to_owned()
}

/// Timing configuration for RAFT protocol
#[derive(Clone, Copy, Debug)]
pub struct TimingConfig {
    /// Heartbeat interval in milliseconds
    pub heartbeat_interval_ms: u64,
    /// Minimum election timeout in milliseconds
    pub election_timeout_min_ms: u64,
    /// Maximum election timeout in milliseconds
    pub election_timeout_max_ms: u64,
    /// RPC timeout in milliseconds
    pub rpc_timeout_ms: u64,
}

/// Heartbeat interval, in milliseconds, when the configuration names none.
pub fn default_heartbeat_interval() -> (r: u64)
    ensures
        r == 50,
{
    50
}

/// Least election timeout, in milliseconds, when the configuration names none.
pub fn default_election_timeout_min() -> (r: u64)
    ensures
        r == 150,
{
    150
}

/// Greatest election timeout, in milliseconds, when the configuration names none.
pub fn default_election_timeout_max() -> (r: u64)
    ensures
        r == 300,
{
    300
}

/// RPC timeout, in milliseconds, when the configuration names none.
pub fn default_rpc_timeout() -> (r: u64)
    ensures
        r == 1000,
{
    1000
}

impl Default for TimingConfig {
    fn default() -> (r: Self)
        ensures
            r.heartbeat_interval_ms == 50,
            r.election_timeout_min_ms == 150,
            r.election_timeout_max_ms == 300,
            r.rpc_timeout_ms == 1000,
    {
        TimingConfig {
            heartbeat_interval_ms: default_heartbeat_interval(),
            election_timeout_min_ms: default_election_timeout_min(),
            election_timeout_max_ms: default_election_timeout_max(),
            rpc_timeout_ms: default_rpc_timeout(),
        }
    }
}

/// Peer node configuration
#[derive(Clone, Debug)]
pub struct PeerConfig {
    /// Peer's unique identifier
    pub id: String,
    /// Peer's network address
    pub address: String,
}

/// eBPF-specific configuration
#[derive(Clone, Debug)]
pub struct EbpfConfig {
    /// Whether to enable eBPF packet monitoring
    pub enabled: bool,
    /// Network interface to attach to
    pub interface: String,
}

/// Whether packet monitoring is on when the configuration does not say.
pub fn default_ebpf_enabled() -> (r: bool)
    ensures
        r,
{
    true
}

/// The monitored interface when the configuration names none.
pub fn default_interface() -> (r: String)
    ensures
        r@ == "eth0"@,
{
    "eth0".to_owned()
}

impl Default for EbpfConfig {
    fn default() -> (r: Self)
        ensures
            r.enabled,
            r.interface@ == "eth0"@,
    {
        EbpfConfig { enabled: default_ebpf_enabled(), interface: default_interface() }
    }
}

impl Config {
    /// Create a default configuration for testing
    pub fn default_for_testing(node_id: &str, port: u16) -> (r: Self)
        ensures
            r.server.node_id@ == node_id@,
            r.server.listen_addr@ == "127.0.0.1:"@ + decimal(port as nat),
            r.server.data_dir@ == "/tmp/raft-"@ + node_id@,
            r.server.log_level@ == "debug"@,
            r.timing.heartbeat_interval_ms == 50,
            r.timing.election_timeout_min_ms == 150,
            r.timing.election_timeout_max_ms == 300,
            r.timing.rpc_timeout_ms == 1000,
            r.peers@.len() == 0,
            !r.ebpf.enabled,
            r.ebpf.interface@ == "lo"@,
    {
        let mut listen_addr = String::new();
        push_text(&mut listen_addr, "127.0.0.1:");
        push_decimal(&mut listen_addr, port as u128);
        let mut data_dir = String::new();
        push_text(&mut data_dir, "/tmp/raft-");
        push_text(&mut data_dir, node_id);
        assert(listen_addr@ =~= "127.0.0.1:"@ + decimal(port as nat));
        assert(data_dir@ =~= "/tmp/raft-"@ + node_id@);
        Config {
            server: ServerConfig {
                node_id: node_id.to_owned(),
                listen_addr,
                data_dir,
                log_level: "debug".to_owned(),
            },
            timing: TimingConfig::default(),
            peers: Vec::new(),
            ebpf: EbpfConfig { enabled: false, interface: "lo".to_owned() },
        }
    }
}

} // verus!
