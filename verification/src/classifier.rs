//! Classification of packets seen on the monitored interface: which are
//! RAFT traffic, and what the monitor records of them.

use crate::maps::{EbpfStats, PeerMetadata, RaftPacketEvent};
use crate::text::{decimal, push_char, push_decimal};
use std::collections::HashMap;
use vstd::prelude::*;

verus! {

broadcast use vstd::std_specs::hash::group_hash_axioms;

/// Length of an Ethernet header
pub const ETH_HDR_LEN: usize = 14;

/// Length of an IPv4 header without options
pub const IPV4_HDR_LEN: usize = 20;

/// Length of a TCP header without options
pub const TCP_HDR_LEN: usize = 20;

/// The 16-bit number at `at` in `p`, big-endian.
pub open spec fn be16(p: Seq<u8>, at: int) -> nat {
    p[at] as nat * 256 + p[at + 1] as nat
}

/// The 32-bit number at `at` in `p`, big-endian.
pub open spec fn be32(p: Seq<u8>, at: int) -> nat {
    ((p[at] as nat * 256 + p[at + 1] as nat) * 256 + p[at + 2] as nat) * 256 + p[at + 3] as nat
}

/// The four bytes at `at` in `p` kept in packet (network) byte order: the
/// number whose bytes, least significant first, are those four bytes, as a
/// little-endian machine holds them in memory.
pub open spec fn net32(p: Seq<u8>, at: int) -> nat {
    ((p[at + 3] as nat * 256 + p[at + 2] as nat) * 256 + p[at + 1] as nat) * 256 + p[at] as nat
}

/// What the classifier makes of a packet.
#[derive(Debug)]
pub enum Classified {
    /// A header that should be there is cut short
    Malformed,
    /// Not RAFT traffic; passed on unrecorded
    Other,
    /// RAFT traffic, with the event that reports it
    Raft(RaftPacketEvent),
}

/// The offset of the TCP header in an IPv4 packet `p`: after the Ethernet
/// header and as many 4-byte words as the IPv4 header declares.
pub open spec fn tcp_offset(p: Seq<u8>) -> int {
    ETH_HDR_LEN + (p[ETH_HDR_LEN as int] % 16) as int * 4
}

/// What the classifier makes of packet `p` seen at time `ts`: an IPv4 TCP
/// packet to or from the RAFT port is RAFT traffic.
pub open spec fn classify_spec(p: Seq<u8>, ts: u64) -> Classified {
    if p.len() < ETH_HDR_LEN {
        Classified::Malformed
    } else if !(p[12] == 8 && p[13] == 0) {
        Classified::Other
    } else if p.len() < ETH_HDR_LEN + IPV4_HDR_LEN {
        Classified::Malformed
    } else if p[ETH_HDR_LEN + 9] != 6 {
        Classified::Other
    } else if p.len() < tcp_offset(p) + TCP_HDR_LEN {
        Classified::Malformed
    } else {
        let t = tcp_offset(p);
        let src_port = be16(p, t);
        let dst_port = be16(p, t + 2);
        if dst_port != crate::RAFT_PORT && src_port != crate::RAFT_PORT {
            Classified::Other
        } else {
            Classified::Raft(
                RaftPacketEvent {
                    src_ip: net32(p, ETH_HDR_LEN + 12) as u32,
                    dst_ip: net32(p, ETH_HDR_LEN + 16) as u32,
                    src_port: src_port as u16,
                    dst_port: dst_port as u16,
                    timestamp_ns: ts,
                    seq: be32(p, t + 4) as u32,
                    ack: be32(p, t + 8) as u32,
                    flags: (p[t + 13] % 64) as u8,
                    msg_type: 0,
                    _padding: [0u8, 0u8, 0u8, 0u8, 0u8, 0u8],
                },
            )
        }
    }
}

/// The 16-bit number at `at`, big-endian.
fn read_be16(p: &[u8], at: usize) -> (r: u16)
    requires
        at + 2 <= p@.len(),
    ensures
        r as nat == be16(p@, at as int),
{
    (p[at] as u16) * 256 + (p[at + 1] as u16)
}

/// The 32-bit number at `at`, big-endian.
fn read_be32(p: &[u8], at: usize) -> (r: u32)
    requires
        at + 4 <= p@.len(),
    ensures
        r as nat == be32(p@, at as int),
{
    let v: u64 = ((p[at] as u64 * 256 + p[at + 1] as u64) * 256 + p[at + 2] as u64) * 256 + p[at + 3] as u64;
    assert(v < 4294967296) by (nonlinear_arith)
        requires
            v == ((p[at as int] as u64 * 256 + p[at + 1] as u64) * 256 + p[at + 2] as u64) * 256 + p[at + 3] as u64,
            p[at as int] < 256,
            p[at + 1] < 256,
            p[at + 2] < 256,
            p[at + 3] < 256,
    ;
    v as u32
}

/// The four bytes at `at`, kept in packet (network) byte order.
fn read_net32(p: &[u8], at: usize) -> (r: u32)
    requires
        at + 4 <= p@.len(),
    ensures
        r as nat == net32(p@, at as int),
{
    let b0 = p[at] as u64;
    let b1 = p[at + 1] as u64;
    let b2 = p[at + 2] as u64;
    let b3 = p[at + 3] as u64;
    let v: u64 = ((b3 * 256 + b2) * 256 + b1) * 256 + b0;
    assert(v < 4294967296) by (nonlinear_arith)
        requires
            v == ((b3 * 256 + b2) * 256 + b1) * 256 + b0,
            b0 < 256,
            b1 < 256,
            b2 < 256,
            b3 < 256,
    ;
    v as u32
}

/// What the classifier makes of packet `packet`, seen at kernel time
/// `timestamp_ns`
pub fn classify_packet(packet: &[u8], timestamp_ns: u64) -> (r: Classified)
    ensures
        r == classify_spec(packet@, timestamp_ns),
{
    let p = packet;
    if p.len() < ETH_HDR_LEN {
        return Classified::Malformed;
    }
    if !(p[12] == 8 && p[13] == 0) {
        return Classified::Other;
    }
    if p.len() < ETH_HDR_LEN + IPV4_HDR_LEN {
        return Classified::Malformed;
    }
    if p[ETH_HDR_LEN + 9] != 6 {
        return Classified::Other;
    }
    let ipv4_hdr_len: usize = ((p[ETH_HDR_LEN] % 16) as usize) * 4;
    let t: usize = ETH_HDR_LEN + ipv4_hdr_len;
    if p.len() < t + TCP_HDR_LEN {
        return Classified::Malformed;
    }
    let src_port = read_be16(p, t);
    let dst_port = read_be16(p, t + 2);
    if dst_port != crate::RAFT_PORT && src_port != crate::RAFT_PORT {
        return Classified::Other;
    }
    let event = RaftPacketEvent {
        src_ip: read_net32(p, ETH_HDR_LEN + 12),
        dst_ip: read_net32(p, ETH_HDR_LEN + 16),
        src_port,
        dst_port,
        timestamp_ns,
        seq: read_be32(p, t + 4),
        ack: read_be32(p, t + 8),
        flags: p[t + 13] % 64,
        msg_type: 0,
        _padding: [0u8, 0u8, 0u8, 0u8, 0u8, 0u8],
    };
    Classified::Raft(event)
}

/// A counter one higher, wrapping to 0 at its greatest value.
pub open spec fn bumped(c: u64) -> u64 {
    if c == u64::MAX { 0 } else { (c + 1) as u64 }
}

/// The counters after one more packet: every packet is counted, RAFT
/// packets and malformed ones each in their own counter too.
pub open spec fn recorded_stats(stats: EbpfStats, outcome: Classified) -> EbpfStats {
    EbpfStats {
        packets_total: bumped(stats.packets_total),
        raft_packets: if outcome is Raft { bumped(stats.raft_packets) } else { stats.raft_packets },
        errors: if outcome is Malformed { bumped(stats.errors) } else { stats.errors },
    }
}

/// The record of a peer after one more of its packets: a known peer is
/// seen now, with its count one higher and its last sequence number; a new
/// peer starts at one packet.
pub open spec fn updated_peer(existing: Option<PeerMetadata>, timestamp_ns: u64, seq: u32) -> PeerMetadata {
    match existing {
        Some(e) => PeerMetadata {
            last_seen_ns: timestamp_ns,
            packet_count: bumped(e.packet_count),
            last_seq: seq,
            _padding: e._padding,
        },
        None => PeerMetadata { last_seen_ns: timestamp_ns, packet_count: 1, last_seq: seq, _padding: 0 },
    }
}

/// The counters after one more packet: every packet is counted, RAFT
/// packets and malformed ones each in their own counter too; a counter at
/// its greatest value wraps to 0.
pub fn record_packet(stats: EbpfStats, outcome: &Classified) -> (r: EbpfStats)
    ensures
        r == recorded_stats(stats, *outcome),
{
    let packets_total = stats.packets_total.wrapping_add(1);
    let raft_packets = match outcome {
        Classified::Raft(_) => stats.raft_packets.wrapping_add(1),
        _ => stats.raft_packets,
    };
    let errors = match outcome {
        Classified::Malformed => stats.errors.wrapping_add(1),
        _ => stats.errors,
    };
    EbpfStats { packets_total, raft_packets, errors }
}

/// The record of a peer after one more of its packets: a known peer is
/// seen now, with its count one higher (wrapping to 0 at its greatest
/// value) and its last sequence number; a new peer starts at one packet.
pub fn update_peer(existing: Option<PeerMetadata>, timestamp_ns: u64, seq: u32) -> (r: PeerMetadata)
    ensures
        r == updated_peer(existing, timestamp_ns, seq),
{
    match existing {
        Some(e) => PeerMetadata {
            last_seen_ns: timestamp_ns,
            packet_count: e.packet_count.wrapping_add(1),
            last_seq: seq,
            _padding: e._padding,
        },
        None => PeerMetadata { last_seen_ns: timestamp_ns, packet_count: 1, last_seq: seq, _padding: 0 },
    }
}

/// What the monitor keeps: its counters, and a record per peer keyed by
/// the peer's source address (network byte order).
pub struct Monitor {
    pub stats: EbpfStats,
    pub peers: HashMap<u32, PeerMetadata>,
}

impl Monitor {
    /// A monitor that has seen no packet
    pub fn new() -> (r: Self)
        ensures
            r.stats == (EbpfStats { packets_total: 0, raft_packets: 0, errors: 0 }),
            r.peers@ == Map::<u32, PeerMetadata>::empty(),
    {
        Monitor { stats: EbpfStats { packets_total: 0, raft_packets: 0, errors: 0 }, peers: HashMap::new() }
    }
}

/// Main packet classification logic: classify one packet and record it in
/// `monitor`. Every packet is counted; a RAFT packet is counted as such and
/// updates the record of its source address; a malformed one is counted as
/// an error; what is returned is the classification, with the one event
/// that reports a RAFT packet.
pub fn try_classify_raft(monitor: &mut Monitor, packet: &[u8], timestamp_ns: u64) -> (r: Classified)
    ensures
        r == classify_spec(packet@, timestamp_ns),
        final(monitor).stats == recorded_stats(old(monitor).stats, r),
        match r {
            Classified::Raft(e) => final(monitor).peers@ == old(monitor).peers@.insert(
                e.src_ip,
                updated_peer(
                    if old(monitor).peers@.contains_key(e.src_ip) {
                        Some(old(monitor).peers@[e.src_ip])
                    } else {
                        None
                    },
                    timestamp_ns,
                    e.seq,
                ),
            ),
            _ => final(monitor).peers@ == old(monitor).peers@,
        },
{
    let outcome = classify_packet(packet, timestamp_ns);
    monitor.stats = record_packet(monitor.stats, &outcome);
    match &outcome {
        Classified::Raft(e) => {
            let existing = match monitor.peers.get(&e.src_ip) {
                Some(m) => Some(*m),
                None => None,
            };
            let updated = update_peer(existing, timestamp_ns, e.seq);
            monitor.peers.insert(e.src_ip, updated);
        },
        _ => {},
    }
    outcome
}

/// The dotted form of an IPv4 address: its four bytes, most significant
/// first, in decimal, separated by dots.
pub open spec fn dotted(ip: u32) -> Seq<char> {
    decimal((ip / 16777216) as nat) + seq!['.'] + decimal(((ip / 65536) % 256) as nat) + seq!['.'] + decimal(
        ((ip / 256) % 256) as nat,
    ) + seq!['.'] + decimal((ip % 256) as nat)
}

/// Utility to format IP address from u32
pub fn ip_to_string(ip: u32) -> (r: String)
    ensures
        r@ == dotted(ip),
{
    let mut s = String::new();
    push_decimal(&mut s, (ip / 16777216) as u128);
    push_char(&mut s, '.');
    push_decimal(&mut s, ((ip / 65536) % 256) as u128);
    push_char(&mut s, '.');
    push_decimal(&mut s, ((ip / 256) % 256) as u128);
    push_char(&mut s, '.');
    push_decimal(&mut s, (ip % 256) as u128);
    assert(s@ =~= dotted(ip));
    s
}


/// The offset of the TCP header, read from the packet's IPv4 header length.
pub open spec fn tcp_start(p: Seq<u8>) -> int {
    14 + (p[14] % 16) as int * 4
}

/// Whether `p` is an Ethernet frame with an IPv4 TCP packet whose headers
/// are all there.
pub open spec fn complete_ipv4_tcp(p: Seq<u8>) -> bool {
    &&& p.len() >= 34
    &&& p[12] == 8 && p[13] == 0
    &&& p[23] == 6
    &&& tcp_start(p) + 20 <= p.len()
}

/// A packet to or from the RAFT port is RAFT traffic: an IPv4 TCP packet
/// with complete headers whose source port or destination port is 5555 is
/// classified as RAFT, its event carrying both ports as the packet gives
/// them.
pub proof fn law_raft_port_at_either_end(p: Seq<u8>, ts: u64, r: Classified)
    requires
        r == classify_spec(p, ts),
        complete_ipv4_tcp(p),
        p[tcp_start(p)] as int * 256 + p[tcp_start(p) + 1] as int == 5555 || p[tcp_start(p) + 2] as int * 256
            + p[tcp_start(p) + 3] as int == 5555,
    ensures
        r matches Classified::Raft(e) && e.src_port == p[tcp_start(p)] as int * 256 + p[tcp_start(p) + 1] as int
            && e.dst_port == p[tcp_start(p) + 2] as int * 256 + p[tcp_start(p) + 3] as int && e.timestamp_ns == ts,
{
}

/// A packet on neither end of the RAFT port is not RAFT traffic: an IPv4
/// TCP packet with complete headers whose ports are both other than 5555
/// is passed on as other traffic.
pub proof fn law_other_ports_are_other(p: Seq<u8>, ts: u64, r: Classified)
    requires
        r == classify_spec(p, ts),
        complete_ipv4_tcp(p),
        p[tcp_start(p)] as int * 256 + p[tcp_start(p) + 1] as int != 5555,
        p[tcp_start(p) + 2] as int * 256 + p[tcp_start(p) + 3] as int != 5555,
    ensures
        r matches Classified::Other,
{
}

/// A RAFT packet is counted as such and recorded for its source, whatever
/// port it leaves from: after `try_classify_raft` records an IPv4 TCP packet
/// with complete headers from the RAFT port, the RAFT counter is one higher
/// (wrapping) and the packet's source has a record.
pub proof fn law_raft_packets_are_counted(
    before: Monitor,
    after: Monitor,
    p: Seq<u8>,
    ts: u64,
    r: Classified,
)
    requires
        r == classify_spec(p, ts),
        after.stats == recorded_stats(before.stats, r),
        r matches Classified::Raft(e) ==> after.peers@.contains_key(e.src_ip),
        complete_ipv4_tcp(p),
        p[tcp_start(p)] as int * 256 + p[tcp_start(p) + 1] as int == 5555,
    ensures
        after.stats.raft_packets == (if before.stats.raft_packets == u64::MAX {
            0
        } else {
            (before.stats.raft_packets + 1) as u64
        }),
        r matches Classified::Raft(e) && after.peers@.contains_key(e.src_ip),
{
}

} // verus!
