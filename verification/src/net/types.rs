//! What the parser reads and writes for each packet.

use vstd::prelude::*;

verus! {

/// Address family of an address or a packet.
#[derive(Clone, Copy, PartialEq, Eq, Structural, Debug)]
pub enum Family {
    Unspecified,
    Ipv4,
    Ipv6,
}

/// Why a packet was dropped.
#[derive(Clone, Copy, PartialEq, Eq, Structural, Debug)]
pub enum DropReason {
    NotDropped,
    MalformedArp,
    MalformedIpv4,
    Ipv4Checksum,
    MalformedIpv6,
    Ipv6ExtensionLimit,
    UnsupportedIpProtocol,
    NotLocal,
    MalformedTcp,
    TcpChecksum,
    MalformedUdp,
    UdpChecksum,
}

/// What the Ethernet header said.
#[derive(Clone, Copy, PartialEq, Eq, Structural, Debug)]
pub enum EthernetStatus {
    Empty,
    Accepted,
    Truncated,
    VlanUnsupported,
    Unsupported,
}

/// What became of a packet at the network layer.
#[derive(Clone, Copy, PartialEq, Eq, Structural, Debug)]
pub enum NetworkOutcome {
    Empty,
    Skipped,
    Drop,
    Arp,
    Ip,
}

/// What became of a packet at the transport layer.
#[derive(Clone, Copy, PartialEq, Eq, Structural, Debug)]
pub enum TransportOutcome {
    Empty,
    Skipped,
    Drop,
    Tcp,
    Udp,
    Icmp,
    Raw,
}

/// Network-layer flags.
#[derive(Clone, Copy, PartialEq, Eq, Structural, Debug)]
pub struct NetworkFlags {
    pub fragment: bool,
    pub more_fragments: bool,
    pub ipv6_problem: bool,
    pub suppress_multicast: bool,
}

/// An address of one of the host's interfaces.
#[derive(Clone, Copy, Debug)]
pub struct NetStackLocalAddress {
    pub interface: u32,
    pub family: Family,
    pub prefix_len: u8,
    pub address: [u8; 16],
    pub reserved0: [u8; 2],
    pub reserved1: [u8; 8],
}

/// What the device said about one received packet.
#[derive(Clone, Copy, PartialEq, Eq, Structural, Debug)]
pub struct NetStackPacketInput {
    pub present: u8,
    pub checksums_validated: u8,
    pub rss_hash_present: u8,
    pub reserved: u8,
    pub frame_len: u32,
    pub rss_hash: u32,
    pub rss_generation: u32,
}

/// The Ethernet header of one packet.
#[derive(Clone, Copy, Debug)]
pub struct NetStackEthernet {
    pub destination: [u8; 6],
    pub source: [u8; 6],
    pub ethertype: u16,
    pub status: EthernetStatus,
}

/// The network header of one packet.
#[derive(Clone, Copy, Debug)]
pub struct NetStackNetwork {
    pub outcome: NetworkOutcome,
    pub family: Family,
    pub next_header: u8,
    pub flags: NetworkFlags,
    pub drop_reason: DropReason,
    pub traffic_class: u8,
    pub hop_limit: u8,
    pub header_len: u16,
    pub payload_offset: u16,
    pub fragment_offset: u16,
    pub arp_operation: u16,
    pub payload_len: u32,
    pub fragment_identification: u32,
    pub problem_pointer: u32,
    pub source: [u8; 16],
    pub destination: [u8; 16],
    pub arp_sender_mac: [u8; 6],
    pub arp_target_mac: [u8; 6],
}

/// The TCP options of one segment.
#[derive(Clone, Copy, Debug)]
pub struct NetStackTcpOptions {
    pub has_mss: bool,
    pub has_window_scale: bool,
    pub sack_permitted: bool,
    pub has_timestamp: bool,
    pub window_scale: u8,
    pub sack_count: u8,
    pub maximum_segment_size: u16,
    pub sack_left: [u32; 4],
    pub sack_right: [u32; 4],
    pub timestamp_value: u32,
    pub timestamp_echo_reply: u32,
}

/// The transport header of one packet.
#[derive(Clone, Copy, Debug)]
pub struct NetStackTransport {
    pub outcome: TransportOutcome,
    pub protocol: u8,
    pub drop_reason: DropReason,
    pub source_port: u16,
    pub destination_port: u16,
    pub header_len: u16,
    pub payload_offset: u16,
    pub tcp_flags: u16,
    pub tcp_window: u16,
    pub tcp_urgent_pointer: u16,
    pub payload_len: u32,
    pub rss_hash: u32,
    pub tcp_sequence: u32,
    pub tcp_acknowledgement: u32,
    pub tcp_options: NetStackTcpOptions,
}

/// Model of [`NetStackEthernet`].
pub ghost struct EthernetModel {
    pub destination: Seq<u8>,
    pub source: Seq<u8>,
    pub ethertype: u16,
    pub status: EthernetStatus,
}

/// Model of [`NetStackNetwork`].
pub ghost struct NetworkModel {
    pub outcome: NetworkOutcome,
    pub family: Family,
    pub next_header: u8,
    pub flags: NetworkFlags,
    pub drop_reason: DropReason,
    pub traffic_class: u8,
    pub hop_limit: u8,
    pub header_len: u16,
    pub payload_offset: u16,
    pub fragment_offset: u16,
    pub arp_operation: u16,
    pub payload_len: u32,
    pub fragment_identification: u32,
    pub problem_pointer: u32,
    pub source: Seq<u8>,
    pub destination: Seq<u8>,
    pub arp_sender_mac: Seq<u8>,
    pub arp_target_mac: Seq<u8>,
}

/// Model of [`NetStackTcpOptions`].
pub ghost struct TcpOptionsModel {
    pub has_mss: bool,
    pub has_window_scale: bool,
    pub sack_permitted: bool,
    pub has_timestamp: bool,
    pub window_scale: u8,
    pub sack_count: u8,
    pub maximum_segment_size: u16,
    pub sack_left: Seq<u32>,
    pub sack_right: Seq<u32>,
    pub timestamp_value: u32,
    pub timestamp_echo_reply: u32,
}

/// Model of [`NetStackTransport`].
pub ghost struct TransportModel {
    pub outcome: TransportOutcome,
    pub protocol: u8,
    pub drop_reason: DropReason,
    pub source_port: u16,
    pub destination_port: u16,
    pub header_len: u16,
    pub payload_offset: u16,
    pub tcp_flags: u16,
    pub tcp_window: u16,
    pub tcp_urgent_pointer: u16,
    pub payload_len: u32,
    pub rss_hash: u32,
    pub tcp_sequence: u32,
    pub tcp_acknowledgement: u32,
    pub tcp_options: TcpOptionsModel,
}

impl View for NetStackEthernet {
    type V = EthernetModel;

    open spec fn view(&self) -> EthernetModel {
        EthernetModel {
            destination: self.destination@,
            source: self.source@,
            ethertype: self.ethertype,
            status: self.status,
        }
    }
}

impl View for NetStackNetwork {
    type V = NetworkModel;

    open spec fn view(&self) -> NetworkModel {
        NetworkModel {
            outcome: self.outcome,
            family: self.family,
            next_header: self.next_header,
            flags: self.flags,
            drop_reason: self.drop_reason,
            traffic_class: self.traffic_class,
            hop_limit: self.hop_limit,
            header_len: self.header_len,
            payload_offset: self.payload_offset,
            fragment_offset: self.fragment_offset,
            arp_operation: self.arp_operation,
            payload_len: self.payload_len,
            fragment_identification: self.fragment_identification,
            problem_pointer: self.problem_pointer,
            source: self.source@,
            destination: self.destination@,
            arp_sender_mac: self.arp_sender_mac@,
            arp_target_mac: self.arp_target_mac@,
        }
    }
}

impl View for NetStackTcpOptions {
    type V = TcpOptionsModel;

    open spec fn view(&self) -> TcpOptionsModel {
        TcpOptionsModel {
            has_mss: self.has_mss,
            has_window_scale: self.has_window_scale,
            sack_permitted: self.sack_permitted,
            has_timestamp: self.has_timestamp,
            window_scale: self.window_scale,
            sack_count: self.sack_count,
            maximum_segment_size: self.maximum_segment_size,
            sack_left: self.sack_left@,
            sack_right: self.sack_right@,
            timestamp_value: self.timestamp_value,
            timestamp_echo_reply: self.timestamp_echo_reply,
        }
    }
}

impl View for NetStackTransport {
    type V = TransportModel;

    open spec fn view(&self) -> TransportModel {
        TransportModel {
            outcome: self.outcome,
            protocol: self.protocol,
            drop_reason: self.drop_reason,
            source_port: self.source_port,
            destination_port: self.destination_port,
            header_len: self.header_len,
            payload_offset: self.payload_offset,
            tcp_flags: self.tcp_flags,
            tcp_window: self.tcp_window,
            tcp_urgent_pointer: self.tcp_urgent_pointer,
            payload_len: self.payload_len,
            rss_hash: self.rss_hash,
            tcp_sequence: self.tcp_sequence,
            tcp_acknowledgement: self.tcp_acknowledgement,
            tcp_options: self.tcp_options@,
        }
    }
}

/// `n` zero bytes.
pub open spec fn zeros(n: nat) -> Seq<u8> {
    Seq::new(n, |i: int| 0u8)
}

/// No network-layer flag.
pub open spec fn no_flags() -> NetworkFlags {
    NetworkFlags {
        fragment: false,
        more_fragments: false,
        ipv6_problem: false,
        suppress_multicast: false,
    }
}

/// An Ethernet slot that nothing was written to yet.
pub open spec fn ethernet_blank() -> EthernetModel {
    EthernetModel {
        destination: zeros(6),
        source: zeros(6),
        ethertype: 0,
        status: EthernetStatus::Empty,
    }
}

/// A network slot that nothing was written to yet.
pub open spec fn network_blank() -> NetworkModel {
    NetworkModel {
        outcome: NetworkOutcome::Empty,
        family: Family::Unspecified,
        next_header: 0,
        flags: no_flags(),
        drop_reason: DropReason::NotDropped,
        traffic_class: 0,
        hop_limit: 0,
        header_len: 0,
        payload_offset: 0,
        fragment_offset: 0,
        arp_operation: 0,
        payload_len: 0,
        fragment_identification: 0,
        problem_pointer: 0,
        source: zeros(16),
        destination: zeros(16),
        arp_sender_mac: zeros(6),
        arp_target_mac: zeros(6),
    }
}

/// A packet that the network layer dropped.
pub open spec fn network_dropped(reason: DropReason) -> NetworkModel {
    NetworkModel { outcome: NetworkOutcome::Drop, drop_reason: reason, ..network_blank() }
}

/// A segment without TCP options.
pub open spec fn tcp_options_blank() -> TcpOptionsModel {
    TcpOptionsModel {
        has_mss: false,
        has_window_scale: false,
        sack_permitted: false,
        has_timestamp: false,
        window_scale: 0,
        sack_count: 0,
        maximum_segment_size: 0,
        sack_left: Seq::new(4, |i: int| 0u32),
        sack_right: Seq::new(4, |i: int| 0u32),
        timestamp_value: 0,
        timestamp_echo_reply: 0,
    }
}

/// A transport slot that nothing was written to yet.
pub open spec fn transport_blank() -> TransportModel {
    TransportModel {
        outcome: TransportOutcome::Empty,
        protocol: 0,
        drop_reason: DropReason::NotDropped,
        source_port: 0,
        destination_port: 0,
        header_len: 0,
        payload_offset: 0,
        tcp_flags: 0,
        tcp_window: 0,
        tcp_urgent_pointer: 0,
        payload_len: 0,
        rss_hash: 0,
        tcp_sequence: 0,
        tcp_acknowledgement: 0,
        tcp_options: tcp_options_blank(),
    }
}

/// A packet that the transport layer dropped.
pub open spec fn transport_dropped(reason: DropReason) -> TransportModel {
    TransportModel { outcome: TransportOutcome::Drop, drop_reason: reason, ..transport_blank() }
}

/// A packet that the transport layer did not look at.
pub open spec fn transport_not_parsed() -> TransportModel {
    TransportModel { outcome: TransportOutcome::Skipped, ..transport_blank() }
}

/// A fresh Ethernet slot.
pub fn empty_ethernet() -> (slot: NetStackEthernet)
    ensures
        slot@ == ethernet_blank(),
{
    let slot = NetStackEthernet {
        destination: [0u8; 6],
        source: [0u8; 6],
        ethertype: 0,
        status: EthernetStatus::Empty,
    };
    assert(slot@.destination =~= zeros(6));
    assert(slot@.source =~= zeros(6));
    slot
}

/// Whether every one of the bytes is zero.
pub fn all_zero(bytes: &[u8]) -> (zero: bool)
    ensures
        zero == (forall|i: int| 0 <= i < bytes@.len() ==> bytes@[i] == 0),
{
    let mut i: usize = 0;
    while i < bytes.len()
        invariant
            i <= bytes@.len(),
            forall|j: int| 0 <= j < i ==> bytes@[j] == 0,
        decreases bytes@.len() - i,
    {
        if bytes[i] != 0 {
            return false;
        }
        i += 1;
    }
    true
}

/// Whether nothing was written to an Ethernet slot yet.
pub fn ethernet_is_empty(sidecar: &NetStackEthernet) -> (empty: bool)
    ensures
        empty == (sidecar@ == ethernet_blank()),
{
    let empty = all_zero(&sidecar.destination) && all_zero(&sidecar.source) && sidecar.ethertype
        == 0 && sidecar.status == EthernetStatus::Empty;
    proof {
        if empty {
            assert(sidecar@.destination =~= zeros(6));
            assert(sidecar@.source =~= zeros(6));
        } else if sidecar@ == ethernet_blank() {
            assert forall|j: int| 0 <= j < 6 implies sidecar.destination@[j] == 0
                && sidecar.source@[j] == 0 by {
                assert(zeros(6)[j] == 0);
            }
        }
    }
    empty
}

/// A fresh network slot.
pub fn empty_network() -> (slot: NetStackNetwork)
    ensures
        slot@ == network_blank(),
{
    let slot = NetStackNetwork {
        outcome: NetworkOutcome::Empty,
        family: Family::Unspecified,
        next_header: 0,
        flags: NetworkFlags {
            fragment: false,
            more_fragments: false,
            ipv6_problem: false,
            suppress_multicast: false,
        },
        drop_reason: DropReason::NotDropped,
        traffic_class: 0,
        hop_limit: 0,
        header_len: 0,
        payload_offset: 0,
        fragment_offset: 0,
        arp_operation: 0,
        payload_len: 0,
        fragment_identification: 0,
        problem_pointer: 0,
        source: [0u8; 16],
        destination: [0u8; 16],
        arp_sender_mac: [0u8; 6],
        arp_target_mac: [0u8; 6],
    };
    assert(slot@.source =~= zeros(16));
    assert(slot@.destination =~= zeros(16));
    assert(slot@.arp_sender_mac =~= zeros(6));
    assert(slot@.arp_target_mac =~= zeros(6));
    slot
}

/// Whether nothing was written to a network slot yet.
pub fn network_is_empty(sidecar: &NetStackNetwork) -> (empty: bool)
    ensures
        empty == (sidecar@ == network_blank()),
{
    let numbers = sidecar.next_header == 0 && sidecar.traffic_class == 0 && sidecar.hop_limit == 0
        && sidecar.header_len == 0 && sidecar.payload_offset == 0 && sidecar.fragment_offset == 0
        && sidecar.arp_operation == 0 && sidecar.payload_len == 0
        && sidecar.fragment_identification == 0 && sidecar.problem_pointer == 0;
    let flags = !sidecar.flags.fragment && !sidecar.flags.more_fragments
        && !sidecar.flags.ipv6_problem && !sidecar.flags.suppress_multicast;
    let labels = sidecar.outcome == NetworkOutcome::Empty && sidecar.family == Family::Unspecified
        && sidecar.drop_reason == DropReason::NotDropped;
    let addresses = all_zero(&sidecar.source) && all_zero(&sidecar.destination) && all_zero(
        &sidecar.arp_sender_mac,
    ) && all_zero(&sidecar.arp_target_mac);
    let empty = numbers && flags && labels && addresses;
    proof {
        if empty {
            assert(sidecar@.source =~= zeros(16));
            assert(sidecar@.destination =~= zeros(16));
            assert(sidecar@.arp_sender_mac =~= zeros(6));
            assert(sidecar@.arp_target_mac =~= zeros(6));
        } else if sidecar@ == network_blank() {
            assert forall|j: int| 0 <= j < 16 implies sidecar.source@[j] == 0
                && sidecar.destination@[j] == 0 by {
                assert(zeros(16)[j] == 0);
            }
            assert forall|j: int| 0 <= j < 6 implies sidecar.arp_sender_mac@[j] == 0
                && sidecar.arp_target_mac@[j] == 0 by {
                assert(zeros(6)[j] == 0);
            }
        }
    }
    empty
}

/// The record of a packet that the network layer drops.
pub fn network_drop(reason: DropReason) -> (slot: NetStackNetwork)
    ensures
        slot@ == network_dropped(reason),
{
    NetStackNetwork { outcome: NetworkOutcome::Drop, drop_reason: reason, ..empty_network() }
}

/// A segment without options.
pub fn empty_tcp_options() -> (options: NetStackTcpOptions)
    ensures
        options@ == tcp_options_blank(),
{
    let options = NetStackTcpOptions {
        has_mss: false,
        has_window_scale: false,
        sack_permitted: false,
        has_timestamp: false,
        window_scale: 0,
        sack_count: 0,
        maximum_segment_size: 0,
        sack_left: [0u32; 4],
        sack_right: [0u32; 4],
        timestamp_value: 0,
        timestamp_echo_reply: 0,
    };
    assert(options@.sack_left =~= tcp_options_blank().sack_left);
    assert(options@.sack_right =~= tcp_options_blank().sack_right);
    options
}

/// A fresh transport slot.
pub fn empty_transport() -> (slot: NetStackTransport)
    ensures
        slot@ == transport_blank(),
{
    NetStackTransport {
        outcome: TransportOutcome::Empty,
        protocol: 0,
        drop_reason: DropReason::NotDropped,
        source_port: 0,
        destination_port: 0,
        header_len: 0,
        payload_offset: 0,
        tcp_flags: 0,
        tcp_window: 0,
        tcp_urgent_pointer: 0,
        payload_len: 0,
        rss_hash: 0,
        tcp_sequence: 0,
        tcp_acknowledgement: 0,
        tcp_options: empty_tcp_options(),
    }
}

/// Whether nothing was written to a transport slot yet.
pub fn transport_is_empty(sidecar: &NetStackTransport) -> (empty: bool)
    ensures
        empty == (sidecar@ == transport_blank()),
{
    let o = &sidecar.tcp_options;
    let options = !o.has_mss && !o.has_window_scale && !o.sack_permitted && !o.has_timestamp
        && o.window_scale == 0 && o.sack_count == 0 && o.maximum_segment_size == 0
        && o.timestamp_value == 0 && o.timestamp_echo_reply == 0 && o.sack_left[0] == 0
        && o.sack_left[1] == 0 && o.sack_left[2] == 0 && o.sack_left[3] == 0 && o.sack_right[0] == 0
        && o.sack_right[1] == 0 && o.sack_right[2] == 0 && o.sack_right[3] == 0;
    let numbers = sidecar.protocol == 0 && sidecar.source_port == 0 && sidecar.destination_port == 0
        && sidecar.header_len == 0 && sidecar.payload_offset == 0 && sidecar.tcp_flags == 0
        && sidecar.tcp_window == 0 && sidecar.tcp_urgent_pointer == 0 && sidecar.payload_len == 0
        && sidecar.rss_hash == 0 && sidecar.tcp_sequence == 0 && sidecar.tcp_acknowledgement == 0;
    let labels = sidecar.outcome == TransportOutcome::Empty && sidecar.drop_reason
        == DropReason::NotDropped;
    let empty = options && numbers && labels;
    proof {
        let blank = tcp_options_blank();
        if empty {
            assert(o@.sack_left =~= blank.sack_left);
            assert(o@.sack_right =~= blank.sack_right);
        } else if sidecar@ == transport_blank() {
            assert(o.sack_left@ == blank.sack_left && o.sack_right@ == blank.sack_right);
            assert(blank.sack_left[0] == 0 && blank.sack_left[1] == 0 && blank.sack_left[2] == 0
                && blank.sack_left[3] == 0);
            assert(blank.sack_right[0] == 0 && blank.sack_right[1] == 0 && blank.sack_right[2] == 0
                && blank.sack_right[3] == 0);
        }
    }
    empty
}

/// The record of a packet that the transport layer does not look at.
pub fn transport_skipped() -> (slot: NetStackTransport)
    ensures
        slot@ == transport_not_parsed(),
{
    NetStackTransport { outcome: TransportOutcome::Skipped, ..empty_transport() }
}

/// The record of a packet that the transport layer drops.
pub fn transport_drop(reason: DropReason) -> (slot: NetStackTransport)
    ensures
        slot@ == transport_dropped(reason),
{
    NetStackTransport { outcome: TransportOutcome::Drop, drop_reason: reason, ..empty_transport() }
}

} // verus!
