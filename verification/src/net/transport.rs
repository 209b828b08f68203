//! TCP, UDP and ICMP headers.

use vstd::prelude::*;
use crate::bytes;
use crate::bytes::{be16, be32, push_be16, push_be32, push_range};
use crate::net::checksum;
use crate::net::checksum::InternetChecksum;
use crate::net::flow;
use crate::net::flow::toeplitz;
use crate::net::tcp;
use crate::net::tcp::parse_tcp_options;
use crate::net::types;
use crate::net::types::{
    DropReason, Family, NetStackNetwork, NetStackPacketInput, NetStackTransport, NetworkModel,
    NetworkOutcome, TcpOptionsModel, TransportModel, TransportOutcome, empty_transport,
    transport_drop, transport_skipped,
};

verus! {

/// The pseudo header that a transport checksum begins with.
pub open spec fn pseudo_header(network: NetworkModel, protocol: u8, len: int) -> Seq<u8> {
    if network.family == Family::Ipv4 {
        network.source.subrange(0, 4) + network.destination.subrange(0, 4) + seq![0u8, protocol]
            + bytes::be16_bytes(len as u16)
    } else {
        network.source + network.destination + bytes::be32_bytes(len as u32) + seq![
            0u8,
            0u8,
            0u8,
            protocol,
        ]
    }
}

/// Whether the `len` bytes from `offset` on are there.
pub open spec fn range_present(frame: Seq<u8>, offset: int, len: int) -> bool {
    len == 0 || offset + len <= frame.len()
}

/// Whether the pseudo header and the `len` payload bytes carry a right
/// checksum.
pub open spec fn transport_checksum_ok(
    frame: Seq<u8>,
    network: NetworkModel,
    protocol: u8,
    len: int,
) -> bool {
    let at = network.payload_offset as int;
    &&& network.family == Family::Ipv4 ==> len <= 0xffff
    &&& network.family == Family::Ipv6 ==> len <= 0xffff_ffff
    &&& network.family != Family::Unspecified
    &&& range_present(frame, at, len)
    &&& checksum::checksum_of(
        pseudo_header(network, protocol, len) + (if len == 0 {
            Seq::empty()
        } else {
            frame.subrange(at, at + len)
        }),
    ) == 0
}

/// Adds `len` bytes of the frame to a checksum; `false` if they are not all
/// there.
pub fn checksum_packet_range(
    frame: &[u8],
    offset: usize,
    len: usize,
    sum: &mut InternetChecksum,
) -> (present: bool)
    requires
        old(sum).wf(),
        old(sum).fed().len() + len <= 0xffff_ffff_ffff,
    ensures
        present == range_present(frame@, offset as int, len as int),
        final(sum).wf(),
        present ==> final(sum).fed() == old(sum).fed() + (if len == 0 {
            Seq::empty()
        } else {
            frame@.subrange(offset as int, offset + len)
        }),
        !present ==> final(sum).fed() == old(sum).fed(),
{
    if len == 0 {
        assert(sum.fed() + Seq::<u8>::empty() =~= sum.fed());
        return true;
    }
    if frame.len() < len || frame.len() - len < offset {
        return false;
    }
    sum.add(vstd::slice::slice_subrange(frame, offset, offset + len));
    true
}

/// Whether the transport checksum of the packet is right.
pub fn transport_checksum_valid(
    frame: &[u8],
    network: &NetStackNetwork,
    protocol: u8,
    len: usize,
) -> (valid: bool)
    requires
        len <= 0xffff_ffff,
    ensures
        valid == transport_checksum_ok(frame@, network@, protocol, len as int),
{
    let mut header: Vec<u8> = Vec::new();
    match network.family {
        Family::Ipv4 => {
            if len > 0xffff {
                return false;
            }
            push_range(&mut header, &network.source, 0, 4);
            push_range(&mut header, &network.destination, 0, 4);
            header.push(0);
            header.push(protocol);
            push_be16(&mut header, len as u16);
        },
        Family::Ipv6 => {
            push_range(&mut header, &network.source, 0, 16);
            push_range(&mut header, &network.destination, 0, 16);
            push_be32(&mut header, len as u32);
            header.push(0);
            header.push(0);
            header.push(0);
            header.push(protocol);
            assert(network.source@.subrange(0, 16) =~= network.source@);
            assert(network.destination@.subrange(0, 16) =~= network.destination@);
        },
        Family::Unspecified => {
            return false;
        },
    }
    assert(header@ =~= pseudo_header(network@, protocol, len as int));
    let mut sum = InternetChecksum::new();
    sum.add(header.as_slice());
    assert(Seq::<u8>::empty() + header@ =~= header@);
    checksum_packet_range(frame, network.payload_offset as usize, len, &mut sum) && sum.finish() == 0
}

/// The payload of a packet, as far as its header claims one.
pub open spec fn payload_of(frame: Seq<u8>, network: NetworkModel) -> Seq<u8> {
    let at = network.payload_offset as int;
    if network.payload_len == 0 {
        Seq::empty()
    } else {
        frame.subrange(at, at + network.payload_len)
    }
}

/// Whether the frame holds the whole payload that the header claims.
pub open spec fn payload_present(frame: Seq<u8>, network: NetworkModel) -> bool {
    range_present(frame, network.payload_offset as int, network.payload_len as int)
}

/// Whether the pseudo header and the whole payload carry a right checksum.
pub open spec fn whole_checksum_ok(frame: Seq<u8>, network: NetworkModel, protocol: u8) -> bool {
    transport_checksum_ok(frame, network, protocol, network.payload_len as int)
}

fn whole_checksum_valid(frame: &[u8], network: &NetStackNetwork, protocol: u8) -> (valid: bool)
    ensures
        valid == whole_checksum_ok(frame@, network@, protocol),
{
    transport_checksum_valid(frame, network, protocol, network.payload_len as usize)
}

fn payload_checksum_valid(frame: &[u8], network: &NetStackNetwork) -> (valid: bool)
    ensures
        valid == (payload_present(frame@, network@) && checksum::checksum_of(
            payload_of(frame@, network@),
        ) == 0),
{
    let mut sum = InternetChecksum::new();
    if !checksum_packet_range(
        frame,
        network.payload_offset as usize,
        network.payload_len as usize,
        &mut sum,
    ) {
        return false;
    }
    assert(Seq::<u8>::empty() + payload_of(frame@, network@) =~= payload_of(frame@, network@));
    sum.finish() == 0
}

/// Whether the ICMP message of an IPv4 packet carries a right checksum.
pub open spec fn icmpv4_checksum_ok(frame: Seq<u8>, network: NetworkModel) -> bool {
    payload_present(frame, network) && checksum::checksum_of(payload_of(frame, network)) == 0
}

/// Whether the ICMP checksum of an IPv4 packet is right.
pub fn icmpv4_checksum_valid(frame: &[u8], network: &NetStackNetwork) -> (valid: bool)
    ensures
        valid == icmpv4_checksum_ok(frame@, network@),
{
    payload_checksum_valid(frame, network)
}

/// The bytes that the flow hash of a packet covers.
pub open spec fn flow_key(network: NetworkModel, source_port: u16, destination_port: u16) -> Seq<u8> {
    let addresses = if network.family == Family::Ipv4 {
        network.source.subrange(0, 4) + network.destination.subrange(0, 4)
    } else {
        network.source + network.destination
    };
    addresses + bytes::be16_bytes(source_port) + bytes::be16_bytes(destination_port)
}

/// The flow hash: the device's, where it was made with the key in force, else
/// the Toeplitz hash of addresses and ports. There is none for port zero or an
/// unknown family.
pub open spec fn flow_hash_of(
    rss_key: Seq<u8>,
    rss_generation: u32,
    facts: NetStackPacketInput,
    network: NetworkModel,
    source_port: u16,
    destination_port: u16,
) -> Option<u32> {
    if destination_port == 0 {
        None
    } else if facts.rss_hash_present != 0 && facts.rss_generation == rss_generation {
        Some(facts.rss_hash)
    } else if network.family == Family::Unspecified {
        None
    } else {
        Some(flow::toeplitz_of(rss_key, flow_key(network, source_port, destination_port)))
    }
}

/// Computes the flow hash of a packet.
pub fn flow_hash(
    rss_key: &[u8; 40],
    rss_generation: u32,
    facts: NetStackPacketInput,
    network: &NetStackNetwork,
    source_port: u16,
    destination_port: u16,
) -> (hash: Option<u32>)
    ensures
        hash == flow_hash_of(
            rss_key@,
            rss_generation,
            facts,
            network@,
            source_port,
            destination_port,
        ),
{
    if destination_port == 0 {
        return None;
    }
    if facts.rss_hash_present != 0 && facts.rss_generation == rss_generation {
        return Some(facts.rss_hash);
    }
    let mut input: Vec<u8> = Vec::new();
    match network.family {
        Family::Ipv4 => {
            push_range(&mut input, &network.source, 0, 4);
            push_range(&mut input, &network.destination, 0, 4);
        },
        Family::Ipv6 => {
            push_range(&mut input, &network.source, 0, 16);
            push_range(&mut input, &network.destination, 0, 16);
            assert(network.source@.subrange(0, 16) =~= network.source@);
            assert(network.destination@.subrange(0, 16) =~= network.destination@);
        },
        Family::Unspecified => {
            return None;
        },
    }
    push_be16(&mut input, source_port);
    push_be16(&mut input, destination_port);
    assert(input@ =~= flow_key(network@, source_port, destination_port));
    Some(toeplitz(rss_key, input.as_slice()))
}

/// The record of a TCP segment.
pub open spec fn tcp_record(
    frame: Seq<u8>,
    network: NetworkModel,
    facts: NetStackPacketInput,
    rss_key: Seq<u8>,
    rss_generation: u32,
) -> TransportModel {
    let at = network.payload_offset as int;
    let header_len = frame[at + 12] / 16 * 4;
    let options = tcp::tcp_options_of(frame, at + 20, header_len as int);
    let source_port = bytes::be16_at(frame, at);
    let destination_port = bytes::be16_at(frame, at + 2);
    let hash = flow_hash_of(rss_key, rss_generation, facts, network, source_port, destination_port);
    if network.payload_len < 20 || at + 20 > frame.len() || header_len < 20 || header_len
        > network.payload_len || frame[at + 12] % 16 / 2 != 0 || options is Err {
        types::transport_dropped(DropReason::MalformedTcp)
    } else if facts.checksums_validated == 0 && !transport_checksum_ok(
        frame,
        network,
        6,
        network.payload_len as int,
    ) {
        types::transport_dropped(DropReason::TcpChecksum)
    } else if hash is None {
        types::transport_dropped(DropReason::MalformedTcp)
    } else {
        TransportModel {
            outcome: TransportOutcome::Tcp,
            protocol: 6,
            source_port,
            destination_port,
            header_len: header_len as u16,
            payload_offset: (at + header_len) as u16,
            tcp_flags: (frame[at + 12] % 2 * 0x100 + frame[at + 13]) as u16,
            tcp_window: bytes::be16_at(frame, at + 14),
            tcp_urgent_pointer: bytes::be16_at(frame, at + 18),
            payload_len: (network.payload_len - header_len) as u32,
            rss_hash: hash->0,
            tcp_sequence: bytes::be32_at(frame, at + 4),
            tcp_acknowledgement: bytes::be32_at(frame, at + 8),
            tcp_options: options->Ok_0,
            ..types::transport_blank()
        }
    }
}

/// Every error of the option list is a malformed segment.
proof fn lemma_option_error(s: Seq<u8>, at: int, end: int, seen: TcpOptionsModel, sack_seen: bool)
    ensures
        tcp::options_from(s, at, end, seen, sack_seen) matches Err(reason) ==> reason
            == DropReason::MalformedTcp,
    decreases end - at,
{
    if at < end && s[at] != 0 {
        if s[at] == 1 {
            lemma_option_error(s, at + 1, end, seen, sack_seen);
        } else if s[at + 1] >= 2 && at + s[at + 1] <= end {
            lemma_option_error(
                s,
                at + s[at + 1],
                end,
                tcp::with_option(s, at, s[at + 1] as int, seen),
                sack_seen || s[at] == 5,
            );
        }
    }
}

/// Parses a TCP header.
pub fn parse_tcp(
    frame: &[u8],
    network: &NetStackNetwork,
    facts: NetStackPacketInput,
    rss_key: &[u8; 40],
    rss_generation: u32,
) -> (record: NetStackTransport)
    requires
        network.payload_offset <= 0xffff - 60,
    ensures
        record@ == tcp_record(frame@, network@, facts, rss_key@, rss_generation),
{
    if network.payload_len < 20 {
        return transport_drop(DropReason::MalformedTcp);
    }
    let at: usize = network.payload_offset as usize;
    if frame.len() < at + 20 {
        return transport_drop(DropReason::MalformedTcp);
    }
    let header_len: usize = (frame[at + 12] / 16) as usize * 4;
    if header_len < 20 || header_len as u32 > network.payload_len || frame[at + 12] % 16 / 2 != 0 {
        return transport_drop(DropReason::MalformedTcp);
    }
    proof {
        lemma_option_error(
            frame@,
            at + 20,
            at + 20 + header_len - 20,
            types::tcp_options_blank(),
            false,
        );
    }
    let options = match parse_tcp_options(frame, at + 20, header_len) {
        Ok(options) => options,
        Err(reason) => {
            return transport_drop(reason);
        },
    };
    if facts.checksums_validated == 0 && !transport_checksum_valid(
        frame,
        network,
        6,
        network.payload_len as usize,
    ) {
        return transport_drop(DropReason::TcpChecksum);
    }
    let source_port: u16 = be16(frame, at);
    let destination_port: u16 = be16(frame, at + 2);
    let rss_hash: u32 = match flow_hash(
        rss_key,
        rss_generation,
        facts,
        network,
        source_port,
        destination_port,
    ) {
        Some(hash) => hash,
        None => {
            return transport_drop(DropReason::MalformedTcp);
        },
    };
    NetStackTransport {
        outcome: TransportOutcome::Tcp,
        protocol: 6,
        source_port,
        destination_port,
        header_len: header_len as u16,
        payload_offset: network.payload_offset + header_len as u16,
        tcp_flags: (frame[at + 12] % 2) as u16 * 0x100 + frame[at + 13] as u16,
        tcp_window: be16(frame, at + 14),
        tcp_urgent_pointer: be16(frame, at + 18),
        payload_len: network.payload_len - header_len as u32,
        rss_hash,
        tcp_sequence: be32(frame, at + 4),
        tcp_acknowledgement: be32(frame, at + 8),
        tcp_options: options,
        ..empty_transport()
    }
}

/// The record of a UDP datagram.
pub open spec fn udp_record(
    frame: Seq<u8>,
    network: NetworkModel,
    facts: NetStackPacketInput,
    rss_key: Seq<u8>,
    rss_generation: u32,
) -> TransportModel {
    let at = network.payload_offset as int;
    let udp_len = bytes::be16_at(frame, at + 4);
    let field = bytes::be16_at(frame, at + 6);
    let source_port = bytes::be16_at(frame, at);
    let destination_port = bytes::be16_at(frame, at + 2);
    let hash = flow_hash_of(rss_key, rss_generation, facts, network, source_port, destination_port);
    if network.payload_len < 8 || at + 8 > frame.len() || udp_len < 8 || udp_len
        > network.payload_len {
        types::transport_dropped(DropReason::MalformedUdp)
    } else if field == 0 && network.family == Family::Ipv6 {
        types::transport_dropped(DropReason::UdpChecksum)
    } else if facts.checksums_validated == 0 && field != 0 && !transport_checksum_ok(
        frame,
        network,
        17,
        udp_len as int,
    ) {
        types::transport_dropped(DropReason::UdpChecksum)
    } else if hash is None {
        types::transport_dropped(DropReason::MalformedUdp)
    } else {
        TransportModel {
            outcome: TransportOutcome::Udp,
            protocol: 17,
            source_port,
            destination_port,
            header_len: 8,
            payload_offset: (at + 8) as u16,
            payload_len: (udp_len - 8) as u32,
            rss_hash: hash->0,
            ..types::transport_blank()
        }
    }
}

/// Parses a UDP header.
pub fn parse_udp(
    frame: &[u8],
    network: &NetStackNetwork,
    facts: NetStackPacketInput,
    rss_key: &[u8; 40],
    rss_generation: u32,
) -> (record: NetStackTransport)
    requires
        network.payload_offset <= 0xffff - 8,
    ensures
        record@ == udp_record(frame@, network@, facts, rss_key@, rss_generation),
{
    if network.payload_len < 8 {
        return transport_drop(DropReason::MalformedUdp);
    }
    let at: usize = network.payload_offset as usize;
    if frame.len() < at + 8 {
        return transport_drop(DropReason::MalformedUdp);
    }
    let udp_len: usize = be16(frame, at + 4) as usize;
    if udp_len < 8 || udp_len as u32 > network.payload_len {
        return transport_drop(DropReason::MalformedUdp);
    }
    let field: u16 = be16(frame, at + 6);
    if field == 0 && network.family == Family::Ipv6 {
        return transport_drop(DropReason::UdpChecksum);
    }
    if facts.checksums_validated == 0 && field != 0 && !transport_checksum_valid(
        frame,
        network,
        17,
        udp_len,
    ) {
        return transport_drop(DropReason::UdpChecksum);
    }
    let source_port: u16 = be16(frame, at);
    let destination_port: u16 = be16(frame, at + 2);
    let rss_hash: u32 = match flow_hash(
        rss_key,
        rss_generation,
        facts,
        network,
        source_port,
        destination_port,
    ) {
        Some(hash) => hash,
        None => {
            return transport_drop(DropReason::MalformedUdp);
        },
    };
    NetStackTransport {
        outcome: TransportOutcome::Udp,
        protocol: 17,
        source_port,
        destination_port,
        header_len: 8,
        payload_offset: network.payload_offset + 8,
        payload_len: (udp_len - 8) as u32,
        rss_hash,
        ..empty_transport()
    }
}

/// The record of an ICMP message.
pub open spec fn icmp_record(
    frame: Seq<u8>,
    network: NetworkModel,
    facts: NetStackPacketInput,
) -> TransportModel {
    let valid = facts.checksums_validated != 0 || if network.family == Family::Ipv6 {
        whole_checksum_ok(frame, network, network.next_header)
    } else {
        icmpv4_checksum_ok(frame, network)
    };
    if network.payload_len < 8 {
        types::transport_dropped(
            if network.family == Family::Ipv6 {
                DropReason::MalformedIpv6
            } else {
                DropReason::UnsupportedIpProtocol
            },
        )
    } else if !valid {
        types::transport_dropped(DropReason::UnsupportedIpProtocol)
    } else {
        TransportModel {
            outcome: TransportOutcome::Icmp,
            protocol: network.next_header,
            payload_offset: network.payload_offset,
            payload_len: network.payload_len,
            ..types::transport_blank()
        }
    }
}

/// Checks an ICMP message.
pub fn parse_icmp(frame: &[u8], network: &NetStackNetwork, facts: NetStackPacketInput) -> (record:
    NetStackTransport)
    ensures
        record@ == icmp_record(frame@, network@, facts),
{
    if network.payload_len < 8 {
        return transport_drop(
            if network.family == Family::Ipv6 {
                DropReason::MalformedIpv6
            } else {
                DropReason::UnsupportedIpProtocol
            },
        );
    }
    let valid = if facts.checksums_validated != 0 {
        true
    } else if network.family == Family::Ipv6 {
        whole_checksum_valid(frame, network, network.next_header)
    } else {
        icmpv4_checksum_valid(frame, network)
    };
    if !valid {
        return transport_drop(DropReason::UnsupportedIpProtocol);
    }
    NetStackTransport {
        outcome: TransportOutcome::Icmp,
        protocol: network.next_header,
        payload_offset: network.payload_offset,
        payload_len: network.payload_len,
        ..empty_transport()
    }
}

/// The transport record of a packet, by its network record.
pub open spec fn transport_record(
    frame: Seq<u8>,
    network: NetworkModel,
    facts: NetStackPacketInput,
    rss_key: Seq<u8>,
    rss_generation: u32,
) -> TransportModel {
    if network.outcome != NetworkOutcome::Ip || network.flags.fragment || network.flags.ipv6_problem {
        types::transport_not_parsed()
    } else if network.next_header == 6 {
        tcp_record(frame, network, facts, rss_key, rss_generation)
    } else if network.next_header == 17 {
        udp_record(frame, network, facts, rss_key, rss_generation)
    } else if (network.family == Family::Ipv4 && network.next_header == 1) || (network.family
        == Family::Ipv6 && network.next_header == 58) {
        icmp_record(frame, network, facts)
    } else {
        TransportModel {
            outcome: TransportOutcome::Raw,
            protocol: network.next_header,
            payload_offset: network.payload_offset,
            payload_len: network.payload_len,
            ..types::transport_blank()
        }
    }
}

/// Parses what stands behind the network header.
pub fn parse_transport(
    frame: &[u8],
    network: &NetStackNetwork,
    facts: NetStackPacketInput,
    rss_key: &[u8; 40],
    rss_generation: u32,
) -> (record: NetStackTransport)
    requires
        network.payload_offset <= 0xffff - 60,
    ensures
        record@ == transport_record(frame@, network@, facts, rss_key@, rss_generation),
{
    if network.outcome != NetworkOutcome::Ip || network.flags.fragment
        || network.flags.ipv6_problem {
        return transport_skipped();
    }
    if network.next_header == 6 {
        return parse_tcp(frame, network, facts, rss_key, rss_generation);
    }
    if network.next_header == 17 {
        return parse_udp(frame, network, facts, rss_key, rss_generation);
    }
    if (network.family == Family::Ipv4 && network.next_header == 1) || (network.family
        == Family::Ipv6 && network.next_header == 58) {
        return parse_icmp(frame, network, facts);
    }
    NetStackTransport {
        outcome: TransportOutcome::Raw,
        protocol: network.next_header,
        payload_offset: network.payload_offset,
        payload_len: network.payload_len,
        ..empty_transport()
    }
}

/// A fragment, a dropped packet, an ARP message and a packet with a parameter
/// problem never reach the transport layer.
pub proof fn only_whole_packets_reach_transport(
    frame: Seq<u8>,
    network: NetworkModel,
    facts: NetStackPacketInput,
    rss_key: Seq<u8>,
    rss_generation: u32,
)
    ensures
        transport_record(frame, network, facts, rss_key, rss_generation).outcome
            == TransportOutcome::Skipped <==> (network.outcome != NetworkOutcome::Ip
            || network.flags.fragment || network.flags.ipv6_problem),
{
}

/// A transport payload lies inside the network payload that it came in.
pub proof fn transport_payload_in_network_payload(
    frame: Seq<u8>,
    network: NetworkModel,
    facts: NetStackPacketInput,
    rss_key: Seq<u8>,
    rss_generation: u32,
)
    requires
        network.payload_offset <= 0xffff - 60,
    ensures
        ({
            let r = transport_record(frame, network, facts, rss_key, rss_generation);
            r.outcome != TransportOutcome::Skipped && r.outcome != TransportOutcome::Drop ==> {
                &&& network.payload_offset <= r.payload_offset
                &&& r.payload_offset + r.payload_len <= network.payload_offset + network.payload_len
            }
        }),
{
}

} // verus!
