//! ARP and IPv4 headers behind an Ethernet header of 14 bytes.

use vstd::prelude::*;
use crate::bytes;
use crate::net::checksum;
use crate::net::ip;
use crate::net::types;
use crate::net::types::NetworkModel;
use crate::bytes::{array4, array6, be16, padded4};
use crate::net::ip::is_local_ipv4;
use crate::net::types::{
    DropReason, Family, NetStackLocalAddress, NetStackNetwork, NetworkFlags, NetworkOutcome,
    empty_network, network_drop,
};

verus! {

/// Whether the frame carries a well-formed Ethernet/IPv4 ARP request or reply.
pub open spec fn arp_well_formed(frame: Seq<u8>) -> bool {
    &&& frame.len() >= 42
    &&& bytes::be16_at(frame, 14) == 1
    &&& bytes::be16_at(frame, 16) == 0x0800
    &&& frame[18] == 6
    &&& frame[19] == 4
    &&& 1 <= bytes::be16_at(frame, 20) <= 2
}

/// The network record of an ARP frame.
pub open spec fn arp_record(
    frame: Seq<u8>,
    interface: u32,
    addresses: Seq<NetStackLocalAddress>,
) -> NetworkModel {
    if !arp_well_formed(frame) {
        types::network_dropped(DropReason::MalformedArp)
    } else if !ip::local_ipv4(interface, addresses, frame.subrange(38, 42)) {
        types::network_dropped(DropReason::NotLocal)
    } else {
        NetworkModel {
            outcome: NetworkOutcome::Arp,
            family: Family::Ipv4,
            arp_operation: bytes::be16_at(frame, 20),
            source: bytes::padded16(frame.subrange(28, 32)),
            destination: bytes::padded16(frame.subrange(38, 42)),
            arp_sender_mac: frame.subrange(22, 28),
            arp_target_mac: frame.subrange(32, 38),
            ..types::network_blank()
        }
    }
}

/// Parses an ARP frame.
pub fn parse_arp(frame: &[u8], interface: u32, addresses: &[NetStackLocalAddress]) -> (record:
    NetStackNetwork)
    requires
        forall|i: int| 0 <= i < addresses@.len() ==> ip::address_valid(#[trigger] addresses@[i]),
    ensures
        record@ == arp_record(frame@, interface, addresses@),
{
    if frame.len() < 42 || be16(frame, 14) != 1 || be16(frame, 16) != 0x0800 || frame[18] != 6
        || frame[19] != 4 {
        return network_drop(DropReason::MalformedArp);
    }
    let operation: u16 = be16(frame, 20);
    if operation != 1 && operation != 2 {
        return network_drop(DropReason::MalformedArp);
    }
    if !is_local_ipv4(interface, addresses, array4(frame, 38)) {
        return network_drop(DropReason::NotLocal);
    }
    NetStackNetwork {
        outcome: NetworkOutcome::Arp,
        family: Family::Ipv4,
        arp_operation: operation,
        source: padded4(frame, 28),
        destination: padded4(frame, 38),
        arp_sender_mac: array6(frame, 22),
        arp_target_mac: array6(frame, 32),
        ..empty_network()
    }
}

/// Length of the IPv4 header, options included.
pub open spec fn ipv4_header_len(frame: Seq<u8>) -> int {
    (frame[14] % 16) * 4
}

/// Whether the fixed header is there and its lengths fit the frame.
pub open spec fn ipv4_well_formed(frame: Seq<u8>, frame_len: u32) -> bool {
    &&& frame.len() >= 34
    &&& frame[14] / 16 == 4
    &&& ipv4_header_len(frame) >= 20
    &&& bytes::be16_at(frame, 16) >= ipv4_header_len(frame)
    &&& 14 + bytes::be16_at(frame, 16) <= frame_len
}

/// The network record of an IPv4 frame.
pub open spec fn ipv4_record(
    frame: Seq<u8>,
    interface: u32,
    addresses: Seq<NetStackLocalAddress>,
    frame_len: u32,
    checksums_validated: bool,
) -> NetworkModel {
    let header = ipv4_header_len(frame);
    let field = bytes::be16_at(frame, 20);
    let offset = field % 0x2000;
    let more = field / 0x2000 % 2 == 1;
    let fragmented = offset != 0 || more;
    if !ipv4_well_formed(frame, frame_len) {
        types::network_dropped(DropReason::MalformedIpv4)
    } else if !checksums_validated && frame.len() < 14 + header {
        types::network_dropped(DropReason::MalformedIpv4)
    } else if !checksums_validated && checksum::checksum_of(frame.subrange(14, 14 + header)) != 0 {
        types::network_dropped(DropReason::Ipv4Checksum)
    } else if !ip::local_ipv4(interface, addresses, frame.subrange(30, 34)) {
        types::network_dropped(DropReason::NotLocal)
    } else {
        NetworkModel {
            outcome: NetworkOutcome::Ip,
            family: Family::Ipv4,
            next_header: frame[23],
            flags: NetworkFlags {
                fragment: fragmented,
                more_fragments: more,
                ipv6_problem: false,
                suppress_multicast: false,
            },
            traffic_class: frame[15],
            hop_limit: frame[22],
            header_len: header as u16,
            payload_offset: (14 + header) as u16,
            fragment_offset: offset,
            payload_len: (bytes::be16_at(frame, 16) - header) as u32,
            fragment_identification: if fragmented {
                bytes::be16_at(frame, 18) as u32
            } else {
                0
            },
            source: bytes::padded16(frame.subrange(26, 30)),
            destination: bytes::padded16(frame.subrange(30, 34)),
            ..types::network_blank()
        }
    }
}

/// Parses an IPv4 header.
pub fn parse_ipv4(
    frame: &[u8],
    interface: u32,
    addresses: &[NetStackLocalAddress],
    frame_len: u32,
    checksums_validated: bool,
) -> (record: NetStackNetwork)
    requires
        forall|i: int| 0 <= i < addresses@.len() ==> ip::address_valid(#[trigger] addresses@[i]),
    ensures
        record@ == ipv4_record(frame@, interface, addresses@, frame_len, checksums_validated),
{
    if frame.len() < 34 || frame[14] / 16 != 4 {
        return network_drop(DropReason::MalformedIpv4);
    }
    let header_len: usize = (frame[14] % 16) as usize * 4;
    let total_len: usize = be16(frame, 16) as usize;
    if header_len < 20 || total_len < header_len || 14 + total_len as u64 > frame_len as u64 {
        return network_drop(DropReason::MalformedIpv4);
    }
    if !checksums_validated {
        if frame.len() < 14 + header_len {
            return network_drop(DropReason::MalformedIpv4);
        }
        if checksum::checksum(vstd::slice::slice_subrange(frame, 14, 14 + header_len)) != 0 {
            return network_drop(DropReason::Ipv4Checksum);
        }
    }
    if !is_local_ipv4(interface, addresses, array4(frame, 30)) {
        return network_drop(DropReason::NotLocal);
    }
    let field: u16 = be16(frame, 20);
    let fragment_offset: u16 = field % 0x2000;
    let more = field / 0x2000 % 2 == 1;
    let fragmented = fragment_offset != 0 || more;
    NetStackNetwork {
        outcome: NetworkOutcome::Ip,
        family: Family::Ipv4,
        next_header: frame[23],
        flags: NetworkFlags {
            fragment: fragmented,
            more_fragments: more,
            ipv6_problem: false,
            suppress_multicast: false,
        },
        traffic_class: frame[15],
        hop_limit: frame[22],
        header_len: header_len as u16,
        payload_offset: (14 + header_len) as u16,
        fragment_offset,
        payload_len: (total_len - header_len) as u32,
        fragment_identification: if fragmented {
            be16(frame, 18) as u32
        } else {
            0
        },
        source: padded4(frame, 26),
        destination: padded4(frame, 30),
        ..empty_network()
    }
}

/// The payload of an accepted IPv4 packet lies inside the received frame.
pub proof fn ipv4_payload_in_frame(
    frame: Seq<u8>,
    interface: u32,
    addresses: Seq<NetStackLocalAddress>,
    frame_len: u32,
    checksums_validated: bool,
)
    ensures
        ({
            let r = ipv4_record(frame, interface, addresses, frame_len, checksums_validated);
            r.outcome == NetworkOutcome::Ip ==> {
                &&& 34 <= r.payload_offset <= 74
                &&& r.payload_offset + r.payload_len <= frame_len
                &&& r.payload_offset == 14 + r.header_len
            }
        }),
{
}

} // verus!
