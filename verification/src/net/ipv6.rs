//! IPv6 headers and extension headers behind an Ethernet header of 14 bytes.

use vstd::prelude::*;
use crate::bytes;
use crate::net::ip;
use crate::net::types;
use crate::net::types::NetworkModel;
use crate::bytes::{array16, be16, be32};
use crate::net::ip::is_local_ipv6;
use crate::net::types::{
    DropReason, Family, NetStackLocalAddress, NetStackNetwork, NetworkFlags, NetworkOutcome,
    empty_network, network_drop,
};

verus! {

/// What a list of options in an extension header asks for.
#[derive(Clone, Copy, PartialEq, Eq, Structural, Debug)]
pub enum Ipv6OptionResult {
    Valid,
    Drop(DropReason),
    Problem { pointer: u32, suppress_multicast: bool },
}

/// The outcome of the options in `remaining` bytes at `offset`: a pad byte, or
/// a type, a length and that many bytes, again and again. The two top bits of
/// an unknown type say what to do with the packet.
pub open spec fn options_outcome(frame: Seq<u8>, offset: int, remaining: int) -> Ipv6OptionResult
    decreases remaining,
{
    if remaining <= 0 {
        Ipv6OptionResult::Valid
    } else if offset + 1 > frame.len() {
        Ipv6OptionResult::Drop(DropReason::MalformedIpv6)
    } else if frame[offset] == 0 {
        options_outcome(frame, offset + 1, remaining - 1)
    } else if remaining < 2 || offset + 2 > frame.len() || frame[offset + 1] + 2 > remaining {
        Ipv6OptionResult::Drop(DropReason::MalformedIpv6)
    } else if frame[offset] == 1 || frame[offset] / 64 == 0 {
        options_outcome(
            frame,
            offset + frame[offset + 1] + 2,
            remaining - frame[offset + 1] - 2,
        )
    } else if frame[offset] / 64 == 1 {
        Ipv6OptionResult::Drop(DropReason::UnsupportedIpProtocol)
    } else {
        Ipv6OptionResult::Problem {
            pointer: (if offset >= 14 { offset - 14 } else { 0 }) as u32,
            suppress_multicast: frame[offset] / 64 != 2,
        }
    }
}

/// Walks the options of a hop-by-hop or destination options header.
pub fn validate_ipv6_options(frame: &[u8], offset: usize, remaining: usize) -> (result:
    Ipv6OptionResult)
    requires
        offset + remaining <= usize::MAX,
        offset + remaining <= u32::MAX,
    ensures
        result == options_outcome(frame@, offset as int, remaining as int),
{
    let mut at: usize = offset;
    let mut left: usize = remaining;
    while left != 0
        invariant
            at + left == offset + remaining,
            offset + remaining <= usize::MAX,
            offset + remaining <= u32::MAX,
            options_outcome(frame@, at as int, left as int) == options_outcome(
                frame@,
                offset as int,
                remaining as int,
            ),
        decreases left,
    {
        if at >= frame.len() {
            return Ipv6OptionResult::Drop(DropReason::MalformedIpv6);
        }
        if frame[at] == 0 {
            at += 1;
            left -= 1;
            continue ;
        }
        if left < 2 || frame.len() - at < 2 {
            return Ipv6OptionResult::Drop(DropReason::MalformedIpv6);
        }
        let option_len: usize = frame[at + 1] as usize + 2;
        if option_len > left {
            return Ipv6OptionResult::Drop(DropReason::MalformedIpv6);
        }
        if frame[at] != 1 {
            let action: u8 = frame[at] / 64;
            if action == 1 {
                return Ipv6OptionResult::Drop(DropReason::UnsupportedIpProtocol);
            }
            if action >= 2 {
                let pointer: usize = if at >= 14 {
                    at - 14
                } else {
                    0
                };
                return Ipv6OptionResult::Problem {
                    pointer: pointer as u32,
                    suppress_multicast: action != 2,
                };
            }
        }
        at += option_len;
        left -= option_len;
    }
    Ipv6OptionResult::Valid
}

/// Where the chain of extension headers ends.
#[derive(Clone, Copy, PartialEq, Eq, Structural, Debug)]
pub enum ChainEnd {
    /// The packet is dropped.
    Drop(DropReason),
    /// The upper layer begins at `offset`.
    Upper {
        next_header: u8,
        offset: usize,
        fragment_offset: u16,
        more: bool,
        fragment_identification: u32,
    },
    /// An option asks for a parameter problem message.
    Problem { next_header: u8, offset: usize, pointer: u32, suppress_multicast: bool },
}

/// Size in bytes of the options header at `offset`.
pub open spec fn extension_len(frame: Seq<u8>, offset: int) -> int {
    (frame[offset + 1] + 1) * 8
}

/// Follows the chain from a header of type `next_header` at `offset`, of which
/// `count` options headers of `bytes` bytes in all came before. At most 8
/// headers and 256 bytes are followed; a fragment header ends the chain.
pub open spec fn chain_end(
    frame: Seq<u8>,
    end: int,
    next_header: u8,
    offset: int,
    count: int,
    bytes: int,
) -> ChainEnd
    decreases 9 - count,
{
    if next_header == 0 || next_header == 60 {
        let len = extension_len(frame, offset);
        if offset + 2 > frame.len() || offset + len > end {
            ChainEnd::Drop(DropReason::MalformedIpv6)
        } else {
            match options_outcome(frame, offset + 2, len - 2) {
                Ipv6OptionResult::Drop(reason) => ChainEnd::Drop(reason),
                Ipv6OptionResult::Problem { pointer, suppress_multicast } => ChainEnd::Problem {
                    next_header: frame[offset],
                    offset: (offset + len) as usize,
                    pointer,
                    suppress_multicast,
                },
                Ipv6OptionResult::Valid => if count + 1 > 8 || bytes + len > 256 {
                    ChainEnd::Drop(DropReason::Ipv6ExtensionLimit)
                } else {
                    chain_end(frame, end, frame[offset], offset + len, count + 1, bytes + len)
                },
            }
        }
    } else if next_header == 44 {
        let field = bytes::be16_at(frame, offset + 2);
        let fragmented = field / 8 != 0 || field % 2 == 1;
        if count >= 8 || bytes + 8 > 256 {
            ChainEnd::Drop(DropReason::Ipv6ExtensionLimit)
        } else if offset + 8 > frame.len() {
            ChainEnd::Drop(DropReason::MalformedIpv6)
        } else {
            ChainEnd::Upper {
                next_header: frame[offset],
                offset: (offset + 8) as usize,
                fragment_offset: field / 8,
                more: field % 2 == 1,
                fragment_identification: if fragmented {
                    bytes::be32_at(frame, offset + 4)
                } else {
                    0
                },
            }
        }
    } else {
        ChainEnd::Upper {
            next_header,
            offset: offset as usize,
            fragment_offset: 0,
            more: false,
            fragment_identification: 0,
        }
    }
}

/// Follows the chain of extension headers of a packet that ends at `end`.
fn follow_chain(frame: &[u8], end: usize, first: u8) -> (result: ChainEnd)
    requires
        54 <= end <= 54 + 0xffff,
    ensures
        result == chain_end(frame@, end as int, first, 54, 0, 0),
        result matches ChainEnd::Upper { offset, .. } ==> 54 <= offset <= 318,
        result matches ChainEnd::Problem { offset, .. } ==> 54 <= offset <= end && offset <= 2400,
{
    let mut next_header: u8 = first;
    let mut offset: usize = 54;
    let mut count: usize = 0;
    let mut bytes: usize = 0;
    loop
        invariant
            54 <= end <= 54 + 0xffff,
            offset == 54 + bytes,
            count <= 8,
            bytes <= 256,
            chain_end(
                frame@,
                end as int,
                next_header,
                offset as int,
                count as int,
                bytes as int,
            ) == chain_end(frame@, end as int, first, 54, 0, 0),
        decreases 9 - count,
    {
        if next_header == 0 || next_header == 60 {
            if frame.len() < offset + 2 {
                return ChainEnd::Drop(DropReason::MalformedIpv6);
            }
            let len: usize = (frame[offset + 1] as usize + 1) * 8;
            if offset + len > end {
                return ChainEnd::Drop(DropReason::MalformedIpv6);
            }
            match validate_ipv6_options(frame, offset + 2, len - 2) {
                Ipv6OptionResult::Drop(reason) => {
                    return ChainEnd::Drop(reason);
                },
                Ipv6OptionResult::Problem { pointer, suppress_multicast } => {
                    return ChainEnd::Problem {
                        next_header: frame[offset],
                        offset: offset + len,
                        pointer,
                        suppress_multicast,
                    };
                },
                Ipv6OptionResult::Valid => {},
            }
            if count + 1 > 8 || bytes + len > 256 {
                return ChainEnd::Drop(DropReason::Ipv6ExtensionLimit);
            }
            next_header = frame[offset];
            offset += len;
            bytes += len;
            count += 1;
        } else if next_header == 44 {
            if count >= 8 || bytes + 8 > 256 {
                return ChainEnd::Drop(DropReason::Ipv6ExtensionLimit);
            }
            if frame.len() < offset + 8 {
                return ChainEnd::Drop(DropReason::MalformedIpv6);
            }
            let field: u16 = be16(frame, offset + 2);
            let fragment_offset: u16 = field / 8;
            let more = field % 2 == 1;
            return ChainEnd::Upper {
                next_header: frame[offset],
                offset: offset + 8,
                fragment_offset,
                more,
                fragment_identification: if fragment_offset != 0 || more {
                    be32(frame, offset + 4)
                } else {
                    0
                },
            };
        } else {
            return ChainEnd::Upper {
                next_header,
                offset,
                fragment_offset: 0,
                more: false,
                fragment_identification: 0,
            };
        }
    }
}

/// Whether the fixed header is there and its length fits the frame.
pub open spec fn ipv6_well_formed(frame: Seq<u8>, frame_len: u32) -> bool {
    &&& frame.len() >= 54
    &&& frame[14] / 16 == 6
    &&& 54 + bytes::be16_at(frame, 18) <= frame_len
}

/// The record of an accepted IPv6 packet.
pub open spec fn ipv6_accepted(
    frame: Seq<u8>,
    end: int,
    next_header: u8,
    offset: int,
    flags: NetworkFlags,
    fragment_offset: u16,
    fragment_identification: u32,
    problem_pointer: u32,
) -> NetworkModel {
    NetworkModel {
        outcome: NetworkOutcome::Ip,
        family: Family::Ipv6,
        next_header,
        flags,
        traffic_class: (frame[14] % 16 * 16 + frame[15] / 16) as u8,
        hop_limit: frame[21],
        header_len: (offset - 14) as u16,
        payload_offset: offset as u16,
        fragment_offset,
        payload_len: (end - offset) as u32,
        fragment_identification,
        problem_pointer,
        source: frame.subrange(22, 38),
        destination: frame.subrange(38, 54),
        ..types::network_blank()
    }
}

/// The network record of an IPv6 frame.
pub open spec fn ipv6_record(
    frame: Seq<u8>,
    interface: u32,
    addresses: Seq<NetStackLocalAddress>,
    frame_len: u32,
) -> NetworkModel {
    let end = 54 + bytes::be16_at(frame, 18) as int;
    if !ipv6_well_formed(frame, frame_len) {
        types::network_dropped(DropReason::MalformedIpv6)
    } else {
        match chain_end(frame, end, frame[20], 54, 0, 0) {
            ChainEnd::Drop(reason) => types::network_dropped(reason),
            ChainEnd::Upper { next_header, offset, fragment_offset, more, fragment_identification } =>
            if offset > end {
                types::network_dropped(DropReason::MalformedIpv6)
            } else if !ip::local_ipv6(interface, addresses, frame.subrange(38, 54)) {
                types::network_dropped(DropReason::NotLocal)
            } else {
                ipv6_accepted(
                    frame,
                    end,
                    next_header,
                    offset as int,
                    NetworkFlags {
                        fragment: fragment_offset != 0 || more,
                        more_fragments: more,
                        ipv6_problem: false,
                        suppress_multicast: false,
                    },
                    fragment_offset,
                    fragment_identification,
                    0,
                )
            },
            ChainEnd::Problem { next_header, offset, pointer, suppress_multicast } => if !ip::local_ipv6(
                interface,
                addresses,
                frame.subrange(38, 54),
            ) {
                types::network_dropped(DropReason::NotLocal)
            } else {
                ipv6_accepted(
                    frame,
                    end,
                    next_header,
                    offset as int,
                    NetworkFlags {
                        fragment: false,
                        more_fragments: false,
                        ipv6_problem: true,
                        suppress_multicast,
                    },
                    0,
                    0,
                    pointer,
                )
            },
        }
    }
}

/// Parses an IPv6 header and its extension headers.
pub fn parse_ipv6(
    frame: &[u8],
    interface: u32,
    addresses: &[NetStackLocalAddress],
    frame_len: u32,
) -> (record: NetStackNetwork)
    ensures
        record@ == ipv6_record(frame@, interface, addresses@, frame_len),
{
    if frame.len() < 54 || frame[14] / 16 != 6 {
        return network_drop(DropReason::MalformedIpv6);
    }
    let payload_len: usize = be16(frame, 18) as usize;
    if 54 + payload_len as u64 > frame_len as u64 {
        return network_drop(DropReason::MalformedIpv6);
    }
    let end: usize = 54 + payload_len;
    let mut flags = NetworkFlags {
        fragment: false,
        more_fragments: false,
        ipv6_problem: false,
        suppress_multicast: false,
    };
    let mut fragment_offset: u16 = 0;
    let mut fragment_identification: u32 = 0;
    let mut problem_pointer: u32 = 0;
    let next_header: u8;
    let offset: usize;
    match follow_chain(frame, end, frame[20]) {
        ChainEnd::Drop(reason) => {
            return network_drop(reason);
        },
        ChainEnd::Upper {
            next_header: upper,
            offset: at,
            fragment_offset: fragment_at,
            more,
            fragment_identification: identification,
        } => {
            if at > end {
                return network_drop(DropReason::MalformedIpv6);
            }
            next_header = upper;
            offset = at;
            flags.fragment = fragment_at != 0 || more;
            flags.more_fragments = more;
            fragment_offset = fragment_at;
            fragment_identification = identification;
        },
        ChainEnd::Problem { next_header: upper, offset: at, pointer, suppress_multicast } => {
            next_header = upper;
            offset = at;
            flags.ipv6_problem = true;
            flags.suppress_multicast = suppress_multicast;
            problem_pointer = pointer;
        },
    }
    let destination = array16(frame, 38);
    if !is_local_ipv6(interface, addresses, destination) {
        return network_drop(DropReason::NotLocal);
    }
    NetStackNetwork {
        outcome: NetworkOutcome::Ip,
        family: Family::Ipv6,
        next_header,
        flags,
        traffic_class: frame[14] % 16 * 16 + frame[15] / 16,
        hop_limit: frame[21],
        header_len: (offset - 14) as u16,
        payload_offset: offset as u16,
        fragment_offset,
        payload_len: (end - offset) as u32,
        fragment_identification,
        problem_pointer,
        source: array16(frame, 22),
        destination,
        ..empty_network()
    }
}

/// A chain that is followed to an upper layer never runs past the limits.
pub proof fn chain_is_bounded(
    frame: Seq<u8>,
    end: int,
    next_header: u8,
    offset: int,
    count: int,
    bytes: int,
)
    requires
        0 <= count <= 8,
        0 <= bytes <= 256,
        offset == 54 + bytes,
        54 <= end <= 54 + 0xffff,
    ensures
        chain_end(frame, end, next_header, offset, count, bytes) matches ChainEnd::Upper {
            offset: o,
            ..
        } ==> 54 <= o <= 318,
        chain_end(frame, end, next_header, offset, count, bytes) matches ChainEnd::Problem {
            offset: o,
            ..
        } ==> 54 <= o <= 2400 && o <= end,
    decreases 9 - count,
{
    if next_header == 0 || next_header == 60 {
        let len = extension_len(frame, offset);
        if offset + 2 <= frame.len() && offset + len <= end && count + 1 <= 8 && bytes + len <= 256 {
            chain_is_bounded(frame, end, frame[offset], offset + len, count + 1, bytes + len);
        }
    }
}

/// The payload of an accepted IPv6 packet lies inside the received frame.
pub proof fn ipv6_payload_in_frame(
    frame: Seq<u8>,
    interface: u32,
    addresses: Seq<NetStackLocalAddress>,
    frame_len: u32,
)
    ensures
        ({
            let r = ipv6_record(frame, interface, addresses, frame_len);
            r.outcome == NetworkOutcome::Ip ==> {
                &&& 54 <= r.payload_offset <= 2400
                &&& r.payload_offset + r.payload_len == 54 + bytes::be16_at(frame, 18)
                &&& r.payload_offset + r.payload_len <= frame_len
                &&& r.payload_offset == 14 + r.header_len
            }
        }),
{
    if ipv6_well_formed(frame, frame_len) {
        chain_is_bounded(frame, 54 + bytes::be16_at(frame, 18) as int, frame[20], 54, 0, 0);
    }
}

} // verus!
