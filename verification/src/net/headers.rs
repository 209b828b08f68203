//! Headers as a sender writes them, and that the parser reads them back.

use vstd::prelude::*;
use crate::net::batch;
use crate::net::checksum;
use crate::net::ip;
use crate::net::ipv4;
use crate::net::ipv6;
use crate::net::tcp;
use crate::net::transport;
use crate::net::types;
use crate::net::types::{
    DropReason, EthernetStatus, Family, NetStackLocalAddress, NetStackPacketInput, NetworkModel,
    NetworkOutcome, TcpOptionsModel, TransportModel, TransportOutcome,
};

verus! {

/// Whether bytes stand in a frame from a place on.
pub open spec fn stands(frame: Seq<u8>, at: int, bytes: Seq<u8>) -> bool {
    &&& 0 <= at
    &&& at + bytes.len() <= frame.len()
    &&& forall|i: int| 0 <= i < bytes.len() ==> frame[at + i] == #[trigger] bytes[i]
}

/// A byte of a number; the lowest has the number 0.
pub open spec fn byte(value: int, number: int) -> u8 {
    if number == 0 {
        (value % 0x100) as u8
    } else if number == 1 {
        (value / 0x100 % 0x100) as u8
    } else if number == 2 {
        (value / 0x1_0000 % 0x100) as u8
    } else {
        (value / 0x100_0000 % 0x100) as u8
    }
}

proof fn lemma_four_bytes(value: u32)
    ensures
        byte(value as int, 3) * 0x100_0000 + byte(value as int, 2) * 0x1_0000 + byte(
            value as int,
            1,
        ) * 0x100 + byte(value as int, 0) == value,
{
    let v = value as int;
    assert(v / 0x1_0000 == v / 0x100_0000 * 0x100 + v / 0x1_0000 % 0x100);
    assert(v / 0x100 == v / 0x1_0000 * 0x100 + v / 0x100 % 0x100);
}

/// A TCP header as it is sent.
pub ghost struct TcpHeader {
    pub source_port: u16,
    pub destination_port: u16,
    pub sequence: u32,
    pub acknowledgement: u32,
    /// How many words of 32 bits the header has, options included.
    pub words: int,
    /// Nine bits, from FIN on.
    pub flags: int,
    pub window: u16,
    pub checksum: u16,
    pub urgent_pointer: u16,
}

impl TcpHeader {
    pub open spec fn wf(self) -> bool {
        5 <= self.words <= 15 && 0 <= self.flags <= 0x1ff
    }

    /// The header without its options.
    pub open spec fn bytes(self) -> Seq<u8> {
        seq![
            byte(self.source_port as int, 1),
            byte(self.source_port as int, 0),
            byte(self.destination_port as int, 1),
            byte(self.destination_port as int, 0),
            byte(self.sequence as int, 3),
            byte(self.sequence as int, 2),
            byte(self.sequence as int, 1),
            byte(self.sequence as int, 0),
            byte(self.acknowledgement as int, 3),
            byte(self.acknowledgement as int, 2),
            byte(self.acknowledgement as int, 1),
            byte(self.acknowledgement as int, 0),
            (self.words * 16 + self.flags / 0x100) as u8,
            byte(self.flags, 0),
            byte(self.window as int, 1),
            byte(self.window as int, 0),
            byte(self.checksum as int, 1),
            byte(self.checksum as int, 0),
            byte(self.urgent_pointer as int, 1),
            byte(self.urgent_pointer as int, 0),
        ]
    }
}

/// Whether a record is that of a TCP segment with a header.
pub open spec fn is_segment(record: TransportModel, header: TcpHeader, network: NetworkModel) -> bool {
    &&& record.outcome == TransportOutcome::Tcp
    &&& record.protocol == 6
    &&& record.source_port == header.source_port
    &&& record.destination_port == header.destination_port
    &&& record.tcp_sequence == header.sequence
    &&& record.tcp_acknowledgement == header.acknowledgement
    &&& record.tcp_flags == header.flags
    &&& record.tcp_window == header.window
    &&& record.tcp_urgent_pointer == header.urgent_pointer
    &&& record.header_len == 4 * header.words
    &&& record.payload_offset == network.payload_offset + 4 * header.words
    &&& record.payload_len == network.payload_len - 4 * header.words
}

/// Whether the transport layer looks at a packet of a protocol.
pub open spec fn carries(network: NetworkModel, protocol: u8) -> bool {
    &&& network.outcome == NetworkOutcome::Ip
    &&& !network.flags.fragment
    &&& !network.flags.ipv6_problem
    &&& network.next_header == protocol
    &&& network.family != Family::Unspecified
    &&& network.payload_offset <= 0xffff - 60
}

proof fn lemma_segment(
    frame: Seq<u8>,
    network: NetworkModel,
    facts: NetStackPacketInput,
    rss_key: Seq<u8>,
    rss_generation: u32,
    header: TcpHeader,
)
    requires
        carries(network, 6),
        header.wf(),
        stands(frame, network.payload_offset as int, header.bytes()),
        transport::transport_record(frame, network, facts, rss_key, rss_generation).outcome
            != TransportOutcome::Drop,
    ensures
        is_segment(
            transport::transport_record(frame, network, facts, rss_key, rss_generation),
            header,
            network,
        ),
{
    let at = network.payload_offset as int;
    let b = header.bytes();
    lemma_four_bytes(header.sequence);
    lemma_four_bytes(header.acknowledgement);
    assert(frame[at] == b[0] && frame[at + 1] == b[1] && frame[at + 2] == b[2] && frame[at + 3]
        == b[3]);
    assert(frame[at + 4] == b[4] && frame[at + 5] == b[5] && frame[at + 6] == b[6] && frame[at + 7]
        == b[7]);
    assert(frame[at + 8] == b[8] && frame[at + 9] == b[9] && frame[at + 10] == b[10] && frame[at
        + 11] == b[11]);
    assert(frame[at + 12] == b[12] && frame[at + 13] == b[13] && frame[at + 14] == b[14] && frame[at
        + 15] == b[15]);
    assert(frame[at + 18] == b[18] && frame[at + 19] == b[19]);
    assert(frame[at + 12] / 16 == header.words);
    assert(frame[at + 12] % 16 == header.flags / 0x100);
}

/// A TCP segment that is not dropped is recorded with what its sender wrote into the
/// header: the ports, both numbers, each of the nine flags, the window and the urgent
/// pointer; what follows the header is its payload.
pub proof fn segment_is_read_as_written(
    frame: Seq<u8>,
    network: NetworkModel,
    facts: NetStackPacketInput,
    rss_key: Seq<u8>,
    rss_generation: u32,
    header: TcpHeader,
)
    requires
        carries(network, 6),
        header.wf(),
        stands(frame, network.payload_offset as int, header.bytes()),
    ensures
        ({
            let record = transport::transport_record(frame, network, facts, rss_key, rss_generation);
            is_segment(record, header, network) || record == types::transport_dropped(
                DropReason::MalformedTcp,
            ) || record == types::transport_dropped(DropReason::TcpChecksum)
        }),
{
    let record = transport::transport_record(frame, network, facts, rss_key, rss_generation);
    if record.outcome != TransportOutcome::Drop {
        lemma_segment(frame, network, facts, rss_key, rss_generation, header);
    }
}

proof fn lemma_padding_options(s: Seq<u8>, at: int, end: int, seen: TcpOptionsModel)
    requires
        forall|i: int| at <= i < end ==> #[trigger] s[i] == 1,
    ensures
        tcp::options_from(s, at, end, seen, false) == Ok::<TcpOptionsModel, DropReason>(seen),
    decreases end - at,
{
    if at < end {
        lemma_padding_options(s, at + 1, end, seen);
    }
}

/// The bytes that the checksum of a TCP segment or a UDP datagram of `len` bytes covers.
pub open spec fn summed(frame: Seq<u8>, network: NetworkModel, protocol: u8, len: int) -> Seq<u8> {
    let at = network.payload_offset as int;
    (if network.family == Family::Ipv4 {
        network.source.take(4) + network.destination.take(4) + seq![
            0u8,
            protocol,
            byte(len, 1),
            byte(len, 0),
        ]
    } else {
        network.source + network.destination + seq![
            byte(len, 3),
            byte(len, 2),
            byte(len, 1),
            byte(len, 0),
            0u8,
            0u8,
            0u8,
            protocol,
        ]
    }) + frame.subrange(at, at + len)
}

proof fn lemma_summed(frame: Seq<u8>, network: NetworkModel, protocol: u8, len: int)
    requires
        network.family != Family::Unspecified,
        0 < len <= 0xffff_ffff,
        network.family == Family::Ipv4 ==> len <= 0xffff,
        network.payload_offset + len <= frame.len(),
    ensures
        transport::transport_checksum_ok(frame, network, protocol, len)
            <==> checksum::checksum_holds(summed(frame, network, protocol, len)),
{
    let at = network.payload_offset as int;
    let header = transport::pseudo_header(network, protocol, len);
    let whole = header + frame.subrange(at, at + len);
    assert(whole =~= summed(frame, network, protocol, len));
    checksum::zero_checksum_is_valid(whole);
}

/// A whole TCP segment with no options but padding, to a port other than zero, is
/// accepted if its checksum is right or the device looked at it.
pub proof fn sound_segment_is_accepted(
    frame: Seq<u8>,
    network: NetworkModel,
    facts: NetStackPacketInput,
    rss_key: Seq<u8>,
    rss_generation: u32,
    header: TcpHeader,
)
    requires
        carries(network, 6),
        header.wf(),
        header.destination_port != 0,
        stands(frame, network.payload_offset as int, header.bytes()),
        4 * header.words <= network.payload_len,
        network.family == Family::Ipv4 ==> network.payload_len <= 0xffff,
        network.payload_offset + network.payload_len <= frame.len(),
        forall|i: int|
            network.payload_offset + 20 <= i < network.payload_offset + 4 * header.words
                ==> #[trigger] frame[i] == 1,
        facts.checksums_validated != 0 || checksum::checksum_holds(
            summed(frame, network, 6, network.payload_len as int),
        ),
    ensures
        ({
            let record = transport::transport_record(frame, network, facts, rss_key, rss_generation);
            is_segment(record, header, network) && record.tcp_options == types::tcp_options_blank()
        }),
{
    let at = network.payload_offset as int;
    let b = header.bytes();
    assert(frame[at + 2] == b[2] && frame[at + 3] == b[3]);
    assert(frame[at + 12] == b[12]);
    assert(frame[at + 12] / 16 == header.words);
    assert(frame[at + 12] % 16 / 2 == 0);
    lemma_padding_options(frame, at + 20, at + 4 * header.words, types::tcp_options_blank());
    lemma_summed(frame, network, 6, network.payload_len as int);
    lemma_segment(frame, network, facts, rss_key, rss_generation, header);
}

/// Unless the device looked at them, a TCP segment is accepted only if its checksum is
/// right, and so is a UDP datagram that carries one.
pub proof fn accepted_checksums_are_right(
    frame: Seq<u8>,
    network: NetworkModel,
    facts: NetStackPacketInput,
    rss_key: Seq<u8>,
    rss_generation: u32,
)
    requires
        facts.checksums_validated == 0,
    ensures
        ({
            let record = transport::transport_record(frame, network, facts, rss_key, rss_generation);
            let at = network.payload_offset as int;
            &&& record.outcome == TransportOutcome::Tcp ==> checksum::checksum_holds(
                summed(frame, network, 6, network.payload_len as int),
            )
            &&& record.outcome == TransportOutcome::Udp && !(frame[at + 6] == 0 && frame[at + 7] == 0)
                ==> checksum::checksum_holds(
                summed(frame, network, 17, frame[at + 4] * 0x100 + frame[at + 5]),
            )
            &&& record.outcome == TransportOutcome::Udp && network.family == Family::Ipv6 ==> !(
            frame[at + 6] == 0 && frame[at + 7] == 0)
        }),
{
    let record = transport::transport_record(frame, network, facts, rss_key, rss_generation);
    let at = network.payload_offset as int;
    if record.outcome == TransportOutcome::Tcp {
        lemma_summed(frame, network, 6, network.payload_len as int);
    }
    if record.outcome == TransportOutcome::Udp {
        if !(frame[at + 6] == 0 && frame[at + 7] == 0) {
            lemma_summed(frame, network, 17, frame[at + 4] * 0x100 + frame[at + 5]);
        }
    }
}

/// A UDP header as it is sent.
pub ghost struct UdpHeader {
    pub source_port: u16,
    pub destination_port: u16,
    pub len: u16,
    pub checksum: u16,
}

impl UdpHeader {
    pub open spec fn bytes(self) -> Seq<u8> {
        seq![
            byte(self.source_port as int, 1),
            byte(self.source_port as int, 0),
            byte(self.destination_port as int, 1),
            byte(self.destination_port as int, 0),
            byte(self.len as int, 1),
            byte(self.len as int, 0),
            byte(self.checksum as int, 1),
            byte(self.checksum as int, 0),
        ]
    }
}

/// A UDP datagram whose length fits the packet, to a port other than zero, is accepted
/// if its checksum is right or the device looked at it, or, over IPv4, if it has none;
/// it is recorded with what its sender wrote.
pub proof fn sound_datagram_is_accepted(
    frame: Seq<u8>,
    network: NetworkModel,
    facts: NetStackPacketInput,
    rss_key: Seq<u8>,
    rss_generation: u32,
    header: UdpHeader,
)
    requires
        carries(network, 17),
        header.destination_port != 0,
        stands(frame, network.payload_offset as int, header.bytes()),
        8 <= header.len <= network.payload_len,
        network.payload_offset + header.len <= frame.len(),
        header.checksum == 0 ==> network.family == Family::Ipv4,
        header.checksum == 0 || facts.checksums_validated != 0 || checksum::checksum_holds(
            summed(frame, network, 17, header.len as int),
        ),
    ensures
        ({
            let record = transport::transport_record(frame, network, facts, rss_key, rss_generation);
            &&& record.outcome == TransportOutcome::Udp
            &&& record.protocol == 17
            &&& record.source_port == header.source_port
            &&& record.destination_port == header.destination_port
            &&& record.header_len == 8
            &&& record.payload_offset == network.payload_offset + 8
            &&& record.payload_len == header.len - 8
        }),
{
    let at = network.payload_offset as int;
    let b = header.bytes();
    assert(frame[at] == b[0] && frame[at + 1] == b[1] && frame[at + 2] == b[2] && frame[at + 3]
        == b[3]);
    assert(frame[at + 4] == b[4] && frame[at + 5] == b[5] && frame[at + 6] == b[6] && frame[at + 7]
        == b[7]);
    lemma_summed(frame, network, 17, header.len as int);
}

/// A sent list of TCP options: the largest segment, that selective acknowledgements are
/// permitted, both timestamps and the window scale.
pub open spec fn syn_options(mss: u16, stamp: u32, echo: u32, scale: u8) -> Seq<u8> {
    seq![
        2u8,
        4u8,
        byte(mss as int, 1),
        byte(mss as int, 0),
        4u8,
        2u8,
        8u8,
        10u8,
        byte(stamp as int, 3),
        byte(stamp as int, 2),
        byte(stamp as int, 1),
        byte(stamp as int, 0),
        byte(echo as int, 3),
        byte(echo as int, 2),
        byte(echo as int, 1),
        byte(echo as int, 0),
        1u8,
        3u8,
        3u8,
        scale,
    ]
}

/// The options that open a connection are read as they were written; a scale above 14
/// counts as 14.
pub proof fn options_are_read_as_written(
    frame: Seq<u8>,
    at: int,
    mss: u16,
    stamp: u32,
    echo: u32,
    scale: u8,
)
    requires
        mss != 0,
        stands(frame, at, syn_options(mss, stamp, echo, scale)),
    ensures
        tcp::tcp_options_of(frame, at, 40) == Ok::<TcpOptionsModel, DropReason>(
            (TcpOptionsModel {
                has_mss: true,
                maximum_segment_size: mss,
                sack_permitted: true,
                has_timestamp: true,
                timestamp_value: stamp,
                timestamp_echo_reply: echo,
                has_window_scale: true,
                window_scale: if scale > 14 {
                    14
                } else {
                    scale
                },
                ..types::tcp_options_blank()
            }),
        ),
{
    let b = syn_options(mss, stamp, echo, scale);
    lemma_four_bytes(stamp);
    lemma_four_bytes(echo);
    assert(frame[at] == b[0] && frame[at + 1] == b[1] && frame[at + 2] == b[2] && frame[at + 3]
        == b[3]);
    assert(frame[at + 4] == b[4] && frame[at + 5] == b[5] && frame[at + 6] == b[6] && frame[at + 7]
        == b[7]);
    assert(frame[at + 8] == b[8] && frame[at + 9] == b[9] && frame[at + 10] == b[10] && frame[at
        + 11] == b[11]);
    assert(frame[at + 12] == b[12] && frame[at + 13] == b[13] && frame[at + 14] == b[14] && frame[at
        + 15] == b[15]);
    assert(frame[at + 16] == b[16] && frame[at + 17] == b[17] && frame[at + 18] == b[18] && frame[at
        + 19] == b[19]);
    let end = at + 20;
    let none = types::tcp_options_blank();
    let one = TcpOptionsModel { has_mss: true, maximum_segment_size: mss, ..none };
    let two = TcpOptionsModel { sack_permitted: true, ..one };
    let three = TcpOptionsModel {
        has_timestamp: true,
        timestamp_value: stamp,
        timestamp_echo_reply: echo,
        ..two
    };
    let four = TcpOptionsModel {
        has_window_scale: true,
        window_scale: if scale > 14 {
            14
        } else {
            scale
        },
        ..three
    };
    assert(tcp::with_option(frame, at, 4, none) == one);
    assert(tcp::with_option(frame, at + 4, 2, one) == two);
    assert(tcp::with_option(frame, at + 6, 10, two) == three);
    assert(tcp::with_option(frame, at + 17, 3, three) == four);
    assert(tcp::options_from(frame, end, end, four, false) == Ok::<TcpOptionsModel, DropReason>(
        four,
    ));
    assert(tcp::options_from(frame, at + 17, end, three, false) == tcp::options_from(
        frame,
        end,
        end,
        four,
        false,
    ));
    assert(tcp::options_from(frame, at + 16, end, three, false) == tcp::options_from(
        frame,
        at + 17,
        end,
        three,
        false,
    ));
    assert(tcp::options_from(frame, at + 6, end, two, false) == tcp::options_from(
        frame,
        at + 16,
        end,
        three,
        false,
    ));
    assert(tcp::options_from(frame, at + 4, end, one, false) == tcp::options_from(
        frame,
        at + 6,
        end,
        two,
        false,
    ));
    assert(tcp::options_from(frame, at, end, none, false) == tcp::options_from(
        frame,
        at + 4,
        end,
        one,
        false,
    ));
}

/// A sent selective acknowledgement of one block, padded to whole words.
pub open spec fn sack_option(left: u32, right: u32) -> Seq<u8> {
    seq![
        1u8,
        1u8,
        5u8,
        10u8,
        byte(left as int, 3),
        byte(left as int, 2),
        byte(left as int, 1),
        byte(left as int, 0),
        byte(right as int, 3),
        byte(right as int, 2),
        byte(right as int, 1),
        byte(right as int, 0),
    ]
}

/// A selective acknowledgement is read with both of its edges.
pub proof fn acknowledged_block_is_read_as_written(frame: Seq<u8>, at: int, left: u32, right: u32)
    requires
        stands(frame, at, sack_option(left, right)),
    ensures
        tcp::tcp_options_of(frame, at, 32) matches Ok(options) && options.sack_count == 1
            && options.sack_left[0] == left && options.sack_right[0] == right && !options.has_mss
            && !options.has_window_scale && !options.sack_permitted && !options.has_timestamp,
{
    let b = sack_option(left, right);
    lemma_four_bytes(left);
    lemma_four_bytes(right);
    assert(frame[at] == b[0] && frame[at + 1] == b[1] && frame[at + 2] == b[2] && frame[at + 3]
        == b[3]);
    assert(frame[at + 4] == b[4] && frame[at + 5] == b[5] && frame[at + 6] == b[6] && frame[at + 7]
        == b[7]);
    assert(frame[at + 8] == b[8] && frame[at + 9] == b[9] && frame[at + 10] == b[10] && frame[at
        + 11] == b[11]);
    reveal_with_fuel(tcp::options_from, 5);
}

/// An Ethernet header as it is sent.
pub open spec fn ethernet_bytes(destination: Seq<u8>, source: Seq<u8>, ethertype: int) -> Seq<u8> {
    destination + source + seq![byte(ethertype, 1), byte(ethertype, 0)]
}

/// An Ethernet header is read as it was written; ARP, IPv4 and IPv6 are taken, and a
/// tagged frame is told apart from the others that are not.
pub proof fn ethernet_header_is_read_as_written(
    frame: Seq<u8>,
    destination: Seq<u8>,
    source: Seq<u8>,
    ethertype: u16,
)
    requires
        destination.len() == 6,
        source.len() == 6,
        stands(frame, 0, ethernet_bytes(destination, source, ethertype as int)),
    ensures
        ({
            let record = batch::ethernet_record(frame);
            &&& record.destination == destination
            &&& record.source == source
            &&& record.ethertype == ethertype
            &&& record.status == EthernetStatus::Accepted <==> (ethertype == 0x0800 || ethertype
                == 0x0806 || ethertype == 0x86dd)
            &&& record.status == EthernetStatus::VlanUnsupported <==> (ethertype == 0x8100
                || ethertype == 0x88a8)
            &&& record.status != EthernetStatus::Truncated && record.status
                != EthernetStatus::Empty
        }),
{
    let b = ethernet_bytes(destination, source, ethertype as int);
    assert(frame[12] == b[12]);
    assert(frame[13] == b[13]);
    assert forall|i: int| 0 <= i < 6 implies frame.subrange(0, 6)[i] == destination[i] by {
        assert(frame[0 + i] == b[i]);
    }
    assert(frame.subrange(0, 6) =~= destination);
    assert forall|i: int| 0 <= i < 6 implies frame.subrange(6, 12)[i] == source[i] by {
        assert(frame[0 + (6 + i)] == b[6 + i]);
    }
    assert(frame.subrange(6, 12) =~= source);
}

/// An ARP message as it is sent, from the first byte behind the Ethernet header on.
pub open spec fn arp_bytes(
    operation: int,
    sender_mac: Seq<u8>,
    sender: Seq<u8>,
    target_mac: Seq<u8>,
    target: Seq<u8>,
) -> Seq<u8> {
    seq![0u8, 1u8, 8u8, 0u8, 6u8, 4u8, 0u8, byte(operation, 0)] + sender_mac + sender + target_mac
        + target
}

/// A request or reply for an address of the host is recorded with who asks for whom; one
/// for another host is dropped.
pub proof fn arp_message_is_read_as_written(
    frame: Seq<u8>,
    interface: u32,
    addresses: Seq<NetStackLocalAddress>,
    operation: int,
    sender_mac: Seq<u8>,
    sender: Seq<u8>,
    target_mac: Seq<u8>,
    target: Seq<u8>,
)
    requires
        1 <= operation <= 2,
        sender_mac.len() == 6,
        target_mac.len() == 6,
        sender.len() == 4,
        target.len() == 4,
        stands(frame, 14, arp_bytes(operation, sender_mac, sender, target_mac, target)),
    ensures
        ({
            let record = ipv4::arp_record(frame, interface, addresses);
            if ip::local_ipv4(interface, addresses, target) {
                &&& record.outcome == NetworkOutcome::Arp
                &&& record.family == Family::Ipv4
                &&& record.arp_operation == operation
                &&& record.arp_sender_mac == sender_mac
                &&& record.arp_target_mac == target_mac
                &&& record.source.take(4) == sender
                &&& record.destination.take(4) == target
            } else {
                record == types::network_dropped(DropReason::NotLocal)
            }
        }),
{
    let b = arp_bytes(operation, sender_mac, sender, target_mac, target);
    assert(b.len() == 28);
    assert(frame[14] == b[0] && frame[15] == b[1] && frame[16] == b[2] && frame[17]
        == b[3] && frame[18] == b[4] && frame[19] == b[5] && frame[20] == b[6]
        && frame[21] == b[7]);
    assert forall|i: int| 0 <= i < 6 implies frame.subrange(22, 28)[i] == sender_mac[i] by {
        assert(frame[14 + (8 + i)] == b[8 + i]);
    }
    assert(frame.subrange(22, 28) =~= sender_mac);
    assert forall|i: int| 0 <= i < 4 implies frame.subrange(28, 32)[i] == sender[i] by {
        assert(frame[14 + (14 + i)] == b[14 + i]);
    }
    assert(frame.subrange(28, 32) =~= sender);
    assert forall|i: int| 0 <= i < 6 implies frame.subrange(32, 38)[i] == target_mac[i] by {
        assert(frame[14 + (18 + i)] == b[18 + i]);
    }
    assert(frame.subrange(32, 38) =~= target_mac);
    assert forall|i: int| 0 <= i < 4 implies frame.subrange(38, 42)[i] == target[i] by {
        assert(frame[14 + (24 + i)] == b[24 + i]);
    }
    assert(frame.subrange(38, 42) =~= target);
    let record = ipv4::arp_record(frame, interface, addresses);
    if ip::local_ipv4(interface, addresses, target) {
        assert(record.source.take(4) =~= sender);
        assert(record.destination.take(4) =~= target);
    }
}

/// An IPv4 header as it is sent.
pub ghost struct Ipv4Header {
    /// How many words of 32 bits the header has, options included.
    pub words: int,
    pub traffic_class: u8,
    pub total_len: u16,
    pub identification: u16,
    pub dont_fragment: bool,
    pub more_fragments: bool,
    /// In units of eight bytes.
    pub fragment_offset: int,
    pub hop_limit: u8,
    pub protocol: u8,
    pub checksum: u16,
    pub source: Seq<u8>,
    pub destination: Seq<u8>,
}

impl Ipv4Header {
    pub open spec fn wf(self) -> bool {
        &&& 5 <= self.words <= 15
        &&& 0 <= self.fragment_offset < 0x2000
        &&& self.source.len() == 4
        &&& self.destination.len() == 4
    }

    /// The header without its options.
    pub open spec fn bytes(self) -> Seq<u8> {
        let flags = (if self.dont_fragment {
            0x40int
        } else {
            0
        }) + (if self.more_fragments {
            0x20int
        } else {
            0
        });
        seq![
            (0x40 + self.words) as u8,
            self.traffic_class,
            byte(self.total_len as int, 1),
            byte(self.total_len as int, 0),
            byte(self.identification as int, 1),
            byte(self.identification as int, 0),
            (flags + self.fragment_offset / 0x100) as u8,
            byte(self.fragment_offset, 0),
            self.hop_limit,
            self.protocol,
            byte(self.checksum as int, 1),
            byte(self.checksum as int, 0),
        ] + self.source + self.destination
    }
}

/// An IPv4 packet whose lengths fit and whose header checksum is right, or was looked at
/// by the device, is recorded with what its sender wrote if it is for the host, and is
/// dropped if not. It counts as a fragment if it has an offset or others follow it.
pub proof fn ipv4_header_is_read_as_written(
    frame: Seq<u8>,
    interface: u32,
    addresses: Seq<NetStackLocalAddress>,
    frame_len: u32,
    validated: bool,
    header: Ipv4Header,
)
    requires
        header.wf(),
        stands(frame, 14, header.bytes()),
        4 * header.words <= header.total_len,
        14 + header.total_len <= frame_len,
        14 + 4 * header.words <= frame.len(),
        validated || checksum::checksum_holds(frame.subrange(14, 14 + 4 * header.words)),
    ensures
        ({
            let record = ipv4::ipv4_record(frame, interface, addresses, frame_len, validated);
            if ip::local_ipv4(interface, addresses, header.destination) {
                &&& record.outcome == NetworkOutcome::Ip
                &&& record.family == Family::Ipv4
                &&& record.next_header == header.protocol
                &&& record.traffic_class == header.traffic_class
                &&& record.hop_limit == header.hop_limit
                &&& record.header_len == 4 * header.words
                &&& record.payload_offset == 14 + 4 * header.words
                &&& record.payload_len == header.total_len - 4 * header.words
                &&& record.fragment_offset == header.fragment_offset
                &&& record.flags.more_fragments == header.more_fragments
                &&& record.flags.fragment == (header.fragment_offset != 0 || header.more_fragments)
                &&& !record.flags.ipv6_problem
                &&& record.flags.fragment ==> record.fragment_identification
                    == header.identification
                &&& record.source.take(4) == header.source
                &&& record.destination.take(4) == header.destination
            } else {
                record == types::network_dropped(DropReason::NotLocal)
            }
        }),
{
    let b = header.bytes();
    assert(b.len() == 20);
    assert(frame[14] == b[0] && frame[15] == b[1] && frame[16] == b[2] && frame[17]
        == b[3] && frame[18] == b[4] && frame[19] == b[5]);
    assert(frame[20] == b[6] && frame[21] == b[7] && frame[22] == b[8] && frame[23]
        == b[9]);
    assert(frame[14] % 16 == header.words && frame[14] / 16 == 4);
    let field = frame[20] * 0x100 + frame[21];
    assert(field % 0x2000 == header.fragment_offset);
    assert(field / 0x2000 % 2 == (if header.more_fragments {
        1int
    } else {
        0
    }));
    assert forall|i: int| 0 <= i < 4 implies frame.subrange(26, 30)[i] == header.source[i] by {
        assert(frame[14 + (12 + i)] == b[12 + i]);
    }
    assert(frame.subrange(26, 30) =~= header.source);
    assert forall|i: int| 0 <= i < 4 implies frame.subrange(30, 34)[i]
        == header.destination[i] by {
        assert(frame[14 + (16 + i)] == b[16 + i]);
    }
    assert(frame.subrange(30, 34) =~= header.destination);
    checksum::zero_checksum_is_valid(frame.subrange(14, 14 + 4 * header.words));
    let record = ipv4::ipv4_record(frame, interface, addresses, frame_len, validated);
    if ip::local_ipv4(interface, addresses, header.destination) {
        assert(record.source.take(4) =~= header.source);
        assert(record.destination.take(4) =~= header.destination);
    }
}

/// An IPv6 header as it is sent.
pub ghost struct Ipv6Header {
    pub traffic_class: u8,
    /// Twenty bits.
    pub flow_label: int,
    pub payload_len: u16,
    pub next_header: u8,
    pub hop_limit: u8,
    pub source: Seq<u8>,
    pub destination: Seq<u8>,
}

impl Ipv6Header {
    pub open spec fn wf(self) -> bool {
        &&& 0 <= self.flow_label < 0x10_0000
        &&& self.source.len() == 16
        &&& self.destination.len() == 16
    }

    pub open spec fn bytes(self) -> Seq<u8> {
        seq![
            (0x60 + self.traffic_class / 16) as u8,
            (self.traffic_class % 16 * 16 + self.flow_label / 0x1_0000) as u8,
            byte(self.flow_label, 1),
            byte(self.flow_label, 0),
            byte(self.payload_len as int, 1),
            byte(self.payload_len as int, 0),
            self.next_header,
            self.hop_limit,
        ] + self.source + self.destination
    }
}

/// Whether a record has what a sender wrote into a header.
pub open spec fn is_ipv6_packet(record: NetworkModel, header: Ipv6Header) -> bool {
    &&& record.outcome == NetworkOutcome::Ip
    &&& record.family == Family::Ipv6
    &&& record.traffic_class == header.traffic_class
    &&& record.hop_limit == header.hop_limit
    &&& record.source == header.source
    &&& record.destination == header.destination
    &&& !record.flags.ipv6_problem
}

proof fn lemma_ipv6_header(frame: Seq<u8>, header: Ipv6Header)
    requires
        header.wf(),
        stands(frame, 14, header.bytes()),
    ensures
        frame.len() >= 54,
        frame[14] / 16 == 6,
        frame[14] % 16 * 16 + frame[15] / 16 == header.traffic_class,
        frame[18] * 0x100 + frame[19] == header.payload_len,
        frame[20] == header.next_header,
        frame[21] == header.hop_limit,
        frame.subrange(22, 38) == header.source,
        frame.subrange(38, 54) == header.destination,
{
    let b = header.bytes();
    assert(b.len() == 40);
    assert(frame[14] == b[0] && frame[15] == b[1] && frame[18] == b[4] && frame[19]
        == b[5] && frame[20] == b[6] && frame[21] == b[7]);
    assert forall|i: int| 0 <= i < 16 implies frame.subrange(22, 38)[i] == header.source[i] by {
        assert(frame[14 + (8 + i)] == b[8 + i]);
    }
    assert(frame.subrange(22, 38) =~= header.source);
    assert forall|i: int| 0 <= i < 16 implies frame.subrange(38, 54)[i]
        == header.destination[i] by {
        assert(frame[14 + (24 + i)] == b[24 + i]);
    }
    assert(frame.subrange(38, 54) =~= header.destination);
}

/// An IPv6 packet without extension headers that fits the frame is recorded with what
/// its sender wrote if it is for the host, and is dropped if not.
pub proof fn ipv6_header_is_read_as_written(
    frame: Seq<u8>,
    interface: u32,
    addresses: Seq<NetStackLocalAddress>,
    frame_len: u32,
    header: Ipv6Header,
)
    requires
        header.wf(),
        stands(frame, 14, header.bytes()),
        54 + header.payload_len <= frame_len,
        header.next_header != 0,
        header.next_header != 44,
        header.next_header != 60,
    ensures
        ({
            let record = ipv6::ipv6_record(frame, interface, addresses, frame_len);
            if ip::local_ipv6(interface, addresses, header.destination) {
                &&& is_ipv6_packet(record, header)
                &&& record.next_header == header.next_header
                &&& record.header_len == 40
                &&& record.payload_offset == 54
                &&& record.payload_len == header.payload_len
                &&& !record.flags.fragment
                &&& !record.flags.more_fragments
                &&& record.fragment_offset == 0
            } else {
                record == types::network_dropped(DropReason::NotLocal)
            }
        }),
{
    lemma_ipv6_header(frame, header);
}

/// A fragment header of IPv6 as it is sent.
pub open spec fn fragment_bytes(
    next_header: u8,
    offset: int,
    more: bool,
    identification: u32,
) -> Seq<u8> {
    seq![
        next_header,
        0u8,
        byte(offset * 8, 1),
        (offset * 8 % 0x100 + (if more {
            1int
        } else {
            0
        })) as u8,
        byte(identification as int, 3),
        byte(identification as int, 2),
        byte(identification as int, 1),
        byte(identification as int, 0),
    ]
}

/// A fragment of an IPv6 packet is recorded with where it belongs; one with no offset
/// that nothing follows is the whole packet.
pub proof fn ipv6_fragment_is_read_as_written(
    frame: Seq<u8>,
    interface: u32,
    addresses: Seq<NetStackLocalAddress>,
    frame_len: u32,
    header: Ipv6Header,
    next_header: u8,
    offset: int,
    more: bool,
    identification: u32,
)
    requires
        header.wf(),
        stands(frame, 14, header.bytes()),
        stands(frame, 54, fragment_bytes(next_header, offset, more, identification)),
        8 <= header.payload_len,
        54 + header.payload_len <= frame_len,
        header.next_header == 44,
        0 <= offset < 0x2000,
        ip::local_ipv6(interface, addresses, header.destination),
    ensures
        ({
            let record = ipv6::ipv6_record(frame, interface, addresses, frame_len);
            &&& is_ipv6_packet(record, header)
            &&& record.next_header == next_header
            &&& record.payload_offset == 62
            &&& record.payload_len == header.payload_len - 8
            &&& record.fragment_offset == offset
            &&& record.flags.more_fragments == more
            &&& record.flags.fragment == (offset != 0 || more)
            &&& record.flags.fragment ==> record.fragment_identification == identification
        }),
{
    lemma_ipv6_header(frame, header);
    lemma_four_bytes(identification);
    let b = fragment_bytes(next_header, offset, more, identification);
    assert(frame[54] == b[0] && frame[56] == b[2] && frame[57] == b[3]);
    assert(frame[58] == b[4] && frame[59] == b[5] && frame[60] == b[6] && frame[61]
        == b[7]);
    let field = frame[56] * 0x100 + frame[57];
    assert(field == offset * 8 + (if more {
        1int
    } else {
        0
    }));
    assert(field / 8 == offset);
}

/// Each packet is parsed by the protocol that its Ethernet header names.
pub proof fn packets_go_to_their_protocol(
    frame: Seq<u8>,
    interface: u32,
    addresses: Seq<NetStackLocalAddress>,
    facts: NetStackPacketInput,
    rss_key: Seq<u8>,
    rss_generation: u32,
)
    requires
        frame.len() >= 14,
    ensures
        ({
            let slot = batch::packet_record(
                frame,
                interface,
                addresses,
                facts,
                rss_key,
                rss_generation,
            );
            let ethertype = frame[12] * 0x100 + frame[13];
            &&& ethertype == 0x0806 ==> slot.network == ipv4::arp_record(frame, interface, addresses)
            &&& ethertype == 0x0800 ==> slot.network == ipv4::ipv4_record(
                frame,
                interface,
                addresses,
                facts.frame_len,
                facts.checksums_validated != 0,
            )
            &&& ethertype == 0x86dd ==> slot.network == ipv6::ipv6_record(
                frame,
                interface,
                addresses,
                facts.frame_len,
            )
            &&& slot.network.outcome == NetworkOutcome::Skipped <==> ethertype != 0x0806
                && ethertype != 0x0800 && ethertype != 0x86dd
            &&& slot.network.outcome != NetworkOutcome::Ip ==> slot.transport.outcome
                == TransportOutcome::Skipped
            &&& slot.network.outcome == NetworkOutcome::Ip ==> slot.transport
                == transport::transport_record(frame, slot.network, facts, rss_key, rss_generation)
        }),
{
    reveal(batch::packet_record);
}

/// Whether the checksum of a control message is right.
pub open spec fn message_right(frame: Seq<u8>, network: NetworkModel) -> bool {
    let at = network.payload_offset as int;
    checksum::checksum_holds(
        if network.family == Family::Ipv4 {
            frame.subrange(at, at + network.payload_len)
        } else {
            summed(frame, network, 58, network.payload_len as int)
        },
    )
}

proof fn lemma_message(frame: Seq<u8>, network: NetworkModel)
    requires
        network.family != Family::Unspecified,
        8 <= network.payload_len,
        network.payload_offset + network.payload_len <= frame.len(),
    ensures
        message_right(frame, network) <==> if network.family == Family::Ipv4 {
            checksum::checksum_of(
                frame.subrange(
                    network.payload_offset as int,
                    network.payload_offset + network.payload_len,
                ),
            ) == 0
        } else {
            transport::whole_checksum_ok(frame, network, 58)
        },
{
    let at = network.payload_offset as int;
    checksum::zero_checksum_is_valid(frame.subrange(at, at + network.payload_len));
    if network.family == Family::Ipv6 {
        lemma_summed(frame, network, 58, network.payload_len as int);
    }
}

/// A message of a control protocol is handed on whole, and only if its checksum is right
/// or the device looked at it.
pub proof fn control_message_is_handed_on_whole(
    frame: Seq<u8>,
    network: NetworkModel,
    facts: NetStackPacketInput,
    rss_key: Seq<u8>,
    rss_generation: u32,
)
    requires
        (network.family == Family::Ipv4 && carries(network, 1)) || (network.family == Family::Ipv6
            && carries(network, 58)),
        8 <= network.payload_len,
        network.payload_offset + network.payload_len <= frame.len(),
    ensures
        ({
            let record = transport::transport_record(frame, network, facts, rss_key, rss_generation);
            if facts.checksums_validated != 0 || message_right(frame, network) {
                &&& record.outcome == TransportOutcome::Icmp
                &&& record.protocol == network.next_header
                &&& record.payload_offset == network.payload_offset
                &&& record.payload_len == network.payload_len
            } else {
                record == types::transport_dropped(DropReason::UnsupportedIpProtocol)
            }
        }),
{
    lemma_message(frame, network);
}

} // verus!
