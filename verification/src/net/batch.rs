//! Parsing a batch of received packets into one record per layer.

use vstd::prelude::*;
use crate::bytes;
use crate::bytes::{array6, be16};
use crate::net::ip;
use crate::net::ip::address_projection_valid;
use crate::net::ipv4;
use crate::net::ipv4::{parse_arp, parse_ipv4};
use crate::net::ipv6;
use crate::net::ipv6::parse_ipv6;
use crate::net::transport;
use crate::net::transport::parse_transport;
use crate::net::types;
use crate::net::types::{
    EthernetModel, EthernetStatus, NetStackEthernet, NetStackLocalAddress, NetStackNetwork,
    NetStackPacketInput, NetStackTransport, NetworkModel, NetworkOutcome, empty_ethernet,
    empty_network, empty_transport, ethernet_is_empty, network_is_empty, transport_is_empty,
};

verus! {

/// The parse of one batch: what the device said of each packet, and one record
/// per packet and layer.
pub struct NetStackPacketParse {
    pub generation: u64,
    pub config_generation: u64,
    pub interface: u32,
    pub rss_key: [u8; 40],
    pub rss_generation: u32,
    pub input_count: u8,
    pub committed: u8,
    pub reserved0: [u8; 6],
    pub reserved1: [u8; 2],
    pub packet_inputs: Vec<NetStackPacketInput>,
    pub ethernet: Vec<NetStackEthernet>,
    pub network: Vec<NetStackNetwork>,
    pub transport: Vec<NetStackTransport>,
}

impl NetStackPacketParse {
    /// All four tables have a slot for each packet that a batch can hold.
    pub open spec fn wf(&self) -> bool {
        &&& self.packet_inputs@.len() == self.ethernet@.len()
        &&& self.network@.len() == self.ethernet@.len()
        &&& self.transport@.len() == self.ethernet@.len()
    }
}

/// Nothing is known of the packet in a slot that holds none.
pub open spec fn input_blank() -> NetStackPacketInput {
    NetStackPacketInput {
        present: 0,
        checksums_validated: 0,
        rss_hash_present: 0,
        reserved: 0,
        frame_len: 0,
        rss_hash: 0,
        rss_generation: 0,
    }
}

/// Whether the facts of a slot in use make sense: flags are 0 or 1, a hash
/// comes with its flag, and an absent packet has no facts.
pub open spec fn input_valid(facts: NetStackPacketInput) -> bool {
    &&& facts.present <= 1
    &&& facts.checksums_validated <= 1
    &&& facts.rss_hash_present <= 1
    &&& facts.reserved == 0
    &&& facts.rss_hash_present == 1 || facts.rss_hash == 0
    &&& facts.present == 1 || facts == input_blank()
}

/// Whether slots in use hold valid facts and all others are blank.
pub open spec fn inputs_valid(inputs: Seq<NetStackPacketInput>, count: int) -> bool {
    &&& forall|i: int| 0 <= i < count ==> input_valid(#[trigger] inputs[i])
    &&& forall|i: int| count <= i < inputs.len() ==> #[trigger] inputs[i] == input_blank()
}

/// Whether the fixed part of a parse request is valid for `generation`.
pub open spec fn header_valid(turn: NetStackPacketParse, generation: u64) -> bool {
    &&& turn.generation == generation
    &&& turn.config_generation != 0
    &&& turn.interface != 0
    &&& turn.rss_generation != 0
    &&& turn.input_count <= turn.ethernet@.len()
    &&& forall|i: int| 0 <= i < 6 ==> #[trigger] turn.reserved0@[i] == 0
    &&& forall|i: int| 0 <= i < 2 ==> #[trigger] turn.reserved1@[i] == 0
}

/// Checks the fixed part of a parse request.
pub fn packet_parse_header_valid(turn: &NetStackPacketParse, generation: u64) -> (valid: bool)
    ensures
        valid == header_valid(*turn, generation),
{
    turn.generation == generation && turn.config_generation != 0 && turn.interface != 0
        && turn.rss_generation != 0 && turn.input_count as usize <= turn.ethernet.len()
        && types::all_zero(&turn.reserved0) && types::all_zero(&turn.reserved1)
}

/// Checks what the device said of each packet.
pub fn packet_inputs_valid(turn: &NetStackPacketParse) -> (valid: bool)
    requires
        turn.input_count <= turn.packet_inputs@.len(),
    ensures
        valid == inputs_valid(turn.packet_inputs@, turn.input_count as int),
{
    let count: usize = turn.input_count as usize;
    let mut i: usize = 0;
    while i < turn.packet_inputs.len()
        invariant
            i <= turn.packet_inputs@.len(),
            count == turn.input_count,
            count <= turn.packet_inputs@.len(),
            forall|j: int| 0 <= j < i && j < count ==> input_valid(#[trigger] turn.packet_inputs@[j]),
            forall|j: int| count <= j < i ==> #[trigger] turn.packet_inputs@[j] == input_blank(),
        decreases turn.packet_inputs@.len() - i,
    {
        let facts = turn.packet_inputs[i];
        let blank = facts.present == 0 && facts.checksums_validated == 0 && facts.rss_hash_present
            == 0 && facts.reserved == 0 && facts.frame_len == 0 && facts.rss_hash == 0
            && facts.rss_generation == 0;
        assert(blank == (facts == input_blank()));
        if i < count {
            let valid = facts.present <= 1 && facts.checksums_validated <= 1
                && facts.rss_hash_present <= 1 && facts.reserved == 0 && (facts.rss_hash_present
                == 1 || facts.rss_hash == 0) && (facts.present == 1 || blank);
            if !valid {
                assert(!input_valid(turn.packet_inputs@[i as int]));
                return false;
            }
        } else if !blank {
            return false;
        }
        i += 1;
    }
    true
}

/// A parse request for a batch of `count` packets, all records still blank.
pub fn new_packet_parse(
    generation: u64,
    config_generation: u64,
    interface: u32,
    rss_key: [u8; 40],
    rss_generation: u32,
    count: u8,
    packet_inputs: Vec<NetStackPacketInput>,
) -> (turn: NetStackPacketParse)
    requires
        count <= packet_inputs@.len(),
    ensures
        turn.wf(),
        turn.generation == generation,
        turn.config_generation == config_generation,
        turn.interface == interface,
        turn.rss_key == rss_key,
        turn.rss_generation == rss_generation,
        turn.input_count == count,
        turn.committed == 0,
        turn.packet_inputs == packet_inputs,
        header_valid(turn, generation) == (config_generation != 0 && interface != 0
            && rss_generation != 0),
        forall|i: int|
            0 <= i < packet_inputs@.len() ==> blank_slot(#[trigger] slot_at(turn, i)),
{
    let capacity: usize = packet_inputs.len();
    let mut ethernet: Vec<NetStackEthernet> = Vec::new();
    let mut network: Vec<NetStackNetwork> = Vec::new();
    let mut transport: Vec<NetStackTransport> = Vec::new();
    let mut i: usize = 0;
    while i < capacity
        invariant
            i <= capacity,
            ethernet@.len() == i,
            network@.len() == i,
            transport@.len() == i,
            forall|j: int| 0 <= j < i ==> (#[trigger] ethernet@[j])@ == types::ethernet_blank(),
            forall|j: int| 0 <= j < i ==> (#[trigger] network@[j])@ == types::network_blank(),
            forall|j: int| 0 <= j < i ==> (#[trigger] transport@[j])@ == types::transport_blank(),
        decreases capacity - i,
    {
        ethernet.push(empty_ethernet());
        network.push(empty_network());
        transport.push(empty_transport());
        i += 1;
    }
    NetStackPacketParse {
        generation,
        config_generation,
        interface,
        rss_key,
        rss_generation,
        input_count: count,
        committed: 0,
        reserved0: [0u8; 6],
        reserved1: [0u8; 2],
        packet_inputs,
        ethernet,
        network,
        transport,
    }
}

/// The three records of one packet.
pub ghost struct Slot {
    pub ethernet: EthernetModel,
    pub network: NetworkModel,
    pub transport: types::TransportModel,
}

/// The records of packet `i`.
pub open spec fn slot_at(turn: NetStackPacketParse, i: int) -> Slot {
    Slot {
        ethernet: turn.ethernet@[i]@,
        network: turn.network@[i]@,
        transport: turn.transport@[i]@,
    }
}

/// Whether nothing was written to the records yet.
pub open spec fn blank_slot(slot: Slot) -> bool {
    &&& slot.ethernet == types::ethernet_blank()
    &&& slot.network == types::network_blank()
    &&& slot.transport == types::transport_blank()
}

/// The Ethernet record of a frame.
pub open spec fn ethernet_record(frame: Seq<u8>) -> EthernetModel {
    if frame.len() < 14 {
        EthernetModel { status: EthernetStatus::Truncated, ..types::ethernet_blank() }
    } else {
        let ethertype = bytes::be16_at(frame, 12);
        EthernetModel {
            destination: frame.subrange(0, 6),
            source: frame.subrange(6, 12),
            ethertype,
            status: if ethertype == 0x0800 || ethertype == 0x0806 || ethertype == 0x86dd {
                EthernetStatus::Accepted
            } else if ethertype == 0x8100 || ethertype == 0x88a8 {
                EthernetStatus::VlanUnsupported
            } else {
                EthernetStatus::Unsupported
            },
        }
    }
}

/// Reads an Ethernet header.
pub fn parse_ethernet(frame: &[u8]) -> (record: NetStackEthernet)
    ensures
        record@ == ethernet_record(frame@),
{
    if frame.len() < 14 {
        return NetStackEthernet { status: EthernetStatus::Truncated, ..empty_ethernet() };
    }
    let ethertype: u16 = be16(frame, 12);
    let status = if ethertype == 0x0800 || ethertype == 0x0806 || ethertype == 0x86dd {
        EthernetStatus::Accepted
    } else if ethertype == 0x8100 || ethertype == 0x88a8 {
        EthernetStatus::VlanUnsupported
    } else {
        EthernetStatus::Unsupported
    };
    NetStackEthernet { destination: array6(frame, 0), source: array6(frame, 6), ethertype, status }
}

/// The network record of a frame, by its Ethernet record.
pub open spec fn network_record(
    frame: Seq<u8>,
    ethernet: EthernetModel,
    interface: u32,
    addresses: Seq<NetStackLocalAddress>,
    facts: NetStackPacketInput,
) -> NetworkModel {
    if ethernet.status != EthernetStatus::Accepted {
        NetworkModel { outcome: NetworkOutcome::Skipped, ..types::network_blank() }
    } else if ethernet.ethertype == 0x0806 {
        ipv4::arp_record(frame, interface, addresses)
    } else if ethernet.ethertype == 0x0800 {
        ipv4::ipv4_record(
            frame,
            interface,
            addresses,
            facts.frame_len,
            facts.checksums_validated != 0,
        )
    } else {
        ipv6::ipv6_record(frame, interface, addresses, facts.frame_len)
    }
}

/// The three records of a frame.
#[verifier::opaque]
pub open spec fn packet_record(
    frame: Seq<u8>,
    interface: u32,
    addresses: Seq<NetStackLocalAddress>,
    facts: NetStackPacketInput,
    rss_key: Seq<u8>,
    rss_generation: u32,
) -> Slot {
    let ethernet = ethernet_record(frame);
    let network = network_record(frame, ethernet, interface, addresses, facts);
    Slot {
        ethernet,
        network,
        transport: transport::transport_record(frame, network, facts, rss_key, rss_generation),
    }
}

/// Reads the network header of a frame.
fn parse_network(
    frame: &[u8],
    ethernet: &NetStackEthernet,
    interface: u32,
    addresses: &[NetStackLocalAddress],
    facts: NetStackPacketInput,
) -> (record: NetStackNetwork)
    requires
        forall|i: int| 0 <= i < addresses@.len() ==> ip::address_valid(#[trigger] addresses@[i]),
        ethernet@ == ethernet_record(frame@),
    ensures
        record@ == network_record(frame@, ethernet@, interface, addresses@, facts),
        record.payload_offset <= 2400,
{
    proof {
        ipv4::ipv4_payload_in_frame(
            frame@,
            interface,
            addresses@,
            facts.frame_len,
            facts.checksums_validated != 0,
        );
        ipv6::ipv6_payload_in_frame(frame@, interface, addresses@, facts.frame_len);
    }
    if ethernet.status != EthernetStatus::Accepted {
        return NetStackNetwork { outcome: NetworkOutcome::Skipped, ..empty_network() };
    }
    if ethernet.ethertype == 0x0806 {
        return parse_arp(frame, interface, addresses);
    }
    if ethernet.ethertype == 0x0800 {
        return parse_ipv4(
            frame,
            interface,
            addresses,
            facts.frame_len,
            facts.checksums_validated != 0,
        );
    }
    parse_ipv6(frame, interface, addresses, facts.frame_len)
}

/// Parses one packet at all three layers.
fn parse_packet(
    frame: &[u8],
    interface: u32,
    addresses: &[NetStackLocalAddress],
    facts: NetStackPacketInput,
    rss_key: &[u8; 40],
    rss_generation: u32,
) -> (records: (NetStackEthernet, NetStackNetwork, NetStackTransport))
    requires
        forall|i: int| 0 <= i < addresses@.len() ==> ip::address_valid(#[trigger] addresses@[i]),
    ensures
        packet_record(frame@, interface, addresses@, facts, rss_key@, rss_generation) == (Slot {
            ethernet: records.0@,
            network: records.1@,
            transport: records.2@,
        }),
{
    let ethernet = parse_ethernet(frame);
    let network = parse_network(frame, &ethernet, interface, addresses, facts);
    let transport = parse_transport(frame, &network, facts, rss_key, rss_generation);
    proof {
        reveal(packet_record);
    }
    (ethernet, network, transport)
}

/// Whether a parse request as a whole is one that may be worked on.
pub open spec fn request_valid(
    turn: NetStackPacketParse,
    frames: Seq<Vec<u8>>,
    addresses: Seq<NetStackLocalAddress>,
) -> bool {
    &&& header_valid(turn, turn.generation)
    &&& turn.committed == 0
    &&& frames.len() == turn.input_count
    &&& inputs_valid(turn.packet_inputs@, turn.input_count as int)
    &&& forall|i: int| 0 <= i < addresses.len() ==> ip::address_valid(#[trigger] addresses[i])
}

/// The record that parsing gives packet `i`.
pub open spec fn expected_slot(
    turn: NetStackPacketParse,
    frames: Seq<Vec<u8>>,
    addresses: Seq<NetStackLocalAddress>,
    i: int,
) -> Slot {
    packet_record(
        frames[i]@,
        turn.interface,
        addresses,
        turn.packet_inputs@[i],
        turn.rss_key@,
        turn.rss_generation,
    )
}

/// Parses every packet of a batch. An invalid request changes nothing. Parsing
/// stops before the first packet whose records were written already; `committed`
/// counts the packets that were parsed.
pub fn parse_packet_batch(
    turn: &mut NetStackPacketParse,
    frames: &Vec<Vec<u8>>,
    addresses: &[NetStackLocalAddress],
) -> (complete: bool)
    requires
        old(turn).wf(),
    ensures
        final(turn).wf(),
        !request_valid(*old(turn), frames@, addresses@) ==> !complete && *final(turn) == *old(turn),
        request_valid(*old(turn), frames@, addresses@) ==> {
            let done = final(turn).committed;
            &&& complete <==> done == old(turn).input_count
            &&& done <= old(turn).input_count
            &&& forall|i: int|
                0 <= i < done ==> blank_slot(#[trigger] slot_at(*old(turn), i)) && slot_at(
                    *final(turn),
                    i,
                ) == expected_slot(*old(turn), frames@, addresses@, i)
            &&& !complete ==> !blank_slot(slot_at(*old(turn), done as int))
            &&& forall|i: int|
                done <= i < old(turn).ethernet@.len() ==> #[trigger] slot_at(*final(turn), i)
                    == slot_at(*old(turn), i)
        },
        final(turn).generation == old(turn).generation,
        final(turn).config_generation == old(turn).config_generation,
        final(turn).interface == old(turn).interface,
        final(turn).rss_key == old(turn).rss_key,
        final(turn).rss_generation == old(turn).rss_generation,
        final(turn).input_count == old(turn).input_count,
        final(turn).packet_inputs == old(turn).packet_inputs,
        final(turn).ethernet@.len() == old(turn).ethernet@.len(),
{
    if !packet_parse_header_valid(turn, turn.generation) || turn.committed != 0 {
        return false;
    }
    if frames.len() != turn.input_count as usize || !packet_inputs_valid(turn) {
        return false;
    }
    let mut k: usize = 0;
    while k < addresses.len()
        invariant
            k <= addresses@.len(),
            forall|j: int| 0 <= j < k ==> ip::address_valid(#[trigger] addresses@[j]),
            *turn == *old(turn),
            turn.wf(),
        decreases addresses@.len() - k,
    {
        if !address_projection_valid(&addresses[k]) {
            assert(!ip::address_valid(addresses@[k as int]));
            return false;
        }
        k += 1;
    }
    let count: u8 = turn.input_count;
    let ghost start = *turn;
    let mut index: u8 = 0;
    while index < count
        invariant
            index <= count,
            turn.wf(),
            count == start.input_count,
            start.wf(),
            start == *old(turn),
            request_valid(start, frames@, addresses@),
            turn.committed == index,
            turn.generation == start.generation,
            turn.config_generation == start.config_generation,
            turn.interface == start.interface,
            turn.rss_key == start.rss_key,
            turn.rss_generation == start.rss_generation,
            turn.input_count == start.input_count,
            turn.packet_inputs == start.packet_inputs,
            turn.ethernet@.len() == start.ethernet@.len(),
            forall|i: int|
                0 <= i < index ==> blank_slot(#[trigger] slot_at(start, i)) && slot_at(*turn, i)
                    == expected_slot(start, frames@, addresses@, i),
            forall|i: int|
                index <= i < start.ethernet@.len() ==> #[trigger] slot_at(*turn, i) == slot_at(
                    start,
                    i,
                ),
        decreases count - index,
    {
        let at: usize = index as usize;
        assert(slot_at(*turn, at as int) == slot_at(start, at as int));
        if !ethernet_is_empty(&turn.ethernet[at]) || !network_is_empty(&turn.network[at])
            || !transport_is_empty(&turn.transport[at]) {
            return false;
        }
        let ghost before = *turn;
        let records = parse_packet(
            frames[at].as_slice(),
            turn.interface,
            addresses,
            turn.packet_inputs[at],
            &turn.rss_key,
            turn.rss_generation,
        );
        turn.ethernet.set(at, records.0);
        turn.network.set(at, records.1);
        turn.transport.set(at, records.2);
        index += 1;
        turn.committed = index;
        assert(slot_at(*turn, at as int) == expected_slot(start, frames@, addresses@, at as int));
        assert forall|i: int| 0 <= i < start.ethernet@.len() && i != at implies #[trigger] slot_at(
            *turn,
            i,
        ) == slot_at(before, i) by {}
    }
    true
}

/// Whether a parse covers every packet of the batch and its facts are valid.
pub fn packet_parse_committed(turn: &NetStackPacketParse, frames: &Vec<Vec<u8>>) -> (all: bool)
    requires
        turn.input_count <= turn.packet_inputs@.len(),
    ensures
        all == (turn.committed == turn.input_count && frames@.len() == turn.input_count
            && inputs_valid(turn.packet_inputs@, turn.input_count as int)),
{
    turn.committed == turn.input_count && frames.len() == turn.input_count as usize
        && packet_inputs_valid(turn)
}

/// The records of the packets of the batch, without the unused slots.
pub fn packet_parse_sidecars(turn: &NetStackPacketParse) -> (sidecars: (
    &[NetStackEthernet],
    &[NetStackNetwork],
    &[NetStackTransport],
))
    requires
        turn.wf(),
        turn.input_count <= turn.ethernet@.len(),
    ensures
        sidecars.0@ == turn.ethernet@.take(turn.input_count as int),
        sidecars.1@ == turn.network@.take(turn.input_count as int),
        sidecars.2@ == turn.transport@.take(turn.input_count as int),
{
    let count: usize = turn.input_count as usize;
    (
        vstd::slice::slice_subrange(turn.ethernet.as_slice(), 0, count),
        vstd::slice::slice_subrange(turn.network.as_slice(), 0, count),
        vstd::slice::slice_subrange(turn.transport.as_slice(), 0, count),
    )
}

/// A request made for a batch of valid packets is worked on completely, and
/// every packet gets the records of its own bytes alone.
pub fn parse_frames(
    generation: u64,
    config_generation: u64,
    interface: u32,
    rss_key: [u8; 40],
    rss_generation: u32,
    packet_inputs: Vec<NetStackPacketInput>,
    frames: &Vec<Vec<u8>>,
    addresses: &[NetStackLocalAddress],
) -> (result: Option<NetStackPacketParse>)
    ensures
        result is Some <==> {
            &&& config_generation != 0
            &&& interface != 0
            &&& rss_generation != 0
            &&& frames@.len() <= 255
            &&& frames@.len() <= packet_inputs@.len()
            &&& inputs_valid(packet_inputs@, frames@.len() as int)
            &&& forall|i: int|
                0 <= i < addresses@.len() ==> ip::address_valid(#[trigger] addresses@[i])
        },
        result matches Some(turn) ==> {
            &&& turn.wf()
            &&& turn.input_count == frames@.len()
            &&& turn.committed == frames@.len()
            &&& forall|i: int|
                0 <= i < frames@.len() ==> #[trigger] slot_at(turn, i) == packet_record(
                    frames@[i]@,
                    interface,
                    addresses@,
                    packet_inputs@[i],
                    rss_key@,
                    rss_generation,
                )
        },
{
    if frames.len() > 255 || frames.len() > packet_inputs.len() {
        return None;
    }
    let mut turn = new_packet_parse(
        generation,
        config_generation,
        interface,
        rss_key,
        rss_generation,
        frames.len() as u8,
        packet_inputs,
    );
    let ghost fresh = turn;
    if !parse_packet_batch(&mut turn, frames, addresses) {
        proof {
            assert(request_valid(fresh, frames@, addresses@) ==> blank_slot(
                slot_at(fresh, turn.committed as int),
            ));
        }
        return None;
    }
    if !packet_parse_committed(&turn, frames) {
        return None;
    }
    assert forall|i: int| 0 <= i < frames@.len() implies #[trigger] slot_at(turn, i)
        == packet_record(
        frames@[i]@,
        interface,
        addresses@,
        packet_inputs@[i],
        rss_key@,
        rss_generation,
    ) by {
        assert(slot_at(turn, i) == expected_slot(fresh, frames@, addresses@, i)) by {
            assert(blank_slot(slot_at(fresh, i)));
        }
    }
    Some(turn)
}

} // verus!
