//! The hash by which packets of one flow come to one worker.

use vstd::prelude::*;
use crate::bytes;

use crate::net::flow;
use crate::net::transport;
use crate::net::types::{Family, NetStackPacketInput, NetworkModel};

verus! {

/// A bit of a byte, the highest being the first.
pub open spec fn bit_of_byte(byte: u8, place: int) -> bool {
    if place == 0 {
        byte / 128 % 2 == 1
    } else if place == 1 {
        byte / 64 % 2 == 1
    } else if place == 2 {
        byte / 32 % 2 == 1
    } else if place == 3 {
        byte / 16 % 2 == 1
    } else if place == 4 {
        byte / 8 % 2 == 1
    } else if place == 5 {
        byte / 4 % 2 == 1
    } else if place == 6 {
        byte / 2 % 2 == 1
    } else {
        byte % 2 == 1
    }
}

/// A bit of a message, counted from the highest of the first byte.
pub open spec fn message_bit(message: Seq<u8>, index: int) -> bool {
    bit_of_byte(message[index / 8], index % 8)
}

/// A bit of a word, counted from the highest.
pub open spec fn word_bit(word: u32, place: u32) -> bool {
    (word >> ((31 - place) as u32)) & 1 == 1
}

proof fn lemma_byte(byte: u8)
    by (bit_vector)
    ensures
        (byte & (0x80u8 >> 0u8) != 0) == (byte / 128 % 2 == 1),
        (byte & (0x80u8 >> 1u8) != 0) == (byte / 64 % 2 == 1),
        (byte & (0x80u8 >> 2u8) != 0) == (byte / 32 % 2 == 1),
        (byte & (0x80u8 >> 3u8) != 0) == (byte / 16 % 2 == 1),
        (byte & (0x80u8 >> 4u8) != 0) == (byte / 8 % 2 == 1),
        (byte & (0x80u8 >> 5u8) != 0) == (byte / 4 % 2 == 1),
        (byte & (0x80u8 >> 6u8) != 0) == (byte / 2 % 2 == 1),
        (byte & (0x80u8 >> 7u8) != 0) == (byte % 2 == 1),
{
}

proof fn lemma_bit(message: Seq<u8>, index: int)
    requires
        0 <= index < 8 * message.len(),
    ensures
        flow::bit_at(message, index) == message_bit(message, index),
{
    lemma_byte(message[index / 8]);
}

proof fn lemma_first_word(a: u8, b: u8, c: u8, d: u8, word: u32, place: u32)
    by (bit_vector)
    requires
        word == a * 0x100_0000 + b * 0x1_0000 + c * 0x100 + d,
        place < 32,
    ensures
        ((word >> ((31 - place) as u32)) & 1 == 1) == (if place < 8 {
            (a >> ((7 - place) as u8)) & 1 == 1
        } else if place < 16 {
            (b >> ((15 - place) as u8)) & 1 == 1
        } else if place < 24 {
            (c >> ((23 - place) as u8)) & 1 == 1
        } else {
            (d >> ((31 - place) as u8)) & 1 == 1
        }),
{
}

proof fn lemma_shift(byte: u8)
    by (bit_vector)
    ensures
        ((byte >> 7u8) & 1 == 1) == (byte / 128 % 2 == 1),
        ((byte >> 6u8) & 1 == 1) == (byte / 64 % 2 == 1),
        ((byte >> 5u8) & 1 == 1) == (byte / 32 % 2 == 1),
        ((byte >> 4u8) & 1 == 1) == (byte / 16 % 2 == 1),
        ((byte >> 3u8) & 1 == 1) == (byte / 8 % 2 == 1),
        ((byte >> 2u8) & 1 == 1) == (byte / 4 % 2 == 1),
        ((byte >> 1u8) & 1 == 1) == (byte / 2 % 2 == 1),
        ((byte >> 0u8) & 1 == 1) == (byte % 2 == 1),
{
}

proof fn lemma_next_word(word: u32, one: bool, place: u32)
    by (bit_vector)
    requires
        place < 32,
    ensures
        ((((word << 1) | (if one {
            1u32
        } else {
            0u32
        })) >> ((31 - place) as u32)) & 1 == 1) == (if place == 31 {
            one
        } else {
            (word >> ((30 - place) as u32)) & 1 == 1
        }),
{
}

/// The window of the key at a bit is the 32 bits of the key from that bit on.
pub proof fn window_is_part_of_the_key(key: Seq<u8>, index: int, place: u32)
    requires
        0 <= index,
        index + 32 <= 8 * key.len(),
        place < 32,
    ensures
        word_bit(flow::key_window(key, index), place) == message_bit(key, index + place),
    decreases index,
{
    if index == 0 {
        let word = bytes::be32_at(key, 0);
        assert(word == key[0] * 0x100_0000 + key[1] * 0x1_0000 + key[2] * 0x100 + key[3]);
        lemma_first_word(key[0], key[1], key[2], key[3], word, place);
        lemma_shift(key[0]);
        lemma_shift(key[1]);
        lemma_shift(key[2]);
        lemma_shift(key[3]);
    } else {
        lemma_bit(key, index + 31);
        lemma_next_word(
            flow::key_window(key, index - 1),
            flow::bit_at(key, index + 31),
            place,
        );
        if place < 31 {
            window_is_part_of_the_key(key, index - 1, (place + 1) as u32);
        }
    }
}

proof fn lemma_same_prefix(key: Seq<u8>, left: Seq<u8>, right: Seq<u8>, bits: int)
    requires
        left.len() == right.len(),
        bits <= 8 * left.len(),
        forall|i: int|
            0 <= i < bits ==> #[trigger] flow::bit_at(left, i) == flow::bit_at(right, i),
    ensures
        flow::toeplitz_prefix(key, left, bits) == flow::toeplitz_prefix(key, right, bits),
    decreases bits,
{
    if bits > 0 {
        lemma_same_prefix(key, left, right, bits - 1);
        assert(flow::bit_at(left, bits - 1) == flow::bit_at(right, bits - 1));
    }
}

proof fn lemma_one_bit(key: Seq<u8>, left: Seq<u8>, right: Seq<u8>, at: int, bits: int)
    requires
        left.len() == right.len(),
        0 <= at < bits <= 8 * left.len(),
        flow::bit_at(left, at) != flow::bit_at(right, at),
        forall|i: int|
            0 <= i < bits && i != at ==> #[trigger] flow::bit_at(left, i) == flow::bit_at(right, i),
    ensures
        flow::toeplitz_prefix(key, left, bits) ^ flow::toeplitz_prefix(key, right, bits)
            == flow::key_window(key, at),
    decreases bits,
{
    let a = flow::toeplitz_prefix(key, left, bits - 1);
    let b = flow::toeplitz_prefix(key, right, bits - 1);
    let w = flow::key_window(key, bits - 1);
    assert(((a ^ w) ^ (b ^ w)) == (a ^ b) && ((a ^ w) ^ a) == w && (a ^ (a ^ w)) == w)
        by (bit_vector);
    if at == bits - 1 {
        lemma_same_prefix(key, left, right, bits - 1);
    } else {
        lemma_one_bit(key, left, right, at, bits - 1);
        assert(flow::bit_at(left, bits - 1) == flow::bit_at(right, bits - 1));
    }
}

/// Two messages that differ in one bit have hashes that differ by the window of the key at
/// that bit.
pub proof fn bit_turns_its_window(key: Seq<u8>, left: Seq<u8>, right: Seq<u8>, at: int)
    requires
        left.len() == right.len(),
        0 <= at < 8 * left.len(),
        message_bit(left, at) != message_bit(right, at),
        forall|i: int|
            0 <= i < 8 * left.len() && i != at ==> #[trigger] message_bit(left, i) == message_bit(
                right,
                i,
            ),
    ensures
        flow::toeplitz_of(key, left) ^ flow::toeplitz_of(key, right) == flow::key_window(key, at),
{
    assert forall|i: int| 0 <= i < 8 * left.len() && i != at implies #[trigger] flow::bit_at(
        left,
        i,
    ) == flow::bit_at(right, i) by {
        lemma_bit(left, i);
        lemma_bit(right, i);
        assert(message_bit(left, i) == message_bit(right, i));
    }
    lemma_bit(left, at);
    lemma_bit(right, at);
    lemma_one_bit(key, left, right, at, 8 * left.len() as int);
}

proof fn lemma_zeros(key: Seq<u8>, message: Seq<u8>, bits: int)
    requires
        bits <= 8 * message.len(),
        forall|i: int| 0 <= i < message.len() ==> #[trigger] message[i] == 0,
    ensures
        flow::toeplitz_prefix(key, message, bits) == 0,
    decreases bits,
{
    if bits > 0 {
        lemma_zeros(key, message, bits - 1);
        lemma_byte(message[(bits - 1) / 8]);
        lemma_bit(message, bits - 1);
    }
}

/// A message of zeros has no hash.
pub proof fn zeros_have_no_hash(key: Seq<u8>, message: Seq<u8>)
    requires
        forall|i: int| 0 <= i < message.len() ==> #[trigger] message[i] == 0,
    ensures
        flow::toeplitz_of(key, message) == 0,
{
    lemma_zeros(key, message, 8 * message.len() as int);
}

/// What is hashed of an IPv4 packet: its sender, its receiver and their ports, each with
/// the highest byte first.
pub proof fn hash_covers_ipv4_packet(network: NetworkModel, source_port: u16, destination_port: u16)
    requires
        network.family == Family::Ipv4,
        network.source.len() == 16,
        network.destination.len() == 16,
    ensures
        ({
            let key = transport::flow_key(network, source_port, destination_port);
            &&& key.len() == 12
            &&& forall|i: int| 0 <= i < 4 ==> #[trigger] key[i] == network.source[i]
            &&& forall|i: int| 4 <= i < 8 ==> #[trigger] key[i] == network.destination[i - 4]
            &&& key[8] * 256 + key[9] == source_port
            &&& key[10] * 256 + key[11] == destination_port
        }),
{
}

/// What is hashed of an IPv6 packet.
pub proof fn hash_covers_ipv6_packet(network: NetworkModel, source_port: u16, destination_port: u16)
    requires
        network.family == Family::Ipv6,
        network.source.len() == 16,
        network.destination.len() == 16,
    ensures
        ({
            let key = transport::flow_key(network, source_port, destination_port);
            &&& key.len() == 36
            &&& forall|i: int| 0 <= i < 16 ==> #[trigger] key[i] == network.source[i]
            &&& forall|i: int| 16 <= i < 32 ==> #[trigger] key[i] == network.destination[i - 16]
            &&& key[32] * 256 + key[33] == source_port
            &&& key[34] * 256 + key[35] == destination_port
        }),
{
}

/// A hash that the device made is taken only if it was made with the key in force; else the
/// packet is hashed.
pub proof fn hash_is_of_the_key_in_force(
    rss_key: Seq<u8>,
    rss_generation: u32,
    facts: NetStackPacketInput,
    network: NetworkModel,
    source_port: u16,
    destination_port: u16,
)
    requires
        destination_port != 0,
        network.family != Family::Unspecified,
    ensures
        ({
            let hash = transport::flow_hash_of(
                rss_key,
                rss_generation,
                facts,
                network,
                source_port,
                destination_port,
            );
            let device = facts.rss_hash_present != 0 && facts.rss_generation == rss_generation;
            &&& device ==> hash == Some(facts.rss_hash)
            &&& !device ==> hash == Some(
                flow::toeplitz_of(
                    rss_key,
                    transport::flow_key(network, source_port, destination_port),
                ),
            )
        }),
{
}

} // verus!
