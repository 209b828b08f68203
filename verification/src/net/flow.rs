//! The receive-side flow hash.

use vstd::prelude::*;

verus! {

/// Bit `index` of a bit string, the first byte's top bit first; past the end
/// every bit is zero.
pub open spec fn bit_at(s: Seq<u8>, index: int) -> bool {
    0 <= index < 8 * s.len() && s[index / 8] & (0x80u8 >> ((index % 8) as u8)) != 0
}

/// The 32 bits of the key that start at bit `index`.
pub open spec fn key_window(key: Seq<u8>, index: int) -> u32
    decreases index,
{
    if index <= 0 {
        crate::bytes::be32_at(key, 0)
    } else {
        (key_window(key, index - 1) << 1) | (if bit_at(key, index + 31) { 1u32 } else { 0u32 })
    }
}

/// The Toeplitz hash of the first `bits` bits of `input`: the exclusive or of
/// the key windows at the bits that are set.
pub open spec fn toeplitz_prefix(key: Seq<u8>, input: Seq<u8>, bits: int) -> u32
    decreases bits,
{
    if bits <= 0 {
        0
    } else {
        let rest = toeplitz_prefix(key, input, bits - 1);
        if bit_at(input, bits - 1) {
            rest ^ key_window(key, bits - 1)
        } else {
            rest
        }
    }
}

/// The Toeplitz hash of `input` under `key`.
pub open spec fn toeplitz_of(key: Seq<u8>, input: Seq<u8>) -> u32 {
    toeplitz_prefix(key, input, 8 * input.len() as int)
}

/// The bit test of one byte, as an exec value.
fn bit(bytes: &[u8], index: usize) -> (set: bool)
    requires
        index < 8 * bytes@.len(),
        8 * bytes@.len() <= usize::MAX,
    ensures
        set == bit_at(bytes@, index as int),
{
    let shift: u8 = (index % 8) as u8;
    bytes[index / 8] & (0x80u8 >> shift) != 0
}

/// Hashes `input` with a 40-byte key.
pub fn toeplitz(key: &[u8; 40], input: &[u8]) -> (hash: u32)
    requires
        8 * input@.len() + 32 <= usize::MAX,
    ensures
        hash == toeplitz_of(key@, input@),
{
    let key_bytes: &[u8] = key;
    let mut result: u32 = 0;
    let mut window: u32 = crate::bytes::be32(key_bytes, 0);
    let total: usize = input.len() * 8;
    let mut index: usize = 0;
    while index < total
        invariant
            index <= total,
            total == 8 * input@.len(),
            8 * input@.len() + 32 <= usize::MAX,
            key_bytes@ == key@,
            result == toeplitz_prefix(key@, input@, index as int),
            window == key_window(key@, index as int),
        decreases total - index,
    {
        if bit(input, index) {
            result = result ^ window;
        }
        let next: usize = index + 32;
        let incoming: u32 = if next < 320 {
            if bit(key_bytes, next) {
                1
            } else {
                0
            }
        } else {
            0
        };
        window = window << 1 | incoming;
        index = index + 1;
    }
    result
}

} // verus!
