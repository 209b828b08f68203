//! Fixed-width integers in byte sequences.

use vstd::prelude::*;

verus! {

/// The 16-bit big-endian number at `at`.
pub open spec fn be16_at(s: Seq<u8>, at: int) -> u16 {
    (s[at] as int * 0x100 + s[at + 1] as int) as u16
}

/// The 32-bit big-endian number at `at`.
pub open spec fn be32_at(s: Seq<u8>, at: int) -> u32 {
    (s[at] as int * 0x100_0000 + s[at + 1] as int * 0x1_0000 + s[at + 2] as int * 0x100
        + s[at + 3] as int) as u32
}

/// The 16-bit little-endian number at `at`.
pub open spec fn le16_at(s: Seq<u8>, at: int) -> u16 {
    (s[at + 1] as int * 0x100 + s[at] as int) as u16
}

/// The two big-endian bytes of `value`.
pub open spec fn be16_bytes(value: u16) -> Seq<u8> {
    seq![(value / 0x100) as u8, (value % 0x100) as u8]
}

/// The four big-endian bytes of `value`.
pub open spec fn be32_bytes(value: u32) -> Seq<u8> {
    seq![
        (value / 0x100_0000) as u8,
        (value / 0x1_0000 % 0x100) as u8,
        (value / 0x100 % 0x100) as u8,
        (value % 0x100) as u8,
    ]
}

/// Reads a 16-bit big-endian number.
pub fn be16(bytes: &[u8], at: usize) -> (value: u16)
    requires
        at + 2 <= bytes.len(),
    ensures
        value == be16_at(bytes@, at as int),
{
    let high: u16 = bytes[at] as u16;
    let low: u16 = bytes[at + 1] as u16;
    high * 0x100 + low
}

/// Reads a 32-bit big-endian number.
pub fn be32(bytes: &[u8], at: usize) -> (value: u32)
    requires
        at + 4 <= bytes.len(),
    ensures
        value == be32_at(bytes@, at as int),
{
    let b0: u32 = bytes[at] as u32;
    let b1: u32 = bytes[at + 1] as u32;
    let b2: u32 = bytes[at + 2] as u32;
    let b3: u32 = bytes[at + 3] as u32;
    b0 * 0x100_0000 + b1 * 0x1_0000 + b2 * 0x100 + b3
}

/// Reads a 16-bit little-endian number.
pub fn le16(bytes: &[u8], offset: usize) -> (value: u16)
    requires
        offset + 2 <= bytes.len(),
    ensures
        value == le16_at(bytes@, offset as int),
{
    let low: u16 = bytes[offset] as u16;
    let high: u16 = bytes[offset + 1] as u16;
    high * 0x100 + low
}

/// Appends the big-endian bytes of a 16-bit number.
pub fn push_be16(out: &mut Vec<u8>, value: u16)
    ensures
        final(out)@ == old(out)@ + be16_bytes(value),
{
    out.push((value / 0x100) as u8);
    out.push((value % 0x100) as u8);
    assert(out@ =~= old(out)@ + be16_bytes(value));
}

/// Appends the big-endian bytes of a 32-bit number.
pub fn push_be32(out: &mut Vec<u8>, value: u32)
    ensures
        final(out)@ == old(out)@ + be32_bytes(value),
{
    out.push((value / 0x100_0000) as u8);
    out.push((value / 0x1_0000 % 0x100) as u8);
    out.push((value / 0x100 % 0x100) as u8);
    out.push((value % 0x100) as u8);
    assert(out@ =~= old(out)@ + be32_bytes(value));
}

/// Appends the part of `bytes` from `from` up to `to`.
pub fn push_range(out: &mut Vec<u8>, bytes: &[u8], from: usize, to: usize)
    requires
        from <= to <= bytes@.len(),
    ensures
        final(out)@ == old(out)@ + bytes@.subrange(from as int, to as int),
{
    let ghost before = out@;
    let mut i: usize = from;
    while i < to
        invariant
            from <= i <= to <= bytes@.len(),
            out@ == before + bytes@.subrange(from as int, i as int),
        decreases to - i,
    {
        out.push(bytes[i]);
        assert(bytes@.subrange(from as int, i + 1) =~= bytes@.subrange(from as int, i as int).push(
            bytes@[i as int],
        ));
        i += 1;
    }
}

/// The 4 bytes at `at`.
pub fn array4(bytes: &[u8], at: usize) -> (out: [u8; 4])
    requires
        at + 4 <= bytes.len(),
    ensures
        out@ == bytes@.subrange(at as int, at + 4),
{
    let out = [bytes[at], bytes[at + 1], bytes[at + 2], bytes[at + 3]];
    assert(out@ =~= bytes@.subrange(at as int, at + 4));
    out
}

/// The 6 bytes at `at`.
pub fn array6(bytes: &[u8], at: usize) -> (out: [u8; 6])
    requires
        at + 6 <= bytes.len(),
    ensures
        out@ == bytes@.subrange(at as int, at + 6),
{
    let out = [
        bytes[at],
        bytes[at + 1],
        bytes[at + 2],
        bytes[at + 3],
        bytes[at + 4],
        bytes[at + 5],
    ];
    assert(out@ =~= bytes@.subrange(at as int, at + 6));
    out
}

/// The 16 bytes at `at`.
pub fn array16(bytes: &[u8], at: usize) -> (out: [u8; 16])
    requires
        at + 16 <= bytes.len(),
    ensures
        out@ == bytes@.subrange(at as int, at + 16),
{
    let mut out = [0u8; 16];
    let mut i: usize = 0;
    while i < 16
        invariant
            i <= 16,
            at + 16 <= bytes.len(),
            forall|j: int| 0 <= j < i ==> out@[j] == bytes@[at + j],
        decreases 16 - i,
    {
        out[i] = bytes[at + i];
        i += 1;
    }
    assert(out@ =~= bytes@.subrange(at as int, at + 16));
    out
}

/// `s` with zeros behind it, 16 bytes in all.
pub open spec fn padded16(s: Seq<u8>) -> Seq<u8> {
    Seq::new(16, |i: int| if i < s.len() { s[i] } else { 0u8 })
}

/// The 4 bytes at `at` with 12 zeros behind them.
pub fn padded4(bytes: &[u8], at: usize) -> (out: [u8; 16])
    requires
        at + 4 <= bytes.len(),
    ensures
        out@ == padded16(bytes@.subrange(at as int, at + 4)),
{
    let mut out = [0u8; 16];
    out[0] = bytes[at];
    out[1] = bytes[at + 1];
    out[2] = bytes[at + 2];
    out[3] = bytes[at + 3];
    assert(out@ =~= padded16(bytes@.subrange(at as int, at + 4)));
    out
}

/// Reading back a big-endian number gives the number that was written.
pub proof fn be16_round_trip(value: u16)
    ensures
        be16_at(be16_bytes(value), 0) == value,
{
}

/// Reading back a big-endian number gives the number that was written.
pub proof fn be32_round_trip(value: u32)
    ensures
        be32_at(be32_bytes(value), 0) == value,
{
    let v = value as int;
    assert(v / 0x1_0000 == v / 0x100_0000 * 0x100 + v / 0x1_0000 % 0x100);
    assert(v / 0x100 == v / 0x1_0000 * 0x100 + v / 0x100 % 0x100);
}

/// The first byte of a big-endian number weighs most: each further byte is a digit in base
/// 256 behind those before it. The last byte of a little-endian number weighs most.
pub proof fn first_byte_weighs_most(s: Seq<u8>, at: int)
    requires
        0 <= at,
        at + 4 <= s.len(),
    ensures
        be16_at(s, at) == s[at] * 256 + s[at + 1],
        be32_at(s, at) == be16_at(s, at) * 65536 + be16_at(s, at + 2),
        le16_at(s, at) == s[at + 1] * 256 + s[at],
{
}

} // verus!
