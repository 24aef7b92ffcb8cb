//! Big-endian integers as byte sequences.

use vstd::prelude::*;

verus! {

/// The eight bytes of `x`, most significant first.
pub open spec fn be_bytes_u64(x: u64) -> Seq<u8> {
    seq![
        ((x >> 56u64) & 0xff) as u8,
        ((x >> 48u64) & 0xff) as u8,
        ((x >> 40u64) & 0xff) as u8,
        ((x >> 32u64) & 0xff) as u8,
        ((x >> 24u64) & 0xff) as u8,
        ((x >> 16u64) & 0xff) as u8,
        ((x >> 8u64) & 0xff) as u8,
        (x & 0xff) as u8,
    ]
}

/// The four bytes of `x`, most significant first.
pub open spec fn be_bytes_u32(x: u32) -> Seq<u8> {
    seq![
        ((x >> 24u32) & 0xff) as u8,
        ((x >> 16u32) & 0xff) as u8,
        ((x >> 8u32) & 0xff) as u8,
        (x & 0xff) as u8,
    ]
}

/// The integer whose big-endian form is the first eight bytes of `s`.
pub open spec fn u64_from_be(s: Seq<u8>) -> u64 {
    (s[0] as u64) << 56u64 | (s[1] as u64) << 48u64 | (s[2] as u64) << 40u64 | (s[3] as u64)
        << 32u64 | (s[4] as u64) << 24u64 | (s[5] as u64) << 16u64 | (s[6] as u64) << 8u64 | (
    s[7] as u64)
}

/// The integer whose big-endian form is the first four bytes of `s`.
pub open spec fn u32_from_be(s: Seq<u8>) -> u32 {
    (s[0] as u32) << 24u32 | (s[1] as u32) << 16u32 | (s[2] as u32) << 8u32 | (s[3] as u32)
}

/// Reading back the big-endian form of a `u64` gives the integer.
pub proof fn lemma_u64_be_roundtrip(x: u64)
    ensures
        be_bytes_u64(x).len() == 8,
        u64_from_be(be_bytes_u64(x)) == x,
{
    assert((((x >> 56u64) & 0xff) as u8 as u64) << 56u64 | (((x >> 48u64) & 0xff) as u8 as u64)
        << 48u64 | (((x >> 40u64) & 0xff) as u8 as u64) << 40u64 | (((x >> 32u64) & 0xff) as u8
        as u64) << 32u64 | (((x >> 24u64) & 0xff) as u8 as u64) << 24u64 | (((x >> 16u64)
        & 0xff) as u8 as u64) << 16u64 | (((x >> 8u64) & 0xff) as u8 as u64) << 8u64 | ((x
        & 0xff) as u8 as u64) == x) by (bit_vector);
}

/// Reading back the big-endian form of a `u32` gives the integer.
pub proof fn lemma_u32_be_roundtrip(x: u32)
    ensures
        be_bytes_u32(x).len() == 4,
        u32_from_be(be_bytes_u32(x)) == x,
{
    assert((((x >> 24u32) & 0xff) as u8 as u32) << 24u32 | (((x >> 16u32) & 0xff) as u8 as u32)
        << 16u32 | (((x >> 8u32) & 0xff) as u8 as u32) << 8u32 | ((x & 0xff) as u8 as u32) == x)
        by (bit_vector);
}

/// Four bytes are the big-endian form of the integer read from them.
pub proof fn lemma_u32_be_bytes_of_from(s: Seq<u8>)
    requires
        s.len() == 4,
    ensures
        be_bytes_u32(u32_from_be(s)) == s,
{
    let b0 = s[0];
    let b1 = s[1];
    let b2 = s[2];
    let b3 = s[3];
    let x: u32 = (b0 as u32) << 24u32 | (b1 as u32) << 16u32 | (b2 as u32) << 8u32 | (b3 as u32);
    assert(((x >> 24u32) & 0xff) as u8 == b0 && ((x >> 16u32) & 0xff) as u8 == b1 && ((x >> 8u32)
        & 0xff) as u8 == b2 && (x & 0xff) as u8 == b3) by (bit_vector)
        requires
            x == (b0 as u32) << 24u32 | (b1 as u32) << 16u32 | (b2 as u32) << 8u32 | (b3 as u32),
    ;
    assert(be_bytes_u32(u32_from_be(s)) =~= s);
}

/// Eight bytes are the big-endian form of the integer read from them.
pub proof fn lemma_u64_be_bytes_of_from(s: Seq<u8>)
    requires
        s.len() == 8,
    ensures
        be_bytes_u64(u64_from_be(s)) == s,
{
    let b0 = s[0];
    let b1 = s[1];
    let b2 = s[2];
    let b3 = s[3];
    let b4 = s[4];
    let b5 = s[5];
    let b6 = s[6];
    let b7 = s[7];
    let x: u64 = (b0 as u64) << 56u64 | (b1 as u64) << 48u64 | (b2 as u64) << 40u64 | (b3 as u64)
        << 32u64 | (b4 as u64) << 24u64 | (b5 as u64) << 16u64 | (b6 as u64) << 8u64 | (b7 as u64);
    assert(((x >> 56u64) & 0xff) as u8 == b0 && ((x >> 48u64) & 0xff) as u8 == b1 && ((x >> 40u64)
        & 0xff) as u8 == b2 && ((x >> 32u64) & 0xff) as u8 == b3 && ((x >> 24u64) & 0xff) as u8
        == b4 && ((x >> 16u64) & 0xff) as u8 == b5 && ((x >> 8u64) & 0xff) as u8 == b6 && (x
        & 0xff) as u8 == b7) by (bit_vector)
        requires
            x == (b0 as u64) << 56u64 | (b1 as u64) << 48u64 | (b2 as u64) << 40u64 | (b3 as u64)
                << 32u64 | (b4 as u64) << 24u64 | (b5 as u64) << 16u64 | (b6 as u64) << 8u64 | (
            b7 as u64),
    ;
    assert(be_bytes_u64(u64_from_be(s)) =~= s);
}

/// Appends the big-endian form of `x` to `buf`.
pub fn push_u64_be(buf: &mut Vec<u8>, x: u64)
    ensures
        final(buf)@ == old(buf)@ + be_bytes_u64(x),
{
    buf.push(((x >> 56u64) & 0xff) as u8);
    buf.push(((x >> 48u64) & 0xff) as u8);
    buf.push(((x >> 40u64) & 0xff) as u8);
    buf.push(((x >> 32u64) & 0xff) as u8);
    buf.push(((x >> 24u64) & 0xff) as u8);
    buf.push(((x >> 16u64) & 0xff) as u8);
    buf.push(((x >> 8u64) & 0xff) as u8);
    buf.push((x & 0xff) as u8);
    assert(buf@ =~= old(buf)@ + be_bytes_u64(x));
}

/// Appends the big-endian form of `x` to `buf`.
pub fn push_u32_be(buf: &mut Vec<u8>, x: u32)
    ensures
        final(buf)@ == old(buf)@ + be_bytes_u32(x),
{
    buf.push(((x >> 24u32) & 0xff) as u8);
    buf.push(((x >> 16u32) & 0xff) as u8);
    buf.push(((x >> 8u32) & 0xff) as u8);
    buf.push((x & 0xff) as u8);
    assert(buf@ =~= old(buf)@ + be_bytes_u32(x));
}

/// Reads the big-endian `u64` that starts at `at`.
pub fn read_u64_be(buf: &[u8], at: usize) -> (x: u64)
    requires
        at + 8 <= buf@.len(),
    ensures
        x == u64_from_be(buf@.subrange(at as int, at + 8)),
{
    let b0: u64 = buf[at] as u64;
    let b1: u64 = buf[at + 1] as u64;
    let b2: u64 = buf[at + 2] as u64;
    let b3: u64 = buf[at + 3] as u64;
    let b4: u64 = buf[at + 4] as u64;
    let b5: u64 = buf[at + 5] as u64;
    let b6: u64 = buf[at + 6] as u64;
    let b7: u64 = buf[at + 7] as u64;
    b0 << 56u64 | b1 << 48u64 | b2 << 40u64 | b3 << 32u64 | b4 << 24u64 | b5 << 16u64 | b6 << 8u64
        | b7
}

/// Reads the big-endian `u32` that starts at `at`.
pub fn read_u32_be(buf: &[u8], at: usize) -> (x: u32)
    requires
        at + 4 <= buf@.len(),
    ensures
        x == u32_from_be(buf@.subrange(at as int, at + 4)),
{
    let b0: u32 = buf[at] as u32;
    let b1: u32 = buf[at + 1] as u32;
    let b2: u32 = buf[at + 2] as u32;
    let b3: u32 = buf[at + 3] as u32;
    b0 << 24u32 | b1 << 16u32 | b2 << 8u32 | b3
}

} // verus!
