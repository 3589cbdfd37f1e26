//! Big-endian field access on a byte buffer.

use vstd::prelude::*;
use byteorder::{BigEndian, ByteOrder};

verus! {

/// The buffer does not hold a well-formed container.
#[derive(Debug, Clone, Copy, PartialEq, Eq, Structural)]
pub enum FormatError {
    /// The container magic is missing.
    BadMagic,
    /// The section table or a section lies outside the buffer, or is out of order.
    BadLayout,
    /// A header record is missing its magic or is too short.
    BadHeader,
    /// A header's title lies outside its section or is not valid text.
    BadTitle,
}

/// The value of four bytes read most significant first.
#[verifier::opaque]
pub open spec fn be32_of(b0: u8, b1: u8, b2: u8, b3: u8) -> u32 {
    ((b0 as u32) << 24u32) | ((b1 as u32) << 16u32) | ((b2 as u32) << 8u32) | (b3 as u32)
}

/// The four bytes of a value, most significant first.
pub open spec fn u32_bytes(v: u32) -> Seq<u8> {
    seq![(v >> 24u32) as u8, (v >> 16u32) as u8, (v >> 8u32) as u8, v as u8]
}

/// The big-endian 32-bit value stored at position `p`.
pub open spec fn u32_at(s: Seq<u8>, p: int) -> u32 {
    be32_of(s[p], s[p + 1], s[p + 2], s[p + 3])
}

/// The big-endian 16-bit value stored at position `p`.
pub open spec fn u16_at(s: Seq<u8>, p: int) -> u16 {
    (((s[p] as u16) << 8u16) | (s[p + 1] as u16)) as u16
}

/// `s` with the four bytes at `p` replaced by the big-endian form of `v`.
pub open spec fn put_u32(s: Seq<u8>, p: int, v: u32) -> Seq<u8> {
    s.subrange(0, p) + u32_bytes(v) + s.subrange(p + 4, s.len() as int)
}

/// Relies on byteorder's `BigEndian::read_u16`: the first two bytes of the
/// slice, most significant first.
#[verifier::external_body]
pub(crate) fn read_u16_at(data: &[u8], p: usize) -> (r: u16)
    requires
        p + 2 <= data@.len(),
    ensures
        r == u16_at(data@, p as int),
{
    BigEndian::read_u16(&data[p..])
}

/// Relies on byteorder's `BigEndian::read_u32`: the first four bytes of the
/// slice, most significant first.
#[verifier::external_body]
pub(crate) fn read_u32_at(data: &[u8], p: usize) -> (r: u32)
    requires
        p + 4 <= data@.len(),
    ensures
        r == u32_at(data@, p as int),
{
    BigEndian::read_u32(&data[p..])
}

/// Relies on byteorder's `BigEndian::write_u32`: it overwrites the first four
/// bytes of the slice with the value, most significant first, and nothing else.
#[verifier::external_body]
pub(crate) fn write_u32_at(data: &mut Vec<u8>, p: usize, v: u32)
    requires
        p + 4 <= old(data)@.len(),
    ensures
        final(data)@ == put_u32(old(data)@, p as int, v),
{
    BigEndian::write_u32(&mut data[p..], v)
}

/// Reading back four written bytes gives the value written.
pub proof fn lemma_u32_round_trip(v: u32)
    ensures
        be32_of((v >> 24u32) as u8, (v >> 16u32) as u8, (v >> 8u32) as u8, v as u8) == v,
{
    reveal(be32_of);
    assert(be32_of((v >> 24u32) as u8, (v >> 16u32) as u8, (v >> 8u32) as u8, v as u8) == v)
        by (bit_vector);
}

/// Four bytes are determined by the value they encode.
pub proof fn lemma_u32_bytes_unique(a0: u8, a1: u8, a2: u8, a3: u8)
    ensures
        (be32_of(a0, a1, a2, a3) >> 24u32) as u8 == a0,
        (be32_of(a0, a1, a2, a3) >> 16u32) as u8 == a1,
        (be32_of(a0, a1, a2, a3) >> 8u32) as u8 == a2,
        be32_of(a0, a1, a2, a3) as u8 == a3,
{
    reveal(be32_of);
    assert((be32_of(a0, a1, a2, a3) >> 24u32) as u8 == a0) by (bit_vector);
    assert((be32_of(a0, a1, a2, a3) >> 16u32) as u8 == a1) by (bit_vector);
    assert((be32_of(a0, a1, a2, a3) >> 8u32) as u8 == a2) by (bit_vector);
    assert(be32_of(a0, a1, a2, a3) as u8 == a3) by (bit_vector);
}

/// The value read where a value was just written.
pub proof fn lemma_read_after_put(s: Seq<u8>, p: int, v: u32)
    requires
        0 <= p,
        p + 4 <= s.len(),
    ensures
        put_u32(s, p, v).len() == s.len(),
        u32_at(put_u32(s, p, v), p) == v,
        forall|q: int|
            0 <= q < s.len() && (q < p || q >= p + 4) ==> #[trigger] put_u32(s, p, v)[q] == s[q],
{
    let t = put_u32(s, p, v);
    assert(t[p] == (v >> 24u32) as u8);
    assert(t[p + 1] == (v >> 16u32) as u8);
    assert(t[p + 2] == (v >> 8u32) as u8);
    assert(t[p + 3] == v as u8);
    lemma_u32_round_trip(v);
}

/// Two places whose values agree hold the same four bytes.
pub proof fn lemma_same_u32_same_bytes(s: Seq<u8>, t: Seq<u8>, p: int, q: int)
    requires
        0 <= p,
        p + 4 <= s.len(),
        0 <= q,
        q + 4 <= t.len(),
        u32_at(s, p) == u32_at(t, q),
    ensures
        s[p] == t[q],
        s[p + 1] == t[q + 1],
        s[p + 2] == t[q + 2],
        s[p + 3] == t[q + 3],
{
    lemma_u32_bytes_unique(s[p], s[p + 1], s[p + 2], s[p + 3]);
    lemma_u32_bytes_unique(t[q], t[q + 1], t[q + 2], t[q + 3]);
}

} // verus!
