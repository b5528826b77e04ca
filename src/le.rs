//! Little-endian integers of the wire format, read and written through
//! `byteorder`.
use byteorder::{ByteOrder, LittleEndian};
use vstd::prelude::*;

verus! {

/// The eight bytes of `n`, least significant first.
pub open spec fn le_u64_bytes(n: u64) -> Seq<u8> {
    seq![
        n as u8,
        (n >> 8u64) as u8,
        (n >> 16u64) as u8,
        (n >> 24u64) as u8,
        (n >> 32u64) as u8,
        (n >> 40u64) as u8,
        (n >> 48u64) as u8,
        (n >> 56u64) as u8,
    ]
}

/// The two bytes of `n`, least significant first.
pub open spec fn le_u16_bytes(n: u16) -> Seq<u8> {
    seq![n as u8, (n >> 8u16) as u8]
}

/// The integer whose little-endian bytes are the first eight of `b`.
pub open spec fn le_u64_value(b: Seq<u8>) -> u64
    recommends
        b.len() >= 8,
{
    (b[0] as u64) | ((b[1] as u64) << 8u64) | ((b[2] as u64) << 16u64) | ((b[3] as u64) << 24u64)
        | ((b[4] as u64) << 32u64) | ((b[5] as u64) << 40u64) | ((b[6] as u64) << 48u64) | ((
    b[7] as u64) << 56u64)
}

/// The integer whose little-endian bytes are the first two of `b`.
pub open spec fn le_u16_value(b: Seq<u8>) -> u16
    recommends
        b.len() >= 2,
{
    (b[0] as u16) | ((b[1] as u16) << 8u16)
}

/// Reading back the bytes of a `u64` gives the same `u64`.
pub proof fn lemma_le_u64_round_trip(n: u64)
    ensures
        le_u64_value(le_u64_bytes(n)) == n,
{
    let b = le_u64_bytes(n);
    let (b0, b1, b2, b3, b4, b5, b6, b7) = (b[0], b[1], b[2], b[3], b[4], b[5], b[6], b[7]);
    assert(b0 == n as u8 && b1 == (n >> 8u64) as u8 && b2 == (n >> 16u64) as u8 && b3 == (n
        >> 24u64) as u8 && b4 == (n >> 32u64) as u8 && b5 == (n >> 40u64) as u8 && b6 == (n
        >> 48u64) as u8 && b7 == (n >> 56u64) as u8);
    assert((b0 as u64) | ((b1 as u64) << 8u64) | ((b2 as u64) << 16u64) | ((b3 as u64) << 24u64)
        | ((b4 as u64) << 32u64) | ((b5 as u64) << 40u64) | ((b6 as u64) << 48u64) | ((
    b7 as u64) << 56u64) == n) by (bit_vector)
        requires
            b0 == n as u8,
            b1 == (n >> 8u64) as u8,
            b2 == (n >> 16u64) as u8,
            b3 == (n >> 24u64) as u8,
            b4 == (n >> 32u64) as u8,
            b5 == (n >> 40u64) as u8,
            b6 == (n >> 48u64) as u8,
            b7 == (n >> 56u64) as u8,
    ;
}

/// Reading back the bytes of a `u16` gives the same `u16`.
pub proof fn lemma_le_u16_round_trip(n: u16)
    ensures
        le_u16_value(le_u16_bytes(n)) == n,
{
    let b = le_u16_bytes(n);
    let (b0, b1) = (b[0], b[1]);
    assert(b0 == n as u8 && b1 == (n >> 8u16) as u8);
    assert((b0 as u16) | ((b1 as u16) << 8u16) == n) by (bit_vector)
        requires
            b0 == n as u8,
            b1 == (n >> 8u16) as u8,
    ;
}

/// Relies on byteorder's `LittleEndian::read_u64`: the `u64` whose
/// little-endian bytes are `b[pos..pos + 8]`. It panics on fewer than eight
/// bytes, which `requires` rules out.
#[verifier::external_body]
pub(crate) fn read_u64_le(b: &[u8], pos: usize) -> (r: u64)
    requires
        pos + 8 <= b@.len(),
    ensures
        r == le_u64_value(b@.subrange(pos as int, pos + 8)),
{
    LittleEndian::read_u64(&b[pos..])
}

/// Relies on byteorder's `LittleEndian::read_u16`: the `u16` whose
/// little-endian bytes are `b[pos..pos + 2]`. It panics on fewer than two
/// bytes, which `requires` rules out.
#[verifier::external_body]
pub(crate) fn read_u16_le(b: &[u8], pos: usize) -> (r: u16)
    requires
        pos + 2 <= b@.len(),
    ensures
        r == le_u16_value(b@.subrange(pos as int, pos + 2)),
{
    LittleEndian::read_u16(&b[pos..])
}

/// Relies on byteorder's `LittleEndian::write_u64`: fills an eight-byte
/// buffer with the bytes of `n`, least significant first.
#[verifier::external_body]
pub(crate) fn u64_to_le(n: u64) -> (r: Vec<u8>)
    ensures
        r@ == le_u64_bytes(n),
{
    let mut buf = [0u8; 8];
    LittleEndian::write_u64(&mut buf, n);
    buf.to_vec()
}

/// Relies on byteorder's `LittleEndian::write_u16`: fills a two-byte buffer
/// with the bytes of `n`, least significant first.
#[verifier::external_body]
pub(crate) fn u16_to_le(n: u16) -> (r: Vec<u8>)
    ensures
        r@ == le_u16_bytes(n),
{
    let mut buf = [0u8; 2];
    LittleEndian::write_u16(&mut buf, n);
    buf.to_vec()
}

} // verus!
