//! Fixed-width integers as big- and little-endian byte strings.
//!
//! The byte orders themselves come from the `byteorder` crate; this module
//! states what its readers and writers do and proves that reading a written
//! integer gives it back.

use vstd::prelude::*;
use byteorder::{BigEndian, ByteOrder, LittleEndian, WriteBytesExt};

verus! {

/// The eight bytes of `n`, most significant first.
pub open spec fn be_u64_bytes(n: u64) -> Seq<u8> {
    seq![
        (n >> 56u64) as u8, (n >> 48u64) as u8, (n >> 40u64) as u8, (n >> 32u64) as u8,
        (n >> 24u64) as u8, (n >> 16u64) as u8, (n >> 8u64) as u8, n as u8,
    ]
}

/// The integer whose big-endian bytes are the first eight of `b`.
pub open spec fn be_u64_value(b: Seq<u8>) -> u64 {
    ((b[0] as u64) << 56u64) | ((b[1] as u64) << 48u64) | ((b[2] as u64) << 40u64)
        | ((b[3] as u64) << 32u64) | ((b[4] as u64) << 24u64) | ((b[5] as u64) << 16u64)
        | ((b[6] as u64) << 8u64) | (b[7] as u64)
}

/// The four bytes of `n`, most significant first.
pub open spec fn be_u32_bytes(n: u32) -> Seq<u8> {
    seq![(n >> 24u32) as u8, (n >> 16u32) as u8, (n >> 8u32) as u8, n as u8]
}

/// The integer whose big-endian bytes are the first four of `b`.
pub open spec fn be_u32_value(b: Seq<u8>) -> u32 {
    ((b[0] as u32) << 24u32) | ((b[1] as u32) << 16u32) | ((b[2] as u32) << 8u32) | (b[3] as u32)
}

/// The eight bytes of `n`, least significant first.
pub open spec fn le_u64_bytes(n: u64) -> Seq<u8> {
    seq![
        n as u8, (n >> 8u64) as u8, (n >> 16u64) as u8, (n >> 24u64) as u8,
        (n >> 32u64) as u8, (n >> 40u64) as u8, (n >> 48u64) as u8, (n >> 56u64) as u8,
    ]
}

/// The integer whose little-endian bytes are the first eight of `b`.
pub open spec fn le_u64_value(b: Seq<u8>) -> u64 {
    (b[0] as u64) | ((b[1] as u64) << 8u64) | ((b[2] as u64) << 16u64) | ((b[3] as u64) << 24u64)
        | ((b[4] as u64) << 32u64) | ((b[5] as u64) << 40u64) | ((b[6] as u64) << 48u64)
        | ((b[7] as u64) << 56u64)
}

/// The two bytes of `n`, least significant first.
pub open spec fn le_u16_bytes(n: u16) -> Seq<u8> {
    seq![n as u8, (n >> 8u16) as u8]
}

/// The integer whose little-endian bytes are the first two of `b`.
pub open spec fn le_u16_value(b: Seq<u8>) -> u16 {
    (b[0] as u16) | ((b[1] as u16) << 8u16)
}

proof fn lemma_be_u64_parts(n: u64, b0: u8, b1: u8, b2: u8, b3: u8, b4: u8, b5: u8, b6: u8, b7: u8)
    by (bit_vector)
    ensures
        ((((n >> 56u64) as u8 as u64) << 56u64) | (((n >> 48u64) as u8 as u64) << 48u64)
            | (((n >> 40u64) as u8 as u64) << 40u64) | (((n >> 32u64) as u8 as u64) << 32u64)
            | (((n >> 24u64) as u8 as u64) << 24u64) | (((n >> 16u64) as u8 as u64) << 16u64)
            | (((n >> 8u64) as u8 as u64) << 8u64) | (n as u8 as u64)) == n,
        ({
            let v = ((b0 as u64) << 56u64) | ((b1 as u64) << 48u64) | ((b2 as u64) << 40u64)
                | ((b3 as u64) << 32u64) | ((b4 as u64) << 24u64) | ((b5 as u64) << 16u64)
                | ((b6 as u64) << 8u64) | (b7 as u64);
            &&& (v >> 56u64) as u8 == b0
            &&& (v >> 48u64) as u8 == b1
            &&& (v >> 40u64) as u8 == b2
            &&& (v >> 32u64) as u8 == b3
            &&& (v >> 24u64) as u8 == b4
            &&& (v >> 16u64) as u8 == b5
            &&& (v >> 8u64) as u8 == b6
            &&& v as u8 == b7
        }),
{
}

proof fn lemma_be_u32_parts(n: u32, b0: u8, b1: u8, b2: u8, b3: u8)
    by (bit_vector)
    ensures
        ((((n >> 24u32) as u8 as u32) << 24u32) | (((n >> 16u32) as u8 as u32) << 16u32)
            | (((n >> 8u32) as u8 as u32) << 8u32) | (n as u8 as u32)) == n,
        ({
            let v = ((b0 as u32) << 24u32) | ((b1 as u32) << 16u32) | ((b2 as u32) << 8u32)
                | (b3 as u32);
            &&& (v >> 24u32) as u8 == b0
            &&& (v >> 16u32) as u8 == b1
            &&& (v >> 8u32) as u8 == b2
            &&& v as u8 == b3
        }),
{
}

proof fn lemma_le_u64_parts(n: u64, b0: u8, b1: u8, b2: u8, b3: u8, b4: u8, b5: u8, b6: u8, b7: u8)
    by (bit_vector)
    ensures
        ((n as u8 as u64) | (((n >> 8u64) as u8 as u64) << 8u64)
            | (((n >> 16u64) as u8 as u64) << 16u64) | (((n >> 24u64) as u8 as u64) << 24u64)
            | (((n >> 32u64) as u8 as u64) << 32u64) | (((n >> 40u64) as u8 as u64) << 40u64)
            | (((n >> 48u64) as u8 as u64) << 48u64) | (((n >> 56u64) as u8 as u64) << 56u64))
            == n,
        ({
            let v = (b0 as u64) | ((b1 as u64) << 8u64) | ((b2 as u64) << 16u64)
                | ((b3 as u64) << 24u64) | ((b4 as u64) << 32u64) | ((b5 as u64) << 40u64)
                | ((b6 as u64) << 48u64) | ((b7 as u64) << 56u64);
            &&& v as u8 == b0
            &&& (v >> 8u64) as u8 == b1
            &&& (v >> 16u64) as u8 == b2
            &&& (v >> 24u64) as u8 == b3
            &&& (v >> 32u64) as u8 == b4
            &&& (v >> 40u64) as u8 == b5
            &&& (v >> 48u64) as u8 == b6
            &&& (v >> 56u64) as u8 == b7
        }),
{
}

proof fn lemma_le_u16_parts(n: u16, b0: u8, b1: u8)
    by (bit_vector)
    ensures
        ((n as u8 as u16) | (((n >> 8u16) as u8 as u16) << 8u16)) == n,
        ({
            let v = (b0 as u16) | ((b1 as u16) << 8u16);
            &&& v as u8 == b0
            &&& (v >> 8u16) as u8 == b1
        }),
{
}

/// Reading the big-endian bytes of `n` gives `n`; writing the integer read from
/// eight bytes gives those bytes.
pub proof fn lemma_be_u64(n: u64, b: Seq<u8>)
    ensures
        be_u64_bytes(n).len() == 8,
        be_u64_value(be_u64_bytes(n)) == n,
        b.len() == 8 ==> be_u64_bytes(be_u64_value(b)) == b,
{
    lemma_be_u64_parts(n, b[0], b[1], b[2], b[3], b[4], b[5], b[6], b[7]);
    if b.len() == 8 {
        assert(be_u64_bytes(be_u64_value(b)) =~= b);
    }
}

/// Reading the big-endian bytes of `n` gives `n`; writing the integer read from
/// four bytes gives those bytes.
pub proof fn lemma_be_u32(n: u32, b: Seq<u8>)
    ensures
        be_u32_bytes(n).len() == 4,
        be_u32_value(be_u32_bytes(n)) == n,
        b.len() == 4 ==> be_u32_bytes(be_u32_value(b)) == b,
{
    lemma_be_u32_parts(n, b[0], b[1], b[2], b[3]);
    if b.len() == 4 {
        assert(be_u32_bytes(be_u32_value(b)) =~= b);
    }
}

/// Reading the little-endian bytes of `n` gives `n`; writing the integer read
/// from eight bytes gives those bytes.
pub proof fn lemma_le_u64(n: u64, b: Seq<u8>)
    ensures
        le_u64_bytes(n).len() == 8,
        le_u64_value(le_u64_bytes(n)) == n,
        b.len() == 8 ==> le_u64_bytes(le_u64_value(b)) == b,
{
    lemma_le_u64_parts(n, b[0], b[1], b[2], b[3], b[4], b[5], b[6], b[7]);
    if b.len() == 8 {
        assert(le_u64_bytes(le_u64_value(b)) =~= b);
    }
}

/// Reading the little-endian bytes of `n` gives `n`; writing the integer read
/// from two bytes gives those bytes.
pub proof fn lemma_le_u16(n: u16, b: Seq<u8>)
    ensures
        le_u16_bytes(n).len() == 2,
        le_u16_value(le_u16_bytes(n)) == n,
        b.len() == 2 ==> le_u16_bytes(le_u16_value(b)) == b,
{
    lemma_le_u16_parts(n, b[0], b[1]);
    if b.len() == 2 {
        assert(le_u16_bytes(le_u16_value(b)) =~= b);
    }
}

proof fn lemma_weights(b0: u8, b1: u8, b2: u8, b3: u8, b4: u8, b5: u8, b6: u8, b7: u8)
    by (bit_vector)
    ensures
        ((b0 as u64) << 56u64) | ((b1 as u64) << 48u64) | ((b2 as u64) << 40u64) | ((b3 as u64)
            << 32u64) | ((b4 as u64) << 24u64) | ((b5 as u64) << 16u64) | ((b6 as u64) << 8u64)
            | (b7 as u64) == (b0 as u64) * 0x100000000000000u64 + (b1 as u64)
            * 0x1000000000000u64 + (b2 as u64) * 0x10000000000u64 + (b3 as u64)
            * 0x100000000u64 + (b4 as u64) * 0x1000000u64 + (b5 as u64) * 0x10000u64
            + (b6 as u64) * 0x100u64 + (b7 as u64),
        ((b0 as u32) << 24u32) | ((b1 as u32) << 16u32) | ((b2 as u32) << 8u32) | (b3 as u32)
            == (b0 as u32) * 0x1000000u32 + (b1 as u32) * 0x10000u32 + (b2 as u32) * 0x100u32
            + (b3 as u32),
        (b0 as u16) | ((b1 as u16) << 8u16) == (b0 as u16) + (b1 as u16) * 0x100u16,
{
}

/// Big-endian: of eight bytes read as an integer, the first weighs most.
pub proof fn law_be_u64_weights(b: Seq<u8>)
    requires
        b.len() >= 8,
    ensures
        be_u64_value(b) == b[0] * 0x100000000000000 + b[1] * 0x1000000000000 + b[2]
            * 0x10000000000 + b[3] * 0x100000000 + b[4] * 0x1000000 + b[5] * 0x10000 + b[6]
            * 0x100 + b[7],
{
    lemma_weights(b[0], b[1], b[2], b[3], b[4], b[5], b[6], b[7]);
}

/// Big-endian: of four bytes read as an integer, the first weighs most.
pub proof fn law_be_u32_weights(b: Seq<u8>)
    requires
        b.len() >= 4,
    ensures
        be_u32_value(b) == b[0] * 0x1000000 + b[1] * 0x10000 + b[2] * 0x100 + b[3],
{
    lemma_weights(b[0], b[1], b[2], b[3], 0, 0, 0, 0);
}

/// Little-endian: of eight bytes read as an integer, the first weighs least.
pub proof fn law_le_u64_weights(b: Seq<u8>)
    requires
        b.len() >= 8,
    ensures
        le_u64_value(b) == b[0] + b[1] * 0x100 + b[2] * 0x10000 + b[3] * 0x1000000 + b[4]
            * 0x100000000 + b[5] * 0x10000000000 + b[6] * 0x1000000000000 + b[7]
            * 0x100000000000000,
{
    lemma_weights(b[7], b[6], b[5], b[4], b[3], b[2], b[1], b[0]);
    assert(le_u64_value(b) == ((b[7] as u64) << 56u64) | ((b[6] as u64) << 48u64) | ((
    b[5] as u64) << 40u64) | ((b[4] as u64) << 32u64) | ((b[3] as u64) << 24u64) | ((
    b[2] as u64) << 16u64) | ((b[1] as u64) << 8u64) | (b[0] as u64)) by {
        let (x0, x1, x2, x3, x4, x5, x6, x7) = (b[0], b[1], b[2], b[3], b[4], b[5], b[6], b[7]);
        assert((x0 as u64) | ((x1 as u64) << 8u64) | ((x2 as u64) << 16u64) | ((x3 as u64)
            << 24u64) | ((x4 as u64) << 32u64) | ((x5 as u64) << 40u64) | ((x6 as u64) << 48u64)
            | ((x7 as u64) << 56u64) == ((x7 as u64) << 56u64) | ((x6 as u64) << 48u64) | ((
        x5 as u64) << 40u64) | ((x4 as u64) << 32u64) | ((x3 as u64) << 24u64) | ((x2 as u64)
            << 16u64) | ((x1 as u64) << 8u64) | (x0 as u64)) by (bit_vector);
    }
}

/// Little-endian: of two bytes read as an integer, the first weighs least.
pub proof fn law_le_u16_weights(b: Seq<u8>)
    requires
        b.len() >= 2,
    ensures
        le_u16_value(b) == b[0] + b[1] * 0x100,
{
    lemma_weights(b[0], b[1], 0, 0, 0, 0, 0, 0);
}

/// `byteorder::BigEndian::read_u64`: the integer whose big-endian bytes are the
/// first eight of `buf` (it panics on a shorter buffer).
#[verifier::external_body]
pub(crate) fn read_be_u64(buf: &[u8]) -> (n: u64)
    requires
        buf@.len() >= 8,
    ensures
        n == be_u64_value(buf@),
{
    BigEndian::read_u64(buf)
}

/// `byteorder::BigEndian::read_u32`: the integer whose big-endian bytes are the
/// first four of `buf` (it panics on a shorter buffer).
#[verifier::external_body]
pub(crate) fn read_be_u32(buf: &[u8]) -> (n: u32)
    requires
        buf@.len() >= 4,
    ensures
        n == be_u32_value(buf@),
{
    BigEndian::read_u32(buf)
}

/// `byteorder::LittleEndian::read_u64`: the integer whose little-endian bytes
/// are the first eight of `buf` (it panics on a shorter buffer).
#[verifier::external_body]
pub(crate) fn read_le_u64(buf: &[u8]) -> (n: u64)
    requires
        buf@.len() >= 8,
    ensures
        n == le_u64_value(buf@),
{
    LittleEndian::read_u64(buf)
}

/// `byteorder::LittleEndian::read_u16`: the integer whose little-endian bytes
/// are the first two of `buf` (it panics on a shorter buffer).
#[verifier::external_body]
pub(crate) fn read_le_u16(buf: &[u8]) -> (n: u16)
    requires
        buf@.len() >= 2,
    ensures
        n == le_u16_value(buf@),
{
    LittleEndian::read_u16(buf)
}

/// `byteorder::WriteBytesExt::write_u64::<BigEndian>` on a `Vec<u8>`: appends the
/// eight big-endian bytes of `n` (writing to a vector does not fail).
#[verifier::external_body]
pub(crate) fn write_be_u64(buf: &mut Vec<u8>, n: u64)
    ensures
        final(buf)@ == old(buf)@ + be_u64_bytes(n),
{
    let _ = buf.write_u64::<BigEndian>(n);
}

/// `byteorder::WriteBytesExt::write_u32::<BigEndian>` on a `Vec<u8>`: appends the
/// four big-endian bytes of `n` (writing to a vector does not fail).
#[verifier::external_body]
pub(crate) fn write_be_u32(buf: &mut Vec<u8>, n: u32)
    ensures
        final(buf)@ == old(buf)@ + be_u32_bytes(n),
{
    let _ = buf.write_u32::<BigEndian>(n);
}

/// `byteorder::WriteBytesExt::write_u64::<LittleEndian>` on a `Vec<u8>`: appends
/// the eight little-endian bytes of `n` (writing to a vector does not fail).
#[verifier::external_body]
pub(crate) fn write_le_u64(buf: &mut Vec<u8>, n: u64)
    ensures
        final(buf)@ == old(buf)@ + le_u64_bytes(n),
{
    let _ = buf.write_u64::<LittleEndian>(n);
}

/// `byteorder::WriteBytesExt::write_u16::<LittleEndian>` on a `Vec<u8>`: appends
/// the two little-endian bytes of `n` (writing to a vector does not fail).
#[verifier::external_body]
pub(crate) fn write_le_u16(buf: &mut Vec<u8>, n: u16)
    ensures
        final(buf)@ == old(buf)@ + le_u16_bytes(n),
{
    let _ = buf.write_u16::<LittleEndian>(n);
}

} // verus!
