//! Little-endian integers in byte strings.
//!
//! The spec functions say in arithmetic what an encoded integer is worth.
//! The executable functions hand the work to the `byteorder` crate; their
//! contracts are taken on trust from its documentation.

use byteorder::{ByteOrder, LittleEndian};
use vstd::prelude::*;

verus! {

/// Value of the first two bytes of `b`, least significant byte first.
pub open spec fn le_u16(b: Seq<u8>) -> int
    recommends
        b.len() >= 2,
{
    b[0] as int + 256 * (b[1] as int)
}

/// Value of the first four bytes of `b`, least significant byte first.
pub open spec fn le_u32(b: Seq<u8>) -> int
    recommends
        b.len() >= 4,
{
    b[0] as int + 256 * (b[1] as int) + 65536 * (b[2] as int) + 16777216 * (b[3] as int)
}

/// Value of the first eight bytes of `b`, least significant byte first.
pub open spec fn le_u64(b: Seq<u8>) -> int
    recommends
        b.len() >= 8,
{
    le_u32(b) + 4294967296 * le_u32(b.subrange(4, 8))
}

/// Value of the first four bytes of `b` read as a signed integer in two's
/// complement, least significant byte first.
pub open spec fn le_i32(b: Seq<u8>) -> int
    recommends
        b.len() >= 4,
{
    if le_u32(b) >= 0x8000_0000 {
        le_u32(b) - 0x1_0000_0000
    } else {
        le_u32(b)
    }
}

/// The byte of `n` with weight `256^k`.
pub open spec fn byte_of(n: int, k: nat) -> u8
    decreases k,
{
    if k == 0 {
        (n % 256) as u8
    } else {
        byte_of(n / 256, (k - 1) as nat)
    }
}

/// The two bytes that encode `n`, least significant byte first.
pub open spec fn u16_le_bytes(n: u16) -> Seq<u8> {
    seq![byte_of(n as int, 0), byte_of(n as int, 1)]
}

/// The four bytes that encode `n`, least significant byte first.
pub open spec fn u32_le_bytes(n: u32) -> Seq<u8> {
    seq![byte_of(n as int, 0), byte_of(n as int, 1), byte_of(n as int, 2), byte_of(n as int, 3)]
}

/// The eight bytes that encode `n`, least significant byte first.
pub open spec fn u64_le_bytes(n: u64) -> Seq<u8> {
    u32_le_bytes((n % 0x1_0000_0000) as u32) + u32_le_bytes((n / 0x1_0000_0000) as u32)
}

/// The four bytes that encode `n` in two's complement, least significant
/// byte first.
pub open spec fn i32_le_bytes(n: i32) -> Seq<u8> {
    if n < 0 {
        u32_le_bytes((n + 0x1_0000_0000) as u32)
    } else {
        u32_le_bytes(n as u32)
    }
}

/// `byteorder::LittleEndian::read_u16`: the first two bytes of `buf` as an
/// unsigned integer, least significant byte first. The crate panics on a
/// shorter buffer, which the precondition excludes.
#[verifier::external_body]
pub(crate) fn read_u16(buf: &[u8]) -> (n: u16)
    requires
        buf@.len() >= 2,
    ensures
        n == le_u16(buf@),
{
    LittleEndian::read_u16(buf)
}

/// `byteorder::LittleEndian::read_u32`: the first four bytes of `buf` as an
/// unsigned integer, least significant byte first. The crate panics on a
/// shorter buffer, which the precondition excludes.
#[verifier::external_body]
pub(crate) fn read_u32(buf: &[u8]) -> (n: u32)
    requires
        buf@.len() >= 4,
    ensures
        n == le_u32(buf@),
{
    LittleEndian::read_u32(buf)
}

/// `byteorder::LittleEndian::read_i32`: the first four bytes of `buf` as a
/// signed integer in two's complement, least significant byte first. The
/// crate panics on a shorter buffer, which the precondition excludes.
#[verifier::external_body]
pub(crate) fn read_i32(buf: &[u8]) -> (n: i32)
    requires
        buf@.len() >= 4,
    ensures
        n == le_i32(buf@),
{
    LittleEndian::read_i32(buf)
}

/// `byteorder::LittleEndian::read_u64`: the first eight bytes of `buf` as
/// an unsigned integer, least significant byte first. The crate panics on a
/// shorter buffer, which the precondition excludes.
#[verifier::external_body]
pub(crate) fn read_u64(buf: &[u8]) -> (n: u64)
    requires
        buf@.len() >= 8,
    ensures
        n == le_u64(buf@),
{
    LittleEndian::read_u64(buf)
}

/// `byteorder::LittleEndian::write_u16` into a buffer of two bytes: the
/// encoding of `n`, least significant byte first.
#[verifier::external_body]
pub(crate) fn write_u16(n: u16) -> (out: [u8; 2])
    ensures
        out@ == u16_le_bytes(n),
{
    let mut out = [0u8; 2];
    LittleEndian::write_u16(&mut out, n);
    out
}

/// `byteorder::LittleEndian::write_u32` into a buffer of four bytes: the
/// encoding of `n`, least significant byte first.
#[verifier::external_body]
pub(crate) fn write_u32(n: u32) -> (out: [u8; 4])
    ensures
        out@ == u32_le_bytes(n),
{
    let mut out = [0u8; 4];
    LittleEndian::write_u32(&mut out, n);
    out
}

/// `byteorder::LittleEndian::write_i32` into a buffer of four bytes: the
/// encoding of `n` in two's complement, least significant byte first.
#[verifier::external_body]
pub(crate) fn write_i32(n: i32) -> (out: [u8; 4])
    ensures
        out@ == i32_le_bytes(n),
{
    let mut out = [0u8; 4];
    LittleEndian::write_i32(&mut out, n);
    out
}

/// `byteorder::LittleEndian::write_u64` into a buffer of eight bytes: the
/// encoding of `n`, least significant byte first.
#[verifier::external_body]
pub(crate) fn write_u64(n: u64) -> (out: [u8; 8])
    ensures
        out@ == u64_le_bytes(n),
{
    let mut out = [0u8; 8];
    LittleEndian::write_u64(&mut out, n);
    out
}

/// Decoding undoes encoding, for each width.
pub proof fn lemma_le_round_trip(a: u16, b: u32, c: u64, d: i32)
    ensures
        le_u16(u16_le_bytes(a)) == a,
        le_u32(u32_le_bytes(b)) == b,
        le_u64(u64_le_bytes(c)) == c,
        le_i32(i32_le_bytes(d)) == d,
{
    reveal_with_fuel(byte_of, 4);
    lemma_u32_round_trip(b);
    lemma_u32_round_trip((c % 0x1_0000_0000) as u32);
    lemma_u32_round_trip((c / 0x1_0000_0000) as u32);
    let lo = u32_le_bytes((c % 0x1_0000_0000) as u32);
    let hi = u32_le_bytes((c / 0x1_0000_0000) as u32);
    assert((lo + hi).subrange(4, 8) =~= hi);
    assert(le_u32(lo + hi) == le_u32(lo));
    if d < 0 {
        lemma_u32_round_trip((d + 0x1_0000_0000) as u32);
    } else {
        lemma_u32_round_trip(d as u32);
    }
}

/// Four encoded bytes decode to the integer they came from.
pub proof fn lemma_u32_round_trip(n: u32)
    ensures
        u32_le_bytes(n).len() == 4,
        le_u32(u32_le_bytes(n)) == n,
{
    reveal_with_fuel(byte_of, 4);
}

} // verus!
