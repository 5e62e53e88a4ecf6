//! Integers in a frame's bytes: four bytes, most or least significant first.

use byteorder::{BigEndian, ByteOrder, LittleEndian};
use vstd::prelude::*;

verus! {

/// The number whose four bytes are `b0`, `b1`, `b2`, `b3`, from the most
/// significant down.
pub open spec fn u32_of(b0: u8, b1: u8, b2: u8, b3: u8) -> int {
    b0 as int * 0x100_0000 + b1 as int * 0x1_0000 + b2 as int * 0x100 + b3 as int
}

/// The number that the four bytes at `at` in `bytes` give, most significant
/// byte first.
pub open spec fn be_at(bytes: Seq<u8>, at: int) -> int {
    u32_of(bytes[at], bytes[at + 1], bytes[at + 2], bytes[at + 3])
}

/// The number that the four bytes at `at` in `bytes` give, least significant
/// byte first.
pub open spec fn le_at(bytes: Seq<u8>, at: int) -> int {
    u32_of(bytes[at + 3], bytes[at + 2], bytes[at + 1], bytes[at])
}

/// Calls `byteorder::BigEndian::read_u32` on four bytes. Taken on trust, not
/// proved: it returns the number that the bytes give, most significant byte
/// first.
#[verifier::external_body]
fn read_be(bytes: &[u8; 4]) -> (v: u32)
    ensures
        v == u32_of(bytes@[0], bytes@[1], bytes@[2], bytes@[3]),
{
    BigEndian::read_u32(bytes)
}

/// Calls `byteorder::LittleEndian::read_u32` on four bytes. Taken on trust,
/// not proved: it returns the number that the bytes give, least significant
/// byte first.
#[verifier::external_body]
fn read_le(bytes: &[u8; 4]) -> (v: u32)
    ensures
        v == u32_of(bytes@[3], bytes@[2], bytes@[1], bytes@[0]),
{
    LittleEndian::read_u32(bytes)
}

/// Calls `byteorder::BigEndian::write_u32` on a buffer of four bytes and
/// returns the buffer. Taken on trust, not proved: it fills the buffer with
/// the bytes of `n`, most significant first.
#[verifier::external_body]
fn write_be(n: u32) -> (bytes: [u8; 4])
    ensures
        bytes@[0] == n / 0x100_0000,
        bytes@[1] == (n / 0x1_0000) % 0x100,
        bytes@[2] == (n / 0x100) % 0x100,
        bytes@[3] == n % 0x100,
{
    let mut bytes = [0u8; 4];
    BigEndian::write_u32(&mut bytes, n);
    bytes
}

/// The number at `at` in `bytes`, most significant byte first if `le` is
/// not set and least significant byte first if it is; none where fewer than
/// four bytes are left.
pub fn read_u32(bytes: &Vec<u8>, at: usize, le: bool) -> (v: Option<u32>)
    ensures
        v.is_some() == (at + 4 <= bytes@.len()),
        v matches Some(n) ==> n == if le {
            le_at(bytes@, at as int)
        } else {
            be_at(bytes@, at as int)
        },
{
    if bytes.len() < 4 || at > bytes.len() - 4 {
        return None;
    }
    let four = [bytes[at], bytes[at + 1], bytes[at + 2], bytes[at + 3]];
    if le {
        Some(read_le(&four))
    } else {
        Some(read_be(&four))
    }
}

/// The four bytes of `n`, most significant first.
pub open spec fn u32_bytes(n: u32) -> Seq<u8> {
    seq![
        (n / 0x100_0000) as u8,
        ((n / 0x1_0000) % 0x100) as u8,
        ((n / 0x100) % 0x100) as u8,
        (n % 0x100) as u8,
    ]
}

/// Puts `n` at the end of `out` as four bytes, most significant first.
pub fn push_u32(out: &mut Vec<u8>, n: u32)
    ensures
        final(out)@ == old(out)@ + u32_bytes(n),
{
    let four = write_be(n);
    out.push(four[0]);
    out.push(four[1]);
    out.push(four[2]);
    out.push(four[3]);
    assert(out@ =~= old(out)@ + u32_bytes(n));
}

} // verus!
