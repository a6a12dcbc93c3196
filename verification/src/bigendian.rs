//! Big-endian numbers, the byte order of every FITS payload, read through
//! the `byteorder` crate.

use vstd::prelude::*;
use byteorder::{BigEndian, ByteOrder};

verus! {

/// The number whose base-256 digits are the bytes of `s`, most significant
/// first.
pub open spec fn be_value(s: Seq<u8>) -> nat
    decreases s.len(),
{
    if s.len() == 0 {
        0
    } else {
        be_value(s.drop_last()) * 256 + s.last() as nat
    }
}

/// The signed number that `v` stands for in two's complement, where
/// `modulus` is two to the number of bits.
pub open spec fn twos_complement(v: nat, modulus: int) -> int {
    if 2 * v >= modulus {
        v - modulus
    } else {
        v as int
    }
}

/// `BigEndian::read_i16`: the first two bytes of `buf` as a signed number,
/// most significant byte first. It panics on fewer than two bytes.
#[verifier::external_body]
pub(crate) fn read_i16(buf: &[u8]) -> (v: i16)
    requires
        buf@.len() >= 2,
    ensures
        v as int == twos_complement(be_value(buf@.take(2)), 0x1_0000),
{
    BigEndian::read_i16(buf)
}

/// `BigEndian::read_i32`: the first four bytes of `buf` as a signed number,
/// most significant byte first. It panics on fewer than four bytes.
#[verifier::external_body]
pub(crate) fn read_i32(buf: &[u8]) -> (v: i32)
    requires
        buf@.len() >= 4,
    ensures
        v as int == twos_complement(be_value(buf@.take(4)), 0x1_0000_0000),
{
    BigEndian::read_i32(buf)
}

/// `BigEndian::read_i64`: the first eight bytes of `buf` as a signed number,
/// most significant byte first. It panics on fewer than eight bytes.
#[verifier::external_body]
pub(crate) fn read_i64(buf: &[u8]) -> (v: i64)
    requires
        buf@.len() >= 8,
    ensures
        v as int == twos_complement(be_value(buf@.take(8)), 0x1_0000_0000_0000_0000),
{
    BigEndian::read_i64(buf)
}

/// `BigEndian::read_u32`: the first four bytes of `buf` as an unsigned
/// number, most significant byte first. It panics on fewer than four bytes.
#[verifier::external_body]
pub(crate) fn read_u32(buf: &[u8]) -> (v: u32)
    requires
        buf@.len() >= 4,
    ensures
        v as nat == be_value(buf@.take(4)),
{
    BigEndian::read_u32(buf)
}

/// `BigEndian::read_u64`: the first eight bytes of `buf` as an unsigned
/// number, most significant byte first. It panics on fewer than eight bytes.
#[verifier::external_body]
pub(crate) fn read_u64(buf: &[u8]) -> (v: u64)
    requires
        buf@.len() >= 8,
    ensures
        v as nat == be_value(buf@.take(8)),
{
    BigEndian::read_u64(buf)
}

} // verus!
