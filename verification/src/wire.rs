//! Little-endian integers on the wire.

use byteorder::{ByteOrder, LittleEndian};
use vstd::prelude::*;
use vstd::slice::slice_subrange;

verus! {

/// The unsigned 16-bit value stored little-endian at `at`.
pub open spec fn le_u16(s: Seq<u8>, at: int) -> int {
    s[at] as int + 0x100 * (s[at + 1] as int)
}

/// The unsigned 32-bit value stored little-endian at `at`.
pub open spec fn le_u32(s: Seq<u8>, at: int) -> int {
    s[at] as int + 0x100 * (s[at + 1] as int) + 0x1_0000 * (s[at + 2] as int) + 0x100_0000 * (s[at
        + 3] as int)
}

/// The two's-complement reading of `u`, an unsigned value below `modulus`.
pub open spec fn as_signed(u: int, modulus: int) -> int {
    if 2 * u >= modulus {
        u - modulus
    } else {
        u
    }
}

/// The signed 8-bit value stored at `at`.
pub open spec fn le_i8(s: Seq<u8>, at: int) -> int {
    as_signed(s[at] as int, 0x100)
}

/// The signed 16-bit value stored little-endian at `at`.
pub open spec fn le_i16(s: Seq<u8>, at: int) -> int {
    as_signed(le_u16(s, at), 0x1_0000)
}

/// The signed 32-bit value stored little-endian at `at`.
pub open spec fn le_i32(s: Seq<u8>, at: int) -> int {
    as_signed(le_u32(s, at), 0x1_0000_0000)
}

/// `byteorder::LittleEndian::read_u16`.
///
/// Trusted: the result is the first two bytes of `buf` read as a
/// little-endian unsigned integer. The call panics on fewer than two bytes,
/// which the precondition rules out.
#[verifier::external_body]
fn first_u16(buf: &[u8]) -> (v: u16)
    requires
        buf.len() >= 2,
    ensures
        v as int == le_u16(buf@, 0),
{
    LittleEndian::read_u16(buf)
}

/// `byteorder::LittleEndian::read_i16`.
///
/// Trusted: the result is the first two bytes of `buf` read as a
/// little-endian two's-complement integer. The call panics on fewer than two
/// bytes, which the precondition rules out.
#[verifier::external_body]
fn first_i16(buf: &[u8]) -> (v: i16)
    requires
        buf.len() >= 2,
    ensures
        v as int == le_i16(buf@, 0),
{
    LittleEndian::read_i16(buf)
}

/// `byteorder::LittleEndian::read_u32`.
///
/// Trusted: the result is the first four bytes of `buf` read as a
/// little-endian unsigned integer. The call panics on fewer than four bytes,
/// which the precondition rules out.
#[verifier::external_body]
fn first_u32(buf: &[u8]) -> (v: u32)
    requires
        buf.len() >= 4,
    ensures
        v as int == le_u32(buf@, 0),
{
    LittleEndian::read_u32(buf)
}

/// `byteorder::LittleEndian::read_i32`.
///
/// Trusted: the result is the first four bytes of `buf` read as a
/// little-endian two's-complement integer. The call panics on fewer than
/// four bytes, which the precondition rules out.
#[verifier::external_body]
fn first_i32(buf: &[u8]) -> (v: i32)
    requires
        buf.len() >= 4,
    ensures
        v as int == le_i32(buf@, 0),
{
    LittleEndian::read_i32(buf)
}

/// The unsigned 16-bit integer stored little-endian at `at`.
pub fn take_u16(bytes: &[u8], at: usize) -> (v: u16)
    requires
        at + 2 <= bytes.len(),
    ensures
        v as int == le_u16(bytes@, at as int),
{
    let end: usize = bytes.len();
    first_u16(slice_subrange(bytes, at, end))
}

/// The signed 16-bit integer stored little-endian at `at`.
pub fn take_i16(bytes: &[u8], at: usize) -> (v: i16)
    requires
        at + 2 <= bytes.len(),
    ensures
        v as int == le_i16(bytes@, at as int),
{
    let end: usize = bytes.len();
    first_i16(slice_subrange(bytes, at, end))
}

/// The unsigned 32-bit integer stored little-endian at `at`.
pub fn take_u32(bytes: &[u8], at: usize) -> (v: u32)
    requires
        at + 4 <= bytes.len(),
    ensures
        v as int == le_u32(bytes@, at as int),
{
    let end: usize = bytes.len();
    first_u32(slice_subrange(bytes, at, end))
}

/// The signed 32-bit integer stored little-endian at `at`.
pub fn take_i32(bytes: &[u8], at: usize) -> (v: i32)
    requires
        at + 4 <= bytes.len(),
    ensures
        v as int == le_i32(bytes@, at as int),
{
    let end: usize = bytes.len();
    first_i32(slice_subrange(bytes, at, end))
}

/// The byte at `at` as a signed 8-bit integer.
pub fn take_i8(bytes: &[u8], at: usize) -> (v: i8)
    requires
        at < bytes.len(),
    ensures
        v as int == le_i8(bytes@, at as int),
{
    let b: u8 = bytes[at];
    assert(b as i8 as int == as_signed(b as int, 0x100)) by (bit_vector);
    b as i8
}

} // verus!
