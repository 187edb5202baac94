//! Little-endian primitives of the binary codec.
//!
//! Every multi-byte number in the container and in table entries is stored
//! little-endian at a fixed width; signed integers use two's complement.
//! Readers work on a byte slice and a position, writers append to a byte
//! vector; each is specified against the corresponding `spec_*` function of
//! `vstd::bytes` or of this module.

use vstd::bytes::spec_u16_from_le_bytes;
use vstd::bytes::spec_u16_to_le_bytes;
use vstd::bytes::spec_u32_from_le_bytes;
use vstd::bytes::spec_u32_to_le_bytes;
use vstd::bytes::spec_u64_from_le_bytes;
use vstd::bytes::spec_u64_to_le_bytes;
use vstd::bytes::lemma_auto_spec_u16_to_from_le_bytes;
use vstd::bytes::lemma_auto_spec_u32_to_from_le_bytes;
use vstd::bytes::lemma_auto_spec_u64_to_from_le_bytes;
use vstd::prelude::*;
use vstd::slice::slice_subrange;

verus! {

/// Two's complement image of an `i16`.
pub open spec fn spec_u16_of_i16(x: i16) -> u16 {
    if x >= 0 {
        x as u16
    } else {
        (x + 0x10000) as u16
    }
}

/// Inverse of [`spec_u16_of_i16`].
pub open spec fn spec_i16_of_u16(u: u16) -> i16 {
    if u < 0x8000 {
        u as i16
    } else {
        (u - 0x10000) as i16
    }
}

/// Two's complement image of an `i32`.
pub open spec fn spec_u32_of_i32(x: i32) -> u32 {
    if x >= 0 {
        x as u32
    } else {
        (x + 0x100000000) as u32
    }
}

/// Inverse of [`spec_u32_of_i32`].
pub open spec fn spec_i32_of_u32(u: u32) -> i32 {
    if u < 0x80000000 {
        u as i32
    } else {
        (u - 0x100000000) as i32
    }
}

/// Two's complement image of an `i64`.
pub open spec fn spec_u64_of_i64(x: i64) -> u64 {
    if x >= 0 {
        x as u64
    } else {
        (x + 0x10000000000000000) as u64
    }
}

/// Inverse of [`spec_u64_of_i64`].
pub open spec fn spec_i64_of_u64(u: u64) -> i64 {
    if u < 0x8000000000000000 {
        u as i64
    } else {
        (u - 0x10000000000000000) as i64
    }
}

pub broadcast proof fn lemma_i16_round_trip(x: i16)
    ensures
        #[trigger] spec_i16_of_u16(spec_u16_of_i16(x)) == x,
{
}

pub broadcast proof fn lemma_u16_round_trip(u: u16)
    ensures
        #[trigger] spec_u16_of_i16(spec_i16_of_u16(u)) == u,
{
}

pub broadcast proof fn lemma_i32_round_trip(x: i32)
    ensures
        #[trigger] spec_i32_of_u32(spec_u32_of_i32(x)) == x,
{
}

pub broadcast proof fn lemma_u32_round_trip(u: u32)
    ensures
        #[trigger] spec_u32_of_i32(spec_i32_of_u32(u)) == u,
{
}

pub broadcast proof fn lemma_i64_round_trip(x: i64)
    ensures
        #[trigger] spec_i64_of_u64(spec_u64_of_i64(x)) == x,
{
}

pub broadcast proof fn lemma_u64_round_trip(u: u64)
    ensures
        #[trigger] spec_u64_of_i64(spec_i64_of_u64(u)) == u,
{
}

pub fn u16_of_i16(x: i16) -> (u: u16)
    ensures
        u == spec_u16_of_i16(x),
{
    if x >= 0 {
        x as u16
    } else {
        ((x as i32) + 0x10000) as u16
    }
}

pub fn i16_of_u16(u: u16) -> (x: i16)
    ensures
        x == spec_i16_of_u16(u),
{
    if u < 0x8000 {
        u as i16
    } else {
        ((u as i32) - 0x10000) as i16
    }
}

pub fn u32_of_i32(x: i32) -> (u: u32)
    ensures
        u == spec_u32_of_i32(x),
{
    if x >= 0 {
        x as u32
    } else {
        ((x as i64) + 0x100000000) as u32
    }
}

pub fn i32_of_u32(u: u32) -> (x: i32)
    ensures
        x == spec_i32_of_u32(u),
{
    if u < 0x80000000 {
        u as i32
    } else {
        ((u as i64) - 0x100000000) as i32
    }
}

pub fn u64_of_i64(x: i64) -> (u: u64)
    ensures
        u == spec_u64_of_i64(x),
{
    if x >= 0 {
        x as u64
    } else {
        ((x as i128) + 0x10000000000000000) as u64
    }
}

pub fn i64_of_u64(u: u64) -> (x: i64)
    ensures
        x == spec_i64_of_u64(u),
{
    if u < 0x8000000000000000 {
        u as i64
    } else {
        ((u as i128) - 0x10000000000000000) as i64
    }
}

/// Reads the little-endian `u16` at `pos`.
pub fn read_u16(b: &[u8], pos: usize) -> (x: u16)
    requires
        pos + 2 <= b@.len(),
    ensures
        x == spec_u16_from_le_bytes(b@.subrange(pos as int, pos + 2)),
{
    // Taking the length first teaches the verifier that the slice, and so
    // every position inside it, fits a machine integer.
    let len = b.len();
    vstd::bytes::u16_from_le_bytes(slice_subrange(b, pos, pos + 2))
}

/// Reads the little-endian `u32` at `pos`.
pub fn read_u32(b: &[u8], pos: usize) -> (x: u32)
    requires
        pos + 4 <= b@.len(),
    ensures
        x == spec_u32_from_le_bytes(b@.subrange(pos as int, pos + 4)),
{
    let len = b.len();
    vstd::bytes::u32_from_le_bytes(slice_subrange(b, pos, pos + 4))
}

/// Reads the little-endian `u64` at `pos`.
pub fn read_u64(b: &[u8], pos: usize) -> (x: u64)
    requires
        pos + 8 <= b@.len(),
    ensures
        x == spec_u64_from_le_bytes(b@.subrange(pos as int, pos + 8)),
{
    let len = b.len();
    vstd::bytes::u64_from_le_bytes(slice_subrange(b, pos, pos + 8))
}

/// Appends the little-endian bytes of a `u16`.
pub fn write_u16(out: &mut Vec<u8>, x: u16)
    ensures
        final(out)@ == old(out)@ + spec_u16_to_le_bytes(x),
{
    let mut bytes = vstd::bytes::u16_to_le_bytes(x);
    out.append(&mut bytes);
}

/// Appends the little-endian bytes of a `u32`.
pub fn write_u32(out: &mut Vec<u8>, x: u32)
    ensures
        final(out)@ == old(out)@ + spec_u32_to_le_bytes(x),
{
    let mut bytes = vstd::bytes::u32_to_le_bytes(x);
    out.append(&mut bytes);
}

/// Appends the little-endian bytes of a `u64`.
pub fn write_u64(out: &mut Vec<u8>, x: u64)
    ensures
        final(out)@ == old(out)@ + spec_u64_to_le_bytes(x),
{
    let mut bytes = vstd::bytes::u64_to_le_bytes(x);
    out.append(&mut bytes);
}

/// The length of each little-endian image, and both round trips, for every
/// width at once; a convenience wrapper over the `vstd::bytes` lemmas.
pub proof fn lemma_le_bytes_auto()
    ensures
        forall|x: u16|
            {
                &&& (#[trigger] spec_u16_to_le_bytes(x)).len() == 2
                &&& spec_u16_from_le_bytes(spec_u16_to_le_bytes(x)) == x
            },
        forall|s: Seq<u8>|
            s.len() == 2 ==> #[trigger] spec_u16_to_le_bytes(spec_u16_from_le_bytes(s)) == s,
        forall|x: u32|
            {
                &&& (#[trigger] spec_u32_to_le_bytes(x)).len() == 4
                &&& spec_u32_from_le_bytes(spec_u32_to_le_bytes(x)) == x
            },
        forall|s: Seq<u8>|
            s.len() == 4 ==> #[trigger] spec_u32_to_le_bytes(spec_u32_from_le_bytes(s)) == s,
        forall|x: u64|
            {
                &&& (#[trigger] spec_u64_to_le_bytes(x)).len() == 8
                &&& spec_u64_from_le_bytes(spec_u64_to_le_bytes(x)) == x
            },
        forall|s: Seq<u8>|
            s.len() == 8 ==> #[trigger] spec_u64_to_le_bytes(spec_u64_from_le_bytes(s)) == s,
{
    lemma_auto_spec_u16_to_from_le_bytes();
    lemma_auto_spec_u32_to_from_le_bytes();
    lemma_auto_spec_u64_to_from_le_bytes();
}

} // verus!
