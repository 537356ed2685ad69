//! Bit helpers on single bytes.

use vstd::prelude::*;

verus! {

/// Whether the high bit (`0x80`) of `byte` is set.
pub fn is_high_bit_set(byte: u8) -> (r: bool)
    ensures
        r == (byte >= 128),
{
    byte >= 128
}

/// `byte` with its high bit (`0x80`) set.
pub fn set_high_bit_u8(byte: u8) -> (r: u8)
    ensures
        r == byte % 128 + 128,
{
    let r = byte | 0x80;
    assert(byte | 0x80 == byte % 128 + 128) by (bit_vector);
    r
}

/// `byte` with its high bit (`0x80`) cleared.
pub fn unset_high_bit_u8(byte: u8) -> (r: u8)
    ensures
        r == byte % 128,
{
    let r = byte & 0x7f;
    assert(byte & 0x7f == byte % 128) by (bit_vector);
    r
}

/// Whether the second highest bit (`0x40`) of `byte` is set.
pub fn is_second_high_bit_set(byte: u8) -> (r: bool)
    ensures
        r == (byte % 128 >= 64),
{
    let r = byte & 0x40 != 0;
    assert((byte & 0x40 != 0) == (byte % 128 >= 64)) by (bit_vector);
    r
}

/// `byte` with its second highest bit (`0x40`) set.
pub fn set_second_high_bit_u8(byte: u8) -> (r: u8)
    ensures
        r == byte / 128 * 128 + 64 + byte % 64,
{
    let r = byte | 0x40;
    assert(byte | 0x40 == byte / 128 * 128 + 64 + byte % 64) by (bit_vector);
    r
}

/// `byte` with its second highest bit (`0x40`) cleared.
pub fn unset_second_high_bit_u8(byte: u8) -> (r: u8)
    ensures
        r == byte / 128 * 128 + byte % 64,
{
    let r = byte & 0xbf;
    assert(byte & 0xbf == byte / 128 * 128 + byte % 64) by (bit_vector);
    r
}

/// Byte `k` (0 to 3) of `v`, least significant first: the order in which a
/// little-endian machine lays out a `u32` in memory.
pub open spec fn le_byte(v: u32, k: nat) -> u8 {
    (if k == 0 {
        v % 0x100
    } else if k == 1 {
        v / 0x100 % 0x100
    } else if k == 2 {
        v / 0x1_0000 % 0x100
    } else {
        v / 0x100_0000 % 0x100
    }) as u8
}

/// The first `w` bytes of `v`, least significant first.
pub open spec fn le_prefix(v: u32, w: nat) -> Seq<u8> {
    Seq::new(w, |k: int| le_byte(v, k as nat))
}

/// Byte `k` (0 to 3) of `v`, least significant first.
pub fn le_byte_of(v: u32, k: usize) -> (r: u8)
    requires
        k < 4,
    ensures
        r == le_byte(v, k as nat),
{
    if k == 0 {
        (v % 0x100) as u8
    } else if k == 1 {
        (v / 0x100 % 0x100) as u8
    } else if k == 2 {
        (v / 0x1_0000 % 0x100) as u8
    } else {
        (v / 0x100_0000 % 0x100) as u8
    }
}

} // verus!
