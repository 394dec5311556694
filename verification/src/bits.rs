//! Single bits inside a byte: how a packed cell is read and written.

use vstd::prelude::*;

verus! {

/// The bit of `byte` at position `pos`, position 0 being the least significant
/// one. The result is 0 or 1.
pub open spec fn bit_of(byte: u8, pos: int) -> u8 {
    (byte >> (pos as u8)) & 1u8
}

/// `byte` after a write of `value` at position `pos`: the bit is cleared when
/// `value` is 0 and set for any other value; the other seven bits stay.
pub open spec fn write_bit(byte: u8, pos: int, value: u8) -> u8 {
    if value == 0 {
        byte & !(1u8 << (pos as u8))
    } else {
        byte | (1u8 << (pos as u8))
    }
}

/// The bit that a write of `value` leaves behind: 0 for 0, 1 for anything else.
pub open spec fn as_bit(value: u8) -> u8 {
    if value == 0 {
        0
    } else {
        1
    }
}

/// A bit is 0 or 1.
pub proof fn lemma_bit_of_is_binary(byte: u8, pos: int)
    requires
        0 <= pos < 8,
    ensures
        bit_of(byte, pos) <= 1,
{
    let p = pos as u8;
    assert((byte >> p) & 1u8 <= 1) by (bit_vector);
}

/// Masking a byte with the bit at `pos` and shifting the result down reads
/// the same bit as shifting first and masking with 1.
pub proof fn lemma_mask_then_shift(byte: u8, pos: u8)
    requires
        pos < 8,
    ensures
        (byte & (1u8 << pos)) >> pos == bit_of(byte, pos as int),
{
    assert((byte & (1u8 << pos)) >> pos == (byte >> pos) & 1u8) by (bit_vector)
        requires
            pos < 8,
    ;
}

/// A write changes the bit it addresses and no other.
pub proof fn lemma_write_bit_reads(byte: u8, pos: int, value: u8, at: int)
    requires
        0 <= pos < 8,
        0 <= at < 8,
    ensures
        bit_of(write_bit(byte, pos, value), at) == if at == pos {
            as_bit(value)
        } else {
            bit_of(byte, at)
        },
{
    let p = pos as u8;
    let a = at as u8;
    assert(((byte & !(1u8 << p)) >> a) & 1u8 == if a == p {
        0u8
    } else {
        (byte >> a) & 1u8
    }) by (bit_vector)
        requires
            p < 8,
            a < 8,
    ;
    assert(((byte | (1u8 << p)) >> a) & 1u8 == if a == p {
        1u8
    } else {
        (byte >> a) & 1u8
    }) by (bit_vector)
        requires
            p < 8,
            a < 8,
    ;
}

/// Two bytes with the same eight bits are the same byte.
pub proof fn lemma_bits_determine_byte(a: u8, b: u8)
    requires
        forall|pos: int| 0 <= pos < 8 ==> bit_of(a, pos) == bit_of(b, pos),
    ensures
        a == b,
{
    assert(bit_of(a, 0) == bit_of(b, 0));
    assert(bit_of(a, 1) == bit_of(b, 1));
    assert(bit_of(a, 2) == bit_of(b, 2));
    assert(bit_of(a, 3) == bit_of(b, 3));
    assert(bit_of(a, 4) == bit_of(b, 4));
    assert(bit_of(a, 5) == bit_of(b, 5));
    assert(bit_of(a, 6) == bit_of(b, 6));
    assert(bit_of(a, 7) == bit_of(b, 7));
    assert(a == b) by (bit_vector)
        requires
            (a >> 0u8) & 1u8 == (b >> 0u8) & 1u8,
            (a >> 1u8) & 1u8 == (b >> 1u8) & 1u8,
            (a >> 2u8) & 1u8 == (b >> 2u8) & 1u8,
            (a >> 3u8) & 1u8 == (b >> 3u8) & 1u8,
            (a >> 4u8) & 1u8 == (b >> 4u8) & 1u8,
            (a >> 5u8) & 1u8 == (b >> 5u8) & 1u8,
            (a >> 6u8) & 1u8 == (b >> 6u8) & 1u8,
            (a >> 7u8) & 1u8 == (b >> 7u8) & 1u8,
    ;
}

/// Every bit of the zero byte is 0.
pub proof fn lemma_zero_byte(pos: int)
    requires
        0 <= pos < 8,
    ensures
        bit_of(0u8, pos) == 0,
{
    let p = pos as u8;
    assert((0u8 >> p) & 1u8 == 0) by (bit_vector);
}

} // verus!
