//! Bit-level view of a packed byte: reading, setting and clearing single bits.

use vstd::prelude::*;

verus! {

/// Bit `k` of byte `b`, with bit 0 the least significant.
pub open spec fn byte_bit(b: u8, k: u8) -> bool {
    (b >> k) & 1u8 == 1u8
}

/// A bit read in executable code is either zero or one.
pub proof fn lemma_byte_bit_read(b: u8, k: u8)
    ensures
        ((b >> k) & 1u8 == 0u8) <==> !byte_bit(b, k),
{
    assert((b >> k) & 1u8 == 0u8 || (b >> k) & 1u8 == 1u8) by (bit_vector);
}

/// A zero byte has no bit set.
pub proof fn lemma_zero_byte(k: u8)
    ensures
        !byte_bit(0u8, k),
{
    assert((0u8 >> k) & 1u8 == 0u8) by (bit_vector);
}

/// Setting bit `o` of a byte sets exactly that bit.
pub proof fn lemma_set_bit(b: u8, o: u8, k: u8)
    requires
        o < 8,
        k < 8,
    ensures
        byte_bit(b | (1u8 << o), k) == (byte_bit(b, k) || k == o),
{
    assert(((b | (1u8 << o)) >> k) & 1u8 == (if ((b >> k) & 1u8 == 1u8) || k == o {
        1u8
    } else {
        0u8
    })) by (bit_vector)
        requires
            o < 8u8,
            k < 8u8,
    ;
}

/// Clearing bit `o` of a byte clears exactly that bit.
pub proof fn lemma_clear_bit(b: u8, o: u8, k: u8)
    requires
        o < 8,
        k < 8,
    ensures
        byte_bit(b & !(1u8 << o), k) == (byte_bit(b, k) && k != o),
{
    assert(((b & !(1u8 << o)) >> k) & 1u8 == (if ((b >> k) & 1u8 == 1u8) && k != o {
        1u8
    } else {
        0u8
    })) by (bit_vector)
        requires
            o < 8u8,
            k < 8u8,
    ;
}

} // verus!
