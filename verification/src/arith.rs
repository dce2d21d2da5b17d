//! Alignment arithmetic shared by the bitmap and the byte allocator.

use vstd::prelude::*;

verus! {

use vstd::arithmetic::div_mod::{
    lemma_fundamental_div_mod, lemma_div_multiples_vanish, lemma_mod_multiples_basic,
    lemma_mod_division_less_than_divisor, lemma_div_pos_is_pos,
};
use vstd::arithmetic::mul::lemma_mul_is_commutative;
use vstd::arithmetic::power2::{pow2, lemma_pow2_pos};
use vstd::bits::{low_bits_mask, lemma_usize_low_bits_mask_is_mod};

/// The least multiple of `align` that is at least `val`.
pub open spec fn spec_align_up(val: int, align: int) -> int {
    ((val + align - 1) / align) * align
}

/// `val / align`, rounded towards positive infinity.
pub open spec fn spec_div_round_up(val: int, align: int) -> int {
    (val + align - 1) / align
}

/// `a` is a power of two that a `usize` can hold.
pub open spec fn is_pow2(a: usize) -> bool {
    exists|e: nat| e < usize::BITS && a == pow2(e)
}

/// Rounding up never moves below `val` and stays within one `align` of it.
pub proof fn lemma_div_round_up_bounds(val: int, align: int)
    requires
        align >= 1,
        val >= 0,
    ensures
        spec_div_round_up(val, align) >= 0,
        spec_div_round_up(val, align) * align >= val,
        spec_div_round_up(val, align) * align < val + align,
{
    let x = val + align - 1;
    lemma_fundamental_div_mod(x, align);
    lemma_mod_division_less_than_divisor(x, align);
    lemma_div_pos_is_pos(x, align);
    lemma_mul_is_commutative(x / align, align);
}

/// Rounds `val` up to the next multiple of `align`, a power of two.
pub fn align_up(val: usize, align: usize) -> (r: usize)
    requires
        is_pow2(align),
        val + align - 1 <= usize::MAX,
    ensures
        r == spec_align_up(val as int, align as int),
        val <= r < val + align,
        (r as int) % (align as int) == 0,
{
    proof {
        let e = choose|e: nat| e < usize::BITS && align == pow2(e);
        lemma_pow2_pos(e);
    }
    let x = val + (align - 1);
    let r = x & !(align - 1);
    proof {
        let e = choose|e: nat| e < usize::BITS && align == pow2(e);
        let m = (align - 1) as usize;
        assert(m == low_bits_mask(e));
        assert(x & !m == vstd::prelude::sub(x, x & m)) by (bit_vector);
        lemma_usize_low_bits_mask_is_mod(x, e);
        assert(x & m == x % align);
        lemma_fundamental_div_mod(x as int, align as int);
        lemma_mod_division_less_than_divisor(x as int, align as int);
        lemma_mul_is_commutative(x as int / align as int, align as int);
        lemma_mod_multiples_basic(x as int / align as int, align as int);
    }
    r
}

/// Divides `val` by `align`, a power of two, rounding up.
pub fn div_round_up(val: usize, align: usize) -> (r: usize)
    requires
        is_pow2(align),
        val + align - 1 <= usize::MAX,
    ensures
        r == spec_div_round_up(val as int, align as int),
        r * align >= val,
{
    proof {
        let e = choose|e: nat| e < usize::BITS && align == pow2(e);
        lemma_pow2_pos(e);
    }
    let au = align_up(val, align);
    let r = au / align;
    proof {
        let q = spec_div_round_up(val as int, align as int);
        lemma_div_multiples_vanish(q, align as int);
        lemma_mul_is_commutative(q, align as int);
        lemma_div_round_up_bounds(val as int, align as int);
    }
    r
}

} // verus!
