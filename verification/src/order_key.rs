//! An order-preserving integer key for the bit pattern of an IEEE-754
//! single-precision value.
//!
//! For any two values `x`, `y` that are not NaN and are not the pair
//! `-0.0` / `+0.0`, `x < y` holds exactly when `key(bits(x)) < key(bits(y))`
//! holds (that is the IEEE total order restricted to ordered values). The map
//! is a bijection on `u32`, so a minimum or maximum taken over keys can be
//! turned back into the exact bit pattern it came from.

use vstd::prelude::*;

verus! {

/// The sign bit of a single-precision bit pattern.
pub const SIGN_BIT: u32 = 0x8000_0000;

/// Bit pattern of `+inf`.
pub const POS_INF_BITS: u32 = 0x7f80_0000;

/// Bit pattern of `-inf`.
pub const NEG_INF_BITS: u32 = 0xff80_0000;

/// The key of a bit pattern: negative values have all bits flipped, the
/// others get their sign bit set.
pub open spec fn key_of(bits: u32) -> u32 {
    if bits & SIGN_BIT != 0 {
        !bits
    } else {
        bits | SIGN_BIT
    }
}

/// The bit pattern a key stands for (the inverse of `key_of`).
pub open spec fn bits_of(key: u32) -> u32 {
    if key & SIGN_BIT != 0 {
        key & !SIGN_BIT
    } else {
        !key
    }
}

/// Computes `key_of(bits)`.
pub fn order_key(bits: u32) -> (key: u32)
    ensures
        key == key_of(bits),
{
    if bits & SIGN_BIT != 0 {
        !bits
    } else {
        bits | SIGN_BIT
    }
}

/// Computes `bits_of(key)`.
pub fn bits_from_key(key: u32) -> (bits: u32)
    ensures
        bits == bits_of(key),
{
    if key & SIGN_BIT != 0 {
        key & !SIGN_BIT
    } else {
        !key
    }
}

/// Turning bits into a key and back gives the bits again.
pub proof fn lemma_bits_key_roundtrip(bits: u32)
    ensures
        bits_of(key_of(bits)) == bits,
{
    assert(bits & 0x8000_0000u32 != 0 ==> (!bits) & 0x8000_0000u32 == 0 && !(!bits) == bits)
        by (bit_vector);
    assert(bits & 0x8000_0000u32 == 0 ==> (bits | 0x8000_0000u32) & 0x8000_0000u32 != 0 && (
    bits | 0x8000_0000u32) & !0x8000_0000u32 == bits) by (bit_vector);
}

/// Turning a key into bits and back gives the key again.
pub proof fn lemma_key_bits_roundtrip(key: u32)
    ensures
        key_of(bits_of(key)) == key,
{
    assert(key & 0x8000_0000u32 != 0 ==> (key & !0x8000_0000u32) & 0x8000_0000u32 == 0 && ((key
        & !0x8000_0000u32) | 0x8000_0000u32) == key) by (bit_vector);
    assert(key & 0x8000_0000u32 == 0 ==> (!key) & 0x8000_0000u32 != 0 && !(!key) == key)
        by (bit_vector);
}

/// Keys of non-negative patterns (sign bit clear) keep the order of the
/// patterns themselves, and they all lie above the keys of negative patterns.
pub proof fn lemma_key_order(a: u32, b: u32)
    ensures
        a & SIGN_BIT == 0 && b & SIGN_BIT == 0 ==> (a < b <==> key_of(a) < key_of(b)),
        a & SIGN_BIT != 0 && b & SIGN_BIT != 0 ==> (a < b <==> key_of(b) < key_of(a)),
        a & SIGN_BIT != 0 && b & SIGN_BIT == 0 ==> key_of(a) < key_of(b),
{
    assert(a & 0x8000_0000u32 == 0 && b & 0x8000_0000u32 == 0 ==> (a < b <==> (a
        | 0x8000_0000u32) < (b | 0x8000_0000u32))) by (bit_vector);
    assert(a & 0x8000_0000u32 != 0 && b & 0x8000_0000u32 != 0 ==> (a < b <==> !b < !a))
        by (bit_vector);
    assert(a & 0x8000_0000u32 != 0 && b & 0x8000_0000u32 == 0 ==> !a < (b | 0x8000_0000u32))
        by (bit_vector);
}


/// The pattern is a NaN: all exponent bits set and a non-zero fraction.
pub open spec fn is_nan(bits: u32) -> bool {
    bits & 0x7f80_0000 == 0x7f80_0000 && bits & 0x007f_ffff != 0
}

/// The pattern is `+0.0` or `-0.0`.
pub open spec fn is_zero(bits: u32) -> bool {
    bits & 0x7fff_ffff == 0
}

/// The key under which IEEE comparison orders non-NaN values: the order key,
/// with `-0.0` given the key of `+0.0` (IEEE holds the two equal).
pub open spec fn ieee_key(bits: u32) -> u32 {
    if is_zero(bits) {
        0x8000_0000
    } else {
        key_of(bits)
    }
}

/// IEEE `a < b` on bit patterns: false whenever either side is NaN, false
/// between `-0.0` and `+0.0`, and the order of the values otherwise.
pub open spec fn float_lt(a: u32, b: u32) -> bool {
    !is_nan(a) && !is_nan(b) && ieee_key(a) < ieee_key(b)
}

/// Computes `is_nan(bits)`.
pub fn nan_bits(bits: u32) -> (r: bool)
    ensures
        r == is_nan(bits),
{
    bits & 0x7f80_0000 == 0x7f80_0000 && bits & 0x007f_ffff != 0
}

/// Computes `ieee_key(bits)`.
pub fn comparison_key(bits: u32) -> (k: u32)
    ensures
        k == ieee_key(bits),
{
    if bits & 0x7fff_ffff == 0 {
        0x8000_0000
    } else {
        order_key(bits)
    }
}

/// Computes `float_lt(a, b)`: the IEEE less-than of two bit patterns.
pub fn less_than(a: u32, b: u32) -> (r: bool)
    ensures
        r == float_lt(a, b),
{
    !nan_bits(a) && !nan_bits(b) && comparison_key(a) < comparison_key(b)
}

/// Only the two zeros share a comparison key among non-NaN patterns, and
/// no non-NaN pattern ranks above `+inf`.
pub proof fn lemma_ieee_key_facts(a: u32, b: u32)
    ensures
        !is_nan(a) && !is_nan(b) && ieee_key(a) == ieee_key(b) ==> a == b || (is_zero(a) && is_zero(b)),
        !is_nan(a) ==> ieee_key(a) <= ieee_key(POS_INF_BITS),
        !is_nan(a) ==> ieee_key(a) >= ieee_key(NEG_INF_BITS),
        ieee_key(POS_INF_BITS) == 0xff80_0000u32,
        ieee_key(NEG_INF_BITS) == 0x007f_ffffu32,
        !is_nan(POS_INF_BITS),
        !is_nan(NEG_INF_BITS),
{
    assert(!(0x7f80_0000u32 & 0x7f80_0000u32 == 0x7f80_0000u32 && 0x7f80_0000u32 & 0x007f_ffffu32 != 0))
        by (bit_vector);
    assert(!(0xff80_0000u32 & 0x7f80_0000u32 == 0x7f80_0000u32 && 0xff80_0000u32 & 0x007f_ffffu32 != 0))
        by (bit_vector);
    assert(!(a & 0x7f80_0000u32 == 0x7f80_0000u32 && a & 0x007f_ffffu32 != 0) && !(b & 0x7f80_0000u32
        == 0x7f80_0000u32 && b & 0x007f_ffffu32 != 0) && (if a & 0x7fff_ffffu32 == 0 {
        0x8000_0000u32
    } else if a & 0x8000_0000u32 != 0 {
        !a
    } else {
        a | 0x8000_0000u32
    }) == (if b & 0x7fff_ffffu32 == 0 {
        0x8000_0000u32
    } else if b & 0x8000_0000u32 != 0 {
        !b
    } else {
        b | 0x8000_0000u32
    }) ==> a == b || (a & 0x7fff_ffffu32 == 0 && b & 0x7fff_ffffu32 == 0)) by (bit_vector);
    assert(!(a & 0x7f80_0000u32 == 0x7f80_0000u32 && a & 0x007f_ffffu32 != 0) ==> (if a & 0x7fff_ffffu32
        == 0 {
        0x8000_0000u32
    } else if a & 0x8000_0000u32 != 0 {
        !a
    } else {
        a | 0x8000_0000u32
    }) <= 0xff80_0000u32 && (if a & 0x7fff_ffffu32 == 0 {
        0x8000_0000u32
    } else if a & 0x8000_0000u32 != 0 {
        !a
    } else {
        a | 0x8000_0000u32
    }) >= 0x007f_ffffu32) by (bit_vector);
    assert(0x7f80_0000u32 & 0x7fff_ffffu32 != 0 && 0x7f80_0000u32 & 0x8000_0000u32 == 0 && (0x7f80_0000u32
        | 0x8000_0000u32) == 0xff80_0000u32) by (bit_vector);
    assert(0xff80_0000u32 & 0x7fff_ffffu32 != 0 && 0xff80_0000u32 & 0x8000_0000u32 != 0 && !0xff80_0000u32
        == 0x007f_ffffu32) by (bit_vector);
}

} // verus!
