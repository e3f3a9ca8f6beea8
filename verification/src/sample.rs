//! Binary32 encodings and their order.
//!
//! A sample is the bit pattern of an IEEE-754 single precision number: one
//! sign bit, eight exponent bits, twenty-three fraction bits. For every
//! pattern that is not a NaN the pattern without its sign bit grows with the
//! absolute value it encodes, so the signed magnitude, called the rank here,
//! orders the encodings as the numbers themselves are ordered. Both zeros
//! have rank 0. A NaN is below nothing and above nothing.

use vstd::prelude::*;

verus! {

/// The sign bit of an encoding.
pub const SIGN_BIT: u32 = 0x8000_0000;

/// The encoding of positive infinity.
pub const POS_INF: u32 = 0x7F80_0000;

/// The encoding of negative infinity.
pub const NEG_INF: u32 = 0xFF80_0000;

/// The encoding without its sign bit.
pub open spec fn magnitude(bits: u32) -> int {
    if bits >= SIGN_BIT {
        bits - SIGN_BIT
    } else {
        bits as int
    }
}

/// Whether the encoding is a NaN: all exponent bits set and a fraction that
/// is not zero.
pub open spec fn is_nan(bits: u32) -> bool {
    magnitude(bits) > POS_INF
}

/// The signed magnitude of an encoding. On encodings that are not NaN it is
/// strictly monotone in the encoded number, and the two zeros share rank 0.
pub open spec fn rank(bits: u32) -> int {
    if bits >= SIGN_BIT {
        -magnitude(bits)
    } else {
        magnitude(bits)
    }
}

/// `a < b` on the encoded numbers. False whenever either side is a NaN.
pub open spec fn lt(a: u32, b: u32) -> bool {
    !is_nan(a) && !is_nan(b) && rank(a) < rank(b)
}

/// `a > b` on the encoded numbers. False whenever either side is a NaN.
pub open spec fn gt(a: u32, b: u32) -> bool {
    lt(b, a)
}

/// `a >= 0` on the encoded number: true of both zeros, of every positive
/// number and of positive infinity, false of a NaN.
pub open spec fn non_negative(a: u32) -> bool {
    !is_nan(a) && rank(a) >= 0
}

/// Whether the encoded number is a zero of either sign.
pub open spec fn is_zero(a: u32) -> bool {
    magnitude(a) == 0
}

/// Tests whether an encoding is a NaN.
pub fn nan(bits: u32) -> (r: bool)
    ensures
        r == is_nan(bits),
{
    if bits >= SIGN_BIT {
        bits - SIGN_BIT > POS_INF
    } else {
        bits > POS_INF
    }
}

/// The rank of an encoding as a machine integer.
pub fn rank_of(bits: u32) -> (r: i64)
    ensures
        r == rank(bits),
{
    if bits >= SIGN_BIT {
        -((bits - SIGN_BIT) as i64)
    } else {
        bits as i64
    }
}

/// Compares two encodings as the numbers they encode: `a < b`.
pub fn less(a: u32, b: u32) -> (r: bool)
    ensures
        r == lt(a, b),
{
    !nan(a) && !nan(b) && rank_of(a) < rank_of(b)
}

/// Compares two encodings as the numbers they encode: `a > b`.
pub fn greater(a: u32, b: u32) -> (r: bool)
    ensures
        r == gt(a, b),
{
    less(b, a)
}

/// Tests `a >= 0` on the encoded number.
pub fn at_least_zero(a: u32) -> (r: bool)
    ensures
        r == non_negative(a),
{
    !nan(a) && rank_of(a) >= 0
}

/// Tests whether the encoded number is a zero of either sign.
pub fn zero(a: u32) -> (r: bool)
    ensures
        r == is_zero(a),
{
    a == 0 || a == SIGN_BIT
}

} // verus!
