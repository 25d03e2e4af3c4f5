//! Coordinates on an axis are carried as order keys: the `u64` whose unsigned
//! order is the total order that the font tooling puts on coordinates (every
//! NaN equal to every other and above all numbers, negative zero equal to
//! zero). The key of a number is its IEEE 754 bit pattern with the sign bit
//! set when the number is positive, and with every bit flipped when it is
//! negative; negative zero and every NaN are first made zero and the quiet NaN.
//! Equal keys are equal coordinates, and every key of that form gives its
//! number back.
use vstd::prelude::*;

verus! {

/// The key of zero.
pub const ZERO_KEY: u64 = 0x8000_0000_0000_0000;

/// The key of the quiet NaN, the one NaN that keys stand for.
pub const NAN_KEY: u64 = 0xFFF8_0000_0000_0000;

/// The key of positive infinity.
pub const POS_INF_KEY: u64 = 0xFFF0_0000_0000_0000;

/// The key of negative infinity.
pub const NEG_INF_KEY: u64 = 0x000F_FFFF_FFFF_FFFF;

/// Whether a key stands for a finite number.
pub open spec fn is_finite_key(k: u64) -> bool {
    NEG_INF_KEY < k < POS_INF_KEY
}

/// Whether a key stands for a NaN.
pub open spec fn is_nan_key(k: u64) -> bool {
    k > POS_INF_KEY || k < NEG_INF_KEY
}

/// Whether two coordinates compare equal as numbers: the same coordinate, and
/// not a NaN.
pub open spec fn numerically_equal(a: u64, b: u64) -> bool {
    a == b && !is_nan_key(a)
}

/// Whether a key stands for a finite number.
pub fn key_is_finite(k: u64) -> (r: bool)
    ensures
        r == is_finite_key(k),
{
    NEG_INF_KEY < k && k < POS_INF_KEY
}

/// Whether two coordinates compare equal as numbers.
pub fn keys_numerically_equal(a: u64, b: u64) -> (r: bool)
    ensures
        r == numerically_equal(a, b),
{
    a == b && a <= POS_INF_KEY && a >= NEG_INF_KEY
}

} // verus!
