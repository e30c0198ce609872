//! Checks and clamps on IEEE 754 values that are handled as their bit patterns.
//!
//! A single-precision pattern is read as a sign (the top bit) and a magnitude (the rest); among
//! magnitudes up to that of infinity, the order of the patterns is the order of the values.

use vstd::prelude::*;

verus! {

/// The sign bit of a single-precision pattern, which is also the pattern of minus zero.
pub const SIGN: u32 = 0x8000_0000;

/// Positive infinity in single precision; larger magnitudes are not numbers.
pub const INFINITY: u32 = 0x7F80_0000;

/// One in single precision.
pub const ONE: u32 = 0x3F80_0000;

/// Positive infinity in double precision.
pub const INFINITY_64: u64 = 0x7FF0_0000_0000_0000;

/// Whether a single-precision pattern is a finite number.
pub open spec fn finite(bits: u32) -> bool {
    bits % SIGN < INFINITY
}

/// Whether a single-precision pattern is not a number.
pub open spec fn nan(bits: u32) -> bool {
    bits % SIGN > INFINITY
}

/// Whether a single-precision pattern is a finite number above zero.
pub open spec fn positive(bits: u32) -> bool {
    0 < bits < INFINITY
}

/// Whether a double-precision pattern is a finite number above zero.
pub open spec fn positive_64(bits: u64) -> bool {
    0 < bits < INFINITY_64
}

/// Whether a single-precision pattern is a number from zero to one, minus zero included.
pub open spec fn in_unit(bits: u32) -> bool {
    bits <= ONE || bits == SIGN
}

/// What clamping a single-precision pattern to the range from zero to one gives: numbers above one
/// become one, numbers below zero become zero, the rest stays as it is.
pub open spec fn clamped(bits: u32) -> u32 {
    if nan(bits) || in_unit(bits) {
        bits
    } else if bits < SIGN {
        ONE
    } else {
        0
    }
}

/// Whether a single-precision pattern is a finite number.
pub fn is_finite(bits: u32) -> (r: bool)
    ensures
        r == finite(bits),
{
    bits % SIGN < INFINITY
}

/// Whether a single-precision pattern is a finite number above zero.
pub fn is_positive(bits: u32) -> (r: bool)
    ensures
        r == positive(bits),
{
    0 < bits && bits < INFINITY
}

/// Whether a double-precision pattern is a finite number above zero.
pub fn is_positive_64(bits: u64) -> (r: bool)
    ensures
        r == positive_64(bits),
{
    0 < bits && bits < INFINITY_64
}

/// Clamp a single-precision number to the range from zero to one.
pub fn clamp_unit(bits: u32) -> (r: u32)
    ensures
        r == clamped(bits),
{
    if bits % SIGN > INFINITY || bits <= ONE || bits == SIGN {
        bits
    } else if bits < SIGN {
        ONE
    } else {
        0
    }
}

/// Every number is clamped into the unit range, and one that is there already does not change.
pub proof fn law_clamp(bits: u32)
    ensures
        !nan(bits) ==> in_unit(clamped(bits)) && finite(clamped(bits)),
        in_unit(bits) ==> clamped(bits) == bits,
        clamped(clamped(bits)) == clamped(bits),
{
}

/// The numbers in a single-precision pattern, without the sign: those from zero to one are not
/// moved by a clamp, larger ones become one, and negative ones become zero.
pub proof fn law_clamp_moves_to_the_nearer_edge(bits: u32)
    ensures
        bits <= 0x3F80_0000 ==> clamped(bits) == bits,
        0x3F80_0000 < bits <= 0x7F80_0000 ==> clamped(bits) == 0x3F80_0000,
        bits == 0x8000_0000 ==> clamped(bits) == bits,
        0x8000_0000 < bits <= 0xFF80_0000 ==> clamped(bits) == 0,
{
}

/// The patterns of finite numbers are those whose exponent is not all ones, with either sign; the
/// positive ones among them are those without the sign, but for zero.
pub proof fn law_finite_patterns(bits: u32, bits_64: u64)
    ensures
        in_unit(bits) <==> bits <= 0x3F80_0000 || bits == 0x8000_0000,
        finite(bits) <==> bits < 0x7F80_0000 || 0x8000_0000 <= bits < 0xFF80_0000,
        positive(bits) <==> finite(bits) && bits != 0 && bits < 0x8000_0000,
        positive_64(bits_64) <==> bits_64 != 0 && bits_64 < 0x7FF0_0000_0000_0000,
{
}

} // verus!
