//! Coordinates and lengths of the manifests are IEEE-754 binary64 numbers.
//! The library holds them by their bit patterns (`f64::to_bits`), which keeps
//! every value exactly and lets the rules that only classify numbers be
//! decided here; arithmetic on them is done by the program around the
//! library.

use vstd::prelude::*;

verus! {

/// A binary64 number is finite unless its exponent field is all ones
/// (an infinity or a NaN).
pub open spec fn is_finite_bits(bits: u64) -> bool {
    (bits >> 52u64) & 0x7ffu64 != 0x7ffu64
}

/// A binary64 number is finite and strictly positive when it is finite, its
/// sign bit is clear and it is not `+0.0`.
pub open spec fn is_positive_finite_bits(bits: u64) -> bool {
    &&& bits >> 63u64 == 0
    &&& is_finite_bits(bits)
    &&& bits != 0
}

/// `f64::is_finite` on a bit pattern.
pub fn finite_bits(bits: u64) -> (res: bool)
    ensures
        res == is_finite_bits(bits),
{
    (bits >> 52u64) & 0x7ffu64 != 0x7ffu64
}

/// `value.is_finite() && value > 0.0` on a bit pattern.
pub fn positive_finite_bits(bits: u64) -> (res: bool)
    ensures
        res == is_positive_finite_bits(bits),
{
    bits >> 63u64 == 0 && finite_bits(bits) && bits != 0
}

/// For two strictly positive finite binary64 numbers, the numeric order is
/// the order of their bit patterns (IEEE 754, the encoding is monotonic on
/// each sign), so `a < b` reads as this.
pub open spec fn positive_lt_bits(a: u64, b: u64) -> bool {
    a < b
}

} // verus!
