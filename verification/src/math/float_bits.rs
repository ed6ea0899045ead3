//! A bit-level model of IEEE 754 binary64 values.
//!
//! The approximation routine receives a double-precision value as its raw
//! 64-bit pattern. These specification functions give that pattern a meaning:
//! a finite value is `(-1)^sign * mantissa * 2^exponent`, so its magnitude is
//! the exact rational `f64_mag_num / f64_mag_den`.

use vstd::prelude::*;

use vstd::arithmetic::power2::pow2;

verus! {

/// The biased exponent field (bits 52..63).
pub open spec fn f64_exp_field(bits: u64) -> u64 {
    (bits >> 52) & 0x7ff
}

/// The fraction field (bits 0..52).
pub open spec fn f64_frac_field(bits: u64) -> u64 {
    bits & 0xf_ffff_ffff_ffff
}

/// The sign bit.
pub open spec fn f64_is_negative(bits: u64) -> bool {
    (bits >> 63) == 1
}

/// An all-ones exponent field with a nonzero fraction encodes a NaN.
pub open spec fn f64_is_nan(bits: u64) -> bool {
    f64_exp_field(bits) == 0x7ff && f64_frac_field(bits) != 0
}

/// An all-ones exponent field with a zero fraction encodes an infinity.
pub open spec fn f64_is_infinite(bits: u64) -> bool {
    f64_exp_field(bits) == 0x7ff && f64_frac_field(bits) == 0
}

/// Anything else is a finite value.
pub open spec fn f64_is_finite(bits: u64) -> bool {
    f64_exp_field(bits) != 0x7ff
}

/// The integer mantissa of a finite value: the fraction field, with the
/// implicit leading bit added for normal values.
pub open spec fn f64_mantissa(bits: u64) -> nat {
    if f64_exp_field(bits) == 0 {
        f64_frac_field(bits) as nat
    } else {
        f64_frac_field(bits) as nat + 0x10_0000_0000_0000
    }
}

/// The power-of-two exponent of a finite value, scaled so that the value is
/// exactly `mantissa * 2^exponent`.
pub open spec fn f64_exponent(bits: u64) -> int {
    if f64_exp_field(bits) == 0 {
        -1074
    } else {
        f64_exp_field(bits) - 1075
    }
}

/// Numerator of the exact magnitude of a finite value.
pub open spec fn f64_mag_num(bits: u64) -> nat {
    if f64_exponent(bits) >= 0 {
        f64_mantissa(bits) * pow2(f64_exponent(bits) as nat)
    } else {
        f64_mantissa(bits)
    }
}

/// Denominator of the exact magnitude of a finite value.
pub open spec fn f64_mag_den(bits: u64) -> nat {
    if f64_exponent(bits) >= 0 {
        1
    } else {
        pow2((-f64_exponent(bits)) as nat)
    }
}

/// The magnitude lies strictly above `i32::MAX - 1/2`, the point where the
/// routine saturates upward.
pub open spec fn f64_mag_above_max_range(bits: u64) -> bool {
    2 * f64_mag_num(bits) > 0xffff_fffd * f64_mag_den(bits)
}

/// The magnitude lies strictly above `|i32::MIN| - 1/2`, the point where the
/// routine saturates downward.
pub open spec fn f64_mag_above_min_range(bits: u64) -> bool {
    2 * f64_mag_num(bits) > 0xffff_ffff * f64_mag_den(bits)
}

} // verus!
