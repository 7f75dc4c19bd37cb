//! The bit-level model of IEEE-754 binary64 values.
//!
//! A value is carried as its 64-bit pattern.  The exponent and fraction
//! fields decide the value's class; for every non-NaN pattern the signed
//! magnitude gives an integer key whose order is exactly the numeric order
//! of the encoded values, with `-0.0` and `+0.0` sharing the key `0`.

use vstd::prelude::*;

verus! {

/// The 11-bit exponent field of a binary64 pattern.
pub open spec fn exp_field(b: u64) -> u64 {
    (b >> 52) & 0x7ff
}

/// The 52-bit fraction field of a binary64 pattern.
pub open spec fn frac_field(b: u64) -> u64 {
    b & 0x000f_ffff_ffff_ffff
}

/// The pattern without its sign bit.
pub open spec fn magnitude(b: u64) -> u64 {
    b & 0x7fff_ffff_ffff_ffff
}

/// Whether the sign bit is set.
pub open spec fn sign_negative(b: u64) -> bool {
    (b >> 63) == 1
}

/// A pattern encodes NaN when the exponent field is all ones and the
/// fraction field is not zero.
pub open spec fn is_nan_bits(b: u64) -> bool {
    exp_field(b) == 0x7ff && frac_field(b) != 0
}

/// A pattern encodes a finite value (neither NaN nor an infinity) when the
/// exponent field is not all ones.
pub open spec fn is_finite_bits(b: u64) -> bool {
    exp_field(b) != 0x7ff
}

/// The ordering key of a pattern: the magnitude, negated when the sign bit
/// is set.  For non-NaN patterns the key order coincides with the numeric
/// order of the encoded values; `-0.0` and `+0.0` both map to `0`.
pub open spec fn key(b: u64) -> int {
    if sign_negative(b) {
        -(magnitude(b) as int)
    } else {
        magnitude(b) as int
    }
}

/// Strict numeric order on patterns.  NaN is ordered below or above
/// nothing: a comparison that involves NaN is treated as a tie.
pub open spec fn lt_bits(a: u64, b: u64) -> bool {
    &&& !is_nan_bits(a)
    &&& !is_nan_bits(b)
    &&& key(a) < key(b)
}

/// The total order used for sorting: numeric order first, ties broken by
/// the raw bit pattern, so that every pair of distinct patterns is ordered.
pub open spec fn le_sort(a: u64, b: u64) -> bool {
    ||| key(a) < key(b)
    ||| (key(a) == key(b) && a <= b)
}

/// `le_sort` as a binary relation value, for `sort_by`.
pub open spec fn sort_leq() -> spec_fn(u64, u64) -> bool {
    |a: u64, b: u64| le_sort(a, b)
}

/// The sorting order is a total ordering.
pub proof fn lemma_sort_leq_total()
    ensures
        vstd::relations::total_ordering(sort_leq()),
{
}

/// Whether a pattern encodes a finite value.
pub fn is_finite(b: u64) -> (r: bool)
    ensures
        r == is_finite_bits(b),
{
    ((b >> 52) & 0x7ff) != 0x7ff
}

/// Whether a pattern encodes NaN.
pub fn is_nan(b: u64) -> (r: bool)
    ensures
        r == is_nan_bits(b),
{
    ((b >> 52) & 0x7ff) == 0x7ff && (b & 0x000f_ffff_ffff_ffff) != 0
}

/// The strict numeric comparison, with ties for NaN.
pub fn lt(a: u64, b: u64) -> (r: bool)
    ensures
        r == lt_bits(a, b),
{
    if is_nan(a) || is_nan(b) {
        false
    } else {
        let sa: u64 = a >> 63;
        let sb: u64 = b >> 63;
        let ma: u64 = a & 0x7fff_ffff_ffff_ffff;
        let mb: u64 = b & 0x7fff_ffff_ffff_ffff;
        if sa == 1 && sb == 1 {
            mb < ma
        } else if sa == 1 {
            ma != 0 || mb != 0
        } else if sb == 1 {
            false
        } else {
            ma < mb
        }
    }
}

/// The sorting comparison.
pub fn le_sorted(a: u64, b: u64) -> (r: bool)
    ensures
        r == le_sort(a, b),
{
    let sa: u64 = a >> 63;
    let sb: u64 = b >> 63;
    let ma: u64 = a & 0x7fff_ffff_ffff_ffff;
    let mb: u64 = b & 0x7fff_ffff_ffff_ffff;
    let key_lt: bool = if sa != sb {
        if sa == 1 {
            ma != 0 || mb != 0
        } else {
            false
        }
    } else if sa == 1 {
        mb < ma
    } else {
        ma < mb
    };
    let key_eq: bool = if sa == sb {
        ma == mb
    } else {
        ma == 0 && mb == 0
    };
    proof {
        assert(a >> 63 == 0 || a >> 63 == 1) by (bit_vector);
        assert(b >> 63 == 0 || b >> 63 == 1) by (bit_vector);
        assert(key_lt == (key(a) < key(b)));
        assert(key_eq == (key(a) == key(b)));
    }
    key_lt || (key_eq && a <= b)
}

} // verus!
