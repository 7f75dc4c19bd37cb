//! Trusted IEEE-754 binary64 arithmetic on bit patterns.
//!
//! The rounding operations are delegated to two soft-float crates:
//! `rustc_apfloat` (the Rust port of LLVM's APFloat) for the four basic
//! operations and the integer conversion, and `const_soft_float` (a port
//! of the compiler-builtins and libm routines) for the square root.  Both
//! compute in round-to-nearest, ties-to-even mode, the rounding that
//! IEEE-754 prescribes and that native hardware doubles use.  The result
//! of each operation is a pure function of the argument patterns and is
//! given a name; the contracts of the statistics functions are stated
//! over these names.

use rustc_apfloat::Float;
use vstd::prelude::*;

verus! {

/// The bit pattern of `2.0`.
pub const TWO_BITS: u64 = 0x4000_0000_0000_0000;

/// The pattern that binary64 addition returns for two argument patterns.
pub uninterp spec fn add_of(a: u64, b: u64) -> u64;

/// The pattern that binary64 subtraction returns for two argument patterns.
pub uninterp spec fn sub_of(a: u64, b: u64) -> u64;

/// The pattern that binary64 multiplication returns for two argument patterns.
pub uninterp spec fn mul_of(a: u64, b: u64) -> u64;

/// The pattern that binary64 division returns for two argument patterns.
pub uninterp spec fn div_of(a: u64, b: u64) -> u64;

/// The pattern that binary64 square root returns for an argument pattern.
pub uninterp spec fn sqrt_of(a: u64) -> u64;

/// The binary64 pattern nearest to an unsigned 64-bit integer.
pub uninterp spec fn of_u64(n: u64) -> u64;

/// Relies on `rustc_apfloat::ieee::Double::add_r`: IEEE-754 binary64
/// addition of the two encoded values, rounded to nearest, ties to even.
#[verifier::external_body]
pub(crate) fn add_bits(a: u64, b: u64) -> (r: u64)
    ensures
        r == add_of(a, b),
{
    let x = rustc_apfloat::ieee::Double::from_bits(a as u128);
    let y = rustc_apfloat::ieee::Double::from_bits(b as u128);
    x.add_r(y, rustc_apfloat::Round::NearestTiesToEven).value.to_bits() as u64
}

/// Relies on `rustc_apfloat::ieee::Double::sub_r`: IEEE-754 binary64
/// subtraction, rounded to nearest, ties to even.
#[verifier::external_body]
pub(crate) fn sub_bits(a: u64, b: u64) -> (r: u64)
    ensures
        r == sub_of(a, b),
{
    let x = rustc_apfloat::ieee::Double::from_bits(a as u128);
    let y = rustc_apfloat::ieee::Double::from_bits(b as u128);
    x.sub_r(y, rustc_apfloat::Round::NearestTiesToEven).value.to_bits() as u64
}

/// Relies on `rustc_apfloat::ieee::Double::mul_r`: IEEE-754 binary64
/// multiplication, rounded to nearest, ties to even.
#[verifier::external_body]
pub(crate) fn mul_bits(a: u64, b: u64) -> (r: u64)
    ensures
        r == mul_of(a, b),
{
    let x = rustc_apfloat::ieee::Double::from_bits(a as u128);
    let y = rustc_apfloat::ieee::Double::from_bits(b as u128);
    x.mul_r(y, rustc_apfloat::Round::NearestTiesToEven).value.to_bits() as u64
}

/// Relies on `rustc_apfloat::ieee::Double::div_r`: IEEE-754 binary64
/// division, rounded to nearest, ties to even.
#[verifier::external_body]
pub(crate) fn div_bits(a: u64, b: u64) -> (r: u64)
    ensures
        r == div_of(a, b),
{
    let x = rustc_apfloat::ieee::Double::from_bits(a as u128);
    let y = rustc_apfloat::ieee::Double::from_bits(b as u128);
    x.div_r(y, rustc_apfloat::Round::NearestTiesToEven).value.to_bits() as u64
}

/// Relies on `const_soft_float::soft_f64::SoftF64::sqrt`: IEEE-754
/// binary64 square root, rounded to nearest, ties to even.
#[verifier::external_body]
pub(crate) fn sqrt_bits(a: u64) -> (r: u64)
    ensures
        r == sqrt_of(a),
{
    let x = const_soft_float::soft_f64::SoftF64::from_bits(a);
    x.sqrt().to_bits()
}

/// Relies on `rustc_apfloat::ieee::Double::from_u128_r`: the conversion
/// of an unsigned integer to the nearest binary64 value.
#[verifier::external_body]
pub(crate) fn u64_to_bits(n: u64) -> (r: u64)
    ensures
        r == of_u64(n),
{
    let v = rustc_apfloat::ieee::Double::from_u128_r(
        n as u128,
        rustc_apfloat::Round::NearestTiesToEven,
    );
    v.value.to_bits() as u64
}

} // verus!
