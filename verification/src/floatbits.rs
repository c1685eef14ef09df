use vstd::prelude::*;
use rustc_apfloat::Float;

verus! {

// Floating-point elements are carried as IEEE 754 binary64 bit patterns in
// `u64` values. Classification and ordering are pure bit arithmetic and are
// implemented and verified here; rounding arithmetic is delegated to
// rustc_apfloat, a software implementation of the same IEEE operations that
// hardware doubles perform.

pub const F64_SIGN_MASK: u64 = 0x8000_0000_0000_0000;
pub const F64_ABS_MASK: u64 = 0x7FFF_FFFF_FFFF_FFFF;
pub const F64_EXP_MASK: u64 = 0x7FF0_0000_0000_0000;
pub const F64_FRAC_MASK: u64 = 0x000F_FFFF_FFFF_FFFF;
/// The bit pattern of 1.0.
pub const F64_ONE_BITS: u64 = 0x3FF0_0000_0000_0000;

/// A binary64 value is NaN when its exponent is all ones and its fraction is
/// not zero.
pub open spec fn f64_is_nan(a: u64) -> bool {
    (a & F64_EXP_MASK) == F64_EXP_MASK && (a & F64_FRAC_MASK) != 0
}

/// Both 0.0 and -0.0 count as zero.
pub open spec fn f64_is_zero(a: u64) -> bool {
    (a & F64_ABS_MASK) == 0
}

pub open spec fn f64_is_neg(a: u64) -> bool {
    (a & F64_SIGN_MASK) != 0
}

/// IEEE equality over bit patterns: NaN equals nothing, 0.0 equals -0.0, and
/// any other value equals exactly its own bit pattern.
pub open spec fn f64_eq(a: u64, b: u64) -> bool {
    &&& !f64_is_nan(a)
    &&& !f64_is_nan(b)
    &&& (a == b || (f64_is_zero(a) && f64_is_zero(b)))
}

/// IEEE strict order over bit patterns: false on NaN, zeroes of either sign
/// are equal, otherwise sign-magnitude comparison of the patterns.
pub open spec fn f64_lt(a: u64, b: u64) -> bool {
    &&& !f64_is_nan(a)
    &&& !f64_is_nan(b)
    &&& !(f64_is_zero(a) && f64_is_zero(b))
    &&& if f64_is_neg(a) != f64_is_neg(b) {
        f64_is_neg(a)
    } else if !f64_is_neg(a) {
        a < b
    } else {
        a > b
    }
}

pub open spec fn f64_le(a: u64, b: u64) -> bool {
    f64_lt(a, b) || f64_eq(a, b)
}

/// The binary64 value of a boolean: false is 0.0 and true is 1.0, both
/// exactly representable.
pub open spec fn f64_of_bool(b: bool) -> u64 {
    if b {
        F64_ONE_BITS
    } else {
        0u64
    }
}

pub fn float_is_nan(a: u64) -> (r: bool)
    ensures
        r == f64_is_nan(a),
{
    (a & F64_EXP_MASK) == F64_EXP_MASK && (a & F64_FRAC_MASK) != 0
}

pub fn float_is_zero(a: u64) -> (r: bool)
    ensures
        r == f64_is_zero(a),
{
    (a & F64_ABS_MASK) == 0
}

pub fn float_is_neg(a: u64) -> (r: bool)
    ensures
        r == f64_is_neg(a),
{
    (a & F64_SIGN_MASK) != 0
}

pub fn float_eq(a: u64, b: u64) -> (r: bool)
    ensures
        r == f64_eq(a, b),
{
    !float_is_nan(a) && !float_is_nan(b) && (a == b || (float_is_zero(a) && float_is_zero(b)))
}

pub fn float_lt(a: u64, b: u64) -> (r: bool)
    ensures
        r == f64_lt(a, b),
{
    if float_is_nan(a) || float_is_nan(b) || (float_is_zero(a) && float_is_zero(b)) {
        false
    } else if float_is_neg(a) != float_is_neg(b) {
        float_is_neg(a)
    } else if !float_is_neg(a) {
        a < b
    } else {
        a > b
    }
}

pub fn float_le(a: u64, b: u64) -> (r: bool)
    ensures
        r == f64_le(a, b),
{
    float_lt(a, b) || float_eq(a, b)
}

/// The bit-level shapes behind the classification predicates: exactly two
/// patterns are zero, the sign bit partitions the patterns at the halfway
/// point, and zeroes are never NaN.
pub proof fn lemma_f64_bit_facts(x: u64)
    ensures
        f64_is_zero(x) <==> (x == 0 || x == F64_SIGN_MASK),
        f64_is_neg(x) <==> x >= F64_SIGN_MASK,
        f64_is_zero(x) ==> !f64_is_nan(x),
{
    assert((x & 0x7FFF_FFFF_FFFF_FFFFu64 == 0) <==> (x == 0 || x == 0x8000_0000_0000_0000u64))
        by (bit_vector);
    assert((x & 0x8000_0000_0000_0000u64 != 0) <==> x >= 0x8000_0000_0000_0000u64) by (bit_vector);
    assert((x & 0x7FFF_FFFF_FFFF_FFFFu64 == 0) ==> (x & 0x7FF0_0000_0000_0000u64
        != 0x7FF0_0000_0000_0000u64)) by (bit_vector);
}

/// The IEEE order on non-NaN bit patterns is a total preorder whose
/// equivalence is f64_eq: the facts sorting and searching need.
pub proof fn lemma_f64_order(a: u64, b: u64, c: u64)
    requires
        !f64_is_nan(a),
        !f64_is_nan(b),
        !f64_is_nan(c),
    ensures
        f64_le(a, b) || f64_le(b, a),
        f64_le(a, b) && f64_le(b, c) ==> f64_le(a, c),
        f64_lt(a, b) ==> !f64_lt(b, a),
        f64_eq(a, a),
{
    lemma_f64_bit_facts(a);
    lemma_f64_bit_facts(b);
    lemma_f64_bit_facts(c);
}

// Names for the results of the rounding operations. Each is a function of its
// arguments alone: IEEE 754 fully determines them.

pub uninterp spec fn fadd_bits(a: u64, b: u64) -> u64;

pub uninterp spec fn fsub_bits(a: u64, b: u64) -> u64;

pub uninterp spec fn fmul_bits(a: u64, b: u64) -> u64;

pub uninterp spec fn fdiv_bits(a: u64, b: u64) -> u64;

pub uninterp spec fn fmod_bits(a: u64, b: u64) -> u64;

pub uninterp spec fn f64_of_i64(a: i64) -> u64;

pub uninterp spec fn i64_of_f64(a: u64) -> i64;

pub uninterp spec fn ffloor_bits(a: u64) -> u64;

pub uninterp spec fn fceil_bits(a: u64) -> u64;

pub uninterp spec fn fround_bits(a: u64) -> u64;

/// Relies on rustc_apfloat's binary64 addition, rounding to nearest even as
/// hardware doubles do.
#[verifier::external_body]
pub fn float_add(a: u64, b: u64) -> (r: u64)
    ensures
        r == fadd_bits(a, b),
{
    let x = rustc_apfloat::ieee::Double::from_bits(a as u128);
    let y = rustc_apfloat::ieee::Double::from_bits(b as u128);
    (x + y).value.to_bits() as u64
}

/// Relies on rustc_apfloat's binary64 subtraction, rounding to nearest even.
#[verifier::external_body]
pub fn float_sub(a: u64, b: u64) -> (r: u64)
    ensures
        r == fsub_bits(a, b),
{
    let x = rustc_apfloat::ieee::Double::from_bits(a as u128);
    let y = rustc_apfloat::ieee::Double::from_bits(b as u128);
    (x - y).value.to_bits() as u64
}

/// Relies on rustc_apfloat's binary64 multiplication, rounding to nearest even.
#[verifier::external_body]
pub fn float_mul(a: u64, b: u64) -> (r: u64)
    ensures
        r == fmul_bits(a, b),
{
    let x = rustc_apfloat::ieee::Double::from_bits(a as u128);
    let y = rustc_apfloat::ieee::Double::from_bits(b as u128);
    (x * y).value.to_bits() as u64
}

/// Relies on rustc_apfloat's binary64 division, rounding to nearest even.
/// Division by zero yields an infinity or NaN, never a fault.
#[verifier::external_body]
pub fn float_div(a: u64, b: u64) -> (r: u64)
    ensures
        r == fdiv_bits(a, b),
{
    let x = rustc_apfloat::ieee::Double::from_bits(a as u128);
    let y = rustc_apfloat::ieee::Double::from_bits(b as u128);
    (x / y).value.to_bits() as u64
}

/// Relies on rustc_apfloat's c_fmod, the remainder with the sign of the
/// dividend that the `%` operator computes on doubles.
#[verifier::external_body]
pub fn float_mod(a: u64, b: u64) -> (r: u64)
    ensures
        r == fmod_bits(a, b),
{
    let x = rustc_apfloat::ieee::Double::from_bits(a as u128);
    let y = rustc_apfloat::ieee::Double::from_bits(b as u128);
    x.c_fmod(y).value.to_bits() as u64
}

/// Relies on rustc_apfloat's integer-to-float conversion, rounding to nearest
/// even as an `i64` to double cast does.
#[verifier::external_body]
pub fn float_of_int(a: i64) -> (r: u64)
    ensures
        r == f64_of_i64(a),
{
    rustc_apfloat::ieee::Double::from_i128(a as i128).value.to_bits() as u64
}

/// Relies on rustc_apfloat's float-to-integer conversion truncating toward
/// zero: NaN becomes 0 and out-of-range values saturate, as a double to `i64`
/// cast does.
#[verifier::external_body]
pub fn int_of_float(a: u64) -> (r: i64)
    ensures
        r == i64_of_f64(a),
{
    rustc_apfloat::ieee::Double::from_bits(a as u128).to_i128(64).value as i64
}

/// Relies on rustc_apfloat's round_to_integral toward negative infinity.
#[verifier::external_body]
pub fn float_floor(a: u64) -> (r: u64)
    ensures
        r == ffloor_bits(a),
{
    let x = rustc_apfloat::ieee::Double::from_bits(a as u128);
    x.round_to_integral(rustc_apfloat::Round::TowardNegative).value.to_bits() as u64
}

/// Relies on rustc_apfloat's round_to_integral toward positive infinity.
#[verifier::external_body]
pub fn float_ceil(a: u64) -> (r: u64)
    ensures
        r == fceil_bits(a),
{
    let x = rustc_apfloat::ieee::Double::from_bits(a as u128);
    x.round_to_integral(rustc_apfloat::Round::TowardPositive).value.to_bits() as u64
}

/// Relies on rustc_apfloat's round_to_integral with ties away from zero, the
/// rounding of a double's round method.
#[verifier::external_body]
pub fn float_round(a: u64) -> (r: u64)
    ensures
        r == fround_bits(a),
{
    let x = rustc_apfloat::ieee::Double::from_bits(a as u128);
    x.round_to_integral(rustc_apfloat::Round::NearestTiesToAway).value.to_bits() as u64
}

} // verus!
