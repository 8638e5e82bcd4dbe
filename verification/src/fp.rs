//! Scores as IEEE-754 binary64 bit patterns.
//!
//! The engine stores every score, the damping factor and the convergence
//! metric as the raw 64-bit pattern of an IEEE-754 binary64 value.  The
//! arithmetic on those patterns is software floating point from the `softfp`
//! crate, reached through the trusted wrappers below; each operation's result
//! is given a name (`add_bits`, `div_bits`, ...) that the contracts of the
//! engine speak of.  Ordering of patterns is defined here directly and
//! verified: `lt_bits` is the IEEE-754 `<` relation (false when either
//! operand is NaN, the two zeroes equal, sign decides across signs, and the
//! magnitude decides within a sign).

use vstd::prelude::*;

verus! {

/// Sign bit of a binary64 bit pattern: 1 for negative values and negative NaN.
pub open spec fn sign_bit(x: u64) -> u64 {
    x >> 63u64
}

/// The pattern with the sign cleared: biased exponent and significand.
pub open spec fn magnitude(x: u64) -> u64 {
    x & 0x7fff_ffff_ffff_ffffu64
}

/// Whether the pattern encodes a NaN: magnitude above that of infinity.
pub open spec fn is_nan_bits(x: u64) -> bool {
    magnitude(x) > 0x7ff0_0000_0000_0000u64
}

/// Whether the pattern does not encode a negative real number: it is NaN, or
/// its sign bit is clear.
pub open spec fn not_negative(x: u64) -> bool {
    is_nan_bits(x) || sign_bit(x) == 0
}

/// The IEEE-754 `<` relation on binary64 bit patterns.
///
/// A comparison with a NaN is false; positive and negative zero are equal;
/// values of different sign order by sign; values of equal sign order by
/// magnitude, reversed for negative values.
pub open spec fn lt_bits(a: u64, b: u64) -> bool {
    if is_nan_bits(a) || is_nan_bits(b) {
        false
    } else if magnitude(a) == 0 && magnitude(b) == 0 {
        false
    } else if sign_bit(a) != sign_bit(b) {
        sign_bit(a) == 1
    } else if sign_bit(a) == 0 {
        magnitude(a) < magnitude(b)
    } else {
        magnitude(a) > magnitude(b)
    }
}

/// Executable IEEE-754 `<` on score bit patterns.
pub(crate) fn score_lt(a: u64, b: u64) -> (r: bool)
    ensures
        r == lt_bits(a, b),
{
    let ma: u64 = a & 0x7fff_ffff_ffff_ffffu64;
    let mb: u64 = b & 0x7fff_ffff_ffff_ffffu64;
    let sa: u64 = a >> 63u64;
    let sb: u64 = b >> 63u64;
    if ma > 0x7ff0_0000_0000_0000u64 || mb > 0x7ff0_0000_0000_0000u64 {
        false
    } else if ma == 0 && mb == 0 {
        false
    } else if sa != sb {
        sa == 1
    } else if sa == 0 {
        ma < mb
    } else {
        ma > mb
    }
}

/// A pattern that is NaN or of clear sign is not below positive zero.
pub proof fn lemma_not_negative_not_below_zero(x: u64)
    requires
        not_negative(x),
    ensures
        !lt_bits(x, 0u64),
{
    assert(magnitude(0u64) == 0 && sign_bit(0u64) == 0 && !is_nan_bits(0u64)) by (bit_vector);
}

/// The order is asymmetric: two patterns are never each below the other.
pub proof fn lemma_lt_bits_asym(a: u64, b: u64)
    ensures
        !(lt_bits(a, b) && lt_bits(b, a)),
{
}

/// Positive zero is not a negative real.
pub proof fn lemma_zero_not_negative()
    ensures
        not_negative(0u64),
{
    assert(sign_bit(0u64) == 0) by (bit_vector);
}

/// The binary64 sum of the patterns `a` and `b`, rounded to nearest, ties to
/// even.
pub uninterp spec fn add_bits(a: u64, b: u64) -> u64;

/// The binary64 difference of the patterns `a` and `b`, rounded to nearest,
/// ties to even.
pub uninterp spec fn sub_bits(a: u64, b: u64) -> u64;

/// The binary64 product of the patterns `a` and `b`, rounded to nearest, ties
/// to even.
pub uninterp spec fn mul_bits(a: u64, b: u64) -> u64;

/// The binary64 quotient of the patterns `a` and `b`, rounded to nearest,
/// ties to even.
pub uninterp spec fn div_bits(a: u64, b: u64) -> u64;

/// The binary64 square root of the pattern `a`, rounded to nearest, ties to
/// even.
pub uninterp spec fn sqrt_bits(a: u64) -> u64;

/// The binary64 value nearest to the non-negative integer `n`, ties to even.
pub uninterp spec fn bits_of_usize(n: usize) -> u64;

#[verifier::external_type_specification]
#[verifier::external_body]
pub struct ExRoundingMode(softfp::RoundingMode);

#[verifier::external_type_specification]
#[verifier::external_body]
pub struct ExExceptionFlags(softfp::ExceptionFlags);

/// Relies on softfp's `RoundingMode`: names the rounding mode every wrapper
/// below registers, ties-to-even, the IEEE-754 default.
#[verifier::external_body]
fn rounding_ties_to_even() -> softfp::RoundingMode {
    softfp::RoundingMode::TiesToEven
}

/// Discards softfp's exception flags: the engine reads no exception state, so
/// every wrapper below registers this sink.
#[verifier::external_body]
fn discard_exception_flags(flags: softfp::ExceptionFlags) {
    let _ = flags;
}

/// Relies on softfp's binary64 addition (`Fp::add`): with the rounding mode
/// pinned to ties-to-even and the exception flags discarded on every call,
/// the sum is a function of the operand bits alone.  A sum of two operands
/// that are not negative reals is not a negative real: softfp adds same-sign
/// operands keeping their sign, and every NaN it produces is the quiet NaN
/// with clear sign bit.
#[verifier::external_body]
pub(crate) fn fp_add(a: u64, b: u64) -> (r: u64)
    ensures
        r == add_bits(a, b),
        not_negative(a) && not_negative(b) ==> not_negative(r),
{
    softfp::register_get_rounding_mode(rounding_ties_to_even);
    softfp::register_set_exception_flags(discard_exception_flags);
    (softfp::F64::new(a) + softfp::F64::new(b)).0
}

/// Relies on softfp's binary64 subtraction (`Fp::sub`), with the rounding
/// mode pinned to ties-to-even and the exception flags discarded on every
/// call, so the difference is a function of the operand bits alone.
#[verifier::external_body]
pub(crate) fn fp_sub(a: u64, b: u64) -> (r: u64)
    ensures
        r == sub_bits(a, b),
{
    softfp::register_get_rounding_mode(rounding_ties_to_even);
    softfp::register_set_exception_flags(discard_exception_flags);
    (softfp::F64::new(a) - softfp::F64::new(b)).0
}

/// Relies on softfp's binary64 multiplication (`Fp::multiply`): with the
/// rounding mode pinned to ties-to-even and the exception flags discarded on
/// every call, the product is a function of the operand bits alone.  The sign
/// of a product is the exclusive or of the operand signs, and every NaN
/// softfp produces is the quiet NaN with clear sign bit, so a product of two
/// operands of equal sign is not a negative real.
#[verifier::external_body]
pub(crate) fn fp_mul(a: u64, b: u64) -> (r: u64)
    ensures
        r == mul_bits(a, b),
        sign_bit(a) == sign_bit(b) ==> not_negative(r),
{
    softfp::register_get_rounding_mode(rounding_ties_to_even);
    softfp::register_set_exception_flags(discard_exception_flags);
    (softfp::F64::new(a) * softfp::F64::new(b)).0
}

/// Relies on softfp's binary64 division (`Fp::divide`): with the rounding
/// mode pinned to ties-to-even and the exception flags discarded on every
/// call, the quotient is a function of the operand bits alone.  The sign of a
/// quotient is the exclusive or of the operand signs, and every NaN softfp
/// produces (0/0, inf/inf, a NaN operand) is the quiet NaN with clear sign
/// bit, so a quotient of two operands that are not negative reals is not a
/// negative real.
#[verifier::external_body]
pub(crate) fn fp_div(a: u64, b: u64) -> (r: u64)
    ensures
        r == div_bits(a, b),
        not_negative(a) && not_negative(b) ==> not_negative(r),
{
    softfp::register_get_rounding_mode(rounding_ties_to_even);
    softfp::register_set_exception_flags(discard_exception_flags);
    (softfp::F64::new(a) / softfp::F64::new(b)).0
}

/// Relies on softfp's binary64 square root (`Fp::square_root`): with the
/// rounding mode pinned to ties-to-even and the exception flags discarded on
/// every call, the root is a function of the operand bits alone.  The root of
/// an operand that is not a negative real is not a negative real: a
/// non-negative root is returned with clear sign, and a NaN operand or a
/// negative operand yields the quiet NaN with clear sign bit.
#[verifier::external_body]
pub(crate) fn fp_sqrt(a: u64) -> (r: u64)
    ensures
        r == sqrt_bits(a),
        not_negative(a) ==> not_negative(r),
{
    softfp::register_get_rounding_mode(rounding_ties_to_even);
    softfp::register_set_exception_flags(discard_exception_flags);
    softfp::F64::new(a).square_root().0
}

/// Relies on softfp's unsigned integer conversion (`Fp::convert_from_uint`):
/// with the rounding mode pinned to ties-to-even and the exception flags
/// discarded on every call, the result is a function of `n` alone, and its
/// sign bit is clear (zero converts to positive zero, every other count to a
/// positive value).
#[verifier::external_body]
pub(crate) fn fp_usize(n: usize) -> (r: u64)
    ensures
        r == bits_of_usize(n),
        sign_bit(r) == 0,
{
    softfp::register_get_rounding_mode(rounding_ties_to_even);
    softfp::register_set_exception_flags(discard_exception_flags);
    softfp::F64::convert_from_uint(n as u64).0
}

} // verus!
