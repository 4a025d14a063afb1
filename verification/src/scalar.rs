//! Trusted access to IEEE-754 single-precision arithmetic.
//!
//! Every scalar in this crate is carried as the `u32` bit pattern of a
//! single-precision value (`parry3d::math::Real`).  The arithmetic itself
//! is performed by the hardware through the wrappers below; what each
//! operation returns is given a name (`sum_bits`, `prod_bits`, `neg_bits`),
//! so that the verified matrix code can state exactly which operations are
//! combined in which order, without restating IEEE-754 arithmetic.
//!
//! `sin` and `cos` get no such name: their precision is documented as
//! platform-dependent, so nothing ties two calls on equal inputs together.

use vstd::prelude::*;

verus! {

/// The single-precision sum of two values, both given as bit patterns.
/// IEEE-754 addition is a function of the operand bits alone.
pub uninterp spec fn sum_bits(a: u32, b: u32) -> u32;

/// The single-precision product of two values, both given as bit patterns.
/// IEEE-754 multiplication is a function of the operand bits alone.
pub uninterp spec fn prod_bits(a: u32, b: u32) -> u32;

/// The single-precision negation of a value given as a bit pattern.
/// IEEE-754 negation is a function of the operand bits alone.
pub uninterp spec fn neg_bits(a: u32) -> u32;

/// Relies on `+` for `parry3d::math::Real` (IEEE-754 single-precision
/// addition, which vstd does not specify): the result depends on the
/// operand bits alone and is named `sum_bits`.
#[verifier::external_body]
pub(crate) fn add_scalar(a: u32, b: u32) -> (r: u32)
    ensures
        r == sum_bits(a, b),
{
    (parry3d::math::Real::from_bits(a) + parry3d::math::Real::from_bits(b)).to_bits()
}

/// Relies on `*` for `parry3d::math::Real` (IEEE-754 single-precision
/// multiplication, which vstd does not specify): the result depends on the
/// operand bits alone and is named `prod_bits`.
#[verifier::external_body]
pub(crate) fn mul_scalar(a: u32, b: u32) -> (r: u32)
    ensures
        r == prod_bits(a, b),
{
    (parry3d::math::Real::from_bits(a) * parry3d::math::Real::from_bits(b)).to_bits()
}

/// Relies on unary `-` for `parry3d::math::Real` (IEEE-754 single-precision
/// negation, which vstd does not specify): the result depends on the
/// operand bits alone and is named `neg_bits`.
#[verifier::external_body]
pub(crate) fn neg_scalar(a: u32) -> (r: u32)
    ensures
        r == neg_bits(a),
{
    (-parry3d::math::Real::from_bits(a)).to_bits()
}

/// Relies on the `sin` method of `parry3d::math::Real` (std). Its precision
/// is documented as platform-dependent, so nothing is stated of the result.
#[verifier::external_body]
pub(crate) fn sin_scalar(a: u32) -> u32 {
    parry3d::math::Real::from_bits(a).sin().to_bits()
}

/// Relies on the `cos` method of `parry3d::math::Real` (std). Its precision
/// is documented as platform-dependent, so nothing is stated of the result.
#[verifier::external_body]
pub(crate) fn cos_scalar(a: u32) -> u32 {
    parry3d::math::Real::from_bits(a).cos().to_bits()
}

} // verus!
