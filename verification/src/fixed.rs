//! Fixed-point fractions with 18 decimal places, stored as `u128` counts of
//! atomic units (`FRAC_ONE` atomics make one whole).  All products are taken
//! over the full 256-bit range and floored, so no intermediate overflow can
//! occur; only the final quotient must fit in `u128`.
use vstd::arithmetic::div_mod::lemma_multiply_divide_le;
use vstd::arithmetic::mul::{lemma_mul_inequality, lemma_mul_is_commutative};
use vstd::prelude::*;

verus! {

/// Atomic units in one whole: fractions are integer multiples of 10^-18.
pub const FRAC_ONE: u128 = 1_000_000_000_000_000_000;

/// The floored product-quotient `(a * b) / c` over unbounded integers.
pub open spec fn mul_div(a: u128, b: u128, c: u128) -> int {
    (a * b) / (c as int)
}

/// Relies on `cosmwasm_std::Uint128::multiply_ratio`: computes the full
/// 256-bit product `a * b`, divides by `c` flooring, and panics only when
/// `c == 0` or the quotient exceeds `u128::MAX`.
#[verifier::external_body]
pub(crate) fn mul_div_u128(a: u128, b: u128, c: u128) -> (r: u128)
    requires
        c != 0,
        mul_div(a, b, c) <= u128::MAX,
    ensures
        r == mul_div(a, b, c),
{
    cosmwasm_std::Uint128::new(a).multiply_ratio(b, c).u128()
}

/// The fraction `num / den` rounded down to atomics, as the host chain's
/// decimal type would store it.
pub open spec fn spec_from_ratio(num: u128, den: u128) -> int {
    mul_div(num, FRAC_ONE, den)
}

/// `amount` scaled by a fraction given in atomics, rounded down.
pub open spec fn spec_mul_floor(amount: u128, atomics: u128) -> int {
    mul_div(amount, atomics, FRAC_ONE)
}

/// Build the atomics of `num / den`.
pub fn frac_from_ratio(num: u128, den: u128) -> (r: u128)
    requires
        den != 0,
        spec_from_ratio(num, den) <= u128::MAX,
    ensures
        r == spec_from_ratio(num, den),
{
    mul_div_u128(num, FRAC_ONE, den)
}

/// Scale `amount` by the fraction stored as `atomics`, rounding down.
pub fn mul_frac_floor(amount: u128, atomics: u128) -> (r: u128)
    requires
        spec_mul_floor(amount, atomics) <= u128::MAX,
    ensures
        r == spec_mul_floor(amount, atomics),
{
    mul_div_u128(amount, atomics, FRAC_ONE)
}

/// The atomics of the quotient of two fractions, `a / b`.
pub open spec fn spec_frac_div(a: u128, b: u128) -> int {
    mul_div(a, FRAC_ONE, b)
}

/// Divide the fraction `a` by the fraction `b`, both in atomics.
pub fn frac_div(a: u128, b: u128) -> (r: u128)
    requires
        b != 0,
        spec_frac_div(a, b) <= u128::MAX,
    ensures
        r == spec_frac_div(a, b),
{
    mul_div_u128(a, FRAC_ONE, b)
}

/// Scaling by a fraction of at most one never enlarges the amount.
pub proof fn lemma_mul_div_le(a: u128, b: u128, c: u128)
    requires
        c != 0,
        b <= c,
    ensures
        0 <= mul_div(a, b, c) <= a,
{
    lemma_mul_inequality(b as int, c as int, a as int);
    lemma_mul_is_commutative(b as int, a as int);
    lemma_mul_is_commutative(c as int, a as int);
    lemma_multiply_divide_le(a * b, c as int, a as int);
    vstd::arithmetic::mul::lemma_mul_nonnegative(a as int, b as int);
    vstd::arithmetic::div_mod::lemma_div_pos_is_pos(a * b, c as int);
}

/// A numerator no larger than the denominator yields at most one whole.
pub proof fn lemma_from_ratio_le_one(num: u128, den: u128)
    requires
        den != 0,
        num <= den,
    ensures
        0 <= spec_from_ratio(num, den) <= FRAC_ONE,
{
    lemma_mul_inequality(num as int, den as int, FRAC_ONE as int);
    lemma_mul_is_commutative(num as int, FRAC_ONE as int);
    lemma_mul_is_commutative(den as int, FRAC_ONE as int);
    lemma_multiply_divide_le(num * FRAC_ONE, den as int, FRAC_ONE as int);
    vstd::arithmetic::mul::lemma_mul_nonnegative(num as int, FRAC_ONE as int);
    vstd::arithmetic::div_mod::lemma_div_pos_is_pos(num * FRAC_ONE, den as int);
}

} // verus!
