//! Arbitrary-precision integers, as far as the Lucas-Lehmer test needs them.
//!
//! The numbers are `rug::Integer` values. The verifier cannot look inside
//! one, so each has a mathematical value, `integer_value`, and every
//! operation used here is a small function whose contract says what the
//! operation does to that value. Those contracts are taken on trust from
//! rug's documentation and source; everything built on them is proved.

use rug::ops::Pow;
use rug::ops::RemRounding;
use rug::Integer;
use vstd::arithmetic::power::pow;
use vstd::prelude::*;

verus! {

/// `rug::Integer`, an integer of any size. It is declared so that values of
/// it can be passed around; nothing inside one is visible to the verifier.
#[verifier::external_type_specification]
#[verifier::external_body]
pub struct ExInteger(Integer);

/// The mathematical integer that a `rug::Integer` holds. Nothing is known of
/// it but what the operations below say of their results.
pub uninterp spec fn integer_value(x: Integer) -> int;

/// `Integer::from` on a `u32`: the integer with the same value.
#[verifier::external_body]
pub(crate) fn integer_from(v: u32) -> (r: Integer)
    ensures
        integer_value(r) == v as int,
{
    Integer::from(v)
}

/// `Pow::pow` of `rug::Integer` with a `u32` exponent: `base` raised to the
/// power `exponent`, the zeroth power being one. The result is exact, however
/// large; like every value that grows, it has to fit into memory.
#[verifier::external_body]
pub(crate) fn integer_pow(base: Integer, exponent: u32) -> (r: Integer)
    ensures
        integer_value(r) == pow(integer_value(base), exponent as nat),
{
    base.pow(exponent)
}

/// `Sub::sub` of `rug::Integer` with a `u32` on the right: the exact
/// difference, which may be negative.
#[verifier::external_body]
pub(crate) fn integer_sub(a: Integer, b: u32) -> (r: Integer)
    ensures
        integer_value(r) == integer_value(a) - b as int,
{
    a - b
}

/// `RemRounding::rem_euc` of `rug::Integer`: the remainder of Euclidean
/// division, which is never negative whatever the sign of `a`. rug panics on
/// a zero divisor, so that is excluded.
#[verifier::external_body]
pub(crate) fn integer_rem_euc(a: Integer, divisor: &Integer) -> (r: Integer)
    requires
        integer_value(*divisor) != 0,
    ensures
        integer_value(r) == integer_value(a) % integer_value(*divisor),
{
    a.rem_euc(divisor)
}

/// `PartialEq<u32>` of `rug::Integer`: whether the integer has the value `v`.
#[verifier::external_body]
pub(crate) fn integer_equals(a: &Integer, v: u32) -> (r: bool)
    ensures
        r == (integer_value(*a) == v as int),
{
    *a == v
}

} // verus!
