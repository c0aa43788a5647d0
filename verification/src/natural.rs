//! The arbitrary-precision naturals of `num`, and what this library takes for
//! granted about them.
//!
//! Nothing in this file is proved. Each function below makes one call into
//! `num` and states, over [`nat_of`], what that call returns.

use crate::literal::{decimal_value, digit_chars};
use crate::ratio::is_gcd;
use num::bigint::{BigUint, ParseBigIntError};
use num::traits::Pow;
use num::Integer;
use num::Zero;
use std::str::FromStr;
use vstd::arithmetic::power::pow;
use vstd::prelude::*;

verus! {

/// `num::bigint::BigUint`, a natural number of any size. The verifier sees
/// nothing of its representation.
#[verifier::external_type_specification]
#[verifier::external_body]
pub struct ExBigUint(BigUint);

/// `num::bigint::ParseBigIntError`, what `BigUint::from_str` fails with.
#[verifier::external_type_specification]
#[verifier::external_body]
pub struct ExParseBigIntError(ParseBigIntError);

/// The natural number that a `BigUint` stands for.
pub uninterp spec fn nat_of(n: BigUint) -> nat;

/// The naturals that a sequence of `BigUint`s stands for, one for one.
pub open spec fn nats_of(s: Seq<BigUint>) -> Seq<nat> {
    Seq::new(s.len(), |i: int| nat_of(s[i]))
}

/// `BigUint::from` on a `u128`: the result stands for the same number.
#[verifier::external_body]
pub(crate) fn from_u128(value: u128) -> (r: BigUint)
    ensures
        nat_of(r) == value,
{
    BigUint::from(value)
}

/// `BigUint::clone`: the copy stands for the same number.
#[verifier::external_body]
pub(crate) fn copy_of(n: &BigUint) -> (r: BigUint)
    ensures
        nat_of(r) == nat_of(*n),
{
    n.clone()
}

/// `+` on two `&BigUint`: the sum, which cannot overflow.
#[verifier::external_body]
pub(crate) fn sum_of(a: &BigUint, b: &BigUint) -> (r: BigUint)
    ensures
        nat_of(r) == nat_of(*a) + nat_of(*b),
{
    a + b
}

/// `*` on two `&BigUint`: the product, which cannot overflow.
#[verifier::external_body]
pub(crate) fn product_of(a: &BigUint, b: &BigUint) -> (r: BigUint)
    ensures
        nat_of(r) == nat_of(*a) * nat_of(*b),
{
    a * b
}

/// `Integer::div_mod_floor` of `BigUint`: quotient and remainder of the
/// division, rounded down. It panics on a zero divisor, which `requires`
/// leaves out.
#[verifier::external_body]
pub(crate) fn quotient_and_rest(n: &BigUint, d: &BigUint) -> (r: (BigUint, BigUint))
    requires
        nat_of(*d) != 0,
    ensures
        nat_of(r.0) == nat_of(*n) / nat_of(*d),
        nat_of(r.1) == nat_of(*n) % nat_of(*d),
{
    n.div_mod_floor(d)
}

/// `<` on two `&BigUint`: the order of the numbers they stand for.
#[verifier::external_body]
pub(crate) fn less(a: &BigUint, b: &BigUint) -> (r: bool)
    ensures
        r == (nat_of(*a) < nat_of(*b)),
{
    a < b
}

/// `Zero::is_zero` of `BigUint`.
#[verifier::external_body]
pub(crate) fn is_zero(n: &BigUint) -> (r: bool)
    ensures
        r == (nat_of(*n) == 0),
{
    n.is_zero()
}

/// `Pow::pow` of `&BigUint` with a `usize` exponent: the power, with
/// `n^0 == 1` for every `n`.
#[verifier::external_body]
pub(crate) fn power_of(n: &BigUint, exponent: usize) -> (r: BigUint)
    ensures
        nat_of(r) == pow(nat_of(*n) as int, exponent as nat),
{
    Pow::pow(n, exponent)
}

/// `Integer::gcd` of `BigUint`: the greatest common divisor, which divides
/// both numbers and is divided by whatever divides both. Of zero and zero it
/// is zero.
#[verifier::external_body]
pub(crate) fn greatest_common_divisor(a: &BigUint, b: &BigUint) -> (r: BigUint)
    ensures
        is_gcd(nat_of(r), nat_of(*a), nat_of(*b)),
{
    a.gcd(b)
}

/// `BigUint::from_str`, which reads base ten: a text of one or more decimal
/// digits and nothing else is read as the number it writes. Of other texts
/// nothing is claimed.
#[verifier::external_body]
pub(crate) fn parse_decimal(text: &str) -> (r: Result<BigUint, ParseBigIntError>)
    ensures
        text@.len() > 0 && digit_chars(text@) ==> r is Ok && nat_of(r->Ok_0) == decimal_value(
            text@,
        ),
{
    BigUint::from_str(text)
}

} // verus!
