//! Digit sequences: from digits to the number they write, and back.
//!
//! A digit sequence is written most significant digit first. Its model is a
//! `Seq<nat>`; [`digits_value`] is the number it writes in a base, and
//! [`to_digits`] the shortest sequence that writes a number.

use crate::natural::{
    copy_of, from_u128, less, nat_of, nats_of, product_of, quotient_and_rest, sum_of,
};
use num::bigint::BigUint;
use vstd::arithmetic::power::pow;
use vstd::prelude::*;

verus! {

/// The number that `digits` writes in `base`, most significant digit first.
/// The empty sequence writes zero.
pub open spec fn digits_value(digits: Seq<nat>, base: nat) -> nat
    decreases digits.len(),
{
    if digits.len() == 0 {
        0
    } else {
        digits_value(digits.drop_last(), base) * base + digits.last()
    }
}

/// The digits of `value` in `base`, most significant first, without a leading
/// zero: the last digit is the remainder, the digits before it write the
/// quotient. A value below the base is its own single digit.
pub open spec fn to_digits(value: nat, base: nat) -> Seq<nat>
    decreases value,
    via to_digits_terminates
{
    if base < 2 || value < base {
        seq![value]
    } else {
        to_digits(value / base, base).push(value % base)
    }
}

#[via_fn]
proof fn to_digits_terminates(value: nat, base: nat) {
    if base >= 2 && value >= base {
        lemma_quotient_smaller(value, base);
    }
}

/// Dividing a number by a base of at least two leaves less, and leaves
/// something where the number reached the base.
pub proof fn lemma_quotient_smaller(value: nat, base: nat)
    requires
        base >= 2,
        value >= base,
    ensures
        1 <= value / base < value,
        value % base < base,
        (value / base) * base + value % base == value,
{
    assert(1 <= value / base < value) by (nonlinear_arith)
        requires
            value >= base,
            base >= 2,
    ;
    assert(value % base < base && (value / base) * base + value % base == value)
        by (nonlinear_arith)
        requires
            base >= 2,
    ;
}

/// Every digit is below the base.
pub open spec fn digits_below(digits: Seq<nat>, base: nat) -> bool {
    forall|i: int| 0 <= i < digits.len() ==> digits[i] < base
}

/// One more factor: `b^(e+1) == b * b^e`.
pub proof fn lemma_pow_step(b: int, e: nat)
    ensures
        pow(b, e + 1) == b * pow(b, e),
{
    reveal(pow);
}

/// A power of a natural is a natural, and positive where the base is.
pub proof fn lemma_pow_nat(b: nat, e: nat)
    ensures
        pow(b as int, e) >= 0,
        b >= 1 ==> pow(b as int, e) >= 1,
    decreases e,
{
    reveal(pow);
    if e > 0 {
        lemma_pow_nat(b, (e - 1) as nat);
        let p = pow(b as int, (e - 1) as nat);
        assert(b * p >= 0) by (nonlinear_arith)
            requires
                b >= 0,
                p >= 0,
        ;
        if b >= 1 {
            assert(b * p >= 1) by (nonlinear_arith)
                requires
                    b >= 1,
                    p >= 1,
            ;
        }
    }
}

/// A single digit writes itself.
pub proof fn lemma_single_digit(digit: nat, base: nat)
    ensures
        digits_value(seq![digit], base) == digit,
{
    let one = seq![digit];
    assert(one.drop_last() =~= Seq::<nat>::empty());
    let front = digits_value(one.drop_last(), base);
    assert(front == 0);
    assert(front * base == 0) by (nonlinear_arith)
        requires
            front == 0,
    ;
}

/// A digit put in front counts by the base to the power of the places behind it.
pub proof fn lemma_value_with_leading_digit(digit: nat, rest: Seq<nat>, base: nat)
    ensures
        digits_value(seq![digit] + rest, base) == digit * pow(base as int, rest.len())
            + digits_value(rest, base),
    decreases rest.len(),
{
    let all = seq![digit] + rest;
    if rest.len() == 0 {
        assert(all =~= seq![digit]);
        lemma_single_digit(digit, base);
        assert(digits_value(rest, base) == 0);
        assert(pow(base as int, 0) == 1) by {
            reveal(pow);
        }
        assert(digit * pow(base as int, rest.len()) == digit);
    } else {
        let shorter = rest.drop_last();
        assert(all.drop_last() =~= seq![digit] + shorter);
        assert(all.last() == rest.last());
        lemma_value_with_leading_digit(digit, shorter, base);
        lemma_pow_step(base as int, shorter.len());
        let p = pow(base as int, shorter.len());
        let v = digits_value(shorter, base);
        assert(rest.len() == shorter.len() + 1);
        assert(pow(base as int, rest.len()) == base * p);
        assert(digits_value(all, base) == (digit * p + v) * base + rest.last());
        assert(digits_value(rest, base) == v * base + rest.last());
        assert((digit * p + v) * base == digit * (base * p) + v * base) by (nonlinear_arith);
    }
}

/// A digit appended shifts what was written by one place.
pub proof fn lemma_value_with_trailing_digit(digits: Seq<nat>, digit: nat, base: nat)
    ensures
        digits_value(digits.push(digit), base) == digits_value(digits, base) * base + digit,
{
    assert(digits.push(digit).drop_last() =~= digits);
}

/// The digits of a number write that number.
pub proof fn lemma_digits_round_trip(value: nat, base: nat)
    requires
        base >= 2,
    ensures
        digits_value(to_digits(value, base), base) == value,
    decreases value,
{
    if value < base {
        lemma_single_digit(value, base);
    } else {
        assert(to_digits(value, base) == to_digits(value / base, base).push(value % base));
        lemma_quotient_smaller(value, base);
        lemma_digits_round_trip(value / base, base);
        lemma_value_with_trailing_digit(to_digits(value / base, base), value % base, base);
    }
}

/// The digits of a number are never empty, each is below the base, and the
/// first is zero only where the number is.
pub proof fn lemma_digits_shape(value: nat, base: nat)
    requires
        base >= 2,
    ensures
        to_digits(value, base).len() >= 1,
        digits_below(to_digits(value, base), base),
        to_digits(value, base)[0] == 0 ==> value == 0,
        value == 0 ==> to_digits(value, base) == seq![0nat],
    decreases value,
{
    if value >= base {
        lemma_quotient_smaller(value, base);
        lemma_digits_shape(value / base, base);
    }
}

/// Digits without a leading zero: at least one digit, each below the base,
/// and the first one zero only where it is the only one.
pub open spec fn is_shortest(digits: Seq<nat>, base: nat) -> bool {
    &&& digits.len() >= 1
    &&& digits_below(digits, base)
    &&& digits.len() > 1 ==> digits[0] != 0
}

/// The digits of a number are without a leading zero.
pub proof fn lemma_digits_are_shortest(value: nat, base: nat)
    requires
        base >= 2,
    ensures
        is_shortest(to_digits(value, base), base),
    decreases value,
{
    lemma_digits_shape(value, base);
    if value >= base {
        lemma_quotient_smaller(value, base);
        lemma_digits_are_shortest(value / base, base);
        lemma_digits_shape(value / base, base);
    }
}

/// Digits without a leading zero are the digits of the number they write: no
/// two such sequences write the same number.
pub proof fn lemma_shortest_digits_are_unique(digits: Seq<nat>, base: nat)
    requires
        base >= 2,
        is_shortest(digits, base),
    ensures
        to_digits(digits_value(digits, base), base) == digits,
    decreases digits.len(),
{
    if digits.len() == 1 {
        assert(digits =~= seq![digits[0]]);
        lemma_single_digit(digits[0], base);
    } else {
        let front = digits.drop_last();
        let last = digits.last();
        assert(front[0] == digits[0]);
        lemma_shortest_digits_are_unique(front, base);
        let v = digits_value(front, base);
        lemma_digits_shape(v, base);
        assert(v != 0);
        let whole = v * base + last;
        assert(whole >= base) by (nonlinear_arith)
            requires
                v >= 1,
                base >= 2,
                whole == v * base + last,
        ;
        vstd::arithmetic::div_mod::lemma_fundamental_div_mod_converse(
            whole as int,
            base as int,
            v as int,
            last as int,
        );
        assert(front.push(last) =~= digits);
    }
}

/// Calculate the value of a whole number written as `digits` in `base`.
pub fn value_of_digits(digits: &[BigUint], base: &BigUint) -> (value: BigUint)
    ensures
        nat_of(value) == digits_value(nats_of(digits@), nat_of(*base)),
{
    let ghost all = nats_of(digits@);
    let ghost b = nat_of(*base);
    if digits.len() == 0 {
        return from_u128(0);
    }
    if digits.len() == 1 {
        proof {
            assert(all =~= seq![nat_of(digits@[0])]);
            lemma_single_digit(nat_of(digits@[0]), b);
        }
        return copy_of(&digits[0]);
    }
    let mut place = from_u128(1);
    let mut sum = from_u128(0);
    let mut i: usize = digits.len();
    proof {
        reveal(pow);
        assert(all.skip(i as int) =~= Seq::<nat>::empty());
    }
    while i > 0
        invariant
            i <= digits.len(),
            all == nats_of(digits@),
            b == nat_of(*base),
            nat_of(place) == pow(b as int, (digits.len() - i) as nat),
            nat_of(sum) == digits_value(all.skip(i as int), b),
        decreases i,
    {
        i -= 1;
        let term = product_of(&place, &digits[i]);
        proof {
            assert(all.skip(i as int) =~= seq![all[i as int]] + all.skip(i + 1));
            lemma_value_with_leading_digit(all[i as int], all.skip(i + 1), b);
            lemma_pow_step(b as int, (digits.len() - i - 1) as nat);
            assert(all[i as int] == nat_of(digits@[i as int]));
            assert(nat_of(place) * nat_of(digits@[i as int]) == all[i as int] * nat_of(place))
                by (nonlinear_arith)
                requires
                    all[i as int] == nat_of(digits@[i as int]),
            ;
            assert(nat_of(place) * b == b * nat_of(place)) by (nonlinear_arith);
        }
        sum = sum_of(&sum, &term);
        place = product_of(&place, base);
    }
    proof {
        assert(all.skip(0) =~= all);
    }
    sum
}

/// Convert a number to its digits in `base`, most significant first.
pub fn to_digit_arr(number: BigUint, base: &BigUint) -> (digits: Vec<BigUint>)
    requires
        nat_of(*base) >= 2,
    ensures
        nats_of(digits@) == to_digits(nat_of(number), nat_of(*base)),
        digits@.len() >= 1,
        digits_below(nats_of(digits@), nat_of(*base)),
        digits_value(nats_of(digits@), nat_of(*base)) == nat_of(number),
        nat_of(number) == 0 ==> nats_of(digits@) == seq![0nat],
{
    let ghost b = nat_of(*base);
    let ghost start = nat_of(number);
    let mut number = number;
    let mut low: Vec<BigUint> = Vec::new();
    while !less(&number, base)
        invariant
            b == nat_of(*base),
            b >= 2,
            to_digits(start, b) == to_digits(nat_of(number), b) + nats_of(low@).reverse(),
        decreases nat_of(number),
    {
        let ghost before = nat_of(number);
        let ghost low_before = nats_of(low@);
        let (div, rest) = quotient_and_rest(&number, base);
        number = div;
        low.push(rest);
        proof {
            lemma_quotient_smaller(before, b);
            assert(nats_of(low@) =~= low_before.push(before % b));
            assert(to_digits(before / b, b).push(before % b) + low_before.reverse() =~= to_digits(
                before / b,
                b,
            ) + low_before.push(before % b).reverse());
        }
    }
    let ghost top = nat_of(number);
    let ghost low_before = nats_of(low@);
    low.push(number);
    proof {
        assert(nats_of(low@) =~= low_before.push(top));
        assert(to_digits(start, b) =~= nats_of(low@).reverse());
    }
    let mut digits: Vec<BigUint> = Vec::new();
    let ghost turned = nats_of(low@);
    while low.len() > 0
        invariant
            nats_of(digits@) + nats_of(low@).reverse() == turned.reverse(),
        decreases low.len(),
    {
        let ghost digits_before = nats_of(digits@);
        let ghost low_before = nats_of(low@);
        let digit = low.pop().unwrap();
        digits.push(digit);
        proof {
            assert(nats_of(digits@) =~= digits_before.push(low_before.last()));
            assert(nats_of(low@) =~= low_before.drop_last());
            assert(nats_of(digits@) + nats_of(low@).reverse() =~= digits_before
                + low_before.reverse());
        }
    }
    proof {
        assert(nats_of(digits@) =~= nats_of(digits@) + nats_of(low@).reverse());
        lemma_digits_round_trip(start, b);
        lemma_digits_shape(start, b);
    }
    digits
}

} // verus!
