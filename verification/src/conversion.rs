//! Conversion of bare digit arrays between bases, place by place.
//!
//! The whole digits are converted exactly. The decimal digits are converted
//! digit by digit, up to a number of digits, from the digit array alone: this
//! loses what does not fit, unlike [`crate::number::Number`], which keeps an
//! exact ratio.

use crate::digits::{
    digits_below, digits_value, lemma_pow_nat, lemma_pow_step, lemma_value_with_leading_digit,
    lemma_value_with_trailing_digit, to_digit_arr, to_digits, value_of_digits,
};
use crate::expansion::lemma_value_below_power;
use crate::natural::{copy_of, from_u128, is_zero, nat_of, nats_of, power_of, product_of, sum_of};
use num::bigint::BigUint;
use vstd::arithmetic::power::pow;
use vstd::prelude::*;
use vstd::slice::slice_subrange;

verus! {

/// The value of `digit` at `place` in a number of `base`, where places count
/// from the right and start at one: the digit times the base to the power of
/// the places to its right.
pub open spec fn place_value(digit: nat, base: nat, place: nat) -> nat {
    if digit == 0 {
        0
    } else {
        (digit * pow(base as int, (place - 1) as nat)) as nat
    }
}

/// Calculate the value of a digit at place `place` in a number of base `base`.
/// `place` is counting from the right, starting at 1: in `123` of base ten,
/// the `1` is at place 3 and has a value of 100.
///
/// A digit of zero has the value zero at any place.
pub fn calculate_value(digit: BigUint, base: BigUint, place: usize) -> (value: BigUint)
    requires
        nat_of(digit) == 0 || place >= 1,
    ensures
        nat_of(value) == place_value(nat_of(digit), nat_of(base), place as nat),
{
    if is_zero(&digit) {
        return from_u128(0);
    }
    let weight = power_of(&base, place - 1);
    proof {
        lemma_pow_nat(nat_of(base), (place - 1) as nat);
        let p = pow(nat_of(base) as int, (place - 1) as nat);
        assert(nat_of(digit) * p >= 0) by (nonlinear_arith)
            requires
                p >= 0,
        ;
        assert(p * nat_of(digit) == nat_of(digit) * p) by (nonlinear_arith);
    }
    product_of(&weight, &digit)
}

/// The value of a whole number written as `digits` in `base`, as the sum of
/// the values of its digits at their places.
pub fn value_of_whole(digits: Vec<BigUint>, base: BigUint) -> (value: BigUint)
    ensures
        nat_of(value) == digits_value(nats_of(digits@), nat_of(base)),
{
    let ghost all = nats_of(digits@);
    let ghost b = nat_of(base);
    let mut value = from_u128(0);
    let digit_count = digits.len();
    let mut i: usize = 0;
    proof {
        assert(all.skip(0) =~= all);
    }
    while i < digit_count
        invariant
            all == nats_of(digits@),
            b == nat_of(base),
            digit_count == digits.len(),
            i <= digit_count,
            nat_of(value) + digits_value(all.skip(i as int), b) == digits_value(all, b),
        decreases digit_count - i,
    {
        let place = digit_count - i;
        let term = calculate_value(copy_of(&digits[i]), copy_of(&base), place);
        proof {
            assert(all[i as int] == nat_of(digits@[i as int]));
            assert(all.skip(i as int) =~= seq![all[i as int]] + all.skip(i + 1));
            lemma_value_with_leading_digit(all[i as int], all.skip(i + 1), b);
            lemma_pow_nat(b, (place - 1) as nat);
            let p = pow(b as int, (place - 1) as nat);
            assert(all[i as int] == 0 ==> all[i as int] * p == 0) by (nonlinear_arith);
            assert(all[i as int] * p >= 0) by (nonlinear_arith)
                requires
                    p >= 0,
            ;
        }
        value = sum_of(&value, &term);
        i += 1;
    }
    value
}

/// Convert a whole number to `to_base`.
pub fn convert_whole_to_base(digits: Vec<BigUint>, from_base: BigUint, to_base: BigUint) -> (converted:
    Vec<BigUint>)
    requires
        nat_of(to_base) >= 2,
    ensures
        nats_of(converted@) == to_digits(
            digits_value(nats_of(digits@), nat_of(from_base)),
            nat_of(to_base),
        ),
        converted@.len() >= 1,
        digits_below(nats_of(converted@), nat_of(to_base)),
        digits_value(nats_of(converted@), nat_of(to_base)) == digits_value(
            nats_of(digits@),
            nat_of(from_base),
        ),
{
    let value = value_of_whole(digits, from_base);
    to_digit_arr(value, &to_base)
}

/// A digit sequence cut in two writes what its front writes, shifted by the
/// places of its back, plus what its back writes.
pub proof fn lemma_value_split(digits: Seq<nat>, base: nat, cut: int)
    requires
        0 <= cut <= digits.len(),
    ensures
        digits_value(digits, base) == digits_value(digits.take(cut), base) * pow(
            base as int,
            (digits.len() - cut) as nat,
        ) + digits_value(digits.skip(cut), base),
    decreases digits.len() - cut,
{
    reveal(pow);
    let front = digits_value(digits.take(cut), base);
    if cut == digits.len() {
        assert(digits.take(cut) =~= digits);
        assert(digits.skip(cut) =~= Seq::<nat>::empty());
        assert(front * pow(base as int, 0) == front) by (nonlinear_arith)
            requires
                pow(base as int, 0) == 1,
        ;
    } else {
        let shorter = digits.drop_last();
        lemma_value_split(shorter, base, cut);
        assert(shorter.take(cut) =~= digits.take(cut));
        assert(digits.skip(cut) =~= shorter.skip(cut).push(digits.last()));
        lemma_value_with_trailing_digit(shorter.skip(cut), digits.last(), base);
        let places = (shorter.len() - cut) as nat;
        lemma_pow_step(base as int, places);
        let p = pow(base as int, places);
        let back = digits_value(shorter.skip(cut), base);
        assert((front * p + back) * base == front * (base * p) + back * base)
            by (nonlinear_arith);
    }
}

/// The digits that carry over when a decimal part, held as the value of its
/// `count` digits in `from_base`, is multiplied by `to_base` again and again:
/// each product is written in `from_base`; what stands above the last `count`
/// places is the next digit, and what stands in them is multiplied next. The
/// digits end after `limit` of them, where nothing is left to multiply, and
/// where a product needs fewer than `count` places.
pub open spec fn carry_digits(
    value: nat,
    count: nat,
    from_base: nat,
    to_base: nat,
    limit: nat,
) -> Seq<nat>
    decreases limit,
{
    if limit == 0 || value == 0 || to_digits(value * to_base, from_base).len() < count {
        Seq::empty()
    } else {
        seq![((value * to_base) as int / pow(from_base as int, count)) as nat] + carry_digits(
            ((value * to_base) as int % pow(from_base as int, count)) as nat,
            count,
            from_base,
            to_base,
            (limit - 1) as nat,
        )
    }
}

/// Carried digits are never more than their limit.
pub proof fn lemma_carry_digits_len(
    value: nat,
    count: nat,
    from_base: nat,
    to_base: nat,
    limit: nat,
)
    ensures
        carry_digits(value, count, from_base, to_base, limit).len() <= limit,
    decreases limit,
{
    if !(limit == 0 || value == 0 || to_digits(value * to_base, from_base).len() < count) {
        lemma_carry_digits_len(
            ((value * to_base) as int % pow(from_base as int, count)) as nat,
            count,
            from_base,
            to_base,
            (limit - 1) as nat,
        );
    }
}

/// Convert the decimal part of a number, given as its digits in `from_base`,
/// to at most `up_to` digits in `to_base`.
pub fn convert_decimal_to_base(
    digits: Vec<BigUint>,
    from_base: BigUint,
    to_base: BigUint,
    up_to: usize,
) -> (output: Vec<BigUint>)
    requires
        nat_of(from_base) >= 2,
    ensures
        nats_of(output@) == carry_digits(
            digits_value(nats_of(digits@), nat_of(from_base)),
            digits@.len(),
            nat_of(from_base),
            nat_of(to_base),
            up_to as nat,
        ),
        output@.len() <= up_to,
{
    let ghost from = nat_of(from_base);
    let ghost to = nat_of(to_base);
    let ghost given = nats_of(digits@);
    let ghost goal = carry_digits(digits_value(given, from), given.len(), from, to, up_to as nat);
    proof {
        lemma_carry_digits_len(
            digits_value(nats_of(digits@), from),
            digits@.len(),
            from,
            to,
            up_to as nat,
        );
    }
    let mut output: Vec<BigUint> = Vec::new();
    let digit_count = digits.len();
    let mut value = value_of_whole(digits, copy_of(&from_base));
    proof {
        assert(nats_of(output@) + goal =~= goal);
    }
    while !is_zero(&value) && output.len() < up_to
        invariant
            from == nat_of(from_base),
            to == nat_of(to_base),
            from >= 2,
            given == nats_of(digits@),
            digit_count == given.len(),
            goal == carry_digits(digits_value(given, from), given.len(), from, to, up_to as nat),
            goal.len() <= up_to,
            output.len() <= up_to,
            nats_of(output@) + carry_digits(
                nat_of(value),
                digit_count as nat,
                from,
                to,
                (up_to - output.len()) as nat,
            ) == goal,
        decreases up_to - output.len(),
    {
        let ghost left = nat_of(value);
        let ghost product = left * to;
        let ghost so_far = nats_of(output@);
        let scaled = to_digit_arr(product_of(&value, &to_base), &from_base);
        if scaled.len() < digit_count {
            proof {
                assert(so_far + Seq::<nat>::empty() =~= so_far);
            }
            return output;
        }
        let cut = scaled.len() - digit_count;
        let whole = slice_subrange(scaled.as_slice(), 0, cut);
        let decimal_part = slice_subrange(scaled.as_slice(), cut, scaled.len());
        value = value_of_digits(decimal_part, &from_base);
        let digit = value_of_digits(whole, &from_base);
        output.push(digit);
        proof {
            let all = nats_of(scaled@);
            assert(nats_of(whole@) =~= all.take(cut as int));
            assert(nats_of(decimal_part@) =~= all.skip(cut as int));
            lemma_value_split(all, from, cut as int);
            lemma_value_below_power(all.skip(cut as int), from);
            lemma_pow_nat(from, digit_count as nat);
            let scale = pow(from as int, digit_count as nat);
            vstd::arithmetic::div_mod::lemma_fundamental_div_mod_converse(
                product as int,
                scale,
                nat_of(digit) as int,
                nat_of(value) as int,
            );
            let tail = carry_digits(
                nat_of(value),
                digit_count as nat,
                from,
                to,
                (up_to - output.len()) as nat,
            );
            assert(nats_of(output@) =~= so_far.push(nat_of(digit)));
            assert(so_far.push(nat_of(digit)) + tail =~= so_far + (seq![nat_of(digit)] + tail));
        }
    }
    proof {
        assert(nats_of(output@) + Seq::<nat>::empty() =~= nats_of(output@));
    }
    output
}

/// Convert a number, given as the digits of its whole part and of its decimal
/// part in `from_base`, to `to_base`, with at most `up_to` decimal digits.
pub fn convert_number(
    whole: Vec<BigUint>,
    decimal: Vec<BigUint>,
    from_base: BigUint,
    to_base: BigUint,
    up_to: usize,
) -> (converted: (Vec<BigUint>, Vec<BigUint>))
    requires
        nat_of(from_base) >= 2,
        nat_of(to_base) >= 2,
    ensures
        nats_of(converted.0@) == to_digits(
            digits_value(nats_of(whole@), nat_of(from_base)),
            nat_of(to_base),
        ),
        nats_of(converted.1@) == carry_digits(
            digits_value(nats_of(decimal@), nat_of(from_base)),
            decimal@.len(),
            nat_of(from_base),
            nat_of(to_base),
            up_to as nat,
        ),
        converted.1@.len() <= up_to,
{
    (
        convert_whole_to_base(whole, copy_of(&from_base), copy_of(&to_base)),
        convert_decimal_to_base(decimal, from_base, to_base, up_to),
    )
}

} // verus!
