//! The digits of a fraction in a base, and the place alignment that long
//! division needs to produce them.
//!
//! [`expansion`] is the model: the digits of `numerator / denominator` behind
//! the point, as far as a limit allows, ending early where the division comes
//! out even. [`expand`] is the alignment step: it grows a numerator by whole
//! places until the denominator fits into it.

use crate::digits::{
    digits_below, digits_value, lemma_digits_round_trip, lemma_digits_shape, lemma_pow_nat,
    lemma_pow_step, lemma_quotient_smaller, lemma_value_with_leading_digit,
    lemma_value_with_trailing_digit, to_digit_arr, to_digits,
};
use crate::natural::{copy_of, from_u128, less, nat_of, nats_of, product_of};
use num::bigint::BigUint;
use vstd::arithmetic::power::pow;
use vstd::prelude::*;

verus! {

/// `count` zero digits.
pub open spec fn zeros(count: nat) -> Seq<nat> {
    Seq::new(count, |i: int| 0nat)
}

/// The digits of `numerator / denominator` behind the point in `base`, at most
/// `limit` of them. Each step multiplies what is left by the base; the digit
/// is the quotient by the denominator and the remainder is what is left. The
/// sequence ends where nothing is left.
pub open spec fn expansion(numerator: nat, denominator: nat, base: nat, limit: nat) -> Seq<nat>
    decreases limit,
{
    if limit == 0 || numerator == 0 || denominator == 0 {
        Seq::empty()
    } else {
        seq![(numerator * base) / denominator] + expansion(
            (numerator * base) % denominator,
            denominator,
            base,
            (limit - 1) as nat,
        )
    }
}

/// The number of places by which `left` has to grow until it reaches `right`:
/// the least `k` with `left * base^k >= right`. Zero where `left` is zero or
/// the base is below two, since no growth would help.
pub open spec fn places_to_reach(left: nat, right: nat, base: nat) -> nat
    decreases (if right > left { right - left } else { 0 }),
    via places_to_reach_terminates
{
    if left >= right || left == 0 || base < 2 {
        0
    } else {
        1 + places_to_reach(left * base, right, base)
    }
}

#[via_fn]
proof fn places_to_reach_terminates(left: nat, right: nat, base: nat) {
    if left < right && left > 0 && base >= 2 {
        lemma_grows(left, base);
    }
}

/// A positive number times a base of at least two is more than the number.
pub proof fn lemma_grows(left: nat, base: nat)
    requires
        left > 0,
        base >= 2,
    ensures
        left * base > left,
{
    assert(left * base > left) by (nonlinear_arith)
        requires
            left > 0,
            base >= 2,
    ;
}

/// Zeros appended shift what was written by that many places.
pub proof fn lemma_value_with_trailing_zeros(digits: Seq<nat>, count: nat, base: nat)
    ensures
        digits_value(digits + zeros(count), base) == digits_value(digits, base) * pow(
            base as int,
            count,
        ),
    decreases count,
{
    let v = digits_value(digits, base);
    if count == 0 {
        assert(digits + zeros(0) =~= digits);
        reveal(pow);
        assert(v * pow(base as int, 0) == v) by (nonlinear_arith)
            requires
                pow(base as int, 0) == 1,
        ;
    } else {
        let fewer = (count - 1) as nat;
        lemma_value_with_trailing_zeros(digits, fewer, base);
        assert(digits + zeros(count) =~= (digits + zeros(fewer)).push(0nat));
        lemma_value_with_trailing_digit(digits + zeros(fewer), 0, base);
        lemma_pow_step(base as int, fewer);
        let p = pow(base as int, fewer);
        assert((v * p) * base == v * (base * p)) by (nonlinear_arith);
    }
}

/// An expansion never holds more digits than its limit.
pub proof fn lemma_expansion_len(numerator: nat, denominator: nat, base: nat, limit: nat)
    ensures
        expansion(numerator, denominator, base, limit).len() <= limit,
    decreases limit,
{
    if limit > 0 && numerator > 0 && denominator > 0 {
        lemma_expansion_len(
            (numerator * base) % denominator,
            denominator,
            base,
            (limit - 1) as nat,
        );
    }
}

/// A longer limit only adds digits: the expansion up to a limit is the start
/// of the expansion up to any larger one.
pub proof fn lemma_expansion_extends(
    numerator: nat,
    denominator: nat,
    base: nat,
    limit: nat,
    longer: nat,
)
    requires
        limit <= longer,
    ensures
        expansion(numerator, denominator, base, limit).len() <= expansion(
            numerator,
            denominator,
            base,
            longer,
        ).len(),
        expansion(numerator, denominator, base, limit) == expansion(
            numerator,
            denominator,
            base,
            longer,
        ).take(expansion(numerator, denominator, base, limit).len() as int),
    decreases limit,
{
    let short = expansion(numerator, denominator, base, limit);
    let long = expansion(numerator, denominator, base, longer);
    if limit == 0 || numerator == 0 || denominator == 0 {
        assert(short =~= long.take(0));
    } else {
        let digit = (numerator * base) / denominator;
        let rest = (numerator * base) % denominator;
        lemma_expansion_extends(rest, denominator, base, (limit - 1) as nat, (longer - 1) as nat);
        let short_tail = expansion(rest, denominator, base, (limit - 1) as nat);
        let long_tail = expansion(rest, denominator, base, (longer - 1) as nat);
        assert(short == seq![digit] + short_tail);
        assert(long == seq![digit] + long_tail);
        assert(short =~= long.take(short.len() as int));
    }
}

/// An expansion that ends before its limit is complete: a larger limit adds
/// nothing to it.
pub proof fn lemma_expansion_complete(
    numerator: nat,
    denominator: nat,
    base: nat,
    limit: nat,
    longer: nat,
)
    requires
        limit <= longer,
        expansion(numerator, denominator, base, limit).len() < limit,
    ensures
        expansion(numerator, denominator, base, longer) == expansion(
            numerator,
            denominator,
            base,
            limit,
        ),
    decreases limit,
{
    if limit > 0 && numerator > 0 && denominator > 0 {
        let rest = (numerator * base) % denominator;
        lemma_expansion_complete(rest, denominator, base, (limit - 1) as nat, (longer - 1) as nat);
    }
}

/// The digits of an expansion write the fraction, scaled by the base to the
/// power of their count and rounded down; and they write it exactly where the
/// expansion ends before its limit.
pub proof fn lemma_expansion_value(numerator: nat, denominator: nat, base: nat, limit: nat)
    requires
        base >= 1,
        numerator < denominator,
    ensures
        ({
            let digits = expansion(numerator, denominator, base, limit);
            let scaled = numerator * pow(base as int, digits.len());
            &&& digits_value(digits, base) * denominator <= scaled
            &&& scaled < (digits_value(digits, base) + 1) * denominator
            &&& digits.len() < limit ==> digits_value(digits, base) * denominator == scaled
        }),
    decreases limit,
{
    reveal(pow);
    let digits = expansion(numerator, denominator, base, limit);
    if limit == 0 || numerator == 0 {
        assert(digits_value(digits, base) == 0);
        assert(numerator * pow(base as int, 0) == numerator) by (nonlinear_arith)
            requires
                pow(base as int, 0) == 1,
        ;
        let v = digits_value(digits, base);
        assert(v * denominator == 0 && (v + 1) * denominator == denominator) by (nonlinear_arith)
            requires
                v == 0,
        ;
    } else {
        let digit = (numerator * base) / denominator;
        let rest = (numerator * base) % denominator;
        lemma_division_step(numerator, denominator, base);
        lemma_expansion_value(rest, denominator, base, (limit - 1) as nat);
        let tail = expansion(rest, denominator, base, (limit - 1) as nat);
        assert(digits == seq![digit] + tail);
        lemma_value_with_leading_digit(digit, tail, base);
        lemma_pow_step(base as int, tail.len());
        let p = pow(base as int, tail.len());
        let v = digits_value(tail, base);
        let whole = digits_value(digits, base);
        assert(whole == digit * p + v);
        assert(numerator * (base * p) == (digit * p) * denominator + rest * p)
            by (nonlinear_arith)
            requires
                denominator * digit + rest == numerator * base,
        ;
        assert((digit * p + v) * denominator == (digit * p) * denominator + v * denominator)
            by (nonlinear_arith);
        assert((digit * p + v + 1) * denominator == (digit * p) * denominator + (v + 1)
            * denominator) by (nonlinear_arith);
    }
}

/// The digits of a fraction depend on the ratio alone: numerator and
/// denominator times the same factor have the same expansion.
pub proof fn lemma_expansion_scales(
    numerator: nat,
    denominator: nat,
    base: nat,
    limit: nat,
    factor: nat,
)
    requires
        factor >= 1,
    ensures
        expansion(numerator * factor, denominator * factor, base, limit) == expansion(
            numerator,
            denominator,
            base,
            limit,
        ),
    decreases limit,
{
    assert(numerator * factor == 0 <==> numerator == 0) by (nonlinear_arith)
        requires
            factor >= 1,
    ;
    assert(denominator * factor == 0 <==> denominator == 0) by (nonlinear_arith)
        requires
            factor >= 1,
    ;
    if limit > 0 && numerator > 0 && denominator > 0 {
        let scaled: int = (numerator * base) as int;
        let digit = scaled / (denominator as int);
        let rest = scaled % (denominator as int);
        vstd::arithmetic::div_mod::lemma_fundamental_div_mod(scaled, denominator as int);
        vstd::arithmetic::div_mod::lemma_mod_pos_bound(scaled, denominator as int);
        vstd::arithmetic::div_mod::lemma_div_pos_is_pos(scaled, denominator as int);
        assert((numerator * factor) * base == digit * (denominator * factor) + rest * factor)
            by (nonlinear_arith)
            requires
                numerator * base == denominator * digit + rest,
        ;
        assert(0 <= rest * factor < denominator * factor) by (nonlinear_arith)
            requires
                0 <= rest < denominator,
                factor >= 1,
        ;
        vstd::arithmetic::div_mod::lemma_fundamental_div_mod_converse(
            ((numerator * factor) * base) as int,
            (denominator * factor) as int,
            digit,
            rest * factor,
        );
        lemma_expansion_scales(rest as nat, denominator, base, (limit - 1) as nat, factor);
    }
}

/// Digits behind the point come back as they are: the fraction that digits
/// without a trailing zero write over the base to the power of their count
/// has these digits as its expansion, if the limit leaves room for them.
pub proof fn lemma_expansion_of_digits(digits: Seq<nat>, base: nat, limit: nat)
    requires
        base >= 2,
        digits_below(digits, base),
        digits.len() > 0 ==> digits.last() != 0,
        digits.len() <= limit,
    ensures
        expansion(
            digits_value(digits, base),
            pow(base as int, digits.len()) as nat,
            base,
            limit,
        ) == digits,
    decreases digits.len(),
{
    reveal(pow);
    lemma_pow_nat(base, digits.len());
    if digits.len() == 0 {
        assert(expansion(0, pow(base as int, 0) as nat, base, limit) =~= digits);
    } else {
        let first = digits[0];
        let rest = digits.skip(1);
        let places = rest.len();
        let p = pow(base as int, places);
        let v = digits_value(rest, base);
        let numerator = digits_value(digits, base);
        let denominator = pow(base as int, digits.len()) as nat;
        assert(digits =~= seq![first] + rest);
        lemma_value_with_leading_digit(first, rest, base);
        lemma_pow_step(base as int, places);
        lemma_pow_nat(base, places);
        lemma_value_below_power(rest, base);
        assert(numerator >= digits.last());
        assert(numerator * base == first * (base * p) + v * base) by (nonlinear_arith)
            requires
                numerator == first * p + v,
        ;
        assert(0 <= v * base < base * p) by (nonlinear_arith)
            requires
                0 <= v < p,
                base >= 2,
        ;
        vstd::arithmetic::div_mod::lemma_fundamental_div_mod_converse(
            (numerator * base) as int,
            denominator as int,
            first as int,
            (v * base) as int,
        );
        assert(rest.len() > 0 ==> rest.last() == digits.last());
        lemma_expansion_of_digits(rest, base, (limit - 1) as nat);
        lemma_expansion_scales(v, p as nat, base, (limit - 1) as nat, base);
        assert((p as nat) * base == denominator) by (nonlinear_arith)
            requires
                denominator == base * p,
                p >= 0,
        ;
    }
}

/// One step of long division on a proper fraction: the quotient is a digit of
/// the base, and the remainder is below the denominator again.
pub proof fn lemma_division_step(numerator: nat, denominator: nat, base: nat)
    requires
        base >= 1,
        numerator < denominator,
    ensures
        0 <= (numerator * base) / denominator < base,
        0 <= (numerator * base) % denominator < denominator,
        denominator * ((numerator * base) / denominator) + (numerator * base) % denominator
            == numerator * base,
{
    let scaled: int = (numerator * base) as int;
    vstd::arithmetic::div_mod::lemma_fundamental_div_mod(scaled, denominator as int);
    vstd::arithmetic::div_mod::lemma_mod_pos_bound(scaled, denominator as int);
    vstd::arithmetic::div_mod::lemma_div_pos_is_pos(scaled, denominator as int);
    assert(scaled < denominator * base) by (nonlinear_arith)
        requires
            scaled == numerator * base,
            numerator < denominator,
            base > 0,
    ;
    vstd::arithmetic::div_mod::lemma_multiply_divide_lt(scaled, denominator as int, base as int);
}

/// The digits of a proper fraction are digits of the base.
pub proof fn lemma_expansion_digits(numerator: nat, denominator: nat, base: nat, limit: nat)
    requires
        base >= 1,
        numerator < denominator,
    ensures
        digits_below(expansion(numerator, denominator, base, limit), base),
    decreases limit,
{
    if limit > 0 && numerator > 0 {
        let digit = (numerator * base) / denominator;
        let rest = (numerator * base) % denominator;
        lemma_division_step(numerator, denominator, base);
        lemma_expansion_digits(rest, denominator, base, (limit - 1) as nat);
        let tail = expansion(rest, denominator, base, (limit - 1) as nat);
        assert forall|i: int| 0 <= i < (seq![digit] + tail).len() implies (seq![digit] + tail)[i]
            < base by {
            if i > 0 {
                assert((seq![digit] + tail)[i] == tail[i - 1]);
            }
        }
    }
}

/// Digits below the base write a number below the base to the power of their
/// count.
pub proof fn lemma_value_below_power(digits: Seq<nat>, base: nat)
    requires
        digits_below(digits, base),
    ensures
        digits_value(digits, base) < pow(base as int, digits.len()),
    decreases digits.len(),
{
    reveal(pow);
    if digits.len() > 0 {
        let front = digits.drop_last();
        lemma_value_below_power(front, base);
        lemma_pow_step(base as int, front.len());
        let v = digits_value(front, base);
        let p = pow(base as int, front.len());
        let last = digits.last();
        assert(v * base + last < base * p) by (nonlinear_arith)
            requires
                0 <= v < p,
                0 <= last < base,
        ;
    }
}

/// A positive number reaches the base to the power of one less than the count
/// of its digits.
pub proof fn lemma_digits_reach_power(value: nat, base: nat)
    requires
        base >= 2,
        value >= 1,
    ensures
        to_digits(value, base).len() >= 1,
        value >= pow(base as int, (to_digits(value, base).len() - 1) as nat),
    decreases value,
{
    reveal(pow);
    if value >= base {
        lemma_quotient_smaller(value, base);
        let q = value / base;
        lemma_digits_reach_power(q, base);
        let shorter = (to_digits(q, base).len() - 1) as nat;
        lemma_pow_step(base as int, shorter);
        let p = pow(base as int, shorter);
        assert(q * base >= base * p) by (nonlinear_arith)
            requires
                q >= p,
                base >= 2,
        ;
    }
}

/// A number that reaches another has at least as many digits.
pub proof fn lemma_digit_count_grows(small: nat, large: Seq<nat>, base: nat)
    requires
        base >= 2,
        small >= 1,
        digits_below(large, base),
        digits_value(large, base) >= small,
    ensures
        to_digits(small, base).len() <= large.len(),
{
    lemma_digits_reach_power(small, base);
    lemma_value_below_power(large, base);
    let m = (to_digits(small, base).len() - 1) as nat;
    if m >= large.len() {
        vstd::arithmetic::power::lemma_pow_increases(base, large.len(), m);
    }
}

/// A longer prefix of a digit sequence never writes less than a shorter one.
pub proof fn lemma_prefix_value_grows(digits: Seq<nat>, base: nat, short: int, long: int)
    requires
        base >= 1,
        0 <= short <= long <= digits.len(),
    ensures
        digits_value(digits.take(short), base) <= digits_value(digits.take(long), base),
    decreases long - short,
{
    if short < long {
        lemma_prefix_value_grows(digits, base, short, long - 1);
        assert(digits.take(long).drop_last() =~= digits.take(long - 1));
        let v = digits_value(digits.take(long - 1), base);
        assert(v * base >= v) by (nonlinear_arith)
            requires
                base >= 1,
                v >= 0,
        ;
    }
}

/// While the numerator has more than one place to grow, the digits are zeros:
/// an expansion starts with as many zeros as there are places to grow but one,
/// and goes on as the expansion of the grown numerator.
pub proof fn lemma_expansion_skips_zeros(
    numerator: nat,
    denominator: nat,
    base: nat,
    limit: nat,
    skipped: nat,
)
    requires
        base >= 2,
        0 < numerator < denominator,
        skipped < places_to_reach(numerator, denominator, base),
        skipped <= limit,
    ensures
        pow(base as int, skipped) >= 1,
        0 < numerator * pow(base as int, skipped) < denominator,
        places_to_reach((numerator * pow(base as int, skipped)) as nat, denominator, base)
            == places_to_reach(numerator, denominator, base) - skipped,
        expansion(numerator, denominator, base, limit) == zeros(skipped) + expansion(
            (numerator * pow(base as int, skipped)) as nat,
            denominator,
            base,
            (limit - skipped) as nat,
        ),
    decreases skipped,
{
    reveal(pow);
    lemma_pow_nat(base, skipped);
    if skipped == 0 {
        assert(numerator * pow(base as int, 0) == numerator) by (nonlinear_arith)
            requires
                pow(base as int, 0) == 1,
        ;
        assert(zeros(0) + expansion(numerator, denominator, base, limit) =~= expansion(
            numerator,
            denominator,
            base,
            limit,
        ));
    } else {
        let fewer = (skipped - 1) as nat;
        let next = numerator * base;
        lemma_grows(numerator, base);
        assert(places_to_reach(numerator, denominator, base) == 1 + places_to_reach(
            next,
            denominator,
            base,
        ));
        assert(next < denominator);
        assert((numerator * base) / denominator == 0 && (numerator * base) % denominator == next)
            by (nonlinear_arith)
            requires
                0 <= next < denominator,
                next == numerator * base,
        ;
        lemma_expansion_skips_zeros(next, denominator, base, (limit - 1) as nat, fewer);
        lemma_pow_step(base as int, fewer);
        let p = pow(base as int, fewer);
        assert((numerator * base) * p == numerator * (base * p)) by (nonlinear_arith);
        assert(seq![0nat] + zeros(fewer) =~= zeros(skipped));
        assert(seq![0nat] + (zeros(fewer) + expansion(
            (next * p) as nat,
            denominator,
            base,
            (limit - skipped) as nat,
        )) =~= zeros(skipped) + expansion(
            (next * p) as nat,
            denominator,
            base,
            (limit - skipped) as nat,
        ));
    }
}

/// Where the limit ends before the numerator has grown enough, the expansion
/// is zeros only.
pub proof fn lemma_expansion_cut_in_zeros(numerator: nat, denominator: nat, base: nat, limit: nat)
    requires
        base >= 2,
        0 < numerator < denominator,
        limit < places_to_reach(numerator, denominator, base),
    ensures
        expansion(numerator, denominator, base, limit) == zeros(limit),
{
    lemma_expansion_skips_zeros(numerator, denominator, base, limit, limit);
    assert(zeros(limit) + Seq::<nat>::empty() =~= zeros(limit));
}

/// Where the limit allows it, the expansion is: zeros for all places to grow
/// but one, then the quotient of the grown numerator by the denominator, then
/// the expansion of the remainder.
pub proof fn lemma_expansion_emits(
    numerator: nat,
    denominator: nat,
    base: nat,
    limit: nat,
    places: nat,
)
    requires
        base >= 2,
        0 < numerator < denominator,
        places == places_to_reach(numerator, denominator, base),
        places <= limit,
    ensures
        places >= 1,
        numerator * pow(base as int, (places - 1) as nat) < denominator,
        numerator * pow(base as int, places) >= denominator,
        0 <= (numerator * pow(base as int, places)) / (denominator as int) < base,
        0 <= (numerator * pow(base as int, places)) % (denominator as int) < denominator,
        expansion(numerator, denominator, base, limit) == zeros((places - 1) as nat).push(
            ((numerator * pow(base as int, places)) / (denominator as int)) as nat,
        ) + expansion(
            ((numerator * pow(base as int, places)) % (denominator as int)) as nat,
            denominator,
            base,
            (limit - places) as nat,
        ),
{
    let skipped = (places - 1) as nat;
    lemma_expansion_skips_zeros(numerator, denominator, base, limit, skipped);
    let grown = (numerator * pow(base as int, skipped)) as nat;
    let left: nat = (limit - skipped) as nat;
    lemma_pow_step(base as int, skipped);
    let p = pow(base as int, skipped);
    assert(grown * base == numerator * (base * p)) by (nonlinear_arith)
        requires
            grown == numerator * p,
    ;
    lemma_grows(grown, base);
    assert(places_to_reach(grown, denominator, base) == 1 + places_to_reach(
        grown * base,
        denominator,
        base,
    ));
    assert(grown * base >= denominator);
    lemma_division_step(grown, denominator, base);
    let digit = (grown * base) / denominator;
    let rest = (grown * base) % denominator;
    let tail = expansion(rest, denominator, base, (left - 1) as nat);
    assert(expansion(grown, denominator, base, left) == seq![digit] + tail);
    assert(zeros(skipped) + (seq![digit] + tail) =~= zeros(skipped).push(digit) + tail);
}

/// The shortest prefix of the grown numerator that the denominator fits into
/// is all of it: any shorter prefix writes no more than the numerator grown by
/// one place less, which the denominator does not fit into.
pub proof fn lemma_prefix_is_whole(
    numerator: nat,
    denominator: nat,
    base: nat,
    places: nat,
    taken: int,
)
    requires
        base >= 2,
        places >= 1,
        numerator * pow(base as int, (places - 1) as nat) < denominator,
        0 <= taken <= (to_digits(numerator, base) + zeros(places)).len(),
        digits_value((to_digits(numerator, base) + zeros(places)).take(taken), base) >= denominator,
    ensures
        taken == (to_digits(numerator, base) + zeros(places)).len(),
        digits_value((to_digits(numerator, base) + zeros(places)).take(taken), base) == numerator
            * pow(base as int, places),
{
    let left = to_digits(numerator, base) + zeros(places);
    let fewer = (places - 1) as nat;
    if taken < left.len() {
        lemma_prefix_value_grows(left, base, taken, left.len() - 1);
        assert(left.take(left.len() - 1) =~= to_digits(numerator, base) + zeros(fewer));
        lemma_value_with_trailing_zeros(to_digits(numerator, base), fewer, base);
        lemma_digits_round_trip(numerator, base);
    }
    assert(left.take(left.len() as int) =~= left);
    lemma_value_with_trailing_zeros(to_digits(numerator, base), places, base);
    lemma_digits_round_trip(numerator, base);
}

/// Scale `left` up by whole places of `base` until it is no longer below
/// `right`. Returns the digits of the scaled number and the number of places
/// that were added.
///
/// `11` against `100` in base ten becomes the digits `1, 1, 0` with one place
/// added.
pub fn expand(left: BigUint, right: &BigUint, base: &BigUint) -> (grown: (Vec<BigUint>, usize))
    requires
        nat_of(left) > 0,
        nat_of(*base) >= 2,
    ensures
        grown.1 == places_to_reach(nat_of(left), nat_of(*right), nat_of(*base)),
        nats_of(grown.0@) == to_digits(nat_of(left), nat_of(*base)) + zeros(grown.1 as nat),
        digits_value(nats_of(grown.0@), nat_of(*base)) == nat_of(left) * pow(
            nat_of(*base) as int,
            grown.1 as nat,
        ),
        nat_of(left) * pow(nat_of(*base) as int, grown.1 as nat) >= nat_of(*right),
        digits_below(nats_of(grown.0@), nat_of(*base)),
{
    let ghost start = nat_of(left);
    let ghost b = nat_of(*base);
    let ghost goal = nat_of(*right);
    let mut left_arr = to_digit_arr(copy_of(&left), base);
    let mut left = left;
    let mut added: usize = 0;
    proof {
        reveal(pow);
        assert(to_digits(start, b) + zeros(0) =~= to_digits(start, b));
        assert(start * pow(b as int, 0) == start) by (nonlinear_arith)
            requires
                pow(b as int, 0) == 1,
        ;
    }
    while less(&left, right)
        invariant
            b == nat_of(*base),
            b >= 2,
            goal == nat_of(*right),
            start > 0,
            nat_of(left) > 0,
            added < left_arr.len(),
            nat_of(left) == start * pow(b as int, added as nat),
            places_to_reach(start, goal, b) == added + places_to_reach(nat_of(left), goal, b),
            nats_of(left_arr@) == to_digits(start, b) + zeros(added as nat),
        decreases (if goal > nat_of(left) { goal - nat_of(left) } else { 0 }),
    {
        let ghost before = nat_of(left);
        let ghost digits_before = nats_of(left_arr@);
        left_arr.push(from_u128(0));
        proof {
            lemma_grows(before, b);
            lemma_pow_step(b as int, added as nat);
            let p = pow(b as int, added as nat);
            assert((start * p) * b == start * (b * p)) by (nonlinear_arith);
            assert(nats_of(left_arr@) =~= digits_before.push(0nat));
            assert(digits_before.push(0nat) =~= to_digits(start, b) + zeros((added + 1) as nat));
        }
        added += 1;
        left = product_of(&left, base);
    }
    proof {
        lemma_value_with_trailing_zeros(to_digits(start, b), added as nat, b);
        lemma_digits_round_trip(start, b);
        lemma_digits_shape(start, b);
    }
    (left_arr, added)
}

} // verus!
