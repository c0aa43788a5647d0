//! Ratios of two naturals in lowest terms.

use crate::natural::{greatest_common_divisor, nat_of, quotient_and_rest};
use num::bigint::BigUint;
use vstd::arithmetic::div_mod::{lemma_fundamental_div_mod, lemma_mod_multiples_basic};
use vstd::prelude::*;

verus! {

/// `divisor` divides `number`: the division leaves nothing. Zero divides only
/// zero.
pub open spec fn divides(divisor: nat, number: nat) -> bool {
    if divisor == 0 {
        number == 0
    } else {
        number % divisor == 0
    }
}

/// `divisor` divides both numbers, and whatever divides both divides it.
pub open spec fn is_gcd(divisor: nat, first: nat, second: nat) -> bool {
    &&& divides(divisor, first)
    &&& divides(divisor, second)
    &&& forall|other: nat|
        divides(other, first) && divides(other, second) ==> #[trigger] divides(other, divisor)
}

/// Two numbers with nothing in common but one.
pub open spec fn coprime(first: nat, second: nat) -> bool {
    forall|other: nat| #[trigger] divides(other, first) && divides(other, second) ==> other == 1
}

/// A number divides its multiples.
pub proof fn lemma_divides_multiple(divisor: nat, times: nat)
    ensures
        divides(divisor, divisor * times),
{
    if divisor != 0 {
        lemma_mod_multiples_basic(times as int, divisor as int);
        assert(divisor * times == times * divisor) by (nonlinear_arith);
    } else {
        assert(divisor * times == 0) by (nonlinear_arith)
            requires
                divisor == 0,
        ;
    }
}

/// What a number divides is a multiple of it.
pub proof fn lemma_divided_is_multiple(divisor: nat, number: nat)
    requires
        divides(divisor, number),
    ensures
        divisor != 0 ==> number == divisor * (number / divisor),
        divisor == 0 ==> number == 0,
{
    if divisor != 0 {
        lemma_fundamental_div_mod(number as int, divisor as int);
    }
}

/// What is left of two numbers when their greatest common divisor is taken
/// out of both has nothing in common but one.
pub proof fn lemma_reduced_is_coprime(divisor: nat, first: nat, second: nat)
    requires
        divisor != 0,
        is_gcd(divisor, divisor * first, divisor * second),
    ensures
        coprime(first, second),
{
    assert forall|other: nat| #[trigger]
        divides(other, first) && divides(other, second) implies other == 1 by {
        lemma_divided_is_multiple(other, first);
        lemma_divided_is_multiple(other, second);
        let scaled = divisor * other;
        if other == 0 {
            assert(divisor * first == 0 && divisor * second == 0) by (nonlinear_arith)
                requires
                    first == 0,
                    second == 0,
            ;
            assert(divides(divisor + 1, divisor * first));
            assert(divides(divisor + 1, divisor * second));
            assert(divides(divisor + 1, divisor));
            vstd::arithmetic::div_mod::lemma_small_mod(divisor, divisor + 1);
        } else {
            let a = first / other;
            let b = second / other;
            assert(divisor * first == scaled * a) by (nonlinear_arith)
                requires
                    first == other * a,
                    scaled == divisor * other,
            ;
            assert(divisor * second == scaled * b) by (nonlinear_arith)
                requires
                    second == other * b,
                    scaled == divisor * other,
            ;
            lemma_divides_multiple(scaled, a);
            lemma_divides_multiple(scaled, b);
            assert(divides(scaled, divisor));
            lemma_divided_is_multiple(scaled, divisor);
            assert(scaled != 0) by (nonlinear_arith)
                requires
                    scaled == divisor * other,
                    divisor != 0,
                    other != 0,
            ;
            let c = divisor / scaled;
            assert(other * c == 1) by (nonlinear_arith)
                requires
                    divisor == scaled * c,
                    scaled == divisor * other,
                    divisor != 0,
            ;
            assert(other == 1) by (nonlinear_arith)
                requires
                    other * c == 1,
            ;
        }
    }
}

/// Bring the ratio `left_div / right_div` to lowest terms. Returns the new
/// `right_div` and the new `left_div`, in this order.
pub fn normalize_to(right_div: BigUint, left_div: BigUint) -> (lowest: (BigUint, BigUint))
    requires
        nat_of(right_div) != 0,
    ensures
        nat_of(lowest.0) != 0,
        nat_of(left_div) * nat_of(lowest.0) == nat_of(right_div) * nat_of(lowest.1),
        divides(nat_of(lowest.0), nat_of(right_div)),
        divides(nat_of(lowest.1), nat_of(left_div)),
        coprime(nat_of(lowest.0), nat_of(lowest.1)),
{
    let y = greatest_common_divisor(&right_div, &left_div);
    let ghost g = nat_of(y);
    let ghost r = nat_of(right_div);
    let ghost l = nat_of(left_div);
    proof {
        lemma_divided_is_multiple(g, r);
        lemma_divided_is_multiple(g, l);
    }
    let (right, _) = quotient_and_rest(&right_div, &y);
    let (left, _) = quotient_and_rest(&left_div, &y);
    proof {
        let a = nat_of(right);
        let b = nat_of(left);
        assert(a != 0) by (nonlinear_arith)
            requires
                r == g * a,
                r != 0,
        ;
        assert(l * a == r * b) by (nonlinear_arith)
            requires
                r == g * a,
                l == g * b,
        ;
        assert(r == a * g && l == b * g) by (nonlinear_arith)
            requires
                r == g * a,
                l == g * b,
        ;
        lemma_divides_multiple(a, g);
        lemma_divides_multiple(b, g);
        lemma_reduced_is_coprime(g, a, b);
    }
    (right, left)
}

} // verus!
