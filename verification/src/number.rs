//! The number type: a sign, the digits of the whole part in a base, and the
//! fractional part as an exact ratio.

use crate::digits::{
    digits_below, digits_value, is_shortest, lemma_digits_round_trip, lemma_digits_shape,
    lemma_pow_nat, lemma_shortest_digits_are_unique, to_digit_arr, to_digits, value_of_digits,
};
use crate::expansion::{
    expand, expansion, lemma_digit_count_grows, lemma_expansion_cut_in_zeros,
    lemma_expansion_digits, lemma_expansion_emits, lemma_expansion_len,
    lemma_expansion_of_digits, lemma_prefix_is_whole, lemma_value_below_power, zeros,
};
use crate::literal::{
    before_first, behind_first, convert, decimal_value, digit_chars, digits_of_text,
    is_digit_char, is_fraction_text, is_literal, literal_parts, read_fraction, read_literal,
};
use crate::natural::{
    copy_of, from_u128, is_zero, less, nat_of, nats_of, parse_decimal, power_of,
    quotient_and_rest,
};
use num::bigint::BigUint;
use vstd::arithmetic::power::pow;
use vstd::prelude::*;
use vstd::slice::slice_subrange;

verus! {

/// Why a number could not be built or converted.
#[derive(Debug, Clone, Copy, PartialEq, Eq, Structural)]
pub enum NumberError {
    /// The base is below two.
    InvalidBase,
    /// A digit is not below the base.
    InvalidDigit,
    /// The text is not a decimal literal.
    InvalidLiteral,
    /// The text is not a fraction below one with a denominator other than zero.
    InvalidFraction,
}

/// What a [`Number`] is, as plain values.
pub struct NumberView {
    /// Whether the number is below zero.
    pub negative: bool,
    /// The digits of the whole part in `base`, most significant first.
    pub whole: Seq<nat>,
    /// The base in which the digits are written.
    pub base: nat,
    /// The fractional part is `numerator / denominator`, whatever the base.
    pub numerator: nat,
    /// See `numerator`.
    pub denominator: nat,
}

impl NumberView {
    /// The base is at least two, every whole digit is below it, and the
    /// fractional part is a ratio below one.
    pub open spec fn wf(self) -> bool {
        &&& self.base >= 2
        &&& digits_below(self.whole, self.base)
        &&& self.numerator < self.denominator
    }

    /// The value of the whole part.
    pub open spec fn whole_value(self) -> nat {
        digits_value(self.whole, self.base)
    }

    /// The same number written in another base: the whole part is written
    /// anew, the fractional part and the sign stay as they are.
    pub open spec fn in_base(self, base: nat) -> NumberView {
        NumberView {
            negative: self.negative,
            whole: to_digits(self.whole_value(), base),
            base: base,
            numerator: self.numerator,
            denominator: self.denominator,
        }
    }

    /// The digits of the fractional part in the number's base, at most
    /// `limit` of them.
    pub open spec fn fraction_digits(self, limit: nat) -> Seq<nat> {
        expansion(self.numerator, self.denominator, self.base, limit)
    }
}

/// Converting to a base and on to another gives what converting to the other
/// at once gives: nothing is lost on the way.
pub proof fn lemma_conversion_composes(number: NumberView, first: nat, second: nat)
    requires
        first >= 2,
    ensures
        number.in_base(first).in_base(second) == number.in_base(second),
{
    lemma_digits_round_trip(number.whole_value(), first);
}

/// Converting keeps what the number is worth: the value of the whole part,
/// the fractional part and the sign. What comes out is well formed.
pub proof fn lemma_conversion_keeps_value(number: NumberView, base: nat)
    requires
        number.wf(),
        base >= 2,
    ensures
        number.in_base(base).wf(),
        number.in_base(base).whole_value() == number.whole_value(),
        number.in_base(base).numerator == number.numerator,
        number.in_base(base).denominator == number.denominator,
        number.in_base(base).negative == number.negative,
{
    lemma_digits_round_trip(number.whole_value(), base);
    lemma_digits_shape(number.whole_value(), base);
}

/// A number whose whole part has no leading zero comes back as it was when
/// it is converted to another base and back to its own.
pub proof fn lemma_conversion_round_trip(number: NumberView, base: nat)
    requires
        number.wf(),
        is_shortest(number.whole, number.base),
        base >= 2,
    ensures
        number.in_base(base).in_base(number.base) == number,
{
    lemma_conversion_composes(number, base, number.base);
    lemma_shortest_digits_are_unique(number.whole, number.base);
}

/// The digits of the fractional part in a base do not depend on the bases
/// that the number went through before.
pub proof fn lemma_fraction_digits_keep(number: NumberView, via: nat, base: nat, limit: nat)
    ensures
        number.in_base(via).in_base(base).fraction_digits(limit) == number.in_base(
            base,
        ).fraction_digits(limit),
{
}

/// A number made from decimal digits without a trailing zero has these digits
/// as the digits of its fractional part, where the limit leaves room for them.
pub proof fn lemma_decimal_digits_come_back(number: NumberView, decimal: Seq<nat>, limit: nat)
    requires
        number.base >= 2,
        digits_below(decimal, number.base),
        decimal.len() > 0 ==> decimal.last() != 0,
        decimal.len() <= limit,
        number.numerator == digits_value(decimal, number.base),
        number.denominator == pow(number.base as int, decimal.len()) as nat,
    ensures
        number.fraction_digits(limit) == decimal,
{
    lemma_expansion_of_digits(decimal, number.base, limit);
}

/// The number that a decimal literal writes: its whole digits in base ten, and
/// its decimal digits as their value over ten to the power of their count.
pub open spec fn literal_number(text: Seq<char>) -> NumberView {
    let parts = literal_parts(text);
    NumberView {
        negative: parts.negative,
        whole: digits_of_text(parts.whole),
        base: 10,
        numerator: decimal_value(parts.decimal),
        denominator: pow(10, parts.decimal.len()) as nat,
    }
}

/// The digits that are given for a whole part; none where none are given.
pub open spec fn given_digits(whole: Option<Vec<BigUint>>) -> Seq<nat> {
    match whole {
        Some(digits) => nats_of(digits@),
        None => Seq::empty(),
    }
}

/// The number in base ten with the given whole digits and the decimal part
/// that a fraction text writes.
pub open spec fn fraction_number(negative: bool, whole: Seq<nat>, text: Seq<char>) -> NumberView {
    NumberView {
        negative: negative,
        whole: whole,
        base: 10,
        numerator: decimal_value(before_first(text, '/')),
        denominator: decimal_value(behind_first(text, '/')->Some_0),
    }
}

/// A number represented as digits associated with a base, with functionality
/// for converting between different bases.
///
/// The "whole" part is what stands before the point and the "decimal" part
/// what stands behind it, in whatever base: for `0b101.111`, `101` is the
/// whole part and `111` the decimal part. The decimal part is kept as an
/// exact ratio, so converting back and forth loses nothing.
#[derive(Debug, PartialEq, Eq)]
pub struct Number {
    whole: Vec<BigUint>,
    left_div: BigUint,
    right_div: BigUint,
    base: BigUint,
    negative: bool,
}

impl View for Number {
    type V = NumberView;

    closed spec fn view(&self) -> NumberView {
        NumberView {
            negative: self.negative,
            whole: nats_of(self.whole@),
            base: nat_of(self.base),
            numerator: nat_of(self.left_div),
            denominator: nat_of(self.right_div),
        }
    }
}

/// Digit characters stand for digits below ten.
pub proof fn lemma_digit_text_below_ten(text: Seq<char>)
    requires
        digit_chars(text),
    ensures
        digits_below(digits_of_text(text), 10),
{
    assert forall|i: int| 0 <= i < text.len() implies digits_of_text(text)[i] < 10 by {
        assert(is_digit_char(text[i]));
    }
}

/// Whether every digit of `digits` is below `base`.
pub fn all_below(digits: &[BigUint], base: &BigUint) -> (below: bool)
    ensures
        below == digits_below(nats_of(digits@), nat_of(*base)),
{
    let mut i: usize = 0;
    while i < digits.len()
        invariant
            i <= digits.len(),
            forall|j: int| 0 <= j < i ==> nat_of(digits@[j]) < nat_of(*base),
        decreases digits.len() - i,
    {
        if !less(&digits[i], base) {
            proof {
                assert(nats_of(digits@)[i as int] == nat_of(digits@[i as int]));
            }
            return false;
        }
        i += 1;
    }
    true
}

impl Number {
    #[verifier::type_invariant]
    spec fn well_formed(&self) -> bool {
        self@.wf()
    }

    /// The digits of the whole part, most significant first.
    pub fn get_whole_part(&self) -> (whole: &[BigUint])
        ensures
            nats_of(whole@) == self@.whole,
            digits_below(self@.whole, self@.base),
    {
        proof {
            use_type_invariant(self);
        }
        self.whole.as_slice()
    }

    /// The base in which the number is written.
    pub fn get_base(&self) -> (base: &BigUint)
        ensures
            nat_of(*base) == self@.base,
            self@.base >= 2,
    {
        proof {
            use_type_invariant(self);
        }
        &self.base
    }

    /// The decimal part as an exact ratio: its numerator and its denominator.
    pub fn get_fraction(&self) -> (fraction: (&BigUint, &BigUint))
        ensures
            nat_of(*fraction.0) == self@.numerator,
            nat_of(*fraction.1) == self@.denominator,
            self@.numerator < self@.denominator,
    {
        proof {
            use_type_invariant(self);
        }
        (&self.left_div, &self.right_div)
    }

    /// Whether the number is below zero.
    pub fn is_negative(&self) -> (negative: bool)
        ensures
            negative == self@.negative,
    {
        self.negative
    }

    /// The digits of the decimal part in the number's base, most significant
    /// first, as far as `precision` allows.
    ///
    /// The digits come out of a long division of the numerator by the
    /// denominator. What is left of the numerator is grown by whole places
    /// until the denominator fits into it; each place of growth but the last
    /// is a zero digit, at the start as well as further on, and the quotient
    /// is the digit after them. Where the division comes out even, the digits
    /// end there; where it does not, they are cut after `precision` digits,
    /// which is no error. A decimal part of zero has no digits.
    pub fn get_lossy_decimal(&self, precision: usize) -> (digits: Vec<BigUint>)
        ensures
            nats_of(digits@) == self@.fraction_digits(precision as nat),
            digits@.len() <= precision,
            digits_below(nats_of(digits@), self@.base),
    {
        proof {
            use_type_invariant(self);
        }
        let ghost b = nat_of(self.base);
        let ghost den = nat_of(self.right_div);
        let ghost goal = expansion(nat_of(self.left_div), den, b, precision as nat);
        proof {
            lemma_expansion_len(nat_of(self.left_div), den, b, precision as nat);
            lemma_expansion_digits(nat_of(self.left_div), den, b, precision as nat);
        }
        let mut digits: Vec<BigUint> = Vec::new();
        if is_zero(&self.left_div) {
            return digits;
        }
        let right = to_digit_arr(copy_of(&self.right_div), &self.base);
        let mut rest = copy_of(&self.left_div);
        proof {
            assert(nats_of(digits@) + goal =~= goal);
        }
        while digits.len() < precision
            invariant
                b == nat_of(self.base),
                den == nat_of(self.right_div),
                b >= 2,
                goal == self@.fraction_digits(precision as nat),
                digits_below(goal, b),
                0 < nat_of(rest) < den,
                nats_of(right@) == to_digits(den, b),
                digits.len() <= precision,
                nats_of(digits@) + expansion(
                    nat_of(rest),
                    den,
                    b,
                    (precision - digits.len()) as nat,
                ) == goal,
            decreases precision - digits.len(),
        {
            let ghost numerator = nat_of(rest);
            let ghost limit = (precision - digits.len()) as nat;
            let ghost before = nats_of(digits@);
            // Align: grow what is left until the denominator fits into it.
            let (left, added) = expand(rest, &self.right_div, &self.base);
            // Each place of growth but the last is a zero digit.
            let mut padded: usize = 1;
            proof {
                assert(added >= 1);
                assert(before + zeros(0) =~= before);
            }
            while padded < added && digits.len() < precision
                invariant
                    1 <= padded <= added,
                    digits.len() <= precision,
                    digits.len() == before.len() + padded - 1,
                    nats_of(digits@) == before + zeros((padded - 1) as nat),
                decreases added - padded,
            {
                let ghost so_far = nats_of(digits@);
                digits.push(from_u128(0));
                proof {
                    assert(nats_of(digits@) =~= so_far.push(0nat));
                    assert(so_far.push(0nat) =~= before + zeros(padded as nat));
                }
                padded += 1;
            }
            if digits.len() >= precision {
                proof {
                    lemma_expansion_cut_in_zeros(numerator, den, b, limit);
                    assert(padded - 1 == limit);
                }
                return digits;
            }
            proof {
                lemma_expansion_emits(numerator, den, b, limit, added as nat);
                lemma_digit_count_grows(den, nats_of(left@), b);
            }
            // Take the shortest prefix that the denominator fits into.
            let mut to_take: usize = right.len();
            let mut chunk = value_of_digits(
                slice_subrange(left.as_slice(), 0, to_take),
                &self.base,
            );
            proof {
                assert(nats_of(left@.subrange(0, to_take as int)) =~= nats_of(left@).take(
                    to_take as int,
                ));
            }
            while less(&chunk, &self.right_div)
                invariant
                    b == nat_of(self.base),
                    den == nat_of(self.right_div),
                    to_take <= left.len(),
                    digits_value(nats_of(left@), b) >= den,
                    nat_of(chunk) == digits_value(nats_of(left@).take(to_take as int), b),
                decreases left.len() - to_take,
            {
                proof {
                    assert(nats_of(left@).take(left.len() as int) =~= nats_of(left@));
                }
                to_take += 1;
                chunk = value_of_digits(slice_subrange(left.as_slice(), 0, to_take), &self.base);
                proof {
                    assert(nats_of(left@.subrange(0, to_take as int)) =~= nats_of(left@).take(
                        to_take as int,
                    ));
                }
            }
            proof {
                lemma_prefix_is_whole(numerator, den, b, added as nat, to_take as int);
            }
            let (digit, remainder) = quotient_and_rest(&chunk, &self.right_div);
            let ghost so_far = nats_of(digits@);
            digits.push(digit);
            proof {
                assert(nats_of(digits@) =~= so_far.push(nat_of(digit)));
                assert(so_far.push(nat_of(digit)) =~= before + zeros((added - 1) as nat).push(
                    nat_of(digit),
                ));
                assert((before + zeros((added - 1) as nat).push(nat_of(digit))) + expansion(
                    nat_of(remainder),
                    den,
                    b,
                    (limit - added) as nat,
                ) =~= before + (zeros((added - 1) as nat).push(nat_of(digit)) + expansion(
                    nat_of(remainder),
                    den,
                    b,
                    (limit - added) as nat,
                )));
            }
            if is_zero(&remainder) {
                proof {
                    assert(nats_of(digits@) + Seq::<nat>::empty() =~= nats_of(digits@));
                }
                return digits;
            }
            rest = remainder;
        }
        proof {
            assert(nats_of(digits@) + Seq::<nat>::empty() =~= nats_of(digits@));
        }
        digits
    }

    /// Convert `self` to `base`. The whole part is converted exactly; the
    /// decimal part is carried over as the ratio it is, so nothing is lost
    /// however often a number is converted.
    ///
    /// Fails with `InvalidBase` where `base` is below two.
    pub fn to_base(&self, base: BigUint) -> (converted: Result<Number, NumberError>)
        ensures
            nat_of(base) < 2 ==> converted == Err::<Number, NumberError>(NumberError::InvalidBase),
            nat_of(base) >= 2 ==> converted is Ok && converted->Ok_0@ == self@.in_base(
                nat_of(base),
            ) && converted->Ok_0@.wf(),
    {
        proof {
            use_type_invariant(self);
        }
        if less(&base, &from_u128(2)) {
            return Err(NumberError::InvalidBase);
        }
        let whole_value = value_of_digits(self.whole.as_slice(), &self.base);
        let whole = to_digit_arr(whole_value, &base);
        Ok(
            Number {
                whole,
                left_div: copy_of(&self.left_div),
                right_div: copy_of(&self.right_div),
                base,
                negative: self.negative,
            },
        )
    }

    /// Construct a number from a readable text, written in base ten: an
    /// optional `-`, the whole digits, and optionally a point and the decimal
    /// digits. The decimal part is kept exactly.
    ///
    /// Fails with `InvalidLiteral` where `value` is not of that form.
    pub fn new(value: &str) -> (made: Result<Number, NumberError>)
        ensures
            !is_literal(value@) ==> made == Err::<Number, NumberError>(NumberError::InvalidLiteral),
            is_literal(value@) ==> made is Ok && made->Ok_0@ == literal_number(value@)
                && made->Ok_0@.wf(),
    {
        broadcast use vstd::string::is_ascii_spec_bytes;

        let (negative, whole, decimal) = match read_literal(value) {
            Some(parts) => parts,
            None => {
                return Err(NumberError::InvalidLiteral);
            },
        };
        let whole = convert(whole);
        let base = from_u128(10);
        let right_div = power_of(&base, decimal.as_bytes().len());
        let left_div = match parse_decimal(decimal) {
            Ok(value) => value,
            Err(_) => {
                return Err(NumberError::InvalidLiteral);
            },
        };
        proof {
            lemma_digit_text_below_ten(decimal@);
            lemma_digit_text_below_ten(literal_parts(value@).whole);
            lemma_value_below_power(digits_of_text(decimal@), 10);
            lemma_pow_nat(10, decimal@.len());
        }
        Ok(Number { base, whole, right_div, left_div, negative })
    }

    /// Construct a number in base ten from the digits of its whole part and
    /// its decimal part written as a fraction, such as `1/3`.
    ///
    /// Fails with `InvalidLiteral` where `s` is not digits, `/`, digits; with
    /// `InvalidDigit` where a whole digit is not below ten; and with
    /// `InvalidFraction` where the fraction is not below one, which holds
    /// also of a denominator of zero.
    pub fn new_from_frac(negative: bool, whole: Option<Vec<BigUint>>, s: &str) -> (made: Result<
        Number,
        NumberError,
    >)
        ensures
            !is_fraction_text(s@) ==> made == Err::<Number, NumberError>(
                NumberError::InvalidLiteral,
            ),
            is_fraction_text(s@) && !digits_below(given_digits(whole), 10) ==> made == Err::<
                Number,
                NumberError,
            >(NumberError::InvalidDigit),
            is_fraction_text(s@) && digits_below(given_digits(whole), 10) && !fraction_number(
                negative,
                given_digits(whole),
                s@,
            ).wf() ==> made == Err::<Number, NumberError>(NumberError::InvalidFraction),
            is_fraction_text(s@) && fraction_number(negative, given_digits(whole), s@).wf()
                ==> made is Ok && made->Ok_0@ == fraction_number(negative, given_digits(whole), s@),
    {
        let (left, right) = match read_fraction(s) {
            Some(parts) => parts,
            None => {
                return Err(NumberError::InvalidLiteral);
            },
        };
        let ghost given = given_digits(whole);
        let whole = match whole {
            Some(digits) => digits,
            None => Vec::new(),
        };
        assert(nats_of(whole@) =~= given);
        let base = from_u128(10);
        if !all_below(whole.as_slice(), &base) {
            return Err(NumberError::InvalidDigit);
        }
        let left_div = value_of_digits(convert(left).as_slice(), &base);
        let right_div = value_of_digits(convert(right).as_slice(), &base);
        if !less(&left_div, &right_div) {
            return Err(NumberError::InvalidFraction);
        }
        Ok(Number { base, whole, right_div, left_div, negative })
    }

    /// Construct a number from digit arrays, most significant digit first.
    ///
    /// Fails with `InvalidBase` where `base` is below two, and with
    /// `InvalidDigit` where a digit of either array is not below `base`.
    pub fn from(whole: Vec<BigUint>, decimal: Vec<BigUint>, base: BigUint, negative: bool) -> (made:
        Result<Number, NumberError>)
        ensures
            nat_of(base) < 2 ==> made == Err::<Number, NumberError>(NumberError::InvalidBase),
            nat_of(base) >= 2 && !(digits_below(nats_of(whole@), nat_of(base)) && digits_below(
                nats_of(decimal@),
                nat_of(base),
            )) ==> made == Err::<Number, NumberError>(NumberError::InvalidDigit),
            nat_of(base) >= 2 && digits_below(nats_of(whole@), nat_of(base)) && digits_below(
                nats_of(decimal@),
                nat_of(base),
            ) ==> made is Ok && made->Ok_0@.wf() && made->Ok_0@ == (NumberView {
                negative: negative,
                whole: nats_of(whole@),
                base: nat_of(base),
                numerator: digits_value(nats_of(decimal@), nat_of(base)),
                denominator: pow(nat_of(base) as int, decimal@.len()) as nat,
            }),
    {
        if less(&base, &from_u128(2)) {
            return Err(NumberError::InvalidBase);
        }
        if !all_below(whole.as_slice(), &base) || !all_below(decimal.as_slice(), &base) {
            return Err(NumberError::InvalidDigit);
        }
        let right_div = power_of(&base, decimal.len());
        let left_div = value_of_digits(decimal.as_slice(), &base);
        proof {
            lemma_value_below_power(nats_of(decimal@), nat_of(base));
            lemma_pow_nat(nat_of(base), decimal@.len());
        }
        Ok(Number { whole, left_div, right_div, base, negative })
    }
}

} // verus!
