//! Decimal literals: what a text has to look like to be read as a number, and
//! the pieces that the reading takes it apart into.
//!
//! A literal is an optional `-`, digits, and optionally a point followed by
//! at least one digit: `1234.42`, `-0.5`, `.5`, `7`. Nothing else is one.

use crate::digits::digits_value;
use crate::natural::{from_u128, nat_of, nats_of};
use num::bigint::BigUint;
use vstd::prelude::*;
use vstd::string::*;
use vstd::utf8::is_ascii_chars;

verus! {

/// One of the ten decimal digits.
pub open spec fn is_digit_char(c: char) -> bool {
    '0' <= c <= '9'
}

/// Every character is a decimal digit.
pub open spec fn digit_chars(text: Seq<char>) -> bool {
    forall|i: int| 0 <= i < text.len() ==> is_digit_char(#[trigger] text[i])
}

/// The number that a digit character stands for.
pub open spec fn digit_of(c: char) -> nat {
    (c as int - '0' as int) as nat
}

/// The digits that a text of digit characters stands for, one for one.
pub open spec fn digits_of_text(text: Seq<char>) -> Seq<nat> {
    Seq::new(text.len(), |i: int| digit_of(text[i]))
}

/// The number that a text of digit characters writes in base ten.
pub open spec fn decimal_value(text: Seq<char>) -> nat {
    digits_value(digits_of_text(text), 10)
}

/// The place of the first `mark` in `text`, or the length of `text` where it
/// holds none.
pub open spec fn first_index_of(text: Seq<char>, mark: char) -> int
    decreases text.len(),
{
    if text.len() == 0 || text[0] == mark {
        0
    } else {
        1 + first_index_of(text.skip(1), mark)
    }
}

/// What stands before the first `mark`.
pub open spec fn before_first(text: Seq<char>, mark: char) -> Seq<char> {
    text.take(first_index_of(text, mark))
}

/// What stands behind the first `mark`, where there is one.
pub open spec fn behind_first(text: Seq<char>, mark: char) -> Option<Seq<char>> {
    if first_index_of(text, mark) < text.len() {
        Some(text.skip(first_index_of(text, mark) + 1))
    } else {
        None
    }
}

/// The first place of a mark is the one place that holds the mark, or ends
/// the text, with no mark before it.
pub proof fn lemma_first_index_of(text: Seq<char>, mark: char, place: int)
    requires
        0 <= place <= text.len(),
        forall|i: int| 0 <= i < place ==> text[i] != mark,
        place < text.len() ==> text[place] == mark,
    ensures
        first_index_of(text, mark) == place,
    decreases place,
{
    if place > 0 {
        let rest = text.skip(1);
        assert forall|i: int| 0 <= i < place - 1 implies rest[i] != mark by {
            assert(rest[i] == text[i + 1]);
        }
        lemma_first_index_of(rest, mark, place - 1);
    }
}

/// The first place of a mark lies within the text or at its end, no mark
/// stands before it, and the mark stands at it where it lies within.
pub proof fn lemma_first_index_bounds(text: Seq<char>, mark: char)
    ensures
        0 <= first_index_of(text, mark) <= text.len(),
        forall|i: int| 0 <= i < first_index_of(text, mark) ==> text[i] != mark,
        first_index_of(text, mark) < text.len() ==> text[first_index_of(text, mark)] == mark,
    decreases text.len(),
{
    if text.len() > 0 && text[0] != mark {
        let rest = text.skip(1);
        lemma_first_index_bounds(rest, mark);
        assert forall|i: int| 0 <= i < first_index_of(text, mark) implies text[i] != mark by {
            if i > 0 {
                assert(text[i] == rest[i - 1]);
            }
        }
        if first_index_of(text, mark) < text.len() {
            assert(text[first_index_of(text, mark)] == rest[first_index_of(rest, mark)]);
        }
    }
}

/// A text is plain ASCII where what stands before the first mark is, the mark
/// is, and what stands behind the mark is.
pub proof fn lemma_ascii_from_parts(text: Seq<char>, mark: char)
    requires
        mark <= '\u{7f}',
        is_ascii_chars(before_first(text, mark)),
        behind_first(text, mark) is Some ==> is_ascii_chars(behind_first(text, mark)->Some_0),
    ensures
        is_ascii_chars(text),
{
    lemma_first_index_bounds(text, mark);
    let place = first_index_of(text, mark);
    assert forall|i: int| 0 <= i < text.len() implies '\0' <= #[trigger] text[i] <= '\u{7f}' by {
        if i < place {
            assert(text[i] == before_first(text, mark)[i]);
        } else if i > place {
            assert(text[i] == behind_first(text, mark)->Some_0[i - place - 1]);
        }
    }
}

/// The pieces of a decimal literal.
pub struct LiteralParts {
    /// Whether the text starts with `-`.
    pub negative: bool,
    /// The digits before the point; `0` where there are none.
    pub whole: Seq<char>,
    /// The digits behind the point; `0` where there is no point.
    pub decimal: Seq<char>,
}

/// Take a text apart as a decimal literal: split it at the first point, take
/// a leading `-` off what stands before it, and read a missing whole part and
/// a missing decimal part as `0`.
pub open spec fn literal_parts(text: Seq<char>) -> LiteralParts {
    let front = before_first(text, '.');
    let negative = front.len() > 0 && front[0] == '-';
    let unsigned = if negative {
        front.skip(1)
    } else {
        front
    };
    LiteralParts {
        negative,
        whole: if unsigned.len() == 0 {
            seq!['0']
        } else {
            unsigned
        },
        decimal: match behind_first(text, '.') {
            Some(behind) => behind,
            None => seq!['0'],
        },
    }
}

/// Whether a text is a decimal literal: both parts are digits, and a point is
/// followed by at least one.
pub open spec fn is_literal(text: Seq<char>) -> bool {
    let parts = literal_parts(text);
    digit_chars(parts.whole) && parts.decimal.len() > 0 && digit_chars(parts.decimal)
}

/// Whether a text is a fraction: digits, `/`, digits. Either side may be
/// empty and then stands for zero.
pub open spec fn is_fraction_text(text: Seq<char>) -> bool {
    &&& behind_first(text, '/') is Some
    &&& digit_chars(before_first(text, '/'))
    &&& digit_chars(behind_first(text, '/')->Some_0)
}

/// A decimal literal is plain ASCII.
pub proof fn lemma_literal_is_ascii(text: Seq<char>)
    requires
        is_literal(text),
    ensures
        is_ascii_chars(text),
{
    let front = before_first(text, '.');
    let parts = literal_parts(text);
    assert forall|i: int| 0 <= i < front.len() implies '\0' <= #[trigger] front[i] <= '\u{7f}' by {
        if parts.negative {
            if i > 0 {
                assert(front[i] == front.skip(1)[i - 1]);
                assert(is_digit_char(parts.whole[i - 1]));
            }
        } else {
            assert(is_digit_char(parts.whole[i]));
        }
    }
    if behind_first(text, '.') is Some {
        let behind = behind_first(text, '.')->Some_0;
        assert forall|i: int| 0 <= i < behind.len() implies '\0' <= #[trigger] behind[i]
            <= '\u{7f}' by {
            assert(is_digit_char(parts.decimal[i]));
        }
    }
    lemma_ascii_from_parts(text, '.');
}

/// A fraction text is plain ASCII.
pub proof fn lemma_fraction_text_is_ascii(text: Seq<char>)
    requires
        is_fraction_text(text),
    ensures
        is_ascii_chars(text),
{
    let front = before_first(text, '/');
    let behind = behind_first(text, '/')->Some_0;
    assert forall|i: int| 0 <= i < front.len() implies '\0' <= #[trigger] front[i] <= '\u{7f}' by {
        assert(is_digit_char(front[i]));
    }
    assert forall|i: int| 0 <= i < behind.len() implies '\0' <= #[trigger] behind[i] <= '\u{7f}' by {
        assert(is_digit_char(behind[i]));
    }
    lemma_ascii_from_parts(text, '/');
}

/// Split `text` at the first `mark`: what stands before it, and what stands
/// behind it where the text holds the mark at all.
pub(crate) fn split_at_first<'a>(text: &'a str, mark: u8) -> (parts: (&'a str, Option<&'a str>))
    requires
        text.is_ascii(),
        mark <= 127,
    ensures
        parts.0@ == before_first(text@, mark as char),
        parts.0.is_ascii(),
        parts.1 is Some <==> behind_first(text@, mark as char) is Some,
        parts.1 is Some ==> parts.1->Some_0@ == behind_first(text@, mark as char)->Some_0
            && parts.1->Some_0.is_ascii(),
{
    broadcast use is_ascii_spec_bytes;

    let bytes = text.as_bytes();
    let length = bytes.len();
    let mut place: usize = 0;
    while place < length && bytes[place] != mark
        invariant
            text.is_ascii(),
            mark <= 127,
            bytes@ == text.spec_bytes(),
            length == text@.len(),
            place <= length,
            forall|i: int| 0 <= i < place ==> text@[i] != mark as char,
        decreases length - place,
    {
        place += 1;
    }
    proof {
        lemma_first_index_of(text@, mark as char, place as int);
        assert(text@.take(place as int) =~= text@.subrange(0, place as int));
    }
    let front = text.substring_ascii(0, place);
    if place < length {
        proof {
            assert(text@.skip(place + 1) =~= text@.subrange(place + 1, length as int));
        }
        (front, Some(text.substring_ascii(place + 1, length)))
    } else {
        (front, None)
    }
}

/// Whether `text` is made of decimal digits only.
pub(crate) fn is_digit_text(text: &str) -> (digits: bool)
    requires
        text.is_ascii(),
    ensures
        digits == digit_chars(text@),
{
    broadcast use is_ascii_spec_bytes;

    let bytes = text.as_bytes();
    let length = bytes.len();
    let mut i: usize = 0;
    while i < length
        invariant
            text.is_ascii(),
            bytes@ == text.spec_bytes(),
            length == text@.len(),
            i <= length,
            forall|j: int| 0 <= j < i ==> is_digit_char(#[trigger] text@[j]),
        decreases length - i,
    {
        let byte = bytes[i];
        if byte < 48 || byte > 57 {
            assert(!is_digit_char(text@[i as int]));
            return false;
        }
        i += 1;
    }
    true
}

/// Convert a text of decimal digits to the digits it holds.
pub(crate) fn convert(text: &str) -> (digits: Vec<BigUint>)
    requires
        text.is_ascii(),
        digit_chars(text@),
    ensures
        nats_of(digits@) == digits_of_text(text@),
{
    broadcast use is_ascii_spec_bytes;

    let bytes = text.as_bytes();
    let length = bytes.len();
    let mut digits: Vec<BigUint> = Vec::new();
    let mut i: usize = 0;
    while i < length
        invariant
            text.is_ascii(),
            digit_chars(text@),
            bytes@ == text.spec_bytes(),
            length == text@.len(),
            i <= length,
            digits@.len() == i,
            forall|j: int| 0 <= j < i ==> nat_of(#[trigger] digits@[j]) == digit_of(text@[j]),
        decreases length - i,
    {
        let byte = bytes[i];
        assert(is_digit_char(text@[i as int]));
        let digit: u8 = byte - 48;
        digits.push(from_u128(digit as u128));
        i += 1;
    }
    assert(nats_of(digits@) =~= digits_of_text(text@));
    digits
}

/// Take `value` apart as a decimal literal: whether it is negative, the
/// digits of its whole part and the digits of its decimal part. `None` where
/// `value` is no literal.
pub fn read_literal<'a>(value: &'a str) -> (parts: Option<(bool, &'a str, &'a str)>)
    ensures
        parts is Some <==> is_literal(value@),
        parts is Some ==> {
            let (negative, whole, decimal) = parts->Some_0;
            &&& negative == literal_parts(value@).negative
            &&& whole@ == literal_parts(value@).whole
            &&& decimal@ == literal_parts(value@).decimal
            &&& whole.is_ascii()
            &&& decimal.is_ascii()
        },
{
    broadcast use is_ascii_spec_bytes;

    if !value.is_ascii() {
        proof {
            if is_literal(value@) {
                lemma_literal_is_ascii(value@);
            }
        }
        return None;
    }
    proof {
        reveal_strlit("0");
        assert("0"@ =~= seq!['0']);
    }
    let (front, behind) = split_at_first(value, 46);
    let decimal = match behind {
        Some(text) => text,
        None => "0",
    };
    let front_bytes = front.as_bytes();
    let negative = front_bytes.len() > 0 && front_bytes[0] == 45;
    let unsigned = if negative {
        proof {
            assert(front@.skip(1) =~= front@.subrange(1, front@.len() as int));
        }
        front.substring_ascii(1, front_bytes.len())
    } else {
        front
    };
    let whole = if unsigned.as_bytes().len() == 0 {
        "0"
    } else {
        unsigned
    };
    if decimal.as_bytes().len() == 0 || !is_digit_text(whole) || !is_digit_text(decimal) {
        return None;
    }
    Some((negative, whole, decimal))
}

/// Take `text` apart as a fraction: the digits before the `/` and the digits
/// behind it. `None` where `text` is no fraction.
pub fn read_fraction<'a>(text: &'a str) -> (parts: Option<(&'a str, &'a str)>)
    ensures
        parts is Some <==> is_fraction_text(text@),
        parts is Some ==> {
            let (left, right) = parts->Some_0;
            &&& left@ == before_first(text@, '/')
            &&& right@ == behind_first(text@, '/')->Some_0
            &&& left.is_ascii()
            &&& right.is_ascii()
            &&& digit_chars(left@)
            &&& digit_chars(right@)
        },
{
    if !text.is_ascii() {
        proof {
            if is_fraction_text(text@) {
                lemma_fraction_text_is_ascii(text@);
            }
        }
        return None;
    }
    let (left, behind) = split_at_first(text, 47);
    match behind {
        Some(right) => {
            if is_digit_text(left) && is_digit_text(right) {
                Some((left, right))
            } else {
                None
            }
        },
        None => None,
    }
}

} // verus!
