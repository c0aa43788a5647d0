//! Base conversion for numbers with arbitrarily many digits.
//!
//! A [`Number`] keeps its whole part as digits of its base and its fractional
//! part as an exact ratio of two naturals, so that converting between bases
//! never loses anything. Digits of the fraction are produced on demand, up to
//! a bound that the caller gives.

pub mod conversion;
pub mod digits;
pub mod expansion;
pub mod literal;
pub mod natural;
pub mod number;
pub mod ratio;

pub use crate::conversion::convert_whole_to_base;
pub use crate::digits::{to_digit_arr, value_of_digits};
pub use crate::number::{Number, NumberError};

use crate::natural::{from_u128, nat_of};
use num::bigint::BigUint;
use vstd::prelude::*;

verus! {

/// Convert a primitive integer to a `BigUint`.
pub fn biguint(value: u128) -> (natural: BigUint)
    ensures
        nat_of(natural) == value,
{
    from_u128(value)
}

/// Create an array of `BigUint`s from primitive integers, one for one.
pub fn biguint_arr(values: &[u128]) -> (naturals: Vec<BigUint>)
    ensures
        naturals@.len() == values@.len(),
        forall|i: int| 0 <= i < values@.len() ==> nat_of(#[trigger] naturals@[i]) == values@[i],
{
    let mut naturals: Vec<BigUint> = Vec::new();
    let mut i: usize = 0;
    while i < values.len()
        invariant
            i <= values@.len(),
            naturals@.len() == i,
            forall|j: int| 0 <= j < i ==> nat_of(#[trigger] naturals@[j]) == values@[j],
        decreases values@.len() - i,
    {
        naturals.push(from_u128(values[i]));
        i += 1;
    }
    naturals
}

} // verus!
