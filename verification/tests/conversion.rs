use hyperstar::conversion::{
    calculate_value, convert_decimal_to_base, convert_number, value_of_whole,
};
use hyperstar::{biguint, biguint_arr, convert_whole_to_base, to_digit_arr};
use num_bigint::BigUint;

#[test]
fn calculate_value_() {
    let digit = biguint(0);
    let place = usize::MAX;
    let base = biguint(u16::MAX as u128);
    assert_eq!(calculate_value(digit, base, place), biguint(0));

    let digit = biguint(9);
    let place = 1;
    let base = biguint(10);
    assert_eq!(calculate_value(digit, base, place), biguint(9));

    let digit = biguint(8);
    let place = 2;
    let base = biguint(10);
    assert_eq!(calculate_value(digit, base, place), biguint(80));
}

#[test]
fn main_to_digit_arr_() {
    let arr = to_digit_arr(biguint(0b1010101), &biguint(2));
    assert_eq!(arr, biguint_arr(&[1, 0, 1, 0, 1, 0, 1]));

    let arr = to_digit_arr(biguint(123456789), &biguint(10));
    assert_eq!(arr, biguint_arr(&[1, 2, 3, 4, 5, 6, 7, 8, 9]));

    let arr = to_digit_arr(biguint(100), &biguint(10));
    assert_eq!(arr, biguint_arr(&[1, 0, 0]));
}

#[test]
fn convert_whole_to_base_() {
    let nums = biguint_arr(&[0, 1, u32::MAX as u128, u8::MAX as u128]);
    for number in nums {
        let binary = to_digit_arr(number.clone(), &biguint(2));
        let decimal = to_digit_arr(number, &biguint(10));
        let converted = convert_whole_to_base(binary, biguint(2), biguint(10));
        assert_eq!(decimal, converted);
    }
}

#[test]
fn calculate_value_at_a_high_place() {
    // 3 at place 5 of base 7 is 3 * 7^4.
    assert_eq!(calculate_value(biguint(3), biguint(7), 5), biguint(3 * 2401));
    // Base to the power of zero is one, also for a base of zero.
    assert_eq!(calculate_value(biguint(5), biguint(0), 1), biguint(5));
}

#[test]
fn value_of_whole_sums_the_places() {
    assert_eq!(value_of_whole(biguint_arr(&[1, 2, 3]), biguint(10)), biguint(123));
    assert_eq!(value_of_whole(biguint_arr(&[1, 0, 0, 0]), biguint(2)), biguint(8));
    assert_eq!(value_of_whole(biguint_arr(&[0, 0, 7]), biguint(10)), biguint(7));
    assert_eq!(value_of_whole(Vec::new(), biguint(10)), biguint(0));
}

#[test]
fn convert_whole_to_base_writes_the_same_value() {
    let hex = convert_whole_to_base(biguint_arr(&[2, 5, 5]), biguint(10), biguint(16));
    assert_eq!(hex, biguint_arr(&[15, 15]));
    let zero = convert_whole_to_base(Vec::new(), biguint(10), biguint(2));
    assert_eq!(zero, biguint_arr(&[0]));
}

#[test]
fn convert_decimal_to_base_carries_digit_by_digit() {
    // 0.3 in base ten is 0.4CCC... in base sixteen.
    let digits = convert_decimal_to_base(biguint_arr(&[3]), biguint(10), biguint(16), 10);
    assert_eq!(digits, biguint_arr(&[4, 12, 12, 12, 12, 12, 12, 12, 12, 12]));
}

#[test]
fn convert_decimal_to_base_ends_where_nothing_is_left() {
    // 0.5 in base ten is 0.1 in base two.
    let digits = convert_decimal_to_base(biguint_arr(&[5]), biguint(10), biguint(2), 10);
    assert_eq!(digits, biguint_arr(&[1]));
    // 0.25 is 0.01 in base two: the first product, 50, still fills both places.
    let digits = convert_decimal_to_base(biguint_arr(&[2, 5]), biguint(10), biguint(2), 10);
    assert_eq!(digits, biguint_arr(&[0, 1]));
}

#[test]
fn convert_decimal_to_base_ends_where_a_product_is_short() {
    // 0.01 times two is 02, which to_digit_arr writes with one digit: the
    // conversion ends there with nothing.
    let digits = convert_decimal_to_base(biguint_arr(&[0, 1]), biguint(10), biguint(2), 10);
    assert_eq!(digits, Vec::<BigUint>::new());
}

#[test]
fn convert_decimal_to_base_respects_the_bound() {
    let none = convert_decimal_to_base(biguint_arr(&[3]), biguint(10), biguint(16), 0);
    assert_eq!(none, Vec::<BigUint>::new());
    let three = convert_decimal_to_base(biguint_arr(&[3]), biguint(10), biguint(16), 3);
    assert_eq!(three, biguint_arr(&[4, 12, 12]));
    let of_nothing = convert_decimal_to_base(Vec::new(), biguint(10), biguint(16), 3);
    assert_eq!(of_nothing, Vec::<BigUint>::new());
}

#[test]
fn convert_number_converts_both_parts() {
    let (whole, decimal) = convert_number(
        biguint_arr(&[0]),
        biguint_arr(&[3]),
        biguint(10),
        biguint(16),
        10,
    );
    assert_eq!(whole, biguint_arr(&[0]));
    assert_eq!(decimal, biguint_arr(&[4, 12, 12, 12, 12, 12, 12, 12, 12, 12]));

    let (whole, decimal) = convert_number(
        biguint_arr(&[1, 6]),
        biguint_arr(&[2, 5]),
        biguint(10),
        biguint(4),
        8,
    );
    assert_eq!(whole, biguint_arr(&[1, 0, 0]));
    assert_eq!(decimal, biguint_arr(&[1]));
}
