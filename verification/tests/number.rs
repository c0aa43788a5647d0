use hyperstar::{biguint, biguint_arr, Number, NumberError};
use num_bigint::BigUint;

fn repeated(text: &str, times: usize) -> String {
    let mut all = String::new();
    for _ in 0..times {
        all.push_str(text);
    }
    all
}

#[test]
fn base5() {
    let a = Number::new("0.28").unwrap().to_base(biguint(5)).unwrap();
    assert_eq!(a.get_lossy_decimal(10), biguint_arr(&[1, 2]));
}

#[test]
fn yoooooo() {
    let a = Number::from(biguint_arr(&[0]), biguint_arr(&[1, 0, 1]), biguint(2), false).unwrap();
    assert_eq!(a.get_lossy_decimal(100), biguint_arr(&[1, 0, 1]));
}

#[test]
fn repeating() {
    let a = Number::new("1.3").unwrap().to_base(biguint(11)).unwrap();
    let a = a.to_base(biguint(10)).unwrap();
    assert_eq!(a.get_lossy_decimal(10), biguint_arr(&[3]));
}

#[test]
fn normal() {
    let a = Number::new("0.5").unwrap().to_base(biguint(2)).unwrap();
    assert_eq!(a.get_lossy_decimal(10), biguint_arr(&[1]));
}

#[test]
fn yooo() {
    let a = Number::new("0.2").unwrap().to_base(biguint(5)).unwrap();
    assert_eq!(a.get_lossy_decimal(10), biguint_arr(&[1]));
}

#[test]
fn limits() {
    let mut x = String::new();

    x.push_str(&repeated("69420", 100));
    x.push('.');
    x.push_str(&repeated("69420", 100));

    let a = Number::new(&x).unwrap();
    let x = a.to_base(biguint(u16::MAX as u128)).unwrap();
    let y = x.to_base(biguint(10)).unwrap();
    assert_eq!(a.to_base(biguint(10)).unwrap(), y);
}

#[test]
fn test1() {
    let x = Number::new("0.1").unwrap().to_base(biguint(2)).unwrap();

    let x = x.to_base(biguint(10)).unwrap();
    assert_eq!(x.get_lossy_decimal(10), biguint_arr(&[1]));
}

#[test]
fn new_reads_whole_and_decimal_digits() {
    let x = Number::new("1234.42").unwrap();
    assert_eq!(x.get_base(), &biguint(10));
    assert_eq!(x.get_whole_part(), biguint_arr(&[1, 2, 3, 4]));
    assert_eq!(x.get_lossy_decimal(100), biguint_arr(&[4, 2]));
    assert!(!x.is_negative());
    let (numerator, denominator) = x.get_fraction();
    assert_eq!(numerator, &biguint(42));
    assert_eq!(denominator, &biguint(100));
}

#[test]
fn new_reads_a_sign() {
    let x = Number::new("-12.5").unwrap();
    assert!(x.is_negative());
    assert_eq!(x.get_whole_part(), biguint_arr(&[1, 2]));
    assert_eq!(x.get_lossy_decimal(10), biguint_arr(&[5]));
}

#[test]
fn new_reads_a_missing_whole_part_as_zero() {
    let x = Number::new(".5").unwrap();
    assert_eq!(x.get_whole_part(), biguint_arr(&[0]));
    assert_eq!(x.get_lossy_decimal(10), biguint_arr(&[5]));

    let x = Number::new("-.25").unwrap();
    assert!(x.is_negative());
    assert_eq!(x.get_whole_part(), biguint_arr(&[0]));
    assert_eq!(x.get_lossy_decimal(10), biguint_arr(&[2, 5]));

    let x = Number::new("").unwrap();
    assert!(!x.is_negative());
    assert_eq!(x.get_whole_part(), biguint_arr(&[0]));
    assert_eq!(x.get_lossy_decimal(10), Vec::<BigUint>::new());

    let x = Number::new("-").unwrap();
    assert!(x.is_negative());
    assert_eq!(x.get_whole_part(), biguint_arr(&[0]));
}

#[test]
fn new_reads_a_missing_decimal_part_as_zero_over_ten() {
    let x = Number::new("7").unwrap();
    assert_eq!(x.get_whole_part(), biguint_arr(&[7]));
    let (numerator, denominator) = x.get_fraction();
    assert_eq!(numerator, &biguint(0));
    assert_eq!(denominator, &biguint(10));
    assert_eq!(x.get_lossy_decimal(10), Vec::<BigUint>::new());
}

#[test]
fn new_keeps_the_digits_as_written() {
    let x = Number::new("007.500").unwrap();
    assert_eq!(x.get_whole_part(), biguint_arr(&[0, 0, 7]));
    let (numerator, denominator) = x.get_fraction();
    assert_eq!(numerator, &biguint(500));
    assert_eq!(denominator, &biguint(1000));
    assert_eq!(x.get_lossy_decimal(10), biguint_arr(&[5]));
}

#[test]
fn new_refuses_what_is_no_literal() {
    for text in [
        "abc", "1.", "-1.", ".", "1.2.3", "+5", "1,5", "1 ", " 1", "--1", "1-", "0x10", "1e5",
        "1_000", "1.5_0", "1.-5", "\u{e9}", "1.\u{662}", "\u{ff11}",
    ] {
        assert_eq!(Number::new(text).err(), Some(NumberError::InvalidLiteral), "{:?}", text);
    }
}

#[test]
fn from_keeps_what_it_is_given() {
    let whole = biguint_arr(&[0]);
    let decimal = biguint_arr(&[1, 0, 1]);
    let base = biguint(2);

    let x = Number::from(whole.clone(), decimal.clone(), base.clone(), false).unwrap();

    assert_eq!(x.get_base(), &base);
    assert_eq!(x.get_whole_part(), &whole);
    assert_eq!(x.get_lossy_decimal(100), decimal);
    let (numerator, denominator) = x.get_fraction();
    assert_eq!(numerator, &biguint(5));
    assert_eq!(denominator, &biguint(8));
}

#[test]
fn from_keeps_the_sign() {
    let x = Number::from(biguint_arr(&[7]), Vec::new(), biguint(8), true).unwrap();
    assert!(x.is_negative());
    let y = x.to_base(biguint(2)).unwrap();
    assert!(y.is_negative());
    assert_eq!(y.get_whole_part(), biguint_arr(&[1, 1, 1]));
}

#[test]
fn from_without_decimal_digits_has_a_fraction_of_zero_over_one() {
    let x = Number::from(biguint_arr(&[1]), Vec::new(), biguint(2), false).unwrap();
    let (numerator, denominator) = x.get_fraction();
    assert_eq!(numerator, &biguint(0));
    assert_eq!(denominator, &biguint(1));
    assert_eq!(x.get_lossy_decimal(5), Vec::<BigUint>::new());
}

#[test]
fn from_refuses_a_base_below_two() {
    for base in [0u128, 1] {
        let made = Number::from(biguint_arr(&[0]), Vec::new(), biguint(base), false);
        assert_eq!(made.err(), Some(NumberError::InvalidBase));
    }
    // The base is looked at before the digits.
    let made = Number::from(biguint_arr(&[5]), Vec::new(), biguint(1), false);
    assert_eq!(made.err(), Some(NumberError::InvalidBase));
}

#[test]
fn from_refuses_a_digit_that_is_not_below_the_base() {
    let made = Number::from(biguint_arr(&[2]), Vec::new(), biguint(2), false);
    assert_eq!(made.err(), Some(NumberError::InvalidDigit));

    let made = Number::from(biguint_arr(&[1]), biguint_arr(&[0, 2]), biguint(2), false);
    assert_eq!(made.err(), Some(NumberError::InvalidDigit));

    let made = Number::from(biguint_arr(&[1, 0, 11]), Vec::new(), biguint(10), false);
    assert_eq!(made.err(), Some(NumberError::InvalidDigit));

    let made = Number::from(biguint_arr(&[1]), Vec::new(), biguint(2), false);
    assert!(made.is_ok());
}

#[test]
fn to_base_refuses_a_base_below_two() {
    let x = Number::new("12.5").unwrap();
    assert_eq!(x.to_base(biguint(0)).err(), Some(NumberError::InvalidBase));
    assert_eq!(x.to_base(biguint(1)).err(), Some(NumberError::InvalidBase));
    assert!(x.to_base(biguint(2)).is_ok());
    assert!(x.to_base(biguint(3)).is_ok());
    assert!(x.to_base(biguint(u128::MAX)).is_ok());
}

#[test]
fn to_base_converts_the_whole_part() {
    let x = Number::new("16.25").unwrap().to_base(biguint(4)).unwrap();
    assert_eq!(x.get_base(), &biguint(4));
    assert_eq!(x.get_whole_part(), biguint_arr(&[1, 0, 0]));
    assert_eq!(x.get_lossy_decimal(100), biguint_arr(&[1]));
}

#[test]
fn to_base_carries_the_fraction_unchanged() {
    let a = Number::new("3.14159").unwrap();
    let b = a.to_base(biguint(7)).unwrap().to_base(biguint(60)).unwrap();
    assert_eq!(a.get_fraction(), b.get_fraction());
    // The source is as it was.
    assert_eq!(a.get_base(), &biguint(10));
    assert_eq!(a.get_whole_part(), biguint_arr(&[3]));
}

#[test]
fn to_base_of_no_whole_digits_is_zero() {
    let x = Number::from(Vec::new(), biguint_arr(&[1]), biguint(2), false).unwrap();
    assert_eq!(x.get_whole_part(), Vec::<BigUint>::new());
    let y = x.to_base(biguint(10)).unwrap();
    assert_eq!(y.get_whole_part(), biguint_arr(&[0]));
}

#[test]
fn round_trip_through_base_sixteen_is_exact() {
    let x = Number::new("1234.42").unwrap();
    let hex = x.to_base(biguint(16)).unwrap();
    assert_eq!(hex.get_whole_part(), biguint_arr(&[4, 13, 2]));
    let back = hex.to_base(biguint(10)).unwrap();
    assert_eq!(back.get_whole_part(), biguint_arr(&[1, 2, 3, 4]));
    assert_eq!(back.get_lossy_decimal(100), biguint_arr(&[4, 2]));
    assert_eq!(back, x);
}

#[test]
fn a_half_ends_after_one_binary_digit() {
    let half = Number::new("0.5").unwrap().to_base(biguint(2)).unwrap();
    assert_eq!(half.get_lossy_decimal(500), biguint_arr(&[1]));
    assert_eq!(half.get_lossy_decimal(1), biguint_arr(&[1]));
}

#[test]
fn three_tenths_stay_three_tenths() {
    let x = Number::new("1.3").unwrap();
    for base in [2u128, 3, 11, 16, 65535] {
        let there = x.to_base(biguint(base)).unwrap();
        let back = there.to_base(biguint(10)).unwrap();
        assert_eq!(back.get_lossy_decimal(10), biguint_arr(&[3]));
        let again = back.to_base(biguint(base)).unwrap().to_base(biguint(10)).unwrap();
        assert_eq!(again.get_lossy_decimal(10), biguint_arr(&[3]));
    }
}

#[test]
fn get_lossy_decimal_never_exceeds_the_precision() {
    let third = Number::new_from_frac(false, None, "1/3").unwrap();
    for precision in [0usize, 1, 2, 10, 57] {
        let digits = third.get_lossy_decimal(precision);
        assert_eq!(digits.len(), precision);
        assert!(digits.iter().all(|digit| digit == &biguint(3)));
    }
    let seventh = Number::new_from_frac(false, None, "1/7").unwrap().to_base(biguint(2)).unwrap();
    assert_eq!(seventh.get_lossy_decimal(7), biguint_arr(&[0, 0, 1, 0, 0, 1, 0]));
}

#[test]
fn get_lossy_decimal_with_no_precision_is_empty() {
    for text in ["0.5", "0.05", "1.3", "7"] {
        let x = Number::new(text).unwrap();
        assert_eq!(x.get_lossy_decimal(0), Vec::<BigUint>::new());
    }
}

#[test]
fn get_lossy_decimal_of_a_zero_fraction_is_empty() {
    for text in ["5", "5.0", "5.000", "0", ""] {
        let x = Number::new(text).unwrap();
        assert_eq!(x.get_lossy_decimal(10), Vec::<BigUint>::new());
        let y = x.to_base(biguint(43)).unwrap();
        assert_eq!(y.get_lossy_decimal(10), Vec::<BigUint>::new());
    }
}

#[test]
fn get_lossy_decimal_keeps_leading_zeros() {
    let x = Number::new("0.05").unwrap();
    assert_eq!(x.get_lossy_decimal(10), biguint_arr(&[0, 5]));
    let x = Number::new("0.0001").unwrap();
    assert_eq!(x.get_lossy_decimal(10), biguint_arr(&[0, 0, 0, 1]));
    let x = Number::from(biguint_arr(&[0]), biguint_arr(&[0, 1]), biguint(2), false).unwrap();
    assert_eq!(x.get_lossy_decimal(10), biguint_arr(&[0, 1]));
}

#[test]
fn get_lossy_decimal_keeps_zeros_between_digits() {
    let x = Number::new("0.1001").unwrap();
    assert_eq!(x.get_lossy_decimal(10), biguint_arr(&[1, 0, 0, 1]));
    let x = Number::new("0.50005").unwrap();
    assert_eq!(x.get_lossy_decimal(10), biguint_arr(&[5, 0, 0, 0, 5]));
}

#[test]
fn get_lossy_decimal_drops_trailing_zeros() {
    let x = Number::new("0.2500").unwrap();
    assert_eq!(x.get_lossy_decimal(10), biguint_arr(&[2, 5]));
}

#[test]
fn get_lossy_decimal_cuts_where_the_precision_ends() {
    let x = Number::new("0.1001").unwrap();
    assert_eq!(x.get_lossy_decimal(1), biguint_arr(&[1]));
    assert_eq!(x.get_lossy_decimal(2), biguint_arr(&[1, 0]));
    assert_eq!(x.get_lossy_decimal(3), biguint_arr(&[1, 0, 0]));
    assert_eq!(x.get_lossy_decimal(4), biguint_arr(&[1, 0, 0, 1]));
    assert_eq!(x.get_lossy_decimal(5), biguint_arr(&[1, 0, 0, 1]));

    let x = Number::new("0.0001").unwrap();
    assert_eq!(x.get_lossy_decimal(2), biguint_arr(&[0, 0]));
    assert_eq!(x.get_lossy_decimal(3), biguint_arr(&[0, 0, 0]));
}

#[test]
fn get_lossy_decimal_in_a_large_base() {
    // 1/2 in base 65535 is 0.(32767)(32767)...
    let half = Number::new("0.5").unwrap().to_base(biguint(65535)).unwrap();
    assert_eq!(half.get_lossy_decimal(3), biguint_arr(&[32767, 32767, 32767]));
}

#[test]
fn get_lossy_decimal_with_a_denominator_below_the_base() {
    // 1/3 in base nine is 0.3.
    let third = Number::new_from_frac(false, None, "1/3").unwrap().to_base(biguint(9)).unwrap();
    assert_eq!(third.get_lossy_decimal(10), biguint_arr(&[3]));
    // 2/3 in base 27 is 0.(18).
    let x = Number::new_from_frac(false, None, "2/3").unwrap().to_base(biguint(27)).unwrap();
    assert_eq!(x.get_lossy_decimal(10), biguint_arr(&[18]));
}

#[test]
fn get_lossy_decimal_does_not_change_the_number() {
    let x = Number::new("0.125").unwrap().to_base(biguint(2)).unwrap();
    let first = x.get_lossy_decimal(10);
    let second = x.get_lossy_decimal(10);
    assert_eq!(first, biguint_arr(&[0, 0, 1]));
    assert_eq!(first, second);
}

#[test]
fn new_from_frac_reads_a_fraction() {
    let x = Number::new_from_frac(true, Some(biguint_arr(&[4, 2])), "1/8").unwrap();
    assert!(x.is_negative());
    assert_eq!(x.get_base(), &biguint(10));
    assert_eq!(x.get_whole_part(), biguint_arr(&[4, 2]));
    let (numerator, denominator) = x.get_fraction();
    assert_eq!(numerator, &biguint(1));
    assert_eq!(denominator, &biguint(8));
    assert_eq!(x.get_lossy_decimal(10), biguint_arr(&[1, 2, 5]));
}

#[test]
fn new_from_frac_without_whole_digits_has_none() {
    let x = Number::new_from_frac(false, None, "22/100").unwrap();
    assert_eq!(x.get_whole_part(), Vec::<BigUint>::new());
    assert_eq!(x.get_lossy_decimal(10), biguint_arr(&[2, 2]));
}

#[test]
fn new_from_frac_reads_an_empty_numerator_as_zero() {
    let x = Number::new_from_frac(false, None, "/5").unwrap();
    let (numerator, denominator) = x.get_fraction();
    assert_eq!(numerator, &biguint(0));
    assert_eq!(denominator, &biguint(5));
}

#[test]
fn new_from_frac_refuses_what_is_no_fraction() {
    for text in ["", "1", "1.5", "a/b", "1/2/3", "-1/2", "1 / 2", "1/\u{e9}"] {
        let made = Number::new_from_frac(false, None, text);
        assert_eq!(made.err(), Some(NumberError::InvalidLiteral), "{:?}", text);
    }
}

#[test]
fn new_from_frac_refuses_a_whole_digit_above_nine() {
    let made = Number::new_from_frac(false, Some(biguint_arr(&[1, 10])), "1/2");
    assert_eq!(made.err(), Some(NumberError::InvalidDigit));
}

#[test]
fn new_from_frac_refuses_a_fraction_that_is_not_below_one() {
    for text in ["1/0", "0/0", "/", "5/", "2/2", "3/2", "10/9"] {
        let made = Number::new_from_frac(false, None, text);
        assert_eq!(made.err(), Some(NumberError::InvalidFraction), "{:?}", text);
    }
}
