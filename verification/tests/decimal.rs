use lib::decimal::Decimal;
use lib::digits::{parse_decimal_digits, parse_digits, DigitSink};

fn empty_decimal() -> Decimal {
    Decimal { num_digits: 0, decimal_point: 0, negative: false, truncated: false, digits: [0; 768] }
}

#[test]
fn try_add_digit_appends() {
    let mut d = empty_decimal();
    d.try_add_digit(4);
    d.try_add_digit(2);
    assert_eq!(d.num_digits, 2);
    assert_eq!(&d.digits[..3], &[4, 2, 0]);
}

#[test]
fn try_add_digit_stops_at_capacity() {
    let mut d = empty_decimal();
    for _ in 0..Decimal::MAX_DIGITS {
        d.try_add_digit(1);
    }
    assert_eq!(d.num_digits, Decimal::MAX_DIGITS);
    d.try_add_digit(7);
    assert_eq!(d.num_digits, Decimal::MAX_DIGITS);
    assert_eq!(d.digits[Decimal::MAX_DIGITS - 1], 1);
}

#[test]
fn push_digit_counts_past_capacity() {
    let mut d = empty_decimal();
    d.num_digits = Decimal::MAX_DIGITS - 1;
    d.push_digit(5);
    d.push_digit(6);
    assert_eq!(d.num_digits, Decimal::MAX_DIGITS + 1);
    assert_eq!(d.digits[Decimal::MAX_DIGITS - 1], 5);
}

#[test]
fn both_appends_agree_below_capacity() {
    let mut a = empty_decimal();
    let mut b = empty_decimal();
    a.try_add_digit(3);
    b.push_digit(3);
    assert_eq!(a.num_digits, b.num_digits);
    assert_eq!(a.digits, b.digits);
}

#[test]
fn parse_decimal_digits_appends_leading_digits() {
    let mut d = empty_decimal();
    d.decimal_point = -2;
    d.negative = true;
    parse_decimal_digits(b"31415e-4", &mut d);
    assert_eq!(d.num_digits, 5);
    assert_eq!(&d.digits[..6], &[3, 1, 4, 1, 5, 0]);
    assert_eq!(d.decimal_point, -2);
    assert!(d.negative);
    assert!(!d.truncated);
}

#[test]
fn parse_decimal_digits_after_earlier_digits() {
    let mut d = empty_decimal();
    parse_decimal_digits(b"12", &mut d);
    parse_decimal_digits(b"", &mut d);
    parse_decimal_digits(b".5", &mut d);
    parse_decimal_digits(b"90", &mut d);
    assert_eq!(d.num_digits, 4);
    assert_eq!(&d.digits[..4], &[1, 2, 9, 0]);
}

#[test]
fn parse_decimal_digits_counts_what_does_not_fit() {
    let mut d = empty_decimal();
    d.num_digits = Decimal::MAX_DIGITS - 1;
    parse_decimal_digits(b"987", &mut d);
    assert_eq!(d.num_digits, Decimal::MAX_DIGITS + 2);
    assert_eq!(d.digits[Decimal::MAX_DIGITS - 1], 9);
    assert_eq!(d.digits[0], 0);
}

#[test]
fn parse_digits_advances_the_slice() {
    let mut s: &[u8] = b"2024-01";
    let mut d = empty_decimal();
    parse_digits(&mut s, &mut d);
    assert_eq!(s, b"-01");
    assert_eq!(d.num_digits, 4);
    assert_eq!(&d.digits[..4], &[2, 0, 2, 4]);
    parse_digits(&mut s, &mut d);
    assert_eq!(s, b"-01");
    assert_eq!(d.num_digits, 4);
}

#[test]
fn parse_digits_to_the_end() {
    let mut s: &[u8] = b"0099";
    let mut d = empty_decimal();
    parse_digits(&mut s, &mut d);
    assert_eq!(s, b"");
    assert_eq!(&d.digits[..4], &[0, 0, 9, 9]);
}
