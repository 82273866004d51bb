use lib::ascii_str::AsciiStr;
use lib::bytes::ByteSlice;
use lib::decimal::Decimal;

fn empty_decimal() -> Decimal {
    Decimal { num_digits: 0, decimal_point: 0, negative: false, truncated: false, digits: [0; 768] }
}

#[test]
fn is_nan_in_any_case() {
    assert!(AsciiStr::new(b"nan").is_nan());
    assert!(AsciiStr::new(b"NaN").is_nan());
    assert!(AsciiStr::new(b"NAN").is_nan());
    assert!(AsciiStr::new(b"nan(1)").is_nan());
    assert!(!AsciiStr::new(b"na").is_nan());
    assert!(!AsciiStr::new(b"").is_nan());
    assert!(!AsciiStr::new(b"inf").is_nan());
    assert!(!AsciiStr::new(b"nab").is_nan());
}

#[test]
fn ascii_str_eq_ignore_case() {
    let a = AsciiStr::new(b"Infinity");
    assert!(a.eq_ignore_case(b"inf"));
    assert!(a.eq_ignore_case(b"INFINITY"));
    assert!(!a.eq_ignore_case(b"int"));
}

#[test]
fn stepping_moves_the_view() {
    let mut a = AsciiStr::new(b"abcdef");
    a.step();
    assert_eq!(a.as_ref(), b"bcdef");
    a.step_by(2);
    assert_eq!(a.as_ref(), b"def");
    assert!(a.try_step_by(4).is_none());
    assert_eq!(a.as_ref(), b"def");
    let rest = a.try_step_by(3).unwrap();
    assert_eq!(rest.as_ref(), b"");
}

#[test]
fn ascii_str_byte_slice_methods() {
    let a = AsciiStr::new(b"0012x");
    assert_eq!(a.skip_chars(b'0'), b"12x");
    assert!(a.first_isdigit());
    assert_eq!(a.advance(4), b"x");
    assert_eq!(a.read_u64(), None);
}

#[test]
fn ascii_str_parse_digits_feeds_the_leading_digits() {
    let mut a = AsciiStr::new(b"9071.5");
    let mut d = empty_decimal();
    a.parse_digits(&mut d);
    assert_eq!(a.as_ref(), b".5");
    assert_eq!(d.num_digits, 4);
    assert_eq!(&d.digits[..4], &[9, 0, 7, 1]);
    assert_eq!(d.digits[4], 0);
}

#[test]
fn ascii_str_parse_digits_without_digits() {
    let mut a = AsciiStr::new(b"e10");
    let mut d = empty_decimal();
    a.parse_digits(&mut d);
    assert_eq!(a.as_ref(), b"e10");
    assert_eq!(d.num_digits, 0);
}
