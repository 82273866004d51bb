use lib::ascii_str::AsciiStr;
use lib::bytes::ByteSlice;
use lib::eight_digits::{is_8digits, parse_8digits, try_parse_8digits};

fn le(s: &[u8; 8]) -> u64 {
    u64::from_le_bytes(*s)
}

#[test]
fn is_8digits_accepts_only_digits() {
    assert!(is_8digits(le(b"12345678")));
    assert!(is_8digits(le(b"00000000")));
    assert!(is_8digits(le(b"99999999")));
    assert!(!is_8digits(le(b"1234567:")));
    assert!(!is_8digits(le(b"/2345678")));
    assert!(!is_8digits(le(b"1234 678")));
    assert!(!is_8digits(le(b"1234\xb0678")));
    assert!(!is_8digits(0));
    assert!(!is_8digits(u64::MAX));
}

#[test]
fn is_8digits_ignores_byte_order() {
    let v = le(b"12345678");
    assert_eq!(is_8digits(v), is_8digits(v.swap_bytes()));
    let w = le(b"1234x678");
    assert_eq!(is_8digits(w), is_8digits(w.swap_bytes()));
}

#[test]
fn parse_8digits_values() {
    assert_eq!(parse_8digits(le(b"12345678")), 12345678);
    assert_eq!(parse_8digits(le(b"00000000")), 0);
    assert_eq!(parse_8digits(le(b"99999999")), 99999999);
    assert_eq!(parse_8digits(le(b"00000001")), 1);
    assert_eq!(parse_8digits(le(b"10000000")), 10000000);
    assert_eq!(parse_8digits(le(b"90817263")), 90817263);
}

#[test]
fn parse_8digits_matches_digit_by_digit() {
    for s in [b"31415926", b"27182818", b"00012000", b"50505050"] {
        let mut expected = 0u64;
        for &b in s.iter() {
            expected = expected * 10 + (b - b'0') as u64;
        }
        assert_eq!(parse_8digits(le(s)), expected);
    }
}

#[test]
fn try_parse_8digits_consumes_eight_digits() {
    let mut a = AsciiStr::new(b"123456789");
    let mut x = 0u64;
    let rest = try_parse_8digits(&mut a, &mut x);
    assert_eq!(x, 12345678);
    assert_eq!(rest.as_ref(), b"9");
}

#[test]
fn try_parse_8digits_accumulates() {
    let mut a = AsciiStr::new(b"0000000200000003.");
    let mut x = 7u64;
    let rest = try_parse_8digits(&mut a, &mut x);
    assert_eq!(x, 700000002);
    let rest = try_parse_8digits(rest, &mut x);
    assert_eq!(x, 70000000200000003);
    let rest = try_parse_8digits(rest, &mut x);
    assert_eq!(x, 70000000200000003);
    assert_eq!(rest.as_ref(), b".");
}

#[test]
fn try_parse_8digits_leaves_non_digits() {
    let mut a = AsciiStr::new(b"1234567e9");
    let mut x = 5u64;
    let rest = try_parse_8digits(&mut a, &mut x);
    assert_eq!(x, 5);
    assert_eq!(rest.as_ref(), b"1234567e9");
}

#[test]
fn try_parse_8digits_needs_eight_bytes() {
    let mut a = AsciiStr::new(b"1234567");
    let mut x = 0u64;
    let rest = try_parse_8digits(&mut a, &mut x);
    assert_eq!(x, 0);
    assert_eq!(rest.as_ref(), b"1234567");
}

#[test]
fn try_parse_8digits_wraps_like_digit_by_digit() {
    let mut a = AsciiStr::new(b"98765432");
    let start = u64::MAX / 3;
    let mut x = start;
    try_parse_8digits(&mut a, &mut x);
    let mut expected = start;
    for &b in b"98765432".iter() {
        expected = expected.wrapping_mul(10).wrapping_add((b - b'0') as u64);
    }
    assert_eq!(x, expected);
    assert_eq!(x, start.wrapping_mul(100_000_000).wrapping_add(98765432));
}
