use lib::bytes::ByteSlice;

#[test]
fn empty_and_length_checks() {
    let empty: &[u8] = b"";
    let s: &[u8] = b"abc";
    assert!(empty.is_empty());
    assert!(!ByteSlice::is_empty(s));
    assert!(s.check_len(0));
    assert!(s.check_len(3));
    assert!(!s.check_len(4));
    assert!(!empty.check_len(1));
}

#[test]
fn first_byte_tests() {
    let s: &[u8] = b"7a";
    let empty: &[u8] = b"";
    assert!(s.first_is(b'7'));
    assert!(!s.first_is(b'a'));
    assert!(!empty.first_is(b'7'));
    assert!(s.first_is2(b'x', b'7'));
    assert!(!s.first_is2(b'x', b'y'));
    assert!(!empty.first_is2(b'x', b'y'));
    assert!(s.first_isdigit());
    assert!(!(b"a7" as &[u8]).first_isdigit());
    assert!(!(b"/" as &[u8]).first_isdigit());
    assert!(!(b":" as &[u8]).first_isdigit());
    assert!(!empty.first_isdigit());
    assert_eq!(s.first_unchecked(), b'7');
    assert_eq!(ByteSlice::get_unchecked(s, 1), b'a');
}

#[test]
fn eq_ignore_case_matches_case_variants() {
    let s: &[u8] = b"NaN-rest";
    assert!(s.eq_ignore_case(b"nan"));
    assert!(s.eq_ignore_case(b"NAN"));
    assert!(s.eq_ignore_case(b"nAn-"));
    assert!(s.eq_ignore_case(b""));
    assert!(!s.eq_ignore_case(b"nab"));
    assert!(!s.eq_ignore_case(b"inf"));
}

#[test]
fn eq_ignore_case_folds_letters_only() {
    // '@' (0x40) and '`' (0x60) differ in bit 0x20 but are not letters.
    let s: &[u8] = b"@";
    assert!(!s.eq_ignore_case(b"`"));
    assert!(s.eq_ignore_case(b"@"));
    // '1' (0x31) and 0x11 differ in bit 0x20 too.
    let one: &[u8] = b"1";
    assert!(!one.eq_ignore_case(b"\x11"));
    // '[' (0x5b) is just past 'Z' and '{' (0x7b) just past 'z'.
    let bracket: &[u8] = b"[";
    assert!(!bracket.eq_ignore_case(b"{"));
    // 'a' (0x61) and 'A' (0x41) are one letter; 'a' and 'b' are not.
    let t: &[u8] = b"a";
    assert!(t.eq_ignore_case(b"A"));
    assert!(!t.eq_ignore_case(b"b"));
    let z: &[u8] = b"Zz";
    assert!(z.eq_ignore_case(b"zZ"));
}

#[test]
fn advance_skips_a_prefix() {
    let s: &[u8] = b"hello";
    assert_eq!(s.advance(0), b"hello");
    assert_eq!(s.advance(2), b"llo");
    assert_eq!(s.advance(5), b"");
    assert_eq!(s.advance_unchecked(4), b"o");
}

#[test]
fn skip_chars_removes_the_leading_run() {
    let s: &[u8] = b"000120";
    assert_eq!(s.skip_chars(b'0'), b"120");
    assert_eq!(s.skip_chars(b'1'), b"000120");
    let all: &[u8] = b"0000";
    assert_eq!(all.skip_chars(b'0'), b"");
    let mixed: &[u8] = b"0_0_1_0";
    assert_eq!(mixed.skip_chars2(b'0', b'_'), b"1_0");
    assert_eq!(mixed.skip_chars2(b'x', b'y'), b"0_0_1_0");
}

#[test]
fn read_u64_is_little_endian() {
    let s: &[u8] = b"12345678";
    assert_eq!(s.read_u64(), Some(0x3837_3635_3433_3231));
    assert_eq!(s.read_u64_unchecked(), 0x3837_3635_3433_3231);
    let longer: &[u8] = b"\x01\x02\x03\x04\x05\x06\x07\x08\x09";
    assert_eq!(longer.read_u64(), Some(0x0807_0605_0403_0201));
    let short: &[u8] = b"1234567";
    assert_eq!(short.read_u64(), None);
}

#[test]
fn skipping_again_skips_nothing_more() {
    let s: &[u8] = b"  \t x ";
    let once = s.skip_chars2(b' ', b'\t');
    assert_eq!(once, b"x ");
    assert_eq!(once.skip_chars2(b' ', b'\t'), once);
    let z: &[u8] = b"00070";
    let once = z.skip_chars(b'0');
    assert_eq!(once.skip_chars(b'0'), once);
}

#[test]
fn advancing_twice_is_advancing_by_the_sum() {
    let s: &[u8] = b"abcdefgh";
    assert_eq!(s.advance(3).advance(2), s.advance(5));
    assert_eq!(s.advance(0).advance(8), s.advance(8));
}
