use vstd::prelude::*;

use crate::ascii_str::AsciiStr;
use crate::bytes::{ByteSlice, is_ascii_digit, le_bytes};
use crate::digits::digit_values;

verus! {

/// All eight bytes of `v` are ASCII decimal digits.
pub open spec fn all_digits(v: u64) -> bool {
    forall|i: int| 0 <= i < 8 ==> #[trigger] is_ascii_digit(le_bytes(v)[i])
}

/// The first eight bytes of `s` are there, and are ASCII decimal digits.
pub open spec fn starts_with_8digits(s: Seq<u8>) -> bool {
    s.len() >= 8 && forall|i: int| 0 <= i < 8 ==> #[trigger] is_ascii_digit(s[i])
}

/// The value of a string of ASCII decimal digits, most significant digit first.
pub open spec fn digits_value(s: Seq<u8>) -> int
    decreases s.len(),
{
    if s.len() == 0 {
        0
    } else {
        digits_value(s.drop_last()) * 10 + (s.last() - 0x30)
    }
}

const MASK: u64 = 0x0000_00FF_0000_00FF;

const MUL1: u64 = 0x000F_4240_0000_0064;

const MUL2: u64 = 0x0000_2710_0000_0001;

/// `all_digits`, byte by byte.
proof fn lemma_all_digits_bytes(v: u64)
    ensures
        all_digits(v) == (0x30 <= v as u8 <= 0x39 && 0x30 <= (v >> 8u64) as u8 <= 0x39 && 0x30 <= (v
            >> 16u64) as u8 <= 0x39 && 0x30 <= (v >> 24u64) as u8 <= 0x39 && 0x30 <= (v >> 32u64) as u8
            <= 0x39 && 0x30 <= (v >> 40u64) as u8 <= 0x39 && 0x30 <= (v >> 48u64) as u8 <= 0x39 && 0x30
            <= (v >> 56u64) as u8 <= 0x39),
{
    assert(all_digits(v) == (
        is_ascii_digit(le_bytes(v)[0]) && is_ascii_digit(le_bytes(v)[1]) &&
        is_ascii_digit(le_bytes(v)[2]) && is_ascii_digit(le_bytes(v)[3]) &&
        is_ascii_digit(le_bytes(v)[4]) && is_ascii_digit(le_bytes(v)[5]) &&
        is_ascii_digit(le_bytes(v)[6]) && is_ascii_digit(le_bytes(v)[7])));
}

/// The SWAR test: no byte of `v + 0x46..` or `v - 0x30..` has its top bit set
/// exactly when every byte of `v` is in `0x30..=0x39`.
proof fn lemma_swar_digit_test(v: u64, a: u64, b: u64)
    requires
        a == v.wrapping_add(0x4646_4646_4646_4646u64),
        b == v.wrapping_sub(0x3030_3030_3030_3030u64),
    ensures
        ((a | b) & 0x8080_8080_8080_8080u64 == 0) == all_digits(v),
{
    assert(((a | b) & 0x8080_8080_8080_8080u64 == 0) == (
        0x30 <= v as u8 <= 0x39 &&
        0x30 <= (v >> 8u64) as u8 <= 0x39 &&
        0x30 <= (v >> 16u64) as u8 <= 0x39 &&
        0x30 <= (v >> 24u64) as u8 <= 0x39 &&
        0x30 <= (v >> 32u64) as u8 <= 0x39 &&
        0x30 <= (v >> 40u64) as u8 <= 0x39 &&
        0x30 <= (v >> 48u64) as u8 <= 0x39 &&
        0x30 <= (v >> 56u64) as u8 <= 0x39)) by (bit_vector)
        requires
            a == v.wrapping_add(0x4646_4646_4646_4646u64),
            b == v.wrapping_sub(0x3030_3030_3030_3030u64),
    ;
    lemma_all_digits_bytes(v);
}

/// `10 * w + (w >> 8)` puts two-digit values in the even bytes: the low bytes
/// of each half after masking hold `10 * d0 + d1` and `10 * d4 + d5`, and, after
/// a shift by 16, `10 * d2 + d3` and `10 * d6 + d7`.
proof fn lemma_pair_digits(w: u64, d0: u64, d1: u64, d2: u64, d3: u64, d4: u64, d5: u64, d6: u64, d7: u64)
    requires
        d0 <= 9, d1 <= 9, d2 <= 9, d3 <= 9, d4 <= 9, d5 <= 9, d6 <= 9, d7 <= 9,
        w == d0 | d1 << 8u64 | d2 << 16u64 | d3 << 24u64 | d4 << 32u64 | d5 << 40u64 | d6 << 48u64 | d7 << 56u64,
    ensures
        w * 10 + (w >> 8u64) <= u64::MAX,
        ((w * 10 + (w >> 8u64)) as u64) & 0x0000_00FF_0000_00FFu64 == (d0 * 10 + d1 + (d4 * 10 + d5) * 0x1_0000_0000),
        (((w * 10 + (w >> 8u64)) as u64) >> 16u64) & 0x0000_00FF_0000_00FFu64 == (d2 * 10 + d3 + (d6 * 10 + d7) * 0x1_0000_0000),
{
    assert(w * 10 + (w >> 8u64) <= u64::MAX &&
        ((w * 10 + (w >> 8u64)) as u64) & 0x0000_00FF_0000_00FFu64 == (d0 * 10 + d1 + (d4 * 10 + d5) * 0x1_0000_0000) &&
        (((w * 10 + (w >> 8u64)) as u64) >> 16u64) & 0x0000_00FF_0000_00FFu64 == (d2 * 10 + d3 + (d6 * 10 + d7) * 0x1_0000_0000)) by (bit_vector)
        requires
        d0 <= 9, d1 <= 9, d2 <= 9, d3 <= 9, d4 <= 9, d5 <= 9, d6 <= 9, d7 <= 9,
        w == d0 | d1 << 8u64 | d2 << 16u64 | d3 << 24u64 | d4 << 32u64 | d5 << 40u64 | d6 << 48u64 | d7 << 56u64,
    ;
}

/// Multiplying the two pairs by `MUL1` puts `1000000 * a + 100 * b` in the high
/// half.
proof fn lemma_combine_low_pairs(m: u64, a: u64, b: u64)
    requires
        a <= 99, b <= 99,
        m == a + b * 0x1_0000_0000,
    ensures
        m.wrapping_mul(0x000F_4240_0000_0064u64) == a * 100 + (a * 1000000 + b * 100) * 0x1_0000_0000,
{
    assert(m.wrapping_mul(0x000F_4240_0000_0064u64) == a * 100 + (a * 1000000 + b * 100) * 0x1_0000_0000) by (bit_vector)
        requires
            a <= 99, b <= 99,
            m == a + b * 0x1_0000_0000,
    ;
}

/// Multiplying the two pairs by `MUL2` puts `10000 * a + b` in the high half.
proof fn lemma_combine_high_pairs(m: u64, a: u64, b: u64)
    requires
        a <= 99, b <= 99,
        m == a + b * 0x1_0000_0000,
    ensures
        m.wrapping_mul(0x0000_2710_0000_0001u64) == a + (a * 10000 + b) * 0x1_0000_0000,
{
    assert(m.wrapping_mul(0x0000_2710_0000_0001u64) == a + (a * 10000 + b) * 0x1_0000_0000) by (bit_vector)
        requires
            a <= 99, b <= 99,
            m == a + b * 0x1_0000_0000,
    ;
}

/// Subtracting `0x30` from every byte of an all-digit word borrows nowhere and
/// leaves the digit values in place.
proof fn lemma_subtract_zeros(v: u64)
    requires
        all_digits(v),
    ensures
        v >= 0x3030_3030_3030_3030u64,
        v - 0x3030_3030_3030_3030u64 == ((v as u8 - 48) as u64) | ((((v >> 8u64) as u8 - 48) as u64) << 8u64)
            | ((((v >> 16u64) as u8 - 48) as u64) << 16u64) | ((((v >> 24u64) as u8 - 48) as u64) << 24u64)
            | ((((v >> 32u64) as u8 - 48) as u64) << 32u64) | ((((v >> 40u64) as u8 - 48) as u64) << 40u64)
            | ((((v >> 48u64) as u8 - 48) as u64) << 48u64) | ((((v >> 56u64) as u8 - 48) as u64) << 56u64),
{
    lemma_all_digits_bytes(v);
    assert(v >= 0x3030_3030_3030_3030u64 &&
        v - 0x3030_3030_3030_3030u64 == ((v as u8 - 48) as u64) | ((((v >> 8u64) as u8 - 48) as u64) << 8u64)
            | ((((v >> 16u64) as u8 - 48) as u64) << 16u64) | ((((v >> 24u64) as u8 - 48) as u64) << 24u64)
            | ((((v >> 32u64) as u8 - 48) as u64) << 32u64) | ((((v >> 40u64) as u8 - 48) as u64) << 40u64)
            | ((((v >> 48u64) as u8 - 48) as u64) << 48u64) | ((((v >> 56u64) as u8 - 48) as u64) << 56u64)) by (bit_vector)
        requires
            0x30 <= v as u8 <= 0x39,
            0x30 <= (v >> 8u64) as u8 <= 0x39,
            0x30 <= (v >> 16u64) as u8 <= 0x39,
            0x30 <= (v >> 24u64) as u8 <= 0x39,
            0x30 <= (v >> 32u64) as u8 <= 0x39,
            0x30 <= (v >> 40u64) as u8 <= 0x39,
            0x30 <= (v >> 48u64) as u8 <= 0x39,
            0x30 <= (v >> 56u64) as u8 <= 0x39,
    ;
}

/// The high half of a sum whose halves do not overflow is the sum of the high
/// halves.
proof fn lemma_sum_high_halves(v1: u64, v2: u64, lo1: u64, hi1: u64, lo2: u64, hi2: u64)
    requires
        lo1 + lo2 < 0x1_0000_0000,
        hi1 + hi2 < 0x1_0000_0000,
        v1 == lo1 + hi1 * 0x1_0000_0000,
        v2 == lo2 + hi2 * 0x1_0000_0000,
    ensures
        (v1.wrapping_add(v2) >> 32u64) as u32 as u64 == hi1 + hi2,
{
    assert((v1.wrapping_add(v2) >> 32u64) as u32 as u64 == hi1 + hi2) by (bit_vector)
        requires
            lo1 + lo2 < 0x1_0000_0000,
            hi1 + hi2 < 0x1_0000_0000,
            v1 == lo1 + hi1 * 0x1_0000_0000,
            v2 == lo2 + hi2 * 0x1_0000_0000,
    ;
}

/// Determine if 8 bytes are all decimal digits.
/// This does not care about the order in which the bytes were loaded.
pub fn is_8digits(v: u64) -> (r: bool)
    ensures
        r == all_digits(v),
{
    let a = v.wrapping_add(0x4646_4646_4646_4646);
    let b = v.wrapping_sub(0x3030_3030_3030_3030);
    proof {
        lemma_swar_digit_test(v, a, b);
    }
    (a | b) & 0x8080_8080_8080_8080 == 0
}

/// Parse 8 digits, loaded as bytes in little-endian order.
///
/// This uses the trick where every digit is in [0x030, 0x39],
/// and therefore can be parsed in 3 multiplications, much
/// faster than the normal 8.
pub fn parse_8digits(v: u64) -> (r: u64)
    requires
        all_digits(v),
    ensures
        r == digits_value(le_bytes(v)),
{
    let ghost v0 = v;
    let ghost d0: u64 = (v as u8 - 48) as u64;
    let ghost d1: u64 = ((v >> 8u64) as u8 - 48) as u64;
    let ghost d2: u64 = ((v >> 16u64) as u8 - 48) as u64;
    let ghost d3: u64 = ((v >> 24u64) as u8 - 48) as u64;
    let ghost d4: u64 = ((v >> 32u64) as u8 - 48) as u64;
    let ghost d5: u64 = ((v >> 40u64) as u8 - 48) as u64;
    let ghost d6: u64 = ((v >> 48u64) as u8 - 48) as u64;
    let ghost d7: u64 = ((v >> 56u64) as u8 - 48) as u64;
    proof {
        lemma_all_digits_bytes(v);
        lemma_subtract_zeros(v);
        lemma_pair_digits((v - 0x3030_3030_3030_3030u64) as u64, d0, d1, d2, d3, d4, d5, d6, d7);
    }
    let mut v = v;
    v -= 0x3030_3030_3030_3030;
    v = (v * 10) + (v >> 8);  // will not overflow, fits in 63 bits
    let ghost e0: u64 = (d0 * 10 + d1) as u64;
    let ghost e2: u64 = (d2 * 10 + d3) as u64;
    let ghost e4: u64 = (d4 * 10 + d5) as u64;
    let ghost e6: u64 = (d6 * 10 + d7) as u64;
    proof {
        lemma_combine_low_pairs(v & MASK, e0, e4);
        lemma_combine_high_pairs((v >> 16u64) & MASK, e2, e6);
    }
    let v1 = (v & MASK).wrapping_mul(MUL1);
    let v2 = ((v >> 16) & MASK).wrapping_mul(MUL2);
    proof {
        lemma_sum_high_halves(v1, v2, (e0 * 100) as u64, (e0 * 1000000 + e4 * 100) as u64, e2, (e2 * 10000 + e6) as u64);
        lemma_value_of_eight_bytes(v0);
    }
    ((v1.wrapping_add(v2) >> 32) as u32) as u64
}

/// The value of the eight digits of `v`, spelled out.
proof fn lemma_value_of_eight_bytes(v: u64)
    ensures
        digits_value(le_bytes(v)) == (v as u8 - 48) * 10000000 + ((v >> 8u64) as u8 - 48) * 1000000
            + ((v >> 16u64) as u8 - 48) * 100000 + ((v >> 24u64) as u8 - 48) * 10000
            + ((v >> 32u64) as u8 - 48) * 1000 + ((v >> 40u64) as u8 - 48) * 100
            + ((v >> 48u64) as u8 - 48) * 10 + ((v >> 56u64) as u8 - 48),
{
    let s = le_bytes(v);
    assert(s.take(1).drop_last() =~= s.take(0));
    assert(s.take(2).drop_last() =~= s.take(1));
    assert(s.take(3).drop_last() =~= s.take(2));
    assert(s.take(4).drop_last() =~= s.take(3));
    assert(s.take(5).drop_last() =~= s.take(4));
    assert(s.take(6).drop_last() =~= s.take(5));
    assert(s.take(7).drop_last() =~= s.take(6));
    assert(s.drop_last() =~= s.take(7));
    assert(digits_value(s.take(0)) == 0);
    assert(digits_value(s.take(1)) == digits_value(s.take(0)) * 10 + (s[0] - 48));
    assert(digits_value(s.take(2)) == digits_value(s.take(1)) * 10 + (s[1] - 48));
    assert(digits_value(s.take(3)) == digits_value(s.take(2)) * 10 + (s[2] - 48));
    assert(digits_value(s.take(4)) == digits_value(s.take(3)) * 10 + (s[3] - 48));
    assert(digits_value(s.take(5)) == digits_value(s.take(4)) * 10 + (s[4] - 48));
    assert(digits_value(s.take(6)) == digits_value(s.take(5)) * 10 + (s[5] - 48));
    assert(digits_value(s.take(7)) == digits_value(s.take(6)) * 10 + (s[6] - 48));
    assert(digits_value(s) == digits_value(s.take(7)) * 10 + (s[7] - 48));
}

/// Try to parse 8 digits at a time, using an optimized algorithm.
///
/// When the view starts with eight ASCII digits, `x` takes them on as eight
/// more decimal places (wrapping on overflow, which the caller handles) and
/// the view moves past them; otherwise nothing changes.
pub fn try_parse_8digits<'a>(mut s: &'a mut AsciiStr<'a>, x: &mut u64) -> (r: &'a mut AsciiStr<'a>)
    ensures
        *final(s) == *final(r),
        starts_with_8digits(old(s)@) ==> {
            &&& r@ == old(s)@.skip(8)
            &&& *final(x) == (*old(x) * 100000000 + digits_value(old(s)@.take(8)))
                % 0x1_0000_0000_0000_0000
        },
        !starts_with_8digits(old(s)@) ==> r@ == old(s)@ && *final(x) == *old(x),
{
    // may cause overflows, to be handled later
    if let Some(v) = s.read_u64() {
        if is_8digits(v) {
            *x = x.wrapping_mul(1_0000_0000).wrapping_add(parse_8digits(v));
            s = s.try_step_by(8).unwrap();
        }
    }
    s
}

/// Reading eight bytes as a little-endian `u64` and testing the result with
/// `is_8digits` tells whether those eight bytes are all ASCII digits.
pub proof fn lemma_read_then_test(s: Seq<u8>, v: u64)
    requires
        s.len() >= 8,
        le_bytes(v) == s.take(8),
    ensures
        all_digits(v) == starts_with_8digits(s),
{
    assert forall|i: int| 0 <= i < 8 implies le_bytes(v)[i] == s[i] by {
        assert(s.take(8)[i] == s[i]);
    }
}

/// Whether eight bytes are all digits does not depend on the order in which
/// they were loaded into the `u64`.
pub proof fn lemma_is_8digits_order_free(v: u64, w: u64)
    requires
        le_bytes(v).to_multiset() == le_bytes(w).to_multiset(),
    ensures
        all_digits(v) == all_digits(w),
{
    broadcast use vstd::seq_lib::to_multiset_contains;

    let a = le_bytes(v);
    let b = le_bytes(w);
    assert(a.len() == 8 && b.len() == 8);
    assert forall|x: u8| a.contains(x) <==> b.contains(x) by {
        assert(a.to_multiset().count(x) == b.to_multiset().count(x));
    }
    if all_digits(v) {
        assert forall|i: int| 0 <= i < 8 implies #[trigger] is_ascii_digit(b[i]) by {
            assert(b.contains(b[i]));
            let j = choose|j: int| 0 <= j < a.len() && a[j] == b[i];
            assert(is_ascii_digit(a[j]));
        }
    }
    if all_digits(w) {
        assert forall|i: int| 0 <= i < 8 implies #[trigger] is_ascii_digit(a[i]) by {
            assert(a.contains(a[i]));
            let j = choose|j: int| 0 <= j < b.len() && b[j] == a[i];
            assert(is_ascii_digit(b[j]));
        }
    }
}

/// `x` after taking the digit values `ds` one at a time, as ten times `x` plus
/// the digit, without bounds.
pub open spec fn horner(x: int, ds: Seq<u8>) -> int
    decreases ds.len(),
{
    if ds.len() == 0 {
        x
    } else {
        horner(x, ds.drop_last()) * 10 + ds.last()
    }
}

/// `x` after taking the digit values `ds` one at a time, as ten times `x` plus
/// the digit, wrapping at 2^64.
pub open spec fn wrapping_horner(x: u64, ds: Seq<u8>) -> u64
    decreases ds.len(),
{
    if ds.len() == 0 {
        x
    } else {
        ((wrapping_horner(x, ds.drop_last()) * 10 + ds.last()) % 0x1_0000_0000_0000_0000) as u64
    }
}

/// Wrapping at each step ends where wrapping once at the end does.
proof fn lemma_wrapping_horner(x: u64, ds: Seq<u8>)
    ensures
        wrapping_horner(x, ds) == horner(x as int, ds) % 0x1_0000_0000_0000_0000,
    decreases ds.len(),
{
    let m: int = 0x1_0000_0000_0000_0000;
    if ds.len() == 0 {
        vstd::arithmetic::div_mod::lemma_small_mod(x as nat, m as nat);
    } else {
        lemma_wrapping_horner(x, ds.drop_last());
        let a = horner(x as int, ds.drop_last());
        let d = ds.last() as int;
        vstd::arithmetic::div_mod::lemma_mul_mod_noop_left(a, 10, m);
        vstd::arithmetic::div_mod::lemma_add_mod_noop((a % m) * 10, d, m);
        vstd::arithmetic::div_mod::lemma_add_mod_noop(a * 10, d, m);
        vstd::arithmetic::div_mod::lemma_small_mod(d as nat, m as nat);
    }
}

/// Ten to the power `n`.
pub open spec fn ten_pow(n: nat) -> int
    decreases n,
{
    if n == 0 {
        1
    } else {
        10 * ten_pow((n - 1) as nat)
    }
}

/// Taking `n` digits one at a time adds `n` decimal places.
proof fn lemma_horner_of_digits(x: int, s: Seq<u8>)
    requires
        forall|i: int| 0 <= i < s.len() ==> #[trigger] is_ascii_digit(s[i]),
    ensures
        horner(x, digit_values(s)) == x * ten_pow(s.len()) + digits_value(s),
    decreases s.len(),
{
    if s.len() > 0 {
        let ds = digit_values(s);
        assert(ds.drop_last() =~= digit_values(s.drop_last()));
        assert(is_ascii_digit(s.last()));
        lemma_horner_of_digits(x, s.drop_last());
        let p = ten_pow((s.len() - 1) as nat);
        assert(x * p * 10 == x * (10 * p)) by (nonlinear_arith);
    }
}

/// Taking eight digits at once, as `try_parse_8digits` does, leaves `x` as
/// taking them one at a time would: ten times `x` plus the digit, wrapping.
pub proof fn lemma_eight_at_once_is_one_at_a_time(x: u64, s: Seq<u8>)
    requires
        starts_with_8digits(s),
    ensures
        (x * 100000000 + digits_value(s.take(8))) % 0x1_0000_0000_0000_0000 == wrapping_horner(
            x,
            digit_values(s.take(8)),
        ),
{
    let t = s.take(8);
    assert forall|i: int| 0 <= i < 8 implies #[trigger] is_ascii_digit(t[i]) by {
        assert(t[i] == s[i]);
    }
    lemma_horner_of_digits(x as int, t);
    assert(ten_pow(8) == 100000000) by {
        reveal_with_fuel(ten_pow, 9);
    }
    lemma_wrapping_horner(x, digit_values(t));
}

/// The value of digits written one after the other: the first run shifted
/// left by as many places as the second has, plus the second.
pub proof fn lemma_digits_value_concat(s: Seq<u8>, t: Seq<u8>)
    ensures
        digits_value(s + t) == digits_value(s) * ten_pow(t.len()) + digits_value(t),
    decreases t.len(),
{
    if t.len() == 0 {
        assert(s + t =~= s);
    } else {
        assert((s + t).drop_last() =~= s + t.drop_last());
        lemma_digits_value_concat(s, t.drop_last());
        let p = ten_pow((t.len() - 1) as nat);
        let a = digits_value(s);
        assert(a * p * 10 == a * (10 * p)) by (nonlinear_arith);
    }
}

/// A single digit is worth its distance from `b'0'`.
pub proof fn lemma_digits_value_single(b: u8)
    ensures
        digits_value(seq![b]) == b - 0x30,
{
    assert(seq![b].drop_last() =~= Seq::<u8>::empty());
    assert(digits_value(Seq::<u8>::empty()) == 0);
    assert(seq![b].last() == b);
}

} // verus!
