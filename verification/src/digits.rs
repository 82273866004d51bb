use vstd::prelude::*;

use crate::bytes::{ByteSlice, is_ascii_digit};
use crate::decimal::Decimal;

verus! {

/// Something that takes decimal digits, one at a time.
pub trait DigitSink: Sized {
    /// The sink after it has taken `digit`.
    spec fn after_digit(self, digit: u8) -> Self;

    /// Whether the sink can take one more digit.
    spec fn can_take_digit(self) -> bool;

    /// Take one digit.
    fn push_digit(&mut self, digit: u8)
        requires
            old(self).can_take_digit(),
        ensures
            *final(self) == old(self).after_digit(digit),
    ;
}

/// The sink after it has taken each of `ds`, first to last.
pub open spec fn after_digits<S: DigitSink>(sink: S, ds: Seq<u8>) -> S
    decreases ds.len(),
{
    if ds.len() == 0 {
        sink
    } else {
        after_digits(sink, ds.drop_last()).after_digit(ds.last())
    }
}

/// Whether the sink can take each of `ds`, first to last.
pub open spec fn can_take_digits<S: DigitSink>(sink: S, ds: Seq<u8>) -> bool
    decreases ds.len(),
{
    ds.len() == 0 || (can_take_digits(sink, ds.drop_last()) && after_digits(
        sink,
        ds.drop_last(),
    ).can_take_digit())
}

/// The number of ASCII digits at the start of `s`.
pub open spec fn leading_digit_count(s: Seq<u8>) -> nat
    decreases s.len(),
{
    if s.len() > 0 && is_ascii_digit(s[0]) {
        1 + leading_digit_count(s.drop_first())
    } else {
        0
    }
}

/// The values (0 to 9) of the ASCII digits `s`.
pub open spec fn digit_values(s: Seq<u8>) -> Seq<u8> {
    s.map_values(|b: u8| (b - 0x30) as u8)
}

/// The values of the digits at the start of `s`.
pub open spec fn leading_digit_values(s: Seq<u8>) -> Seq<u8> {
    digit_values(s.take(leading_digit_count(s) as int))
}

/// The leading digit count reaches up to the first byte that is not a digit.
pub proof fn lemma_leading_digit_count(s: Seq<u8>)
    ensures
        leading_digit_count(s) <= s.len(),
        forall|j: int| 0 <= j < leading_digit_count(s) ==> #[trigger] is_ascii_digit(s[j]),
        leading_digit_count(s) < s.len() ==> !is_ascii_digit(s[leading_digit_count(s) as int]),
    decreases s.len(),
{
    if s.len() > 0 && is_ascii_digit(s[0]) {
        lemma_leading_digit_count(s.drop_first());
        assert forall|j: int| 0 <= j < leading_digit_count(s) implies #[trigger] is_ascii_digit(
            s[j],
        ) by {
            if j > 0 {
                assert(s[j] == s.drop_first()[j - 1]);
            }
        }
    }
}

/// A sink that can take a run of digits can take each start of it.
pub proof fn lemma_can_take_prefix<S: DigitSink>(sink: S, ds: Seq<u8>, j: int)
    requires
        can_take_digits(sink, ds),
        0 <= j <= ds.len(),
    ensures
        can_take_digits(sink, ds.take(j)),
    decreases ds.len(),
{
    if j < ds.len() {
        lemma_can_take_prefix(sink, ds.drop_last(), j);
        assert(ds.drop_last().take(j) =~= ds.take(j));
    } else {
        assert(ds.take(j) =~= ds);
    }
}

/// Feed the ASCII digits at the start of `s` to `sink`, as values 0 to 9, and
/// advance `s` past them.
pub fn parse_digits<S: DigitSink>(s: &mut &[u8], sink: &mut S)
    requires
        can_take_digits(*old(sink), leading_digit_values(old(s)@)),
    ensures
        final(s)@ == old(s)@.skip(leading_digit_count(old(s)@) as int),
        final(s)@.len() > 0 ==> !is_ascii_digit(final(s)@[0]),
        *final(sink) == after_digits(*old(sink), leading_digit_values(old(s)@)),
{
    let ghost orig = s@;
    let ghost sink0 = *sink;
    let ghost k = leading_digit_count(orig) as int;
    proof {
        lemma_leading_digit_count(orig);
        assert(orig.skip(0) =~= orig);
        assert(digit_values(orig.take(0)) =~= Seq::<u8>::empty());
    }
    while !s.is_empty()
        invariant_except_break
            0 <= k <= orig.len(),
            forall|j: int| 0 <= j < k ==> #[trigger] is_ascii_digit(orig[j]),
            k < orig.len() ==> !is_ascii_digit(orig[k]),
            s@.len() <= orig.len(),
            orig.len() - s@.len() <= k,
            s@ == orig.skip(orig.len() - s@.len()),
            *sink == after_digits(sink0, digit_values(orig.take(orig.len() - s@.len()))),
            can_take_digits(sink0, digit_values(orig.take(k))),
        ensures
            s@ == orig.skip(k),
            *sink == after_digits(sink0, digit_values(orig.take(k))),
        decreases s@.len(),
    {
        let ghost i = orig.len() - s@.len();
        let c = s.first_unchecked().wrapping_sub(0x30);
        if c < 10 {
            proof {
                assert(orig[i] == s@[0]);
                assert(is_ascii_digit(orig[i]));
                let ds = digit_values(orig.take(k));
                lemma_can_take_prefix(sink0, ds, i + 1);
                assert(ds.take(i + 1) =~= digit_values(orig.take(i + 1)));
                assert(digit_values(orig.take(i + 1)).drop_last() =~= digit_values(orig.take(i)));
            }
            sink.push_digit(c);
            *s = s.advance_unchecked(1);
            proof {
                assert(s@ =~= orig.skip(orig.len() - s@.len()));
            }
        } else {
            proof {
                assert(orig[i] == s@[0]);
                assert(!is_ascii_digit(orig[i]));
            }
            break;
        }
    }
}

/// The digit buffer `buf` after `ds` were written from index `n` on, as far
/// as the buffer reaches.
pub open spec fn stored_digits(buf: Seq<u8>, n: int, ds: Seq<u8>) -> Seq<u8> {
    Seq::new(buf.len(), |j: int| if n <= j < n + ds.len() { ds[j - n] } else { buf[j] })
}

proof fn lemma_decimal_after_digits(d: Decimal, ds: Seq<u8>)
    requires
        d.num_digits + ds.len() <= usize::MAX,
    ensures
        can_take_digits(d, ds),
        after_digits(d, ds).num_digits == d.num_digits + ds.len(),
        after_digits(d, ds).digits@ == stored_digits(d.digits@, d.num_digits as int, ds),
        after_digits(d, ds).decimal_point == d.decimal_point,
        after_digits(d, ds).negative == d.negative,
        after_digits(d, ds).truncated == d.truncated,
    decreases ds.len(),
{
    if ds.len() == 0 {
        assert(stored_digits(d.digits@, d.num_digits as int, ds) =~= d.digits@);
    } else {
        lemma_decimal_after_digits(d, ds.drop_last());
        let prev = after_digits(d, ds.drop_last());
        assert(prev.digits@.len() == 768);
        assert(after_digits(d, ds).digits@ =~= stored_digits(d.digits@, d.num_digits as int, ds));
    }
}

/// Append the ASCII digits at the start of `s` to `d`, as values 0 to 9.
///
/// Every digit is counted; those that find the buffer full are not stored.
pub fn parse_decimal_digits(s: &[u8], d: &mut Decimal)
    requires
        old(d).num_digits + leading_digit_count(s@) <= usize::MAX,
    ensures
        final(d).num_digits == old(d).num_digits + leading_digit_count(s@),
        final(d).digits@ == stored_digits(
            old(d).digits@,
            old(d).num_digits as int,
            leading_digit_values(s@),
        ),
        final(d).decimal_point == old(d).decimal_point,
        final(d).negative == old(d).negative,
        final(d).truncated == old(d).truncated,
        *final(d) == after_digits(*old(d), leading_digit_values(s@)),
{
    let mut s = s;
    proof {
        lemma_leading_digit_count(s@);
        lemma_decimal_after_digits(*d, leading_digit_values(s@));
    }
    parse_digits(&mut s, d);
}

} // verus!
