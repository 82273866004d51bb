use vstd::prelude::*;
use vstd::slice::slice_subrange;

use crate::bytes::{ByteSlice, eq_ignore_case_byte, is_ascii_digit, lemma_eq_ignore_case_byte_meaning};
use crate::digits::{
    DigitSink,
    after_digits,
    can_take_digits,
    leading_digit_count,
    leading_digit_values,
    parse_digits,
};

verus! {

/// A view into a buffer of ASCII bytes that is consumed from the front.
pub struct AsciiStr<'a> {
    slc: &'a [u8],
}

/// The ASCII bytes of `nan`.
pub open spec fn nan_bytes() -> Seq<u8> {
    seq![0x6eu8, 0x61u8, 0x6eu8]
}

impl<'a> View for AsciiStr<'a> {
    type V = Seq<u8>;

    /// The bytes not yet consumed.
    closed spec fn view(&self) -> Seq<u8> {
        self.slc@
    }
}

impl<'a> AsciiStr<'a> {
    /// A view of all of `slc`.
    pub fn new(slc: &'a [u8]) -> (r: Self)
        ensures
            r@ == slc@,
    {
        AsciiStr { slc }
    }

    /// Advance the view by n, advancing it in-place to (n..).
    pub fn step_by(&mut self, n: usize) -> (r: &mut Self)
        requires
            n <= old(self)@.len(),
        ensures
            r@ == old(self)@.skip(n as int),
            *final(self) == *final(r),
    {
        self.slc = slice_subrange(self.slc, n, self.slc.len());
        self
    }

    /// Advance the view by one, advancing it in-place to (1..).
    pub fn step(&mut self) -> (r: &mut Self)
        requires
            old(self)@.len() > 0,
        ensures
            r@ == old(self)@.skip(1),
            *final(self) == *final(r),
    {
        self.step_by(1)
    }

    /// Advance the view by n when it holds at least n bytes.
    pub fn try_step_by(&mut self, n: usize) -> (r: Option<&mut Self>)
        ensures
            r is Some <==> n <= old(self)@.len(),
            r matches Some(t) ==> t@ == old(self)@.skip(n as int) && *final(self) == *final(t),
            r is None ==> *final(self) == *old(self),
    {
        if self.check_len(n) {
            Some(self.step_by(n))
        } else {
            None
        }
    }

    /// Iteratively parse and consume digits from bytes: feed the ASCII digits
    /// at the start of the view to `sink`, as values 0 to 9, and advance the
    /// view past them.
    pub fn parse_digits<S: DigitSink>(&mut self, sink: &mut S)
        requires
            can_take_digits(*old(sink), leading_digit_values(old(self)@)),
        ensures
            final(self)@ == old(self)@.skip(leading_digit_count(old(self)@) as int),
            final(self)@.len() > 0 ==> !is_ascii_digit(final(self)@[0]),
            *final(sink) == after_digits(*old(sink), leading_digit_values(old(self)@)),
    {
        parse_digits(&mut self.slc, sink);
    }

    /// Check if the view starts with u with a case-insensitive comparison.
    pub fn eq_ignore_case(&self, u: &[u8]) -> (r: bool)
        requires
            self@.len() >= u@.len(),
        ensures
            r == (forall|i: int|
                0 <= i < u@.len() ==> #[trigger] eq_ignore_case_byte(self@[i], u@[i])),
    {
        let r = self.slc.eq_ignore_case(u);
        assert(self.slc.byte_seq() == self@);
        r
    }

    /// Check if the view starts with `nan`, in any case.
    pub fn is_nan(&self) -> (r: bool)
        ensures
            r == (self@.len() >= 3 && forall|i: int|
                0 <= i < 3 ==> #[trigger] eq_ignore_case_byte(self@[i], nan_bytes()[i])),
            r == (self@.len() >= 3 && (self@[0] == 0x6e || self@[0] == 0x4e) && (self@[1] == 0x61
                || self@[1] == 0x41) && (self@[2] == 0x6e || self@[2] == 0x4e)),
    {
        proof {
            if self@.len() >= 3 {
                lemma_eq_ignore_case_byte_meaning(self@[0], 0x6e);
                lemma_eq_ignore_case_byte_meaning(self@[1], 0x61);
                lemma_eq_ignore_case_byte_meaning(self@[2], 0x6e);
                assert(nan_bytes()[0] == 0x6e && nan_bytes()[1] == 0x61 && nan_bytes()[2] == 0x6e);
            }
        }
        if self.slc.len() >= 3 {
            let nan: [u8; 3] = [0x6e, 0x61, 0x6e];
            assert(nan@ == nan_bytes());
            self.eq_ignore_case(&nan)
        } else {
            false
        }
    }
}

impl<'a> ByteSlice for AsciiStr<'a> {
    open spec fn byte_seq(&self) -> Seq<u8> {
        self@
    }

    fn as_ref(&self) -> (r: &[u8]) {
        self.slc
    }
}

} // verus!
