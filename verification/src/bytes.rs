use vstd::prelude::*;
use vstd::slice::slice_subrange;

verus! {

/// An ASCII decimal digit, `b'0'..=b'9'`.
pub open spec fn is_ascii_digit(b: u8) -> bool {
    0x30 <= b <= 0x39
}

/// `b` with an ASCII upper-case letter mapped to its lower-case letter.
pub open spec fn ascii_lower(b: u8) -> u8 {
    if 0x41 <= b <= 0x5a {
        (b + 0x20) as u8
    } else {
        b
    }
}

/// Two bytes that are equal once ASCII letters are folded to lower case.
pub open spec fn eq_ignore_case_byte(a: u8, b: u8) -> bool {
    ascii_lower(a) == ascii_lower(b)
}

/// Fold an ASCII upper-case letter to lower case; other bytes stay.
pub fn to_ascii_lower(b: u8) -> (r: u8)
    ensures
        r == ascii_lower(b),
{
    if 0x41u8 <= b && b <= 0x5au8 {
        b + 0x20
    } else {
        b
    }
}

/// The eight bytes of `v`, least significant first.
pub open spec fn le_bytes(v: u64) -> Seq<u8> {
    seq![
        v as u8,
        (v >> 8u64) as u8,
        (v >> 16u64) as u8,
        (v >> 24u64) as u8,
        (v >> 32u64) as u8,
        (v >> 40u64) as u8,
        (v >> 48u64) as u8,
        (v >> 56u64) as u8,
    ]
}

/// `r` is what is left of `s` after the whole run of leading bytes that
/// satisfy `p`.
pub open spec fn rest_after_leading(s: Seq<u8>, r: Seq<u8>, p: spec_fn(u8) -> bool) -> bool {
    &&& r.len() <= s.len()
    &&& r == s.skip(s.len() - r.len())
    &&& forall|j: int| 0 <= j < s.len() - r.len() ==> #[trigger] p(s[j])
    &&& r.len() > 0 ==> !p(r[0])
}

/// The test "the byte is `c`", as a predicate that callers can name.
pub open spec fn byte_is(c: u8) -> spec_fn(u8) -> bool {
    |b: u8| b == c
}

/// The test "the byte is `c1` or `c2`", as a predicate that callers can name.
pub open spec fn byte_is_either(c1: u8, c2: u8) -> spec_fn(u8) -> bool {
    |b: u8| b == c1 || b == c2
}

/// Helper methods to process immutable bytes.
pub trait ByteSlice {
    /// The bytes this value stands for.
    spec fn byte_seq(&self) -> Seq<u8>;

    /// The bytes as a slice.
    fn as_ref(&self) -> (r: &[u8])
        ensures
            r@ == self.byte_seq(),
    ;

    /// Get the byte at index `i`, which must be in bounds.
    fn get_unchecked(&self, i: usize) -> (r: u8)
        requires
            i < self.byte_seq().len(),
        ensures
            r == self.byte_seq()[i as int],
    {
        self.as_ref()[i]
    }

    /// Get the first byte; the slice must not be empty.
    fn first_unchecked(&self) -> (r: u8)
        requires
            self.byte_seq().len() > 0,
        ensures
            r == self.byte_seq()[0],
    {
        self.get_unchecked(0)
    }

    /// Get if the slice contains no elements.
    fn is_empty(&self) -> (r: bool)
        ensures
            r == (self.byte_seq().len() == 0),
    {
        self.as_ref().len() == 0
    }

    /// Check if the slice at least `n` length.
    fn check_len(&self, n: usize) -> (r: bool)
        ensures
            r == (n <= self.byte_seq().len()),
    {
        n <= self.as_ref().len()
    }

    /// Check if the first character in the slice is equal to c.
    fn first_is(&self, c: u8) -> (r: bool)
        ensures
            r == (self.byte_seq().len() > 0 && self.byte_seq()[0] == c),
    {
        let s = self.as_ref();
        s.len() > 0 && s[0] == c
    }

    /// Check if the first character in the slice is equal to c1 or c2.
    fn first_is2(&self, c1: u8, c2: u8) -> (r: bool)
        ensures
            r == (self.byte_seq().len() > 0 && (self.byte_seq()[0] == c1 || self.byte_seq()[0]
                == c2)),
    {
        let s = self.as_ref();
        if s.len() > 0 {
            let c = s[0];
            c == c1 || c == c2
        } else {
            false
        }
    }

    /// Bounds-checked test if the first character in the slice is a digit.
    fn first_isdigit(&self) -> (r: bool)
        ensures
            r == (self.byte_seq().len() > 0 && is_ascii_digit(self.byte_seq()[0])),
    {
        let s = self.as_ref();
        if s.len() > 0 {
            let c = s[0];
            0x30u8 <= c && c <= 0x39u8
        } else {
            false
        }
    }

    /// Check if self starts with u with a case-insensitive comparison.
    ///
    /// Each byte of `u` must match the byte of `self` at the same index once
    /// ASCII letters are folded to lower case.
    fn eq_ignore_case(&self, u: &[u8]) -> (r: bool)
        requires
            self.byte_seq().len() >= u@.len(),
        ensures
            r == (forall|i: int|
                0 <= i < u@.len() ==> #[trigger] eq_ignore_case_byte(self.byte_seq()[i], u@[i])),
    {
        let s = self.as_ref();
        let n = u.len();
        let mut d: u8 = 0;
        let mut i: usize = 0;
        while i < n
            invariant
                n == u@.len(),
                s@ == self.byte_seq(),
                s@.len() >= n,
                i <= n,
                (d == 0) <==> (forall|j: int|
                    0 <= j < i ==> #[trigger] eq_ignore_case_byte(s@[j], u@[j])),
            decreases n - i,
        {
            let a = to_ascii_lower(s[i]);
            let b = to_ascii_lower(u[i]);
            let x: u8 = a ^ b;
            proof {
                assert((x == 0) <==> (a == b)) by (bit_vector)
                    requires
                        x == a ^ b,
                ;
                assert(((d | x) == 0) <==> (d == 0 && x == 0)) by (bit_vector);
                assert(eq_ignore_case_byte(s@[i as int], u@[i as int]) == (a == b));
            }
            let ghost d0 = d;
            d = d | x;
            i = i + 1;
            proof {
                if d == 0 {
                    assert forall|j: int| 0 <= j < i implies #[trigger] eq_ignore_case_byte(
                        s@[j],
                        u@[j],
                    ) by {
                        if j < i - 1 {
                            assert(d0 == 0);
                        }
                    }
                } else if d0 != 0 {
                    let j = choose|j: int|
                        0 <= j < i - 1 && !#[trigger] eq_ignore_case_byte(s@[j], u@[j]);
                    assert(!eq_ignore_case_byte(s@[j], u@[j]));
                } else {
                    assert(!eq_ignore_case_byte(s@[i - 1], u@[i - 1]));
                }
            }
        }
        d == 0
    }

    /// Get the remaining slice after the first N elements.
    fn advance(&self, n: usize) -> (r: &[u8])
        requires
            n <= self.byte_seq().len(),
        ensures
            r@ == self.byte_seq().skip(n as int),
    {
        let s = self.as_ref();
        slice_subrange(s, n, s.len())
    }

    /// Get the remaining slice after the first N elements, with `n` in bounds.
    fn advance_unchecked(&self, n: usize) -> (r: &[u8])
        requires
            n <= self.byte_seq().len(),
        ensures
            r@ == self.byte_seq().skip(n as int),
    {
        self.advance(n)
    }

    /// Get the slice after skipping all leading characters equal c.
    fn skip_chars(&self, c: u8) -> (r: &[u8])
        ensures
            r@.len() <= self.byte_seq().len(),
            r@ == self.byte_seq().skip(self.byte_seq().len() - r@.len()),
            forall|j: int|
                0 <= j < self.byte_seq().len() - r@.len() ==> #[trigger] self.byte_seq()[j] == c,
            r@.len() > 0 ==> r@[0] != c,
            rest_after_leading(self.byte_seq(), r@, byte_is(c)),
    {
        let mut s = self.as_ref();
        assert(s@.skip(0) =~= s@);
        while s.len() > 0 && s[0] == c
            invariant
                rest_after_leading_prefix(self.byte_seq(), s@, byte_is(c)),
            decreases s@.len(),
        {
            let ghost prev = s@;
            s = slice_subrange(s, 1, s.len());
            assert(s@ =~= self.byte_seq().skip(self.byte_seq().len() - s@.len()));
            assert(self.byte_seq()[self.byte_seq().len() - prev.len()] == prev[0]);
        }
        assert forall|j: int| 0 <= j < self.byte_seq().len() - s@.len() implies #[trigger] self.byte_seq()[j]
            == c by {
            assert(byte_is(c)(self.byte_seq()[j]));
        }
        s
    }

    /// Get the slice after skipping all leading characters equal c1 or c2.
    fn skip_chars2(&self, c1: u8, c2: u8) -> (r: &[u8])
        ensures
            r@.len() <= self.byte_seq().len(),
            r@ == self.byte_seq().skip(self.byte_seq().len() - r@.len()),
            forall|j: int|
                0 <= j < self.byte_seq().len() - r@.len() ==> #[trigger] self.byte_seq()[j] == c1
                    || self.byte_seq()[j] == c2,
            r@.len() > 0 ==> r@[0] != c1 && r@[0] != c2,
            rest_after_leading(self.byte_seq(), r@, byte_is_either(c1, c2)),
    {
        let mut s = self.as_ref();
        assert(s@.skip(0) =~= s@);
        while s.len() > 0 && (s[0] == c1 || s[0] == c2)
            invariant
                rest_after_leading_prefix(self.byte_seq(), s@, byte_is_either(c1, c2)),
            decreases s@.len(),
        {
            let ghost prev = s@;
            s = slice_subrange(s, 1, s.len());
            assert(s@ =~= self.byte_seq().skip(self.byte_seq().len() - s@.len()));
            assert(self.byte_seq()[self.byte_seq().len() - prev.len()] == prev[0]);
        }
        assert forall|j: int| 0 <= j < self.byte_seq().len() - s@.len() implies #[trigger] self.byte_seq()[j]
            == c1 || self.byte_seq()[j] == c2 by {
            assert(byte_is_either(c1, c2)(self.byte_seq()[j]));
        }
        s
    }

    /// Read 8 bytes as a 64-bit integer in little-endian order.
    fn read_u64_unchecked(&self) -> (r: u64)
        requires
            self.byte_seq().len() >= 8,
        ensures
            le_bytes(r) == self.byte_seq().take(8),
    {
        let s = self.as_ref();
        let b0 = s[0] as u64;
        let b1 = s[1] as u64;
        let b2 = s[2] as u64;
        let b3 = s[3] as u64;
        let b4 = s[4] as u64;
        let b5 = s[5] as u64;
        let b6 = s[6] as u64;
        let b7 = s[7] as u64;
        let r: u64 = b0 | b1 << 8u64 | b2 << 16u64 | b3 << 24u64 | b4 << 32u64 | b5 << 40u64 | b6
            << 48u64 | b7 << 56u64;
        proof {
            lemma_le_bytes_of_bytes(b0, b1, b2, b3, b4, b5, b6, b7, r);
            assert(le_bytes(r) =~= s@.take(8));
        }
        r
    }

    /// Try to read the next 8 bytes from the slice.
    fn read_u64(&self) -> (r: Option<u64>)
        ensures
            r is Some <==> self.byte_seq().len() >= 8,
            r matches Some(v) ==> le_bytes(v) == self.byte_seq().take(8),
    {
        if self.check_len(8) {
            Some(self.read_u64_unchecked())
        } else {
            None
        }
    }
}

/// The loop invariant of the skipping loops: `r` is a suffix of `s`, and every
/// byte that was skipped satisfies `p`.
pub open spec fn rest_after_leading_prefix(s: Seq<u8>, r: Seq<u8>, p: spec_fn(u8) -> bool) -> bool {
    &&& r.len() <= s.len()
    &&& r == s.skip(s.len() - r.len())
    &&& forall|j: int| 0 <= j < s.len() - r.len() ==> #[trigger] p(s[j])
}

/// The word assembled from eight bytes, lowest first, gives them back.
proof fn lemma_le_bytes_of_bytes(
    b0: u64,
    b1: u64,
    b2: u64,
    b3: u64,
    b4: u64,
    b5: u64,
    b6: u64,
    b7: u64,
    r: u64,
)
    requires
        b0 < 256,
        b1 < 256,
        b2 < 256,
        b3 < 256,
        b4 < 256,
        b5 < 256,
        b6 < 256,
        b7 < 256,
        r == b0 | b1 << 8u64 | b2 << 16u64 | b3 << 24u64 | b4 << 32u64 | b5 << 40u64 | b6 << 48u64
            | b7 << 56u64,
    ensures
        r as u8 == b0,
        (r >> 8u64) as u8 == b1,
        (r >> 16u64) as u8 == b2,
        (r >> 24u64) as u8 == b3,
        (r >> 32u64) as u8 == b4,
        (r >> 40u64) as u8 == b5,
        (r >> 48u64) as u8 == b6,
        (r >> 56u64) as u8 == b7,
{
    assert(r as u8 == b0 && (r >> 8u64) as u8 == b1 && (r >> 16u64) as u8 == b2 && (r >> 24u64) as u8
        == b3 && (r >> 32u64) as u8 == b4 && (r >> 40u64) as u8 == b5 && (r >> 48u64) as u8 == b6
        && (r >> 56u64) as u8 == b7) by (bit_vector)
        requires
            b0 < 256,
            b1 < 256,
            b2 < 256,
            b3 < 256,
            b4 < 256,
            b5 < 256,
            b6 < 256,
            b7 < 256,
            r == b0 | b1 << 8u64 | b2 << 16u64 | b3 << 24u64 | b4 << 32u64 | b5 << 40u64 | b6
                << 48u64 | b7 << 56u64,
    ;
}

impl ByteSlice for [u8] {
    open spec fn byte_seq(&self) -> Seq<u8> {
        self@
    }

    fn as_ref(&self) -> (r: &[u8]) {
        self
    }
}

/// The rest after a leading run is unique: `skip_chars` and `skip_chars2` have
/// one possible result.
pub proof fn lemma_rest_after_leading_unique(
    s: Seq<u8>,
    r1: Seq<u8>,
    r2: Seq<u8>,
    p: spec_fn(u8) -> bool,
)
    requires
        rest_after_leading(s, r1, p),
        rest_after_leading(s, r2, p),
    ensures
        r1 == r2,
{
    let k1 = s.len() - r1.len();
    let k2 = s.len() - r2.len();
    if k1 < k2 {
        assert(r1[0] == s[k1]);
        assert(p(s[k1]));
    } else if k2 < k1 {
        assert(r2[0] == s[k2]);
        assert(p(s[k2]));
    }
}

/// Skipping a leading run again skips nothing more.
pub proof fn lemma_rest_after_leading_idempotent(s: Seq<u8>, r: Seq<u8>, p: spec_fn(u8) -> bool)
    requires
        rest_after_leading(s, r, p),
    ensures
        rest_after_leading(r, r, p),
{
    assert(r.skip(0) =~= r);
}

/// Advancing by `a` and then by `b` advances by `a + b`.
pub proof fn lemma_advance_twice(s: Seq<u8>, a: int, b: int)
    requires
        0 <= a,
        0 <= b,
        a + b <= s.len(),
    ensures
        s.skip(a).skip(b) == s.skip(a + b),
{
    assert(s.skip(a).skip(b) =~= s.skip(a + b));
}

/// Two bytes are equal ignoring case exactly when they are equal, or are the
/// upper- and lower-case forms of one ASCII letter.
pub proof fn lemma_eq_ignore_case_byte_meaning(a: u8, b: u8)
    ensures
        eq_ignore_case_byte(a, b) <==> (a == b || (0x41 <= a <= 0x5a && b == a + 0x20) || (0x41
            <= b <= 0x5a && a == b + 0x20)),
{
}

/// Each upper-case ASCII letter matches its lower-case form, and only that
/// byte besides itself.
pub proof fn lemma_letters_match_their_other_case(l: u8, b: u8)
    requires
        0x41 <= l <= 0x5a,
    ensures
        eq_ignore_case_byte(l, (l + 0x20) as u8),
        eq_ignore_case_byte(l, b) <==> (b == l || b == l + 0x20),
{
    lemma_eq_ignore_case_byte_meaning(l, (l + 0x20) as u8);
    lemma_eq_ignore_case_byte_meaning(l, b);
}

/// A byte is an ASCII digit exactly when it is `b'0'` plus a value below ten.
pub proof fn lemma_is_ascii_digit_meaning(b: u8)
    ensures
        is_ascii_digit(b) <==> exists|d: int| 0 <= d < 10 && #[trigger] (0x30 + d) == b,
{
    if is_ascii_digit(b) {
        assert(0x30 + (b - 0x30) == b);
    }
}

/// The eight bytes of `v`, lowest first, are its base-256 digits.
pub proof fn lemma_le_bytes_value(v: u64)
    ensures
        le_bytes(v).len() == 8,
        v == le_bytes(v)[0] + 0x100 * le_bytes(v)[1] + 0x1_0000 * le_bytes(v)[2] + 0x100_0000
            * le_bytes(v)[3] + 0x1_0000_0000 * le_bytes(v)[4] + 0x100_0000_0000 * le_bytes(v)[5]
            + 0x1_0000_0000_0000 * le_bytes(v)[6] + 0x100_0000_0000_0000 * le_bytes(v)[7],
{
    assert(v == (v as u8) + 0x100 * ((v >> 8u64) as u8) + 0x1_0000 * ((v >> 16u64) as u8)
        + 0x100_0000 * ((v >> 24u64) as u8) + 0x1_0000_0000 * ((v >> 32u64) as u8) + 0x100_0000_0000
        * ((v >> 40u64) as u8) + 0x1_0000_0000_0000 * ((v >> 48u64) as u8) + 0x100_0000_0000_0000
        * ((v >> 56u64) as u8)) by (bit_vector);
}

} // verus!
