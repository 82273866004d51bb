use vstd::prelude::*;

use crate::digits::DigitSink;

verus! {

/// A big decimal number, kept as its significant digits.
#[derive(Clone)]
pub struct Decimal {
    /// The number of significant digits in the decimal.
    pub num_digits: usize,
    /// The offset of the decimal point in the significant digits.
    pub decimal_point: i32,
    /// If the sign of the float is negative.
    pub negative: bool,
    /// If the number of significant digits stored in the decimal is truncated.
    pub truncated: bool,
    /// Buffer of the raw digits, in the range [0, 9].
    pub digits: [u8; 768],
}

impl Decimal {
    /// The capacity of the digit buffer.
    pub const MAX_DIGITS: usize = 768;

    /// The same decimal with `digit` appended when the buffer has room, and
    /// unchanged when it is full.
    pub open spec fn with_digit_if_room(self, digit: u8) -> Decimal {
        if self.num_digits < Self::MAX_DIGITS {
            Decimal {
                num_digits: (self.num_digits + 1) as usize,
                digits: vstd::array::spec_array_update(self.digits, self.num_digits as int, digit),
                ..self
            }
        } else {
            self
        }
    }

    /// Append a digit to the buffer.
    ///
    /// The digit is stored, and counted, only while the buffer has room: the
    /// number of digits never passes `MAX_DIGITS`.
    pub fn try_add_digit(&mut self, digit: u8)
        ensures
            *final(self) == old(self).with_digit_if_room(digit),
            old(self).num_digits <= Self::MAX_DIGITS ==> final(self).num_digits
                <= Self::MAX_DIGITS,
            old(self).num_digits >= Self::MAX_DIGITS ==> *final(self) == *old(self),
            old(self).num_digits < Self::MAX_DIGITS ==> {
                &&& final(self).num_digits == old(self).num_digits + 1
                &&& final(self).digits@ == old(self).digits@.update(
                    old(self).num_digits as int,
                    digit,
                )
                &&& final(self).decimal_point == old(self).decimal_point
                &&& final(self).negative == old(self).negative
                &&& final(self).truncated == old(self).truncated
            },
    {
        if self.num_digits < Self::MAX_DIGITS {
            self.digits[self.num_digits] = digit;
            self.num_digits += 1;
        }
    }
}

impl DigitSink for Decimal {
    /// The digit is counted in any case, and stored while the buffer has
    /// room; a count past `MAX_DIGITS` tells that digits were dropped.
    open spec fn after_digit(self, digit: u8) -> Decimal {
        Decimal {
            num_digits: (self.num_digits + 1) as usize,
            digits: if self.num_digits < Self::MAX_DIGITS {
                vstd::array::spec_array_update(self.digits, self.num_digits as int, digit)
            } else {
                self.digits
            },
            ..self
        }
    }

    open spec fn can_take_digit(self) -> bool {
        self.num_digits < usize::MAX
    }

    fn push_digit(&mut self, digit: u8) {
        if self.num_digits < Self::MAX_DIGITS {
            self.digits[self.num_digits] = digit;
        }
        self.num_digits += 1;
    }
}

/// Below capacity, `try_add_digit` and the counting `push_digit` append a
/// digit alike.
pub proof fn lemma_add_digit_agree(d: Decimal, digit: u8)
    requires
        d.num_digits < Decimal::MAX_DIGITS,
    ensures
        d.with_digit_if_room(digit) == d.after_digit(digit),
{
}

/// Appending while the buffer has room stores the digit at index
/// `num_digits` and counts it; appending to a full buffer changes nothing.
pub proof fn lemma_with_digit_if_room(d: Decimal, digit: u8)
    ensures
        d.num_digits >= Decimal::MAX_DIGITS ==> d.with_digit_if_room(digit) == d,
        d.num_digits < Decimal::MAX_DIGITS ==> {
            let e = d.with_digit_if_room(digit);
            &&& e.num_digits == d.num_digits + 1
            &&& e.digits@ == d.digits@.update(d.num_digits as int, digit)
            &&& e.decimal_point == d.decimal_point
            &&& e.negative == d.negative
            &&& e.truncated == d.truncated
        },
{
}

/// The counting append always counts the digit, stores it at index
/// `num_digits` while the buffer has room, and leaves every stored digit
/// alone once it is full.
pub proof fn lemma_after_digit(d: Decimal, digit: u8)
    requires
        d.num_digits < usize::MAX,
    ensures
        ({
            let e = d.after_digit(digit);
            &&& e.num_digits == d.num_digits + 1
            &&& d.num_digits < Decimal::MAX_DIGITS ==> e.digits@ == d.digits@.update(
                d.num_digits as int,
                digit,
            )
            &&& d.num_digits >= Decimal::MAX_DIGITS ==> e.digits@ == d.digits@
            &&& e.decimal_point == d.decimal_point
            &&& e.negative == d.negative
            &&& e.truncated == d.truncated
        }),
{
}

} // verus!
