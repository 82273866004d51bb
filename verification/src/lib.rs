//! Byte-level building blocks of a decimal number parser: a cursor over ASCII
//! bytes, case-insensitive prefix tests, digit scanning into a big-decimal
//! buffer, and a SWAR routine that tests and parses eight digits at a time.

pub mod ascii_str;
pub mod bytes;
pub mod decimal;
pub mod digits;
pub mod eight_digits;
