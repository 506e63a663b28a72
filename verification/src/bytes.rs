//! The bytes that the encoders tell apart, and the two tests on a byte that
//! they share.

use vstd::prelude::*;

verus! {

/// Horizontal tab.
pub const TAB: u8 = 0x09;

/// Line feed.
pub const LINE_FEED: u8 = 0x0a;

/// Form feed.
pub const FORM_FEED: u8 = 0x0c;

/// Carriage return.
pub const CARRIAGE_RETURN: u8 = 0x0d;

/// Space.
pub const SPACE: u8 = 0x20;

/// `"`
pub const DOUBLE_QUOTE: u8 = 0x22;

/// `#`
pub const HASH: u8 = 0x23;

/// `&`
pub const AMPERSAND: u8 = 0x26;

/// `'`
pub const SINGLE_QUOTE: u8 = 0x27;

/// `0`
pub const DIGIT_ZERO: u8 = 0x30;

/// `9`
pub const DIGIT_NINE: u8 = 0x39;

/// `;`
pub const SEMICOLON: u8 = 0x3b;

/// `>`
pub const GREATER_THAN: u8 = 0x3e;

/// `G`
pub const UPPER_G: u8 = 0x47;

/// `T`
pub const UPPER_T: u8 = 0x54;

/// An ASCII decimal digit.
pub open spec fn spec_is_digit(b: u8) -> bool {
    DIGIT_ZERO <= b <= DIGIT_NINE
}

/// One of the five bytes that markup counts as whitespace: tab, line feed, form
/// feed, carriage return, space.
pub open spec fn spec_is_whitespace(b: u8) -> bool {
    b == TAB || b == LINE_FEED || b == FORM_FEED || b == CARRIAGE_RETURN || b == SPACE
}

/// Whether `b` is an ASCII decimal digit.
#[verifier::when_used_as_spec(spec_is_digit)]
pub fn is_digit(b: u8) -> (yes: bool)
    ensures
        yes == spec_is_digit(b),
{
    DIGIT_ZERO <= b && b <= DIGIT_NINE
}

/// Whether `b` is whitespace.
#[verifier::when_used_as_spec(spec_is_whitespace)]
pub fn is_whitespace(b: u8) -> (yes: bool)
    ensures
        yes == spec_is_whitespace(b),
{
    b == TAB || b == LINE_FEED || b == FORM_FEED || b == CARRIAGE_RETURN || b == SPACE
}

} // verus!
