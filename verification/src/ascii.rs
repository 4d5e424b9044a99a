//! The ASCII bytes that the image text is made of.

use vstd::prelude::*;

verus! {

/// The byte that ends a line.
pub const LINE_FEED: u8 = 10;

/// The byte between two numbers on a line.
pub const SPACE: u8 = 32;

/// The sign in front of a negative number.
pub const MINUS: u8 = 45;

/// The digit `0`; the other digits follow it in order.
pub const DIGIT_ZERO: u8 = 48;

/// The digit `9`.
pub const DIGIT_NINE: u8 = 57;

/// The letter `P`, with which the format tag begins.
pub const LETTER_P: u8 = 80;

} // verus!
