//! The hexadecimal digit classifier.
//!
//! One byte is tested against the three digit ranges independently and the
//! results are joined with `or`, exactly as the blockwise decoder applies the
//! same three range tests to every lane of a block in parallel.

use vstd::prelude::*;

use crate::model::{hex_value, is_hex_digit};

verus! {

/// Classify a byte as a hexadecimal digit and return its 4-bit value, or
/// `None` when the byte lies in none of the three ranges.
pub fn hex_digit_value(b: u8) -> (r: Option<u8>)
    ensures
        r is Some <==> is_hex_digit(b),
        r is Some ==> r->0 == hex_value(b) && r->0 < 16,
{
    let digit = 48 <= b && b <= 57;
    let upper = 65 <= b && b <= 70;
    let lower = 97 <= b && b <= 102;
    if digit {
        Some(b - 48)
    } else if upper {
        Some(b - 55)
    } else if lower {
        Some(b - 87)
    } else {
        None
    }
}

} // verus!
