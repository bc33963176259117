//! Decimal rendering of unsigned integers, the textual building block for
//! the serialized table artifact and the histogram report.

use vstd::prelude::*;

verus! {

/// The character for a single decimal digit value.
pub open spec fn digit_char(d: nat) -> char {
    if d == 0 {
        '0'
    } else if d == 1 {
        '1'
    } else if d == 2 {
        '2'
    } else if d == 3 {
        '3'
    } else if d == 4 {
        '4'
    } else if d == 5 {
        '5'
    } else if d == 6 {
        '6'
    } else if d == 7 {
        '7'
    } else if d == 8 {
        '8'
    } else {
        '9'
    }
}

/// The usual decimal rendering of a natural number: most significant digit
/// first, no sign, no padding, and a single `'0'` for zero.
pub open spec fn dec_str(n: nat) -> Seq<char>
    decreases n,
{
    if n < 10 {
        seq![digit_char(n)]
    } else {
        dec_str(n / 10).push(digit_char(n % 10))
    }
}

/// Relies on the `Display` implementation for `usize`: `format!` renders an
/// unsigned integer as its decimal digits, most significant digit first,
/// with no sign and no padding.
#[verifier::external_body]
pub fn usize_to_string(n: usize) -> (s: String)
    ensures
        s@ == dec_str(n as nat),
{
    format!("{}", n)
}

} // verus!
