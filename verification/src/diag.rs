//! Small verified string building: decimal rendering and diagnostic
//! lines that the embedding application hands to its logger.

use vstd::prelude::*;
use vstd::string::StringExecFns;

verus! {

/// Relies on `String::push` (std, not specified by vstd): appends the
/// given character to the end of the string.
pub assume_specification[ String::push ](s: &mut String, ch: char)
    ensures
        final(s)@ == old(s)@.push(ch),
;

/// The character for one decimal digit.
pub open spec fn dec_digit(d: int) -> char {
    (48 + d) as char
}

/// The decimal numeral of a non-negative number, most significant digit
/// first, without leading zeros (a single zero for zero itself).
pub open spec fn dec_rep(n: int) -> Seq<char>
    decreases n,
{
    if n < 10 {
        seq![dec_digit(n)]
    } else {
        dec_rep(n / 10).push(dec_digit(n % 10))
    }
}

/// The character for a digit below ten.
fn digit_char(d: u32) -> (c: char)
    requires
        d < 10,
    ensures
        c == dec_digit(d as int),
{
    ((48 + d) as u8) as char
}

/// Renders a number in decimal.
pub fn u32_to_decimal(n: u32) -> (r: String)
    ensures
        r@ == dec_rep(n as int),
    decreases n,
{
    if n < 10 {
        let mut s = String::new();
        s.push(digit_char(n));
        proof {
            assert(s@ =~= seq![dec_digit(n as int)]);
        }
        s
    } else {
        let mut s = u32_to_decimal(n / 10);
        s.push(digit_char(n % 10));
        s
    }
}

/// The diagnostic line announcing that an STL file is being loaded from
/// the given path.  The caller hands the returned line to its logger.
pub fn debug_print_stl_load(abs_path: &str) -> (r: String)
    ensures
        r@ == "Loading STL file: "@ + abs_path@,
{
    let mut s: String = "Loading STL file: ".to_owned();
    s.append(abs_path);
    s
}

} // verus!
