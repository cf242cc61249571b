//! Character classes of the surface syntax.

use vstd::prelude::*;

verus! {

/// The characters with the Unicode `White_Space` property.
pub open spec fn is_unicode_whitespace(c: char) -> bool {
    let n = c as u32;
    ||| 0x09 <= n <= 0x0D
    ||| n == 0x20
    ||| n == 0x85
    ||| n == 0xA0
    ||| n == 0x1680
    ||| 0x2000 <= n <= 0x200A
    ||| n == 0x2028
    ||| n == 0x2029
    ||| n == 0x202F
    ||| n == 0x205F
    ||| n == 0x3000
}

/// A separator is Unicode whitespace or a comma.
pub open spec fn is_separator(c: char) -> bool {
    is_unicode_whitespace(c) || c == ','
}

/// The three characters that open a group.
pub open spec fn is_opener(c: char) -> bool {
    c == '(' || c == '[' || c == '{'
}

/// The three characters that close a group.
pub open spec fn is_closer(c: char) -> bool {
    c == ')' || c == ']' || c == '}'
}

/// The six structural delimiters.
pub open spec fn is_delimiter(c: char) -> bool {
    is_opener(c) || is_closer(c)
}

/// The decimal digits `0` to `9`.
pub open spec fn is_digit(c: char) -> bool {
    '0' <= c <= '9'
}

/// Tells whether `c` separates tokens without being one.
pub fn is_whitespace(c: char) -> (r: bool)
    ensures
        r == is_separator(c),
{
    let n: u32 = c as u32;
    (0x09 <= n && n <= 0x0D) || n == 0x20 || n == 0x85 || n == 0xA0 || n == 0x1680 || (0x2000 <= n
        && n <= 0x200A) || n == 0x2028 || n == 0x2029 || n == 0x202F || n == 0x205F || n == 0x3000
        || c == ','
}

/// Tells whether `c` opens a group.
pub fn opens_group(c: char) -> (r: bool)
    ensures
        r == is_opener(c),
{
    c == '(' || c == '[' || c == '{'
}

/// Tells whether `c` closes a group.
pub fn closes_group(c: char) -> (r: bool)
    ensures
        r == is_closer(c),
{
    c == ')' || c == ']' || c == '}'
}

/// Tells whether `c` is a decimal digit.
pub fn is_decimal_digit(c: char) -> (r: bool)
    ensures
        r == is_digit(c),
{
    '0' <= c && c <= '9'
}

} // verus!
