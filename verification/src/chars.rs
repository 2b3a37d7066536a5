use vstd::prelude::*;

verus! {

/// The Unicode White_Space property: the characters the parser skips
/// between tokens.
pub open spec fn is_whitespace_char(c: char) -> bool {
    let u = c as u32;
    (0x09 <= u && u <= 0x0D) || u == 0x20 || u == 0x85 || u == 0xA0 || u == 0x1680 || (0x2000
        <= u && u <= 0x200A) || u == 0x2028 || u == 0x2029 || u == 0x202F || u == 0x205F || u
        == 0x3000
}

/// Runtime test for [`is_whitespace_char`].
pub fn whitespace_char(c: char) -> (r: bool)
    ensures
        r == is_whitespace_char(c),
{
    let u = c as u32;
    (0x09 <= u && u <= 0x0D) || u == 0x20 || u == 0x85 || u == 0xA0 || u == 0x1680 || (0x2000
        <= u && u <= 0x200A) || u == 0x2028 || u == 0x2029 || u == 0x202F || u == 0x205F || u
        == 0x3000
}

/// The Unicode control characters (category Cc), rejected when they appear
/// raw inside a string literal.
pub open spec fn is_control_char(c: char) -> bool {
    let u = c as u32;
    u <= 0x1F || (0x7F <= u && u <= 0x9F)
}

/// Runtime test for [`is_control_char`].
pub fn control_char(c: char) -> (r: bool)
    ensures
        r == is_control_char(c),
{
    let u = c as u32;
    u <= 0x1F || (0x7F <= u && u <= 0x9F)
}

/// An ASCII decimal digit.
pub open spec fn is_ascii_digit_char(c: char) -> bool {
    '0' <= c && c <= '9'
}

/// Runtime test for [`is_ascii_digit_char`].
pub fn ascii_digit_char(c: char) -> (r: bool)
    ensures
        r == is_ascii_digit_char(c),
{
    let u = c as u32;
    0x30 <= u && u <= 0x39
}

/// The numeric value of an ASCII decimal digit, and 0 elsewhere.
pub open spec fn digit_value(c: char) -> nat {
    if is_ascii_digit_char(c) {
        (c as u32 - 0x30) as nat
    } else {
        0
    }
}

/// The value of a hexadecimal digit: `Some` exactly on `0-9`, `a-f`, `A-F`.
pub open spec fn spec_hex_value(c: char) -> Option<u32> {
    let u = c as u32;
    if 0x30 <= u && u <= 0x39 {
        Some((u - 0x30) as u32)
    } else if 0x61 <= u && u <= 0x66 {
        Some((u - 0x61 + 10) as u32)
    } else if 0x41 <= u && u <= 0x46 {
        Some((u - 0x41 + 10) as u32)
    } else {
        None
    }
}

/// Runtime hexadecimal digit decoder, equal to [`spec_hex_value`].
pub fn hex_value(c: char) -> (r: Option<u32>)
    ensures
        r == spec_hex_value(c),
{
    let u = c as u32;
    if 0x30 <= u && u <= 0x39 {
        Some(u - 0x30)
    } else if 0x61 <= u && u <= 0x66 {
        Some(u - 0x61 + 10)
    } else if 0x41 <= u && u <= 0x46 {
        Some(u - 0x41 + 10)
    } else {
        None
    }
}

/// A Unicode scalar value: what a `char` can hold.
pub open spec fn is_scalar_value(u: u32) -> bool {
    u < 0xD800 || (0xE000 <= u && u <= 0x10FFFF)
}

/// Relies on char::from_u32: `Some` exactly when `u` is a Unicode scalar
/// value, and then the character with that scalar value.
#[verifier::external_body]
pub fn char_from_u32(u: u32) -> (r: Option<char>)
    ensures
        r is Some == is_scalar_value(u),
        (r matches Some(c) ==> c as u32 == u),
{
    char::from_u32(u)
}

/// Appends one character. Relies on String::push.
#[verifier::external_body]
pub fn push_char(s: &mut String, c: char)
    ensures
        final(s)@ == old(s)@.push(c),
{
    s.push(c)
}

} // verus!
