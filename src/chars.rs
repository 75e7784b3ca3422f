//! Character classes, and the standard-library calls on characters and
//! strings that the library relies on.
use vstd::prelude::*;

verus! {

/// JSON whitespace: space, tab, line feed and carriage return, nothing else.
pub open spec fn is_ws(c: char) -> bool {
    c == ' ' || c == '\t' || c == '\n' || c == '\r'
}

pub open spec fn is_digit(c: char) -> bool {
    '0' <= c <= '9'
}

pub open spec fn digit_value(c: char) -> int {
    c as int - '0' as int
}

pub open spec fn is_hex(c: char) -> bool {
    is_digit(c) || 'a' <= c <= 'f' || 'A' <= c <= 'F'
}

pub open spec fn hex_value(c: char) -> int {
    if is_digit(c) {
        digit_value(c)
    } else if 'a' <= c <= 'f' {
        c as int - 'a' as int + 10
    } else {
        c as int - 'A' as int + 10
    }
}

/// The Unicode scalar value of `c`.
pub open spec fn scalar(c: char) -> int {
    c as u32 as int
}

/// The character whose scalar value is `u`.
pub open spec fn char_of(u: int) -> char {
    choose|c: char| #[trigger] scalar(c) == u
}

/// A character is the one character with its scalar value.
pub proof fn lemma_char_of(c: char, u: int)
    requires
        scalar(c) == u,
    ensures
        char_of(u) == c,
{
    let d = char_of(u);
    assert(scalar(d) == u);
    assert(d as u32 == c as u32);
}

/// Relies on `char::from_u32`: `Some` exactly for the Unicode scalar values,
/// holding the character with that value.
#[verifier::external_body]
pub(crate) fn char_from_u32(u: u32) -> (r: Option<char>)
    ensures
        r is Some <==> (u < 0xD800 || (0xE000 <= u && u <= 0x10FFFF)),
        r matches Some(c) ==> c as u32 == u,
{
    char::from_u32(u)
}

/// Relies on `String::push`: appends one character.
#[verifier::external_body]
pub(crate) fn push_char(s: &mut String, c: char)
    ensures
        final(s)@ == old(s)@.push(c),
{
    s.push(c);
}

} // verus!
