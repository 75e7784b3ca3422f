//! The JSON grammar, stated over positions in a sequence of characters. Each
//! rule gives the value read at a position and the position after it, or the
//! error that the parser reports there.
use vstd::prelude::*;
use crate::chars::{is_ws, is_digit, digit_value, is_hex, hex_value, char_of};
use crate::value::{ErrorKind, Json};

verus! {

/// Deepest nesting of arrays and objects that the parser accepts.
pub const MAX_DEPTH: usize = 128;

pub open spec fn at(s: Seq<char>, i: int, c: char) -> bool {
    0 <= i < s.len() && s[i] == c
}

/// Whether `lit` stands in `s` at `i`.
pub open spec fn has_literal(s: Seq<char>, i: int, lit: Seq<char>) -> bool {
    0 <= i && i + lit.len() <= s.len() && s.subrange(i, i + lit.len()) == lit
}

/// The end of the run of whitespace that starts at `i`.
pub open spec fn ws_end(s: Seq<char>, i: int) -> int
    decreases s.len() - i,
{
    if 0 <= i < s.len() && is_ws(s[i]) {
        ws_end(s, i + 1)
    } else {
        i
    }
}

/// The end of the run of decimal digits that starts at `i`.
pub open spec fn digits_end(s: Seq<char>, i: int) -> int
    decreases s.len() - i,
{
    if 0 <= i < s.len() && is_digit(s[i]) {
        digits_end(s, i + 1)
    } else {
        i
    }
}

/// The number that a sequence of decimal digits writes.
pub open spec fn digits_value(t: Seq<char>) -> int
    decreases t.len(),
{
    if t.len() == 0 {
        0
    } else {
        10 * digits_value(t.drop_last()) + digit_value(t.last())
    }
}

/// The end of the integer part that starts at `a`: a lone `0`, or one or more
/// digits of which the first is not `0`.
pub open spec fn int_part_end(s: Seq<char>, a: int) -> Option<int> {
    if at(s, a, '0') {
        if a + 1 < s.len() && is_digit(s[a + 1]) {
            None
        } else {
            Some(a + 1)
        }
    } else if digits_end(s, a) > a {
        Some(digits_end(s, a))
    } else {
        None
    }
}

/// The end of the optional fraction (`.` and one or more digits) at `b`.
pub open spec fn frac_end(s: Seq<char>, b: int) -> Option<int> {
    if at(s, b, '.') {
        if digits_end(s, b + 1) > b + 1 {
            Some(digits_end(s, b + 1))
        } else {
            None
        }
    } else {
        Some(b)
    }
}

/// The end of the optional exponent (`e` or `E`, an optional sign, one or more
/// digits) at `c`.
pub open spec fn exp_end(s: Seq<char>, c: int) -> Option<int> {
    if at(s, c, 'e') || at(s, c, 'E') {
        let d = if at(s, c + 1, '+') || at(s, c + 1, '-') {
            c + 2
        } else {
            c + 1
        };
        if digits_end(s, d) > d {
            Some(digits_end(s, d))
        } else {
            None
        }
    } else {
        Some(c)
    }
}

pub open spec fn fits_i64(n: int) -> bool {
    i64::MIN <= n <= i64::MAX
}

/// The number literal at `i`: a `Float` holding the literal's text where it has
/// a fraction or an exponent, else an `Int` that must fit in 64 bits.
pub open spec fn number_spec(s: Seq<char>, i: int) -> Option<(Json, int)> {
    let a = if at(s, i, '-') {
        i + 1
    } else {
        i
    };
    match int_part_end(s, a) {
        None => None,
        Some(b) => match frac_end(s, b) {
            None => None,
            Some(c) => match exp_end(s, c) {
                None => None,
                Some(e) => if c > b || e > c {
                    Some((Json::Float(s.subrange(i, e)), e))
                } else {
                    let m = digits_value(s.subrange(a, b));
                    let n = if a > i {
                        -m
                    } else {
                        m
                    };
                    if fits_i64(n) {
                        Some((Json::Int(n), e))
                    } else {
                        None
                    }
                },
            },
        },
    }
}

/// The four hexadecimal digits at `k`, as a number.
pub open spec fn hex4(s: Seq<char>, k: int) -> Option<int> {
    if 0 <= k && k + 4 <= s.len() && is_hex(s[k]) && is_hex(s[k + 1]) && is_hex(s[k + 2])
        && is_hex(s[k + 3]) {
        Some(
            4096 * hex_value(s[k]) + 256 * hex_value(s[k + 1]) + 16 * hex_value(s[k + 2])
                + hex_value(s[k + 3]),
        )
    } else {
        None
    }
}

pub open spec fn is_high_surrogate(u: int) -> bool {
    0xD800 <= u <= 0xDBFF
}

pub open spec fn is_low_surrogate(u: int) -> bool {
    0xDC00 <= u <= 0xDFFF
}

/// The code point that a UTF-16 surrogate pair encodes.
pub open spec fn surrogate_pair_value(hi: int, lo: int) -> int {
    0x10000 + (hi - 0xD800) * 0x400 + (lo - 0xDC00)
}

/// The escape sequence whose backslash stands just before `k`: the character it
/// stands for and the position after it.
pub open spec fn escape_spec(s: Seq<char>, k: int) -> Result<(char, int), ErrorKind> {
    if !(0 <= k < s.len()) {
        Err(ErrorKind::InvalidString)
    } else {
        let c = s[k];
        if c == '"' || c == '\\' || c == '/' {
            Ok((c, k + 1))
        } else if c == 'b' {
            Ok(('\x08', k + 1))
        } else if c == 'f' {
            Ok(('\x0c', k + 1))
        } else if c == 'n' {
            Ok(('\n', k + 1))
        } else if c == 'r' {
            Ok(('\r', k + 1))
        } else if c == 't' {
            Ok(('\t', k + 1))
        } else if c == 'u' {
            match hex4(s, k + 1) {
                None => Err(ErrorKind::InvalidEscapeSequence),
                Some(u) => if is_low_surrogate(u) {
                    Err(ErrorKind::InvalidEscapeSequence)
                } else if is_high_surrogate(u) {
                    if at(s, k + 5, '\\') && at(s, k + 6, 'u') {
                        match hex4(s, k + 7) {
                            Some(l) => if is_low_surrogate(l) {
                                Ok((char_of(surrogate_pair_value(u, l)), k + 11))
                            } else {
                                Err(ErrorKind::InvalidEscapeSequence)
                            },
                            None => Err(ErrorKind::InvalidEscapeSequence),
                        }
                    } else {
                        Err(ErrorKind::InvalidEscapeSequence)
                    }
                } else {
                    Ok((char_of(u), k + 5))
                },
            }
        } else {
            Err(ErrorKind::InvalidEscapeSequence)
        }
    }
}

/// The content of a string from `k` up to and including its closing quote.
pub open spec fn string_body(s: Seq<char>, k: int) -> Result<(Seq<char>, int), ErrorKind>
    decreases s.len() - k,
{
    if !(0 <= k < s.len()) {
        Err(ErrorKind::InvalidString)
    } else if s[k] == '"' {
        Ok((Seq::empty(), k + 1))
    } else if (s[k] as u32) < 0x20 {
        Err(ErrorKind::InvalidString)
    } else if s[k] == '\\' {
        match escape_spec(s, k + 1) {
            Err(x) => Err(x),
            Ok((c, e)) => match string_body(s, e) {
                Ok((t, f)) => Ok((seq![c] + t, f)),
                Err(x) => Err(x),
            },
        }
    } else {
        match string_body(s, k + 1) {
            Ok((t, f)) => Ok((seq![s[k]] + t, f)),
            Err(x) => Err(x),
        }
    }
}

/// The quoted string at `i`: its decoded text and the position after it.
pub open spec fn string_spec(s: Seq<char>, i: int) -> Result<(Seq<char>, int), ErrorKind> {
    if at(s, i, '"') {
        string_body(s, i + 1)
    } else {
        Err(ErrorKind::InvalidString)
    }
}

/// `ms` with the member `m` put in: it replaces the member of the same key,
/// or, where there is none, comes last.
pub open spec fn insert_member(ms: Seq<(Seq<char>, Json)>, m: (Seq<char>, Json)) -> Seq<
    (Seq<char>, Json),
> {
    if exists|i: int| 0 <= i < ms.len() && #[trigger] ms[i].0 == m.0 {
        Seq::new(ms.len(), |i: int| if ms[i].0 == m.0 { m } else { ms[i] })
    } else {
        ms.push(m)
    }
}

/// The object that members read in this order make: for a repeated key the
/// last value wins.
pub open spec fn build_object(raw: Seq<(Seq<char>, Json)>) -> Seq<(Seq<char>, Json)>
    decreases raw.len(),
{
    if raw.len() == 0 {
        Seq::empty()
    } else {
        insert_member(build_object(raw.drop_last()), raw.last())
    }
}

/// The value whose first character stands at `k`, chosen by that character.
pub open spec fn token_spec(s: Seq<char>, k: int, d: nat) -> Result<(Json, int), ErrorKind>
    decreases d, 1nat, 0int,
{
    let c = s[k];
    if c == '"' {
        match string_spec(s, k) {
            Ok((t, e)) => Ok((Json::Str(t), e)),
            Err(x) => Err(x),
        }
    } else if c == '{' {
        object_spec(s, k, d)
    } else if c == '[' {
        array_spec(s, k, d)
    } else if c == 'n' {
        if has_literal(s, k, seq!['n', 'u', 'l', 'l']) {
            Ok((Json::Null, k + 4))
        } else {
            Err(ErrorKind::InvalidNull)
        }
    } else if c == 't' {
        if has_literal(s, k, seq!['t', 'r', 'u', 'e']) {
            Ok((Json::Bool(true), k + 4))
        } else {
            Err(ErrorKind::InvalidBool)
        }
    } else if c == 'f' {
        if has_literal(s, k, seq!['f', 'a', 'l', 's', 'e']) {
            Ok((Json::Bool(false), k + 5))
        } else {
            Err(ErrorKind::InvalidBool)
        }
    } else if c == '-' || is_digit(c) {
        match number_spec(s, k) {
            Some((n, e)) => Ok((n, e)),
            None => Err(ErrorKind::InvalidNumber),
        }
    } else {
        Err(ErrorKind::InvalidValue)
    }
}

/// The value at `i`, with the whitespace before and after it, read with `d`
/// more levels of nesting allowed.
pub open spec fn value_spec(s: Seq<char>, i: int, d: nat) -> Result<(Json, int), ErrorKind>
    decreases d, 2nat, 0int,
{
    let k = ws_end(s, i);
    if !(0 <= k < s.len()) {
        Err(ErrorKind::Empty)
    } else {
        match token_spec(s, k, d) {
            Ok((v, e)) => Ok((v, ws_end(s, e))),
            Err(x) => Err(x),
        }
    }
}

/// The array at `i`.
pub open spec fn array_spec(s: Seq<char>, i: int, d: nat) -> Result<(Json, int), ErrorKind>
    decreases d, 0nat, 0int,
{
    if !at(s, i, '[') {
        Err(ErrorKind::MissingArrayStart)
    } else if d == 0 {
        Err(ErrorKind::TooDeep)
    } else {
        let k = ws_end(s, i + 1);
        if !(0 <= k < s.len()) {
            Err(ErrorKind::MissingArrayEnd)
        } else if s[k] == ']' {
            Ok((Json::Array(Seq::empty()), k + 1))
        } else {
            match elements_spec(s, k, (d - 1) as nat) {
                Ok((vs, e)) => Ok((Json::Array(vs), e)),
                Err(x) => Err(x),
            }
        }
    }
}

/// The elements of a non-empty array from `k` up to and including `]`.
pub open spec fn elements_spec(s: Seq<char>, k: int, d: nat) -> Result<(Seq<Json>, int), ErrorKind>
    decreases d, 4nat, s.len() - k,
{
    match value_spec(s, k, d) {
        Err(x) => Err(x),
        Ok((v, j)) => if !(0 <= j < s.len()) {
            Err(ErrorKind::MissingArrayEnd)
        } else if s[j] == ']' {
            Ok((seq![v], j + 1))
        } else if s[j] == ',' {
            let m = ws_end(s, j + 1);
            if !(0 <= m < s.len()) {
                Err(ErrorKind::MissingArrayEnd)
            } else if s[m] == ']' {
                Err(ErrorKind::InvalidArray)
            } else if j < k {
                // never taken: a value ends after it starts
                Err(ErrorKind::InvalidArray)
            } else {
                match elements_spec(s, j + 1, d) {
                    Ok((vs, e)) => Ok((seq![v] + vs, e)),
                    Err(x) => Err(x),
                }
            }
        } else {
            Err(ErrorKind::MissingArrayEnd)
        },
    }
}

/// The member at `k`, whitespace before it included: its key and its value.
pub open spec fn pair_spec(s: Seq<char>, k: int, d: nat) -> Result<((Seq<char>, Json), int), ErrorKind>
    decreases d, 3nat, 0int,
{
    let k = ws_end(s, k);
    if !(0 <= k < s.len()) {
        Err(ErrorKind::MissingObjectEnd)
    } else if s[k] != '"' {
        Err(ErrorKind::NoPair)
    } else {
        match string_spec(s, k) {
            Err(x) => Err(x),
            Ok((key, j)) => {
                let m = ws_end(s, j);
                if !(0 <= m < s.len()) || s[m] != ':' {
                    Err(ErrorKind::MissingColon)
                } else {
                    match value_spec(s, m + 1, d) {
                        Err(x) => Err(x),
                        Ok((v, e)) => Ok(((key, v), e)),
                    }
                }
            },
        }
    }
}

/// The members of a non-empty object from `k` up to and including `}`, in the
/// order they are written.
pub open spec fn members_spec(s: Seq<char>, k: int, d: nat) -> Result<
    (Seq<(Seq<char>, Json)>, int),
    ErrorKind,
>
    decreases d, 4nat, s.len() - k,
{
    match pair_spec(s, k, d) {
        Err(x) => Err(x),
        Ok((m, j)) => if !(0 <= j < s.len()) {
            Err(ErrorKind::MissingObjectEnd)
        } else if s[j] == '}' {
            Ok((seq![m], j + 1))
        } else if s[j] == ',' {
            let n = ws_end(s, j + 1);
            if !(0 <= n < s.len()) {
                Err(ErrorKind::MissingObjectEnd)
            } else if s[n] == '}' {
                Err(ErrorKind::InvalidObject)
            } else if j < k {
                // never taken: a member ends after it starts
                Err(ErrorKind::InvalidObject)
            } else {
                match members_spec(s, j + 1, d) {
                    Ok((ms, e)) => Ok((seq![m] + ms, e)),
                    Err(x) => Err(x),
                }
            }
        } else {
            Err(ErrorKind::MissingObjectEnd)
        },
    }
}

/// The object at `i`.
pub open spec fn object_spec(s: Seq<char>, i: int, d: nat) -> Result<(Json, int), ErrorKind>
    decreases d, 0nat, 0int,
{
    if !at(s, i, '{') {
        Err(ErrorKind::MissingObjectStart)
    } else if d == 0 {
        Err(ErrorKind::TooDeep)
    } else {
        let k = ws_end(s, i + 1);
        if !(0 <= k < s.len()) {
            Err(ErrorKind::MissingObjectEnd)
        } else if s[k] == '}' {
            Ok((Json::Object(Seq::empty()), k + 1))
        } else {
            match members_spec(s, k, (d - 1) as nat) {
                Ok((ms, e)) => Ok((Json::Object(build_object(ms)), e)),
                Err(x) => Err(x),
            }
        }
    }
}

/// A whole JSON text: one value and nothing after it.
pub open spec fn parse_spec(s: Seq<char>) -> Result<Json, ErrorKind> {
    match value_spec(s, 0, MAX_DEPTH as nat) {
        Ok((v, e)) => if e == s.len() {
            Ok(v)
        } else {
            Err(ErrorKind::HasTail)
        },
        Err(x) => Err(x),
    }
}

} // verus!
