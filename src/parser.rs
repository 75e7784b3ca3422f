//! The recursive-descent parser: each function reads one rule of the grammar
//! at the cursor, and on failure leaves the cursor where it found it.
use vstd::prelude::*;
use crate::chars::{lemma_char_of, char_from_u32, push_char};
use crate::cursor::{
    Cursor, advanced, consume_char, consume_anychar, jsp_consume_digit,
    jsp_consume_four_hexdigits, jsp_consume_whitespace,
};
use crate::grammar::{
    digits_end, digits_value, number_spec, escape_spec, string_body, string_spec,
    surrogate_pair_value, has_literal, value_spec, array_spec, elements_spec,
    object_spec, members_spec, pair_spec, build_object, insert_member, parse_spec, MAX_DEPTH,
};
use crate::value::{
    ErrorKind, Json, JsonValue, values_model, members_model, keys_unique, lemma_array_model,
    lemma_object_model,
};
use vstd::string::StrSliceExecFns;

verus! {

/// A number read by the lexer.
#[derive(Debug, PartialEq)]
pub enum Number {
    Int(i64),
    /// The literal's text, for a number with a fraction or an exponent.
    Float(String),
}

impl Number {
    pub open spec fn model(&self) -> Json {
        match self {
            Number::Int(n) => Json::Int(*n as int),
            Number::Float(t) => Json::Float(t@),
        }
    }
}

/// The magnitude of a negative `i64` at its largest.
const NEG_LIMIT: u64 = 9223372036854775808;

/// Consumes the run of decimal digits that comes next. Returns the number they
/// write where it is at most `NEG_LIMIT`, else `None`.
fn consume_digit_run(p: &mut Cursor) -> (r: Option<u64>)
    requires
        old(p).wf(),
    ensures
        advanced(*old(p), *final(p)),
        final(p).pos() == digits_end(old(p).text(), old(p).pos()),
        old(p).pos() <= final(p).pos(),
        ({
            let v = digits_value(old(p).text().subrange(old(p).pos(), final(p).pos()));
            &&& v >= 0
            &&& v <= NEG_LIMIT ==> r == Some(v as u64)
            &&& v > NEG_LIMIT ==> r is None
        }),
{
    let ghost s = p.text();
    let ghost a = p.pos();
    let mut mag: u64 = 0;
    let mut overflow = false;
    assert(s.subrange(a, a) =~= Seq::<char>::empty());
    loop
        invariant
            p.wf(),
            p.text() == s,
            s == old(p).text(),
            a == old(p).pos(),
            0 <= a <= p.pos(),
            digits_end(s, p.pos()) == digits_end(s, a),
            digits_value(s.subrange(a, p.pos())) >= 0,
            !overflow ==> mag == digits_value(s.subrange(a, p.pos())),
            !overflow ==> mag <= NEG_LIMIT,
            overflow ==> digits_value(s.subrange(a, p.pos())) > NEG_LIMIT,
        decreases s.len() - p.pos(),
    {
        let ghost k = p.pos();
        match jsp_consume_digit(p) {
            Some(d) => {
                assert(s.subrange(a, k + 1).drop_last() =~= s.subrange(a, k));
                assert(s.subrange(a, k + 1).last() == s[k]);
                if !overflow {
                    if mag < 922337203685477580 || (mag == 922337203685477580 && d <= 8) {
                        mag = mag * 10 + d as u64;
                    } else {
                        overflow = true;
                    }
                }
            },
            None => {
                return if overflow {
                    None
                } else {
                    Some(mag)
                };
            },
        }
    }
}

/// Consumes a number literal: an optional `-`; `0` or digits not starting with
/// `0`; an optional fraction; an optional exponent. With a fraction or an
/// exponent it is a `Float`, else an `Int`, which must fit in an `i64`.
pub fn jsp_consume_number(p: &mut Cursor) -> (r: Option<Number>)
    requires
        old(p).wf(),
    ensures
        advanced(*old(p), *final(p)),
        number_spec(old(p).text(), old(p).pos()) matches Some((n, e)) ==> {
            &&& r matches Some(x) && x.model() == n
            &&& final(p).pos() == e
        },
        number_spec(old(p).text(), old(p).pos()) is None ==> {
            &&& r is None
            &&& final(p).pos() == old(p).pos()
        },
{
    let ghost s = p.text();
    let start = p.position();
    let neg = consume_char(p, '-').is_some();
    let a = p.position();
    let mag: u64;
    let mut big = false;
    if consume_char(p, '0').is_some() {
        match p.peek() {
            Some(c) => {
                if '0' <= c && c <= '9' {
                    p.restore(start);
                    return None;
                }
            },
            None => {},
        }
        mag = 0;
        assert(s.subrange(a as int, a + 1).drop_last() =~= Seq::<char>::empty());
        assert(digits_value(Seq::<char>::empty()) == 0);
        assert(digits_value(s.subrange(a as int, a + 1)) == 0);
    } else {
        match consume_digit_run(p) {
            Some(m) => {
                mag = m;
            },
            None => {
                mag = 0;
                big = true;
            },
        }
        if p.position() == a {
            p.restore(start);
            return None;
        }
    }
    let b = p.position();
    let mut is_float = false;
    if consume_char(p, '.').is_some() {
        let c0 = p.position();
        let _ = consume_digit_run(p);
        if p.position() == c0 {
            p.restore(start);
            return None;
        }
        is_float = true;
    }
    let c = p.position();
    proof {
        reveal_strlit("eE");
        reveal_strlit("+-");
        assert("eE"@ =~= seq!['e', 'E']);
        assert("+-"@ =~= seq!['+', '-']);
        lemma_two_chars(seq!['e', 'E']);
        lemma_two_chars(seq!['+', '-']);
    }
    if consume_anychar(p, "eE").is_some() {
        let _ = consume_anychar(p, "+-");
        let d = p.position();
        let _ = consume_digit_run(p);
        if p.position() == d {
            p.restore(start);
            return None;
        }
        is_float = true;
    }
    let e = p.position();
    if is_float {
        return Some(Number::Float(p.slice(start, e)));
    }
    if big {
        p.restore(start);
        return None;
    }
    assert(mag <= NEG_LIMIT);
    if neg {
        if mag == NEG_LIMIT {
            Some(Number::Int(i64::MIN))
        } else {
            Some(Number::Int(-(mag as i64)))
        }
    } else if mag <= i64::MAX as u64 {
        Some(Number::Int(mag as i64))
    } else {
        p.restore(start);
        None
    }
}

/// Reads the escape sequence whose backslash was just consumed, and returns the
/// character it stands for.
fn consume_escape(p: &mut Cursor) -> (r: Result<char, ErrorKind>)
    requires
        old(p).wf(),
    ensures
        advanced(*old(p), *final(p)),
        escape_spec(old(p).text(), old(p).pos()) matches Ok((c, e)) ==> {
            &&& r == Ok::<char, ErrorKind>(c)
            &&& final(p).pos() == e
        },
        escape_spec(old(p).text(), old(p).pos()) matches Err(x) ==> {
            &&& r == Err::<char, ErrorKind>(x)
            &&& final(p).pos() == old(p).pos()
        },
{
    let ghost s = p.text();
    let start = p.position();
    let c = match p.peek() {
        Some(c) => c,
        None => return Err(ErrorKind::InvalidString),
    };
    p.advance();
    if c == '"' || c == '\\' || c == '/' {
        Ok(c)
    } else if c == 'b' {
        Ok('\x08')
    } else if c == 'f' {
        Ok('\x0c')
    } else if c == 'n' {
        Ok('\n')
    } else if c == 'r' {
        Ok('\r')
    } else if c == 't' {
        Ok('\t')
    } else if c == 'u' {
        let u = match jsp_consume_four_hexdigits(p) {
            Some(u) => u,
            None => {
                p.restore(start);
                return Err(ErrorKind::InvalidEscapeSequence);
            },
        };
        if 0xDC00 <= u && u <= 0xDFFF {
            p.restore(start);
            return Err(ErrorKind::InvalidEscapeSequence);
        }
        if 0xD800 <= u && u <= 0xDBFF {
            if consume_char(p, '\\').is_none() || consume_char(p, 'u').is_none() {
                p.restore(start);
                return Err(ErrorKind::InvalidEscapeSequence);
            }
            let l = match jsp_consume_four_hexdigits(p) {
                Some(l) => l,
                None => {
                    p.restore(start);
                    return Err(ErrorKind::InvalidEscapeSequence);
                },
            };
            if !(0xDC00 <= l && l <= 0xDFFF) {
                p.restore(start);
                return Err(ErrorKind::InvalidEscapeSequence);
            }
            let code: u32 = 0x10000 + (u - 0xD800) * 0x400 + (l - 0xDC00);
            assert(code == surrogate_pair_value(u as int, l as int));
            match char_from_u32(code) {
                Some(ch) => {
                    proof {
                        lemma_char_of(ch, code as int);
                    }
                    Ok(ch)
                },
                None => {
                    p.restore(start);
                    Err(ErrorKind::InvalidEscapeSequence)
                },
            }
        } else {
            match char_from_u32(u) {
                Some(ch) => {
                    proof {
                        lemma_char_of(ch, u as int);
                    }
                    Ok(ch)
                },
                None => {
                    p.restore(start);
                    Err(ErrorKind::InvalidEscapeSequence)
                },
            }
        }
    } else {
        p.restore(start);
        Err(ErrorKind::InvalidEscapeSequence)
    }
}

/// Consumes a quoted JSON string and returns its decoded text.
pub fn jsp_consume_string(p: &mut Cursor) -> (r: Result<String, ErrorKind>)
    requires
        old(p).wf(),
    ensures
        advanced(*old(p), *final(p)),
        string_spec(old(p).text(), old(p).pos()) matches Ok((t, e)) ==> {
            &&& r matches Ok(x) && x@ == t
            &&& final(p).pos() == e
        },
        string_spec(old(p).text(), old(p).pos()) matches Err(x) ==> {
            &&& r == Err::<String, ErrorKind>(x)
            &&& final(p).pos() == old(p).pos()
        },
{
    let ghost s = p.text();
    let start = p.position();
    if consume_char(p, '"').is_none() {
        return Err(ErrorKind::InvalidString);
    }
    let mut out = String::new();
    assert(out@ + Seq::<char>::empty() =~= out@);
    loop
        invariant
            p.wf(),
            p.text() == s,
            s == old(p).text(),
            start == old(p).pos(),
            start < p.pos(),
            string_body(s, p.pos()) matches Ok((t, f)) ==> string_spec(s, start as int) == Ok::<
                (Seq<char>, int),
                ErrorKind,
            >((out@ + t, f)),
            string_body(s, p.pos()) matches Err(x) ==> string_spec(s, start as int) == Err::<
                (Seq<char>, int),
                ErrorKind,
            >(x),
        decreases s.len() - p.pos(),
    {
        let ghost k = p.pos();
        let c = match p.peek() {
            Some(c) => c,
            None => {
                p.restore(start);
                return Err(ErrorKind::InvalidString);
            },
        };
        if c == '"' {
            p.advance();
            assert(out@ + Seq::<char>::empty() =~= out@);
            return Ok(out);
        }
        if (c as u32) < 0x20 {
            p.restore(start);
            return Err(ErrorKind::InvalidString);
        }
        p.advance();
        let ghost before = out@;
        if c == '\\' {
            match consume_escape(p) {
                Ok(ch) => {
                    push_char(&mut out, ch);
                },
                Err(x) => {
                    p.restore(start);
                    return Err(x);
                },
            }
        } else {
            push_char(&mut out, c);
        }
        proof {
            let last = out@.last();
            assert(out@ == before.push(last));
            assert(string_body(s, k) == match string_body(s, p.pos()) {
                Ok((t, f)) => Ok((seq![last] + t, f)),
                Err(x) => Err(x),
            });
            if let Ok((t, f)) = string_body(s, p.pos()) {
                assert(before + (seq![last] + t) =~= out@ + t);
            }
        }
    }
}

/// Consumes `lit` where it stands next in full; else consumes nothing.
fn consume_char_sequence(p: &mut Cursor, lit: &str) -> (r: bool)
    requires
        old(p).wf(),
    ensures
        advanced(*old(p), *final(p)),
        r == has_literal(old(p).text(), old(p).pos(), lit@),
        r ==> final(p).pos() == old(p).pos() + lit@.len(),
        !r ==> final(p).pos() == old(p).pos(),
{
    let ghost s = p.text();
    let start = p.position();
    let n = lit.unicode_len();
    let mut i: usize = 0;
    while i < n
        invariant
            p.wf(),
            p.text() == s,
            s == old(p).text(),
            start == old(p).pos(),
            n == lit@.len(),
            0 <= i <= n,
            p.pos() == start + i,
            s.subrange(start as int, start + i) == lit@.subrange(0, i as int),
        decreases n - i,
    {
        let c = lit.get_char(i);
        if consume_char(p, c).is_none() {
            p.restore(start);
            proof {
                if has_literal(s, start as int, lit@) {
                    assert(s.subrange(start as int, start + n)[i as int] == s[start + i]);
                }
            }
            return false;
        }
        assert(s.subrange(start as int, start + i + 1) =~= s.subrange(start as int, start + i).push(c));
        assert(lit@.subrange(0, i + 1) =~= lit@.subrange(0, i as int).push(c));
        i = i + 1;
    }
    assert(lit@.subrange(0, n as int) =~= lit@);
    true
}

/// The value at the cursor, with `depth` more levels of nesting allowed.
fn value_at(p: &mut Cursor, depth: usize) -> (r: Result<JsonValue, ErrorKind>)
    requires
        old(p).wf(),
    ensures
        advanced(*old(p), *final(p)),
        value_spec(old(p).text(), old(p).pos(), depth as nat) matches Ok((v, e)) ==> {
            &&& r matches Ok(x) && x.model() == v
            &&& final(p).pos() == e
        },
        value_spec(old(p).text(), old(p).pos(), depth as nat) matches Err(x) ==> {
            &&& r == Err::<JsonValue, ErrorKind>(x)
            &&& final(p).pos() == old(p).pos()
        },
    decreases depth, 1nat,
{
    let ghost s = p.text();
    let start = p.position();
    jsp_consume_whitespace(p);
    let c = match p.peek() {
        Some(c) => c,
        None => {
            p.restore(start);
            return Err(ErrorKind::Empty);
        },
    };
    proof {
        reveal_strlit("null");
        reveal_strlit("true");
        reveal_strlit("false");
        assert("null"@ =~= seq!['n', 'u', 'l', 'l']);
        assert("true"@ =~= seq!['t', 'r', 'u', 'e']);
        assert("false"@ =~= seq!['f', 'a', 'l', 's', 'e']);
    }
    let r = if c == '"' {
        match jsp_consume_string(p) {
            Ok(t) => Ok(JsonValue::String(t)),
            Err(x) => Err(x),
        }
    } else if c == '{' {
        object_at(p, depth)
    } else if c == '[' {
        array_at(p, depth)
    } else if c == 'n' {
        if consume_char_sequence(p, "null") {
            Ok(JsonValue::Null)
        } else {
            Err(ErrorKind::InvalidNull)
        }
    } else if c == 't' {
        if consume_char_sequence(p, "true") {
            Ok(JsonValue::Bool(true))
        } else {
            Err(ErrorKind::InvalidBool)
        }
    } else if c == 'f' {
        if consume_char_sequence(p, "false") {
            Ok(JsonValue::Bool(false))
        } else {
            Err(ErrorKind::InvalidBool)
        }
    } else if c == '-' || ('0' <= c && c <= '9') {
        match jsp_consume_number(p) {
            Some(Number::Int(n)) => Ok(JsonValue::Int(n)),
            Some(Number::Float(t)) => Ok(JsonValue::Float(t)),
            None => Err(ErrorKind::InvalidNumber),
        }
    } else {
        Err(ErrorKind::InvalidValue)
    };
    match r {
        Ok(v) => {
            jsp_consume_whitespace(p);
            Ok(v)
        },
        Err(x) => {
            p.restore(start);
            Err(x)
        },
    }
}

/// The array at the cursor, with `depth` more levels of nesting allowed.
fn array_at(p: &mut Cursor, depth: usize) -> (r: Result<JsonValue, ErrorKind>)
    requires
        old(p).wf(),
    ensures
        advanced(*old(p), *final(p)),
        array_spec(old(p).text(), old(p).pos(), depth as nat) matches Ok((v, e)) ==> {
            &&& r matches Ok(x) && x.model() == v
            &&& final(p).pos() == e
        },
        array_spec(old(p).text(), old(p).pos(), depth as nat) matches Err(x) ==> {
            &&& r == Err::<JsonValue, ErrorKind>(x)
            &&& final(p).pos() == old(p).pos()
        },
    decreases depth, 0nat,
{
    let ghost s = p.text();
    let start = p.position();
    if consume_char(p, '[').is_none() {
        return Err(ErrorKind::MissingArrayStart);
    }
    if depth == 0 {
        p.restore(start);
        return Err(ErrorKind::TooDeep);
    }
    jsp_consume_whitespace(p);
    if p.is_at_end() {
        p.restore(start);
        return Err(ErrorKind::MissingArrayEnd);
    }
    if consume_char(p, ']').is_some() {
        let items: Vec<JsonValue> = Vec::new();
        proof {
            lemma_array_model(items);
            assert(values_model(items@) =~= Seq::<Json>::empty());
        }
        return Ok(JsonValue::Array(items));
    }
    let ghost d = (depth - 1) as nat;
    let ghost k0 = p.pos();
    let mut items: Vec<JsonValue> = Vec::new();
    assert(values_model(items@) + Seq::<Json>::empty() =~= Seq::<Json>::empty());
    loop
        invariant
            p.wf(),
            p.text() == s,
            s == old(p).text(),
            start == old(p).pos(),
            start < k0 <= p.pos(),
            depth > 0,
            d == depth - 1,
            array_spec(s, start as int, depth as nat) == (match elements_spec(s, k0, d) {
                Ok((vs, e)) => Ok((Json::Array(vs), e)),
                Err(x) => Err(x),
            }),
            elements_spec(s, p.pos(), d) matches Ok((vs, e)) ==> elements_spec(s, k0, d) == Ok::<
                (Seq<Json>, int),
                ErrorKind,
            >((values_model(items@) + vs, e)),
            elements_spec(s, p.pos(), d) matches Err(x) ==> elements_spec(s, k0, d) == Err::<
                (Seq<Json>, int),
                ErrorKind,
            >(x),
        decreases s.len() - p.pos(),
    {
        let ghost k = p.pos();
        let v = match value_at(p, depth - 1) {
            Ok(v) => v,
            Err(x) => {
                p.restore(start);
                return Err(x);
            },
        };
        let ghost before = items@;
        items.push(v);
        assert(values_model(items@) =~= values_model(before).push(v.model()));
        let ghost j = p.pos();
        match p.peek() {
            None => {
                p.restore(start);
                return Err(ErrorKind::MissingArrayEnd);
            },
            Some(c) => {
                if c == ']' {
                    p.advance();
                    proof {
                        lemma_array_model(items);
                        assert(values_model(before) + seq![v.model()] =~= values_model(items@));
                    }
                    return Ok(JsonValue::Array(items));
                } else if c == ',' {
                    p.advance();
                    let after = p.position();
                    jsp_consume_whitespace(p);
                    match p.peek() {
                        None => {
                            p.restore(start);
                            return Err(ErrorKind::MissingArrayEnd);
                        },
                        Some(']') => {
                            p.restore(start);
                            return Err(ErrorKind::InvalidArray);
                        },
                        Some(_) => {},
                    }
                    p.restore(after);
                    proof {
                        if let Ok((vs, e)) = elements_spec(s, p.pos(), d) {
                            assert(values_model(before) + (seq![v.model()] + vs) =~= values_model(
                                items@,
                            ) + vs);
                        }
                    }
                } else {
                    p.restore(start);
                    return Err(ErrorKind::MissingArrayEnd);
                }
            },
        }
    }
}

/// Puts a member into an object: it replaces the member of the same key, or,
/// where there is none, comes last.
fn insert_member_into(ms: &mut Vec<(String, JsonValue)>, key: String, val: JsonValue)
    requires
        keys_unique(members_model(old(ms)@)),
    ensures
        members_model(final(ms)@) == insert_member(members_model(old(ms)@), (key@, val.model())),
        keys_unique(members_model(final(ms)@)),
{
    let ghost mm = members_model(ms@);
    let ghost m = (key@, val.model());
    let n = ms.len();
    let mut i: usize = 0;
    while i < n
        invariant
            n == ms.len(),
            *ms == *old(ms),
            mm == members_model(ms@),
            m == (key@, val.model()),
            keys_unique(mm),
            0 <= i <= n,
            forall|j: int| 0 <= j < i ==> mm[j].0 != key@,
        decreases n - i,
    {
        if ms[i].0 == key {
            assert(mm[i as int] == (ms@[i as int].0@, ms@[i as int].1.model()));
            let ghost old_ms = ms@;
            ms[i] = (key, val);
            proof {
                assert(ms@ == old_ms.update(i as int, ms@[i as int]));
                assert(ms@[i as int].0@ == m.0 && ms@[i as int].1.model() == m.1);
                assert(mm[i as int].0 == m.0);
                assert(exists|j: int| 0 <= j < mm.len() && #[trigger] mm[j].0 == m.0);
                assert(members_model(ms@) =~= Seq::new(
                    mm.len(),
                    |j: int|
                        if mm[j].0 == m.0 {
                            m
                        } else {
                            mm[j]
                        },
                ));
            }
            return;
        }
        i = i + 1;
    }
    ms.push((key, val));
    assert(members_model(ms@) =~= mm.push(m));
}

/// The member at the cursor, whitespace before it included, with `depth` more
/// levels of nesting allowed in its value.
fn consume_key_pair(p: &mut Cursor, depth: usize) -> (r: Result<(String, JsonValue), ErrorKind>)
    requires
        old(p).wf(),
    ensures
        advanced(*old(p), *final(p)),
        pair_spec(old(p).text(), old(p).pos(), depth as nat) matches Ok((m, e)) ==> {
            &&& r matches Ok(x) && x.0@ == m.0 && x.1.model() == m.1
            &&& final(p).pos() == e
        },
        pair_spec(old(p).text(), old(p).pos(), depth as nat) matches Err(x) ==> {
            &&& r == Err::<(String, JsonValue), ErrorKind>(x)
            &&& final(p).pos() == old(p).pos()
        },
    decreases depth, 2nat,
{
    let start = p.position();
    jsp_consume_whitespace(p);
    match p.peek() {
        None => {
            p.restore(start);
            return Err(ErrorKind::MissingObjectEnd);
        },
        Some(c) => {
            if c != '"' {
                p.restore(start);
                return Err(ErrorKind::NoPair);
            }
        },
    }
    let key = match jsp_consume_string(p) {
        Ok(key) => key,
        Err(x) => {
            p.restore(start);
            return Err(x);
        },
    };
    jsp_consume_whitespace(p);
    match p.peek() {
        Some(':') => {},
        _ => {
            p.restore(start);
            return Err(ErrorKind::MissingColon);
        },
    }
    p.advance();
    match value_at(p, depth) {
        Ok(v) => Ok((key, v)),
        Err(x) => {
            p.restore(start);
            Err(x)
        },
    }
}

/// The object at the cursor, with `depth` more levels of nesting allowed.
fn object_at(p: &mut Cursor, depth: usize) -> (r: Result<JsonValue, ErrorKind>)
    requires
        old(p).wf(),
    ensures
        advanced(*old(p), *final(p)),
        object_spec(old(p).text(), old(p).pos(), depth as nat) matches Ok((v, e)) ==> {
            &&& r matches Ok(x) && x.model() == v
            &&& final(p).pos() == e
        },
        object_spec(old(p).text(), old(p).pos(), depth as nat) matches Err(x) ==> {
            &&& r == Err::<JsonValue, ErrorKind>(x)
            &&& final(p).pos() == old(p).pos()
        },
    decreases depth, 0nat,
{
    let ghost s = p.text();
    let start = p.position();
    if consume_char(p, '{').is_none() {
        return Err(ErrorKind::MissingObjectStart);
    }
    if depth == 0 {
        p.restore(start);
        return Err(ErrorKind::TooDeep);
    }
    jsp_consume_whitespace(p);
    if p.is_at_end() {
        p.restore(start);
        return Err(ErrorKind::MissingObjectEnd);
    }
    if consume_char(p, '}').is_some() {
        let ms: Vec<(String, JsonValue)> = Vec::new();
        proof {
            lemma_object_model(ms);
            assert(members_model(ms@) =~= Seq::<(Seq<char>, Json)>::empty());
        }
        return Ok(JsonValue::Object(ms));
    }
    let ghost d = (depth - 1) as nat;
    let ghost k0 = p.pos();
    let mut ms: Vec<(String, JsonValue)> = Vec::new();
    let ghost mut raw: Seq<(Seq<char>, Json)> = Seq::empty();
    assert(members_model(ms@) =~= Seq::<(Seq<char>, Json)>::empty());
    assert(raw + Seq::<(Seq<char>, Json)>::empty() =~= Seq::<(Seq<char>, Json)>::empty());
    loop
        invariant
            p.wf(),
            p.text() == s,
            s == old(p).text(),
            start == old(p).pos(),
            start < k0 <= p.pos(),
            depth > 0,
            d == depth - 1,
            object_spec(s, start as int, depth as nat) == (match members_spec(s, k0, d) {
                Ok((ms, e)) => Ok((Json::Object(build_object(ms)), e)),
                Err(x) => Err(x),
            }),
            members_model(ms@) == build_object(raw),
            keys_unique(members_model(ms@)),
            members_spec(s, p.pos(), d) matches Ok((rest, e)) ==> members_spec(s, k0, d)
                == Ok::<(Seq<(Seq<char>, Json)>, int), ErrorKind>((raw + rest, e)),
            members_spec(s, p.pos(), d) matches Err(x) ==> members_spec(s, k0, d) == Err::<
                (Seq<(Seq<char>, Json)>, int),
                ErrorKind,
            >(x),
        decreases s.len() - p.pos(),
    {
        let ghost k = p.pos();
        let (key, v) = match consume_key_pair(p, depth - 1) {
            Ok(kv) => kv,
            Err(x) => {
                p.restore(start);
                return Err(x);
            },
        };
        let ghost m = (key@, v.model());
        let ghost before = raw;
        proof {
            raw = raw.push(m);
            assert(raw.drop_last() =~= before);
        }
        insert_member_into(&mut ms, key, v);
        match p.peek() {
            None => {
                p.restore(start);
                return Err(ErrorKind::MissingObjectEnd);
            },
            Some(c) => {
                if c == '}' {
                    p.advance();
                    proof {
                        lemma_object_model(ms);
                        assert(before + seq![m] =~= raw);
                    }
                    return Ok(JsonValue::Object(ms));
                } else if c == ',' {
                    p.advance();
                    let after = p.position();
                    jsp_consume_whitespace(p);
                    match p.peek() {
                        None => {
                            p.restore(start);
                            return Err(ErrorKind::MissingObjectEnd);
                        },
                        Some('}') => {
                            p.restore(start);
                            return Err(ErrorKind::InvalidObject);
                        },
                        Some(_) => {},
                    }
                    p.restore(after);
                    proof {
                        if let Ok((rest, e)) = members_spec(s, p.pos(), d) {
                            assert(before + (seq![m] + rest) =~= raw + rest);
                        }
                    }
                } else {
                    p.restore(start);
                    return Err(ErrorKind::MissingObjectEnd);
                }
            },
        }
    }
}

/// Consumes one JSON value, with the whitespace before and after it.
pub fn jsp_consume_value(p: &mut Cursor) -> (r: Result<JsonValue, ErrorKind>)
    requires
        old(p).wf(),
    ensures
        advanced(*old(p), *final(p)),
        value_spec(old(p).text(), old(p).pos(), MAX_DEPTH as nat) matches Ok((v, e)) ==> {
            &&& r matches Ok(x) && x.model() == v
            &&& final(p).pos() == e
        },
        value_spec(old(p).text(), old(p).pos(), MAX_DEPTH as nat) matches Err(x) ==> {
            &&& r == Err::<JsonValue, ErrorKind>(x)
            &&& final(p).pos() == old(p).pos()
        },
{
    value_at(p, MAX_DEPTH)
}

/// Consumes one JSON array.
pub fn jsp_consume_array(p: &mut Cursor) -> (r: Result<JsonValue, ErrorKind>)
    requires
        old(p).wf(),
    ensures
        advanced(*old(p), *final(p)),
        array_spec(old(p).text(), old(p).pos(), MAX_DEPTH as nat) matches Ok((v, e)) ==> {
            &&& r matches Ok(x) && x.model() == v
            &&& final(p).pos() == e
        },
        array_spec(old(p).text(), old(p).pos(), MAX_DEPTH as nat) matches Err(x) ==> {
            &&& r == Err::<JsonValue, ErrorKind>(x)
            &&& final(p).pos() == old(p).pos()
        },
{
    array_at(p, MAX_DEPTH)
}

/// Consumes one JSON object.
pub fn jsp_consume_object(p: &mut Cursor) -> (r: Result<JsonValue, ErrorKind>)
    requires
        old(p).wf(),
    ensures
        advanced(*old(p), *final(p)),
        object_spec(old(p).text(), old(p).pos(), MAX_DEPTH as nat) matches Ok((v, e)) ==> {
            &&& r matches Ok(x) && x.model() == v
            &&& final(p).pos() == e
        },
        object_spec(old(p).text(), old(p).pos(), MAX_DEPTH as nat) matches Err(x) ==> {
            &&& r == Err::<JsonValue, ErrorKind>(x)
            &&& final(p).pos() == old(p).pos()
        },
{
    object_at(p, MAX_DEPTH)
}

/// Parses a whole JSON text: exactly one value, and nothing after it.
pub fn parse(text: &str) -> (r: Result<JsonValue, ErrorKind>)
    ensures
        parse_spec(text@) matches Ok(v) ==> r matches Ok(x) && x.model() == v,
        parse_spec(text@) matches Err(x) ==> r == Err::<JsonValue, ErrorKind>(x),
{
    let mut p = Cursor::new(text);
    let v = value_at(&mut p, MAX_DEPTH)?;
    if p.is_at_end() {
        Ok(v)
    } else {
        Err(ErrorKind::HasTail)
    }
}

proof fn lemma_two_chars(t: Seq<char>)
    requires
        t.len() == 2,
    ensures
        forall|c: char| #[trigger] t.contains(c) <==> (c == t[0] || c == t[1]),
{
    assert forall|c: char| (c == t[0] || c == t[1]) implies #[trigger] t.contains(c) by {
        if c == t[0] {
            assert(t[0] == c);
        } else {
            assert(t[1] == c);
        }
    }
}

} // verus!
