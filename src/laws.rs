//! What holds of the parser and the renderer together.
use vstd::prelude::*;
use crate::chars::{is_ws, is_digit, digit_value, is_hex, hex_value, scalar, char_of, lemma_char_of};
use crate::grammar::{
    at, ws_end, digits_end, digits_value, int_part_end, frac_end, exp_end, fits_i64,
    number_spec, hex4, escape_spec, string_body, string_spec, value_spec, token_spec,
    array_spec, elements_spec, object_spec, members_spec, pair_spec, build_object, insert_member,
    parse_spec, MAX_DEPTH,
};
use crate::render::{
    nat_text, int_text, hex_char, escape_char, escape, quote, render, render_list, render_members,
};
use crate::value::{ErrorKind, Json, keys_unique};

verus! {

/// A character that a number literal could go on with.
pub open spec fn continues_number(c: char) -> bool {
    is_digit(c) || c == '.' || c == 'e' || c == 'E'
}

/// `t` stands in `s` at `k`.
pub open spec fn stands_at(s: Seq<char>, k: int, t: Seq<char>) -> bool {
    0 <= k && k + t.len() <= s.len() && s.subrange(k, k + t.len()) == t
}

proof fn lemma_stands_at_index(s: Seq<char>, k: int, t: Seq<char>, j: int)
    requires
        stands_at(s, k, t),
        0 <= j < t.len(),
    ensures
        s[k + j] == t[j],
{
    assert(s.subrange(k, k + t.len())[j] == s[k + j]);
}

proof fn lemma_digits_end_bounds(s: Seq<char>, i: int)
    requires
        0 <= i <= s.len(),
    ensures
        i <= digits_end(s, i) <= s.len(),
        forall|j: int| i <= j < digits_end(s, i) ==> is_digit(#[trigger] s[j]),
    decreases s.len() - i,
{
    if i < s.len() && is_digit(s[i]) {
        lemma_digits_end_bounds(s, i + 1);
    }
}

/// Digit runs in `t` end where they end in `s`, when the character after `t`
/// in `s` is no digit.
proof fn lemma_digits_end_shift(s: Seq<char>, k: int, t: Seq<char>, j: int)
    requires
        stands_at(s, k, t),
        0 <= j <= t.len(),
        k + t.len() == s.len() || !is_digit(s[k + t.len()]),
    ensures
        digits_end(s, k + j) == k + digits_end(t, j),
    decreases t.len() - j,
{
    if j < t.len() {
        lemma_stands_at_index(s, k, t, j);
        if is_digit(t[j]) {
            lemma_digits_end_shift(s, k, t, j + 1);
        }
    }
}

/// A number literal read in full from `t` is read the same from any text in
/// which `t` stands before a character that cannot continue it.
proof fn lemma_number_shift(s: Seq<char>, k: int, t: Seq<char>, x: Json)
    requires
        stands_at(s, k, t),
        number_spec(t, 0) == Some((x, t.len() as int)),
        k + t.len() == s.len() || !continues_number(s[k + t.len()]),
    ensures
        number_spec(s, k) == Some((x, k + t.len())),
{
    let n = t.len() as int;
    assert forall|j: int| 0 <= j <= n implies #[trigger] digits_end(t, j) + k == digits_end(s, k + j) by {
        lemma_digits_end_shift(s, k, t, j);
    }
    assert forall|j: int| 0 <= j < n implies #[trigger] t[j] == s[k + j] by {
        lemma_stands_at_index(s, k, t, j);
    }
    let a = if at(t, 0, '-') {
        1int
    } else {
        0int
    };
    assert(at(s, k, '-') == at(t, 0, '-'));
    let b = int_part_end(t, a)->0;
    assert(int_part_end(s, k + a) == Some(k + b));
    let c = frac_end(t, b)->0;
    assert(frac_end(s, k + b) == Some(k + c));
    let e = exp_end(t, c)->0;
    if at(t, c, 'e') || at(t, c, 'E') {
        if c + 1 == n {
            assert(digits_end(t, c + 1) == c + 1);
        }
        assert(at(s, k + c + 1, '+') == at(t, c + 1, '+'));
        assert(at(s, k + c + 1, '-') == at(t, c + 1, '-'));
    }
    assert(exp_end(s, k + c) == Some(k + e));
    assert(s.subrange(k, k + e) == t.subrange(0, e));
    assert(s.subrange(k + a, k + b) =~= t.subrange(a, b));
}

proof fn lemma_digits_end_all(t: Seq<char>, i: int)
    requires
        0 <= i <= t.len(),
        forall|j: int| i <= j < t.len() ==> is_digit(#[trigger] t[j]),
    ensures
        digits_end(t, i) == t.len(),
    decreases t.len() - i,
{
    if i < t.len() {
        lemma_digits_end_all(t, i + 1);
    }
}

/// The character for the decimal digit `r`.
proof fn lemma_digit_char(r: int)
    requires
        0 <= r < 10,
    ensures
        scalar(char_of(0x30 + r)) == 0x30 + r,
        is_digit(char_of(0x30 + r)),
        digit_value(char_of(0x30 + r)) == r,
{
    let c = if r == 0 {
        '0'
    } else if r == 1 {
        '1'
    } else if r == 2 {
        '2'
    } else if r == 3 {
        '3'
    } else if r == 4 {
        '4'
    } else if r == 5 {
        '5'
    } else if r == 6 {
        '6'
    } else if r == 7 {
        '7'
    } else if r == 8 {
        '8'
    } else {
        '9'
    };
    assert(scalar(c) == 0x30 + r);
}

proof fn lemma_nat_text(m: nat)
    ensures
        nat_text(m).len() >= 1,
        forall|j: int| 0 <= j < nat_text(m).len() ==> is_digit(#[trigger] nat_text(m)[j]),
        digits_value(nat_text(m)) == m,
        m == 0 ==> nat_text(m).len() == 1,
        m > 0 ==> nat_text(m)[0] != '0',
    decreases m,
{
    let t = nat_text(m);
    if m < 10 {
        lemma_digit_char(m as int);
        assert(t.drop_last() =~= Seq::<char>::empty());
        assert(digits_value(Seq::<char>::empty()) == 0);
    } else {
        let q = (m / 10) as nat;
        let r = (m % 10) as int;
        lemma_nat_text(q);
        lemma_digit_char(r);
        assert(t.drop_last() =~= nat_text(q));
        assert(t[0] == nat_text(q)[0]);
        assert forall|j: int| 0 <= j < t.len() implies is_digit(#[trigger] t[j]) by {
            if j < nat_text(q).len() {
                assert(t[j] == nat_text(q)[j]);
            }
        }
    }
}

/// The decimal text of an integer that fits in 64 bits reads back as that integer.
proof fn lemma_int_text(n: int)
    requires
        fits_i64(n),
    ensures
        number_spec(int_text(n), 0) == Some((Json::Int(n), int_text(n).len() as int)),
{
    let t = int_text(n);
    let m = if n < 0 {
        (-n) as nat
    } else {
        n as nat
    };
    let a = if n < 0 {
        1int
    } else {
        0int
    };
    lemma_nat_text(m);
    let u = nat_text(m);
    assert(t.subrange(a, t.len() as int) =~= u);
    assert forall|j: int| a <= j < t.len() implies is_digit(#[trigger] t[j]) by {
        assert(t[j] == u[j - a]);
    }
    assert(t[a] == u[0]);
    if n < 0 {
        assert(t[0] == '-');
    } else {
        assert(!is_digit('-'));
        assert(t[0] != '-');
    }
    lemma_digits_end_all(t, a);
    if m == 0 {
        assert(at(t, a, '0'));
    } else {
        assert(!at(t, a, '0'));
    }
    assert(int_part_end(t, a) == Some(t.len() as int));
}

/// The character for the hexadecimal digit `r`.
proof fn lemma_hex_char(r: int)
    requires
        0 <= r < 16,
    ensures
        is_hex(hex_char(r)),
        hex_value(hex_char(r)) == r,
{
    if r < 10 {
        lemma_digit_char(r);
    } else {
        let c = if r == 10 {
            'a'
        } else if r == 11 {
            'b'
        } else if r == 12 {
            'c'
        } else if r == 13 {
            'd'
        } else if r == 14 {
            'e'
        } else {
            'f'
        };
        assert(scalar(c) == 0x57 + r);
        lemma_char_of(c, 0x57 + r);
    }
}

/// The escaped content of a string, closed by a quote, decodes to the string.
proof fn lemma_escape_parse(s: Seq<char>, k: int, t: Seq<char>)
    requires
        stands_at(s, k, escape(t) + seq!['"']),
    ensures
        string_body(s, k) == Ok::<(Seq<char>, int), ErrorKind>((t, k + escape(t).len() + 1)),
    decreases t.len(),
{
    let w = escape(t) + seq!['"'];
    assert forall|j: int| 0 <= j < w.len() implies #[trigger] s[k + j] == w[j] by {
        lemma_stands_at_index(s, k, w, j);
    }
    if t.len() == 0 {
        assert(s[k] == '"');
        assert(t =~= Seq::<char>::empty());
    } else {
        let c = t[0];
        let rest = t.drop_first();
        let e = escape_char(c);
        assert(escape(t) == e + escape(rest));
        let w2 = escape(rest) + seq!['"'];
        assert(w =~= e + w2);
        assert(s.subrange(k + e.len(), k + e.len() + w2.len()) =~= w2) by {
            assert forall|j: int| 0 <= j < w2.len() implies s.subrange(
                k + e.len(),
                k + e.len() + w2.len(),
            )[j] == w2[j] by {
                assert(w[e.len() + j] == w2[j]);
            }
        }
        lemma_escape_parse(s, k + e.len(), rest);
        assert(seq![c] + rest =~= t);
        if c == '"' || c == '\\' {
            assert(e == seq!['\\', c]);
            assert(w[0] == e[0] && w[1] == e[1]);
            assert(s[k] == '\\');
            assert(s[k + 1] == c);
            assert(escape_spec(s, k + 1) == Ok::<(char, int), ErrorKind>((c, k + 2)));
        } else if scalar(c) < 0x20 {
            let x = scalar(c);
            lemma_hex_char(x / 16);
            lemma_hex_char(x % 16);
            lemma_char_of(c, x);
            assert(e.len() == 6);
            assert(w[0] == e[0] && w[1] == e[1] && w[2] == e[2] && w[3] == e[3] && w[4] == e[4]
                && w[5] == e[5]);
            assert(s[k] == '\\');
            assert(s[k + 1] == 'u');
            assert(s[k + 2] == '0');
            assert(s[k + 3] == '0');
            assert(hex_value('0') == 0);
            assert(hex4(s, k + 2) == Some(x));
            assert(escape_spec(s, k + 1) == Ok::<(char, int), ErrorKind>((c, k + 6)));
        } else {
            assert(w[0] == e[0]);
            assert(s[k] == c);
        }
    }
}

/// A quoted string reads back as the string.
proof fn lemma_quote_parse(s: Seq<char>, k: int, t: Seq<char>)
    requires
        stands_at(s, k, quote(t)),
    ensures
        string_spec(s, k) == Ok::<(Seq<char>, int), ErrorKind>((t, k + quote(t).len())),
{
    let q = quote(t);
    let w = escape(t) + seq!['"'];
    assert(q =~= seq!['"'] + w);
    lemma_stands_at_index(s, k, q, 0);
    assert(s.subrange(k + 1, k + 1 + w.len()) =~= w) by {
        assert forall|j: int| 0 <= j < w.len() implies s.subrange(k + 1, k + 1 + w.len())[j]
            == w[j] by {
            lemma_stands_at_index(s, k, q, j + 1);
        }
    }
    lemma_escape_parse(s, k + 1, t);
}

/// A float's text is a literal that the number lexer reads in full as a float.
pub open spec fn float_literal(t: Seq<char>) -> bool {
    number_spec(t, 0) == Some((Json::Float(t), t.len() as int))
}

/// A value that the parser can give with `d` levels of nesting allowed:
/// integers fit in 64 bits, floats hold a float literal, arrays and objects
/// nest at most `d` deep, and no object repeats a key.
pub open spec fn json_wf(v: Json, d: nat) -> bool
    decreases v,
{
    match v {
        Json::Int(n) => fits_i64(n),
        Json::Float(t) => float_literal(t),
        Json::Array(vs) => d > 0 && forall|i: int|
            0 <= i < vs.len() ==> json_wf(#[trigger] vs[i], (d - 1) as nat),
        Json::Object(ms) => d > 0 && keys_unique(ms) && forall|i: int|
            0 <= i < ms.len() ==> json_wf(#[trigger] ms[i].1, (d - 1) as nat),
        _ => true,
    }
}

/// The end of the text, or a delimiter that closes or separates values.
pub open spec fn stops_value(s: Seq<char>, e: int) -> bool {
    e == s.len() || (0 <= e < s.len() && (s[e] == ',' || s[e] == ']' || s[e] == '}'))
}

pub open spec fn starts_value(c: char) -> bool {
    c == 'n' || c == 't' || c == 'f' || c == '"' || c == '[' || c == '{' || c == '-' || is_digit(c)
}

proof fn lemma_stands_split(s: Seq<char>, k: int, a: Seq<char>, b: Seq<char>)
    requires
        stands_at(s, k, a + b),
    ensures
        stands_at(s, k, a),
        stands_at(s, k + a.len(), b),
{
    let w = a + b;
    assert(s.subrange(k, k + a.len()) =~= a) by {
        assert forall|j: int| 0 <= j < a.len() implies s.subrange(k, k + a.len())[j] == a[j] by {
            lemma_stands_at_index(s, k, w, j);
            assert(w[j] == a[j]);
        }
    }
    assert(s.subrange(k + a.len(), k + a.len() + b.len()) =~= b) by {
        assert forall|j: int| 0 <= j < b.len() implies s.subrange(
            k + a.len(),
            k + a.len() + b.len(),
        )[j] == b[j] by {
            lemma_stands_at_index(s, k, w, a.len() + j);
            assert(w[a.len() + j] == b[j]);
        }
    }
}

/// A float literal starts with `-` or a digit.
proof fn lemma_float_first(t: Seq<char>)
    requires
        float_literal(t),
    ensures
        t.len() > 0,
        t[0] == '-' || is_digit(t[0]),
{
    if !at(t, 0, '-') {
        assert(int_part_end(t, 0) is Some);
        if !at(t, 0, '0') {
            assert(digits_end(t, 0) > 0);
        }
    }
}

/// A rendering is never empty, and its first character starts a value.
proof fn lemma_render_first(v: Json, d: nat)
    requires
        json_wf(v, d),
    ensures
        render(v).len() > 0,
        starts_value(render(v)[0]),
{
    match v {
        Json::Int(n) => {
            let m = if n < 0 {
                (-n) as nat
            } else {
                n as nat
            };
            lemma_nat_text(m);
        },
        Json::Float(t) => {
            lemma_float_first(t);
        },
        _ => {},
    }
}

proof fn lemma_render_list_first(vs: Seq<Json>, d: nat)
    requires
        vs.len() >= 1,
        json_wf(vs[0], d),
    ensures
        render_list(vs).len() > 0,
        render_list(vs)[0] == render(vs[0])[0],
        starts_value(render_list(vs)[0]),
{
    lemma_render_first(vs[0], d);
}

/// An object whose keys are all different is built from its members as they are.
proof fn lemma_build_unique(ms: Seq<(Seq<char>, Json)>)
    requires
        keys_unique(ms),
    ensures
        build_object(ms) == ms,
    decreases ms.len(),
{
    if ms.len() > 0 {
        let init = ms.drop_last();
        assert(keys_unique(init));
        lemma_build_unique(init);
        assert(!exists|i: int| 0 <= i < init.len() && #[trigger] init[i].0 == ms.last().0);
        assert(init.push(ms.last()) =~= ms);
    }
}

/// A rendered value reads back as the value, in any text where a delimiter or
/// the end follows it.
proof fn lemma_value_render(s: Seq<char>, k: int, v: Json, d: nat)
    requires
        json_wf(v, d),
        stands_at(s, k, render(v)),
        stops_value(s, k + render(v).len()),
    ensures
        value_spec(s, k, d) == Ok::<(Json, int), ErrorKind>((v, k + render(v).len())),
    decreases v,
{
    let r = render(v);
    let e = k + r.len();
    lemma_render_first(v, d);
    lemma_stands_at_index(s, k, r, 0);
    assert(ws_end(s, k) == k);
    assert(ws_end(s, e) == e);
    match v {
        Json::Null => {},
        Json::Bool(b) => {},
        Json::Int(n) => {
            lemma_int_text(n);
            lemma_number_shift(s, k, r, v);
        },
        Json::Float(t) => {
            lemma_number_shift(s, k, r, v);
        },
        Json::Str(t) => {
            lemma_quote_parse(s, k, t);
        },
        Json::Array(vs) => {
            let inner = render_list(vs) + seq![']'];
            assert(r =~= seq!['['] + inner);
            lemma_stands_split(s, k, seq!['['], inner);
            lemma_stands_at_index(s, k + 1, inner, 0);
            assert(json_wf(Json::Array(vs), d));
            if vs.len() == 0 {
                assert(vs =~= Seq::<Json>::empty());
            } else {
                assert(json_wf(vs[0], (d - 1) as nat));
                lemma_render_list_first(vs, (d - 1) as nat);
                assert(ws_end(s, k + 1) == k + 1);
                lemma_elements_render(s, k + 1, vs, (d - 1) as nat);
            }
        },
        Json::Object(ms) => {
            let inner = render_members(ms) + seq!['}'];
            assert(r =~= seq!['{'] + inner);
            lemma_stands_split(s, k, seq!['{'], inner);
            lemma_stands_at_index(s, k + 1, inner, 0);
            assert(json_wf(Json::Object(ms), d));
            lemma_build_unique(ms);
            if ms.len() == 0 {
                assert(ms =~= Seq::<(Seq<char>, Json)>::empty());
            } else {
                assert(ws_end(s, k + 1) == k + 1);
                lemma_members_render(s, k + 1, ms, (d - 1) as nat);
            }
        },
    }
}

/// Rendered elements, closed by `]`, read back as the elements.
proof fn lemma_elements_render(s: Seq<char>, k: int, vs: Seq<Json>, d: nat)
    requires
        vs.len() >= 1,
        forall|i: int| 0 <= i < vs.len() ==> #[trigger] json_wf(vs[i], d),
        stands_at(s, k, render_list(vs) + seq![']']),
    ensures
        elements_spec(s, k, d) == Ok::<(Seq<Json>, int), ErrorKind>(
            (vs, k + render_list(vs).len() + 1),
        ),
    decreases vs,
{
    let r0 = render(vs[0]);
    let j = k + r0.len();
    assert(json_wf(vs[0], d));
    if vs.len() == 1 {
        assert(render_list(vs) == r0);
        lemma_stands_split(s, k, r0, seq![']']);
        lemma_stands_at_index(s, j, seq![']'], 0);
        lemma_value_render(s, k, vs[0], d);
        assert(seq![vs[0]] =~= vs);
    } else {
        let rest = vs.drop_first();
        let tail = render_list(rest) + seq![']'];
        assert(render_list(vs) + seq![']'] =~= r0 + (seq![','] + tail));
        lemma_stands_split(s, k, r0, seq![','] + tail);
        lemma_stands_split(s, j, seq![','], tail);
        lemma_stands_at_index(s, j, seq![','] + tail, 0);
        lemma_value_render(s, k, vs[0], d);
        assert(json_wf(rest[0], d));
        lemma_render_list_first(rest, d);
        lemma_stands_at_index(s, j + 1, tail, 0);
        assert(ws_end(s, j + 1) == j + 1);
        lemma_elements_render(s, j + 1, rest, d);
        assert(seq![vs[0]] + rest =~= vs);
    }
}

/// Rendered members, closed by `}`, read back as the members, in order.
proof fn lemma_members_render(s: Seq<char>, k: int, ms: Seq<(Seq<char>, Json)>, d: nat)
    requires
        ms.len() >= 1,
        forall|i: int| 0 <= i < ms.len() ==> #[trigger] json_wf(ms[i].1, d),
        stands_at(s, k, render_members(ms) + seq!['}']),
    ensures
        members_spec(s, k, d) == Ok::<(Seq<(Seq<char>, Json)>, int), ErrorKind>(
            (ms, k + render_members(ms).len() + 1),
        ),
    decreases ms,
{
    let key = ms[0].0;
    let val = ms[0].1;
    let q = quote(key);
    let rv = render(val);
    let r0 = q + seq![':'] + rv;
    let j = k + r0.len();
    assert(json_wf(val, d));
    let after = if ms.len() == 1 {
        seq!['}']
    } else {
        seq![','] + render_members(ms.drop_first()) + seq!['}']
    };
    assert(render_members(ms) + seq!['}'] =~= q + (seq![':'] + (rv + after)));
    lemma_stands_split(s, k, q, seq![':'] + (rv + after));
    lemma_stands_split(s, k + q.len(), seq![':'], rv + after);
    lemma_stands_split(s, k + q.len() + 1, rv, after);
    lemma_stands_at_index(s, k, q, 0);
    lemma_stands_at_index(s, k + q.len(), seq![':'], 0);
    lemma_stands_at_index(s, j, after, 0);
    assert(ws_end(s, k) == k);
    lemma_quote_parse(s, k, key);
    assert(ws_end(s, k + q.len()) == k + q.len());
    lemma_value_render(s, k + q.len() + 1, val, d);
    assert(pair_spec(s, k, d) == Ok::<((Seq<char>, Json), int), ErrorKind>(((key, val), j)));
    assert((key, val) == ms[0]);
    if ms.len() == 1 {
        assert(seq![ms[0]] =~= ms);
    } else {
        let rest = ms.drop_first();
        let tail = render_members(rest) + seq!['}'];
        assert(after =~= seq![','] + tail);
        lemma_stands_split(s, j, seq![','], tail);
        lemma_stands_at_index(s, j + 1, tail, 0);
        assert(ws_end(s, j + 1) == j + 1);
        lemma_members_render(s, j + 1, rest, d);
        assert(seq![ms[0]] + rest =~= ms);
    }
}

/// Digit runs that end within `t` end at the same place in `t` as in `s`.
proof fn lemma_digits_end_unshift(s: Seq<char>, k: int, t: Seq<char>, j: int)
    requires
        stands_at(s, k, t),
        0 <= j <= t.len(),
        digits_end(s, k + j) <= k + t.len(),
    ensures
        digits_end(t, j) == digits_end(s, k + j) - k,
    decreases t.len() - j,
{
    if j < t.len() {
        lemma_stands_at_index(s, k, t, j);
        if is_digit(t[j]) {
            lemma_digits_end_unshift(s, k, t, j + 1);
        }
    } else {
        lemma_digits_end_bounds(s, k + j);
    }
}

/// `t` stands in `s` at `k` and `c` is, in `t` as in `s`, the same character.
proof fn lemma_at_unshift(s: Seq<char>, k: int, t: Seq<char>, j: int, c: char)
    requires
        stands_at(s, k, t),
        0 <= j,
        j < t.len() || !at(s, k + j, c),
    ensures
        at(t, j, c) == at(s, k + j, c),
{
    if j < t.len() {
        lemma_stands_at_index(s, k, t, j);
    }
}

proof fn lemma_int_part_unshift(s: Seq<char>, k: int, t: Seq<char>, a: int, b: int)
    requires
        stands_at(s, k, t),
        k <= a,
        int_part_end(s, a) == Some(b),
        b <= k + t.len(),
    ensures
        int_part_end(t, a - k) == Some(b - k),
{
    lemma_at_unshift(s, k, t, a - k, '0');
    if at(s, a, '0') {
        if a + 1 < k + t.len() {
            lemma_stands_at_index(s, k, t, a + 1 - k);
        }
    } else {
        lemma_digits_end_bounds(s, a);
        lemma_digits_end_unshift(s, k, t, a - k);
    }
}

proof fn lemma_frac_unshift(s: Seq<char>, k: int, t: Seq<char>, b: int, c: int)
    requires
        stands_at(s, k, t),
        k <= b,
        frac_end(s, b) == Some(c),
        c <= k + t.len(),
    ensures
        frac_end(t, b - k) == Some(c - k),
{
    if at(s, b, '.') {
        lemma_digits_end_bounds(s, b + 1);
        lemma_at_unshift(s, k, t, b - k, '.');
        lemma_digits_end_unshift(s, k, t, b + 1 - k);
    } else {
        lemma_at_unshift(s, k, t, b - k, '.');
    }
}

proof fn lemma_exp_unshift(s: Seq<char>, k: int, t: Seq<char>, c: int, e: int)
    requires
        stands_at(s, k, t),
        k <= c,
        exp_end(s, c) == Some(e),
        e <= k + t.len(),
    ensures
        exp_end(t, c - k) == Some(e - k),
{
    if at(s, c, 'e') || at(s, c, 'E') {
        let d = if at(s, c + 1, '+') || at(s, c + 1, '-') {
            c + 2
        } else {
            c + 1
        };
        lemma_digits_end_bounds(s, d);
        lemma_at_unshift(s, k, t, c - k, 'e');
        lemma_at_unshift(s, k, t, c - k, 'E');
        lemma_at_unshift(s, k, t, c + 1 - k, '+');
        lemma_at_unshift(s, k, t, c + 1 - k, '-');
        lemma_digits_end_unshift(s, k, t, d - k);
    } else {
        lemma_at_unshift(s, k, t, c - k, 'e');
        lemma_at_unshift(s, k, t, c - k, 'E');
    }
}

/// Where each part of a number literal ends: in order, within the text.
proof fn lemma_number_parts(s: Seq<char>, k: int, x: Json, e: int)
    requires
        0 <= k <= s.len(),
        number_spec(s, k) == Some((x, e)),
    ensures
        ({
            let a = if at(s, k, '-') {
                k + 1
            } else {
                k
            };
            let b = int_part_end(s, a)->0;
            let c = frac_end(s, b)->0;
            &&& k <= a < b <= c <= e <= s.len()
            &&& int_part_end(s, a) == Some(b)
            &&& frac_end(s, b) == Some(c)
            &&& exp_end(s, c) == Some(e)
        }),
{
    let a = if at(s, k, '-') {
        k + 1
    } else {
        k
    };
    let b = int_part_end(s, a)->0;
    let c = frac_end(s, b)->0;
    if !at(s, a, '0') {
        lemma_digits_end_bounds(s, a);
    }
    if at(s, b, '.') {
        lemma_digits_end_bounds(s, b + 1);
    }
    if at(s, c, 'e') || at(s, c, 'E') {
        let d = if at(s, c + 1, '+') || at(s, c + 1, '-') {
            c + 2
        } else {
            c + 1
        };
        lemma_digits_end_bounds(s, d);
    }
}

/// A number literal read from `s` is read in full from its own text.
proof fn lemma_number_unshift(s: Seq<char>, k: int, x: Json, e: int)
    requires
        0 <= k <= s.len(),
        number_spec(s, k) == Some((x, e)),
    ensures
        k < e <= s.len(),
        number_spec(s.subrange(k, e), 0) == Some((x, e - k)),
{
    lemma_number_parts(s, k, x, e);
    let a = if at(s, k, '-') {
        k + 1
    } else {
        k
    };
    let b = int_part_end(s, a)->0;
    let c = frac_end(s, b)->0;
    let t = s.subrange(k, e);
    assert(stands_at(s, k, t));
    lemma_at_unshift(s, k, t, 0, '-');
    lemma_int_part_unshift(s, k, t, a, b);
    lemma_frac_unshift(s, k, t, b, c);
    lemma_exp_unshift(s, k, t, c, e);
    assert(t.subrange(0, e - k) =~= t);
    assert(s.subrange(a, b) =~= t.subrange(a - k, b - k));
}

/// An object built from members with well-formed values has each key once,
/// and well-formed values.
proof fn lemma_build_wf(raw: Seq<(Seq<char>, Json)>, d: nat)
    requires
        forall|j: int| 0 <= j < raw.len() ==> json_wf(#[trigger] raw[j].1, d),
    ensures
        keys_unique(build_object(raw)),
        forall|i: int|
            0 <= i < build_object(raw).len() ==> json_wf(#[trigger] build_object(raw)[i].1, d),
    decreases raw.len(),
{
    if raw.len() > 0 {
        let init = raw.drop_last();
        let m = raw.last();
        assert forall|j: int| 0 <= j < init.len() implies json_wf(#[trigger] init[j].1, d) by {
            assert(init[j] == raw[j]);
        }
        lemma_build_wf(init, d);
        let b = build_object(init);
        assert(json_wf(m.1, d));
        if exists|i: int| 0 <= i < b.len() && #[trigger] b[i].0 == m.0 {
            let r = insert_member(b, m);
            assert forall|i: int| 0 <= i < r.len() implies json_wf(#[trigger] r[i].1, d) by {
                if b[i].0 != m.0 {
                    assert(r[i] == b[i]);
                }
            }
            assert forall|i: int, j: int|
                0 <= i < r.len() && 0 <= j < r.len() && i != j implies r[i].0 != r[j].0 by {
                assert(r[i].0 == b[i].0);
                assert(r[j].0 == b[j].0);
            }
        } else {
            let r = insert_member(b, m);
            assert(r == b.push(m));
            assert forall|i: int| 0 <= i < r.len() implies json_wf(#[trigger] r[i].1, d) by {
                if i < b.len() {
                    assert(r[i] == b[i]);
                }
            }
            assert forall|i: int, j: int|
                0 <= i < r.len() && 0 <= j < r.len() && i != j implies r[i].0 != r[j].0 by {
                if i < b.len() && j < b.len() {
                    assert(r[i] == b[i] && r[j] == b[j]);
                } else if i < b.len() {
                    assert(r[i] == b[i]);
                } else {
                    assert(r[j] == b[j]);
                }
            }
        }
    }
}

/// What the value rule reads is well-formed, and lies after where it started.
proof fn lemma_value_wf(s: Seq<char>, i: int, d: nat)
    requires
        0 <= i <= s.len(),
    ensures
        value_spec(s, i, d) matches Ok((v, e)) ==> json_wf(v, d) && i < e <= s.len(),
    decreases d, 2nat, 0int,
{
    let k = ws_end(s, i);
    lemma_ws_end_bounds(s, i);
    if 0 <= k < s.len() {
        let c = s[k];
        if c == '"' {
            lemma_string_end(s, k);
        } else if c == '{' {
            lemma_object_wf(s, k, d);
        } else if c == '[' {
            lemma_array_wf(s, k, d);
        } else if c == '-' || is_digit(c) {
            if let Some((x, e)) = number_spec(s, k) {
                lemma_number_unshift(s, k, x, e);
                if let Json::Float(t) = x {
                    assert(t == s.subrange(k, e));
                }
            }
        }
        if let Ok((v, e0)) = token_spec(s, k, d) {
            lemma_ws_end_bounds(s, e0);
        }
    }
}

proof fn lemma_ws_end_bounds(s: Seq<char>, i: int)
    requires
        0 <= i <= s.len(),
    ensures
        i <= ws_end(s, i) <= s.len(),
    decreases s.len() - i,
{
    if i < s.len() && is_ws(s[i]) {
        lemma_ws_end_bounds(s, i + 1);
    }
}

proof fn lemma_string_body_end(s: Seq<char>, k: int)
    requires
        0 <= k <= s.len(),
    ensures
        string_body(s, k) matches Ok((t, e)) ==> k < e <= s.len(),
    decreases s.len() - k,
{
    if 0 <= k < s.len() && s[k] != '"' && (s[k] as u32) >= 0x20 {
        if s[k] == '\\' {
            if let Ok((c, e)) = escape_spec(s, k + 1) {
                lemma_string_body_end(s, e);
            }
        } else {
            lemma_string_body_end(s, k + 1);
        }
    }
}

proof fn lemma_string_end(s: Seq<char>, k: int)
    requires
        0 <= k < s.len(),
    ensures
        string_spec(s, k) matches Ok((t, e)) ==> k < e <= s.len(),
{
    lemma_string_body_end(s, k + 1);
}

proof fn lemma_array_wf(s: Seq<char>, i: int, d: nat)
    requires
        0 <= i < s.len(),
    ensures
        array_spec(s, i, d) matches Ok((v, e)) ==> json_wf(v, d) && i < e <= s.len(),
    decreases d, 0nat, 0int,
{
    if at(s, i, '[') && d > 0 {
        let k = ws_end(s, i + 1);
        lemma_ws_end_bounds(s, i + 1);
        if !at(s, k, ']') {
            lemma_elements_wf(s, k, (d - 1) as nat);
        }
    }
}

proof fn lemma_elements_wf(s: Seq<char>, k: int, d: nat)
    requires
        0 <= k <= s.len(),
    ensures
        elements_spec(s, k, d) matches Ok((vs, e)) ==> k < e <= s.len() && forall|i: int|
            0 <= i < vs.len() ==> json_wf(#[trigger] vs[i], d),
    decreases d, 4nat, s.len() - k,
{
    lemma_value_wf(s, k, d);
    if let Ok((v, j)) = value_spec(s, k, d) {
        if 0 <= j < s.len() && s[j] == ',' && j >= k {
            lemma_elements_wf(s, j + 1, d);
            if let Ok((vs, e)) = elements_spec(s, j + 1, d) {
                let all = seq![v] + vs;
                assert forall|i: int| 0 <= i < all.len() implies json_wf(#[trigger] all[i], d) by {
                    if i > 0 {
                        assert(all[i] == vs[i - 1]);
                    }
                }
            }
        } else if 0 <= j < s.len() && s[j] == ']' {
            assert forall|i: int| 0 <= i < 1 implies json_wf(#[trigger] seq![v][i], d) by {}
        }
    }
}

proof fn lemma_pair_wf(s: Seq<char>, k: int, d: nat)
    requires
        0 <= k <= s.len(),
    ensures
        pair_spec(s, k, d) matches Ok((m, e)) ==> json_wf(m.1, d) && k < e <= s.len(),
    decreases d, 3nat, 0int,
{
    let k1 = ws_end(s, k);
    lemma_ws_end_bounds(s, k);
    if 0 <= k1 < s.len() && s[k1] == '"' {
        lemma_string_end(s, k1);
        if let Ok((key, j)) = string_spec(s, k1) {
            let m = ws_end(s, j);
            lemma_ws_end_bounds(s, j);
            if 0 <= m < s.len() && s[m] == ':' {
                lemma_value_wf(s, m + 1, d);
            }
        }
    }
}

proof fn lemma_members_wf(s: Seq<char>, k: int, d: nat)
    requires
        0 <= k <= s.len(),
    ensures
        members_spec(s, k, d) matches Ok((ms, e)) ==> k < e <= s.len() && forall|i: int|
            0 <= i < ms.len() ==> json_wf(#[trigger] ms[i].1, d),
    decreases d, 4nat, s.len() - k,
{
    lemma_pair_wf(s, k, d);
    if let Ok((m, j)) = pair_spec(s, k, d) {
        if 0 <= j < s.len() && s[j] == ',' && j >= k {
            lemma_members_wf(s, j + 1, d);
            if let Ok((ms, e)) = members_spec(s, j + 1, d) {
                let all = seq![m] + ms;
                assert forall|i: int| 0 <= i < all.len() implies json_wf(#[trigger] all[i].1, d) by {
                    if i > 0 {
                        assert(all[i] == ms[i - 1]);
                    }
                }
            }
        } else if 0 <= j < s.len() && s[j] == '}' {
            assert forall|i: int| 0 <= i < 1 implies json_wf(#[trigger] seq![m][i].1, d) by {}
        }
    }
}

proof fn lemma_object_wf(s: Seq<char>, i: int, d: nat)
    requires
        0 <= i < s.len(),
    ensures
        object_spec(s, i, d) matches Ok((v, e)) ==> json_wf(v, d) && i < e <= s.len(),
    decreases d, 0nat, 0int,
{
    if at(s, i, '{') && d > 0 {
        let k = ws_end(s, i + 1);
        lemma_ws_end_bounds(s, i + 1);
        if at(s, k, '}') {
            assert(keys_unique(Seq::<(Seq<char>, Json)>::empty()));
        } else {
            lemma_members_wf(s, k, (d - 1) as nat);
            if let Ok((raw, e)) = members_spec(s, k, (d - 1) as nat) {
                lemma_build_wf(raw, (d - 1) as nat);
            }
        }
    }
}

/// What `parse` gives is well-formed: integers fit in 64 bits, floats hold a
/// float literal, no object repeats a key, nesting is at most `MAX_DEPTH`.
pub proof fn lemma_parse_wf(text: Seq<char>)
    requires
        parse_spec(text) is Ok,
    ensures
        json_wf(parse_spec(text)->Ok_0, MAX_DEPTH as nat),
{
    lemma_value_wf(text, 0, MAX_DEPTH as nat);
}

/// In an object built from members read in order, a key keeps the value that
/// was read last for it.
pub proof fn lemma_last_value_wins(raw: Seq<(Seq<char>, Json)>, j: int)
    requires
        0 <= j < raw.len(),
        forall|l: int| j < l < raw.len() ==> #[trigger] raw[l].0 != raw[j].0,
    ensures
        exists|i: int| 0 <= i < build_object(raw).len() && #[trigger] build_object(raw)[i] == raw[j],
    decreases raw.len(),
{
    let init = raw.drop_last();
    let m = raw.last();
    let b = build_object(init);
    let r = build_object(raw);
    assert(r == insert_member(b, m));
    if j == raw.len() - 1 {
        if exists|i: int| 0 <= i < b.len() && #[trigger] b[i].0 == m.0 {
            let i = choose|i: int| 0 <= i < b.len() && #[trigger] b[i].0 == m.0;
            assert(r[i] == m);
        } else {
            assert(r[b.len() as int] == m);
        }
    } else {
        assert forall|l: int| j < l < init.len() implies #[trigger] init[l].0 != init[j].0 by {
            assert(init[l] == raw[l]);
        }
        lemma_last_value_wins(init, j);
        let i = choose|i: int| 0 <= i < b.len() && #[trigger] b[i] == init[j];
        assert(raw[raw.len() - 1].0 != raw[j].0);
        assert(r[i] == raw[j]);
    }
}

/// Rendering a parsed value and parsing the rendering gives the same value.
pub proof fn lemma_round_trip(text: Seq<char>)
    requires
        parse_spec(text) is Ok,
    ensures
        parse_spec(render(parse_spec(text)->Ok_0)) == parse_spec(text),
{
    lemma_value_wf(text, 0, MAX_DEPTH as nat);
    lemma_render_parse(parse_spec(text)->Ok_0);
}

/// Every well-formed value with at most `MAX_DEPTH` levels of nesting is read
/// back from its rendering.
pub proof fn lemma_render_parse(v: Json)
    requires
        json_wf(v, MAX_DEPTH as nat),
    ensures
        parse_spec(render(v)) == Ok::<Json, ErrorKind>(v),
{
    let s = render(v);
    assert(s.subrange(0, s.len() as int) =~= s);
    lemma_value_render(s, 0, v, MAX_DEPTH as nat);
}

} // verus!
