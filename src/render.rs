//! Rendering a value back to JSON text.
use vstd::prelude::*;
use vstd::string::StringExecFns;
use crate::chars::{char_of, scalar, char_from_u32, push_char, lemma_char_of};
use crate::value::{Json, JsonValue, values_model, members_model, lemma_array_model, lemma_object_model};

verus! {

broadcast use vstd::std_specs::vec::group_vec_axioms;

/// The hexadecimal digit (lower case) for `n` in `0..16`.
pub open spec fn hex_char(n: int) -> char {
    if n < 10 {
        char_of(0x30 + n)
    } else {
        char_of(0x57 + n)
    }
}

/// How a character of a string's content is written between the quotes:
/// quote and backslash behind a backslash, control characters as `\u00XX`,
/// every other character as itself.
pub open spec fn escape_char(c: char) -> Seq<char> {
    if c == '"' || c == '\\' {
        seq!['\\', c]
    } else if scalar(c) < 0x20 {
        seq!['\\', 'u', '0', '0', hex_char(scalar(c) / 16), hex_char(scalar(c) % 16)]
    } else {
        seq![c]
    }
}

pub open spec fn escape(t: Seq<char>) -> Seq<char>
    decreases t.len(),
{
    if t.len() == 0 {
        Seq::empty()
    } else {
        escape_char(t[0]) + escape(t.drop_first())
    }
}

/// A string as a quoted JSON string.
pub open spec fn quote(t: Seq<char>) -> Seq<char> {
    seq!['"'] + escape(t) + seq!['"']
}

/// The decimal digits of `n`, without leading zeros.
pub open spec fn nat_text(n: nat) -> Seq<char>
    decreases n,
{
    if n < 10 {
        seq![char_of(0x30 + n as int)]
    } else {
        nat_text(n / 10) + seq![char_of(0x30 + (n % 10) as int)]
    }
}

pub open spec fn int_text(n: int) -> Seq<char> {
    if n < 0 {
        seq!['-'] + nat_text((-n) as nat)
    } else {
        nat_text(n as nat)
    }
}

/// The JSON text of a value: compact, members in the object's order.
pub open spec fn render(v: Json) -> Seq<char>
    decreases v,
{
    match v {
        Json::Null => seq!['n', 'u', 'l', 'l'],
        Json::Bool(b) => if b {
            seq!['t', 'r', 'u', 'e']
        } else {
            seq!['f', 'a', 'l', 's', 'e']
        },
        Json::Int(n) => int_text(n),
        Json::Float(t) => t,
        Json::Str(t) => quote(t),
        Json::Array(vs) => seq!['['] + render_list(vs) + seq![']'],
        Json::Object(ms) => seq!['{'] + render_members(ms) + seq!['}'],
    }
}

/// The values, with a comma between each two.
pub open spec fn render_list(vs: Seq<Json>) -> Seq<char>
    decreases vs,
{
    if vs.len() == 0 {
        Seq::empty()
    } else if vs.len() == 1 {
        render(vs[0])
    } else {
        render(vs[0]) + seq![','] + render_list(vs.drop_first())
    }
}

/// The members as `"key":value`, with a comma between each two.
pub open spec fn render_members(ms: Seq<(Seq<char>, Json)>) -> Seq<char>
    decreases ms,
{
    if ms.len() == 0 {
        Seq::empty()
    } else if ms.len() == 1 {
        quote(ms[0].0) + seq![':'] + render(ms[0].1)
    } else {
        quote(ms[0].0) + seq![':'] + render(ms[0].1) + seq![','] + render_members(ms.drop_first())
    }
}

proof fn lemma_render_list_push(vs: Seq<Json>, x: Json)
    requires
        vs.len() >= 1,
    ensures
        render_list(vs.push(x)) == render_list(vs) + seq![','] + render(x),
    decreases vs.len(),
{
    let vx = vs.push(x);
    assert(vx[0] == vs[0]);
    assert(vx.drop_first() =~= vs.drop_first().push(x));
    if vs.len() == 1 {
        assert(vx.drop_first() =~= seq![x]);
        assert(render_list(seq![x]) == render(x));
    } else {
        lemma_render_list_push(vs.drop_first(), x);
        assert(render(vs[0]) + seq![','] + (render_list(vs.drop_first()) + seq![','] + render(x))
            =~= render(vs[0]) + seq![','] + render_list(vs.drop_first()) + seq![','] + render(x));
    }
}

proof fn lemma_render_members_push(ms: Seq<(Seq<char>, Json)>, m: (Seq<char>, Json))
    requires
        ms.len() >= 1,
    ensures
        render_members(ms.push(m)) == render_members(ms) + seq![','] + (quote(m.0) + seq![':']
            + render(m.1)),
    decreases ms.len(),
{
    let mx = ms.push(m);
    let head = quote(ms[0].0) + seq![':'] + render(ms[0].1);
    let last = quote(m.0) + seq![':'] + render(m.1);
    assert(mx[0] == ms[0]);
    assert(mx.drop_first() =~= ms.drop_first().push(m));
    if ms.len() == 1 {
        assert(mx.drop_first() =~= seq![m]);
        assert(render_members(seq![m]) == last);
    } else {
        lemma_render_members_push(ms.drop_first(), m);
        assert(head + seq![','] + (render_members(ms.drop_first()) + seq![','] + last) =~= head
            + seq![','] + render_members(ms.drop_first()) + seq![','] + last);
    }
}

proof fn lemma_escape_push(t: Seq<char>, c: char)
    ensures
        escape(t.push(c)) == escape(t) + escape_char(c),
    decreases t.len(),
{
    let tc = t.push(c);
    if t.len() == 0 {
        assert(tc.drop_first() =~= Seq::<char>::empty());
        assert(tc[0] == c);
        assert(escape_char(c) + Seq::<char>::empty() =~= escape_char(c));
        assert(escape(t) == Seq::<char>::empty());
        assert(escape(Seq::<char>::empty()) == Seq::<char>::empty());
    } else {
        assert(tc[0] == t[0]);
        assert(tc.drop_first() =~= t.drop_first().push(c));
        lemma_escape_push(t.drop_first(), c);
        assert(escape_char(t[0]) + (escape(t.drop_first()) + escape_char(c)) =~= escape_char(t[0])
            + escape(t.drop_first()) + escape_char(c));
    }
}

/// The hexadecimal digit for `d`.
fn hex_digit_char(d: u32) -> (c: char)
    requires
        d < 16,
    ensures
        c == hex_char(d as int),
{
    let code: u32 = if d < 10 {
        0x30 + d
    } else {
        0x57 + d
    };
    match char_from_u32(code) {
        Some(c) => {
            proof {
                lemma_char_of(c, code as int);
            }
            c
        },
        None => '0',
    }
}

fn push_seq(out: &mut String, cs: &Vec<char>)
    ensures
        final(out)@ == old(out)@ + cs@,
{
    let mut i: usize = 0;
    while i < cs.len()
        invariant
            0 <= i <= cs.len(),
            out@ == old(out)@ + cs@.subrange(0, i as int),
        decreases cs.len() - i,
    {
        push_char(out, cs[i]);
        i = i + 1;
        assert(old(out)@ + cs@.subrange(0, i as int) =~= (old(out)@ + cs@.subrange(0, i - 1)).push(cs@[i - 1]));
    }
    assert(cs@.subrange(0, i as int) =~= cs@);
}

/// Appends the decimal text of `n`.
fn push_int(out: &mut String, n: i64)
    ensures
        final(out)@ == old(out)@ + int_text(n as int),
{
    let mag: u64 = if n == i64::MIN {
        9223372036854775808
    } else if n < 0 {
        (-n) as u64
    } else {
        n as u64
    };
    let mut digits: Vec<char> = Vec::new();
    let mut m: u64 = mag;
    assert(nat_text(m as nat) + digits@ =~= nat_text(m as nat));
    while m >= 10
        invariant
            nat_text(mag as nat) == nat_text(m as nat) + digits@,
        decreases m,
    {
        let d = hex_digit_char((m % 10) as u32);
        let ghost before = digits@;
        digits.insert(0, d);
        assert(digits@ =~= seq![d] + before);
        assert(nat_text(m as nat) == nat_text((m / 10) as nat) + seq![d]);
        assert(nat_text((m / 10) as nat) + seq![d] + before =~= nat_text((m / 10) as nat) + digits@);
        m = m / 10;
    }
    let d = hex_digit_char(m as u32);
    let ghost before = digits@;
    digits.insert(0, d);
    assert(nat_text(m as nat) == seq![d]);
    assert(digits@ =~= nat_text(mag as nat));
    if n < 0 {
        push_char(out, '-');
    }
    push_seq(out, &digits);
    proof {
        if n < 0 {
            assert(mag as int == -n);
            assert(old(out)@.push('-') + digits@ =~= old(out)@ + int_text(n as int));
        } else {
            assert(mag as int == n);
        }
    }
}

/// Appends `t` as a quoted JSON string.
fn push_quoted(out: &mut String, t: &String)
    ensures
        final(out)@ == old(out)@ + quote(t@),
{
    push_char(out, '"');
    let ghost o1 = out@;
    assert(o1 + escape(Seq::<char>::empty()) =~= o1);
    for c in it: t.as_str().chars()
        invariant
            o1 == old(out)@.push('"'),
            it.seq() == t@,
            out@ == o1 + escape(it.seq().subrange(0, it.index() as int)),
    {
        let ghost done = it.seq().subrange(0, it.index() as int);
        if c == '"' || c == '\\' {
            push_char(out, '\\');
            push_char(out, c);
        } else if (c as u32) < 0x20 {
            push_char(out, '\\');
            push_char(out, 'u');
            push_char(out, '0');
            push_char(out, '0');
            push_char(out, hex_digit_char((c as u32) / 16));
            push_char(out, hex_digit_char((c as u32) % 16));
        } else {
            push_char(out, c);
        }
        proof {
            assert(it.seq().subrange(0, it.index() + 1) =~= done.push(c));
            lemma_escape_push(done, c);
        }
    }
    assert(t@.subrange(0, t@.len() as int) =~= t@);
    push_char(out, '"');
    assert(o1 + escape(t@) + seq!['"'] =~= old(out)@ + quote(t@));
}

impl JsonValue {
    /// The JSON text of the value: compact, with the members of an object in
    /// its order.
    pub fn render(&self) -> (r: String)
        ensures
            r@ == render(self.model()),
    {
        let mut out = String::new();
        self.render_into(&mut out);
        assert(out@ =~= render(self.model()));
        out
    }

    /// Appends the JSON text of the value.
    pub fn render_into(&self, out: &mut String)
        ensures
            final(out)@ == old(out)@ + render(self.model()),
        decreases self,
    {
        proof {
            reveal_strlit("null");
            reveal_strlit("true");
            reveal_strlit("false");
            assert("null"@ =~= seq!['n', 'u', 'l', 'l']);
            assert("true"@ =~= seq!['t', 'r', 'u', 'e']);
            assert("false"@ =~= seq!['f', 'a', 'l', 's', 'e']);
        }
        match self {
            JsonValue::Null => {
                out.append("null");
                assert(render(self.model()) == seq!['n', 'u', 'l', 'l']);
            },
            JsonValue::Bool(b) => {
                if *b {
                    out.append("true");
                } else {
                    out.append("false");
                }
            },
            JsonValue::Int(n) => {
                push_int(out, *n);
            },
            JsonValue::Float(t) => {
                out.append(t.as_str());
            },
            JsonValue::String(t) => {
                push_quoted(out, t);
            },
            JsonValue::Array(vs) => {
                proof {
                    lemma_array_model(*vs);
                }
                let ghost mv = values_model(vs@);
                push_char(out, '[');
                let ghost o1 = out@;
                assert(mv.take(0) =~= Seq::<Json>::empty());
                assert(o1 + render_list(mv.take(0)) =~= o1);
                let mut i: usize = 0;
                while i < vs.len()
                    invariant
                        0 <= i <= vs.len(),
                        *self == JsonValue::Array(*vs),
                        o1 == old(out)@.push('['),
                        out@ == o1 + render_list(mv.take(i as int)),
                        mv == values_model(vs@),
                    decreases vs.len() - i,
                {
                    if i > 0 {
                        push_char(out, ',');
                    }
                    proof {
                        assert(decreases_to!(*vs => vs[i as int]));
                        assert(decreases_to!(*self => (*self)->Array_0));
                        assert(decreases_to!(*self => vs[i as int]));
                    }
                    vs[i].render_into(out);
                    proof {
                        assert(mv.take(i + 1) =~= mv.take(i as int).push(mv[i as int]));
                        if i > 0 {
                            lemma_render_list_push(mv.take(i as int), mv[i as int]);
                        } else {
                            assert(mv.take(1) =~= seq![mv[0]]);
                        }
                    }
                    i = i + 1;
                }
                push_char(out, ']');
                assert(mv.take(i as int) =~= mv);
            },
            JsonValue::Object(ms) => {
                proof {
                    lemma_object_model(*ms);
                }
                let ghost mm = members_model(ms@);
                push_char(out, '{');
                let ghost o1 = out@;
                assert(mm.take(0) =~= Seq::<(Seq<char>, Json)>::empty());
                assert(o1 + render_members(mm.take(0)) =~= o1);
                let mut i: usize = 0;
                while i < ms.len()
                    invariant
                        0 <= i <= ms.len(),
                        *self == JsonValue::Object(*ms),
                        o1 == old(out)@.push('{'),
                        out@ == o1 + render_members(mm.take(i as int)),
                        mm == members_model(ms@),
                    decreases ms.len() - i,
                {
                    if i > 0 {
                        push_char(out, ',');
                    }
                    let ghost o2 = out@;
                    push_quoted(out, &ms[i].0);
                    push_char(out, ':');
                    proof {
                        assert(decreases_to!(*ms => ms[i as int]));
                        assert(decreases_to!(ms[i as int] => ms[i as int].1));
                        assert(decreases_to!(*self => (*self)->Object_0));
                        assert(decreases_to!(*self => ms[i as int].1));
                    }
                    ms[i].1.render_into(out);
                    proof {
                        let part = quote(mm[i as int].0) + seq![':'] + render(mm[i as int].1);
                        assert(out@ =~= o2 + part);
                        assert(mm.take(i + 1) =~= mm.take(i as int).push(mm[i as int]));
                        if i > 0 {
                            lemma_render_members_push(mm.take(i as int), mm[i as int]);
                        } else {
                            assert(mm.take(1) =~= seq![mm[0]]);
                        }
                    }
                    i = i + 1;
                }
                push_char(out, '}');
                assert(mm.take(i as int) =~= mm);
            },
        }
    }
}

} // verus!
