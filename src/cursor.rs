//! The cursor over the input, and the single-character primitives that the
//! parser is built from. Each one consumes input only where it succeeds.
use vstd::prelude::*;
use vstd::string::StrSliceExecFns;
use crate::chars::{is_digit, digit_value, is_hex, hex_value, push_char};
use crate::grammar::{ws_end, hex4};

verus! {

/// A forward-only position into a pre-decoded sequence of Unicode scalar values.
/// Taking a snapshot is copying `pos`; restoring it is writing it back.
pub struct Cursor {
    chars: Vec<char>,
    pos: usize,
}

impl Cursor {
    /// The whole input.
    pub closed spec fn text(&self) -> Seq<char> {
        self.chars@
    }

    /// The number of scalar values consumed so far.
    pub closed spec fn pos(&self) -> int {
        self.pos as int
    }

    /// The position lies within the input.
    pub open spec fn wf(&self) -> bool {
        0 <= self.pos() <= self.text().len()
    }

    /// What is left to read.
    pub open spec fn rest(&self) -> Seq<char> {
        self.text().subrange(self.pos(), self.text().len() as int)
    }

    /// A cursor at the start of `s`.
    pub fn new(s: &str) -> (r: Cursor)
        ensures
            r.wf(),
            r.text() == s@,
            r.pos() == 0,
    {
        let mut chars: Vec<char> = Vec::new();
        for c in it: s.chars()
            invariant
                chars@ == it.seq().subrange(0, it.index() as int),
        {
            chars.push(c);
        }
        Cursor { chars, pos: 0 }
    }

    /// The next character, without consuming it.
    pub fn peek(&self) -> (r: Option<char>)
        requires
            self.wf(),
        ensures
            self.pos() < self.text().len() ==> r == Some(self.text()[self.pos()]),
            self.pos() == self.text().len() ==> r is None,
    {
        if self.pos < self.chars.len() {
            Some(self.chars[self.pos])
        } else {
            None
        }
    }

    /// The number of characters consumed so far.
    pub fn position(&self) -> (r: usize)
        ensures
            r == self.pos(),
    {
        self.pos
    }

    /// The number of characters in the whole input.
    pub fn len(&self) -> (r: usize)
        ensures
            r == self.text().len(),
    {
        self.chars.len()
    }

    /// Whether all of the input has been consumed.
    pub fn is_at_end(&self) -> (r: bool)
        requires
            self.wf(),
        ensures
            r == (self.pos() == self.text().len()),
    {
        self.pos == self.chars.len()
    }

    /// Goes back to a position taken earlier.
    pub fn restore(&mut self, pos: usize)
        requires
            pos <= old(self).text().len(),
        ensures
            final(self).wf(),
            final(self).text() == old(self).text(),
            final(self).pos() == pos,
    {
        self.pos = pos;
    }

    /// Consumes the next character.
    pub fn advance(&mut self)
        requires
            old(self).wf(),
            old(self).pos() < old(self).text().len(),
        ensures
            final(self).wf(),
            final(self).text() == old(self).text(),
            final(self).pos() == old(self).pos() + 1,
    {
        if self.pos < self.chars.len() {
            self.pos = self.pos + 1;
        }
    }

    /// The characters from `from` up to `to`, as a string.
    pub fn slice(&self, from: usize, to: usize) -> (r: String)
        requires
            from <= to <= self.text().len(),
        ensures
            r@ == self.text().subrange(from as int, to as int),
    {
        let mut r = String::new();
        let mut i = from;
        while i < to
            invariant
                from <= i <= to <= self.chars@.len(),
                r@ == self.chars@.subrange(from as int, i as int),
            decreases to - i,
        {
            push_char(&mut r, self.chars[i]);
            i = i + 1;
            assert(r@ =~= self.chars@.subrange(from as int, i as int));
        }
        r
    }
}

/// The cursor stayed or moved forward from `old`, over the same input.
pub open spec fn advanced(old: Cursor, new: Cursor) -> bool {
    &&& new.wf()
    &&& new.text() == old.text()
    &&& old.pos() <= new.pos()
}

/// Consumes `c` if it is the next character.
pub fn consume_char(p: &mut Cursor, c: char) -> (r: Option<char>)
    requires
        old(p).wf(),
    ensures
        final(p).wf(),
        final(p).text() == old(p).text(),
        old(p).pos() < old(p).text().len() && old(p).text()[old(p).pos()] == c ==> {
            &&& r == Some(c)
            &&& final(p).pos() == old(p).pos() + 1
        },
        !(old(p).pos() < old(p).text().len() && old(p).text()[old(p).pos()] == c) ==> {
            &&& r is None
            &&& final(p).pos() == old(p).pos()
        },
{
    if p.pos < p.chars.len() && p.chars[p.pos] == c {
        p.pos = p.pos + 1;
        Some(c)
    } else {
        None
    }
}

/// Consumes the next character if it is one of `chars`, and returns it.
pub fn consume_anychar(p: &mut Cursor, chars: &str) -> (r: Option<char>)
    requires
        old(p).wf(),
    ensures
        advanced(*old(p), *final(p)),
        old(p).pos() < old(p).text().len() && chars@.contains(old(p).text()[old(p).pos()]) ==> {
            &&& r == Some(old(p).text()[old(p).pos()])
            &&& final(p).pos() == old(p).pos() + 1
        },
        !(old(p).pos() < old(p).text().len() && chars@.contains(old(p).text()[old(p).pos()]))
            ==> {
            &&& r is None
            &&& final(p).pos() == old(p).pos()
        },
{
    let n = chars.unicode_len();
    let mut i: usize = 0;
    while i < n
        invariant
            p.wf(),
            p.text() == old(p).text(),
            p.pos() == old(p).pos(),
            n == chars@.len(),
            0 <= i <= n,
            !(p.pos() < p.text().len() && chars@.subrange(0, i as int).contains(
                p.text()[p.pos()],
            )),
        decreases n - i,
    {
        let c = chars.get_char(i);
        if consume_char(p, c).is_some() {
            return Some(c);
        }
        assert(chars@.subrange(0, i + 1) =~= chars@.subrange(0, i as int).push(c));
        i = i + 1;
    }
    assert(chars@.subrange(0, i as int) =~= chars@);
    None
}

/// Consumes from both cursors the longest run of characters that they have in
/// common next, and returns its length.
pub fn consume_prefix(p: &mut Cursor, t: &mut Cursor) -> (r: usize)
    requires
        old(p).wf(),
        old(t).wf(),
    ensures
        advanced(*old(p), *final(p)),
        advanced(*old(t), *final(t)),
        final(p).pos() == old(p).pos() + r,
        final(t).pos() == old(t).pos() + r,
        r <= old(p).rest().len(),
        r <= old(t).rest().len(),
        forall|j: int| 0 <= j < r ==> old(p).rest()[j] == old(t).rest()[j],
        r == old(p).rest().len() || r == old(t).rest().len() || old(p).rest()[r as int]
            != old(t).rest()[r as int],
{
    let mut count: usize = 0;
    loop
        invariant
            p.wf(),
            t.wf(),
            p.text() == old(p).text(),
            t.text() == old(t).text(),
            p.pos() == old(p).pos() + count,
            t.pos() == old(t).pos() + count,
            forall|j: int| 0 <= j < count ==> old(p).rest()[j] == old(t).rest()[j],
        decreases t.text().len() - t.pos(),
    {
        match t.peek() {
            None => return count,
            Some(c) => {
                if consume_char(p, c).is_none() {
                    return count;
                }
                t.advance();
                count = count + 1;
            },
        }
    }
}

/// Consumes the run of whitespace (space, tab, line feed, carriage return)
/// that comes next, and returns its length.
pub fn jsp_consume_whitespace(p: &mut Cursor) -> (r: usize)
    requires
        old(p).wf(),
    ensures
        advanced(*old(p), *final(p)),
        final(p).pos() == ws_end(old(p).text(), old(p).pos()),
        final(p).pos() == old(p).pos() + r,
{
    let mut count: usize = 0;
    loop
        invariant
            p.wf(),
            p.text() == old(p).text(),
            p.pos() == old(p).pos() + count,
            ws_end(p.text(), p.pos()) == ws_end(old(p).text(), old(p).pos()),
        decreases p.text().len() - p.pos(),
    {
        match p.peek() {
            Some(c) => {
                if c == ' ' || c == '\t' || c == '\n' || c == '\r' {
                    p.advance();
                    count = count + 1;
                } else {
                    return count;
                }
            },
            None => return count,
        }
    }
}

/// Consumes the next character if it is a decimal digit, and returns its value.
pub fn jsp_consume_digit(p: &mut Cursor) -> (r: Option<u32>)
    requires
        old(p).wf(),
    ensures
        advanced(*old(p), *final(p)),
        old(p).pos() < old(p).text().len() && is_digit(old(p).text()[old(p).pos()]) ==> {
            &&& r == Some(digit_value(old(p).text()[old(p).pos()]) as u32)
            &&& final(p).pos() == old(p).pos() + 1
        },
        !(old(p).pos() < old(p).text().len() && is_digit(old(p).text()[old(p).pos()])) ==> {
            &&& r is None
            &&& final(p).pos() == old(p).pos()
        },
{
    match p.peek() {
        Some(c) => {
            if '0' <= c && c <= '9' {
                p.advance();
                Some(c as u32 - '0' as u32)
            } else {
                None
            }
        },
        None => None,
    }
}

/// Consumes the next character if it is a hexadecimal digit, and returns its
/// value.
pub fn jsp_consume_hexdigit(p: &mut Cursor) -> (r: Option<u32>)
    requires
        old(p).wf(),
    ensures
        advanced(*old(p), *final(p)),
        old(p).pos() < old(p).text().len() && is_hex(old(p).text()[old(p).pos()]) ==> {
            &&& r == Some(hex_value(old(p).text()[old(p).pos()]) as u32)
            &&& final(p).pos() == old(p).pos() + 1
        },
        !(old(p).pos() < old(p).text().len() && is_hex(old(p).text()[old(p).pos()])) ==> {
            &&& r is None
            &&& final(p).pos() == old(p).pos()
        },
{
    match p.peek() {
        Some(c) => {
            if '0' <= c && c <= '9' {
                p.advance();
                Some(c as u32 - '0' as u32)
            } else if 'a' <= c && c <= 'f' {
                p.advance();
                Some(c as u32 - 'a' as u32 + 10)
            } else if 'A' <= c && c <= 'F' {
                p.advance();
                Some(c as u32 - 'A' as u32 + 10)
            } else {
                None
            }
        },
        None => None,
    }
}

/// Consumes four hexadecimal digits and returns the number they write; where
/// the next four characters are not all hexadecimal digits, consumes nothing.
pub fn jsp_consume_four_hexdigits(p: &mut Cursor) -> (r: Option<u32>)
    requires
        old(p).wf(),
    ensures
        advanced(*old(p), *final(p)),
        hex4(old(p).text(), old(p).pos()) matches Some(u) ==> {
            &&& r == Some(u as u32)
            &&& final(p).pos() == old(p).pos() + 4
        },
        hex4(old(p).text(), old(p).pos()) is None ==> {
            &&& r is None
            &&& final(p).pos() == old(p).pos()
        },
{
    let start = p.position();
    let ghost s = p.text();
    let mut val: u32 = 0;
    let mut i: usize = 0;
    while i < 4
        invariant
            p.wf(),
            p.text() == s,
            s == old(p).text(),
            start == old(p).pos(),
            0 <= i <= 4,
            p.pos() == start + i,
            forall|j: int| start <= j < start + i ==> is_hex(#[trigger] s[j]),
            val == partial_hex(s, start as int, i as int),
            val < pow16(i as nat),
        decreases 4 - i,
    {
        match jsp_consume_hexdigit(p) {
            Some(v) => {
                assert(pow16((i + 1) as nat) == 16 * pow16(i as nat));
                assert(pow16(4) == 65536) by {
                    reveal_with_fuel(pow16, 5);
                }
                assert(pow16(i as nat) <= pow16(4)) by {
                    lemma_pow16_mono(i as nat, 4);
                }
                val = val * 16 + v;
            },
            None => {
                p.restore(start);
                return None;
            },
        }
        i = i + 1;
    }
    proof {
        reveal_with_fuel(partial_hex, 5);
    }
    Some(val)
}

pub open spec fn pow16(n: nat) -> nat
    decreases n,
{
    if n == 0 {
        1
    } else {
        16 * pow16((n - 1) as nat)
    }
}

proof fn lemma_pow16_mono(a: nat, b: nat)
    requires
        a <= b,
    ensures
        pow16(a) <= pow16(b),
    decreases b - a,
{
    if a < b {
        lemma_pow16_mono(a, (b - 1) as nat);
    }
}

/// The number that the first `n` hexadecimal digits at `k` write.
pub open spec fn partial_hex(s: Seq<char>, k: int, n: int) -> int
    decreases n,
{
    if n <= 0 {
        0
    } else {
        16 * partial_hex(s, k, n - 1) + hex_value(s[k + n - 1])
    }
}

} // verus!
