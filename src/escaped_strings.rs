//! String operations that honour backslash escapes.

use vstd::prelude::*;
use vstd::utf8::*;
use crate::text::{chars_of, string_of};

verus! {

broadcast use vstd::utf8::char_is_scalar;

/// The escape character.
pub const ESCAPE_CHAR: char = '\\';

/// Whether the character at index `i` of `s` is escaped: it follows a backslash
/// that is not itself escaped.
pub open spec fn escaped_at(s: Seq<char>, i: int) -> bool
    decreases i,
{
    if i <= 0 || i > s.len() {
        false
    } else {
        s[i - 1] == '\\' && !escaped_at(s, i - 1)
    }
}

/// `s[k]` is the character `t`, and it is not escaped.
pub open spec fn unescaped_at(s: Seq<char>, t: char, k: int) -> bool {
    0 <= k < s.len() && s[k] == t && !escaped_at(s, k)
}

/// `k` is the first index at which `t` stands unescaped in `s`.
pub open spec fn first_unescaped(s: Seq<char>, t: char, k: int) -> bool {
    unescaped_at(s, t, k) && forall|j: int| 0 <= j < k ==> !#[trigger] unescaped_at(s, t, j)
}

/// The length of `s` once the trailing spaces at positions `< n` that are not
/// escaped are removed.
pub open spec fn trimmed_len(s: Seq<char>, n: int) -> int
    decreases n,
{
    if n <= 0 || n > s.len() {
        if n <= 0 { 0 } else { s.len() as int }
    } else if s[n - 1] == ' ' && !escaped_at(s, n - 1) {
        trimmed_len(s, n - 1)
    } else {
        n
    }
}

/// The first index at or after `i` where the separator `c` stands unescaped,
/// or the length of `s` where there is none.
pub open spec fn next_separator(s: Seq<char>, c: char, i: int) -> int
    decreases s.len() - i,
{
    if i >= s.len() {
        s.len() as int
    } else if i >= 0 && s[i] == c && !escaped_at(s, i) {
        i
    } else {
        next_separator(s, c, i + 1)
    }
}

/// The parts of `s[start..]` between unescaped separators `c`.
pub open spec fn parts_from(s: Seq<char>, c: char, start: int) -> Seq<Seq<char>>
    decreases s.len() - start,
{
    let e = next_separator(s, c, start);
    if start < 0 || e >= s.len() || e < start {
        seq![s.subrange(if start < 0 { 0 } else if start > s.len() { s.len() as int } else { start }, s.len() as int)]
    } else {
        seq![s.subrange(start, e)] + parts_from(s, c, e + 1)
    }
}

/// The parts of `s` between unescaped separators `c`; there is always at least one.
pub open spec fn split_parts(s: Seq<char>, c: char) -> Seq<Seq<char>> {
    parts_from(s, c, 0)
}

/// For each index `i` in `0..=s.len()`, whether the character at `i` is escaped.
pub(crate) fn escape_flags(s: &Vec<char>) -> (r: Vec<bool>)
    ensures
        r@.len() == s@.len() + 1,
        forall|i: int| 0 <= i <= s@.len() ==> r@[i] == escaped_at(s@, i),
{
    let mut r: Vec<bool> = Vec::new();
    r.push(false);
    let mut i: usize = 0;
    while i < s.len()
        invariant
            i <= s@.len(),
            r@.len() == i + 1,
            forall|j: int| 0 <= j <= i ==> r@[j] == escaped_at(s@, j),
        decreases s@.len() - i,
    {
        let e = s[i] == ESCAPE_CHAR && !r[i];
        r.push(e);
        i = i + 1;
    }
    r
}

/// The number of bytes of the UTF-8 encoding of `c`.
fn utf8_width(c: char) -> (r: usize)
    ensures
        r == encode_scalar(c as u32).len(),
{
    let v = c as u32;
    if v <= 0x7F {
        1
    } else if v <= 0x7FF {
        2
    } else if v <= 0xFFFF {
        3
    } else {
        4
    }
}

proof fn lemma_encode_concat(a: Seq<char>, b: Seq<char>)
    ensures
        encode_utf8(a + b) == encode_utf8(a) + encode_utf8(b),
    decreases a.len(),
{
    if a.len() == 0 {
        assert(a + b =~= b);
    } else {
        lemma_encode_concat(a.drop_first(), b);
        assert((a + b).drop_first() =~= a.drop_first() + b);
    }
}

/// Finds the first occurrence of `target_char` in `string` that is not escaped,
/// and returns its byte offset.
pub fn find_char(string: &str, target_char: char) -> (r: Option<usize>)
    ensures
        match r {
            Some(b) => exists|k: int|
                first_unescaped(string@, target_char, k) && b == encode_utf8(
                    #[trigger] string@.take(k),
                ).len(),
            None => forall|k: int| !#[trigger] unescaped_at(string@, target_char, k),
        },
{
    let chars = chars_of(string);
    let bytes = string.as_bytes();
    let total = bytes.len();
    proof {
        assert(chars@ == string@);
    }
    let mut escaped = false;
    let mut idx: usize = 0;
    let mut i: usize = 0;
    while i < chars.len()
        invariant
            chars@ == string@,
            total == encode_utf8(string@).len(),
            i <= chars@.len(),
            escaped == escaped_at(string@, i as int),
            idx == encode_utf8(string@.take(i as int)).len(),
            forall|j: int| 0 <= j < i ==> !#[trigger] unescaped_at(string@, target_char, j),
        decreases chars@.len() - i,
    {
        let c = chars[i];
        if c == target_char && !escaped {
            return Some(idx);
        }
        proof {
            let s = string@;
            assert(s.take(i + 1) =~= s.take(i as int) + seq![c]);
            lemma_encode_concat(s.take(i as int), seq![c]);
            assert(seq![c].drop_first() =~= Seq::<char>::empty());
            assert(encode_utf8(Seq::<char>::empty()) =~= Seq::<u8>::empty());
            assert(encode_utf8(seq![c]) == encode_scalar(seq![c][0] as u32) + encode_utf8(
                seq![c].drop_first(),
            ));
            assert(encode_utf8(seq![c]) =~= encode_scalar(c as u32));
            assert(s =~= s.take(i + 1) + s.skip(i + 1));
            lemma_encode_concat(s.take(i + 1), s.skip(i + 1));
        }
        let w = utf8_width(c);
        idx = idx + w;
        escaped = c == ESCAPE_CHAR && !escaped;
        i = i + 1;
    }
    None
}

/// Returns `string` with its trailing spaces removed; a space escaped by a
/// backslash is kept, and so is everything before it.
pub fn trim_end(string: String) -> (r: String)
    ensures
        r@ == string@.take(trimmed_len(string@, string@.len() as int)),
{
    let mut chars = chars_of(string.as_str());
    let flags = escape_flags(&chars);
    let ghost s = chars@;
    let mut n: usize = chars.len();
    while n > 0 && chars[n - 1] == ' ' && !flags[n - 1]
        invariant
            s == string@,
            chars@ == s,
            flags@.len() == s.len() + 1,
            forall|i: int| 0 <= i <= s.len() ==> flags@[i] == escaped_at(s, i),
            n <= s.len(),
            trimmed_len(s, s.len() as int) == trimmed_len(s, n as int),
        decreases n,
    {
        n = n - 1;
    }
    chars.truncate(n);
    string_of(chars.as_slice())
}

/// The parts of a string between unescaped separators, handed out one at a time.
pub struct Split {
    chars: Vec<char>,
    split_by: char,
    pos: usize,
    done: bool,
}

impl Split {
    /// The parts that are still to come.
    pub closed spec fn remaining(&self) -> Seq<Seq<char>> {
        if self.done {
            Seq::empty()
        } else {
            parts_from(self.chars@, self.split_by, self.pos as int)
        }
    }

    pub closed spec fn wf(&self) -> bool {
        &&& self.split_by != ESCAPE_CHAR
        &&& self.pos <= self.chars@.len()
        &&& (self.pos > 0 && !self.done ==> !escaped_at(self.chars@, self.pos as int))
    }

    pub proof fn lemma_next_separator_bounds(s: Seq<char>, c: char, i: int)
        requires
            0 <= i <= s.len(),
        ensures
            i <= next_separator(s, c, i) <= s.len(),
            forall|j: int| i <= j < next_separator(s, c, i) ==> !unescaped_at(s, c, j),
            next_separator(s, c, i) < s.len() ==> unescaped_at(s, c, next_separator(s, c, i)),
        decreases s.len() - i,
    {
        if i < s.len() && !(s[i] == c && !escaped_at(s, i)) {
            Self::lemma_next_separator_bounds(s, c, i + 1);
        }
    }

    /// Returns the next part, or `None` once every part has been handed out.
    pub fn next(&mut self) -> (r: Option<String>)
        requires
            old(self).wf(),
        ensures
            final(self).wf(),
            old(self).remaining().len() == 0 ==> r is None && final(self).remaining() == old(
                self,
            ).remaining(),
            old(self).remaining().len() > 0 ==> r is Some && r->0@ == old(self).remaining()[0]
                && final(self).remaining() == old(self).remaining().drop_first(),
    {
        if self.done {
            return None;
        }
        let ghost s = self.chars@;
        let ghost start = self.pos as int;
        proof {
            Self::lemma_next_separator_bounds(s, self.split_by, start);
        }
        let mut part: Vec<char> = Vec::new();
        let mut escaped = false;
        let mut i: usize = self.pos;
        while i < self.chars.len() && (escaped || self.chars[i] != self.split_by)
            invariant
                s == self.chars@,
                self.wf(),
                start == self.pos,
                start <= i <= s.len(),
                i <= next_separator(s, self.split_by, start) <= s.len(),
                next_separator(s, self.split_by, start) < s.len() ==> unescaped_at(
                    s,
                    self.split_by,
                    next_separator(s, self.split_by, start),
                ),
                escaped == escaped_at(s, i as int),
                part@ == s.subrange(start, i as int),
            decreases s.len() - i,
        {
            part.push(self.chars[i]);
            escaped = self.chars[i] == ESCAPE_CHAR && !escaped;
            i = i + 1;
            proof {
                assert(part@ =~= s.subrange(start, i as int));
            }
        }
        proof {
            Self::lemma_next_separator_bounds(s, self.split_by, start);
            if i < s.len() {
                assert(unescaped_at(s, self.split_by, i as int));
            }
            assert(i == next_separator(s, self.split_by, start));
        }
        if i >= self.chars.len() {
            self.done = true;
            self.pos = i;
        } else {
            self.pos = i + 1;
            proof {
                assert(!escaped_at(s, i as int + 1)) by {
                    assert(s[i as int] != '\\');
                }
            }
        }
        let r = string_of(part.as_slice());
        proof {
            let rem = parts_from(s, self.split_by, start);
            assert(rem.len() > 0);
            if !self.done {
                assert(rem =~= seq![s.subrange(start, i as int)] + parts_from(s, self.split_by, i + 1));
                assert(rem.drop_first() =~= parts_from(s, self.split_by, i + 1));
            }
        }
        Some(r)
    }

    /// Collects the parts that are still to come.
    pub fn to_vec(self) -> (r: Vec<String>)
        requires
            self.wf(),
        ensures
            r.deep_view() == self.remaining(),
    {
        let ghost all = self.remaining();
        let mut rest = self;
        let mut out: Vec<String> = Vec::new();
        loop
            invariant
                rest.wf(),
                all == self.remaining(),
                all == out.deep_view() + rest.remaining(),
            decreases rest.remaining().len(),
        {
            let ghost before = rest.remaining();
            match rest.next() {
                None => {
                    assert(all =~= out.deep_view());
                    return out;
                },
                Some(p) => {
                    out.push(p);
                    assert(all =~= out.deep_view() + rest.remaining());
                },
            }
        }
    }
}

/// Splits `string` at every occurrence of `split_by` that is not escaped.
pub fn split(string: &str, split_by: char) -> (r: Split)
    requires
        split_by != ESCAPE_CHAR,
    ensures
        r.wf(),
        r.remaining() == split_parts(string@, split_by),
{
    Split { chars: chars_of(string), split_by, pos: 0, done: false }
}

/// There is always at least one part.
pub proof fn lemma_parts_nonempty(s: Seq<char>, c: char, start: int)
    ensures
        parts_from(s, c, start).len() >= 1,
    decreases s.len() - start,
{
    let e = next_separator(s, c, start);
    if !(start < 0 || e >= s.len() || e < start) {
        lemma_parts_nonempty(s, c, e + 1);
    }
}

/// Escapes inside `s[a..e]` are those of `s`, where the character at `a` is
/// not escaped.
pub proof fn lemma_escape_local(s: Seq<char>, a: int, e: int, i: int)
    requires
        0 <= a <= i <= e <= s.len(),
        !escaped_at(s, a),
    ensures
        escaped_at(s.subrange(a, e), i - a) == escaped_at(s, i),
    decreases i - a,
{
    if i > a {
        lemma_escape_local(s, a, e, i - 1);
    }
}

/// The last part of `parts_from(s, c, start)` is a suffix of `s` that starts at
/// `start` or right after an unescaped separator.
pub proof fn lemma_last_part(s: Seq<char>, c: char, start: int)
    requires
        0 <= start <= s.len(),
        c != ESCAPE_CHAR,
        !escaped_at(s, start),
    ensures
        exists|st: int|
            start <= st <= s.len() && !escaped_at(s, st) && parts_from(s, c, start).last()
                == s.subrange(st, s.len() as int),
    decreases s.len() - start,
{
    lemma_parts_nonempty(s, c, start);
    let e = next_separator(s, c, start);
    Split::lemma_next_separator_bounds(s, c, start);
    if e >= s.len() {
        assert(parts_from(s, c, start).last() == s.subrange(start, s.len() as int));
    } else {
        assert(s[e] == c);
        assert(!escaped_at(s, e + 1));
        lemma_last_part(s, c, e + 1);
        lemma_parts_nonempty(s, c, e + 1);
        let rest = parts_from(s, c, e + 1);
        assert(parts_from(s, c, start) == seq![s.subrange(start, e)] + rest);
        assert(parts_from(s, c, start).last() == rest.last());
    }
}

} // verus!
