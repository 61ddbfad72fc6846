//! Splitting text into lines.

use vstd::prelude::*;
use crate::text::{chars_of, string_of};

verus! {

/// The first index at or after `i` that holds a line feed, or the length of `s`.
pub open spec fn line_end(s: Seq<char>, i: int) -> int
    decreases s.len() - i,
{
    if i >= s.len() {
        s.len() as int
    } else if i >= 0 && s[i] == '\n' {
        i
    } else {
        line_end(s, i + 1)
    }
}

/// A line without the carriage return that may end it.
pub open spec fn without_cr(l: Seq<char>) -> Seq<char> {
    if l.len() > 0 && l.last() == '\r' {
        l.drop_last()
    } else {
        l
    }
}

/// The lines of `s[start..]`: split at each line feed, which ends a line
/// together with a carriage return before it; a final line feed ends the last
/// line rather than starting an empty one.
pub open spec fn lines_from(s: Seq<char>, start: int) -> Seq<Seq<char>>
    decreases s.len() - start,
{
    if start < 0 || start >= s.len() {
        Seq::empty()
    } else {
        let e = line_end(s, start);
        if e < start || e >= s.len() {
            seq![s.subrange(start, s.len() as int)]
        } else {
            seq![without_cr(s.subrange(start, e))] + lines_from(s, e + 1)
        }
    }
}

/// The lines of `s`.
pub open spec fn lines_of(s: Seq<char>) -> Seq<Seq<char>> {
    lines_from(s, 0)
}

proof fn lemma_line_end_bounds(s: Seq<char>, i: int)
    requires
        0 <= i <= s.len(),
    ensures
        i <= line_end(s, i) <= s.len(),
        forall|j: int| i <= j < line_end(s, i) ==> s[j] != '\n',
        line_end(s, i) < s.len() ==> s[line_end(s, i)] == '\n',
    decreases s.len() - i,
{
    if i < s.len() && s[i] != '\n' {
        lemma_line_end_bounds(s, i + 1);
    }
}

/// Splits `text` into its lines, as `str::lines` does: at each `\n`, with a
/// `\r` before it removed and no empty line after a final `\n`.
pub fn split_lines(text: &str) -> (r: Vec<String>)
    ensures
        r.deep_view() == lines_of(text@),
{
    let chars = chars_of(text);
    let ghost s = chars@;
    let mut out: Vec<String> = Vec::new();
    let mut start: usize = 0;
    while start < chars.len()
        invariant
            s == text@,
            chars@ == s,
            start <= s.len(),
            lines_of(s) == out.deep_view() + lines_from(s, start as int),
        decreases s.len() - start,
    {
        proof {
            lemma_line_end_bounds(s, start as int);
        }
        let mut line: Vec<char> = Vec::new();
        let mut i: usize = start;
        while i < chars.len() && chars[i] != '\n'
            invariant
                chars@ == s,
                start <= i <= line_end(s, start as int),
                line_end(s, start as int) <= s.len(),
                line_end(s, start as int) < s.len() ==> s[line_end(s, start as int)] == '\n',
                line@ == s.subrange(start as int, i as int),
            decreases s.len() - i,
        {
            line.push(chars[i]);
            i = i + 1;
            assert(line@ =~= s.subrange(start as int, i as int));
        }
        assert(i == line_end(s, start as int));
        let ghost full = line@;
        let n = line.len();
        if i < chars.len() && n > 0 && line[n - 1] == '\r' {
            line.pop();
        }
        assert(i < s.len() ==> line@ =~= without_cr(full));
        assert(i >= s.len() ==> line@ =~= full);
        let ghost prev = out.deep_view();
        out.push(string_of(line.as_slice()));
        if i >= chars.len() {
            proof {
                assert(lines_from(s, start as int) =~= seq![line@]);
                assert(out.deep_view() =~= prev.push(line@));
                assert(lines_from(s, s.len() as int) =~= Seq::<Seq<char>>::empty());
            }
            start = i;
        } else {
            proof {
                assert(lines_from(s, start as int) =~= seq![line@] + lines_from(s, i + 1));
                assert(out.deep_view() =~= prev.push(line@));
            }
            start = i + 1;
        }
    }
    assert(lines_from(s, start as int) =~= Seq::<Seq<char>>::empty());
    assert(lines_of(s) =~= out.deep_view());
    out
}

} // verus!
