//! Finding the lines of a text that a search expression matches.

use vstd::prelude::*;
use crate::lines::{lines_of, split_lines};
use crate::regexes::{build_search_regex, regex_builds, search_matches, search_regex_is_match};
use crate::text::{chars_of, string_of};

verus! {

/// How lines are matched and reported.
pub struct MatchOptions {
    /// Prefix each reported line with its 1-based number.
    pub show_line_numbers: bool,
    /// Match without regard to case.
    pub case_insensitive: bool,
}

impl Default for MatchOptions {
    fn default() -> (r: Self)
        ensures
            !r.show_line_numbers,
            !r.case_insensitive,
    {
        MatchOptions { show_line_numbers: false, case_insensitive: false }
    }
}

/// Why a search could not run.
#[derive(Debug, Clone, Copy, PartialEq, Eq, Structural)]
pub enum MatchError {
    /// The search expression does not compile.
    InvalidPattern,
}

pub open spec fn digit_char(d: nat) -> char {
    if d == 0 { '0' } else if d == 1 { '1' } else if d == 2 { '2' } else if d == 3 { '3' }
    else if d == 4 { '4' } else if d == 5 { '5' } else if d == 6 { '6' } else if d == 7 { '7' }
    else if d == 8 { '8' } else { '9' }
}

/// The decimal digits of `n`.
pub open spec fn decimal(n: nat) -> Seq<char>
    decreases n,
{
    if n < 10 {
        seq![digit_char(n)]
    } else {
        decimal(n / 10).push(digit_char(n % 10))
    }
}

fn digit_exec(d: usize) -> (r: char)
    requires
        d < 10,
    ensures
        r == digit_char(d as nat),
{
    if d == 0 { '0' } else if d == 1 { '1' } else if d == 2 { '2' } else if d == 3 { '3' }
    else if d == 4 { '4' } else if d == 5 { '5' } else if d == 6 { '6' } else if d == 7 { '7' }
    else if d == 8 { '8' } else { '9' }
}

fn push_decimal(out: &mut Vec<char>, n: usize)
    ensures
        final(out)@ == old(out)@ + decimal(n as nat),
    decreases n,
{
    if n < 10 {
        out.push(digit_exec(n));
    } else {
        push_decimal(out, n / 10);
        out.push(digit_exec(n % 10));
    }
    assert(out@ =~= old(out)@ + decimal(n as nat));
}

/// What a matching line `line`, numbered `number`, is reported as.
pub open spec fn report_line(line: Seq<char>, number: nat, show_line_numbers: bool) -> Seq<char> {
    if show_line_numbers {
        decimal(number) + seq![':', ' '] + line + seq!['\n']
    } else {
        line + seq!['\n']
    }
}

/// The report for the first `n` lines: each line that the expression matches,
/// in order.
pub open spec fn report_upto(
    lines: Seq<Seq<char>>,
    pattern: Seq<char>,
    options: MatchOptions,
    n: int,
) -> Seq<char>
    decreases n,
{
    if n <= 0 || n > lines.len() {
        Seq::empty()
    } else {
        let prev = report_upto(lines, pattern, options, n - 1);
        if search_matches(pattern, options.case_insensitive, lines[n - 1]) {
            prev + report_line(lines[n - 1], n as nat, options.show_line_numbers)
        } else {
            prev
        }
    }
}

/// The report of a search of `text`.
pub open spec fn report(text: Seq<char>, pattern: Seq<char>, options: MatchOptions) -> Seq<char> {
    report_upto(lines_of(text), pattern, options, lines_of(text).len() as int)
}

/// Reports the lines of `text` that `pattern` matches, one per line, each
/// prefixed with its 1-based number where `options` asks for it. Fails where
/// the pattern does not compile.
pub fn find_matches(text: &str, pattern: &String, options: &MatchOptions) -> (r: Result<
    String,
    MatchError,
>)
    ensures
        r is Err <==> !regex_builds(pattern@, options.case_insensitive),
        r is Err ==> r == Err::<String, MatchError>(MatchError::InvalidPattern),
        r is Ok ==> r->Ok_0@ == report(text@, pattern@, *options),
{
    let regex = match build_search_regex(pattern.as_str(), options.case_insensitive) {
        Ok(re) => re,
        Err(_) => {
            return Err(MatchError::InvalidPattern);
        },
    };
    let lines = split_lines(text);
    let ghost ls = lines.deep_view();
    let mut out: Vec<char> = Vec::new();
    let mut i: usize = 0;
    while i < lines.len()
        invariant
            ls == lines.deep_view(),
            ls == lines_of(text@),
            i <= ls.len(),
            regex.pattern() == pattern@,
            regex.case_insensitive() == options.case_insensitive,
            out@ == report_upto(ls, pattern@, *options, i as int),
        decreases ls.len() - i,
    {
        let line = &lines[i];
        if search_regex_is_match(&regex, line.as_str()) {
            let ghost prev = out@;
            if options.show_line_numbers {
                push_decimal(&mut out, i + 1);
                out.push(':');
                out.push(' ');
            }
            let mut lc = chars_of(line.as_str());
            out.append(&mut lc);
            out.push('\n');
            assert(out@ =~= prev + report_line(ls[i as int], (i + 1) as nat, options.show_line_numbers));
        }
        i = i + 1;
    }
    Ok(string_of(out.as_slice()))
}

} // verus!
