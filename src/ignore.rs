//! Gitignore rules: cleaning a rule line, compiling it to a regular expression,
//! rule sets, the stack of rule sets that a walk keeps, and the walk itself.

use vstd::prelude::*;
use crate::escaped_strings::{
    ESCAPE_CHAR, escaped_at, lemma_escape_local, lemma_last_part, lemma_parts_nonempty, escape_flags, first_unescaped, unescaped_at, split, split_parts,
    trimmed_len, trim_end,
};
use crate::lines::{lines_of, split_lines};
use crate::regexes::{
    SearchRegex, build_search_regex, regex_builds, search_matches, search_regex_is_match,
};
use crate::text::{chars_of, string_of};
use crate::tree::{Entry, EntryKind, entry_is_text, sample_is_text};

verus! {

/// The path separator.
pub const DIR_SEP: char = '/';

/// `s` with everything from its first unescaped `#` removed.
pub open spec fn without_comment(s: Seq<char>) -> Seq<char> {
    if exists|k: int| first_unescaped(s, '#', k) {
        s.take(choose|k: int| first_unescaped(s, '#', k))
    } else {
        s
    }
}

/// A rule line without its comment and without its unescaped trailing spaces.
pub open spec fn cleaned(s: Seq<char>) -> Seq<char> {
    let c = without_comment(s);
    c.take(trimmed_len(c, c.len() as int))
}

proof fn lemma_first_unescaped_unique(s: Seq<char>, t: char, a: int, b: int)
    requires
        first_unescaped(s, t, a),
        first_unescaped(s, t, b),
    ensures
        a == b,
{
    if a < b {
        assert(unescaped_at(s, t, a));
    } else if b < a {
        assert(unescaped_at(s, t, b));
    }
}

/// Removes the comment from a rule line: everything from the first `#` that is
/// not escaped.
pub fn remove_comment(pattern: String) -> (r: String)
    ensures
        r@ == without_comment(pattern@),
{
    let mut chars = chars_of(pattern.as_str());
    let flags = escape_flags(&chars);
    let ghost s = chars@;
    let mut i: usize = 0;
    while i < chars.len()
        invariant
            s == pattern@,
            chars@ == s,
            flags@.len() == s.len() + 1,
            forall|j: int| 0 <= j <= s.len() ==> flags@[j] == escaped_at(s, j),
            i <= s.len(),
            forall|j: int| 0 <= j < i ==> !#[trigger] unescaped_at(s, '#', j),
        decreases s.len() - i,
    {
        if chars[i] == '#' && !flags[i] {
            proof {
                assert(first_unescaped(s, '#', i as int));
                let k = choose|k: int| first_unescaped(s, '#', k);
                lemma_first_unescaped_unique(s, '#', k, i as int);
            }
            chars.truncate(i);
            return string_of(chars.as_slice());
        }
        i = i + 1;
    }
    proof {
        assert forall|k: int| !first_unescaped(s, '#', k) by {
            if 0 <= k < s.len() {
                assert(!unescaped_at(s, '#', k));
            }
        }
    }
    pattern
}

/// Cleans a rule line: removes its comment, then its trailing spaces. Leading
/// spaces are kept.
pub fn clean_pattern(pattern: String) -> (r: String)
    ensures
        r@ == cleaned(pattern@),
{
    trim_end(remove_comment(pattern))
}

/// What one character of a rule part becomes in the regular expression.
pub open spec fn char_regex(s: Seq<char>, i: int) -> Seq<char> {
    let c = s[i];
    if escaped_at(s, i) {
        seq![c]
    } else if c == '.' || c == '+' || c == '(' || c == ')' || c == '|' || c == '^' || c == '$'
        || c == '{' || c == '}' {
        seq!['\\', c]
    } else if c == '*' {
        seq!['[', '^', '/', ']', '*']
    } else if c == '?' {
        seq!['[', '^', '/', ']']
    } else {
        seq![c]
    }
}

/// The regular expression for the first `n` characters of a rule part.
pub open spec fn part_regex_upto(s: Seq<char>, n: int) -> Seq<char>
    decreases n,
{
    if n <= 0 || n > s.len() {
        Seq::empty()
    } else {
        part_regex_upto(s, n - 1) + char_regex(s, n - 1)
    }
}

/// The regular expression for one rule part, or `None` where the part ends in
/// an incomplete escape.
pub open spec fn part_regex(s: Seq<char>) -> Option<Seq<char>> {
    if escaped_at(s, s.len() as int) {
        None
    } else {
        Some(part_regex_upto(s, s.len() as int))
    }
}

fn push_lit(out: &mut Vec<char>, lit: &[char])
    ensures
        final(out)@ == old(out)@ + lit@,
{
    let mut i: usize = 0;
    while i < lit.len()
        invariant
            i <= lit@.len(),
            out@ == old(out)@ + lit@.take(i as int),
        decreases lit@.len() - i,
    {
        out.push(lit[i]);
        i = i + 1;
        assert(out@ =~= old(out)@ + lit@.take(i as int));
    }
    assert(lit@.take(lit@.len() as int) =~= lit@);
}

/// Converts one part of a rule (the text between two separators) to regular
/// expression syntax. A part that ends in an incomplete escape gives `None`.
pub fn convert_part(part: &str) -> (r: Option<String>)
    ensures
        r is Some <==> part_regex(part@) is Some,
        r is Some ==> r->0@ == part_regex(part@)->0,
{
    let chars = chars_of(part);
    let ghost s = chars@;
    let mut out: Vec<char> = Vec::new();
    let mut is_escaped = false;
    let mut i: usize = 0;
    while i < chars.len()
        invariant
            s == part@,
            chars@ == s,
            i <= s.len(),
            is_escaped == escaped_at(s, i as int),
            out@ == part_regex_upto(s, i as int),
        decreases s.len() - i,
    {
        let c = chars[i];
        if is_escaped {
            out.push(c);
            is_escaped = false;
        } else if c == '.' || c == '+' || c == '(' || c == ')' || c == '|' || c == '^' || c
            == '$' || c == '{' || c == '}' {
            out.push(ESCAPE_CHAR);
            out.push(c);
        } else if c == '*' {
            push_lit(&mut out, &['[', '^', '/', ']', '*']);
        } else if c == '?' {
            push_lit(&mut out, &['[', '^', '/', ']']);
        } else {
            out.push(c);
            is_escaped = c == ESCAPE_CHAR;
        }
        i = i + 1;
        proof {
            assert(out@ =~= part_regex_upto(s, i as int));
        }
    }
    if is_escaped {
        None
    } else {
        Some(string_of(out.as_slice()))
    }
}

/// Matches at the start of the path or after any separator.
pub open spec fn any_depth_prefix() -> Seq<char> {
    seq!['(', '?', ':', '^', '|', '/', ')']
}

/// Matches everything that follows.
pub open spec fn everything_below() -> Seq<char> {
    seq!['.', '*']
}

/// Matches zero or more whole path segments.
pub open spec fn any_segments() -> Seq<char> {
    seq!['(', '?', ':', '.', '*', '/', ')', '?']
}

/// Requires a separator or the end of the path.
pub open spec fn segment_end() -> Seq<char> {
    seq!['(', '?', ':', '/', '|', '$', ')']
}

pub open spec fn is_double_star(p: Seq<char>) -> bool {
    p == seq!['*', '*']
}

/// A rule with a separator at its start or in its middle is anchored to the
/// directory of its rule set.
pub open spec fn is_anchored(parts: Seq<Seq<char>>) -> bool {
    parts.len() >= 3 || (parts.len() >= 2 && parts.last().len() > 0)
}

/// What part `i` of a rule contributes to its regular expression; `None` where
/// the part is invalid.
pub open spec fn part_piece(parts: Seq<Seq<char>>, i: int) -> Option<Seq<char>> {
    let p = parts[i];
    let leading = i == 0;
    let trailing = i == parts.len() - 1;
    let ds = is_double_star(p);
    let start_anchor = leading && is_anchored(parts) && !ds;
    let prefix = if !leading {
        Seq::empty()
    } else if start_anchor {
        seq!['^']
    } else {
        any_depth_prefix()
    };
    if start_anchor && p.len() == 0 {
        Some(prefix)
    } else if ds {
        Some(prefix + if trailing { everything_below() } else { any_segments() })
    } else {
        match part_regex(p) {
            None => None,
            Some(r) => Some(prefix + r + if trailing { Seq::empty() } else { seq!['/'] }),
        }
    }
}

/// The regular expression for the first `n` parts of a rule.
pub open spec fn pieces_upto(parts: Seq<Seq<char>>, n: int) -> Option<Seq<char>>
    decreases n,
{
    if n <= 0 || n > parts.len() {
        Some(Seq::empty())
    } else {
        match (pieces_upto(parts, n - 1), part_piece(parts, n - 1)) {
            (Some(a), Some(b)) => Some(a + b),
            _ => None,
        }
    }
}

/// Whether a regular expression still needs `segment_end()`: it does not end
/// in `.*` or in a separator.
pub open spec fn needs_segment_end(r: Seq<char>) -> bool {
    !(r.len() >= 2 && r[r.len() - 2] == '.' && r[r.len() - 1] == '*') && !(r.len() >= 1 && r[r.len()
        - 1] == '/')
}

/// The regular expression that a cleaned rule compiles to, or `None` where the
/// rule can never match.
pub open spec fn pattern_regex(pattern: Seq<char>) -> Option<Seq<char>> {
    let parts = split_parts(pattern, DIR_SEP);
    match pieces_upto(parts, parts.len() as int) {
        None => None,
        Some(r) => Some(if needs_segment_end(r) { r + segment_end() } else { r }),
    }
}

fn is_double_star_exec(p: &Vec<char>) -> (r: bool)
    ensures
        r == is_double_star(p@),
{
    let r = p.len() == 2 && p[0] == '*' && p[1] == '*';
    proof {
        if r {
            assert(p@ =~= seq!['*', '*']);
        }
    }
    r
}

/// Converts a cleaned rule from gitignore syntax to regular expression syntax.
/// A rule that can never match gives `None`.
pub fn convert_pattern(pattern: &str) -> (r: Option<String>)
    ensures
        r is Some <==> pattern_regex(pattern@) is Some,
        r is Some ==> r->0@ == pattern_regex(pattern@)->0,
{
    let parts = split(pattern, DIR_SEP).to_vec();
    let ghost ps = parts.deep_view();
    assert(ps == split_parts(pattern@, DIR_SEP));
    proof {
        crate::escaped_strings::lemma_parts_nonempty(pattern@, DIR_SEP, 0);
    }
    let n = parts.len();
    let anchored = n >= 3 || (n >= 2 && parts[n - 1].as_str().unicode_len() > 0);
    assert(anchored == is_anchored(ps));
    let mut out: Vec<char> = Vec::new();
    let mut i: usize = 0;
    while i < n
        invariant
            ps == parts.deep_view(),
            ps == split_parts(pattern@, DIR_SEP),
            n == ps.len(),
            n >= 1,
            anchored == is_anchored(ps),
            i <= n,
            pieces_upto(ps, i as int) == Some(out@),
        decreases n - i,
    {
        let part = chars_of(parts[i].as_str());
        assert(part@ == ps[i as int]);
        let leading = i == 0;
        let trailing = i == n - 1;
        let ds = is_double_star_exec(&part);
        let start_anchor = leading && anchored && !ds;
        let ghost before = out@;
        if leading {
            if start_anchor {
                out.push('^');
            } else {
                push_lit(&mut out, &['(', '?', ':', '^', '|', '/', ')']);
            }
        }
        if start_anchor && part.len() == 0 {
        } else if ds {
            if trailing {
                push_lit(&mut out, &['.', '*']);
            } else {
                push_lit(&mut out, &['(', '?', ':', '.', '*', '/', ')', '?']);
            }
        } else {
            match convert_part(parts[i].as_str()) {
                None => {
                    proof {
                        assert(part_piece(ps, i as int) is None);
                        assert(pieces_upto(ps, i as int + 1) is None);
                        lemma_pieces_none_from(ps, i as int + 1, n as int);
                        assert(pieces_upto(ps, ps.len() as int) is None);
                    }
                    return None;
                },
                Some(r) => {
                    let mut rc = chars_of(r.as_str());
                    out.append(&mut rc);
                    if !trailing {
                        out.push('/');
                    }
                },
            }
        }
        proof {
            let piece = part_piece(ps, i as int);
            assert(piece is Some);
            assert(out@ =~= before + piece->0);
        }
        i = i + 1;
    }
    let len = out.len();
    let ends_any = len >= 2 && out[len - 2] == '.' && out[len - 1] == '*';
    let ends_sep = len >= 1 && out[len - 1] == '/';
    if !ends_any && !ends_sep {
        push_lit(&mut out, &['(', '?', ':', '/', '|', '$', ')']);
    }
    Some(string_of(out.as_slice()))
}

proof fn lemma_pieces_none_from(parts: Seq<Seq<char>>, k: int, n: int)
    requires
        1 <= k <= n <= parts.len(),
        pieces_upto(parts, k) is None,
    ensures
        pieces_upto(parts, n) is None,
    decreases n - k,
{
    if k < n {
        lemma_pieces_none_from(parts, k + 1, n);
    }
}

/// A blank line: nothing but ASCII whitespace. It holds no rule.
pub open spec fn is_blank(s: Seq<char>) -> bool {
    forall|i: int| 0 <= i < s.len() ==> is_ascii_space(#[trigger] s[i])
}

pub open spec fn is_ascii_space(c: char) -> bool {
    c == ' ' || c == '\t' || c == '\n' || c == '\x0C' || c == '\r'
}

fn is_blank_exec(s: &Vec<char>) -> (r: bool)
    ensures
        r == is_blank(s@),
{
    let mut i: usize = 0;
    while i < s.len()
        invariant
            i <= s@.len(),
            forall|j: int| 0 <= j < i ==> is_ascii_space(#[trigger] s@[j]),
        decreases s@.len() - i,
    {
        let c = s[i];
        if !(c == ' ' || c == '\t' || c == '\n' || c == '\x0C' || c == '\r') {
            assert(!is_ascii_space(s@[i as int]));
            return false;
        }
        i = i + 1;
    }
    true
}

/// Whether a compiled rule is accepted by the regular expression engine on its
/// own; a rule that is not never matches.
pub open spec fn rule_builds(r: Seq<char>) -> bool {
    regex_builds(r, false)
}

/// The regular expressions of the ignore rules among `lines`, in order: each
/// cleaned line that is not blank, does not start with `!`, compiles, and is
/// accepted by the engine.
pub open spec fn ignore_rules(lines: Seq<Seq<char>>) -> Seq<Seq<char>>
    decreases lines.len(),
{
    if lines.len() == 0 {
        Seq::empty()
    } else {
        let prev = ignore_rules(lines.drop_last());
        let c = cleaned(lines.last());
        if is_blank(c) || c[0] == '!' {
            prev
        } else {
            match pattern_regex(c) {
                Some(r) => if rule_builds(r) {
                    prev.push(r)
                } else {
                    prev
                },
                None => prev,
            }
        }
    }
}

/// The regular expressions of the exclude rules among `lines`, in order: each
/// cleaned line that is not blank, starts with `!`, and whose remainder compiles and is
/// accepted by the engine.
pub open spec fn exclude_rules(lines: Seq<Seq<char>>) -> Seq<Seq<char>>
    decreases lines.len(),
{
    if lines.len() == 0 {
        Seq::empty()
    } else {
        let prev = exclude_rules(lines.drop_last());
        let c = cleaned(lines.last());
        if !is_blank(c) && c[0] == '!' {
            match pattern_regex(c.drop_first()) {
                Some(r) => if rule_builds(r) {
                    prev.push(r)
                } else {
                    prev
                },
                None => prev,
            }
        } else {
            prev
        }
    }
}

/// Why a rule set could not be made.
#[derive(Debug, Clone, Copy, PartialEq, Eq, Structural)]
pub enum IgnoreError {
    /// The path of the ignore file has no file name.
    MissingFileName,
}

/// What a rule set is: the directory it is rooted at, and the regular
/// expressions of its ignore and exclude rules.
pub ghost struct IgnoreRules {
    pub root: Seq<char>,
    pub ignore: Seq<Seq<char>>,
    pub exclude: Seq<Seq<char>>,
}

/// `s` without its leading separators.
pub open spec fn drop_leading_seps(s: Seq<char>) -> Seq<char>
    decreases s.len(),
{
    if s.len() > 0 && s[0] == '/' {
        drop_leading_seps(s.drop_first())
    } else {
        s
    }
}

/// `s` relative to the directory `d`, where `d` is a whole-component prefix of
/// `s`; otherwise `s` unchanged. An empty `d` is a prefix of every path.
pub open spec fn strip_dir_prefix(s: Seq<char>, d: Seq<char>) -> Seq<char> {
    if d.len() == 0 {
        s
    } else if s.len() >= d.len() && s.take(d.len() as int) == d && (s.len() == d.len()
        || s[d.len() as int] == '/') {
        drop_leading_seps(s.skip(d.len() as int))
    } else {
        s
    }
}

/// A path relative to a rule set's root, where neither the path nor the root
/// counts a leading `./`.
pub open spec fn relative_path(root: Seq<char>, path: Seq<char>) -> Seq<char> {
    strip_dir_prefix(strip_dir_prefix(path, seq!['.']), strip_dir_prefix(root, seq!['.']))
}

/// The text that rules are tested against: the relative path, with a separator
/// appended for a directory.
pub open spec fn rule_subject(root: Seq<char>, path: Seq<char>, is_dir: bool) -> Seq<char> {
    let rel = relative_path(root, path);
    if is_dir {
        rel.push('/')
    } else {
        rel
    }
}

/// Whether one of the compiled rules `rules` matches somewhere in `subject`.
pub open spec fn any_rule_matches(rules: Seq<Seq<char>>, subject: Seq<char>) -> bool {
    exists|i: int| 0 <= i < rules.len() && #[trigger] search_matches(rules[i], false, subject)
}

/// The rule set of an ignore file in directory `root` whose text is `text`.
pub open spec fn rules_of(root: Seq<char>, text: Seq<char>) -> IgnoreRules {
    IgnoreRules {
        root,
        ignore: ignore_rules(lines_of(text)),
        exclude: exclude_rules(lines_of(text)),
    }
}

/// Whether a rule set ignores a path: a `.git` directory at its root always;
/// otherwise where an ignore rule matches and no exclude rule does.
pub open spec fn rules_ignore(g: IgnoreRules, path: Seq<char>, is_dir: bool) -> bool {
    if is_dir && relative_path(g.root, path) == seq!['.', 'g', 'i', 't'] {
        true
    } else {
        let subject = rule_subject(g.root, path, is_dir);
        !any_rule_matches(g.exclude, subject) && any_rule_matches(g.ignore, subject)
    }
}

fn drop_leading_seps_exec(s: Vec<char>) -> (r: Vec<char>)
    ensures
        r@ == drop_leading_seps(s@),
{
    let mut k: usize = 0;
    assert(s@.skip(0) =~= s@);
    while k < s.len() && s[k] == '/'
        invariant
            k <= s@.len(),
            drop_leading_seps(s@) == drop_leading_seps(s@.skip(k as int)),
        decreases s@.len() - k,
    {
        assert(s@.skip(k as int).drop_first() =~= s@.skip(k + 1));
        k = k + 1;
    }
    let mut r: Vec<char> = Vec::new();
    let mut i: usize = k;
    while i < s.len()
        invariant
            k <= i <= s@.len(),
            r@ == s@.subrange(k as int, i as int),
        decreases s@.len() - i,
    {
        r.push(s[i]);
        i = i + 1;
        assert(r@ =~= s@.subrange(k as int, i as int));
    }
    assert(r@ =~= s@.skip(k as int));
    r
}

fn strip_dir_prefix_exec(s: Vec<char>, d: &Vec<char>) -> (r: Vec<char>)
    ensures
        r@ == strip_dir_prefix(s@, d@),
{
    if d.len() == 0 || s.len() < d.len() {
        return s;
    }
    let mut i: usize = 0;
    while i < d.len()
        invariant
            d@.len() <= s@.len(),
            i <= d@.len(),
            forall|j: int| 0 <= j < i ==> s@[j] == d@[j],
        decreases d@.len() - i,
    {
        if s[i] != d[i] {
            proof {
                assert(s@.take(d@.len() as int)[i as int] != d@[i as int]);
            }
            return s;
        }
        i = i + 1;
    }
    assert(s@.take(d@.len() as int) =~= d@);
    if s.len() == d.len() || s[d.len()] == '/' {
        let mut rest: Vec<char> = Vec::new();
        let mut j: usize = d.len();
        while j < s.len()
            invariant
                d@.len() <= j <= s@.len(),
                rest@ == s@.subrange(d@.len() as int, j as int),
            decreases s@.len() - j,
        {
            rest.push(s[j]);
            j = j + 1;
            assert(rest@ =~= s@.subrange(d@.len() as int, j as int));
        }
        assert(rest@ =~= s@.skip(d@.len() as int));
        drop_leading_seps_exec(rest)
    } else {
        s
    }
}

/// The sources of compiled rules.
pub open spec fn rule_sources(rules: Seq<SearchRegex>) -> Seq<Seq<char>> {
    rules.map_values(|r: SearchRegex| r.pattern())
}

/// Every rule was compiled case-sensitively.
pub open spec fn case_sensitive(rules: Seq<SearchRegex>) -> bool {
    forall|i: int| 0 <= i < rules.len() ==> !(#[trigger] rules[i]).case_insensitive()
}

/// Whether one of `rules` matches somewhere in `subject`.
fn any_rule_matches_exec(rules: &Vec<SearchRegex>, subject: &str) -> (r: bool)
    requires
        case_sensitive(rules@),
    ensures
        r == any_rule_matches(rule_sources(rules@), subject@),
{
    let mut i: usize = 0;
    while i < rules.len()
        invariant
            i <= rules@.len(),
            case_sensitive(rules@),
            forall|j: int| 0 <= j < i ==> !#[trigger] search_matches(rule_sources(rules@)[j], false, subject@),
        decreases rules@.len() - i,
    {
        if search_regex_is_match(&rules[i], subject) {
            assert(search_matches(rule_sources(rules@)[i as int], false, subject@));
            return true;
        }
        i = i + 1;
    }
    false
}

/// Compiles a rule on its own, for a rule set; `None` where the engine refuses it.
fn compile_rule(r: &String) -> (c: Option<SearchRegex>)
    ensures
        c is Some <==> rule_builds(r@),
        c is Some ==> c->0.pattern() == r@ && !c->0.case_insensitive(),
{
    match build_search_regex(r.as_str(), false) {
        Ok(re) => Some(re),
        Err(_) => None,
    }
}

/// The rules of one ignore file.
pub struct GitIgnore {
    root_path: String,
    ignore_patterns: Vec<SearchRegex>,
    exclude_patterns: Vec<SearchRegex>,
}

impl View for GitIgnore {
    type V = IgnoreRules;

    closed spec fn view(&self) -> IgnoreRules {
        IgnoreRules {
            root: self.root_path@,
            ignore: rule_sources(self.ignore_patterns@),
            exclude: rule_sources(self.exclude_patterns@),
        }
    }
}

impl GitIgnore {
    #[verifier::type_invariant]
    closed spec fn rules_are_case_sensitive(self) -> bool {
        case_sensitive(self.ignore_patterns@) && case_sensitive(self.exclude_patterns@)
    }

    /// A rule set that ignores nothing but `.git` directories.
    pub fn empty() -> (r: Self)
        ensures
            r@.root.len() == 0,
            r@.ignore.len() == 0,
            r@.exclude.len() == 0,
    {
        GitIgnore { root_path: String::new(), ignore_patterns: Vec::new(), exclude_patterns: Vec::new() }
    }

    /// The rule set of an ignore file whose directory is `ignore_path` and whose
    /// text is `content`. Every line is compiled on its own: a line that is
    /// blank, a comment, malformed, or refused by the regular expression
    /// engine adds no rule, and the rest of the file still loads.
    pub fn from(ignore_path: String, content: &str) -> (r: Self)
        ensures
            r@ == rules_of(ignore_path@, content@),
    {
        let lines = split_lines(content);
        let ghost ls = lines.deep_view();
        let mut ignore: Vec<SearchRegex> = Vec::new();
        let mut exclude: Vec<SearchRegex> = Vec::new();
        let mut i: usize = 0;
        while i < lines.len()
            invariant
                ls == lines.deep_view(),
                ls == lines_of(content@),
                i <= ls.len(),
                rule_sources(ignore@) == ignore_rules(ls.take(i as int)),
                rule_sources(exclude@) == exclude_rules(ls.take(i as int)),
                case_sensitive(ignore@),
                case_sensitive(exclude@),
            decreases ls.len() - i,
        {
            let pattern = clean_pattern(lines[i].clone());
            let mut chars = chars_of(pattern.as_str());
            proof {
                assert(ls.take(i + 1).drop_last() =~= ls.take(i as int));
                assert(ls.take(i + 1).last() == ls[i as int]);
            }
            if is_blank_exec(&chars) {
            } else if chars[0] == '!' {
                let ghost c = chars@;
                chars.remove(0);
                assert(chars@ =~= c.drop_first());
                let rest = string_of(chars.as_slice());
                match convert_pattern(rest.as_str()) {
                    Some(r) => match compile_rule(&r) {
                        Some(c) => {
                            let ghost prev = exclude@;
                            exclude.push(c);
                            assert(rule_sources(exclude@) =~= rule_sources(prev).push(r@));
                        },
                        None => {},
                    },
                    None => {},
                }
            } else {
                match convert_pattern(pattern.as_str()) {
                    Some(r) => match compile_rule(&r) {
                        Some(c) => {
                            let ghost prev = ignore@;
                            ignore.push(c);
                            assert(rule_sources(ignore@) =~= rule_sources(prev).push(r@));
                        },
                        None => {},
                    },
                    None => {},
                }
            }
            i = i + 1;
        }
        assert(ls.take(ls.len() as int) =~= ls);
        GitIgnore { root_path: ignore_path, ignore_patterns: ignore, exclude_patterns: exclude }
    }

    /// The rule set of the ignore file at `ignore_path`, whose text is
    /// `content`. Only files named `.gitignore` or `.ignore` hold rules; any
    /// other name gives the empty rule set. The rule set is rooted at the
    /// file's directory.
    pub fn new(ignore_path: &str, content: &str) -> (r: Result<Self, IgnoreError>)
        ensures
            file_name(ignore_path@).len() == 0 ==> r == Err::<Self, IgnoreError>(
                IgnoreError::MissingFileName,
            ),
            file_name(ignore_path@).len() > 0 && !is_ignore_file_name(file_name(ignore_path@))
                ==> r is Ok && r->Ok_0@.root.len() == 0 && r->Ok_0@.ignore.len() == 0
                && r->Ok_0@.exclude.len() == 0,
            is_ignore_file_name(file_name(ignore_path@)) ==> r is Ok && r->Ok_0@ == rules_of(
                parent_dir(ignore_path@),
                content@,
            ),
    {
        let p = chars_of(ignore_path);
        let n = p.len();
        let mut k: usize = n;
        while k > 0 && p[k - 1] != '/'
            invariant
                k <= p@.len(),
                last_sep_before(p@, p@.len() as int) == last_sep_before(p@, k as int),
            decreases k,
        {
            k = k - 1;
        }
        proof {
            lemma_last_sep_bounds(p@, n as int);
        }
        let mut name: Vec<char> = Vec::new();
        let mut i: usize = k;
        while i < n
            invariant
                k <= i <= n,
                n == p@.len(),
                name@ == p@.subrange(k as int, i as int),
            decreases n - i,
        {
            name.push(p[i]);
            i = i + 1;
            assert(name@ =~= p@.subrange(k as int, i as int));
        }
        proof {
            if k > 0 {
                assert(last_sep_before(p@, n as int) == k - 1);
            } else {
                assert(last_sep_before(p@, n as int) == -1);
            }
            assert(name@ =~= file_name(ignore_path@));
        }
        if name.len() == 0 {
            return Err(IgnoreError::MissingFileName);
        }
        if !is_ignore_file_name_exec(&name) {
            return Ok(Self::empty());
        }
        let mut parent = p;
        if k > 0 {
            parent.truncate(k - 1);
        } else {
            parent.truncate(0);
        }
        assert(parent@ =~= parent_dir(ignore_path@));
        Ok(Self::from(string_of(parent.as_slice()), content))
    }

    /// The rule sets of the directory `dir_path`, one for each of the texts
    /// `ignore_files` of the ignore files it holds, in order.
    pub fn from_dir(dir_path: &str, ignore_files: &Vec<String>) -> (r: Vec<Self>)
        ensures
            r@.len() == ignore_files@.len(),
            forall|i: int| 0 <= i < r@.len() ==> (#[trigger] r@[i])@ == rules_of(dir_path@, ignore_files@[i]@),
    {
        let mut r: Vec<Self> = Vec::new();
        let mut i: usize = 0;
        while i < ignore_files.len()
            invariant
                i <= ignore_files@.len(),
                r@.len() == i,
                forall|j: int| 0 <= j < i ==> (#[trigger] r@[j])@ == rules_of(dir_path@, ignore_files@[j]@),
            decreases ignore_files@.len() - i,
        {
            let root = string_of(chars_of(dir_path).as_slice());
            r.push(Self::from(root, ignore_files[i].as_str()));
            i = i + 1;
        }
        r
    }

    /// Whether this rule set ignores `path`; `is_dir` tells whether it names a
    /// directory.
    pub fn is_match(&self, path: &str, is_dir: bool) -> (r: bool)
        ensures
            r == rules_ignore(self@, path@, is_dir),
    {
        let dot: Vec<char> = vec!['.'];
        let root = strip_dir_prefix_exec(chars_of(self.root_path.as_str()), &dot);
        let rel = strip_dir_prefix_exec(strip_dir_prefix_exec(chars_of(path), &dot), &root);
        assert(dot@ =~= seq!['.']);
        if is_dir && rel.len() == 4 && rel[0] == '.' && rel[1] == 'g' && rel[2] == 'i' && rel[3]
            == 't' {
            assert(rel@ =~= seq!['.', 'g', 'i', 't']);
            return true;
        }
        let mut subject = rel;
        if is_dir {
            subject.push('/');
        }
        let text = string_of(subject.as_slice());
        proof {
            use_type_invariant(self);
        }
        if any_rule_matches_exec(&self.exclude_patterns, text.as_str()) {
            return false;
        }
        any_rule_matches_exec(&self.ignore_patterns, text.as_str())
    }
}

/// Whether one of the rule sets of `stack` ignores `path`.
pub open spec fn stack_ignores(stack: Seq<IgnoreRules>, path: Seq<char>, is_dir: bool) -> bool {
    exists|i: int| 0 <= i < stack.len() && #[trigger] rules_ignore(stack[i], path, is_dir)
}

/// The rule sets that apply at the current point of a walk, outermost first.
pub struct GitIgnoreStack {
    stack: Vec<GitIgnore>,
}

impl View for GitIgnoreStack {
    type V = Seq<IgnoreRules>;

    closed spec fn view(&self) -> Seq<IgnoreRules> {
        self.stack@.map_values(|g: GitIgnore| g@)
    }
}

impl GitIgnoreStack {
    pub fn new() -> (r: Self)
        ensures
            r@ == Seq::<IgnoreRules>::empty(),
    {
        let r = GitIgnoreStack { stack: Vec::new() };
        assert(r@ =~= Seq::<IgnoreRules>::empty());
        r
    }

    /// Adds the rule set of a directory that the walk enters.
    pub fn push(&mut self, gitignore: GitIgnore)
        ensures
            final(self)@ == old(self)@.push(gitignore@),
    {
        self.stack.push(gitignore);
        assert(self@ =~= old(self)@.push(gitignore@));
    }

    /// Removes the innermost rule set.
    pub fn pop(&mut self) -> (r: Option<GitIgnore>)
        ensures
            old(self)@.len() == 0 ==> r is None && final(self)@ == old(self)@,
            old(self)@.len() > 0 ==> r is Some && r->0@ == old(self)@.last() && final(self)@
                == old(self)@.drop_last(),
    {
        let r = self.stack.pop();
        proof {
            if old(self)@.len() > 0 {
                assert(self@ =~= old(self)@.drop_last());
            } else {
                assert(self@ =~= old(self)@);
            }
        }
        r
    }

    pub fn is_empty(&self) -> (r: bool)
        ensures
            r == (self@.len() == 0),
    {
        self.stack.len() == 0
    }

    /// The number of rule sets on the stack.
    pub fn len(&self) -> (r: usize)
        ensures
            r == self@.len(),
    {
        self.stack.len()
    }

    /// Whether any rule set of the stack ignores `path`; the innermost is asked first.
    pub fn is_match(&self, path: &str, is_dir: bool) -> (r: bool)
        ensures
            r == stack_ignores(self@, path@, is_dir),
    {
        let mut i: usize = self.stack.len();
        while i > 0
            invariant
                i <= self@.len(),
                self@.len() == self.stack@.len(),
                forall|j: int| i <= j < self@.len() ==> !#[trigger] rules_ignore(self@[j], path@, is_dir),
            decreases i,
        {
            i = i - 1;
            if self.stack[i].is_match(path, is_dir) {
                assert(rules_ignore(self@[i as int], path@, is_dir));
                return true;
            }
        }
        false
    }
}

/// The index of the last separator in `p`, or -1.
pub open spec fn last_sep_before(p: Seq<char>, n: int) -> int
    decreases n,
{
    if n <= 0 || n > p.len() {
        -1
    } else if p[n - 1] == '/' {
        n - 1
    } else {
        last_sep_before(p, n - 1)
    }
}

/// The last component of a path.
pub open spec fn file_name(p: Seq<char>) -> Seq<char> {
    p.skip(last_sep_before(p, p.len() as int) + 1)
}

/// A directory named `.git`, which a walk never enters.
pub open spec fn is_git_dir_path(p: Seq<char>) -> bool {
    file_name(p) == seq!['.', 'g', 'i', 't']
}

proof fn lemma_last_sep_bounds(p: Seq<char>, n: int)
    requires
        0 <= n <= p.len(),
    ensures
        -1 <= last_sep_before(p, n) < n,
        last_sep_before(p, n) >= 0 ==> p[last_sep_before(p, n)] == '/',
        forall|j: int| last_sep_before(p, n) < j < n ==> p[j] != '/',
    decreases n,
{
    if n > 0 && p[n - 1] != '/' {
        lemma_last_sep_bounds(p, n - 1);
    }
}

fn is_git_dir(path: &str) -> (r: bool)
    ensures
        r == is_git_dir_path(path@),
{
    let p = chars_of(path);
    let n = p.len();
    proof {
        lemma_last_sep_bounds(p@, n as int);
    }
    let r = n >= 4 && p[n - 4] == '.' && p[n - 3] == 'g' && p[n - 2] == 'i' && p[n - 1] == 't' && (
    n == 4 || p[n - 5] == '/');
    proof {
        let l = last_sep_before(p@, n as int);
        if r {
            if n > 4 {
                assert(l == n - 5);
            } else {
                assert(l == -1);
            }
            assert(file_name(p@) =~= seq!['.', 'g', 'i', 't']);
        } else if file_name(p@) == seq!['.', 'g', 'i', 't'] {
            assert(file_name(p@).len() == 4);
            assert(p@[n - 4] == file_name(p@)[0]);
            assert(p@[n - 3] == file_name(p@)[1]);
            assert(p@[n - 2] == file_name(p@)[2]);
            assert(p@[n - 1] == file_name(p@)[3]);
        }
    }
    r
}

/// Where a walk stands between two entries: the rule sets it pushed with the
/// depth of their directories, the depth of a pruned directory whose subtree is
/// being passed over, and the files found so far.
pub ghost struct WalkState {
    pub frames: Seq<(int, IgnoreRules)>,
    pub skip: Option<int>,
    pub found: Seq<Seq<char>>,
}

pub open spec fn frame_rules(frames: Seq<(int, IgnoreRules)>) -> Seq<IgnoreRules> {
    frames.map_values(|f: (int, IgnoreRules)| f.1)
}

/// The frames that remain when the walk reaches an entry at depth `d`: those of
/// directories above it.
pub open spec fn pop_frames(frames: Seq<(int, IgnoreRules)>, d: int) -> Seq<(int, IgnoreRules)>
    decreases frames.len(),
{
    if frames.len() > 0 && frames.last().0 >= d {
        pop_frames(frames.drop_last(), d)
    } else {
        frames
    }
}

/// The frames that a directory entry at depth `d` pushes: one rule set for
/// each of its ignore files, in order.
pub open spec fn dir_frames(e: Entry, d: int) -> Seq<(int, IgnoreRules)> {
    e.ignore_files@.map_values(|c: String| (d, rules_of(e.path@, c@)))
}

/// What one entry does to the state of a walk whose outer rule sets are `base`.
pub open spec fn walk_step(base: Seq<IgnoreRules>, st: WalkState, e: Entry, max_depth: int) -> WalkState {
    let d = e.depth as int;
    let frames = pop_frames(st.frames, d);
    if st.skip is Some && d > st.skip->0 {
        WalkState { frames, skip: st.skip, found: st.found }
    } else if d > max_depth {
        WalkState { frames, skip: None, found: st.found }
    } else {
        let stack = base + frame_rules(frames);
        match e.kind {
            EntryKind::File => WalkState {
                frames,
                skip: None,
                found: if !stack_ignores(stack, e.path@, false) && sample_is_text(e.sample) {
                    st.found.push(e.path@)
                } else {
                    st.found
                },
            },
            EntryKind::Dir => if is_git_dir_path(e.path@) || stack_ignores(stack, e.path@, true) {
                WalkState { frames, skip: Some(d), found: st.found }
            } else {
                WalkState { frames: frames + dir_frames(e, d), skip: None, found: st.found }
            },
            _ => WalkState { frames, skip: Some(d), found: st.found },
        }
    }
}

/// The state of a walk after the first `n` entries.
pub open spec fn walk_upto(base: Seq<IgnoreRules>, entries: Seq<Entry>, max_depth: int, n: int) -> WalkState
    decreases n,
{
    if n <= 0 || n > entries.len() {
        WalkState { frames: Seq::empty(), skip: None, found: Seq::empty() }
    } else {
        walk_step(base, walk_upto(base, entries, max_depth, n - 1), entries[n - 1], max_depth)
    }
}

/// The files that a walk over `entries` finds, below the rule sets `base`.
pub open spec fn walk_result(base: Seq<IgnoreRules>, entries: Seq<Entry>, max_depth: int) -> Seq<Seq<char>> {
    walk_upto(base, entries, max_depth, entries.len() as int).found
}

proof fn lemma_walk_upto_prefix(base: Seq<IgnoreRules>, a: Seq<Entry>, b: Seq<Entry>, max_depth: int, n: int)
    requires
        0 <= n <= a.len(),
        n <= b.len(),
        forall|i: int| 0 <= i < n ==> a[i] == b[i],
    ensures
        walk_upto(base, a, max_depth, n) == walk_upto(base, b, max_depth, n),
    decreases n,
{
    if n > 0 {
        lemma_walk_upto_prefix(base, a, b, max_depth, n - 1);
    }
}

/// A walk in progress, fed one entry at a time in depth-first order. It says
/// after each directory whether the walk descends into it, so that a caller
/// that lists the tree as it goes can leave out subtrees that are passed over.
pub struct WalkSession {
    stack: GitIgnoreStack,
    depths: Vec<u32>,
    skip: Option<u32>,
    found: Vec<String>,
    max_depth: u32,
    base: Ghost<Seq<IgnoreRules>>,
    seen: Ghost<Seq<Entry>>,
}

impl WalkSession {
    /// The rule sets in force above the root.
    pub closed spec fn base(&self) -> Seq<IgnoreRules> {
        self.base@
    }

    /// The entries fed so far.
    pub closed spec fn seen(&self) -> Seq<Entry> {
        self.seen@
    }

    pub closed spec fn max_depth(&self) -> u32 {
        self.max_depth
    }

    /// The session's state is the walk's state after the entries seen.
    pub closed spec fn wf(&self) -> bool {
        let st = walk_upto(self.base@, self.seen@, self.max_depth as int, self.seen@.len() as int);
        &&& self.stack@ == self.base@ + frame_rules(st.frames)
        &&& self.depths@.len() == st.frames.len()
        &&& forall|j: int| 0 <= j < self.depths@.len() ==> self.depths@[j] as int == #[trigger] st.frames[j].0
        &&& (match self.skip { Some(s) => st.skip == Some(s as int), None => st.skip is None })
        &&& self.found.deep_view() == st.found
    }

    /// Starts a walk below the rule sets on `stack`.
    pub fn new(stack: GitIgnoreStack, max_depth: u32) -> (r: Self)
        ensures
            r.wf(),
            r.base() == stack@,
            r.seen() == Seq::<Entry>::empty(),
            r.max_depth() == max_depth,
    {
        let ghost base = stack@;
        let r = WalkSession {
            stack,
            depths: Vec::new(),
            skip: None,
            found: Vec::new(),
            max_depth,
            base: Ghost(base),
            seen: Ghost(Seq::empty()),
        };
        assert(r.stack@ =~= base + frame_rules(Seq::empty()));
        assert(r.found.deep_view() =~= Seq::<Seq<char>>::empty());
        r
    }

    /// Feeds the next entry. Returns whether the walk descends into it: it is
    /// a directory within the depth limit that the walk enters. Where it does
    /// not, none of the entries below it can be reported.
    pub fn step(&mut self, e: &Entry) -> (descend: bool)
        requires
            old(self).wf(),
        ensures
            final(self).wf(),
            final(self).base() == old(self).base(),
            final(self).max_depth() == old(self).max_depth(),
            final(self).seen() == old(self).seen().push(*e),
            descend == (e.kind == EntryKind::Dir && e.depth < old(self).max_depth() && walk_upto(
                final(self).base(),
                final(self).seen(),
                final(self).max_depth() as int,
                final(self).seen().len() as int,
            ).skip is None),
    {
        let ghost base = self.base@;
        let ghost max = self.max_depth as int;
        let ghost old_seen = self.seen@;
        let ghost st = walk_upto(base, old_seen, max, old_seen.len() as int);
        let d = e.depth;
        let ghost mut frames = st.frames;
        while self.depths.len() > 0 && self.depths[self.depths.len() - 1] >= d
            invariant
                pop_frames(st.frames, d as int) == pop_frames(frames, d as int),
                self.stack@ == base + frame_rules(frames),
                self.depths@.len() == frames.len(),
                forall|j: int| 0 <= j < self.depths@.len() ==> self.depths@[j] as int == #[trigger] frames[j].0,
                self.base@ == base,
                self.seen@ == old_seen,
                self.max_depth == old(self).max_depth,
                self.skip == old(self).skip,
                self.found == old(self).found,
            decreases self.depths@.len(),
        {
            self.depths.pop();
            let _ = self.stack.pop();
            proof {
                assert(frame_rules(frames.drop_last()) =~= frame_rules(frames).drop_last());
                assert(base + frame_rules(frames.drop_last()) =~= (base + frame_rules(frames)).drop_last());
                frames = frames.drop_last();
            }
        }
        assert(pop_frames(frames, d as int) == frames);
        let ghost popped = frames;
        let skipped = match self.skip {
            Some(s) => d > s,
            None => false,
        };
        if skipped {
        } else if d > self.max_depth {
            self.skip = None;
        } else {
            self.skip = None;
            match e.kind {
                EntryKind::File => {
                    if !self.stack.is_match(e.path.as_str(), false) && entry_is_text(&e.sample) {
                        let ghost prev = self.found.deep_view();
                        self.found.push(e.path.clone());
                        assert(self.found.deep_view() =~= prev.push(e.path@));
                    }
                },
                EntryKind::Dir => {
                    if is_git_dir(e.path.as_str()) || self.stack.is_match(e.path.as_str(), true) {
                        self.skip = Some(d);
                    } else {
                        let ghost added = dir_frames(*e, d as int);
                        let mut k: usize = 0;
                        while k < e.ignore_files.len()
                            invariant
                                k <= e.ignore_files@.len(),
                                added == dir_frames(*e, d as int),
                                self.stack@ == base + frame_rules(popped + added.take(k as int)),
                                self.depths@.len() == popped.len() + k,
                                forall|j: int| 0 <= j < self.depths@.len() ==> self.depths@[j] as int == #[trigger] (popped + added.take(k as int))[j].0,
                                self.base@ == base,
                                self.seen@ == old_seen,
                                self.max_depth == old(self).max_depth,
                                self.skip is None,
                                self.found == old(self).found,
                            decreases e.ignore_files@.len() - k,
                        {
                            let g = GitIgnore::from(e.path.clone(), e.ignore_files[k].as_str());
                            let ghost gv = g@;
                            self.stack.push(g);
                            self.depths.push(d);
                            proof {
                                let before = popped + added.take(k as int);
                                let after = popped + added.take(k + 1);
                                assert(after =~= before.push((d as int, gv)));
                                assert(frame_rules(after) =~= frame_rules(before).push(gv));
                                assert(base + frame_rules(after) =~= (base + frame_rules(before)).push(gv));
                            }
                            k = k + 1;
                        }
                        assert(added.take(added.len() as int) =~= added);
                    }
                },
                _ => {
                    self.skip = Some(d);
                },
            }
        }
        proof {
            let new_seen = old_seen.push(*e);
            lemma_walk_upto_prefix(base, old_seen, new_seen, max, old_seen.len() as int);
            self.seen = Ghost(new_seen);
        }
        e.kind == EntryKind::Dir && d < self.max_depth && self.skip.is_none()
    }

    /// Ends the walk: the files found, and the stack as it was given.
    pub fn finish(self) -> (r: (Vec<String>, GitIgnoreStack))
        requires
            self.wf(),
        ensures
            r.0.deep_view() == walk_result(self.base(), self.seen(), self.max_depth() as int),
            r.1@ == self.base(),
    {
        let ghost base = self.base@;
        let WalkSession { mut stack, mut depths, skip: _, found, max_depth: _, base: _, seen: _ } = self;
        while depths.len() > 0
            invariant
                stack@.len() >= base.len(),
                stack@.take(base.len() as int) == base,
                depths@.len() == stack@.len() - base.len(),
            decreases depths@.len(),
        {
            depths.pop();
            let _ = stack.pop();
        }
        assert(stack@ =~= base);
        (found, stack)
    }
}

/// Walks `entries` depth first below the rule sets on `stack`: it pushes the
/// rule sets of each directory it enters and pops them when it leaves, prunes
/// ignored directories and `.git` directories, passes over links and special
/// files, descends no deeper than `max_depth` levels below the root, and
/// collects the text files that no rule set ignores. The stack is left as it
/// was found.
pub fn walk_with(stack: &mut GitIgnoreStack, entries: &Vec<Entry>, max_depth: u32) -> (r: Vec<String>)
    ensures
        final(stack)@ == old(stack)@,
        r.deep_view() == walk_result(old(stack)@, entries@, max_depth as int),
{
    let ghost base = old(stack)@;
    let mut taken = GitIgnoreStack::new();
    core::mem::swap(stack, &mut taken);
    let mut session = WalkSession::new(taken, max_depth);
    let mut i: usize = 0;
    while i < entries.len()
        invariant
            i <= entries@.len(),
            session.wf(),
            session.base() == base,
            session.max_depth() == max_depth,
            session.seen() == entries@.take(i as int),
        decreases entries@.len() - i,
    {
        let _ = session.step(&entries[i]);
        i = i + 1;
        assert(session.seen() =~= entries@.take(i as int));
    }
    let (found, back) = session.finish();
    assert(entries@.take(entries@.len() as int) =~= entries@);
    *stack = back;
    found
}

/// Walks the snapshot `entries` of a tree, with no rule set above its root:
/// see `walk_with`.
pub fn walk(entries: &Vec<Entry>, max_depth: u32) -> (r: Vec<String>)
    ensures
        r.deep_view() == walk_result(Seq::empty(), entries@, max_depth as int),
{
    let mut stack = GitIgnoreStack::new();
    let r = walk_with(&mut stack, entries, max_depth);
    r
}

/// Entry `j` is an ancestor of entry `i` in a depth-first listing: it comes
/// first, it is shallower, and every entry between them is deeper than it.
pub open spec fn is_ancestor(entries: Seq<Entry>, j: int, i: int) -> bool {
    &&& 0 <= j < i < entries.len()
    &&& entries[j].depth < entries[i].depth
    &&& forall|k: int| j < k < i ==> (#[trigger] entries[k]).depth > entries[j].depth
}

/// Whether the walk reports the file of entry `i`.
pub open spec fn walk_finds(base: Seq<IgnoreRules>, entries: Seq<Entry>, max_depth: int, i: int) -> bool {
    walk_upto(base, entries, max_depth, i + 1).found != walk_upto(base, entries, max_depth, i).found
}

/// After a `.git` directory at depth `d`, the walk is passing over a subtree
/// no shallower than `d`, or `d` is beyond the depth limit.
pub open spec fn pruned_below(st: WalkState, d: int, max_depth: int) -> bool {
    (st.skip is Some && st.skip->0 <= d) || d > max_depth
}

/// The rule sets in force when the walk reaches entry `i`: the outer ones,
/// then those of the directories above it that the walk entered.
pub open spec fn rules_in_force(base: Seq<IgnoreRules>, entries: Seq<Entry>, max_depth: int, i: int) -> Seq<IgnoreRules> {
    base + frame_rules(pop_frames(walk_upto(base, entries, max_depth, i).frames, entries[i].depth as int))
}

/// The walk passes over entry `i` with its subtree: it lies in a subtree
/// already passed over, or below the depth limit.
pub open spec fn walk_passes_over(base: Seq<IgnoreRules>, entries: Seq<Entry>, max_depth: int, i: int) -> bool {
    let st = walk_upto(base, entries, max_depth, i);
    (st.skip is Some && entries[i].depth > st.skip->0) || entries[i].depth > max_depth
}

/// The walk prunes entry `j` with whatever lies below it: it is a link or a
/// special file, or a directory that is a `.git` directory or is ignored by
/// the rule sets in force there.
pub open spec fn walk_prunes(base: Seq<IgnoreRules>, entries: Seq<Entry>, max_depth: int, j: int) -> bool {
    ||| entries[j].kind == EntryKind::Symlink
    ||| entries[j].kind == EntryKind::Other
    ||| entries[j].kind == EntryKind::Dir && (is_git_dir_path(entries[j].path@) || stack_ignores(
        rules_in_force(base, entries, max_depth, j),
        entries[j].path@,
        true,
    ))
}

proof fn lemma_pruned_after(base: Seq<IgnoreRules>, entries: Seq<Entry>, max_depth: int, j: int, k: int)
    requires
        0 <= j < k <= entries.len(),
        walk_passes_over(base, entries, max_depth, j) || walk_prunes(base, entries, max_depth, j),
        forall|m: int| j < m < k ==> (#[trigger] entries[m]).depth > entries[j].depth,
    ensures
        pruned_below(walk_upto(base, entries, max_depth, k), entries[j].depth as int, max_depth),
    decreases k - j,
{
    if k > j + 1 {
        lemma_pruned_after(base, entries, max_depth, j, k - 1);
        assert(entries[k - 1].depth > entries[j].depth);
    }
}

/// A directory that the walk prunes is pruned with its whole subtree: the
/// walk reports no file below it.
pub proof fn lemma_pruned_dir_hides_subtree(
    base: Seq<IgnoreRules>,
    entries: Seq<Entry>,
    max_depth: int,
    j: int,
    i: int,
)
    requires
        is_ancestor(entries, j, i),
        walk_prunes(base, entries, max_depth, j),
    ensures
        !walk_finds(base, entries, max_depth, i),
{
    lemma_pruned_after(base, entries, max_depth, j, i);
}

/// The walk reports the file of entry `i` only where: the entry is a file
/// within the depth limit, its sample is text, no rule set in force there
/// ignores it, and no entry above it is pruned: a link, a special file, a
/// `.git` directory, or a directory ignored by the rule sets in force there.
pub proof fn lemma_walk_reports_only(
    base: Seq<IgnoreRules>,
    entries: Seq<Entry>,
    max_depth: int,
    i: int,
)
    requires
        0 <= i < entries.len(),
        walk_finds(base, entries, max_depth, i),
    ensures
        entries[i].kind == EntryKind::File,
        entries[i].depth <= max_depth,
        sample_is_text(entries[i].sample),
        !stack_ignores(rules_in_force(base, entries, max_depth, i), entries[i].path@, false),
        forall|j: int| #[trigger] is_ancestor(entries, j, i) ==> !walk_prunes(base, entries, max_depth, j),
{
    assert forall|j: int| #[trigger] is_ancestor(entries, j, i) implies !walk_prunes(base, entries, max_depth, j) by {
        if walk_prunes(base, entries, max_depth, j) {
            lemma_pruned_dir_hides_subtree(base, entries, max_depth, j, i);
        }
    }
}

/// A directory named `.git` is pruned with its whole subtree: the walk reports
/// no file below it, whatever rules are in force.
pub proof fn lemma_git_dir_pruned(
    base: Seq<IgnoreRules>,
    entries: Seq<Entry>,
    max_depth: int,
    j: int,
    i: int,
)
    requires
        is_ancestor(entries, j, i),
        entries[j].kind == EntryKind::Dir,
        is_git_dir_path(entries[j].path@),
    ensures
        !walk_finds(base, entries, max_depth, i),
{
    lemma_pruned_after(base, entries, max_depth, j, i);
}

/// The walk is deterministic: two walks over the same snapshot with the same
/// rules and depth limit report the same files, in the same order.
pub proof fn lemma_walk_deterministic(
    entries: Seq<Entry>,
    max_depth: u32,
    first: Seq<Seq<char>>,
    second: Seq<Seq<char>>,
)
    requires
        first == walk_result(Seq::empty(), entries, max_depth as int),
        second == walk_result(Seq::empty(), entries, max_depth as int),
    ensures
        first == second,
{
}

/// A rule that ends in an odd number of backslashes (an incomplete escape)
/// compiles to nothing: it never matches.
pub proof fn lemma_trailing_escape_never_compiles(pattern: Seq<char>)
    requires
        escaped_at(pattern, pattern.len() as int),
    ensures
        pattern_regex(pattern) is None,
{
    let parts = split_parts(pattern, DIR_SEP);
    lemma_parts_nonempty(pattern, DIR_SEP, 0);
    lemma_last_part(pattern, DIR_SEP, 0);
    let st = choose|st: int|
        0 <= st <= pattern.len() && !escaped_at(pattern, st) && parts.last() == pattern.subrange(
            st,
            pattern.len() as int,
        );
    let last = parts.last();
    lemma_escape_local(pattern, st, pattern.len() as int, pattern.len() as int);
    assert(escaped_at(last, last.len() as int));
    assert(last.len() > 0);
    assert(last[last.len() - 1] == '\\');
    assert(!is_double_star(last));
    assert(part_regex(last) is None);
    let n = parts.len() as int;
    assert(part_piece(parts, n - 1) is None);
    assert(pieces_upto(parts, n) is None);
}

/// A rule line that ends in an odd number of backslashes, and holds no comment
/// and no line break, gives a rule set that ignores no path (but a `.git`
/// directory at its root, which every rule set ignores).
pub proof fn lemma_trailing_escape_ignores_nothing(
    line: Seq<char>,
    root: Seq<char>,
    path: Seq<char>,
    is_dir: bool,
)
    requires
        escaped_at(line, line.len() as int),
        !line.contains('\n'),
        forall|k: int| !#[trigger] unescaped_at(line, '#', k),
    ensures
        ignore_rules(lines_of(line)) == Seq::<Seq<char>>::empty(),
        exclude_rules(lines_of(line)) == Seq::<Seq<char>>::empty(),
        rules_ignore(
            IgnoreRules {
                root,
                ignore: ignore_rules(lines_of(line)),
                exclude: exclude_rules(lines_of(line)),
            },
            path,
            is_dir,
        ) ==> is_dir && relative_path(root, path) == seq!['.', 'g', 'i', 't'],
{
    assert(line.len() > 0);
    assert(line[line.len() - 1] == '\\');
    lemma_no_line_feed(line, 0);
    assert(lines_of(line) == seq![line]) by {
        assert(crate::lines::line_end(line, 0) == line.len());
        assert(line.subrange(0, line.len() as int) =~= line);
    }
    assert(!exists|k: int| first_unescaped(line, '#', k));
    assert(without_comment(line) == line);
    assert(trimmed_len(line, line.len() as int) == line.len());
    assert(line.take(line.len() as int) =~= line);
    assert(cleaned(line) == line);
    lemma_trailing_escape_never_compiles(line);
    if line[0] == '!' {
        let rest = line.drop_first();
        assert(!escaped_at(line, 1));
        lemma_escape_local(line, 1, line.len() as int, line.len() as int);
        assert(line.subrange(1, line.len() as int) =~= rest);
        lemma_trailing_escape_never_compiles(rest);
    }
    let ls = lines_of(line);
    assert(ls.last() == line);
    assert(ls.drop_last() =~= Seq::<Seq<char>>::empty());
    assert(ignore_rules(ls.drop_last()) == Seq::<Seq<char>>::empty());
    assert(exclude_rules(ls.drop_last()) == Seq::<Seq<char>>::empty());
    assert(ignore_rules(ls) == Seq::<Seq<char>>::empty());
    assert(exclude_rules(ls) == Seq::<Seq<char>>::empty());
}

proof fn lemma_no_line_feed(line: Seq<char>, i: int)
    requires
        0 <= i <= line.len(),
        !line.contains('\n'),
    ensures
        crate::lines::line_end(line, i) == line.len(),
    decreases line.len() - i,
{
    if i < line.len() {
        assert(line[i] != '\n');
        lemma_no_line_feed(line, i + 1);
    }
}

/// The names of the files that hold ignore rules.
pub open spec fn is_ignore_file_name(name: Seq<char>) -> bool {
    name == seq!['.', 'g', 'i', 't', 'i', 'g', 'n', 'o', 'r', 'e'] || name == seq![
        '.',
        'i',
        'g',
        'n',
        'o',
        'r',
        'e',
    ]
}

/// The directory part of a path: everything before its last separator.
pub open spec fn parent_dir(p: Seq<char>) -> Seq<char> {
    let l = last_sep_before(p, p.len() as int);
    if l < 0 {
        Seq::empty()
    } else {
        p.take(l)
    }
}

fn is_ignore_file_name_exec(name: &Vec<char>) -> (r: bool)
    ensures
        r == is_ignore_file_name(name@),
{
    let git: Vec<char> = vec!['.', 'g', 'i', 't', 'i', 'g', 'n', 'o', 'r', 'e'];
    let plain: Vec<char> = vec!['.', 'i', 'g', 'n', 'o', 'r', 'e'];
    assert(git@ =~= seq!['.', 'g', 'i', 't', 'i', 'g', 'n', 'o', 'r', 'e']);
    assert(plain@ =~= seq!['.', 'i', 'g', 'n', 'o', 'r', 'e']);
    chars_equal(name, &git) || chars_equal(name, &plain)
}

fn chars_equal(a: &Vec<char>, b: &Vec<char>) -> (r: bool)
    ensures
        r == (a@ == b@),
{
    if a.len() != b.len() {
        return false;
    }
    let mut k: usize = 0;
    while k < a.len()
        invariant
            k <= a@.len(),
            a@.len() == b@.len(),
            forall|m: int| 0 <= m < k ==> a@[m] == b@[m],
        decreases a@.len() - k,
    {
        if a[k] != b[k] {
            return false;
        }
        k = k + 1;
    }
    assert(a@ =~= b@);
    true
}

/// Every path that a walk reports is the path of a listed file whose sample
/// is text.
pub proof fn lemma_walk_finds_text_files(
    base: Seq<IgnoreRules>,
    entries: Seq<Entry>,
    max_depth: int,
    n: int,
)
    requires
        0 <= n <= entries.len(),
    ensures
        forall|k: int|
            0 <= k < walk_upto(base, entries, max_depth, n).found.len() ==> exists|i: int|
                0 <= i < n && entries[i].kind == EntryKind::File && sample_is_text(entries[i].sample)
                    && #[trigger] walk_upto(base, entries, max_depth, n).found[k] == entries[i].path@,
    decreases n,
{
    if n > 0 {
        lemma_walk_finds_text_files(base, entries, max_depth, n - 1);
        let prev = walk_upto(base, entries, max_depth, n - 1).found;
        let cur = walk_upto(base, entries, max_depth, n).found;
        assert forall|k: int| 0 <= k < cur.len() implies exists|i: int|
            0 <= i < n && entries[i].kind == EntryKind::File && sample_is_text(entries[i].sample)
                && #[trigger] cur[k] == entries[i].path@ by {
            if cur != prev {
                assert(cur == prev.push(entries[n - 1].path@));
                if k == prev.len() {
                    assert(entries[n - 1].kind == EntryKind::File);
                } else {
                    assert(cur[k] == prev[k]);
                }
            } else {
                assert(cur[k] == prev[k]);
            }
        }
    }
}

/// A rule line that, once cleaned, ends in an odd number of backslashes.
pub open spec fn ends_in_incomplete_escape(line: Seq<char>) -> bool {
    escaped_at(cleaned(line), cleaned(line).len() as int)
}

/// `lines` without those that end in an incomplete escape.
pub open spec fn without_broken_lines(lines: Seq<Seq<char>>) -> Seq<Seq<char>>
    decreases lines.len(),
{
    if lines.len() == 0 {
        Seq::empty()
    } else {
        let prev = without_broken_lines(lines.drop_last());
        if ends_in_incomplete_escape(lines.last()) {
            prev
        } else {
            prev.push(lines.last())
        }
    }
}

proof fn lemma_broken_line_adds_nothing(lines: Seq<Seq<char>>, line: Seq<char>)
    requires
        ends_in_incomplete_escape(line),
    ensures
        ignore_rules(lines.push(line)) == ignore_rules(lines),
        exclude_rules(lines.push(line)) == exclude_rules(lines),
{
    let c = cleaned(line);
    let all = lines.push(line);
    assert(all.drop_last() =~= lines);
    assert(all.last() == line);
    assert(c.len() > 0);
    lemma_trailing_escape_never_compiles(c);
    if c[0] == '!' {
        assert(!escaped_at(c, 1));
        lemma_escape_local(c, 1, c.len() as int, c.len() as int);
        assert(c.subrange(1, c.len() as int) =~= c.drop_first());
        lemma_trailing_escape_never_compiles(c.drop_first());
    }
}

proof fn lemma_same_rules_after_push(a: Seq<Seq<char>>, b: Seq<Seq<char>>, line: Seq<char>)
    requires
        ignore_rules(a) == ignore_rules(b),
        exclude_rules(a) == exclude_rules(b),
    ensures
        ignore_rules(a.push(line)) == ignore_rules(b.push(line)),
        exclude_rules(a.push(line)) == exclude_rules(b.push(line)),
{
    assert(a.push(line).drop_last() =~= a);
    assert(b.push(line).drop_last() =~= b);
}

proof fn lemma_without_broken_lines(lines: Seq<Seq<char>>)
    ensures
        ignore_rules(without_broken_lines(lines)) == ignore_rules(lines),
        exclude_rules(without_broken_lines(lines)) == exclude_rules(lines),
    decreases lines.len(),
{
    if lines.len() > 0 {
        let init = lines.drop_last();
        let l = lines.last();
        lemma_without_broken_lines(init);
        assert(init.push(l) =~= lines);
        if ends_in_incomplete_escape(l) {
            lemma_broken_line_adds_nothing(init, l);
        } else {
            lemma_same_rules_after_push(without_broken_lines(init), init, l);
        }
    }
}

/// Lines that end in an odd number of backslashes never match and take
/// nothing from the rest of the file: the rule set of `text` is the rule set
/// of its other lines.
pub proof fn lemma_broken_lines_dropped(root: Seq<char>, text: Seq<char>)
    ensures
        rules_of(root, text) == (IgnoreRules {
            root,
            ignore: ignore_rules(without_broken_lines(lines_of(text))),
            exclude: exclude_rules(without_broken_lines(lines_of(text))),
        }),
{
    lemma_without_broken_lines(lines_of(text));
}

/// A subtree being passed over was opened by a directory the walk pruned, and
/// only deeper entries have come since.
proof fn lemma_skip_origin(base: Seq<IgnoreRules>, entries: Seq<Entry>, max_depth: int, n: int)
    requires
        0 <= n <= entries.len(),
    ensures
        walk_upto(base, entries, max_depth, n).skip is Some ==> exists|j: int|
            0 <= j < n && entries[j].depth as int == walk_upto(base, entries, max_depth, n).skip->0
                && #[trigger] walk_prunes(base, entries, max_depth, j) && forall|m: int|
                j < m < n ==> (#[trigger] entries[m]).depth > entries[j].depth,
    decreases n,
{
    if n > 0 {
        lemma_skip_origin(base, entries, max_depth, n - 1);
        let prev = walk_upto(base, entries, max_depth, n - 1);
        let cur = walk_upto(base, entries, max_depth, n);
        let e = entries[n - 1];
        if cur.skip is Some {
            if prev.skip is Some && e.depth > prev.skip->0 {
                let j = choose|j: int|
                    0 <= j < n - 1 && entries[j].depth as int == prev.skip->0 && #[trigger] walk_prunes(
                        base,
                        entries,
                        max_depth,
                        j,
                    ) && forall|m: int| j < m < n - 1 ==> (#[trigger] entries[m]).depth > entries[j].depth;
                assert forall|m: int| j < m < n implies (#[trigger] entries[m]).depth > entries[j].depth by {
                    if m == n - 1 {
                    }
                }
            } else {
                assert(walk_prunes(base, entries, max_depth, n - 1));
            }
        }
    }
}

/// The walk reports the file of entry `i` exactly where: the entry is a file
/// within the depth limit, its sample is text, no rule set in force there
/// ignores it, and no entry above it is pruned.
pub proof fn lemma_walk_reports_exactly(
    base: Seq<IgnoreRules>,
    entries: Seq<Entry>,
    max_depth: int,
    i: int,
)
    requires
        0 <= i < entries.len(),
    ensures
        walk_finds(base, entries, max_depth, i) <==> {
            &&& entries[i].kind == EntryKind::File
            &&& entries[i].depth <= max_depth
            &&& sample_is_text(entries[i].sample)
            &&& !stack_ignores(rules_in_force(base, entries, max_depth, i), entries[i].path@, false)
            &&& forall|j: int| #[trigger] is_ancestor(entries, j, i) ==> !walk_prunes(base, entries, max_depth, j)
        },
{
    if walk_finds(base, entries, max_depth, i) {
        lemma_walk_reports_only(base, entries, max_depth, i);
    } else if entries[i].kind == EntryKind::File && entries[i].depth <= max_depth && sample_is_text(
        entries[i].sample,
    ) && !stack_ignores(rules_in_force(base, entries, max_depth, i), entries[i].path@, false) {
        let st = walk_upto(base, entries, max_depth, i);
        lemma_skip_origin(base, entries, max_depth, i);
        if st.skip is Some && entries[i].depth > st.skip->0 {
            let j = choose|j: int|
                0 <= j < i && entries[j].depth as int == st.skip->0 && #[trigger] walk_prunes(
                    base,
                    entries,
                    max_depth,
                    j,
                ) && forall|m: int| j < m < i ==> (#[trigger] entries[m]).depth > entries[j].depth;
            assert(is_ancestor(entries, j, i));
        } else {
            let next = walk_upto(base, entries, max_depth, i + 1);
            assert(next.found == st.found.push(entries[i].path@));
            assert(next.found.len() != st.found.len());
        }
    }
}

proof fn lemma_pruned_from(base: Seq<IgnoreRules>, entries: Seq<Entry>, max_depth: int, j: int, k: int)
    requires
        0 <= j < k <= entries.len(),
        pruned_below(walk_upto(base, entries, max_depth, j + 1), entries[j].depth as int, max_depth),
        forall|m: int| j < m < k ==> (#[trigger] entries[m]).depth > entries[j].depth,
    ensures
        pruned_below(walk_upto(base, entries, max_depth, k), entries[j].depth as int, max_depth),
    decreases k - j,
{
    if k > j + 1 {
        lemma_pruned_from(base, entries, max_depth, j, k - 1);
        assert(entries[k - 1].depth > entries[j].depth);
    }
}

/// Where the walk does not descend into a directory (what `WalkSession::step`
/// answers), it reports no file below it: a caller may leave that subtree out.
pub proof fn lemma_no_descent_hides_subtree(
    base: Seq<IgnoreRules>,
    entries: Seq<Entry>,
    max_depth: int,
    j: int,
    i: int,
)
    requires
        is_ancestor(entries, j, i),
        entries[j].kind == EntryKind::Dir,
        !(entries[j].depth < max_depth && walk_upto(base, entries, max_depth, j + 1).skip is None),
    ensures
        !walk_finds(base, entries, max_depth, i),
{
    let after = walk_upto(base, entries, max_depth, j + 1);
    if after.skip is Some {
        assert(pruned_below(after, entries[j].depth as int, max_depth));
        lemma_pruned_from(base, entries, max_depth, j, i);
    } else {
        assert(entries[i].depth > max_depth);
        if walk_finds(base, entries, max_depth, i) {
            lemma_walk_reports_only(base, entries, max_depth, i);
        }
    }
}

} // verus!
