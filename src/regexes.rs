//! The regular expression engine that ignore rules and line matching rely on.

use vstd::prelude::*;

verus! {

#[verifier::external_type_specification]
#[verifier::external_body]
pub struct ExRegex(regex::Regex);

#[verifier::external_type_specification]
#[verifier::external_body]
pub struct ExRegexError(regex::Error);

/// Whether `pattern` compiles to a single regular expression with the given
/// case sensitivity.
pub uninterp spec fn regex_builds(pattern: Seq<char>, case_insensitive: bool) -> bool;

/// Whether `pattern`, compiled with the given case sensitivity, matches
/// somewhere in `haystack`.
pub uninterp spec fn search_matches(
    pattern: Seq<char>,
    case_insensitive: bool,
    haystack: Seq<char>,
) -> bool;

/// A compiled search expression, together with its source and case sensitivity.
pub struct SearchRegex {
    regex: regex::Regex,
    pattern: String,
    case_insensitive: bool,
}

impl SearchRegex {
    pub closed spec fn pattern(&self) -> Seq<char> {
        self.pattern@
    }

    pub closed spec fn case_insensitive(&self) -> bool {
        self.case_insensitive
    }
}

/// Relies on `regex::RegexBuilder::build` (with `case_insensitive` set): it
/// fails where the pattern is invalid or too large, which depends on the
/// pattern and the flag alone.
#[verifier::external_body]
pub(crate) fn build_search_regex(pattern: &str, case_insensitive: bool) -> (r: Result<
    SearchRegex,
    regex::Error,
>)
    ensures
        r is Ok <==> regex_builds(pattern@, case_insensitive),
        r is Ok ==> r->Ok_0.pattern() == pattern@ && r->Ok_0.case_insensitive() == case_insensitive,
{
    match regex::RegexBuilder::new(pattern).case_insensitive(case_insensitive).build() {
        Ok(regex) => Ok(SearchRegex { regex, pattern: pattern.to_string(), case_insensitive }),
        Err(e) => Err(e),
    }
}

/// Relies on `regex::Regex::is_match`: true if and only if the expression
/// matches somewhere in the haystack.
#[verifier::external_body]
pub(crate) fn search_regex_is_match(re: &SearchRegex, haystack: &str) -> (r: bool)
    ensures
        r == search_matches(re.pattern(), re.case_insensitive(), haystack@),
{
    re.regex.is_match(haystack)
}

} // verus!
