//! The search command's settings, and what follows from them.

use vstd::prelude::*;
use crate::matcher::MatchOptions;
use crate::text::string_of;

verus! {

/// The settings of one search.
pub struct GrepCommand {
    /// The search expression.
    pub pattern: String,
    /// Where to search; the current directory where absent.
    pub path: Option<String>,
    /// How many levels of directories below the root the walk descends.
    pub max_depth: u32,
    /// Report lines without their numbers.
    pub no_line_numbers: bool,
    /// Match without regard to case.
    pub ignore_case: bool,
}

impl GrepCommand {
    /// Where the search starts: the given path, or `.`.
    pub fn search_root(&self) -> (r: String)
        ensures
            r@ == match self.path {
                Some(p) => p@,
                None => seq!['.'],
            },
    {
        match &self.path {
            Some(p) => p.clone(),
            None => {
                let r = string_of(&['.']);
                r
            },
        }
    }

    /// How lines are matched and reported.
    pub fn match_options(&self) -> (r: MatchOptions)
        ensures
            r.show_line_numbers == !self.no_line_numbers,
            r.case_insensitive == self.ignore_case,
    {
        MatchOptions { show_line_numbers: !self.no_line_numbers, case_insensitive: self.ignore_case }
    }
}

} // verus!
