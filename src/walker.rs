//! A walk over several roots under one rule set, which visits each path once.

use vstd::prelude::*;
use crate::file::{CollectState, level_limit};
use crate::ignore::{GitIgnore, IgnoreRules, rules_ignore};
use crate::tree::{Entry, EntryKind, entry_is_text, sample_is_text};

verus! {

/// What one entry does to a walk under the rule set `g`. A path seen before is
/// passed over with its subtree, and so are links, ignored directories and
/// entries below the level limit.
pub open spec fn walker_step(g: IgnoreRules, st: CollectState, e: Entry, limit: int) -> CollectState {
    let d = e.depth as int;
    if (st.skip is Some && d > st.skip->0) || d > limit {
        st
    } else if st.seen.contains(e.path@) {
        CollectState { seen: st.seen, skip: Some(d), found: st.found }
    } else {
        let seen = st.seen.push(e.path@);
        match e.kind {
            EntryKind::File => CollectState {
                seen,
                skip: None,
                found: if !rules_ignore(g, e.path@, false) && sample_is_text(e.sample) {
                    st.found.push(e.path@)
                } else {
                    st.found
                },
            },
            EntryKind::Dir => if rules_ignore(g, e.path@, true) {
                CollectState { seen, skip: Some(d), found: st.found }
            } else {
                CollectState { seen, skip: None, found: st.found }
            },
            _ => CollectState { seen, skip: Some(d), found: st.found },
        }
    }
}

pub open spec fn walker_upto(g: IgnoreRules, st: CollectState, entries: Seq<Entry>, limit: int, n: int) -> CollectState
    decreases n,
{
    if n <= 0 || n > entries.len() {
        st
    } else {
        walker_step(g, walker_upto(g, st, entries, limit, n - 1), entries[n - 1], limit)
    }
}

pub open spec fn walker_trees(g: IgnoreRules, trees: Seq<Seq<Entry>>, limit: int, t: int) -> CollectState
    decreases t,
{
    if t <= 0 || t > trees.len() {
        CollectState { seen: Seq::empty(), skip: None, found: Seq::empty() }
    } else {
        let prev = walker_trees(g, trees, limit, t - 1);
        walker_upto(
            g,
            CollectState { seen: prev.seen, skip: None, found: prev.found },
            trees[t - 1],
            limit,
            trees[t - 1].len() as int,
        )
    }
}

/// Walks trees under one rule set.
pub struct Walker {
    gitignore: GitIgnore,
}

impl Walker {
    pub closed spec fn rules(&self) -> IgnoreRules {
        self.gitignore@
    }

    pub fn new(gitignore: GitIgnore) -> (r: Self)
        ensures
            r.rules() == gitignore@,
    {
        Walker { gitignore }
    }

    /// Collects the text files of `trees` (each a depth-first listing of one
    /// root, links not followed) that the rule set does not ignore, looking at
    /// most `max_depth` levels of directories below each root.
    pub fn collect_file_paths(self, trees: &Vec<Vec<Entry>>, max_depth: u32) -> (r: Vec<String>)
        ensures
            r.deep_view() == walker_trees(self.rules(), trees@.map_values(|t: Vec<Entry>| t@), level_limit(max_depth), trees@.len() as int).found,
    {
        let limit: u32 = max_depth.saturating_add(1);
        let ghost ts = trees@.map_values(|t: Vec<Entry>| t@);
        let ghost g = self.rules();
        let mut seen: Vec<String> = Vec::new();
        let mut found: Vec<String> = Vec::new();
        let mut t: usize = 0;
        while t < trees.len()
            invariant
                t <= trees@.len(),
                g == self.gitignore@,
                limit as int == level_limit(max_depth),
                ts == trees@.map_values(|t: Vec<Entry>| t@),
                ({
                    let st = walker_trees(g, ts, limit as int, t as int);
                    seen.deep_view() == st.seen && found.deep_view() == st.found
                }),
            decreases trees@.len() - t,
        {
            let entries = &trees[t];
            assert(ts[t as int] == entries@);
            let ghost start = CollectState { seen: seen.deep_view(), skip: None, found: found.deep_view() };
            let mut skip: Option<u32> = None;
            let mut i: usize = 0;
            while i < entries.len()
                invariant
                    i <= entries@.len(),
                    g == self.gitignore@,
                    ({
                        let st = walker_upto(g, start, entries@, limit as int, i as int);
                        &&& seen.deep_view() == st.seen
                        &&& found.deep_view() == st.found
                        &&& (match skip { Some(s) => st.skip == Some(s as int), None => st.skip is None })
                    }),
                decreases entries@.len() - i,
            {
                let e = &entries[i];
                let d = e.depth;
                let skipped = match skip {
                    Some(s) => d > s,
                    None => false,
                };
                if skipped || d > limit {
                } else if crate::file::contains_path(&seen, &e.path) {
                    skip = Some(d);
                } else {
                    let ghost prev = seen.deep_view();
                    seen.push(e.path.clone());
                    assert(seen.deep_view() =~= prev.push(e.path@));
                    skip = None;
                    match e.kind {
                        EntryKind::File => {
                            if !self.gitignore.is_match(e.path.as_str(), false) && entry_is_text(&e.sample) {
                                let ghost pf = found.deep_view();
                                found.push(e.path.clone());
                                assert(found.deep_view() =~= pf.push(e.path@));
                            }
                        },
                        EntryKind::Dir => {
                            if self.gitignore.is_match(e.path.as_str(), true) {
                                skip = Some(d);
                            }
                        },
                        _ => {
                            skip = Some(d);
                        },
                    }
                }
                i = i + 1;
            }
            t = t + 1;
        }
        found
    }
}

} // verus!
