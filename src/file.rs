//! Collecting the text files below several roots, without ignore rules.

use vstd::prelude::*;
use crate::tree::{Entry, EntryKind, entry_is_text, sample_is_text};

verus! {

/// Where a collection stands: the paths seen so far, the depth of a subtree
/// being passed over, and the files found.
pub ghost struct CollectState {
    pub seen: Seq<Seq<char>>,
    pub skip: Option<int>,
    pub found: Seq<Seq<char>>,
}

/// The number of levels below a root whose entries are looked at:
/// `max_depth + 1`, saturating.
pub open spec fn level_limit(max_depth: u32) -> int {
    if max_depth == u32::MAX {
        u32::MAX as int
    } else {
        max_depth + 1
    }
}

/// What one entry does to a collection. A path seen before is passed over with
/// its subtree; entries below the level limit are not looked at.
pub open spec fn collect_step(st: CollectState, e: Entry, limit: int) -> CollectState {
    let d = e.depth as int;
    if (st.skip is Some && d > st.skip->0) || d > limit {
        st
    } else if st.seen.contains(e.path@) {
        CollectState { seen: st.seen, skip: Some(d), found: st.found }
    } else {
        let seen = st.seen.push(e.path@);
        match e.kind {
            EntryKind::File => CollectState {
                seen,
                skip: None,
                found: if sample_is_text(e.sample) {
                    st.found.push(e.path@)
                } else {
                    st.found
                },
            },
            EntryKind::Dir => CollectState { seen, skip: None, found: st.found },
            _ => CollectState { seen, skip: Some(d), found: st.found },
        }
    }
}

/// The state after the first `n` entries of one tree, from state `st`.
pub open spec fn collect_upto(st: CollectState, entries: Seq<Entry>, limit: int, n: int) -> CollectState
    decreases n,
{
    if n <= 0 || n > entries.len() {
        st
    } else {
        collect_step(collect_upto(st, entries, limit, n - 1), entries[n - 1], limit)
    }
}

/// The state after the first `t` trees.
pub open spec fn collect_trees(trees: Seq<Seq<Entry>>, limit: int, t: int) -> CollectState
    decreases t,
{
    if t <= 0 || t > trees.len() {
        CollectState { seen: Seq::empty(), skip: None, found: Seq::empty() }
    } else {
        let prev = collect_trees(trees, limit, t - 1);
        collect_upto(
            CollectState { seen: prev.seen, skip: None, found: prev.found },
            trees[t - 1],
            limit,
            trees[t - 1].len() as int,
        )
    }
}

pub(crate) fn contains_path(seen: &Vec<String>, p: &String) -> (r: bool)
    ensures
        r == seen.deep_view().contains(p@),
{
    let mut i: usize = 0;
    while i < seen.len()
        invariant
            i <= seen@.len(),
            forall|j: int| 0 <= j < i ==> seen.deep_view()[j] != p@,
        decreases seen@.len() - i,
    {
        let a = crate::text::chars_of(seen[i].as_str());
        let b = crate::text::chars_of(p.as_str());
        if a.len() == b.len() {
            let mut k: usize = 0;
            while k < a.len() && a[k] == b[k]
                invariant
                    k <= a@.len(),
                    a@.len() == b@.len(),
                    forall|m: int| 0 <= m < k ==> a@[m] == b@[m],
                decreases a@.len() - k,
            {
                k = k + 1;
            }
            if k == a.len() {
                assert(a@ =~= b@);
                assert(seen.deep_view()[i as int] == p@);
                return true;
            }
        }
        i = i + 1;
    }
    false
}

/// Collects the text files of the trees `trees` (each a depth-first listing
/// of one root, with links followed), looking at most `max_depth` levels of
/// directories below each root; a path met twice is collected once, and its
/// subtree passed over the second time.
pub fn get_file_paths(trees: &Vec<Vec<Entry>>, max_depth: u32) -> (r: Vec<String>)
    ensures
        r.deep_view() == collect_trees(trees@.map_values(|t: Vec<Entry>| t@), level_limit(max_depth), trees@.len() as int).found,
{
    let limit: u32 = max_depth.saturating_add(1);
    let ghost ts = trees@.map_values(|t: Vec<Entry>| t@);
    let mut seen: Vec<String> = Vec::new();
    let mut found: Vec<String> = Vec::new();
    let mut t: usize = 0;
    while t < trees.len()
        invariant
            t <= trees@.len(),
            limit as int == level_limit(max_depth),
            ts == trees@.map_values(|t: Vec<Entry>| t@),
            ({
                let st = collect_trees(ts, limit as int, t as int);
                seen.deep_view() == st.seen && found.deep_view() == st.found
            }),
        decreases trees@.len() - t,
    {
        let entries = &trees[t];
        assert(ts[t as int] == entries@);
        let ghost start = CollectState { seen: seen.deep_view(), skip: None, found: found.deep_view() };
        let mut skip: Option<u32> = None;
        let mut i: usize = 0;
        while i < entries.len()
            invariant
                i <= entries@.len(),
                ({
                    let st = collect_upto(start, entries@, limit as int, i as int);
                    &&& seen.deep_view() == st.seen
                    &&& found.deep_view() == st.found
                    &&& (match skip { Some(s) => st.skip == Some(s as int), None => st.skip is None })
                }),
            decreases entries@.len() - i,
        {
            let e = &entries[i];
            let d = e.depth;
            let skipped = match skip {
                Some(s) => d > s,
                None => false,
            };
            if skipped || d > limit {
            } else if contains_path(&seen, &e.path) {
                skip = Some(d);
            } else {
                let ghost prev = seen.deep_view();
                seen.push(e.path.clone());
                assert(seen.deep_view() =~= prev.push(e.path@));
                skip = None;
                match e.kind {
                    EntryKind::File => {
                        if entry_is_text(&e.sample) {
                            let ghost pf = found.deep_view();
                            found.push(e.path.clone());
                            assert(found.deep_view() =~= pf.push(e.path@));
                        }
                    },
                    EntryKind::Dir => {},
                    _ => {
                        skip = Some(d);
                    },
                }
            }
            i = i + 1;
        }
        t = t + 1;
    }
    found
}

} // verus!
