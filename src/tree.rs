//! A snapshot of a file tree, listed depth first, as the walks consume it.

use vstd::prelude::*;
use vstd::utf8::valid_utf8;

verus! {

/// What an entry of the file system is, read without following symbolic links
/// (or following them, for walks that do).
#[derive(Debug, Clone, Copy, PartialEq, Eq, Structural)]
pub enum EntryKind {
    File,
    Dir,
    Symlink,
    Other,
}

/// One entry of a tree, in depth-first order: a directory is followed by its
/// whole subtree.
pub struct Entry {
    /// The path of the entry, as the walk reports it.
    pub path: String,
    /// The number of directory levels between the entry and the root of the walk.
    pub depth: u32,
    pub kind: EntryKind,
    /// For a file: the first bytes of its content, or `None` where it could not be read.
    pub sample: Option<Vec<u8>>,
    /// For a directory: the texts of the ignore files it holds that could be
    /// read, `.gitignore` first, then `.ignore`.
    pub ignore_files: Vec<String>,
}

/// The size of the sample that decides whether a file holds text.
pub const SAMPLE_SIZE: usize = 1024;

/// A sample of text: no NUL byte, and valid UTF-8.
pub open spec fn is_text(sample: Seq<u8>) -> bool {
    !sample.contains(0u8) && valid_utf8(sample)
}

/// Whether a file with this sample is searched: it was read, and holds text.
pub open spec fn sample_is_text(sample: Option<Vec<u8>>) -> bool {
    match sample {
        Some(b) => is_text(b@),
        None => false,
    }
}

/// Relies on `std::str::from_utf8`: it succeeds exactly on valid UTF-8.
#[verifier::external_body]
fn utf8_ok(bytes: &[u8]) -> (r: bool)
    ensures
        r == valid_utf8(bytes@),
{
    std::str::from_utf8(bytes).is_ok()
}

/// Whether `sample` looks like text: it holds no NUL byte and decodes as UTF-8.
pub fn is_text_sample(sample: &[u8]) -> (r: bool)
    ensures
        r == is_text(sample@),
{
    let mut i: usize = 0;
    while i < sample.len()
        invariant
            i <= sample@.len(),
            forall|j: int| 0 <= j < i ==> sample@[j] != 0u8,
        decreases sample@.len() - i,
    {
        if sample[i] == 0 {
            assert(sample@.contains(0u8));
            return false;
        }
        i = i + 1;
    }
    utf8_ok(sample)
}

/// Whether the file entry with this sample is to be searched.
pub fn entry_is_text(sample: &Option<Vec<u8>>) -> (r: bool)
    ensures
        r == sample_is_text(*sample),
{
    match sample {
        Some(b) => is_text_sample(b.as_slice()),
        None => false,
    }
}

} // verus!
