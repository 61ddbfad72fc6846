//! A multi-threaded content search library: escape-aware string helpers, a
//! gitignore pattern compiler, an ignore-aware directory walk over a snapshot of
//! the file tree, line matching, and buffered per-file output.

pub mod commands;
pub mod escaped_strings;
pub mod file;
pub mod ignore;
pub mod lines;
pub mod matcher;
pub mod regexes;
mod text;
pub mod threads;
pub mod walker;
pub mod tree;
pub mod writer;

pub use file::get_file_paths;
pub use matcher::{MatchOptions, find_matches};
pub use writer::LazyWriter;
