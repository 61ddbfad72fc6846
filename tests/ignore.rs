use grrs::ignore::{
    GitIgnore, GitIgnoreStack, IgnoreError, WalkSession, clean_pattern, convert_part,
    convert_pattern, remove_comment, walk, walk_with,
};
use grrs::tree::{Entry, EntryKind};

fn rules(content: &str) -> GitIgnore {
    GitIgnore::from(String::new(), content)
}

#[test]
fn test_remove_comment() {
    // Empty pattern has no comment
    assert_eq!(remove_comment(String::from("")), "");
    // Empty comment at start of line
    assert_eq!(remove_comment(String::from("#")), "");
    // Comment at start of line
    assert_eq!(remove_comment(String::from("# ABC")), "");
    // Empty comment after some pattern
    assert_eq!(remove_comment(String::from("/build/  # Build files!")), "/build/  ");
    // Comment after some pattern
    assert_eq!(remove_comment(String::from("/build/  #")), "/build/  ");
    // Multiple hashtags
    assert_eq!(remove_comment(String::from("/build/  # COMMENT! #")), "/build/  ");
    // Escaped hashtags without a comment
    assert_eq!(remove_comment(String::from(r"/\#hashtag\#/")), r"/\#hashtag\#/");
    // Escaped hashtags with comment
    assert_eq!(remove_comment(String::from(r"/\#hashtag\#/  # COMMENT! #")), r"/\#hashtag\#/  ");
}

#[test]
fn test_convert_pattern() {
    // Empty pattern
    assert_eq!(convert_pattern(&String::from("")), Some(String::from(r"(?:^|/)(?:/|$)")));
    // Basic file
    assert_eq!(
        convert_pattern(&String::from("abc.txt")),
        Some(String::from(r"(?:^|/)abc\.txt(?:/|$)"))
    );
    // Handle beginning separator
    assert_eq!(convert_pattern(&String::from("/abc")), Some(String::from(r"^abc(?:/|$)")));
    // Handle middle separator
    assert_eq!(
        convert_pattern(&String::from("dir/a.txt")),
        Some(String::from(r"^dir/a\.txt(?:/|$)"))
    );
    // Handle ending separator
    assert_eq!(convert_pattern(&String::from("abc/")), Some(String::from(r"(?:^|/)abc/")));
    // Handle trailing double asterisks
    assert_eq!(convert_pattern(&String::from("dir/**")), Some(String::from(r"^dir/.*")));
    // Handle middle double asterisks
    assert_eq!(
        convert_pattern(&String::from("a/**/b")),
        Some(String::from(r"^a/(?:.*/)?b(?:/|$)"))
    );

    // Handle escaped characters
    assert_eq!(
        convert_pattern(&String::from(r"data()\[1\].{txt}")),
        Some(String::from(r"(?:^|/)data\(\)\[1\]\.\{txt\}(?:/|$)"))
    );

    // Handle invalid pattern
    // Backslash at the end of a pattern is invalid
    assert_eq!(convert_pattern(&String::from(r"abc\")), None);
    assert_eq!(convert_pattern(&String::from(r"dir/abc\")), None);
}

#[test]
fn test_basic_file_ignore() {
    // Unanchored: should match anywhere
    let ignore = rules("abc.txt");

    assert!(ignore.is_match("abc.txt", false));
    assert!(ignore.is_match("src/abc.txt", false));
    assert!(ignore.is_match("debug/logs/abc.txt", false));
    assert!(!ignore.is_match("xyz.txt", false));
}

#[test]
fn test_partial_match() {
    // Unanchored: should match anywhere
    let ignore = rules("def");

    assert!(ignore.is_match("def", false));
    assert!(!ignore.is_match("abcdef", false));
    assert!(!ignore.is_match("defghi", false));
}

#[test]
fn test_double_asterisk() {
    let ignore = rules("a/**/b");

    assert!(ignore.is_match("a/b", false));
    assert!(ignore.is_match("a/x/b", false));
    assert!(ignore.is_match("a/x/y/b", false));
}

#[test]
fn test_anchored_ignore() {
    // Anchored with leading slash: should only match root
    let ignore = rules("/root_only.txt");

    assert!(ignore.is_match("root_only.txt", false));
    assert!(!ignore.is_match("subdir/root_only.txt", false));
}

#[test]
fn test_extension_wildcard() {
    let ignore = rules("*.log");

    assert!(ignore.is_match("error.log", false));
    assert!(ignore.is_match("build/output.log", false));
    assert!(!ignore.is_match("log.txt", false));
}

#[test]
fn test_directory_ignore() {
    // Trailing slash: matches everything inside the folder
    let ignore = rules("target/");

    assert!(ignore.is_match("target/debug/app", false));
    assert!(ignore.is_match("target/debug/app", true));
    assert!(ignore.is_match("src/target/old_build", false));
    assert!(ignore.is_match("src/target/old_build", true));
    assert!(!ignore.is_match("target", false)); // should not match file
    assert!(ignore.is_match("target/", true)); // should match directory
}

#[test]
fn test_regex_escaping() {
    // Special regex characters in file names are escaped
    let ignore = rules(r"data()\[1\].{txt}");

    assert!(ignore.is_match("data()[1].{txt}", false));
}

#[test]
fn test_backslash() {
    // Backslashes in file names
    let ignore = rules(r"file\\name");

    assert!(ignore.is_match(r"file\name", false));
}

#[test]
fn test_backslash_with_question_mark() {
    let ignore = rules(r"file?name");

    assert!(ignore.is_match(r"file\name", false));
}

#[test]
fn test_backslash_with_asterisk() {
    let ignore = rules(r"file*name");

    assert!(ignore.is_match(r"file\name", false));
}

#[test]
fn test_invalid_backslash() {
    // A backslash at the end of a pattern matches nothing
    let ignore = rules(r"file\");

    assert!(!ignore.is_match(r"", false));
    assert!(!ignore.is_match(r"file", false));
}

#[test]
fn test_ranges() {
    let ignore = rules(r"file-[a-z]");

    assert!(ignore.is_match(r"file-a", false));
    assert!(ignore.is_match(r"file-z", false));
    assert!(!ignore.is_match(r"file-3", false));
    assert!(!ignore.is_match(r"file-B", false));
    assert!(!ignore.is_match(r"file-[a-z]", false));
}

#[test]
fn test_excluded_matches() {
    let ignore = rules("*\n!file*.txt");

    assert!(ignore.is_match(r"abc.txt", false));
    assert!(!ignore.is_match(r"file.txt", false));
    assert!(!ignore.is_match(r"file2.txt", false));
}

// Own tests.

#[test]
fn clean_pattern_removes_comment_then_trailing_spaces() {
    assert_eq!(clean_pattern(String::from("  build/  # out")), "  build/");
    assert_eq!(clean_pattern(String::from(r"a\  ")), r"a\ ");
}

#[test]
fn convert_part_maps_wildcards_and_escapes() {
    assert_eq!(convert_part("a*b?c"), Some(String::from("a[^/]*b[^/]c")));
    assert_eq!(convert_part(r"x\*"), Some(String::from(r"x\*")));
    assert_eq!(convert_part(r"x\"), None);
    assert_eq!(convert_part("a+b|c"), Some(String::from(r"a\+b\|c")));
}

#[test]
fn single_star_does_not_cross_separator() {
    let ignore = rules("a*/x");
    assert!(ignore.is_match("abc/x", false));
    assert!(!ignore.is_match("a/b/x", false));
}

#[test]
fn scenario_negation_overrides_within_rule_set() {
    let ignore = rules("*\n!file*.txt");
    assert!(ignore.is_match("abc.txt", false));
    assert!(!ignore.is_match("file.txt", false));
    assert!(!ignore.is_match("file2.txt", false));
}

#[test]
fn scenario_double_star_segments() {
    let ignore = rules("a/**/b");
    assert!(ignore.is_match("a/b", false));
    assert!(ignore.is_match("a/x/b", false));
    assert!(ignore.is_match("a/x/y/b", false));
    assert!(!ignore.is_match("ab", false));
}

#[test]
fn scenario_directory_rule() {
    let ignore = rules("target/");
    assert!(ignore.is_match("target", true));
    assert!(ignore.is_match("target/a/b/c", false));
    assert!(ignore.is_match("x/y/target/z", false));
    assert!(!ignore.is_match("target", false));
}

#[test]
fn round_trip_rule_matches_representative_and_not_sibling() {
    for (rule, hit, miss) in [
        ("abc.txt", "dir/abc.txt", "dir/abd.txt"),
        ("/top", "top", "sub/top"),
        ("*.log", "a.log", "a.txt"),
        ("doc/*.md", "doc/x.md", "doc/x.txt"),
        ("file?", "file1", "file12"),
    ] {
        let ignore = rules(rule);
        assert!(ignore.is_match(hit, false), "{} should ignore {}", rule, hit);
        assert!(!ignore.is_match(miss, false), "{} should keep {}", rule, miss);
    }
}

#[test]
fn odd_trailing_backslashes_never_match() {
    for line in [r"abc\", r"abc\\\", r"!abc\", r"a/b\"] {
        let ignore = rules(line);
        for path in ["abc", r"abc\", "a/b", r"a/b\", "x"] {
            assert!(!ignore.is_match(path, false));
            assert!(!ignore.is_match(path, true));
        }
    }
    // An even number is a literal backslash.
    assert_eq!(convert_pattern(r"abc\\"), Some(String::from(r"(?:^|/)abc\\(?:/|$)")));
}

#[test]
fn git_dir_ignored_at_root_of_rule_set() {
    let ignore = GitIgnore::empty();
    assert!(ignore.is_match(".git", true));
    assert!(ignore.is_match("./.git", true));
    assert!(!ignore.is_match(".git", false));
}

#[test]
fn comments_and_blank_lines_compile_to_nothing() {
    let ignore = rules("# a comment\n\n   \n");
    assert!(!ignore.is_match("a comment", false));
    assert!(!ignore.is_match("   ", false));
}

#[test]
fn rules_relative_to_root_path() {
    // A rule set rooted at `./sub` anchors its rules at `sub`, as paths below `.` are listed.
    let dotted = GitIgnore::from(String::from("./sub"), "/x.txt");
    assert!(dotted.is_match("./sub/x.txt", false));
    assert!(dotted.is_match("sub/x.txt", false));
    assert!(!dotted.is_match("./sub/y/x.txt", false));
    let inner = GitIgnore::from(String::from("./sub"), "sub/x.txt");
    assert!(!inner.is_match("./sub/x.txt", false));
    assert!(inner.is_match("./sub/sub/x.txt", false));
    let nested = GitIgnore::from(String::from("sub"), "/x.txt");
    assert!(nested.is_match("sub/x.txt", false));
    assert!(nested.is_match("./sub/x.txt", false));
    assert!(!nested.is_match("sub/y/x.txt", false));
}

#[test]
fn walk_from_dot_anchors_nested_rules() {
    let tree = vec![
        dir(".", 0, None),
        dir("./sub", 1, Some("/x.txt")),
        file("./sub/x.txt", 2, b"x"),
        file("./sub/y.txt", 2, b"y"),
        dir("./sub/deeper", 2, None),
        file("./sub/deeper/x.txt", 3, b"x"),
    ];
    assert_eq!(walk(&tree, u32::MAX), vec!["./sub/y.txt", "./sub/deeper/x.txt"]);
}

#[test]
fn blank_lines_of_any_whitespace_hold_no_rule() {
    let ignore = rules("\t\n \t \n*.log");
    assert!(!ignore.is_match("\t", false));
    assert!(!ignore.is_match("a\tb", false));
    assert!(ignore.is_match("a.log", false));
}

#[test]
fn walk_passes_over_entries_below_a_link() {
    let tree = vec![
        dir("r", 0, None),
        Entry { path: "r/link".to_string(), depth: 1, kind: EntryKind::Symlink, sample: None, ignore_files: Vec::new() },
        file("r/link/a.txt", 2, b"a"),
        Entry { path: "r/fifo".to_string(), depth: 1, kind: EntryKind::Other, sample: None, ignore_files: Vec::new() },
        file("r/fifo/b.txt", 2, b"b"),
        file("r/c.txt", 1, b"c"),
    ];
    assert_eq!(walk(&tree, u32::MAX), vec!["r/c.txt"]);
}

#[test]
fn walk_session_says_where_to_descend() {
    let mut session = WalkSession::new(GitIgnoreStack::new(), 2);
    assert!(session.step(&dir("r", 0, Some("skip/"))));
    assert!(!session.step(&dir("r/skip", 1, None)));
    assert!(!session.step(&dir("r/.git", 1, None)));
    assert!(!session.step(&file("r/a.txt", 1, b"a")));
    assert!(session.step(&dir("r/sub", 1, None)));
    // At the depth limit the walk does not descend.
    assert!(!session.step(&dir("r/sub/deep", 2, None)));
    assert!(!session.step(&file("r/sub/b.txt", 2, b"b")));
    let (found, stack) = session.finish();
    assert_eq!(found, vec!["r/a.txt", "r/sub/b.txt"]);
    assert!(stack.is_empty());
}

#[test]
fn malformed_rule_never_matches_and_rest_loads() {
    let ignore = rules("file-[a\n*.log");
    assert!(ignore.is_match("x.log", false));
    assert!(!ignore.is_match("file-[a", false));
    assert!(!ignore.is_match("file-a", false));
}

#[test]
fn broken_lines_leave_other_rules_in_force() {
    let ignore = rules("abc\\\n*.log\n!keep.log\\\ntarget/\nx\\\\\\");
    assert!(ignore.is_match("a.log", false));
    assert!(ignore.is_match("keep.log", false));
    assert!(ignore.is_match("target", true));
    assert!(!ignore.is_match("abc", false));
    assert!(!ignore.is_match("x", false));
}

#[test]
fn new_reads_only_ignore_files() {
    let g = GitIgnore::new("dir/.gitignore", "*.log").unwrap();
    let d = GitIgnore::from_dir("dir", &vec!["*.log".to_string(), "*.tmp".to_string()]);
    assert_eq!(d.len(), 2);
    assert!(d[0].is_match("dir/a.log", false));
    assert!(d[1].is_match("dir/a.tmp", false));
    assert!(!d[1].is_match("dir/a.log", false));
    assert!(g.is_match("dir/a.log", false));
    let i = GitIgnore::new(".ignore", "*.log").unwrap();
    assert!(i.is_match("a.log", false));
    let other = GitIgnore::new("dir/rules.txt", "*.log").unwrap();
    assert!(!other.is_match("dir/a.log", false));
    assert_eq!(GitIgnore::new("dir/", "*.log").err(), Some(IgnoreError::MissingFileName));
}

#[test]
fn stack_asks_every_rule_set() {
    let mut stack = GitIgnoreStack::new();
    assert!(stack.is_empty());
    stack.push(rules("*.log"));
    stack.push(rules("*.tmp"));
    assert_eq!(stack.len(), 2);
    assert!(stack.is_match("a.log", false));
    assert!(stack.is_match("a.tmp", false));
    assert!(!stack.is_match("a.txt", false));
    assert!(stack.pop().is_some());
    assert!(!stack.is_match("a.tmp", false));
    assert!(stack.pop().is_some());
    assert!(stack.pop().is_none());
}

fn file(path: &str, depth: u32, text: &[u8]) -> Entry {
    Entry {
        path: path.to_string(),
        depth,
        kind: EntryKind::File,
        sample: Some(text.to_vec()),
        ignore_files: Vec::new(),
    }
}

fn dir(path: &str, depth: u32, ignore_file: Option<&str>) -> Entry {
    Entry {
        path: path.to_string(),
        depth,
        kind: EntryKind::Dir,
        sample: None,
        ignore_files: ignore_file.map(|s| s.to_string()).into_iter().collect(),
    }
}

fn sample_tree() -> Vec<Entry> {
    vec![
        dir(".", 0, Some("*.log\ntarget/")),
        file("./a.txt", 1, b"hello"),
        file("./b.log", 1, b"log"),
        dir("./.git", 1, None),
        file("./.git/config", 2, b"[core]"),
        dir("./.git/objects", 2, None),
        file("./.git/objects/x", 3, b"x"),
        dir("./target", 1, None),
        file("./target/out.txt", 2, b"out"),
        dir("./src", 1, Some("*.tmp")),
        file("./src/main.rs", 2, b"fn main() {}"),
        file("./src/t.tmp", 2, b"tmp"),
        file("./src/bin.dat", 2, b"\x00\x01"),
        file("./src/bad.txt", 2, b"\xff\xfe"),
        dir("./src/deep", 2, None),
        file("./src/deep/x.txt", 3, b"x"),
        file("./c.tmp", 1, b"kept: the src rules end with src"),
        Entry { path: "./link".to_string(), depth: 1, kind: EntryKind::Symlink, sample: None, ignore_files: Vec::new() },
        Entry { path: "./unreadable.txt".to_string(), depth: 1, kind: EntryKind::File, sample: None, ignore_files: Vec::new() },
    ]
}

#[test]
fn walk_applies_nested_rules_and_skips_git() {
    let found = walk(&sample_tree(), u32::MAX);
    assert_eq!(found, vec!["./a.txt", "./src/main.rs", "./src/deep/x.txt", "./c.tmp"]);
    assert!(found.iter().all(|p| !p.contains(".git")));
}

#[test]
fn git_dir_skipped_without_any_ignore_file() {
    let tree = vec![
        dir("r", 0, None),
        dir("r/sub", 1, None),
        dir("r/sub/.git", 2, None),
        file("r/sub/.git/HEAD", 3, b"ref"),
        file("r/sub/a.txt", 2, b"a"),
    ];
    assert_eq!(walk(&tree, u32::MAX), vec!["r/sub/a.txt"]);
}

#[test]
fn walk_twice_gives_same_result() {
    let tree = sample_tree();
    assert_eq!(walk(&tree, u32::MAX), walk(&tree, u32::MAX));
}

#[test]
fn walk_leaves_stack_as_found() {
    let mut stack = GitIgnoreStack::new();
    let _ = walk_with(&mut stack, &sample_tree(), u32::MAX);
    assert!(stack.is_empty());
    stack.push(rules("*.txt"));
    let found = walk_with(&mut stack, &sample_tree(), u32::MAX);
    assert_eq!(stack.len(), 1);
    assert_eq!(found, vec!["./src/main.rs", "./c.tmp"]);
}

#[test]
fn walk_pushes_every_ignore_file_of_a_directory() {
    let mut root = dir("r", 0, Some("*.log"));
    root.ignore_files.push("*.tmp\n!keep.log".to_string());
    let tree = vec![
        root,
        file("r/a.log", 1, b"a"),
        file("r/b.tmp", 1, b"b"),
        file("r/keep.log", 1, b"k"),
        file("r/c.txt", 1, b"c"),
        dir("r/s", 1, None),
        file("r/s/d.tmp", 2, b"d"),
    ];
    // Each file is its own rule set: the `!keep.log` of the second does not
    // lift the first's `*.log`.
    assert_eq!(walk(&tree, u32::MAX), vec!["r/c.txt"]);
}

#[test]
fn walk_keeps_rules_of_file_with_a_bad_line() {
    let tree = vec![
        dir("r", 0, Some("file-[a\ntarget/")),
        dir("r/target", 1, None),
        file("r/target/out.txt", 2, b"o"),
        file("r/main.txt", 1, b"m"),
    ];
    assert_eq!(walk(&tree, u32::MAX), vec!["r/main.txt"]);
}

#[test]
fn walk_depth_limit() {
    let tree = sample_tree();
    // Zero: the root's children are not visited.
    assert_eq!(walk(&tree, 0), Vec::<String>::new());
    assert_eq!(walk(&vec![file("only.txt", 0, b"x")], 0), vec!["only.txt"]);
    // One: only the root's own files.
    assert_eq!(walk(&tree, 1), vec!["./a.txt", "./c.tmp"]);
}
