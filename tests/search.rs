use grrs::commands::GrepCommand;
use grrs::lines::split_lines;
use grrs::matcher::MatchError;
use grrs::threads::{queue_capacity, worker_count};
use grrs::tree::{Entry, EntryKind, is_text_sample};
use grrs::walker::Walker;
use grrs::writer::SynchronizedWriter;
use grrs::{LazyWriter, MatchOptions, find_matches, get_file_paths};
use grrs::ignore::GitIgnore;

#[test]
fn test_find_matches() {
    let input = "lorem ipsum\ndolor sit amet\nquick brown fox";

    let result = find_matches(input, &"dolor".to_string(), &MatchOptions::default()).unwrap();

    assert_eq!(result.as_bytes(), b"dolor sit amet\n");
}

#[test]
fn find_matches_numbers_lines() {
    let options = MatchOptions { show_line_numbers: true, case_insensitive: false };
    let input = "a1\nb\na2\r\n";
    assert_eq!(find_matches(input, &"a".to_string(), &options).unwrap(), "1: a1\n3: a2\n");
}

#[test]
fn find_matches_line_numbers_past_nine() {
    let options = MatchOptions { show_line_numbers: true, case_insensitive: false };
    let input = "x\n".repeat(9) + "hit\n" + &"x\n".repeat(2) + "hit";
    assert_eq!(find_matches(&input, &"hit".to_string(), &options).unwrap(), "10: hit\n13: hit\n");
}

#[test]
fn find_matches_case_insensitive() {
    let options = MatchOptions { show_line_numbers: false, case_insensitive: true };
    assert_eq!(find_matches("Hello\nworld", &"hello".to_string(), &options).unwrap(), "Hello\n");
    assert_eq!(find_matches("Hello\nworld", &"hello".to_string(), &MatchOptions::default()).unwrap(), "");
}

#[test]
fn find_matches_invalid_pattern() {
    assert_eq!(
        find_matches("abc", &"(".to_string(), &MatchOptions::default()),
        Err(MatchError::InvalidPattern)
    );
}

#[test]
fn lines_like_std() {
    for text in ["", "a", "a\n", "a\n\nb", "a\r\nb\r\n", "\n", "x\r"] {
        let expected: Vec<String> = text.lines().map(|l| l.to_string()).collect();
        assert_eq!(split_lines(text), expected, "{:?}", text);
    }
}

#[test]
fn writer_without_writes_emits_nothing() {
    let mut w = SynchronizedWriter::new("file.txt:".to_string());
    assert!(w.flush().is_empty());
    assert!(w.flush().is_empty());
}

#[test]
fn writer_emits_header_then_body_once() {
    let mut w = SynchronizedWriter::new("f.txt:".to_string());
    assert_eq!(w.write(b"one\n"), 4);
    assert_eq!(w.write(b"two\n"), 4);
    assert_eq!(w.flush(), b"f.txt:\none\ntwo\n".to_vec());
    assert!(w.flush().is_empty());
    w.write(b"three\n");
    assert_eq!(w.flush(), b"f.txt:\nthree\n".to_vec());
}

#[test]
fn writer_units_stay_contiguous() {
    // Four tasks complete and one faults before writing; each unit is emitted whole.
    let mut out: Vec<u8> = Vec::new();
    for i in 0..5 {
        let mut w = SynchronizedWriter::new(format!("f{}:", i));
        if i == 2 {
            continue;
        }
        w.write(format!("{}a\n", i).as_bytes());
        w.write(format!("{}b\n", i).as_bytes());
        out.extend(w.flush());
    }
    let text = String::from_utf8(out).unwrap();
    assert_eq!(text, "f0:\n0a\n0b\nf1:\n1a\n1b\nf3:\n3a\n3b\nf4:\n4a\n4b\n");
}

#[test]
fn lazy_writer_header_once() {
    let mut w = LazyWriter::new(Vec::<u8>::new(), "h".to_string());
    assert_eq!(w.write(b"x"), b"h\nx".to_vec());
    assert_eq!(w.write(b"y"), b"y".to_vec());
    assert!(w.get_mut().is_empty());
}

#[test]
fn text_sample_detection() {
    assert!(is_text_sample(b"plain text"));
    assert!(is_text_sample("게".as_bytes()));
    assert!(is_text_sample(b""));
    assert!(!is_text_sample(b"a\x00b"));
    assert!(!is_text_sample(b"\xff"));
    assert!(!is_text_sample(&"게".as_bytes()[..2]));
}

fn entry(path: &str, depth: u32, kind: EntryKind, text: Option<&[u8]>) -> Entry {
    Entry { path: path.to_string(), depth, kind, sample: text.map(|t| t.to_vec()), ignore_files: Vec::new() }
}

fn tree(root: &str) -> Vec<Entry> {
    vec![
        entry(root, 0, EntryKind::Dir, None),
        entry(&format!("{}/a.txt", root), 1, EntryKind::File, Some(b"a")),
        entry(&format!("{}/sub", root), 1, EntryKind::Dir, None),
        entry(&format!("{}/sub/b.txt", root), 2, EntryKind::File, Some(b"b")),
        entry(&format!("{}/sub/bin", root), 2, EntryKind::File, Some(b"\x00")),
    ]
}

#[test]
fn get_file_paths_depth_and_duplicates() {
    let trees = vec![tree("r"), tree("r")];
    assert_eq!(get_file_paths(&trees, u32::MAX), vec!["r/a.txt", "r/sub/b.txt"]);
    // With zero, the root's children are looked at but not grandchildren.
    assert_eq!(get_file_paths(&vec![tree("r")], 0), vec!["r/a.txt"]);
    let file_root = vec![vec![entry("f.txt", 0, EntryKind::File, Some(b"x"))]];
    assert_eq!(get_file_paths(&file_root, 0), vec!["f.txt"]);
}

#[test]
fn walker_uses_one_rule_set_and_skips_seen_paths() {
    let rules = GitIgnore::from(String::new(), "sub/");
    let trees = vec![tree("r"), tree("q")];
    assert_eq!(Walker::new(rules).collect_file_paths(&trees, u32::MAX), vec!["r/a.txt", "q/a.txt"]);
    let none = GitIgnore::empty();
    let twice = vec![tree("r"), tree("r")];
    assert_eq!(Walker::new(none).collect_file_paths(&twice, 5), vec!["r/a.txt", "r/sub/b.txt"]);
}

#[test]
fn pool_sizing() {
    assert_eq!(queue_capacity(2), 8);
    assert_eq!(worker_count(Some(3)), 3);
    assert_eq!(worker_count(None), 8);
}

#[test]
fn grep_command_defaults() {
    let cmd = GrepCommand {
        pattern: "x".to_string(),
        path: None,
        max_depth: 3,
        no_line_numbers: true,
        ignore_case: true,
    };
    assert_eq!(cmd.search_root(), ".");
    let options = cmd.match_options();
    assert!(!options.show_line_numbers);
    assert!(options.case_insensitive);
    let with_path = GrepCommand { path: Some("src".to_string()), ..cmd };
    assert_eq!(with_path.search_root(), "src");
}
