use grrs::escaped_strings::{find_char, split, trim_end};

fn parts(s: &str, c: char) -> Vec<String> {
    split(s, c).to_vec()
}

#[test]
fn test_find_char() {
    // Empty pattern has no comment
    assert_eq!(find_char(&String::from(""), '#'), None);
    // Empty char at start of line
    assert_eq!(find_char(&String::from("#"), '#'), Some(0));
    // char at start of line
    assert_eq!(find_char(&String::from("# ABC"), '#'), Some(0));
    // Empty char after some pattern
    assert_eq!(find_char(&String::from("/build/  # Build files!"), '#'), Some(9));
    // char after some pattern
    assert_eq!(find_char(&String::from("/build/  #"), '#'), Some(9));
    // Multiple hashtags
    assert_eq!(find_char(&String::from("/build/  # COMMENT! #"), '#'), Some(9));
    // Escaped hashtags without a char
    assert_eq!(find_char(&String::from(r"/\#hashtag\#/"), '#'), None);
    // Escaped hashtags with char
    assert_eq!(find_char(&String::from(r"/\#hashtag\#/  # COMMENT! #"), '#'), Some(15));

    // Handling double escape
    assert_eq!(find_char(&String::from(r"\\?"), '?'), Some(2));
    // Handling triple escape
    assert_eq!(find_char(&String::from(r"\\\?"), '?'), None);
    // Finding the escape character itself
    assert_eq!(find_char(&String::from(r"\"), '\\'), Some(0));
    assert_eq!(find_char(&String::from(r"\\"), '\\'), Some(0));
    assert_eq!(find_char(&String::from(r"\\\\"), '\\'), Some(0));

    // Handling unicode characters
    assert_eq!(find_char(&String::from(r"🦀 CRAB"), 'C'), Some(5));
    assert_eq!(find_char(&String::from(r"게 CRAB"), 'C'), Some(4));
}

#[test]
fn test_trim_end() {
    // Empty string
    assert_eq!(trim_end(String::from("")), "");
    // Only spaces
    assert_eq!(trim_end(String::from("   ")), "");
    // No trailing spaces
    assert_eq!(trim_end(String::from("abc")), "abc");
    // Trailing spaces
    assert_eq!(trim_end(String::from("abc  ")), "abc");
    // Non-trailing spaces
    assert_eq!(trim_end(String::from(" a b c")), " a b c");
    // Trailing escaped spaces
    assert_eq!(trim_end(String::from(r"abc\ ")), r"abc\ ");
    // Trailing spaces with escaped spaces
    assert_eq!(trim_end(String::from(r"abc\  ")), r"abc\ ");
    // Trailing spaces with escaped spaces with non-trailing spaces
    assert_eq!(trim_end(String::from(r" a bc\  ")), r" a bc\ ");

    // Handling double escape
    assert_eq!(trim_end(String::from(r"\\ ")), r"\\");
    assert_eq!(trim_end(String::from(r"\ \ ")), r"\ \ ");

    // Handling unicode characters
    assert_eq!(trim_end(String::from(" 게")), " 게");
    assert_eq!(trim_end(String::from("게 ")), "게");
}

#[test]
fn test_split() {
    // Empty string
    assert_eq!("".split('!').collect::<Vec<_>>(), vec![""]);
    assert_eq!(parts("", '!'), vec![""]);
    // No matches
    assert_eq!(parts("abc", '!'), vec!["abc"]);
    // Split at start
    assert_eq!(parts("/abc", '/'), vec!["", "abc"]);
    // Split at end
    assert_eq!(parts("abc/", '/'), vec!["abc", ""]);
    // Simple match
    assert_eq!(parts("abc,def,ghi", ','), vec!["abc", "def", "ghi"]);
    // Escaped split character
    assert_eq!(parts(r"abc\,def\,ghi", ','), vec![r"abc\,def\,ghi"]);
    // Mixed escaped and un-escaped split characters
    assert_eq!(parts(r"abc\,def,ghi", ','), vec![r"abc\,def", "ghi"]);
}

#[test]
fn split_next_hands_out_parts_then_none() {
    let mut s = split("a/b", '/');
    assert_eq!(s.next(), Some(String::from("a")));
    assert_eq!(s.next(), Some(String::from("b")));
    assert_eq!(s.next(), None);
    assert_eq!(s.next(), None);
}

#[test]
fn split_keeps_double_escape_as_separator_boundary() {
    assert_eq!(parts(r"a\\,b", ','), vec![r"a\\", "b"]);
}

#[test]
fn trim_end_keeps_multibyte_text() {
    assert_eq!(trim_end(String::from("🦀\\  ")), "🦀\\ ");
}
