use reviewbuddy::text::{
    chars_of, join, lines_with_endings, same, split, split_once, strip_prefix, tail_after, trim,
    trim_end, trim_end_matches, trim_start, white,
};

#[test]
fn white_space_is_that_of_std() {
    for n in 0..=0x10ffffu32 {
        if let Some(c) = char::from_u32(n) {
            assert_eq!(white(c), c.is_whitespace(), "U+{n:04X}");
        }
    }
}

#[test]
fn trimming_is_that_of_std() {
    for s in ["", " ", "a", " a ", "\t\n a b \r\n", "\u{a0}é\u{3000}", "\u{200b}x\u{200b}"] {
        assert_eq!(trim(s), s.trim());
        assert_eq!(trim_end(s), s.trim_end());
        assert_eq!(trim_start(s), s.trim_start());
    }
    assert_eq!(trim_end_matches("a\r\r\n", '\n'), "a\r\r");
    assert_eq!(trim_end_matches("a\r\r", '\r'), "a");
    assert_eq!(trim_end_matches("", 'x'), "");
}

#[test]
fn splitting_is_that_of_std() {
    for s in ["", "/", "a/b", "/a//b/", "äö/ü", "plain"] {
        assert_eq!(split(s, '/'), s.split('/').collect::<Vec<_>>());
        let once = s.split_once('/').map(|(a, b)| (a.to_string(), b.to_string()));
        assert_eq!(split_once(s, '/'), once);
        assert_eq!(tail_after(s, '/'), s.rsplit('/').next().unwrap());
    }
}

#[test]
fn split_parts_join_to_the_whole() {
    for s in ["", "a", "a,b", ",a,,b,"] {
        let parts = split(s, ',');
        let parts: Vec<&str> = parts.iter().map(|part| part.as_str()).collect();
        assert_eq!(join(&parts, ','), s);
    }
    assert_eq!(join(&[], ' '), "");
}

#[test]
fn prefixes_are_stripped() {
    assert_eq!(strip_prefix("origin/main", "origin/"), Some("main".to_string()));
    assert_eq!(strip_prefix("upstream/main", "origin/"), None);
    assert_eq!(strip_prefix("origin/", "origin/"), Some(String::new()));
    assert_eq!(strip_prefix("ori", "origin/"), None);
}

#[test]
fn lines_keep_their_endings() {
    assert_eq!(lines_with_endings(""), Vec::<String>::new());
    assert_eq!(lines_with_endings("a"), ["a"]);
    assert_eq!(lines_with_endings("a\n"), ["a\n"]);
    assert_eq!(lines_with_endings("a\n\nb\r\nc"), ["a\n", "\n", "b\r\n", "c"]);
    assert_eq!(lines_with_endings("\n"), ["\n"]);
}

#[test]
fn lines_make_up_the_text() {
    for s in ["", "a", "a\n", "\n\n", "a\r\nb\nc", "é\n✓"] {
        assert_eq!(lines_with_endings(s).concat(), s);
        assert_eq!(lines_with_endings(s).len(), s.lines().count());
    }
}

#[test]
fn texts_are_compared_by_what_they_hold() {
    assert!(same("a✓", "a✓"));
    assert!(!same("a", "b"));
    assert!(!same("a", "ab"));
    assert!(same("", ""));
    assert_eq!(chars_of("a✓"), ['a', '✓']);
}
