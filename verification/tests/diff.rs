use reviewbuddy::diff::{
    build, flatten, hunk, hunk_header, row, view, Context, FileDiff, Input, State,
};
use reviewbuddy::git::Status;
use reviewbuddy::highlight::Highlighter;
use reviewbuddy::line_diff::{LineChange, LineTag};
use similar::DiffOp;

fn shown(html: &str) -> String {
    let mut out = String::new();
    let mut inside = false;
    for c in html.chars() {
        match (inside, c) {
            (false, '<') => inside = true,
            (true, '>') => inside = false,
            (false, c) => out.push(c),
            (true, _) => {}
        }
    }
    out.replace("&lt;", "<").replace("&gt;", ">").replace("&amp;", "&")
}

fn diff(old: Option<&str>, new: Option<&str>, context: Context) -> FileDiff {
    build(
        &Highlighter::load(),
        Input {
            path: "a.txt",
            old_path: None,
            status: Status::Modified,
            additions: 1,
            deletions: 2,
            old_text: old,
            new_text: new,
            binary: false,
        },
        context,
    )
}

/// The rows of a hunk: kind, numbers and what is shown.
fn rows(file: &FileDiff, hunk: usize) -> Vec<(&'static str, Option<u32>, Option<u32>, String)> {
    file.hunks[hunk].rows.iter().map(|r| (r.kind, r.old, r.new, shown(&r.html))).collect()
}

fn parts(values: &[(bool, &str)]) -> Vec<(bool, String)> {
    values.iter().map(|(on, s)| (*on, s.to_string())).collect()
}

#[test]
fn context_is_full_or_a_number() {
    assert_eq!(Context::parse("full"), Context::Full);
    assert_eq!(Context::parse("0"), Context::Lines(0));
    assert_eq!(Context::parse("7"), Context::Lines(7));
    assert_eq!(Context::parse("+12"), Context::Lines(12));
}

#[test]
fn context_is_three_where_it_is_no_number() {
    assert_eq!(Context::parse(""), Context::Lines(3));
    assert_eq!(Context::parse("Full"), Context::Lines(3));
    assert_eq!(Context::parse("-1"), Context::Lines(3));
    assert_eq!(Context::parse("99999999999999999999999"), Context::Lines(3));
}

#[test]
fn context_is_at_most_two_hundred() {
    assert_eq!(Context::parse("199"), Context::Lines(199));
    assert_eq!(Context::parse("200"), Context::Lines(200));
    assert_eq!(Context::parse("201"), Context::Lines(200));
    assert_eq!(Context::parse("18446744073709551615"), Context::Lines(200));
}

#[test]
fn a_changed_line_is_deleted_and_added() {
    let file = diff(Some("a\nb\nc\n"), Some("a\nx\nc\n"), Context::Lines(3));
    assert_eq!(file.state, State::Rendered);
    assert_eq!(file.hunks.len(), 1);
    assert_eq!(file.hunks[0].header, "@@ -1,3 +1,3 @@");
    assert_eq!(
        rows(&file, 0),
        [
            ("ctx", Some(1), Some(1), "a".to_string()),
            ("del", Some(2), None, "b".to_string()),
            ("add", None, Some(2), "x".to_string()),
            ("ctx", Some(3), Some(3), "c".to_string()),
        ]
    );
    assert_eq!((file.additions, file.deletions), (1, 2));
    assert_eq!(file.path, "a.txt");
    assert_eq!(file.status, Status::Modified);
}

#[test]
fn context_limits_the_unchanged_lines() {
    let old: String = (1..=20).map(|n| format!("{n}\n")).collect();
    let new = old.replace("10\n", "ten\n");
    let file = diff(Some(&old), Some(&new), Context::Lines(1));
    assert_eq!(file.hunks.len(), 1);
    assert_eq!(file.hunks[0].header, "@@ -9,3 +9,3 @@");
    let file = diff(Some(&old), Some(&new), Context::Lines(0));
    assert_eq!(file.hunks[0].header, "@@ -10,1 +10,1 @@");
    assert_eq!(
        rows(&file, 0),
        [
            ("del", Some(10), None, "10".to_string()),
            ("add", None, Some(10), "ten".to_string()),
        ]
    );
}

#[test]
fn far_changes_are_in_hunks_of_their_own() {
    let old: String = (1..=30).map(|n| format!("{n}\n")).collect();
    let new = old.replace("5\n", "five\n");
    let file = diff(Some(&old), Some(&new), Context::Lines(2));
    assert_eq!(
        file.hunks.iter().map(|h| h.header.as_str()).collect::<Vec<_>>(),
        ["@@ -3,5 +3,5 @@", "@@ -13,5 +13,5 @@", "@@ -23,5 +23,5 @@"]
    );
}

#[test]
fn full_context_holds_both_texts() {
    let old = "one\ntwo\nthree\nfour\nfive\nsix\n";
    let new = "zero\none\ntwo\n3 < 4\nfour\nfive & six\n";
    let file = diff(Some(old), Some(new), Context::Full);
    assert_eq!(file.hunks.len(), 1);
    let all = rows(&file, 0);
    let side = |kind: &str| -> String {
        let lines = all.iter().filter(|r| r.0 == "ctx" || r.0 == kind);
        lines.map(|r| format!("{}\n", r.3)).collect()
    };
    assert_eq!(side("del"), old);
    assert_eq!(side("add"), new);
    let count = |kind: &str| all.iter().filter(|r| r.0 == "ctx" || r.0 == kind).count();
    assert_eq!(file.hunks[0].header, format!("@@ -1,{} +1,{} @@", count("del"), count("add")));
}

#[test]
fn every_change_is_shown_whatever_the_context() {
    let old: String = (1..=40).map(|n| format!("{n}\n")).collect();
    let new = old.replace("3\n", "three\n");
    for context in [Context::Lines(0), Context::Lines(2), Context::Lines(200), Context::Full] {
        let file = diff(Some(&old), Some(&new), context);
        let added: Vec<String> = (0..file.hunks.len())
            .flat_map(|i| rows(&file, i))
            .filter(|r| r.0 == "add")
            .map(|r| r.3)
            .collect();
        assert_eq!(added, ["three", "1three", "2three", "3three"]);
    }
}

#[test]
fn a_new_file_is_all_additions() {
    let file = diff(None, Some("a\nb\n"), Context::Lines(3));
    assert_eq!(file.hunks[0].header, "@@ -1,0 +1,2 @@");
    assert_eq!(
        rows(&file, 0),
        [
            ("add", None, Some(1), "a".to_string()),
            ("add", None, Some(2), "b".to_string()),
        ]
    );
}

#[test]
fn a_missing_newline_is_told() {
    let file = diff(Some("a\nb"), Some("a\nb\n"), Context::Lines(3));
    let flags: Vec<(&str, bool)> =
        file.hunks[0].rows.iter().map(|r| (r.kind, r.no_newline)).collect();
    assert_eq!(flags, [("ctx", false), ("del", true), ("add", false)]);
}

#[test]
fn line_endings_are_not_shown() {
    let file = diff(Some("a\r\nb\r\n"), Some("a\r\nc\r\n"), Context::Lines(3));
    assert_eq!(
        rows(&file, 0).iter().map(|r| r.3.clone()).collect::<Vec<_>>(),
        ["a", "b", "c"]
    );
}

#[test]
fn changed_words_are_emphasised() {
    let file = diff(Some("let alpha = one;\n"), Some("let alpha = two;\n"), Context::Lines(3));
    assert_eq!(file.hunks[0].rows[0].html, "let alpha = <span class=\"x\">one;</span>");
    assert_eq!(file.hunks[0].rows[1].html, "let alpha = <span class=\"x\">two;</span>");
}

#[test]
fn there_may_be_nothing_to_show() {
    assert_eq!(diff(None, None, Context::Full).state, State::Missing);
    assert_eq!(diff(Some("a"), Some("a"), Context::Full).state, State::Identical);
    assert_eq!(diff(None, Some(""), Context::Full).state, State::Identical);
    let input = Input {
        path: "new.bin",
        old_path: Some("old.rs"),
        status: Status::Renamed,
        additions: 0,
        deletions: 0,
        old_text: Some("a"),
        new_text: Some("b"),
        binary: true,
    };
    let file = build(&Highlighter::load(), input, Context::Full);
    assert_eq!(file.state, State::Binary);
    assert!(file.hunks.is_empty());
    assert_eq!(file.old_path, Some("old.rs".to_string()));
    assert_eq!(file.language, Some("Rust".to_string()));
}

#[test]
fn each_side_is_highlighted_by_its_own_path() {
    let input = Input {
        path: "new.unknown-extension",
        old_path: Some("old.rs"),
        status: Status::Renamed,
        additions: 1,
        deletions: 1,
        old_text: Some("fn a() {}\n"),
        new_text: Some("fn bbbb() { other }\n"),
        binary: false,
    };
    let file = build(&Highlighter::load(), input, Context::Full);
    let rows = &file.hunks[0].rows;
    assert!(rows[0].html.contains("class=\"k"));
    assert!(!rows[1].html.contains("class=\"k"));
}

#[test]
fn headers_count_from_one() {
    let ops = [
        DiffOp::Equal { old_index: 4, new_index: 6, len: 2 },
        DiffOp::Replace { old_index: 6, old_len: 1, new_index: 8, new_len: 3 },
        DiffOp::Insert { old_index: 7, new_index: 11, new_len: 1 },
        DiffOp::Delete { old_index: 7, old_len: 2, new_index: 12 },
    ];
    assert_eq!(hunk_header(&ops), Some("@@ -5,5 +7,6 @@".to_string()));
    assert_eq!(hunk_header(&ops[2..3]), Some("@@ -8,0 +12,1 @@".to_string()));
    assert_eq!(hunk_header(&[]), None);
}

#[test]
fn fragments_are_joined_and_marked() {
    let (line, emphasis) = flatten(&parts(&[(false, "a "), (true, "b"), (true, "c"), (false, " d\n")]));
    assert_eq!(line, "a bc d\n");
    assert_eq!(emphasis, [(2, 4)]);
    let (line, emphasis) = flatten(&parts(&[(true, "é"), (false, "-"), (true, "x"), (false, "\n")]));
    assert_eq!(line, "é-x\n");
    assert_eq!(emphasis, [(0, 2), (3, 4)]);
}

#[test]
fn a_whole_line_is_not_emphasised() {
    let (line, emphasis) = flatten(&parts(&[(true, "all of it"), (false, " \n")]));
    assert_eq!(line, "all of it \n");
    assert!(emphasis.is_empty());
    let (line, emphasis) = flatten(&parts(&[(true, "ab "), (false, "\n")]));
    assert_eq!(line, "ab \n");
    assert!(emphasis.is_empty());
    let (_, emphasis) = flatten(&parts(&[(true, "all of it\n")]));
    assert!(emphasis.is_empty());
    let (_, emphasis) = flatten(&parts(&[(true, "ab "), (false, "\r\n")]));
    assert!(emphasis.is_empty());
    let (_, emphasis) = flatten(&parts(&[(true, " "), (false, " \n")]));
    assert_eq!(emphasis, [(0, 1)]);
    let (_, emphasis) = flatten(&parts(&[(true, "ab "), (false, " \n")]));
    assert_eq!(emphasis, [(0, 3)]);
    let (_, emphasis) = flatten(&parts(&[(true, "all "), (false, "of it\n")]));
    assert_eq!(emphasis, [(0, 4)]);
    let (_, emphasis) = flatten(&parts(&[]));
    assert!(emphasis.is_empty());
}

#[test]
fn rows_are_made_of_changes() {
    let change = LineChange {
        tag: LineTag::Delete,
        old_index: Some(41),
        new_index: None,
        values: parts(&[(false, "a<"), (true, "b"), (false, "\r\n")]),
        missing_newline: false,
    };
    let r = row(&change, &Vec::new(), &Vec::new());
    assert_eq!((r.kind, r.old, r.new, r.no_newline), ("del", Some(42), None, false));
    assert_eq!(r.html, "a&lt;<span class=\"x\">b</span>");
}

#[test]
fn hunks_are_made_of_groups() {
    let group = [DiffOp::Insert { old_index: 0, new_index: 0, new_len: 1 }];
    let change = LineChange {
        tag: LineTag::Insert,
        old_index: None,
        new_index: Some(0),
        values: parts(&[(false, "new")]),
        missing_newline: true,
    };
    let made = hunk(&group, &vec![vec![change]], &Vec::new(), &Vec::new()).unwrap();
    assert_eq!(made.header, "@@ -1,0 +1,1 @@");
    assert_eq!(made.rows.len(), 1);
    assert!(made.rows[0].no_newline);
    assert!(hunk(&[], &Vec::new(), &Vec::new(), &Vec::new()).is_none());
}

#[test]
fn a_file_is_viewed_line_by_line() {
    let highlighter = Highlighter::load();
    let file = view(&highlighter, "a.rs", Some("fn a() {}\r\n\n1 < 2"), false);
    assert_eq!(file.state, State::Rendered);
    assert_eq!(file.language, Some("Rust".to_string()));
    assert_eq!(
        file.lines.iter().map(|line| shown(line)).collect::<Vec<_>>(),
        ["fn a() {}", "", "1 < 2"]
    );
    assert!(file.lines[0].starts_with("<span class=\"k\">fn</span>"));
}

#[test]
fn a_trailing_newline_starts_no_line() {
    let highlighter = Highlighter::load();
    let count = |text: &str| view(&highlighter, "a.txt", Some(text), false).lines.len();
    assert_eq!(count("a\n"), 1);
    assert_eq!(count("a"), 1);
    assert_eq!(count("a\n\n"), 2);
    assert_eq!(count("\n"), 1);
    assert_eq!(count(""), 1);
}

#[test]
fn a_view_may_have_nothing_to_show() {
    let highlighter = Highlighter::load();
    let missing = view(&highlighter, "a.rs", None, false);
    assert_eq!((missing.state, missing.lines.len()), (State::Missing, 0));
    let unread = view(&highlighter, "a.rs", None, true);
    assert_eq!((unread.state, unread.lines.len()), (State::Binary, 0));
    let binary = view(&highlighter, "a.bin", Some("x"), true);
    assert_eq!((binary.state, binary.lines.len()), (State::Binary, 0));
    assert_eq!(binary.path, "a.bin");
    assert_eq!(binary.language, None);
}

/// Texts of a few lines drawn from a small alphabet, so that lines repeat.
fn drawn(seed: &mut u64, longest: u64) -> String {
    let mut draw = |below: u64| {
        *seed = seed.wrapping_mul(6364136223846793005).wrapping_add(1442695040888963407);
        (*seed >> 33) % below
    };
    let lines = draw(longest);
    (0..lines).map(|_| format!("line {}\n", draw(6))).collect()
}

#[test]
fn context_shows_what_is_near() {
    let highlighter = Highlighter::load();
    let outline = |file: &FileDiff| -> Vec<(&'static str, Option<u32>, Option<u32>, String)> {
        file.hunks
            .iter()
            .flat_map(|hunk| hunk.rows.iter())
            .map(|row| {
                let html = if row.kind == "ctx" { row.html.clone() } else { String::new() };
                (row.kind, row.old, row.new, html)
            })
            .collect()
    };
    let mut seed = 7;
    for _ in 0..300 {
        let (old, new) = (drawn(&mut seed, 40), drawn(&mut seed, 40));
        let make = |context: Context| {
            let input = Input {
                path: "a.txt",
                old_path: None,
                status: Status::Modified,
                additions: 0,
                deletions: 0,
                old_text: Some(&old),
                new_text: Some(&new),
                binary: false,
            };
            build(&highlighter, input, context)
        };
        let full = outline(&make(Context::Full));
        for n in 0..5 {
            let file = make(Context::Lines(n));
            let near: Vec<_> = (0..full.len())
                .filter(|i| {
                    full.iter().enumerate().any(|(j, row)| row.0 != "ctx" && i.abs_diff(j) <= n)
                })
                .map(|i| full[i].clone())
                .collect();
            assert_eq!(outline(&file), near);
            for hunk in &file.hunks {
                assert!(hunk.rows.iter().any(|row| row.kind != "ctx"));
            }
            assert_eq!(file.hunks.is_empty(), old == new);
        }
    }
}

#[test]
fn hunks_part_where_more_than_both_contexts_lies_between() {
    let text = |between: usize, word: &str| {
        let lines: String = (0..between).map(|i| format!("same {i}\n")).collect();
        format!("{word} a\n{lines}{word} b\n")
    };
    let hunks = |between: usize, n: usize| {
        let (old, new) = (text(between, "old"), text(between, "new"));
        diff(Some(&old), Some(&new), Context::Lines(n)).hunks
    };
    assert_eq!(hunks(6, 3).len(), 1);
    let parted = hunks(7, 3);
    let headers: Vec<_> = parted.iter().map(|hunk| hunk.header.as_str()).collect();
    assert_eq!(headers, ["@@ -1,4 +1,4 @@", "@@ -6,4 +6,4 @@"]);
    assert_eq!(hunks(1, 0).len(), 2);
    assert_eq!(hunks(0, 0).len(), 1);
}

#[test]
fn emphasis_stays_off_line_ends() {
    let file = diff(Some("one two\r\nsame\n"), Some("one three\r\nsame\n"), Context::Full);
    assert_eq!(file.hunks[0].rows[0].html, "one <span class=\"x\">two</span>");
    assert_eq!(file.hunks[0].rows[1].html, "one <span class=\"x\">three</span>");
}
