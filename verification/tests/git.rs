use reviewbuddy::git::{
    is_binary, nul_fields, read_entries, read_stats, sort_and_dedup, sort_entries, FileEntry, Side,
    Status,
};
use reviewbuddy::order::comes_before;

fn texts(list: &[&str]) -> Vec<String> {
    list.iter().map(|s| s.to_string()).collect()
}

fn entry(path: &str, additions: u32) -> FileEntry {
    FileEntry {
        path: path.to_string(),
        old_path: None,
        status: Status::Modified,
        additions,
        deletions: 0,
        binary: false,
    }
}

#[test]
fn status_codes_are_read_by_their_first_letter() {
    for (code, status) in [
        ("A", Status::Added),
        ("M", Status::Modified),
        ("D", Status::Deleted),
        ("R100", Status::Renamed),
        ("C75", Status::Copied),
        ("T", Status::TypeChanged),
        ("U", Status::Modified),
        ("", Status::Modified),
        ("✓", Status::Modified),
    ] {
        assert_eq!(Status::from_code(code), status);
    }
}

#[test]
fn new_and_deleted_files_are_told() {
    assert!(Status::Added.is_new() && Status::Untracked.is_new());
    assert!(!Status::Renamed.is_new() && !Status::Deleted.is_new());
    assert!(Status::Deleted.is_deleted() && !Status::Added.is_deleted());
}

#[test]
fn the_base_path_is_the_old_one() {
    let mut renamed = entry("new", 0);
    assert_eq!(renamed.base_path(), "new");
    renamed.old_path = Some("old".to_string());
    assert_eq!(renamed.base_path(), "old");
}

#[test]
fn records_are_separated_by_nul() {
    assert_eq!(nul_fields(b"a\0b c\0\xc3\xa9\0"), ["a", "b c", "é"]);
    assert_eq!(nul_fields(b"\0\0a\0\0b"), ["a", "b"]);
    assert!(nul_fields(b"").is_empty());
    assert!(nul_fields(b"\0").is_empty());
}

#[test]
fn bytes_that_are_not_text_are_replaced() {
    assert_eq!(nul_fields(b"a\xffb\0"), ["a\u{fffd}b"]);
}

#[test]
fn a_nul_near_the_start_means_binary() {
    assert!(!is_binary(b""));
    assert!(!is_binary(b"text"));
    assert!(is_binary(b"te\0xt"));
    let mut bytes = vec![b'a'; 9000];
    bytes[8000] = 0;
    assert!(!is_binary(&bytes));
    bytes[7999] = 0;
    assert!(is_binary(&bytes));
}

#[test]
fn line_counts_are_read() {
    let stats = read_stats(&texts(&["3\t1\tsrc/a.rs", "-\t-\tlogo.png", "0\t2\tdir/a\tb"]));
    assert_eq!(stats.get("src/a.rs"), Some(&(3, 1, false)));
    assert_eq!(stats.get("logo.png"), Some(&(0, 0, true)));
    assert_eq!(stats.get("dir/a\tb"), Some(&(0, 2, false)));
    assert_eq!(stats.get("other"), None);
}

#[test]
fn line_counts_of_renames_are_under_the_new_path() {
    let stats = read_stats(&texts(&["1\t2\t", "old.rs", "new.rs", "4\t5\tlast.rs"]));
    assert_eq!(stats.get("new.rs"), Some(&(1, 2, false)));
    assert_eq!(stats.get("old.rs"), None);
    assert_eq!(stats.get("last.rs"), Some(&(4, 5, false)));
}

#[test]
fn broken_line_counts_are_read_as_far_as_they_go() {
    let stats = read_stats(&texts(&["garbage", "x", "path"]));
    assert_eq!(stats.get("path"), Some(&(0, 0, false)));
    let stats = read_stats(&texts(&["7\t8"]));
    assert_eq!(stats.get(""), Some(&(7, 8, false)));
    let stats = read_stats(&texts(&["99999999999\t1\ta"]));
    assert_eq!(stats.get("a"), Some(&(0, 1, false)));
}

#[test]
fn changed_files_are_read_with_their_counts() {
    let stats = read_stats(&texts(&["3\t1\ta.rs", "1\t2\t", "old.rs", "new.rs"]));
    let entries = read_entries(&texts(&["M", "a.rs", "R090", "old.rs", "new.rs", "D", "gone"]), stats);
    let read: Vec<_> = entries
        .iter()
        .map(|e| (e.path.as_str(), e.old_path.as_deref(), e.status, e.additions, e.deletions))
        .collect();
    assert_eq!(
        read,
        [
            ("a.rs", None, Status::Modified, 3, 1),
            ("new.rs", Some("old.rs"), Status::Renamed, 1, 2),
            ("gone", None, Status::Deleted, 0, 0),
        ]
    );
}

#[test]
fn line_counts_are_used_once() {
    let stats = read_stats(&texts(&["3\t1\ta"]));
    let entries = read_entries(&texts(&["M", "a", "M", "a"]), stats);
    assert_eq!((entries[0].additions, entries[1].additions), (3, 0));
}

#[test]
fn truncated_lists_end_in_empty_paths() {
    let entries = read_entries(&texts(&["A"]), read_stats(&Vec::new()));
    assert_eq!((entries.len(), entries[0].path.as_str()), (1, ""));
    let entries = read_entries(&texts(&["R100", "old"]), read_stats(&Vec::new()));
    assert_eq!(entries[0].path, "");
    assert_eq!(entries[0].old_path, Some("old".to_string()));
}

#[test]
fn entries_are_sorted_by_path_and_stay_stable() {
    let sorted = sort_entries(vec![
        entry("b", 1),
        entry("a/x", 2),
        entry("b", 3),
        entry("a-x", 4),
        entry("B", 5),
    ]);
    let order: Vec<_> = sorted.iter().map(|e| (e.path.as_str(), e.additions)).collect();
    assert_eq!(order, [("B", 5), ("a-x", 4), ("a/x", 2), ("b", 1), ("b", 3)]);
}

#[test]
fn lists_are_sorted_and_have_no_repeats() {
    let list = texts(&["b", "a", "é", "b", "a/b", "Z", "a"]);
    let mut expected = list.clone();
    expected.sort();
    expected.dedup();
    assert_eq!(sort_and_dedup(list), expected);
    assert!(sort_and_dedup(Vec::new()).is_empty());
}

#[test]
fn texts_are_ordered_as_std_does() {
    let list = ["", "a", "ab", "b", "é", "z", "\u{ffff}", "\u{10000}", "A"];
    for a in list {
        for b in list {
            assert_eq!(comes_before(a, b), a < b);
        }
    }
}

#[test]
fn copies_are_equal() {
    let mut original = entry("a", 9);
    original.old_path = Some("b".to_string());
    assert_eq!(format!("{:?}", original.clone()), format!("{original:?}"));
    assert_eq!(format!("{:?}", Side::Rev("x".to_string()).clone()), "Rev(\"x\")");
}
