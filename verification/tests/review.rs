use std::cell::RefCell;

use reviewbuddy::git::{FileEntry, Side};
use reviewbuddy::review::{address, banner, run, Options};
use reviewbuddy::server::App;
use reviewbuddy::session::{Error, GitReply, Halt, Log, ReadReply, Request, Session};

fn start(
    options: &Options,
    git: impl Fn(&str) -> Option<&'static str>,
) -> (Result<(App, Vec<FileEntry>), Error>, Vec<String>) {
    let mut log = Log::new();
    let asked = RefCell::new(Vec::new());
    loop {
        match run(&mut Session::new(&log), "/work/repo/src", options) {
            Ok(started) => return (Ok(started), asked.into_inner()),
            Err(Halt::Fail(error)) => return (Err(error), asked.into_inner()),
            Err(Halt::Ask(Request::Git { dir, args })) => {
                let args = args[1..].join(" ");
                let expected = if args.starts_with("rev-parse --show") { "/work/repo/src" } else { "/work/repo" };
                assert_eq!(dir, expected);
                log.git.push(match git(&args) {
                    Some(out) => GitReply::Output(out.as_bytes().to_vec()),
                    None => GitReply::Failed(b"fatal".to_vec()),
                });
                asked.borrow_mut().push(args);
            }
            Err(Halt::Ask(Request::Read(paths))) => {
                for _ in paths {
                    log.reads.push(ReadReply::Content(b"1\n".to_vec()));
                }
            }
            Err(Halt::Ask(Request::Store(key, _))) => {
                asked.borrow_mut().push(format!("store {key}"));
                log.stores += 1;
            }
            Err(Halt::Ask(_)) => panic!(),
        }
    }
}

fn options(base: Option<&str>, head: Option<&str>, no_merge_base: bool) -> Options {
    Options {
        base: base.map(str::to_string),
        head: head.map(str::to_string),
        no_merge_base,
        context: 4,
    }
}

fn git(args: &str) -> Option<&'static str> {
    Some(match args {
        "rev-parse --show-toplevel" => "/work/repo\n",
        "symbolic-ref --quiet --short refs/remotes/origin/HEAD" => "origin/trunk\n",
        "symbolic-ref --quiet --short HEAD" => "topic\n",
        "rev-parse --verify --quiet trunk^{commit}" => "t1\n",
        "rev-parse --verify --quiet HEAD^{commit}" => "h1\n",
        "rev-parse --verify --quiet v2^{commit}" => "v2\n",
        "rev-parse --verify --quiet v1^{commit}" => "v1\n",
        "merge-base t1 h1" => "m1\n",
        "merge-base v1 v2" => "v1\n",
        "merge-base v2 v1" => "v1\n",
        "log -1 --format=%h%x1f%s m1" => "m\u{1f}Merge\n",
        "log -1 --format=%h%x1f%s h1" => "h\u{1f}Head\n",
        "log -1 --format=%h%x1f%s v1" => "one\u{1f}One\n",
        "log -1 --format=%h%x1f%s v2" => "two\u{1f}Two\n",
        "diff --numstat --find-renames -z m1" => "",
        "diff --name-status --find-renames -z m1" => "",
        "ls-files --others --exclude-standard -z" => "new\0",
        "diff --numstat --find-renames -z v1 v2" => "1\t1\ta\x002\t2\tb\0",
        "diff --name-status --find-renames -z v1 v2" => "M\0a\0M\0b\0",
        _ => return None,
    })
}

#[test]
fn the_working_tree_is_reviewed_from_where_it_parted() {
    let (started, asked) = start(&options(None, None, false), git);
    let (app, files) = started.unwrap();
    assert_eq!((app.repo.root.as_str(), app.base.as_str()), ("/work/repo", "m1"));
    assert!(matches!(app.head, Side::Worktree));
    assert_eq!((app.base_info.label.as_str(), app.base_info.short.as_str()), ("trunk", "m"));
    assert_eq!((app.head_info.label.as_str(), app.head_info.sha.as_str()), ("topic", "h1"));
    assert_eq!((app.merge_base, app.context), (true, 4));
    assert_eq!(files.len(), 1);
    assert_eq!(asked.last().unwrap(), "store m1..worktree");
}

#[test]
fn commits_are_reviewed() {
    let (started, asked) = start(&options(Some("v1"), Some("v2"), false), git);
    let (app, files) = started.unwrap();
    assert_eq!(app.base, "v1");
    assert!(matches!(&app.head, Side::Rev(rev) if rev == "v2"));
    assert_eq!(files.len(), 2);
    assert!(!asked.iter().any(|args| args.starts_with("symbolic-ref")));
}

#[test]
fn the_base_itself_can_be_compared_with() {
    let (started, asked) = start(&options(Some("v1"), Some("v2"), true), git);
    let (app, _) = started.unwrap();
    assert_eq!((app.base.as_str(), app.merge_base), ("v1", false));
    assert!(!asked.iter().any(|args| args.starts_with("merge-base")));
}

#[test]
fn a_detached_head_is_called_head() {
    let (started, _) = start(&options(None, None, false), |args| {
        if args == "symbolic-ref --quiet --short HEAD" {
            None
        } else {
            git(args)
        }
    });
    assert_eq!(started.unwrap().0.head_info.label, "HEAD");
}

#[test]
fn there_must_be_something_to_review() {
    let (started, _) = start(&options(Some("v2"), Some("v1"), false), git);
    assert_eq!(
        started.unwrap_err().message,
        "'v2' and 'v1' are the same commit; there is nothing to review"
    );
}

#[test]
fn reviews_fail_where_git_cannot_help() {
    let (started, _) = start(&options(None, None, false), |_| None);
    assert_eq!(
        started.unwrap_err().message,
        "not inside a git repository: /work/repo/src"
    );
    let (started, _) = start(&options(Some("x"), None, false), git);
    assert_eq!(
        started.unwrap_err().full(),
        "cannot resolve 'x' to a commit (tried 'x' and 'origin/x')"
    );
    let (started, _) = start(&options(Some("v1"), None, false), git);
    assert_eq!(started.unwrap_err().message, "'v1' and 'h1' have no common ancestor");
}

#[test]
fn the_banner_tells_what_is_reviewed() {
    let (started, _) = start(&options(None, None, false), git);
    let (app, files) = started.unwrap();
    assert_eq!(
        banner(&app, files.len(), &address(8080)),
        "reviewbuddy  repo\n  base  trunk  m\n  head  topic  h  + working tree\n  1 file changed\n\n  http://127.0.0.1:8080\n\n"
    );
    let (started, _) = start(&options(Some("v1"), Some("v2"), false), git);
    let (app, files) = started.unwrap();
    assert_eq!(
        banner(&app, files.len(), &address(0)),
        "reviewbuddy  repo\n  base  v1  one\n  head  v2  two\n  2 files changed\n\n  http://127.0.0.1:0\n\n"
    );
}
