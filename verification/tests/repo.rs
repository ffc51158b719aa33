use reviewbuddy::git::{Repo, Side, Status};
use reviewbuddy::session::{Error, GitReply, Halt, Log, ReadReply, Request, Session};

/// Takes work to its end, answering runs of git by `git` and reads by `read`.
fn drive<T>(
    git: impl Fn(&[&str]) -> GitReply,
    read: impl Fn(&str) -> ReadReply,
    work: impl Fn(&mut Session<'_>) -> Result<T, Halt>,
) -> Result<T, Error> {
    let mut log = Log::new();
    loop {
        let request = match work(&mut Session::new(&log)) {
            Ok(value) => return Ok(value),
            Err(Halt::Fail(error)) => return Err(error),
            Err(Halt::Ask(request)) => request,
        };
        match request {
            Request::Git { dir, args } => {
                assert_eq!(dir, "/work/repo");
                assert_eq!(args[0], "--no-optional-locks");
                let args: Vec<&str> = args[1..].iter().map(|arg| arg.as_str()).collect();
                log.git.push(git(&args));
            }
            Request::Read(paths) => {
                for path in paths {
                    log.reads.push(read(&path));
                }
            }
            _ => panic!("unexpected question"),
        }
    }
}

fn repo() -> Repo {
    Repo { root: "/work/repo".to_string() }
}

fn output(bytes: &str) -> GitReply {
    GitReply::Output(bytes.as_bytes().to_vec())
}

fn failed() -> GitReply {
    GitReply::Failed(b"fatal: no\n".to_vec())
}

fn unread(path: &str) -> ReadReply {
    panic!("{path} was read")
}

fn named(root: &str) -> String {
    Repo { root: root.to_string() }.name()
}

#[test]
fn the_root_is_what_git_says() {
    let found = drive(
        |args| {
            assert_eq!(args, ["rev-parse", "--show-toplevel"]);
            output("/home/me/project\n")
        },
        unread,
        |session| Repo::discover(session, "/work/repo"),
    );
    assert_eq!(found.unwrap().root, "/home/me/project");
}

#[test]
fn outside_a_repository_nothing_is_found() {
    for reply in [failed as fn() -> GitReply, || output(" \n"), || GitReply::NotRun("x".into())] {
        let error = drive(|_| reply(), unread, |session| Repo::discover(session, "/work/repo"));
        let error = error.unwrap_err();
        assert_eq!(error.message, "not inside a git repository: /work/repo");
        assert_eq!(error.cause, None);
    }
}

#[test]
fn the_name_is_that_of_the_directory() {
    assert_eq!(named("/home/me/project"), "project");
    assert_eq!(named("/home/me/project/"), "project");
    assert_eq!(named("/home/me/project/."), "project");
    assert_eq!(named("project"), "project");
    assert_eq!(named("/"), "/");
    assert_eq!(named("/home/.."), "/home/..");
    assert_eq!(named("."), ".");
    assert_eq!(named(""), "");
}

#[test]
fn the_branch_is_what_git_says() {
    let branch = drive(
        |args| {
            assert_eq!(args, ["symbolic-ref", "--quiet", "--short", "HEAD"]);
            output("feature/x\n")
        },
        unread,
        |session| repo().current_branch(session),
    );
    assert_eq!(branch.unwrap(), Some("feature/x".to_string()));
    let branch = drive(|_| failed(), unread, |session| repo().current_branch(session));
    assert_eq!(branch.unwrap(), None);
}

#[test]
fn names_are_resolved_as_they_are_first() {
    let sha = drive(
        |args| {
            assert_eq!(args, ["rev-parse", "--verify", "--quiet", "v1^{commit}"]);
            output("abc\n")
        },
        unread,
        |session| repo().resolve(session, "v1"),
    );
    assert_eq!(sha.unwrap(), "abc");
}

#[test]
fn names_are_resolved_on_the_remote_next() {
    let sha = drive(
        |args| match args[3] {
            "topic^{commit}" => failed(),
            "origin/topic^{commit}" => output("def\n"),
            other => panic!("{other}"),
        },
        unread,
        |session| repo().resolve(session, "topic"),
    );
    assert_eq!(sha.unwrap(), "def");
}

#[test]
fn names_that_are_nowhere_are_refused() {
    let error = drive(|_| output("\n"), unread, |session| repo().resolve(session, "nope"));
    assert_eq!(
        error.unwrap_err().message,
        "cannot resolve 'nope' to a commit (tried 'nope' and 'origin/nope')"
    );
}

#[test]
fn the_remote_names_the_base() {
    let base = drive(
        |args| {
            assert_eq!(args, ["symbolic-ref", "--quiet", "--short", "refs/remotes/origin/HEAD"]);
            output("origin/trunk\n")
        },
        unread,
        |session| repo().default_base(session),
    );
    assert_eq!(base.unwrap(), "trunk");
}

#[test]
fn the_base_has_a_usual_name() {
    let base = |found: &'static str, head: fn() -> GitReply| {
        drive(
            |args| match (args[0], args.last()) {
                ("symbolic-ref", _) => head(),
                (_, Some(rev)) if *rev == format!("{found}^{{commit}}") => output("abc\n"),
                _ => failed(),
            },
            unread,
            |session| repo().default_base(session),
        )
        .unwrap()
    };
    assert_eq!(base("main", failed), "main");
    assert_eq!(base("master", failed), "master");
    assert_eq!(base("origin/develop", || output("upstream/trunk\n")), "develop");
    assert_eq!(base("nothing", failed), "main");
}

#[test]
fn histories_part_where_git_says() {
    let base = drive(
        |args| {
            assert_eq!(args, ["merge-base", "a", "b"]);
            output("c\n")
        },
        unread,
        |session| repo().merge_base(session, "a", "b"),
    );
    assert_eq!(base.unwrap(), "c");
    let error = drive(|_| failed(), unread, |session| repo().merge_base(session, "a", "b"));
    assert_eq!(error.unwrap_err().message, "'a' and 'b' have no common ancestor");
}

#[test]
fn commits_are_described() {
    let info = drive(
        |args| {
            assert_eq!(args, ["log", "-1", "--format=%h%x1f%s", "abcdef"]);
            output("abc\u{1f}Fix: a\u{1f}b\n")
        },
        unread,
        |session| repo().describe(session, "main", "abcdef"),
    )
    .unwrap();
    assert_eq!((info.label.as_str(), info.sha.as_str()), ("main", "abcdef"));
    assert_eq!((info.short.as_str(), info.subject.as_str()), ("abc", "Fix: a\u{1f}b"));
    let info = drive(|_| output("odd"), unread, |s| repo().describe(s, "l", "x")).unwrap();
    assert_eq!((info.short.as_str(), info.subject.as_str()), ("odd", ""));
    let info = drive(|_| failed(), unread, |s| repo().describe(s, "l", "x")).unwrap();
    assert_eq!((info.short.as_str(), info.subject.as_str()), ("", ""));
}

#[test]
fn paths_are_joined_below_the_root() {
    assert_eq!(repo().safe_join("src/a.rs").unwrap(), "/work/repo/src/a.rs");
    assert_eq!(repo().safe_join("").unwrap(), "/work/repo/");
    assert_eq!(repo().safe_join("a..b/...").unwrap(), "/work/repo/a..b/...");
    assert_eq!(Repo { root: "/".to_string() }.safe_join("a").unwrap(), "/a");
}

#[test]
fn paths_that_escape_are_refused() {
    for path in ["/etc/passwd", "..", "../x", "a/../b", "a/..", "a/../../b"] {
        let error = repo().safe_join(path).unwrap_err();
        assert_eq!(error.message, format!("path escapes the repository: {path}"));
        let error = drive(|_| failed(), unread, |s| {
            repo().read(s, &Side::Worktree, path).map(|found| found.cloned())
        });
        assert_eq!(error.unwrap_err().message, format!("path escapes the repository: {path}"));
    }
}

#[test]
fn committed_files_are_shown_by_git() {
    let side = Side::Rev("abc".to_string());
    let content = drive(
        |args| {
            assert_eq!(args, ["show", "abc:dir/a.rs"]);
            output("text")
        },
        unread,
        |session| repo().read(session, &side, "dir/a.rs").map(|found| found.cloned()),
    );
    assert_eq!(content.unwrap(), Some(b"text".to_vec()));
    let content = drive(|_| failed(), unread, |session| {
        repo().read(session, &side, "gone").map(|found| found.cloned())
    });
    assert_eq!(content.unwrap(), None);
}

#[test]
fn nothing_is_known_of_a_file_where_git_does_not_run() {
    let side = Side::Rev("abc".to_string());
    let error = drive(
        |_| GitReply::NotRun("No such file".to_string()),
        unread,
        |session| repo().read(session, &side, "a.rs").map(|found| found.cloned()),
    )
    .unwrap_err();
    assert_eq!(error.full(), "failed to run git; is it installed and on PATH?: No such file");
}

#[test]
fn the_first_parent_is_found() {
    let parent = drive(
        |args| {
            assert_eq!(args, ["rev-parse", "--verify", "--quiet", "abc^1"]);
            output("def\n")
        },
        unread,
        |session| repo().first_parent(session, "abc"),
    );
    assert_eq!(parent.unwrap(), "def");
    let parent = drive(|_| failed(), unread, |session| repo().first_parent(session, "abc"));
    assert_eq!(parent.unwrap(), "4b825dc642cb6eb9a060e54bf8d69288fbee4904");
}

#[test]
fn files_on_disk_are_read() {
    let read = |reply: fn() -> ReadReply| {
        drive(
            |_| failed(),
            |path| {
                assert_eq!(path, "/work/repo/a.rs");
                reply()
            },
            |session| {
                repo().read(session, &Side::Worktree, "a.rs").map(|found| found.cloned())
            },
        )
    };
    assert_eq!(read(|| ReadReply::Content(b"x".to_vec())).unwrap(), Some(b"x".to_vec()));
    assert_eq!(read(|| ReadReply::Missing).unwrap(), None);
    let error = read(|| ReadReply::Failed("permission denied".to_string())).unwrap_err();
    assert_eq!(error.message, "reading /work/repo/a.rs");
    assert_eq!(error.full(), "reading /work/repo/a.rs: permission denied");
}

#[test]
fn files_are_listed_in_order() {
    let files = drive(
        |args| {
            assert_eq!(args, ["ls-tree", "-r", "--name-only", "-z", "abc"]);
            output("b\0a\0b\0")
        },
        unread,
        |session| repo().list_files(session, &Side::Rev("abc".to_string())),
    );
    assert_eq!(files.unwrap(), ["a", "b"]);
    let files = drive(
        |args| {
            assert_eq!(args, ["ls-files", "--cached", "--others", "--exclude-standard", "-z"]);
            output("z\0")
        },
        unread,
        |session| repo().list_files(session, &Side::Worktree),
    );
    assert_eq!(files.unwrap(), ["z"]);
}

#[test]
fn failures_of_git_are_told() {
    let error = drive(
        |_| GitReply::Failed(b"\n fatal: bad \xff object\n\n".to_vec()),
        unread,
        |session| repo().list_files(session, &Side::Rev("abc".to_string())),
    )
    .unwrap_err();
    assert_eq!(
        error.message,
        "git ls-tree -r --name-only -z abc failed: fatal: bad \u{fffd} object"
    );
    let error = drive(
        |_| GitReply::NotRun("No such file or directory".to_string()),
        unread,
        |session| repo().list_files(session, &Side::Worktree),
    )
    .unwrap_err();
    assert_eq!(error.message, "failed to run git; is it installed and on PATH?");
    assert_eq!(
        error.full(),
        "failed to run git; is it installed and on PATH?: No such file or directory"
    );
}

#[test]
fn changes_between_commits_are_listed() {
    let files = drive(
        |args| match args {
            ["diff", "--numstat", "--find-renames", "-z", "base", "head"] => {
                output("1\t0\tz.rs\x000\t3\t\0a.rs\0b.rs\0-\t-\tlogo.png\0")
            }
            ["diff", "--name-status", "--find-renames", "-z", "base", "head"] => {
                output("A\0z.rs\0R100\0a.rs\0b.rs\0M\0logo.png\0")
            }
            other => panic!("{other:?}"),
        },
        unread,
        |session| repo().changed_files(session, "base", &Side::Rev("head".to_string())),
    )
    .unwrap();
    let listed: Vec<_> = files
        .iter()
        .map(|f| (f.path.as_str(), f.old_path.as_deref(), f.status, f.additions, f.deletions, f.binary))
        .collect();
    assert_eq!(
        listed,
        [
            ("b.rs", Some("a.rs"), Status::Renamed, 0, 3, false),
            ("logo.png", None, Status::Modified, 0, 0, true),
            ("z.rs", None, Status::Added, 1, 0, false),
        ]
    );
}

#[test]
fn untracked_files_are_additions() {
    let files = drive(
        |args| match args {
            ["diff", "--numstat", "--find-renames", "-z", "base"] => output("2\t2\tm.rs\0"),
            ["diff", "--name-status", "--find-renames", "-z", "base"] => output("M\0m.rs\0"),
            ["ls-files", "--others", "--exclude-standard", "-z"] => {
                output("u.txt\0bin\0../out\0gone\0locked\0")
            }
            other => panic!("{other:?}"),
        },
        |path| match path {
            "/work/repo/u.txt" => ReadReply::Content(b"1\n2\n3".to_vec()),
            "/work/repo/bin" => ReadReply::Content(b"\0\n".to_vec()),
            "/work/repo/gone" => ReadReply::Missing,
            "/work/repo/locked" => ReadReply::Failed("no".to_string()),
            other => panic!("{other}"),
        },
        |session| repo().changed_files(session, "base", &Side::Worktree),
    )
    .unwrap();
    let listed: Vec<_> =
        files.iter().map(|f| (f.path.as_str(), f.status, f.additions, f.binary)).collect();
    assert_eq!(
        listed,
        [
            ("../out", Status::Untracked, 0, false),
            ("bin", Status::Untracked, 0, true),
            ("gone", Status::Untracked, 0, false),
            ("locked", Status::Untracked, 0, false),
            ("m.rs", Status::Modified, 2, false),
            ("u.txt", Status::Untracked, 3, false),
        ]
    );
}

#[test]
fn a_failing_comparison_fails() {
    let error = drive(
        |args| {
            if args[1] == "--numstat" {
                output("")
            } else {
                failed()
            }
        },
        unread,
        |session| repo().changed_files(session, "base", &Side::Worktree),
    )
    .unwrap_err();
    assert_eq!(
        error.message,
        "git diff --name-status --find-renames -z base failed: fatal: no"
    );
}
