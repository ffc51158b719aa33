use std::cell::RefCell;
use std::collections::BTreeMap;

use reviewbuddy::diff::{Context, State};
use reviewbuddy::git::{FileEntry, RefInfo, Repo, Side, Status};
use reviewbuddy::highlight::Highlighter;
use reviewbuddy::server::{
    decode, file_diff, finish, parse_query, require, respond, route, Answer, App, Assets,
    Comparison, FileCache, Job, Reply,
};
use reviewbuddy::session::{GitReply, Halt, Log, ReadReply, Request, Session};

/// A world that answers questions, and notes them.
struct World {
    git: BTreeMap<String, String>,
    files: BTreeMap<String, String>,
    cache: RefCell<FileCache>,
    asked: RefCell<Vec<String>>,
}

impl World {
    fn new(git: &[(&str, &str)]) -> World {
        World {
            git: git.iter().map(|(args, out)| (args.to_string(), out.to_string())).collect(),
            files: BTreeMap::new(),
            cache: RefCell::new(FileCache::new()),
            asked: RefCell::new(Vec::new()),
        }
    }

    fn answer(&self, request: Request, log: &mut Log) {
        match request {
            Request::Git { args, .. } => {
                let args = args[1..].join(" ");
                self.asked.borrow_mut().push(args.clone());
                log.git.push(match self.git.get(&args) {
                    Some(out) => GitReply::Output(out.as_bytes().to_vec()),
                    None => GitReply::Failed(b"fatal: no".to_vec()),
                });
            }
            Request::Read(paths) => {
                for path in paths {
                    self.asked.borrow_mut().push(format!("read {path}"));
                    log.reads.push(match self.files.get(&path) {
                        Some(content) => ReadReply::Content(content.as_bytes().to_vec()),
                        None => ReadReply::Missing,
                    });
                }
            }
            Request::Lookup(key) => {
                self.asked.borrow_mut().push(format!("lookup {key}"));
                log.lookups.push(self.cache.borrow().get(&key));
            }
            Request::Store(key, entries) => {
                self.asked.borrow_mut().push(format!("store {key}"));
                self.cache.borrow_mut().insert(key, entries);
                log.stores += 1;
            }
        }
    }

    fn drive<T>(&self, work: impl Fn(&mut Session<'_>) -> Result<T, Halt>) -> Result<T, String> {
        let mut log = Log::new();
        loop {
            match work(&mut Session::new(&log)) {
                Ok(value) => return Ok(value),
                Err(Halt::Fail(error)) => return Err(error.message),
                Err(Halt::Ask(request)) => self.answer(request, &mut log),
            }
        }
    }

    fn get(&self, app: &App, url: &str) -> Answer {
        let highlighter = Highlighter::load();
        let assets = assets();
        self.drive(|session| respond(app, &assets, &highlighter, session, url)).unwrap()
    }

    fn reply(&self, app: &App, url: &str) -> Reply {
        match self.get(app, url) {
            Answer::Ready(reply) => reply,
            _ => panic!("{url} was not answered at once"),
        }
    }
}

fn assets() -> Assets {
    Assets {
        index_html: "<html>é".to_string(),
        app_js: "js".to_string(),
        style_css: "css".to_string(),
        font_regular: vec![1],
        font_italic: vec![2, 0],
        font_bold: vec![3],
    }
}

fn info(label: &str) -> RefInfo {
    RefInfo {
        label: label.to_string(),
        sha: format!("{label}-sha"),
        short: "s".to_string(),
        subject: "t".to_string(),
    }
}

fn app(head: Side) -> App {
    let repo = Repo { root: "/work/repo".to_string() };
    App::new(repo, "base".to_string(), head, info("main"), info("topic"), true, 5)
}

fn text(reply: &Reply) -> (u16, String) {
    (reply.status, String::from_utf8(reply.body.clone()).unwrap())
}

fn worktree() -> World {
    let mut world = World::new(&[
        ("diff --numstat --find-renames -z base", "1\t1\ta.rs\0"),
        ("diff --name-status --find-renames -z base", "M\0a.rs\0"),
        ("ls-files --others --exclude-standard -z", "new.txt\0"),
        ("ls-files --cached --others --exclude-standard -z", "new.txt\0a.rs\0"),
        ("show base:a.rs", "fn a() {}\n"),
        ("symbolic-ref --quiet --short HEAD", "topic\n"),
    ]);
    world.files.insert("/work/repo/a.rs".to_string(), "fn b() {}\n".to_string());
    world.files.insert("/work/repo/new.txt".to_string(), "x\ny\n".to_string());
    world
}

fn commits() -> World {
    World::new(&[
        ("rev-parse --verify --quiet abc^{commit}", "abcdef\n"),
        ("rev-parse --verify --quiet abcdef^1", "parent\n"),
        ("diff --numstat --find-renames -z parent abcdef", "0\t1\tgone.rs\0"),
        ("diff --name-status --find-renames -z parent abcdef", "D\0gone.rs\0"),
        ("show parent:gone.rs", "old\n"),
        ("log -1 --format=%h%x1f%s parent", "par\u{1f}Before\n"),
        ("log -1 --format=%h%x1f%s abcdef", "abc\u{1f}Remove\n"),
        ("ls-tree -r --name-only -z abcdef", "k\0j\0"),
    ])
}

#[test]
fn keys_tell_comparisons_apart() {
    let key = |base: &str, head: Side| Comparison { base: base.to_string(), head }.key();
    assert_eq!(key("a", Side::Rev("b".to_string())), "a..b");
    assert_eq!(key("a", Side::Worktree), "a..worktree");
    assert_ne!(key("a", Side::Rev("b".to_string())), key("a", Side::Rev("c".to_string())));
    assert_ne!(key("a", Side::Worktree), key("b", Side::Worktree));
}

#[test]
fn queries_are_read() {
    let params = parse_query("path=a%20b%2Fc&ctx=full&&empty=&novalue&=nokey&x=1=2");
    assert_eq!(params.get("path"), Some(&"a b/c".to_string()));
    assert_eq!(params.get("ctx"), Some(&"full".to_string()));
    assert_eq!(params.get("empty"), Some(&String::new()));
    assert_eq!(params.get("novalue"), None);
    assert_eq!(params.get(""), Some(&"nokey".to_string()));
    assert_eq!(params.get("x"), Some(&"1=2".to_string()));
    assert!(parse_query("").get("").is_none());
}

#[test]
fn values_are_percent_decoded() {
    let value = |raw: &str| parse_query(&format!("v={raw}")).get("v").cloned();
    assert_eq!(value("%C3%A9"), Some("é".to_string()));
    assert_eq!(value("%41%6a%6A"), Some("Ajj".to_string()));
    assert_eq!(value("100%"), Some("100%".to_string()));
    assert_eq!(value("%4"), Some("%4".to_string()));
    assert_eq!(value("%zz%41"), Some("%zzA".to_string()));
    assert_eq!(value("%25%34%31"), Some("%41".to_string()));
    assert_eq!(value("a+b"), Some("a+b".to_string()));
    assert_eq!(value("%ff"), None);
    assert_eq!(value("é✓"), Some("é✓".to_string()));
}

#[test]
fn keys_are_not_decoded_and_the_last_value_counts() {
    let params = parse_query("a%20b=1&k=1&k=2");
    assert_eq!(params.get("a%20b"), Some(&"1".to_string()));
    assert_eq!(params.get("k"), Some(&"2".to_string()));
}

#[test]
fn required_parameters_must_be_given() {
    let params = parse_query("path=a&empty=");
    assert_eq!(require(&params, "path").unwrap(), "a");
    assert_eq!(require(&params, "empty").unwrap_err().message, "missing 'empty' parameter");
    assert_eq!(require(&params, "other").unwrap_err().message, "missing 'other' parameter");
}

#[test]
fn blobs_are_text_or_binary() {
    assert_eq!(decode(None), (None, false));
    assert_eq!(decode(Some(&"é\n".as_bytes().to_vec())), (Some("é\n".to_string()), false));
    assert_eq!(decode(Some(&b"a\0b".to_vec())), (None, true));
    assert_eq!(decode(Some(&b"a\xffb".to_vec())), (None, true));
    assert_eq!(decode(Some(&Vec::new())), (Some(String::new()), false));
}

#[test]
fn assets_are_served() {
    let world = World::new(&[]);
    let app = app(Side::Worktree);
    for (url, content_type, body) in [
        ("/", "text/html; charset=utf-8", "<html>é"),
        ("/index.html?x=1", "text/html; charset=utf-8", "<html>é"),
        ("/app.js", "text/javascript; charset=utf-8", "js"),
        ("/style.css", "text/css; charset=utf-8", "css"),
    ] {
        let reply = world.reply(&app, url);
        assert_eq!((reply.status, reply.content_type, reply.cache), (200, content_type, "no-store"));
        assert_eq!(reply.body, body.as_bytes());
    }
    for (url, body) in [
        ("/fonts/JetBrainsMono-Regular.woff2", vec![1u8]),
        ("/fonts/JetBrainsMono-Italic.woff2", vec![2, 0]),
        ("/fonts/JetBrainsMono-Bold.woff2", vec![3]),
    ] {
        let reply = world.reply(&app, url);
        assert_eq!((reply.status, reply.content_type), (200, "font/woff2"));
        assert_eq!(reply.cache, "public, max-age=604800, immutable");
        assert_eq!(reply.body, body);
    }
    assert!(world.asked.borrow().is_empty());
}

#[test]
fn other_paths_are_not_found() {
    let world = World::new(&[]);
    for url in ["/nope", "", "/api", "/API/meta", "/api/meta/"] {
        let reply = world.reply(&app(Side::Worktree), url);
        assert_eq!(text(&reply), (404, "{\"error\":\"no such endpoint\"}".to_string()));
        assert_eq!((reply.content_type, reply.cache), ("application/json", "no-store"));
    }
    assert!(world.asked.borrow().is_empty());
}

#[test]
fn errors_are_json() {
    let message = "a \"b\" \\ / \u{8}\t\n\u{c}\r\u{1}\u{1f} é\u{7f}";
    let reply = Reply::error(418, message);
    assert_eq!(
        text(&reply),
        (
            418,
            "{\"error\":\"a \\\"b\\\" \\\\ / \\b\\t\\n\\f\\r\\u0001\\u001f é\u{7f}\"}".to_string()
        )
    );
    let value: serde_json::Value = serde_json::from_slice(&reply.body).unwrap();
    assert_eq!(value["error"], message);
}

#[test]
fn serialized_data_is_sent() {
    let reply = Reply::json(Ok(b"[1]".to_vec()));
    assert_eq!((text(&reply), reply.content_type), ((200, "[1]".to_string()), "application/json"));
    let reply = Reply::json(Err("too deep".to_string()));
    assert_eq!(text(&reply), (500, "{\"error\":\"too deep\"}".to_string()));
}

#[test]
fn meta_describes_the_branches() {
    let world = worktree();
    let meta = match world.get(&app(Side::Worktree), "/api/meta") {
        Answer::Meta(meta) => meta,
        _ => panic!(),
    };
    assert_eq!((meta.repo.as_str(), meta.branch.as_deref()), ("repo", Some("topic")));
    assert_eq!((meta.base.label.as_str(), meta.head.label.as_str()), ("main", "topic"));
    assert_eq!((meta.merge_base, meta.worktree, meta.context), (true, true, 5));
    let files: Vec<_> = meta.files.iter().map(|f| (f.path.as_str(), f.status, f.additions)).collect();
    assert_eq!(files, [("a.rs", Status::Modified, 1), ("new.txt", Status::Untracked, 2)]);
    assert!(world.asked.borrow().contains(&"store base..worktree".to_string()));
    assert!(!world.asked.borrow().contains(&"lookup base..worktree".to_string()));
}

#[test]
fn meta_describes_a_commit() {
    let world = commits();
    let meta = match world.get(&app(Side::Worktree), "/api/meta?commit=abc") {
        Answer::Meta(meta) => meta,
        _ => panic!(),
    };
    assert_eq!((meta.base.label.as_str(), meta.base.subject.as_str()), ("parent", "Before"));
    assert_eq!((meta.head.label.as_str(), meta.head.subject.as_str()), ("abc", "Remove"));
    assert_eq!((meta.merge_base, meta.worktree, meta.branch), (false, false, None));
    assert_eq!(meta.files.len(), 1);
    assert_eq!(world.asked.borrow()[1], "rev-parse --verify --quiet abcdef^1");
}

#[test]
fn an_empty_commit_is_the_branch_comparison() {
    let world = World::new(&[
        ("diff --numstat --find-renames -z base head", ""),
        ("diff --name-status --find-renames -z base head", ""),
        ("log -1 --format=%h%x1f%s base", "b\u{1f}Base\n"),
        ("log -1 --format=%h%x1f%s head", "h\u{1f}Head\n"),
    ]);
    for url in ["/api/meta?commit=", "/api/meta"] {
        let meta = match world.get(&app(Side::Rev("head".to_string())), url) {
            Answer::Meta(meta) => meta,
            _ => panic!(),
        };
        assert_eq!((meta.base.label.as_str(), meta.head.label.as_str()), ("main", "topic"));
        assert!(meta.merge_base);
    }
}

#[test]
fn a_commit_without_a_parent_is_compared_with_nothing() {
    let empty = "4b825dc642cb6eb9a060e54bf8d69288fbee4904";
    let world = World::new(&[
        ("rev-parse --verify --quiet one^{commit}", "111\n"),
        (format!("diff --numstat --find-renames -z {empty} 111").as_str(), "1\t0\ta\0"),
        (format!("diff --name-status --find-renames -z {empty} 111").as_str(), "A\0a\0"),
    ]);
    match world.get(&app(Side::Worktree), "/api/meta?commit=one") {
        Answer::Meta(meta) => {
            assert_eq!((meta.base.sha.as_str(), meta.files.len()), (empty, 1));
            assert_eq!(meta.files[0].status, Status::Added);
        }
        _ => panic!(),
    }
}

#[test]
fn an_unknown_commit_is_refused() {
    let world = World::new(&[]);
    let reply = world.reply(&app(Side::Worktree), "/api/tree?commit=nope");
    assert_eq!(
        text(&reply),
        (
            400,
            "{\"error\":\"cannot resolve 'nope' to a commit (tried 'nope' and 'origin/nope')\"}"
                .to_string()
        )
    );
}

#[test]
fn differences_are_rendered() {
    let world = worktree();
    let file = match world.get(&app(Side::Worktree), "/api/diff?path=a.rs&ctx=0") {
        Answer::Diff(file) => file,
        _ => panic!(),
    };
    assert_eq!((file.path.as_str(), file.state), ("a.rs", State::Rendered));
    assert_eq!(file.hunks[0].header, "@@ -1,1 +1,1 @@");
    assert_eq!(file.language, Some("Rust".to_string()));
    assert_eq!((file.additions, file.deletions), (1, 1));
}

#[test]
fn a_new_file_has_no_base_side() {
    let world = worktree();
    let file = match world.get(&app(Side::Worktree), "/api/diff?path=new.txt") {
        Answer::Diff(file) => file,
        _ => panic!(),
    };
    assert_eq!(file.hunks[0].header, "@@ -1,0 +1,2 @@");
    assert!(!world.asked.borrow().contains(&"show base:new.txt".to_string()));
}

#[test]
fn a_deleted_file_has_no_head_side() {
    let world = commits();
    let file = match world.get(&app(Side::Worktree), "/api/diff?path=gone.rs&commit=abc") {
        Answer::Diff(file) => file,
        _ => panic!(),
    };
    assert_eq!(file.hunks[0].header, "@@ -1,1 +1,0 @@");
    assert!(!world.asked.borrow().iter().any(|asked| asked == "show abcdef:gone.rs"));
}

#[test]
fn differences_use_what_was_kept() {
    let world = worktree();
    let app = app(Side::Worktree);
    world.get(&app, "/api/diff?path=a.rs");
    let asked = world.asked.borrow().len();
    world.get(&app, "/api/diff?path=a.rs");
    let again: Vec<String> = world.asked.borrow()[asked..].to_vec();
    assert_eq!(again, ["lookup base..worktree", "show base:a.rs", "read /work/repo/a.rs"]);
}

#[test]
fn the_context_of_a_difference_is_asked_for() {
    let world = worktree();
    let app = app(Side::Worktree);
    let context = |query: &str| {
        world.drive(|session| file_diff(&app, session, &parse_query(query))).unwrap().context
    };
    assert_eq!(context("path=a.rs"), Context::Lines(3));
    assert_eq!(context("path=a.rs&ctx=full"), Context::Full);
    assert_eq!(context("path=a.rs&ctx=999"), Context::Lines(200));
}

#[test]
fn a_file_outside_the_comparison_is_refused() {
    let reply = worktree().reply(&app(Side::Worktree), "/api/diff?path=other.rs");
    assert_eq!(
        text(&reply),
        (400, "{\"error\":\"'other.rs' is not part of this comparison\"}".to_string())
    );
}

#[test]
fn a_path_must_be_given() {
    let world = worktree();
    for url in ["/api/diff", "/api/diff?path=", "/api/file?side=base"] {
        let reply = world.reply(&app(Side::Worktree), url);
        assert_eq!(text(&reply), (400, "{\"error\":\"missing 'path' parameter\"}".to_string()));
    }
    assert!(world.asked.borrow().is_empty());
}

#[test]
fn files_are_viewed_on_either_side() {
    let world = worktree();
    let view = |url: &str| match world.get(&app(Side::Worktree), url) {
        Answer::View(view) => view,
        _ => panic!(),
    };
    let head = view("/api/file?path=a.rs");
    assert!(head.lines[0].contains(">b</span>"));
    let base = view("/api/file?path=a.rs&side=base");
    assert!(base.lines[0].contains(">a</span>"));
    let gone = view("/api/file?path=gone.rs&side=base");
    assert_eq!(gone.state, State::Missing);
}

#[test]
fn a_file_that_is_not_text_is_viewed_as_binary() {
    let mut world = worktree();
    world.files.insert("/work/repo/a.png".to_string(), "\u{0}PNG".to_string());
    match world.get(&app(Side::Worktree), "/api/file?path=a.png") {
        Answer::View(view) => assert_eq!((view.state, view.lines.len()), (State::Binary, 0)),
        _ => panic!(),
    }
}

#[test]
fn more_answers_change_nothing() {
    let (highlighter, assets, app) = (Highlighter::load(), assets(), app(Side::Worktree));
    let world = worktree();
    let mut log = Log::new();
    let first = loop {
        let work = respond(&app, &assets, &highlighter, &mut Session::new(&log), "/api/tree");
        match work {
            Ok(Answer::Ready(reply)) => break text(&reply),
            Err(Halt::Ask(request)) => world.answer(request, &mut log),
            _ => panic!(),
        }
    };
    log.git.push(GitReply::Failed(b"late".to_vec()));
    log.reads.push(ReadReply::Missing);
    log.stores += 1;
    let again = respond(&app, &assets, &highlighter, &mut Session::new(&log), "/api/tree");
    match again {
        Ok(Answer::Ready(reply)) => assert_eq!(text(&reply), first),
        _ => panic!(),
    }
}

#[test]
fn a_view_that_escapes_is_refused() {
    let world = worktree();
    let reply = world.reply(&app(Side::Worktree), "/api/file?path=../secret");
    assert_eq!(
        text(&reply),
        (400, "{\"error\":\"path escapes the repository: ../secret\"}".to_string())
    );
    assert!(world.asked.borrow().is_empty());
}

#[test]
fn trees_are_listed() {
    let reply = worktree().reply(&app(Side::Worktree), "/api/tree");
    assert_eq!(text(&reply), (200, "{\"files\":[\"a.rs\",\"new.txt\"]}".to_string()));
    let reply = commits().reply(&app(Side::Worktree), "/api/tree?commit=abc");
    assert_eq!(text(&reply), (200, "{\"files\":[\"j\",\"k\"]}".to_string()));
    let empty = World::new(&[("ls-tree -r --name-only -z x", "")]);
    let reply = empty.reply(&app(Side::Rev("x".to_string())), "/api/tree");
    assert_eq!(text(&reply), (200, "{\"files\":[]}".to_string()));
}

#[test]
fn commits_are_listed() {
    let list = "222\u{1f}2\u{1f}Two\u{1f}!\x00111\u{1f}1\u{1f}One\0";
    let world = World::new(&[
        ("log -z --format=%H%x1f%h%x1f%s base..HEAD", list),
        ("log -z --format=%H%x1f%h%x1f%s base..head", ""),
    ]);
    let commits = |head: Side| match world.get(&app(head), "/api/commits") {
        Answer::Commits(commits) => commits,
        _ => panic!(),
    };
    let listed = commits(Side::Worktree);
    let told: Vec<_> = listed
        .iter()
        .map(|c| (c.label.as_str(), c.sha.as_str(), c.short.as_str(), c.subject.as_str()))
        .collect();
    assert_eq!(told, [("2", "222", "2", "Two\u{1f}!"), ("1", "111", "1", "One")]);
    assert!(commits(Side::Rev("head".to_string())).is_empty());
    let reply = World::new(&[]).reply(&app(Side::Worktree), "/api/commits");
    assert_eq!(
        text(&reply),
        (
            400,
            "{\"error\":\"git log -z --format=%H%x1f%h%x1f%s base..HEAD failed: fatal: no\"}"
                .to_string()
        )
    );
}

#[test]
fn requests_lead_to_jobs() {
    let world = worktree();
    let app = app(Side::Worktree);
    let assets = assets();
    let job = world.drive(|session| route(&app, &assets, session, "/api/file?path=a.rs")).unwrap();
    match &job {
        Job::View(view) => {
            assert_eq!((view.path.as_str(), view.binary), ("a.rs", false));
            assert_eq!(view.text.as_deref(), Some("fn b() {}\n"));
        }
        _ => panic!(),
    }
    assert!(matches!(finish(&Highlighter::load(), job), Answer::View(_)));
}

#[test]
fn what_is_kept_is_found_again() {
    let mut cache = FileCache::new();
    assert!(cache.get("a..b").is_none());
    let entry = |path: &str| FileEntry {
        path: path.to_string(),
        old_path: None,
        status: Status::Added,
        additions: 1,
        deletions: 0,
        binary: false,
    };
    cache.insert("a..b".to_string(), vec![entry("x")]);
    cache.insert("a..c".to_string(), vec![]);
    assert_eq!(cache.get("a..b").unwrap()[0].path, "x");
    assert!(cache.get("a..c").unwrap().is_empty());
    cache.insert("a..b".to_string(), vec![entry("y"), entry("z")]);
    assert_eq!(cache.get("a..b").unwrap().len(), 2);
}

#[test]
fn the_branch_comparison_is_what_was_set_up() {
    let comparison = app(Side::Rev("h".to_string())).branch_comparison();
    assert_eq!(comparison.key(), "base..h");
    assert_eq!(comparison.clone().key(), "base..h");
}
