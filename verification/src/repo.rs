//! A repository: what is asked of git about it, and what is made of the answers.

use vstd::prelude::*;
use vstd::string::*;

use crate::encoding;
use crate::git;
use crate::git::{FileEntry, RefInfo, Side, Status};
#[allow(unused_imports)]
use crate::git::{FileEntryView, RefInfoView, SideView};
use crate::session;
use crate::session::{Error, GitReply, Halt, ReadReply, Session};
#[allow(unused_imports)]
use crate::session::{ErrorView, GitReplyView, LogView, Outcome, ReadReplyView};
use crate::text;
#[allow(unused_imports)]
use crate::text::Text;

verus! {

broadcast use {vstd::string::group_string_axioms, vstd::seq_lib::group_seq_properties};

/// The failure of a run of git that complained.
pub open spec fn git_failure(args: Seq<Text>, complaint: Seq<u8>) -> ErrorView {
    session::plain_error(
        "git "@ + text::join_with(args, ' ') + " failed: "@ + text::trimmed(
            encoding::utf8_lossy(complaint),
        ),
    )
}

/// The failure of git to run at all.
pub open spec fn git_missing(reason: Text) -> ErrorView {
    ErrorView {
        message: "failed to run git; is it installed and on PATH?"@,
        cause: Some(reason),
    }
}

/// Running git in `dir`: what it writes, or why it fails.
pub open spec fn captured(dir: Text, args: Seq<Text>, log: LogView) -> Outcome<Seq<u8>> {
    session::after(
        session::ask_git(dir, seq!["--no-optional-locks"@] + args, log),
        |reply: GitReplyView, left: LogView|
            match reply {
                GitReplyView::Output(bytes) => Outcome::Done(bytes, left),
                GitReplyView::Failed(bytes) => Outcome::Fail(git_failure(args, bytes), left),
                GitReplyView::NotRun(reason) => Outcome::Fail(git_missing(reason), left),
            },
    )
}

/// Asks for a run of git in `dir`, with the options that every run has.
fn ask<'a>(session: &mut Session<'a>, dir: &str, args: &Vec<&str>) -> (r: Result<
    &'a GitReply,
    Halt,
>)
    ensures
        session::keeps_to(
            r,
            final(session).left(),
            session::ask_git(
                dir@,
                seq!["--no-optional-locks"@] + args.deep_view(),
                old(session).left(),
            ),
        ),
{
    let mut command: Vec<&str> = Vec::new();
    command.push("--no-optional-locks");
    let mut i: usize = 0;
    assert(command.deep_view() == seq!["--no-optional-locks"@] + args.deep_view().take(0));
    while i < args.len()
        invariant
            i <= args@.len(),
            command.deep_view() == seq!["--no-optional-locks"@] + args.deep_view().take(i as int),
        decreases args@.len() - i,
    {
        let ghost before = command.deep_view();
        command.push(args[i]);
        assert(command.deep_view() == before.push(args@[i as int]@));
        i = i + 1;
        assert(command.deep_view() == seq!["--no-optional-locks"@] + args.deep_view().take(
            i as int,
        ));
    }
    assert(args.deep_view().take(i as int) == args.deep_view());
    let words = command.as_slice();
    assert(words.deep_view() == command.deep_view());
    session.git(dir, session::copy_texts(words))
}

/// The failure of git to run at all.
fn not_run(reason: &String) -> (error: Error)
    ensures
        error.deep_view() == git_missing(reason@),
{
    Error {
        message: "failed to run git; is it installed and on PATH?".to_owned(),
        cause: Some(reason.clone()),
    }
}

/// Runs git in `dir`, returning stdout or the failure's stderr.
fn capture<'a>(session: &mut Session<'a>, dir: &str, args: &Vec<&str>) -> (r: Result<
    &'a Vec<u8>,
    Halt,
>)
    ensures
        session::keeps_to(
            r,
            final(session).left(),
            captured(dir@, args.deep_view(), old(session).left()),
        ),
{
    match ask(session, dir, args) {
        Err(halt) => Err(halt),
        Ok(reply) => match reply {
            GitReply::Output(bytes) => {
                assert(bytes.deep_view() == bytes@);
                Ok(bytes)
            },
            GitReply::Failed(bytes) => {
                let mut message = "git ".to_owned();
                let words = args.as_slice();
                assert(words.deep_view() == args.deep_view());
                let list = text::join(words, ' ');
                message.append(list.as_str());
                message.append(" failed: ");
                let complaint = encoding::lossy(bytes.as_slice());
                let trimmed = text::trim(complaint.as_str());
                message.append(trimmed.as_str());
                Err(Halt::Fail(Error { message, cause: None }))
            },
            GitReply::NotRun(reason) => Err(Halt::Fail(not_run(reason))),
        },
    }
}

/// What git writes, as text, without the white space at its end.
pub open spec fn captured_text(dir: Text, args: Seq<Text>, log: LogView) -> Outcome<Text> {
    session::after(
        captured(dir, args, log),
        |bytes: Seq<u8>, left: LogView|
            Outcome::Done(text::trimmed_end(encoding::utf8_lossy(bytes)), left),
    )
}

/// The same, or nothing where git fails or writes nothing.
pub open spec fn tried_text(dir: Text, args: Seq<Text>, log: LogView) -> Outcome<Option<Text>> {
    session::after(
        session::tolerant(captured_text(dir, args, log)),
        |found: Option<Text>, left: LogView|
            match found {
                Some(s) => if s.len() == 0 {
                    Outcome::Done(None, left)
                } else {
                    Outcome::Done(Some(s), left)
                },
                None => Outcome::Done(None, left),
            },
    )
}

/// The failure to find a repository.
pub open spec fn no_repository(start: Text) -> ErrorView {
    session::plain_error("not inside a git repository: "@ + start)
}

/// Finding the root of the repository that `start` is in.
pub open spec fn discovered(start: Text, log: LogView) -> Outcome<Text> {
    session::after(
        session::tolerant(captured(start, seq!["rev-parse"@, "--show-toplevel"@], log)),
        |found: Option<Seq<u8>>, left: LogView|
            match found {
                None => Outcome::Fail(no_repository(start), left),
                Some(bytes) => {
                    let root = text::trimmed(encoding::utf8_lossy(bytes));
                    if root.len() == 0 {
                        Outcome::Fail(no_repository(start), left)
                    } else {
                        Outcome::Done(root, left)
                    }
                },
            },
    )
}

/// Whether a segment of a path names something: it is neither empty nor the directory itself.
pub open spec fn names_something(segment: Text) -> bool {
    segment.len() > 0 && segment != "."@
}

/// The last of the segments that names something.
pub open spec fn last_name(segments: Seq<Text>) -> Option<Text>
    decreases segments.len(),
{
    if segments.len() == 0 {
        None
    } else if names_something(segments.last()) {
        Some(segments.last())
    } else {
        last_name(segments.drop_last())
    }
}

/// The name of the directory `root`; the whole path where it ends in no name.
pub open spec fn directory_name(root: Text) -> Text {
    match last_name(text::split_on(root, '/')) {
        Some(name) => if name == ".."@ {
            root
        } else {
            name
        },
        None => root,
    }
}

/// Whether a path leads out of where it starts: it is absolute, or goes up somewhere.
pub open spec fn escapes(path: Text) -> bool {
    ||| path.len() > 0 && path[0] == '/'
    ||| text::split_on(path, '/').contains(".."@)
}

/// The path `path` below `root`.
pub open spec fn below(root: Text, path: Text) -> Text {
    if root.len() > 0 && root.last() != '/' {
        root.push('/') + path
    } else {
        root + path
    }
}

/// A path below `root`, where it does not escape.
pub open spec fn safely_joined(root: Text, path: Text) -> Result<Text, ErrorView> {
    if escapes(path) {
        Err(session::plain_error("path escapes the repository: "@ + path))
    } else {
        Ok(below(root, path))
    }
}

/// The arguments that ask which commit `rev` is.
pub open spec fn resolve_args(rev: Text) -> Seq<Text> {
    seq!["rev-parse"@, "--verify"@, "--quiet"@, rev + "^{commit}"@]
}

/// The failure to find a commit.
pub open spec fn unresolved(rev: Text) -> ErrorView {
    session::plain_error(
        "cannot resolve '"@ + rev + "' to a commit (tried '"@ + rev + "' and 'origin/"@ + rev
            + "')"@,
    )
}

/// Finding the commit that `rev` is, or else that its remote copy is.
pub open spec fn resolved(root: Text, rev: Text, log: LogView) -> Outcome<Text> {
    session::after(
        tried_text(root, resolve_args(rev), log),
        |first: Option<Text>, left: LogView|
            match first {
                Some(sha) => Outcome::Done(sha, left),
                None => session::after(
                    tried_text(root, resolve_args("origin/"@ + rev), left),
                    |second: Option<Text>, left: LogView|
                        match second {
                            Some(sha) => Outcome::Done(sha, left),
                            None => Outcome::Fail(unresolved(rev), left),
                        },
                ),
            },
    )
}

/// The branches that a review may be based on, the likeliest first.
pub open spec fn usual_bases() -> Seq<Text> {
    seq!["main"@, "master"@, "develop"@]
}

/// The first of the branches that can be resolved; `main` where none can.
pub open spec fn first_resolved(root: Text, branches: Seq<Text>, log: LogView) -> Outcome<Text>
    decreases branches.len(),
{
    if branches.len() == 0 {
        Outcome::Done("main"@, log)
    } else {
        match resolved(root, branches[0], log) {
            Outcome::Ask(request) => Outcome::Ask(request),
            Outcome::Done(_, left) => Outcome::Done(branches[0], left),
            Outcome::Fail(_, left) => first_resolved(root, branches.drop_first(), left),
        }
    }
}

/// Guessing the branch that a review is based on: what the remote calls its main branch, else
/// the first usual name that is there.
pub open spec fn guessed_base(root: Text, log: LogView) -> Outcome<Text> {
    session::after(
        tried_text(
            root,
            seq!["symbolic-ref"@, "--quiet"@, "--short"@, "refs/remotes/origin/HEAD"@],
            log,
        ),
        |head: Option<Text>, left: LogView|
            match head {
                Some(head) => match text::without_prefix(head, "origin/"@) {
                    Some(name) => Outcome::Done(name, left),
                    None => first_resolved(root, usual_bases(), left),
                },
                None => first_resolved(root, usual_bases(), left),
            },
    )
}

/// Finding the last common ancestor of two commits.
pub open spec fn common_ancestor(root: Text, a: Text, b: Text, log: LogView) -> Outcome<Text> {
    session::after(
        tried_text(root, seq!["merge-base"@, a, b], log),
        |found: Option<Text>, left: LogView|
            match found {
                Some(sha) => Outcome::Done(sha, left),
                None => Outcome::Fail(
                    session::plain_error("'"@ + a + "' and '"@ + b + "' have no common ancestor"@),
                    left,
                ),
            },
    )
}

/// What a one-line description says of a commit.
pub open spec fn described_as(label: Text, sha: Text, line: Text) -> RefInfoView {
    match text::split_at_first(line, '\u{1f}') {
        Some((short, subject)) => RefInfoView { label, sha, short, subject },
        None => RefInfoView { label, sha, short: line, subject: Seq::empty() },
    }
}

/// Looking up the one-line description of a commit.
pub open spec fn described(root: Text, label: Text, sha: Text, log: LogView) -> Outcome<
    RefInfoView,
> {
    session::after(
        tried_text(root, seq!["log"@, "-1"@, "--format=%h%x1f%s"@, sha], log),
        |line: Option<Text>, left: LogView|
            Outcome::Done(
                described_as(
                    label,
                    sha,
                    match line {
                        Some(line) => line,
                        None => Seq::empty(),
                    },
                ),
                left,
            ),
    )
}

/// A repository, by the directory that it is in.
#[derive(Debug)]
pub struct Repo {
    pub root: String,
}

impl DeepView for Repo {
    type V = Text;

    open spec fn deep_view(&self) -> Text {
        self.root@
    }
}

impl Repo {
    /// Walks up from `start` looking for the enclosing work tree.
    pub fn discover(session: &mut Session<'_>, start: &str) -> (r: Result<Repo, Halt>)
        ensures
            session::keeps_to(
                r,
                final(session).left(),
                discovered(start@, old(session).left()),
            ),
    {
        let args: Vec<&str> = vec!["rev-parse", "--show-toplevel"];
        assert(args.deep_view() == seq!["rev-parse"@, "--show-toplevel"@]);
        match capture(session, start, &args) {
            Err(Halt::Ask(request)) => Err(Halt::Ask(request)),
            Err(Halt::Fail(_)) => Err(Halt::Fail(Self::not_found(start))),
            Ok(bytes) => {
                assert(bytes.deep_view() == bytes@);
                let out = encoding::lossy(bytes.as_slice());
                let root = text::trim(out.as_str());
                if root.as_str().is_empty() {
                    Err(Halt::Fail(Self::not_found(start)))
                } else {
                    Ok(Repo { root })
                }
            },
        }
    }

    fn not_found(start: &str) -> (error: Error)
        ensures
            error.deep_view() == no_repository(start@),
    {
        let mut message = "not inside a git repository: ".to_owned();
        message.append(start);
        Error { message, cause: None }
    }

    /// Runs git in the repository.
    fn run<'a>(&self, session: &mut Session<'a>, args: &Vec<&str>) -> (r: Result<&'a Vec<u8>, Halt>)
        ensures
            session::keeps_to(
                r,
                final(session).left(),
                captured(self.root@, args.deep_view(), old(session).left()),
            ),
    {
        capture(session, self.root.as_str(), args)
    }

    /// Runs git, returning what it writes as text.
    fn text(&self, session: &mut Session<'_>, args: &Vec<&str>) -> (r: Result<String, Halt>)
        ensures
            session::keeps_to(
                r,
                final(session).left(),
                captured_text(self.root@, args.deep_view(), old(session).left()),
            ),
    {
        match self.run(session, args) {
            Err(halt) => Err(halt),
            Ok(bytes) => {
                assert(bytes.deep_view() == bytes@);
                let out = encoding::lossy(bytes.as_slice());
                Ok(text::trim_end(out.as_str()))
            },
        }
    }

    /// Runs git, returning `None` instead of an error when it exits non-zero.
    fn try_text(&self, session: &mut Session<'_>, args: &Vec<&str>) -> (r: Result<
        Option<String>,
        Halt,
    >)
        ensures
            session::keeps_to(
                r,
                final(session).left(),
                tried_text(self.root@, args.deep_view(), old(session).left()),
            ),
    {
        match self.text(session, args) {
            Err(Halt::Ask(request)) => Err(Halt::Ask(request)),
            Err(Halt::Fail(_)) => Ok(None),
            Ok(s) => if s.as_str().is_empty() {
                Ok(None)
            } else {
                Ok(Some(s))
            },
        }
    }

    /// The name of the directory that the repository is in.
    pub fn name(&self) -> (name: String)
        ensures
            name@ == directory_name(self.root@),
    {
        let segments = text::split(self.root.as_str(), '/');
        let ghost all = segments.deep_view();
        let mut n: usize = segments.len();
        assert(all.take(n as int) == all);
        while n > 0
            invariant
                all == segments.deep_view(),
                all == text::split_on(self.root@, '/'),
                n <= segments@.len(),
                last_name(all) == last_name(all.take(n as int)),
            decreases n,
        {
            let segment = segments[n - 1].as_str();
            assert(all.take(n as int).last() == segment@);
            assert(all.take(n as int).drop_last() == all.take(n - 1));
            if !segment.is_empty() && !text::same(segment, ".") {
                if text::same(segment, "..") {
                    return self.root.clone();
                }
                return segment.to_owned();
            }
            n = n - 1;
        }
        self.root.clone()
    }

    /// Branch name, or `None` when HEAD is detached.
    pub fn current_branch(&self, session: &mut Session<'_>) -> (r: Result<Option<String>, Halt>)
        ensures
            session::keeps_to(
                r,
                final(session).left(),
                tried_text(self.root@, branch_args(), old(session).left()),
            ),
    {
        let args: Vec<&str> = vec!["symbolic-ref", "--quiet", "--short", "HEAD"];
        assert(args.deep_view() == branch_args());
        self.try_text(session, &args)
    }

    /// Asks for the commit that `rev` is.
    fn commit_of(&self, session: &mut Session<'_>, rev: &str) -> (r: Result<Option<String>, Halt>)
        ensures
            session::keeps_to(
                r,
                final(session).left(),
                tried_text(self.root@, resolve_args(rev@), old(session).left()),
            ),
    {
        let mut spec = rev.to_owned();
        spec.append("^{commit}");
        let args: Vec<&str> = vec!["rev-parse", "--verify", "--quiet", spec.as_str()];
        assert(args.deep_view() == resolve_args(rev@));
        self.try_text(session, &args)
    }

    /// Resolves a user supplied ref, falling back to the `origin/` remote copy.
    pub fn resolve(&self, session: &mut Session<'_>, rev: &str) -> (r: Result<String, Halt>)
        ensures
            session::keeps_to(
                r,
                final(session).left(),
                resolved(self.root@, rev@, old(session).left()),
            ),
    {
        match self.commit_of(session, rev) {
            Err(halt) => {
                return Err(halt);
            },
            Ok(Some(sha)) => {
                return Ok(sha);
            },
            Ok(None) => {},
        }
        let mut remote = "origin/".to_owned();
        remote.append(rev);
        match self.commit_of(session, remote.as_str()) {
            Err(halt) => {
                return Err(halt);
            },
            Ok(Some(sha)) => {
                return Ok(sha);
            },
            Ok(None) => {},
        }
        let mut message = "cannot resolve '".to_owned();
        message.append(rev);
        message.append("' to a commit (tried '");
        message.append(rev);
        message.append("' and 'origin/");
        message.append(rev);
        message.append("')");
        Err(Halt::Fail(Error { message, cause: None }))
    }

    /// Best guess at the branch a review should be based on.
    pub fn default_base(&self, session: &mut Session<'_>) -> (r: Result<String, Halt>)
        ensures
            session::keeps_to(
                r,
                final(session).left(),
                guessed_base(self.root@, old(session).left()),
            ),
    {
        let args: Vec<&str> = vec!["symbolic-ref", "--quiet", "--short", "refs/remotes/origin/HEAD"];
        assert(args.deep_view() == seq![
            "symbolic-ref"@,
            "--quiet"@,
            "--short"@,
            "refs/remotes/origin/HEAD"@,
        ]);
        match self.try_text(session, &args) {
            Err(halt) => {
                return Err(halt);
            },
            Ok(Some(head)) => {
                if let Some(name) = text::strip_prefix(head.as_str(), "origin/") {
                    return Ok(name);
                }
            },
            Ok(None) => {},
        }
        let branches: Vec<&str> = vec!["main", "master", "develop"];
        assert(branches.deep_view() == usual_bases());
        self.first_base(session, &branches)
    }

    /// The first of the branches that can be resolved.
    fn first_base(&self, session: &mut Session<'_>, branches: &Vec<&str>) -> (r: Result<
        String,
        Halt,
    >)
        ensures
            session::keeps_to(
                r,
                final(session).left(),
                first_resolved(self.root@, branches.deep_view(), old(session).left()),
            ),
    {
        let ghost all = branches.deep_view();
        let ghost goal = first_resolved(self.root@, all, session.left());
        let mut i: usize = 0;
        assert(all.skip(0) == all);
        while i < branches.len()
            invariant
                all == branches.deep_view(),
                i <= branches@.len(),
                goal == first_resolved(self.root@, all, old(session).left()),
                goal == first_resolved(self.root@, all.skip(i as int), session.left()),
            decreases branches@.len() - i,
        {
            assert(all.skip(i as int)[0] == branches@[i as int]@);
            assert(all.skip(i as int).drop_first() == all.skip(i + 1));
            match self.resolve(session, branches[i]) {
                Err(Halt::Ask(request)) => {
                    return Err(Halt::Ask(request));
                },
                Err(Halt::Fail(_)) => {},
                Ok(_) => {
                    return Ok(branches[i].to_owned());
                },
            }
            i = i + 1;
        }
        Ok("main".to_owned())
    }

    /// The commit at which two histories part.
    pub fn merge_base(&self, session: &mut Session<'_>, a: &str, b: &str) -> (r: Result<
        String,
        Halt,
    >)
        ensures
            session::keeps_to(
                r,
                final(session).left(),
                common_ancestor(self.root@, a@, b@, old(session).left()),
            ),
    {
        let args: Vec<&str> = vec!["merge-base", a, b];
        assert(args.deep_view() == seq!["merge-base"@, a@, b@]);
        match self.try_text(session, &args) {
            Err(halt) => Err(halt),
            Ok(Some(sha)) => Ok(sha),
            Ok(None) => {
                let mut message = "'".to_owned();
                message.append(a);
                message.append("' and '");
                message.append(b);
                message.append("' have no common ancestor");
                Err(Halt::Fail(Error { message, cause: None }))
            },
        }
    }

    /// Looks up the one-line description of a commit.
    pub fn describe(&self, session: &mut Session<'_>, label: &str, sha: &str) -> (r: Result<
        RefInfo,
        Halt,
    >)
        ensures
            session::keeps_to(
                r,
                final(session).left(),
                described(self.root@, label@, sha@, old(session).left()),
            ),
    {
        let args: Vec<&str> = vec!["log", "-1", "--format=%h%x1f%s", sha];
        assert(args.deep_view() == seq!["log"@, "-1"@, "--format=%h%x1f%s"@, sha@]);
        let line = match self.try_text(session, &args) {
            Err(halt) => {
                return Err(halt);
            },
            Ok(Some(line)) => line,
            Ok(None) => String::new(),
        };
        let (short, subject) = match text::split_once(line.as_str(), '\u{1f}') {
            Some(parts) => parts,
            None => (line, String::new()),
        };
        Ok(RefInfo { label: label.to_owned(), sha: sha.to_owned(), short, subject })
    }
}

/// The tree without files, which a commit without a parent is compared with.
pub open spec fn empty_tree() -> Text {
    "4b825dc642cb6eb9a060e54bf8d69288fbee4904"@
}

/// The first parent of a commit; the tree without files where it has none.
pub open spec fn first_parent_of(root: Text, sha: Text, log: LogView) -> Outcome<Text> {
    session::after(
        tried_text(root, seq!["rev-parse"@, "--verify"@, "--quiet"@, sha + "^1"@], log),
        |found: Option<Text>, left: LogView|
            Outcome::Done(
                match found {
                    Some(parent) => parent,
                    None => empty_tree(),
                },
                left,
            ),
    )
}

/// The arguments that list the commits from `base` to `head`, newest first.
pub open spec fn commits_args(base: Text, head: SideView) -> Seq<Text> {
    let end = match head {
        SideView::Rev(rev) => rev,
        SideView::Worktree => "HEAD"@,
    };
    seq!["log"@, "-z"@, "--format=%H%x1f%h%x1f%s"@, base + ".."@ + end]
}

/// What a record of the list says of its commit, which is called by its short name.
pub open spec fn listed_commit(record: Text) -> RefInfoView {
    let (sha, line) = match text::split_at_first(record, '\u{1f}') {
        Some(parts) => parts,
        None => (record, Seq::empty()),
    };
    let info = described_as(Seq::empty(), sha, line);
    RefInfoView { label: info.short, ..info }
}

/// Listing the commits from `base` to `head`.
pub open spec fn listed_commits(root: Text, base: Text, head: SideView, log: LogView) -> Outcome<
    Seq<RefInfoView>,
> {
    session::after(
        captured(root, commits_args(base, head), log),
        |bytes: Seq<u8>, left: LogView|
            Outcome::Done(
                git::fields_of(bytes).map_values(|record: Text| listed_commit(record)),
                left,
            ),
    )
}

/// Reads what a record says of its commit.
fn read_commit(record: &String) -> (info: RefInfo)
    ensures
        info.deep_view() == listed_commit(record@),
{
    let (sha, line) = match text::split_once(record.as_str(), '\u{1f}') {
        Some(parts) => parts,
        None => (record.clone(), String::new()),
    };
    let (short, subject) = match text::split_once(line.as_str(), '\u{1f}') {
        Some(parts) => parts,
        None => (line, String::new()),
    };
    RefInfo { label: short.clone(), sha, short, subject }
}

/// Reads what the records say of their commits.
fn read_commits(records: &Vec<String>) -> (infos: Vec<RefInfo>)
    ensures
        infos.deep_view() == records.deep_view().map_values(|record: Text| listed_commit(record)),
{
    let ghost all = records.deep_view().map_values(|record: Text| listed_commit(record));
    let mut infos: Vec<RefInfo> = Vec::new();
    let mut i: usize = 0;
    while i < records.len()
        invariant
            all == records.deep_view().map_values(|record: Text| listed_commit(record)),
            i <= records@.len(),
            infos.deep_view() == all.take(i as int),
        decreases records@.len() - i,
    {
        let ghost before = infos.deep_view();
        let info = read_commit(&records[i]);
        infos.push(info);
        assert(infos.deep_view() == before.push(all[i as int]));
        i = i + 1;
    }
    assert(all.take(all.len() as int) == all);
    infos
}

impl Repo {
    /// The first parent of a commit; the tree without files where it has none.
    pub fn first_parent(&self, session: &mut Session<'_>, sha: &str) -> (r: Result<String, Halt>)
        ensures
            session::keeps_to(
                r,
                final(session).left(),
                first_parent_of(self.root@, sha@, old(session).left()),
            ),
    {
        let mut name = sha.to_owned();
        name.append("^1");
        let args: Vec<&str> = vec!["rev-parse", "--verify", "--quiet", name.as_str()];
        assert(args.deep_view() == seq![
            "rev-parse"@,
            "--verify"@,
            "--quiet"@,
            sha@ + "^1"@,
        ]);
        match self.try_text(session, &args) {
            Err(halt) => Err(halt),
            Ok(Some(parent)) => Ok(parent),
            Ok(None) => Ok("4b825dc642cb6eb9a060e54bf8d69288fbee4904".to_owned()),
        }
    }

    /// The commits from `base` to `head`, newest first.
    pub fn commits(&self, session: &mut Session<'_>, base: &str, head: &Side) -> (r: Result<
        Vec<RefInfo>,
        Halt,
    >)
        ensures
            session::keeps_to(
                r,
                final(session).left(),
                listed_commits(self.root@, base@, head.deep_view(), old(session).left()),
            ),
    {
        let mut range = base.to_owned();
        range.append("..");
        match head {
            Side::Rev(rev) => range.append(rev.as_str()),
            Side::Worktree => range.append("HEAD"),
        }
        let args: Vec<&str> = vec!["log", "-z", "--format=%H%x1f%h%x1f%s", range.as_str()];
        assert(args.deep_view() == commits_args(base@, head.deep_view()));
        match self.run(session, &args) {
            Err(halt) => Err(halt),
            Ok(bytes) => {
                assert(bytes.deep_view() == bytes@);
                Ok(read_commits(&git::nul_fields(bytes.as_slice())))
            },
        }
    }
}

/// The arguments that ask for the current branch.
pub open spec fn branch_args() -> Seq<Text> {
    seq!["symbolic-ref"@, "--quiet"@, "--short"@, "HEAD"@]
}

/// What reading one file of the work tree gives; nothing where it is not there.
pub open spec fn read_result(full: Text, reply: ReadReplyView) -> Result<
    Option<Seq<u8>>,
    ErrorView,
> {
    match reply {
        ReadReplyView::Content(bytes) => Ok(Some(bytes)),
        ReadReplyView::Missing => Ok(None),
        ReadReplyView::Failed(reason) => Err(
            ErrorView { message: "reading "@ + full, cause: Some(reason) },
        ),
    }
}

/// Reading a file of the work tree. A path that escapes the repository is refused unread.
pub open spec fn read_from_worktree(root: Text, path: Text, log: LogView) -> Outcome<
    Option<Seq<u8>>,
> {
    match safely_joined(root, path) {
        Err(error) => Outcome::Fail(error, log),
        Ok(full) => session::after(
            session::ask_reads(seq![full], log),
            |replies: Seq<ReadReplyView>, left: LogView|
                match read_result(full, replies[0]) {
                    Ok(content) => Outcome::Done(content, left),
                    Err(error) => Outcome::Fail(error, left),
                },
        ),
    }
}

/// Reading a file of a commit. One that git refuses to show is not there; where git does not
/// run at all, nothing is known of it.
pub open spec fn read_from_commit(root: Text, rev: Text, path: Text, log: LogView) -> Outcome<
    Option<Seq<u8>>,
> {
    session::after(
        session::ask_git(
            root,
            seq!["--no-optional-locks"@] + seq!["show"@, rev + ":"@ + path],
            log,
        ),
        |reply: GitReplyView, left: LogView|
            match reply {
                GitReplyView::Output(bytes) => Outcome::Done(Some(bytes), left),
                GitReplyView::Failed(_) => Outcome::Done(None, left),
                GitReplyView::NotRun(reason) => Outcome::Fail(git_missing(reason), left),
            },
    )
}

/// Reading a file from either side.
pub open spec fn read_from(root: Text, side: SideView, path: Text, log: LogView) -> Outcome<
    Option<Seq<u8>>,
> {
    match side {
        SideView::Rev(rev) => read_from_commit(root, rev, path, log),
        SideView::Worktree => read_from_worktree(root, path, log),
    }
}

/// The arguments that list the files of a side.
pub open spec fn list_args(side: SideView) -> Seq<Text> {
    match side {
        SideView::Rev(rev) => seq!["ls-tree"@, "-r"@, "--name-only"@, "-z"@, rev],
        SideView::Worktree => seq![
            "ls-files"@,
            "--cached"@,
            "--others"@,
            "--exclude-standard"@,
            "-z"@,
        ],
    }
}

/// Listing the files of a side, in order and each once.
pub open spec fn listed(root: Text, side: SideView, log: LogView) -> Outcome<Seq<Text>> {
    session::after(
        captured(root, list_args(side), log),
        |bytes: Seq<u8>, left: LogView|
            Outcome::Done(
                git::without_repeats(git::sorted_texts(git::fields_of(bytes))),
                left,
            ),
    )
}

/// The arguments that compare two sides, in the given form.
pub open spec fn diff_args(form: Text, base: Text, head: SideView) -> Seq<Text> {
    let args = seq!["diff"@, form, "--find-renames"@, "-z"@, base];
    match head {
        SideView::Rev(rev) => args.push(rev),
        SideView::Worktree => args,
    }
}

/// The line counts of every changed file.
pub open spec fn counted(root: Text, base: Text, head: SideView, log: LogView) -> Outcome<
    vstd::map::Map<Text, (u32, u32, bool)>,
> {
    session::after(
        captured(root, diff_args("--numstat"@, base, head), log),
        |bytes: Seq<u8>, left: LogView|
            Outcome::Done(git::stats_from(git::fields_of(bytes), vstd::map::Map::empty()), left),
    )
}

/// The paths among `paths` that do not escape, below `root`.
pub open spec fn readable(root: Text, paths: Seq<Text>) -> Seq<Text>
    decreases paths.len(),
{
    if paths.len() == 0 {
        Seq::empty()
    } else {
        let rest = readable(root, paths.drop_last());
        if escapes(paths.last()) {
            rest
        } else {
            rest.push(below(root, paths.last()))
        }
    }
}

/// The number of lines of a file, in 32 bits.
pub open spec fn line_count(bytes: Seq<u8>) -> u32 {
    (text::lines_of(encoding::utf8_lossy(bytes)).len() % 0x1_0000_0000) as u32
}

/// An untracked file, presented as an addition of all its lines.
pub open spec fn untracked_entry(path: Text, reply: ReadReplyView) -> FileEntryView {
    let (additions, binary) = match reply {
        ReadReplyView::Content(bytes) => if git::looks_binary(bytes) {
            (0u32, true)
        } else {
            (line_count(bytes), false)
        },
        _ => (0u32, false),
    };
    FileEntryView {
        path,
        old_path: None,
        status: Status::Untracked,
        additions,
        deletions: 0,
        binary,
    }
}

/// The untracked files, given what became of reading those that do not escape.
pub open spec fn untracked_from(paths: Seq<Text>, replies: Seq<ReadReplyView>) -> Seq<
    FileEntryView,
>
    decreases paths.len(),
{
    if paths.len() == 0 {
        Seq::empty()
    } else if escapes(paths.last()) {
        untracked_from(paths.drop_last(), replies).push(
            untracked_entry(paths.last(), ReadReplyView::Missing),
        )
    } else {
        untracked_from(paths.drop_last(), replies.drop_last()).push(
            untracked_entry(paths.last(), replies.last()),
        )
    }
}

/// The arguments that list untracked files.
pub open spec fn untracked_args() -> Seq<Text> {
    seq!["ls-files"@, "--others"@, "--exclude-standard"@, "-z"@]
}

/// The untracked files that are not ignored.
pub open spec fn untracked(root: Text, log: LogView) -> Outcome<Seq<FileEntryView>> {
    session::after(
        captured(root, untracked_args(), log),
        |bytes: Seq<u8>, left: LogView|
            {
                let paths = git::fields_of(bytes);
                session::after(
                    session::ask_reads(readable(root, paths), left),
                    |replies: Seq<ReadReplyView>, left: LogView|
                        Outcome::Done(untracked_from(paths, replies), left),
                )
            },
    )
}

/// The changed files that git tells of, given the line counts.
pub open spec fn reported(
    root: Text,
    base: Text,
    head: SideView,
    stats: vstd::map::Map<Text, (u32, u32, bool)>,
    log: LogView,
) -> Outcome<Seq<FileEntryView>> {
    session::after(
        captured(root, diff_args("--name-status"@, base, head), log),
        |bytes: Seq<u8>, left: LogView|
            Outcome::Done(git::entries_from(git::fields_of(bytes), stats), left),
    )
}

/// Every file that differs between `base` and `head`, in the order of their paths. The work
/// tree has its untracked files too.
pub open spec fn changed(root: Text, base: Text, head: SideView, log: LogView) -> Outcome<
    Seq<FileEntryView>,
> {
    session::after(
        counted(root, base, head, log),
        |stats: vstd::map::Map<Text, (u32, u32, bool)>, left: LogView|
            session::after(
                reported(root, base, head, stats, left),
                |entries: Seq<FileEntryView>, left: LogView|
                    match head {
                        SideView::Rev(_) => Outcome::Done(git::sorted_entries(entries), left),
                        SideView::Worktree => session::after(
                            untracked(root, left),
                            |more: Seq<FileEntryView>, left: LogView|
                                Outcome::Done(git::sorted_entries(entries + more), left),
                        ),
                    },
            ),
    )
}

/// Tells whether one of the segments goes up.
fn goes_up(path: &str) -> (r: bool)
    ensures
        r == text::split_on(path@, '/').contains(".."@),
{
    let segments = text::split(path, '/');
    let ghost all = segments.deep_view();
    let mut i: usize = 0;
    while i < segments.len()
        invariant
            all == segments.deep_view(),
            all == text::split_on(path@, '/'),
            i <= segments@.len(),
            forall|j: int| 0 <= j < i ==> #[trigger] all[j] != ".."@,
        decreases segments@.len() - i,
    {
        if text::same(segments[i].as_str(), "..") {
            assert(all[i as int] == ".."@);
            return true;
        }
        i = i + 1;
    }
    false
}

/// Tells whether a path leads out of where it starts.
fn leads_out(path: &str) -> (r: bool)
    ensures
        r == escapes(path@),
{
    let chars = text::chars_of(path);
    (chars.len() > 0 && chars[0] == '/') || goes_up(path)
}

/// The length of a list, in 32 bits.
fn low_bits(n: usize) -> (r: u32)
    ensures
        r == (n as nat % 0x1_0000_0000) as u32,
{
    let m: u64 = n as u64 % 0x1_0000_0000;
    m as u32
}

impl Repo {
    /// The path below the root.
    fn join(&self, path: &str) -> (full: String)
        ensures
            full@ == below(self.root@, path@),
    {
        let mut full = self.root.clone();
        let chars = text::chars_of(self.root.as_str());
        let n = chars.len();
        if n > 0 && chars[n - 1] != '/' {
            full.push('/');
        }
        full.append(path);
        full
    }

    /// Resolves a repo-relative path, refusing anything that escapes the root.
    pub fn safe_join(&self, path: &str) -> (r: Result<String, Error>)
        ensures
            match r {
                Ok(full) => safely_joined(self.root@, path@) == Ok::<Text, ErrorView>(full@),
                Err(error) => safely_joined(self.root@, path@) == Err::<Text, ErrorView>(
                    error.deep_view(),
                ),
            },
    {
        if leads_out(path) {
            let mut message = "path escapes the repository: ".to_owned();
            message.append(path);
            return Err(Error { message, cause: None });
        }
        Ok(self.join(path))
    }

    /// Reads a file of the work tree.
    fn read_worktree<'a>(&self, session: &mut Session<'a>, path: &str) -> (r: Result<
        Option<&'a Vec<u8>>,
        Halt,
    >)
        ensures
            session::keeps_to(
                r,
                final(session).left(),
                read_from_worktree(self.root@, path@, old(session).left()),
            ),
    {
        let full = match self.safe_join(path) {
            Ok(full) => full,
            Err(error) => {
                return Err(Halt::Fail(error));
            },
        };
        let mut paths: Vec<String> = Vec::new();
        paths.push(full.clone());
        assert(paths.deep_view() == seq![full@]);
        match session.reads(paths) {
            Err(halt) => Err(halt),
            Ok(replies) => {
                assert(replies@.len() == replies.deep_view().len());
                match &replies[0] {
                    ReadReply::Content(bytes) => {
                        assert(bytes.deep_view() == bytes@);
                        Ok(Some(bytes))
                    },
                    ReadReply::Missing => Ok(None),
                    ReadReply::Failed(reason) => {
                        let mut message = "reading ".to_owned();
                        message.append(full.as_str());
                        Err(Halt::Fail(Error { message, cause: Some(reason.clone()) }))
                    },
                }
            },
        }
    }

    /// Reads a file from either side. `None` means the path is absent there.
    pub fn read<'a>(&self, session: &mut Session<'a>, side: &Side, path: &str) -> (r: Result<
        Option<&'a Vec<u8>>,
        Halt,
    >)
        ensures
            session::keeps_to(
                r,
                final(session).left(),
                read_from(self.root@, side.deep_view(), path@, old(session).left()),
            ),
    {
        match side {
            Side::Rev(rev) => {
                let mut name = rev.clone();
                name.append(":");
                name.append(path);
                let args: Vec<&str> = vec!["show", name.as_str()];
                assert(args.deep_view() == seq!["show"@, rev@ + ":"@ + path@]);
                match ask(session, self.root.as_str(), &args) {
                    Err(halt) => Err(halt),
                    Ok(reply) => match reply {
                        GitReply::Output(bytes) => {
                            assert(bytes.deep_view() == bytes@);
                            Ok(Some(bytes))
                        },
                        GitReply::Failed(_) => Ok(None),
                        GitReply::NotRun(reason) => Err(Halt::Fail(not_run(reason))),
                    },
                }
            },
            Side::Worktree => self.read_worktree(session, path),
        }
    }

    /// Every tracked file on the given side, for the file browser.
    pub fn list_files(&self, session: &mut Session<'_>, side: &Side) -> (r: Result<
        Vec<String>,
        Halt,
    >)
        ensures
            session::keeps_to(
                r,
                final(session).left(),
                listed(self.root@, side.deep_view(), old(session).left()),
            ),
    {
        let args: Vec<&str> = match side {
            Side::Rev(rev) => vec!["ls-tree", "-r", "--name-only", "-z", rev.as_str()],
            Side::Worktree => vec!["ls-files", "--cached", "--others", "--exclude-standard", "-z"],
        };
        assert(args.deep_view() == list_args(side.deep_view()));
        match self.run(session, &args) {
            Err(halt) => Err(halt),
            Ok(bytes) => {
                assert(bytes.deep_view() == bytes@);
                Ok(git::sort_and_dedup(git::nul_fields(bytes.as_slice())))
            },
        }
    }

    /// Compares two sides in the given form, returning the fields of the answer.
    fn compare(&self, session: &mut Session<'_>, form: &str, base: &str, head: &Side) -> (r: Result<
        Vec<String>,
        Halt,
    >)
        ensures
            session::keeps_to(
                r,
                final(session).left(),
                session::after(
                    captured(
                        self.root@,
                        diff_args(form@, base@, head.deep_view()),
                        old(session).left(),
                    ),
                    |bytes: Seq<u8>, left: LogView| Outcome::Done(git::fields_of(bytes), left),
                ),
            ),
    {
        let mut args: Vec<&str> = vec!["diff", form, "--find-renames", "-z", base];
        if let Side::Rev(rev) = head {
            args.push(rev.as_str());
        }
        assert(args.deep_view() == diff_args(form@, base@, head.deep_view()));
        match self.run(session, &args) {
            Err(halt) => Err(halt),
            Ok(bytes) => {
                assert(bytes.deep_view() == bytes@);
                Ok(git::nul_fields(bytes.as_slice()))
            },
        }
    }

    /// Untracked-but-not-ignored files, presented as additions.
    fn untracked_entries(&self, session: &mut Session<'_>) -> (r: Result<Vec<FileEntry>, Halt>)
        ensures
            session::keeps_to(r, final(session).left(), untracked(self.root@, old(session).left())),
    {
        let args: Vec<&str> = vec!["ls-files", "--others", "--exclude-standard", "-z"];
        assert(args.deep_view() == untracked_args());
        let paths = match self.run(session, &args) {
            Err(halt) => {
                return Err(halt);
            },
            Ok(bytes) => {
                assert(bytes.deep_view() == bytes@);
                git::nul_fields(bytes.as_slice())
            },
        };
        let wanted = self.readable_paths(&paths);
        match session.reads(wanted) {
            Err(halt) => Err(halt),
            Ok(replies) => Ok(present_untracked(&paths, replies, Ghost(self.root@))),
        }
    }

    /// The paths that do not escape, below the root.
    fn readable_paths(&self, paths: &Vec<String>) -> (r: Vec<String>)
        ensures
            r.deep_view() == readable(self.root@, paths.deep_view()),
    {
        let ghost all = paths.deep_view();
        let mut r: Vec<String> = Vec::new();
        let mut i: usize = 0;
        assert(all.take(0) == Seq::<Text>::empty());
        assert(r.deep_view() == Seq::<Text>::empty());
        while i < paths.len()
            invariant
                all == paths.deep_view(),
                i <= paths@.len(),
                r.deep_view() == readable(self.root@, all.take(i as int)),
            decreases paths@.len() - i,
        {
            let ghost before = r.deep_view();
            assert(all.take(i + 1).drop_last() == all.take(i as int));
            assert(all.take(i + 1).last() == paths@[i as int]@);
            if let Ok(full) = self.safe_join(paths[i].as_str()) {
                r.push(full);
                assert(r.deep_view() == before.push(full@));
            }
            i = i + 1;
        }
        assert(all.take(all.len() as int) == all);
        r
    }

    /// Every file that differs between `base` and `head`.
    pub fn changed_files(&self, session: &mut Session<'_>, base: &str, head: &Side) -> (r: Result<
        Vec<FileEntry>,
        Halt,
    >)
        ensures
            session::keeps_to(
                r,
                final(session).left(),
                changed(self.root@, base@, head.deep_view(), old(session).left()),
            ),
    {
        let stats = match self.compare(session, "--numstat", base, head) {
            Err(halt) => {
                return Err(halt);
            },
            Ok(fields) => git::read_stats(&fields),
        };
        let mut entries = match self.compare(session, "--name-status", base, head) {
            Err(halt) => {
                return Err(halt);
            },
            Ok(fields) => git::read_entries(&fields, stats),
        };
        if let Side::Worktree = head {
            match self.untracked_entries(session) {
                Err(halt) => {
                    return Err(halt);
                },
                Ok(more) => {
                    push_entries(&mut entries, &more);
                },
            }
        }
        Ok(git::sort_entries(entries))
    }
}

/// Adds entries at the end.
fn push_entries(entries: &mut Vec<FileEntry>, more: &Vec<FileEntry>)
    ensures
        final(entries).deep_view() == old(entries).deep_view() + more.deep_view(),
{
    let ghost before = entries.deep_view();
    let ghost all = more.deep_view();
    let mut i: usize = 0;
    assert(before + all.take(0) == before);
    while i < more.len()
        invariant
            all == more.deep_view(),
            i <= more@.len(),
            entries.deep_view() == before + all.take(i as int),
        decreases more@.len() - i,
    {
        let ghost now = entries.deep_view();
        let entry = more[i].clone();
        entries.push(entry);
        assert(entries.deep_view() == now.push(entry.deep_view()));
        assert(now.push(entry.deep_view()) == before + all.take(i + 1));
        i = i + 1;
    }
    assert(all.take(all.len() as int) == all);
}

/// Presents an untracked file as an addition.
fn present(path: &String, reply: Option<&ReadReply>) -> (entry: FileEntry)
    ensures
        entry.deep_view() == untracked_entry(
            path@,
            match reply {
                Some(reply) => reply.deep_view(),
                None => ReadReplyView::Missing,
            },
        ),
{
    let (additions, binary) = match reply {
        Some(ReadReply::Content(bytes)) => if git::is_binary(bytes.as_slice()) {
            (0u32, true)
        } else {
            let content = encoding::lossy(bytes.as_slice());
            let lines = text::lines_with_endings(content.as_str());
            (low_bits(lines.len()), false)
        },
        _ => (0u32, false),
    };
    FileEntry {
        path: path.clone(),
        old_path: None,
        status: Status::Untracked,
        additions,
        deletions: 0,
        binary,
    }
}

/// Presents untracked files, given what became of reading those that do not escape.
fn present_untracked(paths: &Vec<String>, replies: &[ReadReply], Ghost(root): Ghost<Text>) -> (r:
    Vec<FileEntry>)
    requires
        replies@.len() == readable(root, paths.deep_view()).len(),
    ensures
        r.deep_view() == untracked_from(paths.deep_view(), replies.deep_view()),
{
    let ghost all = paths.deep_view();
    let ghost answers = replies.deep_view();
    let mut r: Vec<FileEntry> = Vec::new();
    let mut i: usize = 0;
    let mut k: usize = 0;
    assert(all.take(0) == Seq::<Text>::empty());
    assert(all.take(all.len() as int) == all);
    assert(r.deep_view() == Seq::<FileEntryView>::empty());
    while i < paths.len()
        invariant
            all == paths.deep_view(),
            answers == replies.deep_view(),
            i <= paths@.len(),
            replies@.len() == readable(root, all).len(),
            k == readable(root, all.take(i as int)).len(),
            k <= replies@.len(),
            r.deep_view() == untracked_from(all.take(i as int), answers.take(k as int)),
        decreases paths@.len() - i,
    {
        let ghost before = r.deep_view();
        proof {
            lemma_untracked_step(root, all, answers, i as int, k as int);
        }
        let out = leads_out(paths[i].as_str());
        let reply = if out {
            None
        } else {
            Some(&replies[k])
        };
        let entry = present(&paths[i], reply);
        r.push(entry);
        assert(r.deep_view() == before.push(entry.deep_view()));
        if !out {
            k = k + 1;
        }
        i = i + 1;
    }
    assert(answers.take(k as int) == answers);
    r
}

/// One path more is one entry more, and takes one reply where it does not escape.
proof fn lemma_untracked_step(
    root: Text,
    paths: Seq<Text>,
    replies: Seq<ReadReplyView>,
    i: int,
    k: int,
)
    requires
        0 <= i < paths.len(),
        k == readable(root, paths.take(i)).len(),
        replies.len() == readable(root, paths).len(),
    ensures
        escapes(paths[i]) ==> readable(root, paths.take(i + 1)).len() == k && untracked_from(
            paths.take(i + 1),
            replies.take(k),
        ) == untracked_from(paths.take(i), replies.take(k)).push(
            untracked_entry(paths[i], ReadReplyView::Missing),
        ),
        !escapes(paths[i]) ==> k < replies.len() && readable(root, paths.take(i + 1)).len() == k + 1
            && untracked_from(paths.take(i + 1), replies.take(k + 1)) == untracked_from(
            paths.take(i),
            replies.take(k),
        ).push(untracked_entry(paths[i], replies[k])),
{
    lemma_readable_grows(root, paths, i + 1);
    assert(paths.take(i + 1).drop_last() == paths.take(i));
    assert(paths.take(i + 1).last() == paths[i]);
    if !escapes(paths[i]) {
        assert(replies.take(k + 1).drop_last() == replies.take(k));
        assert(replies.take(k + 1).last() == replies[k]);
    }
}

/// The first paths are no more readable than all of them.
proof fn lemma_readable_grows(root: Text, paths: Seq<Text>, n: int)
    requires
        0 <= n <= paths.len(),
    ensures
        readable(root, paths.take(n)).len() <= readable(root, paths).len(),
    decreases paths.len() - n,
{
    if n < paths.len() {
        lemma_readable_grows(root, paths, n + 1);
        assert(paths.take(n + 1).drop_last() == paths.take(n));
    } else {
        assert(paths.take(n) == paths);
    }
}

} // verus!
