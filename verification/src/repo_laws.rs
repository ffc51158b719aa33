//! Which runs of git a repository asks for, and what it makes of each answer.

use vstd::prelude::*;

use crate::encoding;
use crate::git;
#[allow(unused_imports)]
use crate::git::{FileEntryView, RefInfoView, SideView, Status};
use crate::git_laws;
use crate::number;
use crate::order;
use crate::repo;
#[allow(unused_imports)]
use crate::session::{ErrorView, GitReplyView, LogView, Outcome, ReadReplyView, RequestView};
use crate::text;
#[allow(unused_imports)]
use crate::text::Text;

verus! {

/// Whether work waits for a run of git with just these arguments.
pub open spec fn waits_for_git<V>(outcome: Outcome<V>, dir: Text, args: Seq<Text>) -> bool {
    outcome == Outcome::<V>::Ask(RequestView::Git { dir, args })
}

/// Whether work fails with a message that has no known cause, and `left` is left.
pub open spec fn fails_with<V>(outcome: Outcome<V>, message: Text, left: LogView) -> bool {
    outcome == Outcome::<V>::Fail(ErrorView { message, cause: None }, left)
}

/// Answers that start with one of git.
pub open spec fn answered(reply: GitReplyView, log: LogView) -> LogView {
    LogView { git: seq![reply] + log.git, ..log }
}

/// What git said, without the white space behind it.
pub open spec fn said(bytes: Seq<u8>) -> Text {
    text::trimmed_end(encoding::utf8_lossy(bytes))
}

proof fn lemma_answered(reply: GitReplyView, log: LogView)
    ensures
        answered(reply, log).git.len() > 0,
        answered(reply, log).git[0] == reply,
        answered(reply, log).git.skip(1) == log.git,
        (LogView { git: answered(reply, log).git.skip(1), ..answered(reply, log) }) == log,
{
    assert(answered(reply, log).git.skip(1) == log.git);
}

proof fn lemma_args(args: Seq<Text>, all: Seq<Text>)
    requires
        all.len() == args.len() + 1,
        all[0] == "--no-optional-locks"@,
        forall|i: int| 0 <= i < args.len() ==> args[i] == all[i + 1],
    ensures
        seq!["--no-optional-locks"@] + args == all,
{
    assert(seq!["--no-optional-locks"@] + args == all);
}

/// The root of a repository is what git calls the top of the work tree that `start` is in, without
/// white space around it. Where git fails, or says nothing, there is no repository.
pub proof fn law_root_is_asked_for(start: Text, bytes: Seq<u8>, log: LogView)
    ensures
        log.git.len() == 0 ==> waits_for_git(
            repo::discovered(start, log),
            start,
            seq!["--no-optional-locks"@, "rev-parse"@, "--show-toplevel"@],
        ),
        text::trimmed(encoding::utf8_lossy(bytes)).len() > 0 ==> repo::discovered(
            start,
            answered(GitReplyView::Output(bytes), log),
        ) == Outcome::Done(text::trimmed(encoding::utf8_lossy(bytes)), log),
        text::trimmed(encoding::utf8_lossy(bytes)).len() == 0 ==> fails_with(
            repo::discovered(start, answered(GitReplyView::Output(bytes), log)),
            "not inside a git repository: "@ + start,
            log,
        ),
        fails_with(
            repo::discovered(start, answered(GitReplyView::Failed(bytes), log)),
            "not inside a git repository: "@ + start,
            log,
        ),
{
    lemma_answered(GitReplyView::Output(bytes), log);
    lemma_answered(GitReplyView::Failed(bytes), log);
    lemma_args(
        seq!["rev-parse"@, "--show-toplevel"@],
        seq!["--no-optional-locks"@, "rev-parse"@, "--show-toplevel"@],
    );
}

/// A name is resolved by asking git for the commit of that name; what it says is the commit.
pub proof fn law_commit_is_asked_for(root: Text, rev: Text, bytes: Seq<u8>, log: LogView)
    ensures
        log.git.len() == 0 ==> waits_for_git(
            repo::resolved(root, rev, log),
            root,
            seq![
                "--no-optional-locks"@,
                "rev-parse"@,
                "--verify"@,
                "--quiet"@,
                rev + "^{commit}"@,
            ],
        ),
        said(bytes).len() > 0 ==> repo::resolved(
            root,
            rev,
            answered(GitReplyView::Output(bytes), log),
        ) == Outcome::Done(said(bytes), log),
{
    lemma_answered(GitReplyView::Output(bytes), log);
    lemma_args(
        seq!["rev-parse"@, "--verify"@, "--quiet"@, rev + "^{commit}"@],
        seq!["--no-optional-locks"@, "rev-parse"@, "--verify"@, "--quiet"@, rev + "^{commit}"@],
    );
}

/// A name that git does not know is asked for again as that of a branch of the remote `origin`,
/// and only where that is not known either does resolving fail.
pub proof fn law_remote_is_asked_for(
    root: Text,
    rev: Text,
    complaint: Seq<u8>,
    bytes: Seq<u8>,
    log: LogView,
)
    ensures
        ({
            let refused = GitReplyView::Failed(complaint);
            &&& log.git.len() == 0 ==> waits_for_git(
                repo::resolved(root, rev, answered(refused, log)),
                root,
                seq![
                    "--no-optional-locks"@,
                    "rev-parse"@,
                    "--verify"@,
                    "--quiet"@,
                    "origin/"@ + rev + "^{commit}"@,
                ],
            )
            &&& said(bytes).len() > 0 ==> repo::resolved(
                root,
                rev,
                answered(refused, answered(GitReplyView::Output(bytes), log)),
            ) == Outcome::Done(said(bytes), log)
            &&& fails_with(
                repo::resolved(
                    root,
                    rev,
                    answered(refused, answered(GitReplyView::Failed(bytes), log)),
                ),
                "cannot resolve '"@ + rev + "' to a commit (tried '"@ + rev + "' and 'origin/"@
                    + rev + "')"@,
                log,
            )
        }),
{
    let refused = GitReplyView::Failed(complaint);
    let rest = answered(GitReplyView::Output(bytes), log);
    let again = answered(GitReplyView::Failed(bytes), log);
    lemma_answered(refused, log);
    lemma_answered(refused, rest);
    lemma_answered(refused, again);
    lemma_answered(GitReplyView::Output(bytes), log);
    lemma_answered(GitReplyView::Failed(bytes), log);
    lemma_args(
        seq!["rev-parse"@, "--verify"@, "--quiet"@, "origin/"@ + rev + "^{commit}"@],
        seq![
            "--no-optional-locks"@,
            "rev-parse"@,
            "--verify"@,
            "--quiet"@,
            "origin/"@ + rev + "^{commit}"@,
        ],
    );
}

/// The branch that is checked out is what git says `HEAD` stands for; where git fails or says
/// nothing, none is.
pub proof fn law_branch_is_asked_for(root: Text, bytes: Seq<u8>, log: LogView)
    ensures
        log.git.len() == 0 ==> waits_for_git(
            repo::tried_text(root, repo::branch_args(), log),
            root,
            seq!["--no-optional-locks"@, "symbolic-ref"@, "--quiet"@, "--short"@, "HEAD"@],
        ),
        repo::tried_text(root, repo::branch_args(), answered(GitReplyView::Output(bytes), log))
            == Outcome::Done(
            if said(bytes).len() > 0 {
                Some(said(bytes))
            } else {
                None
            },
            log,
        ),
        repo::tried_text(root, repo::branch_args(), answered(GitReplyView::Failed(bytes), log))
            == Outcome::Done(None::<Text>, log),
{
    lemma_answered(GitReplyView::Output(bytes), log);
    lemma_answered(GitReplyView::Failed(bytes), log);
    lemma_args(
        seq!["symbolic-ref"@, "--quiet"@, "--short"@, "HEAD"@],
        seq!["--no-optional-locks"@, "symbolic-ref"@, "--quiet"@, "--short"@, "HEAD"@],
    );
}

/// The usual base is what the remote `origin` calls its head, without the name of the remote.
/// Where it calls it nothing, `main` is asked for first.
pub proof fn law_base_is_asked_for(
    root: Text,
    name: Text,
    bytes: Seq<u8>,
    complaint: Seq<u8>,
    log: LogView,
)
    requires
        said(bytes) == "origin/"@ + name,
    ensures
        log.git.len() == 0 ==> waits_for_git(
            repo::guessed_base(root, log),
            root,
            seq![
                "--no-optional-locks"@,
                "symbolic-ref"@,
                "--quiet"@,
                "--short"@,
                "refs/remotes/origin/HEAD"@,
            ],
        ),
        repo::guessed_base(root, answered(GitReplyView::Output(bytes), log)) == Outcome::Done(
            name,
            log,
        ),
        log.git.len() == 0 ==> waits_for_git(
            repo::guessed_base(root, answered(GitReplyView::Failed(complaint), log)),
            root,
            seq![
                "--no-optional-locks"@,
                "rev-parse"@,
                "--verify"@,
                "--quiet"@,
                "main"@ + "^{commit}"@,
            ],
        ),
{
    lemma_answered(GitReplyView::Output(bytes), log);
    lemma_answered(GitReplyView::Failed(complaint), log);
    lemma_args(
        seq!["symbolic-ref"@, "--quiet"@, "--short"@, "refs/remotes/origin/HEAD"@],
        seq![
            "--no-optional-locks"@,
            "symbolic-ref"@,
            "--quiet"@,
            "--short"@,
            "refs/remotes/origin/HEAD"@,
        ],
    );
    reveal_strlit("origin/");
    let head = "origin/"@ + name;
    assert(head.subrange(0, 7) == "origin/"@);
    assert(head.skip(7) == name);
    law_commit_is_asked_for(root, "main"@, bytes, log);
}

/// Of the usual names the first that can be resolved is the base: `main`, `master`, `develop`, and
/// `main` where none can.
pub proof fn law_first_usual_base_is_taken(root: Text, log: LogView)
    ensures
        repo::first_resolved(root, repo::usual_bases(), log) == match repo::resolved(
            root,
            "main"@,
            log,
        ) {
            Outcome::Ask(request) => Outcome::Ask(request),
            Outcome::Done(_, left) => Outcome::Done("main"@, left),
            Outcome::Fail(_, left) => match repo::resolved(root, "master"@, left) {
                Outcome::Ask(request) => Outcome::Ask(request),
                Outcome::Done(_, left) => Outcome::Done("master"@, left),
                Outcome::Fail(_, left) => match repo::resolved(root, "develop"@, left) {
                    Outcome::Ask(request) => Outcome::Ask(request),
                    Outcome::Done(_, left) => Outcome::Done("develop"@, left),
                    Outcome::Fail(_, left) => Outcome::Done("main"@, left),
                },
            },
        },
{
    reveal_with_fuel(repo::first_resolved, 4);
    let all = seq!["main"@, "master"@, "develop"@];
    assert(all.drop_first() == seq!["master"@, "develop"@]);
    assert(seq!["master"@, "develop"@].drop_first() == seq!["develop"@]);
    assert(seq!["develop"@].drop_first() == Seq::<Text>::empty());
}

/// The common ancestor of two commits is what git says is their merge base; where git fails, they
/// have none.
pub proof fn law_ancestor_is_asked_for(root: Text, a: Text, b: Text, bytes: Seq<u8>, log: LogView)
    ensures
        log.git.len() == 0 ==> waits_for_git(
            repo::common_ancestor(root, a, b, log),
            root,
            seq!["--no-optional-locks"@, "merge-base"@, a, b],
        ),
        said(bytes).len() > 0 ==> repo::common_ancestor(
            root,
            a,
            b,
            answered(GitReplyView::Output(bytes), log),
        ) == Outcome::Done(said(bytes), log),
        fails_with(
            repo::common_ancestor(root, a, b, answered(GitReplyView::Failed(bytes), log)),
            "'"@ + a + "' and '"@ + b + "' have no common ancestor"@,
            log,
        ),
{
    lemma_answered(GitReplyView::Output(bytes), log);
    lemma_answered(GitReplyView::Failed(bytes), log);
    lemma_args(seq!["merge-base"@, a, b], seq!["--no-optional-locks"@, "merge-base"@, a, b]);
}

/// A commit is described by its short name and its subject, which git gives with a separator
/// between them, under the label and the name that were asked with.
pub proof fn law_description_is_asked_for(
    root: Text,
    label: Text,
    sha: Text,
    short: Text,
    subject: Text,
    bytes: Seq<u8>,
    log: LogView,
)
    requires
        !short.contains('\u{1f}'),
        said(bytes) == short.push('\u{1f}') + subject,
    ensures
        log.git.len() == 0 ==> waits_for_git(
            repo::described(root, label, sha, log),
            root,
            seq!["--no-optional-locks"@, "log"@, "-1"@, "--format=%h%x1f%s"@, sha],
        ),
        repo::described(root, label, sha, answered(GitReplyView::Output(bytes), log))
            == Outcome::Done(RefInfoView { label, sha, short, subject }, log),
        repo::described(root, label, sha, answered(GitReplyView::Failed(bytes), log))
            == Outcome::Done(
            RefInfoView { label, sha, short: Seq::empty(), subject: Seq::empty() },
            log,
        ),
{
    lemma_answered(GitReplyView::Output(bytes), log);
    lemma_answered(GitReplyView::Failed(bytes), log);
    lemma_args(
        seq!["log"@, "-1"@, "--format=%h%x1f%s"@, sha],
        seq!["--no-optional-locks"@, "log"@, "-1"@, "--format=%h%x1f%s"@, sha],
    );
    lemma_split(short, subject, '\u{1f}');
}

/// What stands before the first separator, and what stands behind it.
proof fn lemma_split(a: Text, b: Text, sep: char)
    requires
        !a.contains(sep),
    ensures
        text::split_at_first(a.push(sep) + b, sep) == Some((a, b)),
{
    let s = a.push(sep) + b;
    assert forall|j: int| 0 <= j < a.len() implies s[j] != sep by {
        assert(s[j] == a[j]);
        assert(a.contains(a[j]));
    }
    assert(s[a.len() as int] == sep);
    text::lemma_first_index(s, sep, a.len() as int);
    assert(s.take(a.len() as int) == a);
    assert(s.skip(a.len() as int + 1) == b);
}

/// The first parent of a commit is what git says it is; where git knows none, it is the tree
/// without files.
pub proof fn law_parent_is_asked_for(root: Text, sha: Text, bytes: Seq<u8>, log: LogView)
    ensures
        log.git.len() == 0 ==> waits_for_git(
            repo::first_parent_of(root, sha, log),
            root,
            seq!["--no-optional-locks"@, "rev-parse"@, "--verify"@, "--quiet"@, sha + "^1"@],
        ),
        said(bytes).len() > 0 ==> repo::first_parent_of(
            root,
            sha,
            answered(GitReplyView::Output(bytes), log),
        ) == Outcome::Done(said(bytes), log),
        repo::first_parent_of(root, sha, answered(GitReplyView::Failed(bytes), log))
            == Outcome::Done("4b825dc642cb6eb9a060e54bf8d69288fbee4904"@, log),
{
    lemma_answered(GitReplyView::Output(bytes), log);
    lemma_answered(GitReplyView::Failed(bytes), log);
    lemma_args(
        seq!["rev-parse"@, "--verify"@, "--quiet"@, sha + "^1"@],
        seq!["--no-optional-locks"@, "rev-parse"@, "--verify"@, "--quiet"@, sha + "^1"@],
    );
}

/// Whether a commit is told of by a record: its name, its short name and its subject, with
/// separators between them.
pub open spec fn tells_of(record: Text, commit: RefInfoView) -> bool {
    &&& !commit.sha.contains('\u{1f}')
    &&& !commit.short.contains('\u{1f}')
    &&& record == commit.sha.push('\u{1f}') + (commit.short.push('\u{1f}') + commit.subject)
}

/// The last commit of a side: the side itself, or what is checked out under the work tree.
pub open spec fn last_commit(head: SideView) -> Text {
    match head {
        SideView::Rev(rev) => rev,
        SideView::Worktree => "HEAD"@,
    }
}

/// The commits of a review are listed from its base to its head, or to what is checked out where
/// the work tree is reviewed: one for each record that git writes, in that order, under its short
/// name.
pub proof fn law_commits_are_listed(
    root: Text,
    base: Text,
    head: SideView,
    records: Seq<Seq<u8>>,
    commits: Seq<RefInfoView>,
    log: LogView,
)
    requires
        forall|i: int|
            0 <= i < records.len() ==> (#[trigger] records[i]).len() > 0 && !records[i].contains(0),
        records.len() == commits.len(),
        forall|i: int|
            0 <= i < records.len() ==> tells_of(
                encoding::utf8_lossy(#[trigger] records[i]),
                commits[i],
            ) && commits[i].label == commits[i].short,
    ensures
        log.git.len() == 0 ==> waits_for_git(
            repo::listed_commits(root, base, head, log),
            root,
            seq![
                "--no-optional-locks"@,
                "log"@,
                "-z"@,
                "--format=%H%x1f%h%x1f%s"@,
                base + ".."@ + last_commit(head),
            ],
        ),
        repo::listed_commits(
            root,
            base,
            head,
            answered(GitReplyView::Output(git_laws::written(records)), log),
        ) == Outcome::Done(commits, log),
{
    let reply = GitReplyView::Output(git_laws::written(records));
    lemma_answered(reply, log);
    let end = last_commit(head);
    lemma_args(
        seq!["log"@, "-z"@, "--format=%H%x1f%h%x1f%s"@, base + ".."@ + end],
        seq![
            "--no-optional-locks"@,
            "log"@,
            "-z"@,
            "--format=%H%x1f%h%x1f%s"@,
            base + ".."@ + end,
        ],
    );
    git_laws::law_fields_are_records(records);
    let listed = git::fields_of(git_laws::written(records)).map_values(
        |record: Text| repo::listed_commit(record),
    );
    assert forall|i: int| 0 <= i < commits.len() implies listed[i] == commits[i] by {
        let record = encoding::utf8_lossy(records[i]);
        let commit = commits[i];
        assert(tells_of(record, commit));
        lemma_split(commit.sha, commit.short.push('\u{1f}') + commit.subject, '\u{1f}');
        lemma_split(commit.short, commit.subject, '\u{1f}');
    }
    assert(listed == commits);
}

/// The files of a side are listed by git. For every run that succeeds the list is strictly in the
/// order of the bytes of the paths, and a path is in it just where it is one of the records that
/// git wrote.
pub proof fn law_listing_is_the_records(
    root: Text,
    side: SideView,
    records: Seq<Seq<u8>>,
    log: LogView,
)
    requires
        forall|i: int|
            0 <= i < records.len() ==> (#[trigger] records[i]).len() > 0 && !records[i].contains(0),
    ensures
        log.git.len() == 0 ==> waits_for_git(
            repo::listed(root, side, log),
            root,
            match side {
                SideView::Rev(rev) => seq![
                    "--no-optional-locks"@,
                    "ls-tree"@,
                    "-r"@,
                    "--name-only"@,
                    "-z"@,
                    rev,
                ],
                SideView::Worktree => seq![
                    "--no-optional-locks"@,
                    "ls-files"@,
                    "--cached"@,
                    "--others"@,
                    "--exclude-standard"@,
                    "-z"@,
                ],
            },
        ),
        ({
            let reply = GitReplyView::Output(git_laws::written(records));
            repo::listed(root, side, answered(reply, log)) matches Outcome::Done(files, left)
                && left == log && (forall|i: int, j: int|
                0 <= i < j < files.len() ==> order::before(
                    #[trigger] files[i],
                    #[trigger] files[j],
                )) && (forall|path: Text| #[trigger]
                files.contains(path) <==> (exists|i: int|
                    0 <= i < records.len() && path == encoding::utf8_lossy(
                        #[trigger] records[i],
                    )))
        }),
{
    let reply = GitReplyView::Output(git_laws::written(records));
    lemma_answered(reply, log);
    if let SideView::Rev(rev) = side {
        lemma_args(
            seq!["ls-tree"@, "-r"@, "--name-only"@, "-z"@, rev],
            seq!["--no-optional-locks"@, "ls-tree"@, "-r"@, "--name-only"@, "-z"@, rev],
        );
    } else {
        lemma_args(
            seq!["ls-files"@, "--cached"@, "--others"@, "--exclude-standard"@, "-z"@],
            seq![
                "--no-optional-locks"@,
                "ls-files"@,
                "--cached"@,
                "--others"@,
                "--exclude-standard"@,
                "-z"@,
            ],
        );
    }
    git_laws::law_fields_are_records(records);
    let paths = git::fields_of(git_laws::written(records));
    git_laws::law_listing_is_ordered_set(paths);
    let files = git::without_repeats(git::sorted_texts(paths));
    assert(git_laws::strictly_ordered(files));
    assert forall|path: Text| #[trigger] files.contains(path) <==> (exists|i: int|
        0 <= i < records.len() && path == encoding::utf8_lossy(#[trigger] records[i])) by {
        assert(files.contains(path) <==> paths.contains(path));
        if paths.contains(path) {
            let i = choose|i: int| 0 <= i < paths.len() && paths[i] == path;
            assert(path == encoding::utf8_lossy(records[i]));
        }
        if exists|i: int| 0 <= i < records.len() && path == encoding::utf8_lossy(
            #[trigger] records[i],
        ) {
            let i = choose|i: int|
                0 <= i < records.len() && path == encoding::utf8_lossy(#[trigger] records[i]);
            assert(paths[i] == path);
        }
    }
}

/// A run of git that fails, where its output is needed, fails the work with what was run and what
/// git complained of; one that could not be made fails it with the reason.
pub proof fn law_failed_run_is_told(
    root: Text,
    side: SideView,
    complaint: Seq<u8>,
    reason: Text,
    log: LogView,
)
    ensures
        repo::listed(root, side, answered(GitReplyView::NotRun(reason), log)) == Outcome::<
            Seq<Text>,
        >::Fail(
            ErrorView {
                message: "failed to run git; is it installed and on PATH?"@,
                cause: Some(reason),
            },
            log,
        ),
        side matches SideView::Rev(rev) ==> fails_with(
            repo::listed(root, side, answered(GitReplyView::Failed(complaint), log)),
            "git "@ + ("ls-tree -r --name-only -z "@ + rev) + " failed: "@ + text::trimmed(
                encoding::utf8_lossy(complaint),
            ),
            log,
        ),
{
    lemma_answered(GitReplyView::NotRun(reason), log);
    lemma_answered(GitReplyView::Failed(complaint), log);
    if let SideView::Rev(rev) = side {
        let args = seq!["ls-tree"@, "-r"@, "--name-only"@, "-z"@, rev];
        reveal_with_fuel(text::join_with, 6);
        reveal_strlit("ls-tree");
        reveal_strlit("-r");
        reveal_strlit("--name-only");
        reveal_strlit("-z");
        reveal_strlit("ls-tree -r --name-only -z ");
        assert(args.drop_last() == seq!["ls-tree"@, "-r"@, "--name-only"@, "-z"@]);
        assert(args.drop_last().drop_last() == seq!["ls-tree"@, "-r"@, "--name-only"@]);
        assert(args.drop_last().drop_last().drop_last() == seq!["ls-tree"@, "-r"@]);
        assert(args.drop_last().drop_last().drop_last().drop_last() == seq!["ls-tree"@]);
        assert(text::join_with(args, ' ') == "ls-tree -r --name-only -z "@ + rev);
    }
}

/// A number in decimal is its digits, the highest first, without leading zeros.
pub proof fn law_decimal(n: nat)
    ensures
        n < 10 ==> number::decimal(n) == seq![((n as int) + ('0' as int)) as char],
        n >= 10 ==> number::decimal(n) == number::decimal(n / 10).push(
            (((n % 10) as int) + ('0' as int)) as char,
        ),
{
}

proof fn lemma_decimal_digits(n: nat)
    ensures
        number::decimal(n).len() > 0,
        forall|i: int|
            0 <= i < number::decimal(n).len() ==> '0' <= #[trigger] number::decimal(n)[i] <= '9',
    decreases n,
{
    if n >= 10 {
        lemma_decimal_digits(n / 10);
    }
}

/// Counts that git writes are read back: of a record with two numbers and a path, and of one with
/// two numbers and, behind it, the old and the new path of a file that was moved, the numbers are
/// the line counts of the path, and the file is text; with a dash for each, the file is binary and
/// has no lines.
pub proof fn law_counts_are_read_back(
    added: nat,
    deleted: nat,
    old_path: Option<Text>,
    path: Text,
    rest: Seq<Text>,
    known: vstd::map::Map<Text, (u32, u32, bool)>,
)
    requires
        added <= u32::MAX,
        deleted <= u32::MAX,
        path.len() > 0,
    ensures
        git::stats_from(Seq::empty(), known) == known,
        git::stats_from(
            (match old_path {
                Some(old) => seq![
                    number::decimal(added).push('\t') + number::decimal(deleted).push('\t'),
                    old,
                    path,
                ],
                None => seq![
                    number::decimal(added).push('\t') + number::decimal(deleted).push('\t') + path,
                ],
            }) + rest,
            known,
        ) == git::stats_from(rest, known.insert(path, (added as u32, deleted as u32, false))),
        git::stats_from(
            (match old_path {
                Some(old) => seq![seq!['-', '\t', '-', '\t'], old, path],
                None => seq![seq!['-', '\t', '-', '\t'] + path],
            }) + rest,
            known,
        ) == git::stats_from(rest, known.insert(path, (0u32, 0u32, true))),
{
    let (a, d) = (number::decimal(added), number::decimal(deleted));
    lemma_decimal_digits(added);
    lemma_decimal_digits(deleted);
    number::law_print_parse(added, u32::MAX as nat);
    number::law_print_parse(deleted, u32::MAX as nat);
    reveal_strlit("-");
    let dash = seq!['-'];
    assert("-"@ == dash);
    assert(a != dash) by {
        assert('0' <= a[0] <= '9');
    }
    assert(!a.contains('\t') && !d.contains('\t'));
    git_laws::law_counts_are_read(a, d, old_path, path, rest, known);
    assert(number::parsed(dash, u32::MAX as nat) is None) by {
        assert(!number::is_digit(dash[0]));
        assert(number::without_plus(dash) == dash);
    }
    assert(!dash.contains('\t'));
    git_laws::law_counts_are_read(dash, dash, old_path, path, rest, known);
    assert(dash.push('\t') + dash.push('\t') == seq!['-', '\t', '-', '\t']);
}

/// Where git could not be run, looking something up goes as where git failed.
pub proof fn law_unrun_lookup_is_a_failed_one(
    dir: Text,
    name: Text,
    other: Text,
    reason: Text,
    complaint: Seq<u8>,
    log: LogView,
)
    ensures
        ({
            let unrun = answered(GitReplyView::NotRun(reason), log);
            let failed = answered(GitReplyView::Failed(complaint), log);
            &&& repo::discovered(dir, unrun) == repo::discovered(dir, failed)
            &&& repo::resolved(dir, name, unrun) == repo::resolved(dir, name, failed)
            &&& repo::guessed_base(dir, unrun) == repo::guessed_base(dir, failed)
            &&& repo::common_ancestor(dir, name, other, unrun) == repo::common_ancestor(
                dir,
                name,
                other,
                failed,
            )
            &&& repo::described(dir, name, other, unrun) == repo::described(
                dir,
                name,
                other,
                failed,
            )
            &&& repo::first_parent_of(dir, name, unrun) == repo::first_parent_of(dir, name, failed)
            &&& repo::tried_text(dir, repo::branch_args(), unrun) == repo::tried_text(
                dir,
                repo::branch_args(),
                failed,
            )
        }),
{
    lemma_answered(GitReplyView::NotRun(reason), log);
    lemma_answered(GitReplyView::Failed(complaint), log);
}

/// A commit without a subject is described by its short name alone.
pub proof fn law_description_without_subject(
    root: Text,
    label: Text,
    sha: Text,
    bytes: Seq<u8>,
    log: LogView,
)
    requires
        said(bytes).len() > 0,
        !said(bytes).contains('\u{1f}'),
    ensures
        repo::described(root, label, sha, answered(GitReplyView::Output(bytes), log))
            == Outcome::Done(
            RefInfoView { label, sha, short: said(bytes), subject: Seq::empty() },
            log,
        ),
{
    lemma_answered(GitReplyView::Output(bytes), log);
    let line = said(bytes);
    assert forall|j: int| 0 <= j < line.len() implies line[j] != '\u{1f}' by {
        assert(line.contains(line[j]));
    }
    text::lemma_first_index(line, '\u{1f}', line.len() as int);
}

/// A name that git answers with nothing is looked for on the remote, as one that it does not know.
pub proof fn law_empty_answer_is_no_commit(
    root: Text,
    rev: Text,
    bytes: Seq<u8>,
    complaint: Seq<u8>,
    log: LogView,
)
    requires
        said(bytes).len() == 0,
    ensures
        repo::resolved(root, rev, answered(GitReplyView::Output(bytes), log)) == repo::resolved(
            root,
            rev,
            answered(GitReplyView::Failed(complaint), log),
        ),
{
    lemma_answered(GitReplyView::Output(bytes), log);
    lemma_answered(GitReplyView::Failed(complaint), log);
}

/// An empty record adds no field, and what follows the last NUL is a record too.
pub proof fn law_fields_skip_what_is_empty(records: Seq<Seq<u8>>, last: Seq<u8>)
    requires
        forall|i: int|
            0 <= i < records.len() ==> (#[trigger] records[i]).len() > 0 && !records[i].contains(0),
        last.len() > 0,
        !last.contains(0),
    ensures
        git::fields_of(git_laws::written(records.push(Seq::empty()))) == git::fields_of(
            git_laws::written(records),
        ),
        git::fields_of(git_laws::written(records) + last) == git::fields_of(
            git_laws::written(records),
        ).push(encoding::utf8_lossy(last)),
{
    let none = Seq::<u8>::empty();
    let before = git_laws::written(records);
    let more = records.push(none);
    git_laws::law_fields_are_records(records);
    git_laws::lemma_split_written(records);
    assert forall|i: int| 0 <= i < more.len() implies !(#[trigger] more[i]).contains(0) by {
        if i < records.len() {
            assert(more[i] == records[i]);
        }
    }
    git_laws::lemma_split_written(more);
    git_laws::lemma_split_add(before, last);
    let split = records.push(none);
    assert(split.drop_last() == records);
    assert(none + last == last);
    assert(text::split_on(before, 0u8) == split);
    assert(text::split_on(before + last, 0u8) == records.push(last));
    assert(records.push(last).drop_last() == records);
    assert(more.push(none).drop_last() == more);
    assert(more.drop_last() == records);
}

/// A count that is no number, or more than 32 bits hold, is read as none.
pub proof fn law_other_counts_are_none(
    added: Text,
    deleted: Text,
    path: Text,
    rest: Seq<Text>,
    known: vstd::map::Map<Text, (u32, u32, bool)>,
)
    requires
        !added.contains('\t'),
        !deleted.contains('\t'),
        path.len() > 0,
        number::parsed(added, 0xffff_ffff) is None,
        number::parsed(deleted, 0xffff_ffff) is None,
    ensures
        git::stats_from(
            seq![added.push('\t') + deleted.push('\t') + path] + rest,
            known,
        ) == git::stats_from(rest, known.insert(path, (0u32, 0u32, added == seq!['-']))),
{
    reveal_strlit("-");
    assert("-"@ == seq!['-']);
    git_laws::law_counts_are_read(added, deleted, None, path, rest, known);
}

/// A path is put below a root with one slash between them, whether the root ends in one or not.
pub proof fn law_below(root: Text, path: Text)
    requires
        root.len() > 0,
    ensures
        root.last() == '/' ==> repo::below(root, path) == root + path,
        root.last() != '/' ==> repo::below(root, path) == root + seq!['/'] + path,
{
    assert(root.push('/') == root + seq!['/']);
}

} // verus!
