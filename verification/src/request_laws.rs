//! What each request asks of git, and what it makes of the answers.

use vstd::prelude::*;
use vstd::utf8::*;

use crate::diff;
#[allow(unused_imports)]
use crate::diff::{Context, InputView};
use crate::diff_laws;
use crate::encoding;
use crate::git;
#[allow(unused_imports)]
use crate::git::{FileEntryView, RefInfoView, SideView, Status};
use crate::number;
use crate::repo;
use crate::repo_laws;
use crate::server;
#[allow(unused_imports)]
use crate::server::{
    AppView,
    Assets,
    ComparisonView,
    DiffJobView,
    JobView,
    MetaView,
    ReplyView,
    ViewJobView,
};
#[allow(unused_imports)]
use crate::session::{ErrorView, GitReplyView, LogView, Outcome, ReadReplyView, RequestView};
use crate::text;
#[allow(unused_imports)]
use crate::text::Text;

verus! {

proof fn lemma_answered(reply: GitReplyView, log: LogView)
    ensures
        repo_laws::answered(reply, log).git.len() > 0,
        repo_laws::answered(reply, log).git[0] == reply,
        (LogView {
            git: repo_laws::answered(reply, log).git.skip(1),
            ..repo_laws::answered(reply, log)
        }) == log,
{
    assert(repo_laws::answered(reply, log).git.skip(1) == log.git);
}

proof fn lemma_show_args(what: Text)
    ensures
        seq!["--no-optional-locks"@] + seq!["show"@, what] == seq![
            "--no-optional-locks"@,
            "show"@,
            what,
        ],
{
    assert(seq!["--no-optional-locks"@] + seq!["show"@, what] == seq![
        "--no-optional-locks"@,
        "show"@,
        what,
    ]);
}

/// The path of a changed file before it changed: its old path where it has one.
pub open spec fn path_before(entry: FileEntryView) -> Text {
    match entry.old_path {
        Some(old) => old,
        None => entry.path,
    }
}

/// The base side of a changed file is what git shows of the base under the path that the file had
/// there: its old path where it has one, else its path. A file that is new has no base side, and
/// git is asked for its head side at once.
pub proof fn law_base_side_is_under_old_path(
    app: AppView,
    comparison: ComparisonView,
    entry: FileEntryView,
    log: LogView,
)
    requires
        log.git.len() == 0,
    ensures
        entry.status != Status::Added && entry.status != Status::Untracked
            ==> repo_laws::waits_for_git(
            server::both_sides(app, comparison, entry, log),
            app.root,
            seq![
                "--no-optional-locks"@,
                "show"@,
                comparison.base + ":"@ + path_before(entry),
            ],
        ),
        entry.status == Status::Added || entry.status == Status::Untracked ==> (
        comparison.head matches SideView::Rev(rev) ==> repo_laws::waits_for_git(
            server::both_sides(app, comparison, entry, log),
            app.root,
            seq!["--no-optional-locks"@, "show"@, rev + ":"@ + entry.path],
        )),
{
    lemma_show_args(comparison.base + ":"@ + path_before(entry));
    if let SideView::Rev(rev) = comparison.head {
        lemma_show_args(rev + ":"@ + entry.path);
    }
}

/// The head side of a changed file is what git shows of the head under its path, or what is read
/// there in the work tree. A file that is gone has no head side.
pub proof fn law_head_side_is_under_path(
    app: AppView,
    comparison: ComparisonView,
    entry: FileEntryView,
    old: Seq<u8>,
    log: LogView,
)
    requires
        entry.status != Status::Added,
        entry.status != Status::Untracked,
        log.git.len() == 0,
        log.reads.len() == 0,
    ensures
        ({
            let sides = server::both_sides(
                app,
                comparison,
                entry,
                repo_laws::answered(GitReplyView::Output(old), log),
            );
            &&& entry.status == Status::Deleted ==> sides == Outcome::Done(
                (Some(old), None::<Seq<u8>>),
                log,
            )
            &&& entry.status != Status::Deleted ==> (comparison.head matches SideView::Rev(rev)
                ==> repo_laws::waits_for_git(
                sides,
                app.root,
                seq!["--no-optional-locks"@, "show"@, rev + ":"@ + entry.path],
            ))
            &&& entry.status != Status::Deleted && comparison.head is Worktree && !repo::escapes(
                entry.path,
            ) && app.root.len() > 0 && app.root.last() != '/' ==> sides == Outcome::<
                (Option<Seq<u8>>, Option<Seq<u8>>),
            >::Ask(RequestView::Read(seq![app.root.push('/') + entry.path]))
        }),
{
    lemma_answered(GitReplyView::Output(old), log);
    if let SideView::Rev(rev) = comparison.head {
        lemma_show_args(rev + ":"@ + entry.path);
    }
}

/// The answers are the two sides, the base first; a side that git refuses to show is not there.
pub proof fn law_answers_are_the_sides(
    app: AppView,
    base: Text,
    head: Text,
    entry: FileEntryView,
    old: Seq<u8>,
    new: Seq<u8>,
    log: LogView,
)
    ensures
        ({
            let comparison = ComparisonView { base, head: SideView::Rev(head) };
            let here = GitReplyView::Output(new);
            let there = GitReplyView::Output(old);
            let gone = GitReplyView::Failed(old);
            let is_new = entry.status == Status::Added || entry.status == Status::Untracked;
            &&& !is_new && entry.status != Status::Deleted ==> server::both_sides(
                app,
                comparison,
                entry,
                repo_laws::answered(there, repo_laws::answered(here, log)),
            ) == Outcome::Done((Some(old), Some(new)), log)
            &&& !is_new && entry.status != Status::Deleted ==> server::both_sides(
                app,
                comparison,
                entry,
                repo_laws::answered(gone, repo_laws::answered(here, log)),
            ) == Outcome::Done((None::<Seq<u8>>, Some(new)), log)
            &&& is_new ==> server::both_sides(
                app,
                comparison,
                entry,
                repo_laws::answered(here, log),
            ) == Outcome::Done((None::<Seq<u8>>, Some(new)), log)
        }),
{
    let here = GitReplyView::Output(new);
    lemma_answered(here, log);
    lemma_answered(GitReplyView::Output(old), repo_laws::answered(here, log));
    lemma_answered(GitReplyView::Failed(old), repo_laws::answered(here, log));
}

/// The entry of a path is the first of that path; where there is none, none is found.
pub proof fn law_entry_is_found_by_path(entries: Seq<FileEntryView>, path: Text, i: int)
    requires
        0 <= i <= entries.len(),
        forall|j: int| 0 <= j < i ==> (#[trigger] entries[j]).path != path,
    ensures
        i < entries.len() && entries[i].path == path ==> server::entry_at(entries, path) == Some(
            entries[i],
        ),
        i == entries.len() ==> server::entry_at(entries, path) is None,
    decreases entries.len(),
{
    if entries.len() > 0 && i > 0 {
        let rest = entries.drop_first();
        assert(entries[0].path != path);
        assert forall|j: int| 0 <= j < i - 1 implies (#[trigger] rest[j]).path != path by {
            assert(rest[j] == entries[j + 1]);
        }
        law_entry_is_found_by_path(rest, path, i - 1);
        if i < entries.len() {
            assert(rest[i - 1] == entries[i]);
        }
    }
}

/// Whether bytes have no NUL near their start.
pub open spec fn looks_like_text(bytes: Seq<u8>) -> bool {
    forall|i: int| 0 <= i < bytes.len() && i < 8000 ==> #[trigger] bytes[i] != 0
}

proof fn lemma_text(s: Text)
    requires
        looks_like_text(encode_utf8(s)),
    ensures
        server::decoded(Some(encode_utf8(s))) == (Some(s), false),
{
    encode_utf8_valid_utf8(s);
    encode_utf8_decode_utf8(s);
    if git::looks_binary(encode_utf8(s)) {
        let i = choose|i: int|
            0 <= i < encode_utf8(s).len() && i < git::BINARY_PROBE && #[trigger] encode_utf8(s)[i]
                == 0;
        assert(encode_utf8(s)[i] != 0);
    }
}

/// Bytes are text just where they have no NUL near their start and are UTF-8, and binary where
/// they are not.
pub proof fn law_bytes_are_text_or_binary(bytes: Seq<u8>)
    ensures
        server::decoded(Some(bytes)) == (if looks_like_text(bytes) && valid_utf8(bytes) {
            (Some(decode_utf8(bytes)), false)
        } else {
            (None::<Text>, true)
        }),
        server::decoded(None) == (None::<Text>, false),
{
    if git::looks_binary(bytes) {
        let i = choose|i: int|
            0 <= i < bytes.len() && i < git::BINARY_PROBE && #[trigger] bytes[i] == 0;
        assert(i < 8000 && bytes[i] == 0);
    } else {
        assert forall|i: int| 0 <= i < bytes.len() && i < 8000 implies #[trigger] bytes[i] != 0 by {
            if bytes[i] == 0 {
                assert(git::looks_binary(bytes));
            }
        }
    }
}

/// A request for the difference of a file that both sides have leads to the difference of what git
/// shows of the two, under the path, the old path, the status and the line counts that the file is
/// listed with. It is binary just where it is listed so.
pub proof fn law_diff_is_of_what_git_shows(
    app: AppView,
    params: vstd::map::Map<Text, Text>,
    head: Text,
    entries: Seq<FileEntryView>,
    i: int,
    old: Text,
    new: Text,
    log: LogView,
)
    requires
        app.head == SideView::Rev(head),
        0 <= i < entries.len(),
        entries[i].path.len() > 0,
        forall|j: int| 0 <= j < i ==> (#[trigger] entries[j]).path != entries[i].path,
        entries[i].status != Status::Added,
        entries[i].status != Status::Untracked,
        entries[i].status != Status::Deleted,
        params.contains_key("path"@),
        params["path"@] == entries[i].path,
        !params.contains_key("commit"@),
        looks_like_text(encode_utf8(old)),
        looks_like_text(encode_utf8(new)),
        log.lookups.len() == 0,
    ensures
        ({
            let found = LogView { lookups: seq![Some(entries)], ..log };
            let there = GitReplyView::Output(encode_utf8(old));
            let here = GitReplyView::Output(encode_utf8(new));
            let entry = entries[i];
            &&& server::asked_diff(app, params, log) == Outcome::<DiffJobView>::Ask(
                RequestView::Lookup(app.base + ".."@ + head),
            )
            &&& log.git.len() == 0 ==> repo_laws::waits_for_git(
                server::asked_diff(app, params, found),
                app.root,
                seq![
                    "--no-optional-locks"@,
                    "show"@,
                    app.base + ":"@ + path_before(entry),
                ],
            )
            &&& server::asked_diff(
                app,
                params,
                repo_laws::answered(there, repo_laws::answered(here, found)),
            ) matches Outcome::Done(job, left) && left == log && job.input == (InputView {
                path: entry.path,
                old_path: entry.old_path,
                status: entry.status,
                additions: entry.additions,
                deletions: entry.deletions,
                old_text: Some(old),
                new_text: Some(new),
                binary: entry.binary,
            })
        }),
{
    let found = LogView { lookups: seq![Some(entries)], ..log };
    let there = GitReplyView::Output(encode_utf8(old));
    let here = GitReplyView::Output(encode_utf8(new));
    let both = repo_laws::answered(there, repo_laws::answered(here, found));
    let entry = entries[i];
    let comparison = ComparisonView { base: app.base, head: app.head };
    assert(found.lookups.skip(1) == log.lookups);
    assert((LogView { lookups: found.lookups.skip(1), ..found }) == log);
    assert((LogView { lookups: both.lookups.skip(1), ..both }) == repo_laws::answered(
        there,
        repo_laws::answered(here, log),
    ));
    law_entry_is_found_by_path(entries, entry.path, i);
    if log.git.len() == 0 {
        law_base_side_is_under_old_path(app, comparison, entry, log);
    }
    law_answers_are_the_sides(
        app,
        app.base,
        head,
        entry,
        encode_utf8(old),
        encode_utf8(new),
        log,
    );
    lemma_text(old);
    lemma_text(new);
}

/// A request for the difference of a file that is not among the changed ones is refused.
pub proof fn law_unchanged_file_is_refused(
    app: AppView,
    params: vstd::map::Map<Text, Text>,
    path: Text,
    entries: Seq<FileEntryView>,
    log: LogView,
)
    requires
        path.len() > 0,
        params.contains_key("path"@),
        params["path"@] == path,
        !params.contains_key("commit"@),
        log.lookups.len() > 0,
        log.lookups[0] == Some(entries),
        forall|j: int| 0 <= j < entries.len() ==> (#[trigger] entries[j]).path != path,
    ensures
        repo_laws::fails_with(
            server::asked_diff(app, params, log),
            "'"@ + path + "' is not part of this comparison"@,
            LogView { lookups: log.lookups.skip(1), ..log },
        ),
{
    law_entry_is_found_by_path(entries, path, entries.len() as int);
}

/// The context of a difference is what the parameter `ctx` asks for: all lines, or a number of
/// lines up to 200; three where it is not given or is no number.
pub proof fn law_context_is_as_asked(params: vstd::map::Map<Text, Text>, n: nat)
    requires
        n <= usize::MAX,
    ensures
        !params.contains_key("ctx"@) ==> server::asked_context(params) == Context::Lines(3),
        params.contains_key("ctx"@) && params["ctx"@] == "full"@ ==> server::asked_context(params)
            == Context::Full,
        params.contains_key("ctx"@) && params["ctx"@] == number::decimal(n)
            ==> server::asked_context(params) == Context::Lines(
            if n < 200 {
                n as usize
            } else {
                200
            },
        ),
        params.contains_key("ctx"@) && params["ctx"@] != "full"@ && (exists|i: int|
            0 <= i < params["ctx"@].len() && !(#[trigger] params["ctx"@][i] == '+' || '0'
                <= params["ctx"@][i] <= '9')) ==> server::asked_context(params) == Context::Lines(
            3,
        ),
{
    diff_laws::law_context_reads_number(n);
    diff_laws::law_context_reads_number(3);
    reveal_strlit("3");
    assert(number::decimal(3) == "3"@);
    if params.contains_key("ctx"@) && params["ctx"@] != "full"@ && (exists|i: int|
        0 <= i < params["ctx"@].len() && !(#[trigger] params["ctx"@][i] == '+' || '0'
            <= params["ctx"@][i] <= '9')) {
        let raw = params["ctx"@];
        let i = choose|i: int|
            0 <= i < raw.len() && !(#[trigger] raw[i] == '+' || '0' <= raw[i] <= '9');
        let digits = number::without_plus(raw);
        if number::all_digits(digits) {
            if raw[0] == '+' {
                assert(digits[i - 1] == raw[i]);
            }
            assert(number::is_digit(raw[i]));
        }
    }
}

/// A request for a file reads it from the base of the comparison where it asks for the base, else
/// from the head, under the path that it gives.
pub proof fn law_file_is_read_from_side(
    app: AppView,
    params: vstd::map::Map<Text, Text>,
    head: Text,
    path: Text,
    s: Text,
    complaint: Seq<u8>,
    log: LogView,
)
    requires
        app.head == SideView::Rev(head),
        path.len() > 0,
        params.contains_key("path"@),
        params["path"@] == path,
        !params.contains_key("commit"@),
        looks_like_text(encode_utf8(s)),
    ensures
        ({
            let side = if params.contains_key("side"@) && params["side"@] == "base"@ {
                app.base
            } else {
                head
            };
            &&& log.git.len() == 0 ==> repo_laws::waits_for_git(
                server::asked_view(app, params, log),
                app.root,
                seq!["--no-optional-locks"@, "show"@, side + ":"@ + path],
            )
            &&& server::asked_view(
                app,
                params,
                repo_laws::answered(GitReplyView::Output(encode_utf8(s)), log),
            ) == Outcome::Done(ViewJobView { path, text: Some(s), binary: false }, log)
            &&& server::asked_view(
                app,
                params,
                repo_laws::answered(GitReplyView::Failed(complaint), log),
            ) == Outcome::Done(ViewJobView { path, text: None, binary: false }, log)
        }),
{
    let side = if params.contains_key("side"@) && params["side"@] == "base"@ {
        app.base
    } else {
        head
    };
    lemma_show_args(side + ":"@ + path);
    lemma_answered(GitReplyView::Output(encode_utf8(s)), log);
    lemma_answered(GitReplyView::Failed(complaint), log);
    lemma_text(s);
}

/// A request that gives a commit compares that commit with its first parent.
pub proof fn law_commit_is_compared_with_parent(
    app: AppView,
    params: vstd::map::Map<Text, Text>,
    sha: Seq<u8>,
    parent: Seq<u8>,
    log: LogView,
)
    requires
        params.contains_key("commit"@),
        params["commit"@].len() > 0,
        repo_laws::said(sha).len() > 0,
        repo_laws::said(parent).len() > 0,
    ensures
        log.git.len() == 0 ==> repo_laws::waits_for_git(
            server::compared(app, params, log),
            app.root,
            seq![
                "--no-optional-locks"@,
                "rev-parse"@,
                "--verify"@,
                "--quiet"@,
                params["commit"@] + "^{commit}"@,
            ],
        ),
        log.git.len() == 0 ==> repo_laws::waits_for_git(
            server::compared(app, params, repo_laws::answered(GitReplyView::Output(sha), log)),
            app.root,
            seq![
                "--no-optional-locks"@,
                "rev-parse"@,
                "--verify"@,
                "--quiet"@,
                repo_laws::said(sha) + "^1"@,
            ],
        ),
        server::compared(
            app,
            params,
            repo_laws::answered(
                GitReplyView::Output(sha),
                repo_laws::answered(GitReplyView::Output(parent), log),
            ),
        ) == Outcome::Done(
            ComparisonView {
                base: repo_laws::said(parent),
                head: SideView::Rev(repo_laws::said(sha)),
            },
            log,
        ),
{
    let rev = params["commit"@];
    let more = repo_laws::answered(GitReplyView::Output(parent), log);
    repo_laws::law_commit_is_asked_for(app.root, rev, sha, log);
    repo_laws::law_commit_is_asked_for(app.root, rev, sha, more);
    repo_laws::law_parent_is_asked_for(app.root, repo_laws::said(sha), parent, log);
}

/// A request that gives no commit compares what the review was started with.
pub proof fn law_review_is_compared(
    app: AppView,
    params: vstd::map::Map<Text, Text>,
    log: LogView,
)
    requires
        !params.contains_key("commit"@) || params["commit"@].len() == 0,
    ensures
        server::compared(app, params, log) == Outcome::Done(
            ComparisonView { base: app.base, head: app.head },
            log,
        ),
{
}

/// Around the files of a review stand the name of its directory, the branch that is checked out,
/// both ends as they were described when it started, and the files that were found anew.
pub proof fn law_meta_tells_of_review(
    app: AppView,
    params: vstd::map::Map<Text, Text>,
    files: Seq<FileEntryView>,
    branch: Seq<u8>,
    log: LogView,
    left: LogView,
)
    requires
        !params.contains_key("commit"@) || params["commit"@].len() == 0,
        left.stores >= 0,
        repo_laws::said(branch).len() > 0,
        repo::changed(app.root, app.base, app.head, log) == Outcome::Done(
            files,
            repo_laws::answered(
                GitReplyView::Output(branch),
                (LogView { stores: left.stores + 1, ..left }),
            ),
        ),
    ensures
        server::summarized(app, params, log) == Outcome::Done(
            MetaView {
                repo: repo::directory_name(app.root),
                branch: Some(repo_laws::said(branch)),
                base: app.base_info,
                head: app.head_info,
                merge_base: app.merge_base,
                worktree: app.head is Worktree,
                context: app.context,
                files,
            },
            left,
        ),
{
    repo_laws::law_branch_is_asked_for(app.root, branch, left);
    law_review_is_compared(app, params, log);
    let all = repo_laws::answered(
        GitReplyView::Output(branch),
        (LogView { stores: left.stores + 1, ..left }),
    );
    assert((LogView { stores: all.stores - 1, ..all }) == repo_laws::answered(
        GitReplyView::Output(branch),
        left,
    ));
    assert(!server::is_scoped(params));
}

/// The name of a directory is what follows its last slash, and slashes at its end are not part of
/// it.
pub proof fn law_directory_has_last_name(dir: Text, name: Text)
    requires
        name.len() > 0,
        !name.contains('/'),
        name != "."@,
        name != ".."@,
    ensures
        repo::directory_name(dir.push('/') + name) == name,
        repo::directory_name((dir.push('/') + name).push('/')) == name,
{
    let parts = text::split_on(dir, '/');
    lemma_split_last(dir, name, '/');
    let all = parts.push(name);
    assert(all.last() == name);
    let more = all.push(Seq::empty());
    assert(more.last() == Seq::<char>::empty());
    assert(more.drop_last() == all);
    reveal_with_fuel(repo::last_name, 3);
    assert((dir.push('/') + name).push('/').drop_last() == dir.push('/') + name);
}

/// What follows the last separator is the last part.
proof fn lemma_split_last(dir: Text, name: Text, sep: char)
    requires
        !name.contains(sep),
    ensures
        text::split_on(dir.push(sep) + name, sep) == text::split_on(dir, sep).push(name),
    decreases name.len(),
{
    let all = dir.push(sep) + name;
    let parts = text::split_on(dir, sep);
    if name.len() == 0 {
        assert(all == dir.push(sep));
        assert(all.drop_last() == dir);
        assert(name == Seq::<char>::empty());
    } else {
        let shorter = name.drop_last();
        assert(name.contains(name[name.len() - 1]));
        assert forall|i: int| 0 <= i < shorter.len() implies shorter[i] != sep by {
            assert(shorter[i] == name[i]);
            assert(name.contains(name[i]));
        }
        lemma_split_last(dir, shorter, sep);
        assert(all.drop_last() == dir.push(sep) + shorter);
        assert(all.last() == name.last());
        assert(parts.push(shorter).drop_last() == parts);
        assert(shorter.push(name.last()) == name);
    }
}

proof fn lemma_paths()
    ensures
        "/api/meta"@.len() == 9 && "/api/meta"@[5] == 'm',
        "/api/commits"@.len() == 12,
        "/api/diff"@.len() == 9 && "/api/diff"@[5] == 'd',
        "/api/file"@.len() == 9 && "/api/file"@[5] == 'f',
        "/api/tree"@.len() == 9 && "/api/tree"@[5] == 't',
        "/"@.len() == 1,
        "/index.html"@.len() == 11,
        "/app.js"@.len() == 7,
        "/style.css"@.len() == 10,
        "/fonts/JetBrainsMono-Regular.woff2"@.len() == 34,
        "/fonts/JetBrainsMono-Italic.woff2"@.len() == 33,
        "/fonts/JetBrainsMono-Bold.woff2"@.len() == 31,
{
    reveal_strlit("/api/meta");
    reveal_strlit("/api/commits");
    reveal_strlit("/api/diff");
    reveal_strlit("/api/file");
    reveal_strlit("/api/tree");
    reveal_strlit("/");
    reveal_strlit("/index.html");
    reveal_strlit("/app.js");
    reveal_strlit("/style.css");
    reveal_strlit("/fonts/JetBrainsMono-Regular.woff2");
    reveal_strlit("/fonts/JetBrainsMono-Italic.woff2");
    reveal_strlit("/fonts/JetBrainsMono-Bold.woff2");
}

/// The path of a request is what stands before its first question mark, and what stands behind it
/// is the query.
pub proof fn law_path_ends_at_question_mark(path: Text, query: Text)
    requires
        !path.contains('?'),
    ensures
        server::url_parts(path.push('?') + query) == (path, query),
        server::url_parts(path) == (path, Seq::<char>::empty()),
{
    let url = path.push('?') + query;
    assert forall|j: int| 0 <= j < path.len() implies url[j] != '?' && path[j] != '?' by {
        assert(url[j] == path[j]);
        assert(path.contains(path[j]));
    }
    text::lemma_first_index(url, '?', path.len() as int);
    text::lemma_first_index(path, '?', path.len() as int);
    assert(url.take(path.len() as int) == path);
    assert(url.skip(path.len() as int + 1) == query);
}

/// Whether a request is answered at once with the given reply.
pub open spec fn is_answered(
    outcome: Outcome<JobView>,
    content_type: Text,
    cache: Text,
    body: Seq<u8>,
    log: LogView,
) -> bool {
    outcome == Outcome::Done(
        JobView::Ready(ReplyView { status: 200, content_type, cache, body }),
        log,
    )
}

/// The parts of the user interface are sent as they are, each under its path and as what it is,
/// without a question asked. The fonts may be kept, the rest is to be sent anew each time.
pub proof fn law_interface_is_sent(app: AppView, assets: Assets, url: Text, log: LogView)
    ensures
        ({
            let path = server::url_parts(url).0;
            let outcome = server::routed(app, assets, url, log);
            let kept = "public, max-age=604800, immutable"@;
            &&& path == "/"@ || path == "/index.html"@ ==> is_answered(
                outcome,
                "text/html; charset=utf-8"@,
                "no-store"@,
                encode_utf8(assets.index_html@),
                log,
            )
            &&& path == "/app.js"@ ==> is_answered(
                outcome,
                "text/javascript; charset=utf-8"@,
                "no-store"@,
                encode_utf8(assets.app_js@),
                log,
            )
            &&& path == "/style.css"@ ==> is_answered(
                outcome,
                "text/css; charset=utf-8"@,
                "no-store"@,
                encode_utf8(assets.style_css@),
                log,
            )
            &&& path == "/fonts/JetBrainsMono-Regular.woff2"@ ==> is_answered(
                outcome,
                "font/woff2"@,
                kept,
                assets.font_regular@,
                log,
            )
            &&& path == "/fonts/JetBrainsMono-Italic.woff2"@ ==> is_answered(
                outcome,
                "font/woff2"@,
                kept,
                assets.font_italic@,
                log,
            )
            &&& path == "/fonts/JetBrainsMono-Bold.woff2"@ ==> is_answered(
                outcome,
                "font/woff2"@,
                kept,
                assets.font_bold@,
                log,
            )
        }),
{
    lemma_paths();
}

/// What a request leads to where the work for it goes as given: what it gives is answered, and
/// where it fails the request is refused with the reason.
pub open spec fn is_route<V>(
    outcome: Outcome<JobView>,
    work: Outcome<V>,
    job: spec_fn(V) -> JobView,
) -> bool {
    match work {
        Outcome::Ask(request) => outcome == Outcome::<JobView>::Ask(request),
        Outcome::Done(value, left) => outcome == Outcome::Done(job(value), left),
        Outcome::Fail(error, left) => outcome == Outcome::Done(
            JobView::Ready(
                ReplyView {
                    status: 400,
                    content_type: "application/json"@,
                    cache: "no-store"@,
                    body: encode_utf8(
                        seq!['{'] + encoding::json_string("error"@) + seq![':']
                            + encoding::json_string(error.message) + seq!['}'],
                    ),
                },
            ),
            left,
        ),
    }
}

/// Each path of the API leads to what it is named after, with the parameters of the query.
pub proof fn law_api_leads_where_it_says(app: AppView, assets: Assets, url: Text, log: LogView)
    ensures
        ({
            let path = server::url_parts(url).0;
            let params = server::params_from(text::split_on(server::url_parts(url).1, '&'));
            let outcome = server::routed(app, assets, url, log);
            &&& path == "/api/meta"@ ==> is_route(
                outcome,
                server::summarized(app, params, log),
                |meta: MetaView| JobView::Meta(meta),
            )
            &&& path == "/api/commits"@ ==> is_route(
                outcome,
                repo::listed_commits(app.root, app.base, app.head, log),
                |commits: Seq<RefInfoView>| JobView::Commits(commits),
            )
            &&& path == "/api/diff"@ ==> is_route(
                outcome,
                server::asked_diff(app, params, log),
                |job: DiffJobView| JobView::Diff(job),
            )
            &&& path == "/api/file"@ ==> is_route(
                outcome,
                server::asked_view(app, params, log),
                |job: ViewJobView| JobView::View(job),
            )
            &&& path == "/api/tree"@ ==> is_route(
                outcome,
                server::asked_tree(app, params, log),
                |reply: ReplyView| JobView::Ready(reply),
            )
        }),
{
    lemma_paths();
}

/// A request for the tree is answered with the files of the head of its comparison, as JSON.
pub proof fn law_tree_lists_head(
    app: AppView,
    params: vstd::map::Map<Text, Text>,
    comparison: ComparisonView,
    files: Seq<Text>,
    log: LogView,
    compared: LogView,
    left: LogView,
)
    requires
        server::compared(app, params, log) == Outcome::Done(comparison, compared),
        repo::listed(app.root, comparison.head, compared) == Outcome::Done(files, left),
    ensures
        server::asked_tree(app, params, log) == Outcome::Done(
            ReplyView {
                status: 200,
                content_type: "application/json"@,
                cache: "no-store"@,
                body: encode_utf8(
                    seq!['{'] + encoding::json_string("files"@) + seq![':'] + (seq!['[']
                        + text::join_with(
                        files.map_values(|s: Text| encoding::json_string(s)),
                        ',',
                    ) + seq![']']) + seq!['}'],
                ),
            },
            left,
        ),
{
}

/// A query is read from its start: each part that stands behind an ampersand and has a key, an
/// equals sign and a value adds that parameter, decoded, to those before it, and takes the place
/// of an earlier one with that key. A part without an equals sign adds nothing, nor does one whose
/// value does not stand for text.
pub proof fn law_query_is_read(rest: Text, key: Text, value: Text, other: Text)
    requires
        !key.contains('='),
        !key.contains('&'),
        !value.contains('&'),
        !other.contains('='),
        !other.contains('&'),
    ensures
        ({
            let before = server::query_params(rest);
            let part = key.push('=') + value;
            &&& encoding::percent_text(value) matches Some(decoded) ==> server::query_params(
                rest.push('&') + part,
            ) == before.insert(key, decoded)
            &&& encoding::percent_text(value) is None ==> server::query_params(
                rest.push('&') + part,
            ) == before
            &&& server::query_params(rest.push('&') + other) == before
            &&& encoding::percent_text(value) matches Some(decoded) ==> server::query_params(part)
                == vstd::map::Map::<Text, Text>::empty().insert(key, decoded)
        }),
{
    let part = key.push('=') + value;
    let parts = text::split_on(rest, '&');
    assert forall|i: int| 0 <= i < part.len() implies part[i] != '&' by {
        if i < key.len() {
            assert(part[i] == key[i]);
            assert(key.contains(key[i]));
        } else if i > key.len() {
            assert(part[i] == value[i - key.len() - 1]);
            assert(value.contains(value[i - key.len() - 1]));
        }
    }
    assert(!part.contains('&'));
    lemma_split_last(rest, part, '&');
    lemma_split_last(rest, other, '&');
    assert(parts.push(part).drop_last() == parts);
    assert(parts.push(other).drop_last() == parts);
    lemma_equals(key, value);
    lemma_equals(other, value);
    lemma_one_part(part);
    let none = Seq::<Text>::empty();
    assert(seq![part].drop_last() == none);
    assert(server::params_from(none) == vstd::map::Map::<Text, Text>::empty());
}

proof fn lemma_equals(key: Text, value: Text)
    requires
        !key.contains('='),
    ensures
        text::split_at_first(key.push('=') + value, '=') == Some((key, value)),
        text::split_at_first(key, '=') is None,
{
    let s = key.push('=') + value;
    assert forall|j: int| 0 <= j < key.len() implies s[j] != '=' && key[j] != '=' by {
        assert(s[j] == key[j]);
        assert(key.contains(key[j]));
    }
    assert(s[key.len() as int] == '=');
    text::lemma_first_index(s, '=', key.len() as int);
    text::lemma_first_index(key, '=', key.len() as int);
    assert(s.take(key.len() as int) == key);
    assert(s.skip(key.len() as int + 1) == value);
}

proof fn lemma_one_part(s: Text)
    requires
        !s.contains('&'),
    ensures
        text::split_on(s, '&') == seq![s],
    decreases s.len(),
{
    if s.len() > 0 {
        let t = s.drop_last();
        assert(s.contains(s[s.len() - 1]));
        assert forall|i: int| 0 <= i < t.len() implies t[i] != '&' by {
            assert(t[i] == s[i]);
            assert(s.contains(s[i]));
        }
        lemma_one_part(t);
        assert(seq![t].drop_last() == Seq::<Text>::empty());
        assert(t.push(s.last()) == s);
        assert(text::split_on(s, '&') == seq![s]);
    } else {
        assert(s == Seq::<char>::empty());
    }
}

/// A path that is neither a part of the user interface nor of the API is not found.
pub proof fn law_other_paths_are_not_found(app: AppView, assets: Assets, url: Text, log: LogView)
    requires
        ({
            let path = server::url_parts(url).0;
            &&& path != "/"@ && path != "/index.html"@ && path != "/app.js"@ && path
                != "/style.css"@
            &&& path != "/fonts/JetBrainsMono-Regular.woff2"@
            &&& path != "/fonts/JetBrainsMono-Italic.woff2"@
            &&& path != "/fonts/JetBrainsMono-Bold.woff2"@
            &&& path != "/api/meta"@ && path != "/api/commits"@ && path != "/api/diff"@ && path
                != "/api/file"@ && path != "/api/tree"@
        }),
    ensures
        server::routed(app, assets, url, log) == Outcome::Done(
            JobView::Ready(
                ReplyView {
                    status: 404,
                    content_type: "application/json"@,
                    cache: "no-store"@,
                    body: encode_utf8(
                        seq!['{'] + encoding::json_string("error"@) + seq![':']
                            + encoding::json_string("no such endpoint"@) + seq!['}'],
                    ),
                },
            ),
            log,
        ),
{
}

/// Whether a path leads out of the repository: it is absolute, or one of the names between its
/// slashes goes up.
pub open spec fn leads_out(path: Text) -> bool {
    ||| path.len() > 0 && path[0] == '/'
    ||| exists|i: int|
        0 <= i < text::split_on(path, '/').len() && #[trigger] text::split_on(path, '/')[i] == seq![
            '.',
            '.',
        ]
}

/// A file of the work tree is read where it lies below the root, and what is read is its content;
/// one that is not there is absent, and one that cannot be read is told of with the reason. A path
/// that leads out of the repository is refused, and no other is.
pub proof fn law_work_tree_is_read(
    root: Text,
    path: Text,
    bytes: Seq<u8>,
    reason: Text,
    log: LogView,
)
    requires
        root.len() > 0,
        root.last() != '/',
        log.reads.len() == 0,
    ensures
        ({
            let full = root.push('/') + path;
            let side = SideView::Worktree;
            let content = LogView { reads: seq![ReadReplyView::Content(bytes)], ..log };
            let missing = LogView { reads: seq![ReadReplyView::Missing], ..log };
            let failed = LogView { reads: seq![ReadReplyView::Failed(reason)], ..log };
            &&& leads_out(path) ==> repo_laws::fails_with(
                repo::read_from(root, side, path, log),
                "path escapes the repository: "@ + path,
                log,
            )
            &&& !leads_out(path) ==> repo::read_from(root, side, path, log) == Outcome::<
                Option<Seq<u8>>,
            >::Ask(RequestView::Read(seq![full]))
            &&& !leads_out(path) ==> repo::read_from(root, side, path, content) == Outcome::Done(
                Some(bytes),
                log,
            )
            &&& !leads_out(path) ==> repo::read_from(root, side, path, missing) == Outcome::Done(
                None::<Seq<u8>>,
                log,
            )
            &&& !leads_out(path) ==> repo::read_from(root, side, path, failed) == Outcome::<
                Option<Seq<u8>>,
            >::Fail(ErrorView { message: "reading "@ + full, cause: Some(reason) }, log)
        }),
{
    let content = LogView { reads: seq![ReadReplyView::Content(bytes)], ..log };
    let missing = LogView { reads: seq![ReadReplyView::Missing], ..log };
    let failed = LogView { reads: seq![ReadReplyView::Failed(reason)], ..log };
    assert(content.reads.skip(1) == log.reads);
    assert(missing.reads.skip(1) == log.reads);
    assert(failed.reads.skip(1) == log.reads);
    assert((LogView { reads: content.reads.skip(1), ..content }) == log);
    assert((LogView { reads: missing.reads.skip(1), ..missing }) == log);
    assert((LogView { reads: failed.reads.skip(1), ..failed }) == log);
    reveal_strlit("..");
    assert(".."@ == seq!['.', '.']);
    let parts = text::split_on(path, '/');
    if leads_out(path) && !(path.len() > 0 && path[0] == '/') {
        let i = choose|i: int| 0 <= i < parts.len() && #[trigger] parts[i] == seq!['.', '.'];
        assert(parts.contains(".."@));
    }
    if parts.contains(".."@) {
        let i = choose|i: int| 0 <= i < parts.len() && parts[i] == ".."@;
        assert(parts[i] == seq!['.', '.']);
    }
}

/// The ends of a comparison of one commit are described as its parent and as the commit itself,
/// which is called by its short name.
pub proof fn law_commit_is_labelled(
    app: AppView,
    base: Text,
    sha: Text,
    parent: RefInfoView,
    commit: RefInfoView,
    first: Seq<u8>,
    second: Seq<u8>,
    log: LogView,
)
    requires
        !parent.short.contains('\u{1f}'),
        !commit.short.contains('\u{1f}'),
        repo_laws::said(first) == parent.short.push('\u{1f}') + parent.subject,
        repo_laws::said(second) == commit.short.push('\u{1f}') + commit.subject,
        parent.label == "parent"@,
        parent.sha == base,
        commit.label == commit.short,
        commit.sha == sha,
    ensures
        server::labelled(
            app,
            ComparisonView { base, head: SideView::Rev(sha) },
            true,
            repo_laws::answered(
                GitReplyView::Output(first),
                repo_laws::answered(
                    GitReplyView::Output(second),
                    repo_laws::answered(GitReplyView::Output(second), log),
                ),
            ),
        ) == Outcome::Done((parent, commit), log),
        server::labelled(
            app,
            ComparisonView { base, head: SideView::Rev(sha) },
            false,
            log,
        ) == Outcome::Done((app.base_info, app.head_info), log),
        server::labelled(
            app,
            ComparisonView { base, head: SideView::Worktree },
            true,
            log,
        ) == Outcome::Done((app.base_info, app.head_info), log),
{
    let last = repo_laws::answered(GitReplyView::Output(second), log);
    let both = repo_laws::answered(GitReplyView::Output(second), last);
    repo_laws::law_description_is_asked_for(
        app.root,
        "parent"@,
        base,
        parent.short,
        parent.subject,
        first,
        both,
    );
    repo_laws::law_description_is_asked_for(
        app.root,
        Seq::empty(),
        sha,
        commit.short,
        commit.subject,
        second,
        last,
    );
    repo_laws::law_description_is_asked_for(
        app.root,
        commit.short,
        sha,
        commit.short,
        commit.subject,
        second,
        log,
    );
}

/// Around the files of one commit stand the two ends of that comparison, which has no common
/// ancestor and is not of the work tree, and the files of that comparison.
pub proof fn law_meta_tells_of_commit(
    app: AppView,
    params: vstd::map::Map<Text, Text>,
    comparison: ComparisonView,
    files: Seq<FileEntryView>,
    ends: (RefInfoView, RefInfoView),
    branch: Option<Text>,
    log: LogView,
    compared: LogView,
    changed: LogView,
    labelled: LogView,
    left: LogView,
)
    requires
        params.contains_key("commit"@),
        params["commit"@].len() > 0,
        server::compared(app, params, log) == Outcome::Done(comparison, compared),
        comparison.head is Rev,
        repo::changed(app.root, comparison.base, comparison.head, compared) == Outcome::Done(
            files,
            changed,
        ),
        changed.stores > 0,
        server::labelled(
            app,
            comparison,
            true,
            (LogView { stores: changed.stores - 1, ..changed }),
        ) == Outcome::Done(ends, labelled),
        repo::tried_text(app.root, repo::branch_args(), labelled) == Outcome::Done(branch, left),
    ensures
        server::summarized(app, params, log) == Outcome::Done(
            MetaView {
                repo: repo::directory_name(app.root),
                branch,
                base: ends.0,
                head: ends.1,
                merge_base: false,
                worktree: false,
                context: app.context,
                files,
            },
            left,
        ),
{
    assert(server::is_scoped(params));
}

/// What is answered is what the job was to lead to: the difference of its input with its context,
/// or the file under its path.
pub proof fn law_answer_is_of_job(
    answer: server::Answer,
    job: JobView,
    set: syntect::parsing::SyntaxSet,
    rules: Seq<(Seq<Text>, Text)>,
)
    requires
        server::answers(answer, job, set, rules),
    ensures
        job matches JobView::Diff(d) ==> (answer matches server::Answer::Diff(file)
            && diff::is_diff(file.deep_view(), set, rules, d.input, d.context)),
        job matches JobView::View(v) ==> (answer matches server::Answer::View(view)
            && view.deep_view() == diff::view_of(set, rules, v.path, v.text, v.binary)),
        job matches JobView::Ready(reply) ==> (answer matches server::Answer::Ready(r)
            && r.deep_view() == reply),
        job matches JobView::Meta(meta) ==> (answer matches server::Answer::Meta(m)
            && m.deep_view() == meta),
        job matches JobView::Commits(commits) ==> (answer matches server::Answer::Commits(c)
            && c.deep_view() == commits),
{
}

/// A request for a file of any comparison reads it from the base of that comparison where it asks
/// for the base, else from its head.
pub proof fn law_file_is_of_comparison(
    app: AppView,
    params: vstd::map::Map<Text, Text>,
    comparison: ComparisonView,
    path: Text,
    bytes: Seq<u8>,
    log: LogView,
    compared: LogView,
    left: LogView,
)
    requires
        path.len() > 0,
        params.contains_key("path"@),
        params["path"@] == path,
        server::compared(app, params, log) == Outcome::Done(comparison, compared),
        repo::read_from(
            app.root,
            if params.contains_key("side"@) && params["side"@] == "base"@ {
                SideView::Rev(comparison.base)
            } else {
                comparison.head
            },
            path,
            compared,
        ) == Outcome::Done(Some(bytes), left),
    ensures
        server::asked_view(app, params, log) matches Outcome::Done(job, after) && after == left
            && job.path == path && job.binary == !(looks_like_text(bytes) && valid_utf8(bytes))
            && (job.text matches Some(s) ==> s == decode_utf8(bytes)) && (job.text is None
            <==> job.binary),
{
    law_bytes_are_text_or_binary(bytes);
}

/// A request for the difference of a file of any comparison looks for the file among the changed
/// files of that comparison, and reads both of its sides.
pub proof fn law_diff_is_of_comparison(
    app: AppView,
    params: vstd::map::Map<Text, Text>,
    comparison: ComparisonView,
    entries: Seq<FileEntryView>,
    i: int,
    old: Option<Seq<u8>>,
    new: Option<Seq<u8>>,
    log: LogView,
    compared: LogView,
    found: LogView,
    left: LogView,
)
    requires
        0 <= i < entries.len(),
        entries[i].path.len() > 0,
        forall|j: int| 0 <= j < i ==> (#[trigger] entries[j]).path != entries[i].path,
        params.contains_key("path"@),
        params["path"@] == entries[i].path,
        server::compared(app, params, log) == Outcome::Done(comparison, compared),
        server::changed_files(app, comparison, false, compared) == Outcome::Done(entries, found),
        server::both_sides(app, comparison, entries[i], found) == Outcome::Done((old, new), left),
    ensures
        server::asked_diff(app, params, log) matches Outcome::Done(job, after) && after == left
            && job.input.path == entries[i].path && job.input.old_path == entries[i].old_path
            && job.input.status == entries[i].status && job.input.additions == entries[i].additions
            && job.input.deletions == entries[i].deletions && job.input.old_text == server::decoded(
            old,
        ).0 && job.input.new_text == server::decoded(new).0 && job.input.binary == (
        entries[i].binary || server::decoded(old).1 || server::decoded(new).1) && job.context
            == server::asked_context(params),
{
    law_entry_is_found_by_path(entries, entries[i].path, i);
}

/// Changed files are kept under the base and the head of their comparison. Where none are kept,
/// they are found as if they were to be found anew, and then kept and given out.
pub proof fn law_files_are_kept_by_comparison(
    app: AppView,
    base: Text,
    head: SideView,
    files: Seq<FileEntryView>,
    log: LogView,
    found: LogView,
)
    requires
        repo::changed(app.root, base, head, log) == Outcome::Done(files, found),
        log.lookups.len() == 0,
        found.lookups.len() == 0,
    ensures
        ({
            let comparison = ComparisonView { base, head };
            let key = base + (match head {
                SideView::Rev(rev) => ".."@ + rev,
                SideView::Worktree => "..worktree"@,
            });
            &&& server::changed_files(app, comparison, false, log) == Outcome::<
                Seq<FileEntryView>,
            >::Ask(RequestView::Lookup(key))
            &&& server::changed_files(
                app,
                comparison,
                false,
                (LogView { lookups: seq![None], ..log }),
            ) == server::changed_files(app, comparison, true, log)
            &&& found.stores <= 0 ==> server::changed_files(app, comparison, true, log)
                == Outcome::<Seq<FileEntryView>>::Ask(RequestView::Store(key, files))
            &&& found.stores > 0 ==> server::changed_files(app, comparison, true, log)
                == Outcome::Done(files, (LogView { stores: found.stores - 1, ..found }))
        }),
{
    let comparison = ComparisonView { base, head };
    let nothing = LogView { lookups: seq![None], ..log };
    assert(nothing.lookups.skip(1) == log.lookups);
    assert((LogView { lookups: nothing.lookups.skip(1), ..nothing }) == log);
    match head {
        SideView::Rev(rev) => {
            assert(base + ".."@ + rev == base + (".."@ + rev));
        },
        SideView::Worktree => {},
    }
}

/// A commit that git knows neither here nor on the remote is refused with both names that were
/// tried.
pub proof fn law_unknown_commit_is_refused(
    app: AppView,
    params: vstd::map::Map<Text, Text>,
    first: Seq<u8>,
    second: Seq<u8>,
    log: LogView,
)
    requires
        params.contains_key("commit"@),
        params["commit"@].len() > 0,
    ensures
        repo_laws::fails_with(
            server::compared(
                app,
                params,
                repo_laws::answered(
                    GitReplyView::Failed(first),
                    repo_laws::answered(GitReplyView::Failed(second), log),
                ),
            ),
            "cannot resolve '"@ + params["commit"@] + "' to a commit (tried '"@ + params["commit"@]
                + "' and 'origin/"@ + params["commit"@] + "')"@,
            log,
        ),
{
    repo_laws::law_remote_is_asked_for(app.root, params["commit"@], first, second, log);
}

/// Data is sent as JSON that is not to be kept, and so is the reason of a refusal, under its
/// status; a text of the user interface is sent as it is.
pub proof fn law_replies(body: Seq<u8>, status: u16, message: Text, content_type: Text, s: Text)
    ensures
        server::json_reply(body) == (ReplyView {
            status: 200,
            content_type: "application/json"@,
            cache: "no-store"@,
            body,
        }),
        server::error_reply(status, message) == (ReplyView {
            status,
            content_type: "application/json"@,
            cache: "no-store"@,
            body: encode_utf8(
                seq!['{'] + encoding::json_string("error"@) + seq![':'] + encoding::json_string(
                    message,
                ) + seq!['}'],
            ),
        }),
        server::asset_reply(content_type, s) == (ReplyView {
            status: 200,
            content_type,
            cache: "no-store"@,
            body: encode_utf8(s),
        }),
{
}

/// An error is told with its cause behind it.
pub proof fn law_error_is_told_with_cause(message: Text, cause: Text)
    ensures
        crate::session::full_text(ErrorView { message, cause: Some(cause) }) == message + seq![
            ':',
            ' ',
        ] + cause,
        crate::session::full_text(ErrorView { message, cause: None }) == message,
{
    reveal_strlit(": ");
    assert(": "@ == seq![':', ' ']);
}

/// A directory that ends in no name, or that goes up at its end, is called by its whole path.
pub proof fn law_directory_without_name(root: Text, dir: Text)
    requires
        forall|i: int|
            0 <= i < text::split_on(root, '/').len() ==> (#[trigger] text::split_on(
                root,
                '/',
            )[i]).len() == 0 || text::split_on(root, '/')[i] == "."@,
    ensures
        repo::directory_name(root) == root,
        repo::directory_name(dir.push('/') + ".."@) == dir.push('/') + ".."@,
{
    lemma_no_name(text::split_on(root, '/'));
    reveal_strlit("..");
    reveal_strlit(".");
    let up = ".."@;
    assert(up.len() == 2 && up[0] == '.' && up[1] == '.');
    assert(!up.contains('/'));
    lemma_split_last(dir, up, '/');
    let parts = text::split_on(dir, '/').push(up);
    assert(parts.last() == up);
    assert(up != "."@);
}

proof fn lemma_no_name(segments: Seq<Text>)
    requires
        forall|i: int|
            0 <= i < segments.len() ==> (#[trigger] segments[i]).len() == 0 || segments[i] == "."@,
    ensures
        repo::last_name(segments) is None,
    decreases segments.len(),
{
    if segments.len() > 0 {
        let rest = segments.drop_last();
        assert(segments[segments.len() - 1].len() == 0 || segments[segments.len() - 1] == "."@);
        assert forall|i: int| 0 <= i < rest.len() implies (#[trigger] rest[i]).len() == 0 || rest[i]
            == "."@ by {
            assert(rest[i] == segments[i]);
        }
        lemma_no_name(rest);
    }
}

} // verus!
