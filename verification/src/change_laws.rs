//! What is made of the reports of git on changed files.

use vstd::prelude::*;

use crate::encoding;
use crate::git;
#[allow(unused_imports)]
use crate::git::{FileEntryView, SideView, Status};
use crate::git_laws;
use crate::number;
use crate::order;
use crate::repo;
use crate::repo_laws;
#[allow(unused_imports)]
use crate::session::{GitReplyView, LogView, Outcome, ReadReplyView, RequestView};
use crate::text;
#[allow(unused_imports)]
use crate::text::Text;

verus! {

/// A changed file, as git knows it: the code of its status, its old path where it was moved, its
/// path, and its line counts where it is text.
#[verifier::ext_equal]
pub struct Change {
    pub code: Text,
    pub old_path: Option<Text>,
    pub path: Text,
    pub lines: Option<(nat, nat)>,
}

/// Whether git could report a file so: it has a path, an old path just where it was moved, and
/// counts that fit.
pub open spec fn is_reported(change: Change) -> bool {
    &&& change.path.len() > 0
    &&& change.old_path is Some <==> change.code.len() > 0 && (change.code[0] == 'R'
        || change.code[0] == 'C')
    &&& change.lines matches Some((added, deleted)) ==> added <= u32::MAX && deleted <= u32::MAX
}

/// How git reports the status of a file.
pub open spec fn status_fields(change: Change) -> Seq<Text> {
    match change.old_path {
        Some(old) => seq![change.code, old, change.path],
        None => seq![change.code, change.path],
    }
}

/// How git reports the line counts of a file: two numbers, or two dashes where it is binary, and
/// the path, or behind them both paths of one that was moved.
pub open spec fn count_fields(change: Change) -> Seq<Text> {
    let counts = match change.lines {
        Some((added, deleted)) => number::decimal(added).push('\t') + number::decimal(deleted).push(
            '\t',
        ),
        None => seq!['-', '\t', '-', '\t'],
    };
    match change.old_path {
        Some(old) => seq![counts, old, change.path],
        None => seq![counts + change.path],
    }
}

/// The fields of all files, one behind the other.
pub open spec fn all_fields(changes: Seq<Change>, counts: bool) -> Seq<Text>
    decreases changes.len(),
{
    if changes.len() == 0 {
        Seq::empty()
    } else {
        (if counts {
            count_fields(changes[0])
        } else {
            status_fields(changes[0])
        }) + all_fields(changes.drop_first(), counts)
    }
}

/// What a file is listed as: under its path and its old path, with the status that its code
/// stands for and its line counts; binary where it has none.
pub open spec fn is_listed_as(change: Change, entry: FileEntryView) -> bool {
    &&& entry.path == change.path
    &&& entry.old_path == change.old_path
    &&& entry.status == (if change.code.len() == 0 {
        Status::Modified
    } else if change.code[0] == 'A' {
        Status::Added
    } else if change.code[0] == 'D' {
        Status::Deleted
    } else if change.code[0] == 'R' {
        Status::Renamed
    } else if change.code[0] == 'C' {
        Status::Copied
    } else if change.code[0] == 'T' {
        Status::TypeChanged
    } else {
        Status::Modified
    })
    &&& match change.lines {
        Some((added, deleted)) => entry.additions == added && entry.deletions == deleted
            && !entry.binary,
        None => entry.additions == 0 && entry.deletions == 0 && entry.binary,
    }
}

/// Whether no two files have the same path.
pub open spec fn have_own_paths(changes: Seq<Change>) -> bool {
    forall|i: int, j: int|
        0 <= i < j < changes.len() ==> (#[trigger] changes[i]).path != (#[trigger] changes[j]).path
}

/// The line counts of a file, as they are kept.
spec fn kept_counts(change: Change) -> (u32, u32, bool) {
    match change.lines {
        Some((added, deleted)) => (added as u32, deleted as u32, false),
        None => (0, 0, true),
    }
}

/// Line counts with those of files added.
spec fn with_counts(
    changes: Seq<Change>,
    known: vstd::map::Map<Text, (u32, u32, bool)>,
) -> vstd::map::Map<Text, (u32, u32, bool)>
    decreases changes.len(),
{
    if changes.len() == 0 {
        known
    } else {
        with_counts(
            changes.drop_first(),
            known.insert(changes[0].path, kept_counts(changes[0])),
        )
    }
}

proof fn lemma_counts(changes: Seq<Change>, known: vstd::map::Map<Text, (u32, u32, bool)>)
    requires
        forall|i: int| 0 <= i < changes.len() ==> is_reported(#[trigger] changes[i]),
    ensures
        git::stats_from(all_fields(changes, true), known) == with_counts(changes, known),
    decreases changes.len(),
{
    if changes.len() > 0 {
        let change = changes[0];
        let rest = changes.drop_first();
        assert(is_reported(change));
        assert forall|i: int| 0 <= i < rest.len() implies is_reported(#[trigger] rest[i]) by {
            assert(rest[i] == changes[i + 1]);
        }
        lemma_counts(rest, known.insert(change.path, kept_counts(change)));
        let (added, deleted) = match change.lines {
            Some(pair) => pair,
            None => (0nat, 0nat),
        };
        repo_laws::law_counts_are_read_back(
            added,
            deleted,
            change.old_path,
            change.path,
            all_fields(rest, true),
            known,
        );
    }
}

proof fn lemma_count_stays(
    changes: Seq<Change>,
    known: vstd::map::Map<Text, (u32, u32, bool)>,
    path: Text,
)
    requires
        forall|i: int| 0 <= i < changes.len() ==> (#[trigger] changes[i]).path != path,
        known.contains_key(path),
    ensures
        with_counts(changes, known).contains_key(path),
        with_counts(changes, known)[path] == known[path],
    decreases changes.len(),
{
    if changes.len() > 0 {
        let rest = changes.drop_first();
        assert(changes[0].path != path);
        assert forall|i: int| 0 <= i < rest.len() implies (#[trigger] rest[i]).path != path by {
            assert(rest[i] == changes[i + 1]);
        }
        lemma_count_stays(rest, known.insert(changes[0].path, kept_counts(changes[0])), path);
    }
}

proof fn lemma_count_kept(
    changes: Seq<Change>,
    known: vstd::map::Map<Text, (u32, u32, bool)>,
    i: int,
)
    requires
        have_own_paths(changes),
        0 <= i < changes.len(),
    ensures
        with_counts(changes, known).contains_key(changes[i].path),
        with_counts(changes, known)[changes[i].path] == kept_counts(changes[i]),
    decreases changes.len(),
{
    let rest = changes.drop_first();
    let next = known.insert(changes[0].path, kept_counts(changes[0]));
    if i == 0 {
        assert forall|k: int| 0 <= k < rest.len() implies (#[trigger] rest[k]).path
            != changes[0].path by {
            assert(rest[k] == changes[k + 1]);
        }
        lemma_count_stays(rest, next, changes[0].path);
    } else {
        assert forall|a: int, b: int| 0 <= a < b < rest.len() implies (#[trigger] rest[a]).path
            != (#[trigger] rest[b]).path by {
            assert(rest[a] == changes[a + 1] && rest[b] == changes[b + 1]);
        }
        assert(rest[i - 1] == changes[i]);
        lemma_count_kept(rest, next, i - 1);
    }
}

proof fn lemma_entries(changes: Seq<Change>, stats: vstd::map::Map<Text, (u32, u32, bool)>)
    requires
        have_own_paths(changes),
        forall|i: int| 0 <= i < changes.len() ==> is_reported(#[trigger] changes[i]),
        forall|i: int|
            0 <= i < changes.len() ==> stats.contains_key((#[trigger] changes[i]).path)
                && stats[changes[i].path] == kept_counts(changes[i]),
    ensures
        git::entries_from(all_fields(changes, false), stats).len() == changes.len(),
        forall|i: int|
            0 <= i < changes.len() ==> is_listed_as(
                #[trigger] changes[i],
                git::entries_from(all_fields(changes, false), stats)[i],
            ),
    decreases changes.len(),
{
    if changes.len() > 0 {
        let change = changes[0];
        let rest = changes.drop_first();
        let fewer = stats.remove(change.path);
        assert(is_reported(change));
        assert forall|i: int| 0 <= i < rest.len() implies is_reported(#[trigger] rest[i])
            && fewer.contains_key(rest[i].path) && fewer[rest[i].path] == kept_counts(rest[i]) by {
            assert(rest[i] == changes[i + 1]);
            assert(changes[0].path != changes[i + 1].path);
        }
        assert forall|a: int, b: int| 0 <= a < b < rest.len() implies (#[trigger] rest[a]).path
            != (#[trigger] rest[b]).path by {
            assert(rest[a] == changes[a + 1] && rest[b] == changes[b + 1]);
        }
        lemma_entries(rest, fewer);
        let after = git::entries_from(all_fields(rest, false), fewer);
        git_laws::law_entry_is_read(
            change.code,
            change.old_path,
            change.path,
            all_fields(rest, false),
            stats,
        );
        let all = git::entries_from(all_fields(changes, false), stats);
        assert(all.skip(1) == after);
        assert(is_listed_as(change, all[0]));
        assert forall|i: int| 0 <= i < changes.len() implies is_listed_as(
            #[trigger] changes[i],
            all[i],
        ) by {
            if i > 0 {
                assert(rest[i - 1] == changes[i]);
                assert(all[i] == after[i - 1]);
            }
        }
    }
}

/// Whether bytes are those of records, none of them empty, that stand for the given fields.
pub open spec fn stand_for(records: Seq<Seq<u8>>, fields: Seq<Text>) -> bool {
    &&& records.len() == fields.len()
    &&& forall|i: int|
        0 <= i < records.len() ==> (#[trigger] records[i]).len() > 0 && !records[i].contains(0)
            && encoding::utf8_lossy(records[i]) == fields[i]
}

proof fn lemma_stand_for(records: Seq<Seq<u8>>, fields: Seq<Text>)
    requires
        stand_for(records, fields),
    ensures
        git::fields_of(git_laws::written(records)) == fields,
{
    git_laws::law_fields_are_records(records);
    assert(git::fields_of(git_laws::written(records)) == fields);
}

/// Whether files are listed in the order of their paths, each changed file once and no other.
pub open spec fn lists_changes(files: Seq<FileEntryView>, changes: Seq<Change>) -> bool {
    &&& forall|i: int, j: int|
        0 <= i < j < files.len() ==> !order::before(
            (#[trigger] files[j]).path,
            (#[trigger] files[i]).path,
        )
    &&& exists|entries: Seq<FileEntryView>| #[trigger]
        entries.to_multiset() == files.to_multiset() && entries.len() == changes.len() && forall|
            i: int,
        |
            0 <= i < changes.len() ==> is_listed_as(#[trigger] changes[i], entries[i])
}

/// The changed files of two commits are those that git reports, in the order of their paths: each
/// once, with its old path, its status and its line counts. Git is asked for the line counts first
/// and for the statuses behind them, both times of what leads from the base to the head.
pub proof fn law_changes_are_listed(
    root: Text,
    base: Text,
    head: Text,
    changes: Seq<Change>,
    counts: Seq<Seq<u8>>,
    statuses: Seq<Seq<u8>>,
    log: LogView,
)
    requires
        have_own_paths(changes),
        forall|i: int| 0 <= i < changes.len() ==> is_reported(#[trigger] changes[i]),
        stand_for(counts, all_fields(changes, true)),
        stand_for(statuses, all_fields(changes, false)),
    ensures
        ({
            let first = GitReplyView::Output(git_laws::written(counts));
            let second = GitReplyView::Output(git_laws::written(statuses));
            let side = SideView::Rev(head);
            &&& log.git.len() == 0 ==> repo_laws::waits_for_git(
                repo::changed(root, base, side, log),
                root,
                seq![
                    "--no-optional-locks"@,
                    "diff"@,
                    "--numstat"@,
                    "--find-renames"@,
                    "-z"@,
                    base,
                    head,
                ],
            )
            &&& log.git.len() == 0 ==> repo_laws::waits_for_git(
                repo::changed(root, base, side, repo_laws::answered(first, log)),
                root,
                seq![
                    "--no-optional-locks"@,
                    "diff"@,
                    "--name-status"@,
                    "--find-renames"@,
                    "-z"@,
                    base,
                    head,
                ],
            )
            &&& repo::changed(
                root,
                base,
                side,
                repo_laws::answered(first, repo_laws::answered(second, log)),
            ) matches Outcome::Done(files, left) && left == log && lists_changes(files, changes)
        }),
{
    let first = GitReplyView::Output(git_laws::written(counts));
    let second = GitReplyView::Output(git_laws::written(statuses));
    let side = SideView::Rev(head);
    lemma_asked(root, base, side, first, second, log);
    let stats = git::stats_from(
        git::fields_of(git_laws::written(counts)),
        vstd::map::Map::empty(),
    );
    let entries = git::entries_from(git::fields_of(git_laws::written(statuses)), stats);
    lemma_read_changes(changes, counts, statuses);
    git_laws::law_entries_are_sorted(entries);
    let files = git::sorted_entries(entries);
    assert(entries.to_multiset() == files.to_multiset());
    assert(lists_changes(files, changes));
}

proof fn lemma_read_changes(
    changes: Seq<Change>,
    counts: Seq<Seq<u8>>,
    statuses: Seq<Seq<u8>>,
)
    requires
        have_own_paths(changes),
        forall|i: int| 0 <= i < changes.len() ==> is_reported(#[trigger] changes[i]),
        stand_for(counts, all_fields(changes, true)),
        stand_for(statuses, all_fields(changes, false)),
    ensures
        ({
            let stats = git::stats_from(
                git::fields_of(git_laws::written(counts)),
                vstd::map::Map::empty(),
            );
            let entries = git::entries_from(git::fields_of(git_laws::written(statuses)), stats);
            &&& entries.len() == changes.len()
            &&& forall|i: int|
                0 <= i < changes.len() ==> is_listed_as(#[trigger] changes[i], entries[i])
        }),
{
    let none = vstd::map::Map::<Text, (u32, u32, bool)>::empty();
    lemma_stand_for(counts, all_fields(changes, true));
    lemma_stand_for(statuses, all_fields(changes, false));
    lemma_counts(changes, none);
    let stats = with_counts(changes, none);
    assert forall|i: int| 0 <= i < changes.len() implies stats.contains_key(
        (#[trigger] changes[i]).path,
    ) && stats[changes[i].path] == kept_counts(changes[i]) by {
        lemma_count_kept(changes, none, i);
    }
    lemma_entries(changes, stats);
}

/// The arguments of the two runs that compare two sides.
spec fn compare_args(form: Text, base: Text, head: SideView) -> Seq<Text> {
    match head {
        SideView::Rev(rev) => seq![
            "--no-optional-locks"@,
            "diff"@,
            form,
            "--find-renames"@,
            "-z"@,
            base,
            rev,
        ],
        SideView::Worktree => seq![
            "--no-optional-locks"@,
            "diff"@,
            form,
            "--find-renames"@,
            "-z"@,
            base,
        ],
    }
}

proof fn lemma_compare_args(form: Text, base: Text, head: SideView)
    ensures
        seq!["--no-optional-locks"@] + repo::diff_args(form, base, head) == compare_args(
            form,
            base,
            head,
        ),
{
    assert(seq!["--no-optional-locks"@] + repo::diff_args(form, base, head) == compare_args(
        form,
        base,
        head,
    ));
}

proof fn lemma_one_answer(reply: GitReplyView, log: LogView)
    ensures
        repo_laws::answered(reply, log).git.len() > 0,
        repo_laws::answered(reply, log).git[0] == reply,
        (LogView {
            git: repo_laws::answered(reply, log).git.skip(1),
            ..repo_laws::answered(reply, log)
        }) == log,
{
    assert(repo_laws::answered(reply, log).git.skip(1) == log.git);
}

proof fn lemma_asked(
    root: Text,
    base: Text,
    side: SideView,
    first: GitReplyView,
    second: GitReplyView,
    log: LogView,
)
    requires
        first is Output,
        second is Output,
    ensures
        log.git.len() == 0 ==> repo_laws::waits_for_git(
            repo::changed(root, base, side, log),
            root,
            compare_args("--numstat"@, base, side),
        ),
        log.git.len() == 0 ==> repo_laws::waits_for_git(
            repo::changed(root, base, side, repo_laws::answered(first, log)),
            root,
            compare_args("--name-status"@, base, side),
        ),
        ({
            let stats = git::stats_from(git::fields_of(first->Output_0), vstd::map::Map::empty());
            let entries = git::entries_from(git::fields_of(second->Output_0), stats);
            repo::changed(
                root,
                base,
                side,
                repo_laws::answered(first, repo_laws::answered(second, log)),
            ) == match side {
                SideView::Rev(_) => Outcome::Done(git::sorted_entries(entries), log),
                SideView::Worktree => match repo::untracked(root, log) {
                    Outcome::Ask(request) => Outcome::Ask(request),
                    Outcome::Fail(error, left) => Outcome::Fail(error, left),
                    Outcome::Done(more, left) => Outcome::Done(
                        git::sorted_entries(entries + more),
                        left,
                    ),
                },
            }
        }),
{
    lemma_compare_args("--numstat"@, base, side);
    lemma_compare_args("--name-status"@, base, side);
    lemma_one_answer(first, log);
    lemma_one_answer(second, log);
    lemma_one_answer(first, repo_laws::answered(second, log));
}

/// The changed files of the work tree are those that git reports against the base, and those that
/// are not tracked, all together in the order of their paths. Git is asked for the line counts, for
/// the statuses, and for the files that are not tracked and not ignored; those are read.
pub proof fn law_work_tree_has_untracked_files(
    root: Text,
    base: Text,
    changes: Seq<Change>,
    counts: Seq<Seq<u8>>,
    statuses: Seq<Seq<u8>>,
    paths: Seq<Text>,
    names: Seq<Seq<u8>>,
    replies: Seq<ReadReplyView>,
    log: LogView,
)
    requires
        have_own_paths(changes),
        forall|i: int| 0 <= i < changes.len() ==> is_reported(#[trigger] changes[i]),
        stand_for(counts, all_fields(changes, true)),
        stand_for(statuses, all_fields(changes, false)),
        stand_for(names, paths),
        forall|i: int| 0 <= i < paths.len() ==> !repo::escapes(#[trigger] paths[i]),
        replies.len() == paths.len(),
        paths.len() > 0,
        root.len() > 0,
        root.last() != '/',
    ensures
        ({
            let first = GitReplyView::Output(git_laws::written(counts));
            let second = GitReplyView::Output(git_laws::written(statuses));
            let third = GitReplyView::Output(git_laws::written(names));
            let two = repo_laws::answered(first, repo_laws::answered(second, log));
            let three = repo_laws::answered(
                first,
                repo_laws::answered(second, repo_laws::answered(third, log)),
            );
            let side = SideView::Worktree;
            &&& log.git.len() == 0 ==> repo_laws::waits_for_git(
                repo::changed(root, base, side, log),
                root,
                seq![
                    "--no-optional-locks"@,
                    "diff"@,
                    "--numstat"@,
                    "--find-renames"@,
                    "-z"@,
                    base,
                ],
            )
            &&& log.git.len() == 0 ==> repo_laws::waits_for_git(
                repo::changed(root, base, side, repo_laws::answered(first, log)),
                root,
                seq![
                    "--no-optional-locks"@,
                    "diff"@,
                    "--name-status"@,
                    "--find-renames"@,
                    "-z"@,
                    base,
                ],
            )
            &&& log.git.len() == 0 ==> repo_laws::waits_for_git(
                repo::changed(root, base, side, two),
                root,
                seq![
                    "--no-optional-locks"@,
                    "ls-files"@,
                    "--others"@,
                    "--exclude-standard"@,
                    "-z"@,
                ],
            )
            &&& log.reads.len() == 0 ==> repo::changed(root, base, side, three) == Outcome::<
                Seq<FileEntryView>,
            >::Ask(
                RequestView::Read(paths.map_values(|path: Text| root.push('/') + path)),
            )
            &&& repo::changed(
                root,
                base,
                side,
                (LogView { reads: replies + log.reads, ..three }),
            ) matches Outcome::Done(files, left) && left == log && lists_also(
                files,
                changes,
                paths,
                replies,
            )
        }),
{
    let first = GitReplyView::Output(git_laws::written(counts));
    let second = GitReplyView::Output(git_laws::written(statuses));
    let third = GitReplyView::Output(git_laws::written(names));
    let side = SideView::Worktree;
    let read = LogView { reads: replies + log.reads, ..log };
    let third_left = repo_laws::answered(third, log);
    let third_read = repo_laws::answered(third, read);
    lemma_asked(root, base, side, first, second, log);
    lemma_asked(root, base, side, first, second, third_left);
    lemma_asked(root, base, side, first, second, third_read);
    assert((LogView {
        reads: replies + log.reads,
        ..repo_laws::answered(first, repo_laws::answered(second, third_left))
    }) == repo_laws::answered(first, repo_laws::answered(second, third_read)));
    lemma_untracked(root, paths, names, replies, log);
    lemma_lists_also(changes, counts, statuses, paths, replies);
}

/// What a file that is not tracked is listed as: as untracked, under its path alone, with its
/// lines as additions where it was read and is text; binary where it has a NUL near its start.
pub open spec fn is_untracked(path: Text, reply: ReadReplyView, entry: FileEntryView) -> bool {
    &&& entry.path == path
    &&& entry.old_path is None
    &&& entry.status == Status::Untracked
    &&& entry.deletions == 0
    &&& match reply {
        ReadReplyView::Content(bytes) => if exists|i: int|
            0 <= i < bytes.len() && i < 8000 && #[trigger] bytes[i] == 0 {
            entry.binary && entry.additions == 0
        } else {
            !entry.binary && (text::lines_of(encoding::utf8_lossy(bytes)).len() <= u32::MAX
                ==> entry.additions == text::lines_of(encoding::utf8_lossy(bytes)).len())
        },
        _ => !entry.binary && entry.additions == 0,
    }
}

/// Whether files are listed in the order of their paths: each changed file and each untracked one
/// once, and no other.
pub open spec fn lists_also(
    files: Seq<FileEntryView>,
    changes: Seq<Change>,
    paths: Seq<Text>,
    replies: Seq<ReadReplyView>,
) -> bool {
    &&& forall|i: int, j: int|
        0 <= i < j < files.len() ==> !order::before(
            (#[trigger] files[j]).path,
            (#[trigger] files[i]).path,
        )
    &&& exists|entries: Seq<FileEntryView>| #[trigger]
        entries.to_multiset() == files.to_multiset() && entries.len() == changes.len() + paths.len()
            && (forall|i: int|
            0 <= i < changes.len() ==> is_listed_as(#[trigger] changes[i], entries[i])) && forall|
            i: int,
        |
            0 <= i < paths.len() ==> is_untracked(
                #[trigger] paths[i],
                replies[i],
                entries[changes.len() + i],
            )
}

proof fn lemma_untracked_at(paths: Seq<Text>, replies: Seq<ReadReplyView>, i: int)
    requires
        forall|i: int| 0 <= i < paths.len() ==> !repo::escapes(#[trigger] paths[i]),
        replies.len() == paths.len(),
        0 <= i < paths.len(),
    ensures
        repo::untracked_from(paths, replies).len() == paths.len(),
        is_untracked(paths[i], replies[i], repo::untracked_from(paths, replies)[i]),
    decreases paths.len(),
{
    let n = paths.len() - 1;
    assert(!repo::escapes(paths[n]));
    git_laws::law_untracked_are_additions(paths, replies, i);
    if i < n {
        let fewer = paths.drop_last();
        assert forall|k: int| 0 <= k < fewer.len() implies !repo::escapes(#[trigger] fewer[k]) by {
            assert(fewer[k] == paths[k]);
        }
        lemma_untracked_at(fewer, replies.drop_last(), i);
    } else if let ReadReplyView::Content(bytes) = replies[n] {
        assert(repo::untracked_from(paths, replies)[i] == repo::untracked_entry(
            paths[n],
            replies[n],
        ));
        if git::looks_binary(bytes) {
            let k = choose|k: int|
                0 <= k < bytes.len() && k < git::BINARY_PROBE && #[trigger] bytes[k] == 0;
            assert(k < 8000 && bytes[k] == 0);
        }
    }
}

proof fn lemma_lists_also(
    changes: Seq<Change>,
    counts: Seq<Seq<u8>>,
    statuses: Seq<Seq<u8>>,
    paths: Seq<Text>,
    replies: Seq<ReadReplyView>,
)
    requires
        have_own_paths(changes),
        forall|i: int| 0 <= i < changes.len() ==> is_reported(#[trigger] changes[i]),
        stand_for(counts, all_fields(changes, true)),
        stand_for(statuses, all_fields(changes, false)),
        forall|i: int| 0 <= i < paths.len() ==> !repo::escapes(#[trigger] paths[i]),
        replies.len() == paths.len(),
        paths.len() > 0,
    ensures
        ({
            let stats = git::stats_from(
                git::fields_of(git_laws::written(counts)),
                vstd::map::Map::empty(),
            );
            let entries = git::entries_from(git::fields_of(git_laws::written(statuses)), stats);
            lists_also(
                git::sorted_entries(entries + repo::untracked_from(paths, replies)),
                changes,
                paths,
                replies,
            )
        }),
{
    let stats = git::stats_from(
        git::fields_of(git_laws::written(counts)),
        vstd::map::Map::empty(),
    );
    let entries = git::entries_from(git::fields_of(git_laws::written(statuses)), stats);
    lemma_read_changes(changes, counts, statuses);
    let more = repo::untracked_from(paths, replies);
    let all = entries + more;
    git_laws::law_entries_are_sorted(all);
    let files = git::sorted_entries(all);
    lemma_untracked_at(paths, replies, 0);
    assert forall|i: int| 0 <= i < changes.len() implies is_listed_as(
        #[trigger] changes[i],
        all[i],
    ) by {
        assert(all[i] == entries[i]);
    }
    assert forall|i: int| 0 <= i < paths.len() implies is_untracked(
        #[trigger] paths[i],
        replies[i],
        all[changes.len() + i],
    ) by {
        lemma_untracked_at(paths, replies, i);
        assert(all[changes.len() + i] == more[i]);
    }
    assert(all.to_multiset() == files.to_multiset());
    assert(lists_also(files, changes, paths, replies));
}

proof fn lemma_readable(root: Text, paths: Seq<Text>)
    requires
        forall|i: int| 0 <= i < paths.len() ==> !repo::escapes(#[trigger] paths[i]),
        root.len() > 0,
        root.last() != '/',
    ensures
        repo::readable(root, paths) == paths.map_values(|path: Text| root.push('/') + path),
    decreases paths.len(),
{
    let all = paths.map_values(|path: Text| root.push('/') + path);
    if paths.len() > 0 {
        let fewer = paths.drop_last();
        assert forall|k: int| 0 <= k < fewer.len() implies !repo::escapes(#[trigger] fewer[k]) by {
            assert(fewer[k] == paths[k]);
        }
        lemma_readable(root, fewer);
        assert(!repo::escapes(paths[paths.len() - 1]));
        assert(all == fewer.map_values(|path: Text| root.push('/') + path).push(
            root.push('/') + paths.last(),
        ));
    } else {
        assert(all == Seq::<Text>::empty());
    }
}

proof fn lemma_untracked(
    root: Text,
    paths: Seq<Text>,
    names: Seq<Seq<u8>>,
    replies: Seq<ReadReplyView>,
    log: LogView,
)
    requires
        stand_for(names, paths),
        forall|i: int| 0 <= i < paths.len() ==> !repo::escapes(#[trigger] paths[i]),
        replies.len() == paths.len(),
        paths.len() > 0,
        root.len() > 0,
        root.last() != '/',
    ensures
        ({
            let third = GitReplyView::Output(git_laws::written(names));
            let read = LogView { reads: replies + log.reads, ..log };
            &&& log.git.len() == 0 ==> repo_laws::waits_for_git(
                repo::untracked(root, log),
                root,
                seq![
                    "--no-optional-locks"@,
                    "ls-files"@,
                    "--others"@,
                    "--exclude-standard"@,
                    "-z"@,
                ],
            )
            &&& log.reads.len() == 0 ==> repo::untracked(root, repo_laws::answered(third, log))
                == Outcome::<Seq<FileEntryView>>::Ask(
                RequestView::Read(paths.map_values(|path: Text| root.push('/') + path)),
            )
            &&& repo::untracked(root, repo_laws::answered(third, read)) == Outcome::Done(
                repo::untracked_from(paths, replies),
                log,
            )
        }),
{
    let third = GitReplyView::Output(git_laws::written(names));
    let read = LogView { reads: replies + log.reads, ..log };
    lemma_stand_for(names, paths);
    lemma_one_answer(third, log);
    lemma_one_answer(third, read);
    lemma_readable(root, paths);
    assert(seq!["--no-optional-locks"@] + repo::untracked_args() == seq![
        "--no-optional-locks"@,
        "ls-files"@,
        "--others"@,
        "--exclude-standard"@,
        "-z"@,
    ]);
    assert(read.reads.take(paths.len() as int) == replies);
    assert(read.reads.skip(paths.len() as int) == log.reads);
}

/// An untracked file whose path leads out of the repository is not read, and is listed without
/// lines; it leaves what was read to the others.
pub proof fn law_escaping_untracked_file_is_not_read(
    root: Text,
    paths: Seq<Text>,
    path: Text,
    replies: Seq<ReadReplyView>,
)
    requires
        repo::escapes(path),
    ensures
        repo::readable(root, paths.push(path)) == repo::readable(root, paths),
        repo::untracked_from(paths.push(path), replies) == repo::untracked_from(
            paths,
            replies,
        ).push(
            FileEntryView {
                path,
                old_path: None,
                status: Status::Untracked,
                additions: 0,
                deletions: 0,
                binary: false,
            },
        ),
{
    assert(paths.push(path).drop_last() == paths);
    assert(paths.push(path).last() == path);
}

} // verus!
