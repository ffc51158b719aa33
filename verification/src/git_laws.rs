//! What holds of the lists that git's answers are made into, and of paths.

use vstd::prelude::*;
use vstd::utf8::*;

use crate::encoding;
use crate::git;
#[allow(unused_imports)]
use crate::git::{FileEntryView, SideView, Status};
use crate::order;
use crate::repo;
use crate::session;
#[allow(unused_imports)]
use crate::session::{GitReplyView, LogView, Outcome, ReadReplyView};
use crate::text;
#[allow(unused_imports)]
use crate::text::Text;

verus! {

broadcast use vstd::seq_lib::group_seq_properties;

/// Records as git writes them with `-z`: each with a NUL behind it.
pub open spec fn written(records: Seq<Seq<u8>>) -> Seq<u8>
    decreases records.len(),
{
    if records.len() == 0 {
        Seq::empty()
    } else {
        (written(records.drop_last()) + records.last()).push(0)
    }
}

/// Adding a piece without the separator to what is split adds it to the last part.
pub proof fn lemma_split_add(s: Seq<u8>, piece: Seq<u8>)
    requires
        !piece.contains(0),
    ensures
        text::split_on(s + piece, 0u8) == text::split_on(s, 0u8).drop_last().push(
            text::split_on(s, 0u8).last() + piece,
        ),
    decreases piece.len(),
{
    text::law_split_join(s, 0u8);
    let parts = text::split_on(s, 0u8);
    if piece.len() == 0 {
        assert(s + piece == s);
        assert(parts.last() + piece == parts.last());
        assert(parts.drop_last().push(parts.last()) == parts);
    } else {
        let shorter = piece.drop_last();
        assert forall|i: int| 0 <= i < shorter.len() implies shorter[i] != 0 by {
            assert(piece.contains(piece[i]));
            assert(shorter[i] == piece[i]);
        }
        lemma_split_add(s, shorter);
        assert(piece.contains(piece.last()));
        assert((s + piece).drop_last() == s + shorter);
        assert((s + piece).last() == piece.last());
        let before = text::split_on(s + shorter, 0u8);
        assert(before.drop_last() == parts.drop_last());
        assert(before.last().push(piece.last()) == parts.last() + piece);
    }
}

/// What is written record by record is split into those records, with nothing behind the last.
pub proof fn lemma_split_written(records: Seq<Seq<u8>>)
    requires
        forall|i: int| 0 <= i < records.len() ==> !(#[trigger] records[i]).contains(0),
    ensures
        text::split_on(written(records), 0u8) == records.push(Seq::empty()),
    decreases records.len(),
{
    if records.len() == 0 {
        assert(records.push(Seq::<u8>::empty()) == seq![Seq::<u8>::empty()]);
    } else {
        let rest = records.drop_last();
        assert forall|i: int| 0 <= i < rest.len() implies !(#[trigger] rest[i]).contains(0) by {
            assert(rest[i] == records[i]);
        }
        lemma_split_written(rest);
        assert(!records[records.len() - 1].contains(0));
        lemma_split_add(written(rest), records.last());
        let all = written(rest) + records.last();
        assert(rest.push(Seq::<u8>::empty()).drop_last() == rest);
        assert(Seq::<u8>::empty() + records.last() == records.last());
        assert(rest.push(records.last()) == records);
        assert(text::split_on(all, 0u8) == records);
        assert(all.push(0).drop_last() == all);
    }
}

/// Reading `-z` output gives the records that were written, each as text.
pub proof fn law_fields_are_records(records: Seq<Seq<u8>>)
    requires
        forall|i: int|
            0 <= i < records.len() ==> (#[trigger] records[i]).len() > 0 && !records[i].contains(0),
    ensures
        git::fields_of(written(records)) == records.map_values(
            |record: Seq<u8>| encoding::utf8_lossy(record),
        ),
{
    lemma_split_written(records);
    lemma_record_texts(records);
    assert(records.push(Seq::<u8>::empty()).drop_last() == records);
}

proof fn lemma_record_texts(records: Seq<Seq<u8>>)
    requires
        forall|i: int| 0 <= i < records.len() ==> (#[trigger] records[i]).len() > 0,
    ensures
        git::record_texts(records) == records.map_values(
            |record: Seq<u8>| encoding::utf8_lossy(record),
        ),
    decreases records.len(),
{
    let texts = records.map_values(|record: Seq<u8>| encoding::utf8_lossy(record));
    if records.len() == 0 {
        assert(texts == Seq::<Text>::empty());
    } else {
        let rest = records.drop_last();
        assert forall|i: int| 0 <= i < rest.len() implies (#[trigger] rest[i]).len() > 0 by {
            assert(rest[i] == records[i]);
        }
        lemma_record_texts(rest);
        assert(records[records.len() - 1].len() > 0);
        assert(texts == rest.map_values(
            |record: Seq<u8>| encoding::utf8_lossy(record),
        ).push(encoding::utf8_lossy(records.last())));
    }
}

/// Only the start of a file decides whether it is binary.
pub proof fn law_binary_looks_at_start(bytes: Seq<u8>)
    ensures
        bytes.len() > git::BINARY_PROBE ==> git::looks_binary(bytes) == git::looks_binary(
            bytes.take(git::BINARY_PROBE as int),
        ),
        !bytes.contains(0) ==> !git::looks_binary(bytes),
{
    if bytes.len() > git::BINARY_PROBE {
        let start = bytes.take(git::BINARY_PROBE as int);
        if git::looks_binary(bytes) {
            let i = choose|i: int|
                0 <= i < bytes.len() && i < git::BINARY_PROBE && #[trigger] bytes[i] == 0;
            assert(start[i] == 0);
        }
        if git::looks_binary(start) {
            let i = choose|i: int|
                0 <= i < start.len() && i < git::BINARY_PROBE && #[trigger] start[i] == 0;
            assert(bytes[i] == 0);
        }
    }
}

/// The fields of a changed file, as git reports it: a code, the old path where it was moved, and
/// the path.
pub open spec fn reported_as(code: Text, old_path: Option<Text>, path: Text) -> Seq<Text> {
    match old_path {
        Some(old) => seq![code, old, path],
        None => seq![code, path],
    }
}

/// A changed file is read off the front as it is reported, with the line counts of its path.
pub proof fn law_entry_is_read(
    code: Text,
    old_path: Option<Text>,
    path: Text,
    rest: Seq<Text>,
    stats: vstd::map::Map<Text, (u32, u32, bool)>,
)
    requires
        old_path is Some == (git::status_of(code) == Status::Renamed || git::status_of(code)
            == Status::Copied),
    ensures
        git::entries_from(reported_as(code, old_path, path) + rest, stats) == seq![
            FileEntryView {
                path,
                old_path,
                status: git::status_of(code),
                additions: if stats.contains_key(path) {
                    stats[path].0
                } else {
                    0
                },
                deletions: if stats.contains_key(path) {
                    stats[path].1
                } else {
                    0
                },
                binary: stats.contains_key(path) && stats[path].2,
            },
        ] + git::entries_from(rest, stats.remove(path)),
{
    let fields = reported_as(code, old_path, path) + rest;
    let n = reported_as(code, old_path, path).len() as int;
    assert(fields.skip(n) == rest);
    assert(fields[0] == code);
    assert(fields[n - 1] == path);
    if let Some(old) = old_path {
        assert(fields[1] == old);
    }
}

/// The fields of line counts, as git reports them: the path in the record, or, of a moved file,
/// its old and new path behind it.
pub open spec fn counted_as(added: Text, deleted: Text, old_path: Option<Text>, path: Text) -> Seq<
    Text,
> {
    let counts = added.push('\t') + deleted.push('\t');
    match old_path {
        Some(old) => seq![counts, old, path],
        None => seq![counts + path],
    }
}

proof fn lemma_split_first(a: Text, b: Text)
    requires
        !a.contains('\t'),
    ensures
        text::split_at_first(a.push('\t') + b, '\t') == Some((a, b)),
{
    let s = a.push('\t') + b;
    assert forall|j: int| 0 <= j < a.len() implies s[j] != '\t' by {
        assert(a.contains(a[j]));
    }
    assert(s[a.len() as int] == '\t');
    text::lemma_first_index(s, '\t', a.len() as int);
    assert(s.take(a.len() as int) == a);
    assert(s.skip(a.len() as int + 1) == b);
}

/// Line counts are read off the front as they are reported, under the new path of the file.
pub proof fn law_counts_are_read(
    added: Text,
    deleted: Text,
    old_path: Option<Text>,
    path: Text,
    rest: Seq<Text>,
    known: vstd::map::Map<Text, (u32, u32, bool)>,
)
    requires
        !added.contains('\t'),
        !deleted.contains('\t'),
        old_path is None ==> path.len() > 0,
    ensures
        git::stats_from(counted_as(added, deleted, old_path, path) + rest, known)
            == git::stats_from(rest, known.insert(path, git::stat_of(added, deleted))),
{
    let fields = counted_as(added, deleted, old_path, path) + rest;
    let tail = match old_path {
        Some(_) => Seq::empty(),
        None => path,
    };
    let counts = added.push('\t') + deleted.push('\t');
    let record = added.push('\t') + (deleted.push('\t') + tail);
    assert(counts + tail == record);
    assert(old_path is Some ==> counts == record);
    assert(fields[0] == record);
    lemma_split_first(added, deleted.push('\t') + tail);
    lemma_split_first(deleted, tail);
    assert(git::stat_parts(record) == (added, deleted, tail));
    if let Some(old) = old_path {
        assert(fields[2] == path);
        assert(fields.skip(3) == rest);
    } else {
        assert(fields.skip(1) == rest);
    }
}

/// Untracked files are reported one by one, under their paths, as additions.
pub proof fn law_untracked_are_additions(paths: Seq<Text>, replies: Seq<ReadReplyView>, i: int)
    requires
        0 <= i < paths.len(),
    ensures
        repo::untracked_from(paths, replies).len() == paths.len(),
        repo::untracked_from(paths, replies)[i].path == paths[i],
        repo::untracked_from(paths, replies)[i].old_path is None,
        repo::untracked_from(paths, replies)[i].status == Status::Untracked,
        repo::untracked_from(paths, replies)[i].deletions == 0,
    decreases paths.len(),
{
    lemma_untracked_len(paths, replies);
    let n = paths.len() - 1;
    if i < n {
        if repo::escapes(paths.last()) {
            law_untracked_are_additions(paths.drop_last(), replies, i);
        } else {
            law_untracked_are_additions(paths.drop_last(), replies.drop_last(), i);
        }
    }
}

proof fn lemma_untracked_len(paths: Seq<Text>, replies: Seq<ReadReplyView>)
    ensures
        repo::untracked_from(paths, replies).len() == paths.len(),
    decreases paths.len(),
{
    if paths.len() > 0 {
        if repo::escapes(paths.last()) {
            lemma_untracked_len(paths.drop_last(), replies);
        } else {
            lemma_untracked_len(paths.drop_last(), replies.drop_last());
        }
    }
}

/// Changed files come in the order of their paths, and none is lost or made up.
pub proof fn law_entries_are_sorted(entries: Seq<FileEntryView>)
    ensures
        git::sorted_entries(entries).to_multiset() == entries.to_multiset(),
        forall|i: int, j: int|
            0 <= i < j < git::sorted_entries(entries).len() ==> !order::before(
                (#[trigger] git::sorted_entries(entries)[j]).path,
                (#[trigger] git::sorted_entries(entries)[i]).path,
            ),
{
    let keyed = git::keyed(entries);
    let sorted = order::stable_sorted(keyed);
    order::law_sorted(keyed);
    let second = |pair: (Text, FileEntryView)| pair.1;
    let result = git::sorted_entries(entries);
    assert forall|i: int| 0 <= i < sorted.len() implies (#[trigger] sorted[i]).0
        == sorted[i].1.path by {
        keyed.to_multiset_ensures();
        sorted.to_multiset_ensures();
        assert(sorted.contains(sorted[i]));
        assert(sorted.to_multiset().count(sorted[i]) > 0);
        assert(keyed.contains(sorted[i]));
        let k = choose|k: int| 0 <= k < keyed.len() && keyed[k] == sorted[i];
        assert(keyed[k] == (entries[k].path, entries[k]));
    }
    assert forall|i: int, j: int| 0 <= i < j < result.len() implies !order::before(
        (#[trigger] result[j]).path,
        (#[trigger] result[i]).path,
    ) by {
        assert(result[i] == sorted[i].1 && result[j] == sorted[j].1);
        assert(!order::before(sorted[j].0, sorted[i].0));
    }
    lemma_map_multiset(sorted, keyed, second);
    assert(keyed.map_values(second) == entries);
    assert(sorted.map_values(second) == result);
}

/// Lists with the same elements still have the same elements when each is mapped.
proof fn lemma_map_multiset<A, B>(a: Seq<A>, b: Seq<A>, f: spec_fn(A) -> B)
    requires
        a.to_multiset() == b.to_multiset(),
    ensures
        a.map_values(f).to_multiset() == b.map_values(f).to_multiset(),
    decreases a.len(),
{
    a.to_multiset_ensures();
    b.to_multiset_ensures();
    if a.len() == 0 {
        assert(b.len() == 0);
        assert(a.map_values(f) == b.map_values(f));
    } else {
        let x = a.last();
        assert(a.contains(x));
        assert(a.to_multiset().count(x) > 0);
        assert(b.contains(x));
        let k = choose|k: int| 0 <= k < b.len() && b[k] == x;
        let rest = b.remove(k);
        a.drop_last().to_multiset_ensures();
        rest.to_multiset_ensures();
        assert(a.drop_last().push(x) == a);
        assert(rest.insert(k, x) == b);
        assert(a.drop_last().to_multiset().insert(x) == a.to_multiset());
        assert(b.to_multiset() == rest.to_multiset().insert(x)) by {
            b.to_multiset_ensures();
        }
        assert(a.drop_last().to_multiset() == rest.to_multiset()) by {
            assert(a.to_multiset().remove(x) == a.drop_last().to_multiset());
            assert(b.to_multiset().remove(x) == rest.to_multiset());
        }
        lemma_map_multiset(a.drop_last(), rest, f);
        let ma = a.drop_last().map_values(f);
        let mb = rest.map_values(f);
        ma.to_multiset_ensures();
        mb.to_multiset_ensures();
        b.map_values(f).to_multiset_ensures();
        assert(a.map_values(f) == ma.push(f(x)));
        assert(b.map_values(f).remove(k) == mb);
        assert(b.map_values(f)[k] == f(x));
    }
}

/// Whether texts come strictly in order.
pub open spec fn strictly_ordered(texts: Seq<Text>) -> bool {
    forall|i: int, j: int|
        0 <= i < j < texts.len() ==> order::before(#[trigger] texts[i], #[trigger] texts[j])
}

proof fn lemma_without_repeats(texts: Seq<Text>)
    requires
        forall|i: int, j: int|
            0 <= i < j < texts.len() ==> !order::before(#[trigger] texts[j], #[trigger] texts[i]),
    ensures
        strictly_ordered(git::without_repeats(texts)),
        forall|s: Text| git::without_repeats(texts).contains(s) <==> texts.contains(s),
        texts.len() > 0 ==> git::without_repeats(texts).len() > 0
            && git::without_repeats(texts).last() == texts.last(),
    decreases texts.len(),
{
    let r = git::without_repeats(texts);
    if texts.len() > 0 {
        let shorter = texts.drop_last();
        let rest = git::without_repeats(shorter);
        assert forall|i: int, j: int| 0 <= i < j < shorter.len() implies !order::before(
            #[trigger] shorter[j],
            #[trigger] shorter[i],
        ) by {
            assert(shorter[i] == texts[i] && shorter[j] == texts[j]);
        }
        lemma_without_repeats(shorter);
        assert forall|s: Text| r.contains(s) <==> texts.contains(s) by {
            assert(rest.contains(s) <==> shorter.contains(s));
            assert(texts == shorter.push(texts.last()));
            if texts.contains(s) {
                let i = choose|i: int| 0 <= i < texts.len() && texts[i] == s;
                if i < shorter.len() {
                    assert(shorter[i] == s);
                    let k = choose|k: int| 0 <= k < rest.len() && rest[k] == s;
                    assert(r[k] == s);
                } else {
                    assert(r[r.len() - 1] == s);
                }
            }
            if r.contains(s) {
                let k = choose|k: int| 0 <= k < r.len() && r[k] == s;
                if k < rest.len() {
                    assert(rest[k] == s);
                    let i = choose|i: int| 0 <= i < shorter.len() && shorter[i] == s;
                    assert(texts[i] == s);
                } else {
                    assert(texts[texts.len() - 1] == s);
                }
            }
        }
        if !(rest.len() > 0 && rest.last() == texts.last()) {
            assert forall|i: int, j: int| 0 <= i < j < r.len() implies order::before(
                #[trigger] r[i],
                #[trigger] r[j],
            ) by {
                if j < rest.len() {
                    assert(r[i] == rest[i] && r[j] == rest[j]);
                } else {
                    let last = rest[rest.len() - 1];
                    let n = shorter.len() - 1;
                    assert(last == shorter[n] && shorter[n] == texts[n]);
                    assert(!order::before(texts[n + 1], texts[n]));
                    lemma_strict(last, texts.last());
                    if i < rest.len() - 1 {
                        assert(order::before(rest[i], last));
                        lemma_before_transitive(rest[i], last, texts.last());
                    }
                }
            }
        }
    }
}

/// Of two different texts that are not in the wrong order, the first comes before the second.
proof fn lemma_strict(a: Text, b: Text)
    requires
        a != b,
        !order::before(b, a),
    ensures
        order::before(a, b),
{
    order::lemma_bytes_total(encode_utf8(a), encode_utf8(b));
    if encode_utf8(a) == encode_utf8(b) {
        text::lemma_same_encoding(a, b);
    }
}

proof fn lemma_before_transitive(a: Text, b: Text, c: Text)
    requires
        order::before(a, b),
        order::before(b, c),
    ensures
        order::before(a, c),
{
    let (x, y, z) = (encode_utf8(a), encode_utf8(b), encode_utf8(c));
    order::lemma_bytes_total(x, y);
    order::lemma_bytes_total(y, z);
    order::lemma_bytes_total(x, z);
    order::lemma_bytes_transitive(x, y, z);
    order::lemma_bytes_transitive(y, z, x);
    order::lemma_bytes_transitive(z, x, y);
}

/// The files of a side are listed in order and each once, and none is lost or made up.
pub proof fn law_listing_is_ordered_set(texts: Seq<Text>)
    ensures
        strictly_ordered(git::without_repeats(git::sorted_texts(texts))),
        forall|s: Text|
            git::without_repeats(git::sorted_texts(texts)).contains(s) <==> texts.contains(s),
{
    let pairs = git::paired(texts);
    let sorted = order::stable_sorted(pairs);
    let list = git::sorted_texts(texts);
    order::law_sorted(pairs);
    assert forall|i: int, j: int| 0 <= i < j < list.len() implies !order::before(
        #[trigger] list[j],
        #[trigger] list[i],
    ) by {
        assert(list[i] == sorted[i].0 && list[j] == sorted[j].0);
    }
    lemma_without_repeats(list);
    pairs.to_multiset_ensures();
    sorted.to_multiset_ensures();
    assert forall|s: Text| list.contains(s) <==> texts.contains(s) by {
        let pair = (s, ());
        assert(sorted.contains(pair) <==> sorted.to_multiset().count(pair) > 0);
        assert(pairs.contains(pair) <==> pairs.to_multiset().count(pair) > 0);
        if list.contains(s) {
            let i = choose|i: int| 0 <= i < list.len() && list[i] == s;
            assert(sorted[i] == pair);
            let k = choose|k: int| 0 <= k < pairs.len() && pairs[k] == pair;
            assert(texts[k] == s);
        }
        if texts.contains(s) {
            let k = choose|k: int| 0 <= k < texts.len() && texts[k] == s;
            assert(pairs[k] == pair);
            let i = choose|i: int| 0 <= i < sorted.len() && sorted[i] == pair;
            assert(list[i] == s);
        }
    }
}

/// How far below its start a walk along the segments of a path ends.
pub open spec fn depth(segments: Seq<Text>) -> int
    decreases segments.len(),
{
    if segments.len() == 0 {
        0
    } else {
        let before = depth(segments.drop_last());
        if segments.last() == ".."@ {
            before - 1
        } else if repo::names_something(segments.last()) {
            before + 1
        } else {
            before
        }
    }
}

proof fn lemma_depth(segments: Seq<Text>)
    requires
        !segments.contains(".."@),
    ensures
        depth(segments) >= 0,
    decreases segments.len(),
{
    if segments.len() > 0 {
        let rest = segments.drop_last();
        assert(segments.contains(segments[segments.len() - 1]));
        assert forall|i: int| 0 <= i < rest.len() implies rest[i] != ".."@ by {
            assert(segments.contains(segments[i]));
        }
        lemma_depth(rest);
    }
}

/// A path that is joined to the root stays below it: what is joined starts with the root, and
/// at no segment behind that does a walk along it stand above where it started.
pub proof fn law_safe_path_stays_below(root: Text, path: Text, n: int)
    requires
        0 <= n <= text::split_on(path, '/').len(),
    ensures
        repo::safely_joined(root, path) matches Ok(full) ==> {
            &&& root.is_prefix_of(full)
            &&& full == repo::below(root, path)
            &&& depth(text::split_on(path, '/').take(n)) >= 0
        },
{
    if !repo::escapes(path) {
        let segments = text::split_on(path, '/');
        let start = segments.take(n);
        assert forall|i: int| 0 <= i < start.len() implies start[i] != ".."@ by {
            assert(segments.contains(segments[i]));
        }
        lemma_depth(start);
        let full = repo::below(root, path);
        assert(full.subrange(0, root.len() as int) == root);
    }
}

/// A path that escapes the repository is refused, and nothing is read.
pub proof fn law_escape_is_refused_unread(root: Text, path: Text, log: LogView)
    requires
        repo::escapes(path),
    ensures
        repo::read_from(root, SideView::Worktree, path, log) == Outcome::<Option<Seq<u8>>>::Fail(
            session::plain_error("path escapes the repository: "@ + path),
            log,
        ),
{
}

/// A file of a commit is absent just where git ran and refused to show it. Where git did not run,
/// that is told, and nothing is said of the file.
pub proof fn law_absent_is_refused(root: Text, rev: Text, path: Text, log: LogView)
    requires
        log.git.len() > 0,
    ensures
        repo::read_from(root, SideView::Rev(rev), path, log) matches Outcome::Done(None, _)
            <==> log.git[0] is Failed,
        log.git[0] matches GitReplyView::Output(bytes) ==> (repo::read_from(
            root,
            SideView::Rev(rev),
            path,
            log,
        ) matches Outcome::Done(found, _) && found == Some(bytes)),
        log.git[0] matches GitReplyView::NotRun(reason) ==> (repo::read_from(
            root,
            SideView::Rev(rev),
            path,
            log,
        ) matches Outcome::Fail(error, _) && error == repo::git_missing(reason)),
{
}

/// Looking up a branch, a description or a base never fails: what git cannot tell is left out.
pub proof fn law_lookups_never_fail(root: Text, label: Text, sha: Text, log: LogView)
    ensures
        !(repo::tried_text(root, repo::branch_args(), log) is Fail),
        !(repo::described(root, label, sha, log) is Fail),
        !(repo::guessed_base(root, log) is Fail),
{
    let head = repo::tried_text(
        root,
        seq!["symbolic-ref"@, "--quiet"@, "--short"@, "refs/remotes/origin/HEAD"@],
        log,
    );
    if let Outcome::Done(_, left) = head {
        lemma_first_resolved(root, repo::usual_bases(), left);
    }
}

proof fn lemma_first_resolved(root: Text, branches: Seq<Text>, log: LogView)
    ensures
        !(repo::first_resolved(root, branches, log) is Fail),
    decreases branches.len(),
{
    if branches.len() > 0 {
        if let Outcome::Fail(_, left) = repo::resolved(root, branches[0], log) {
            lemma_first_resolved(root, branches.drop_first(), left);
        }
    }
}

/// A name is looked for as it is first, and only then on the remote: what the first look finds
/// decides, and else what the second finds.
pub proof fn law_resolve_prefers_local(root: Text, rev: Text, log: LogView)
    ensures
        repo::tried_text(root, repo::resolve_args(rev), log) matches Outcome::Done(
            Some(sha),
            left,
        ) ==> repo::resolved(root, rev, log) == Outcome::Done(sha, left),
        repo::tried_text(root, repo::resolve_args(rev), log) matches Outcome::Done(None, left)
            ==> (repo::tried_text(root, repo::resolve_args("origin/"@ + rev), left)
            matches Outcome::Done(Some(sha), rest) ==> repo::resolved(root, rev, log)
            == Outcome::Done(sha, rest)),
{
}

/// The entries with a path, in the order they have.
pub open spec fn of_path(entries: Seq<FileEntryView>, path: Text) -> Seq<FileEntryView>
    decreases entries.len(),
{
    if entries.len() == 0 {
        Seq::empty()
    } else if entries.last().path == path {
        of_path(entries.drop_last(), path).push(entries.last())
    } else {
        of_path(entries.drop_last(), path)
    }
}

/// The elements with a key, in the order they have.
spec fn of_key(pairs: Seq<(Text, FileEntryView)>, key: Text) -> Seq<(Text, FileEntryView)>
    decreases pairs.len(),
{
    if pairs.len() == 0 {
        Seq::empty()
    } else if pairs.last().0 == key {
        of_key(pairs.drop_last(), key).push(pairs.last())
    } else {
        of_key(pairs.drop_last(), key)
    }
}

proof fn lemma_of_key_inserted(
    pairs: Seq<(Text, FileEntryView)>,
    pair: (Text, FileEntryView),
    key: Text,
)
    ensures
        of_key(order::inserted(pairs, pair), key) == (if pair.0 == key {
            of_key(pairs, key).push(pair)
        } else {
            of_key(pairs, key)
        }),
    decreases pairs.len(),
{
    let all = order::inserted(pairs, pair);
    if pairs.len() > 0 && order::before(pair.0, pairs.last().0) {
        let rest = pairs.drop_last();
        lemma_of_key_inserted(rest, pair, key);
        assert(all.drop_last() == order::inserted(rest, pair));
        assert(all.last() == pairs.last());
        order::lemma_bytes_total(encode_utf8(pair.0), encode_utf8(pairs.last().0));
    } else {
        assert(all.drop_last() == pairs);
        assert(all.last() == pair);
    }
}

proof fn lemma_of_key_sorted(pairs: Seq<(Text, FileEntryView)>, key: Text)
    ensures
        of_key(order::stable_sorted(pairs), key) == of_key(pairs, key),
    decreases pairs.len(),
{
    if pairs.len() > 0 {
        lemma_of_key_sorted(pairs.drop_last(), key);
        lemma_of_key_inserted(order::stable_sorted(pairs.drop_last()), pairs.last(), key);
    }
}

proof fn lemma_of_path(pairs: Seq<(Text, FileEntryView)>, path: Text)
    requires
        forall|i: int| 0 <= i < pairs.len() ==> (#[trigger] pairs[i]).0 == pairs[i].1.path,
    ensures
        of_path(pairs.map_values(|pair: (Text, FileEntryView)| pair.1), path) == of_key(
            pairs,
            path,
        ).map_values(|pair: (Text, FileEntryView)| pair.1),
    decreases pairs.len(),
{
    let second = |pair: (Text, FileEntryView)| pair.1;
    let entries = pairs.map_values(second);
    if pairs.len() == 0 {
        assert(of_key(pairs, path).map_values(second) == Seq::<FileEntryView>::empty());
    } else {
        let rest = pairs.drop_last();
        assert forall|i: int| 0 <= i < rest.len() implies (#[trigger] rest[i]).0
            == rest[i].1.path by {
            assert(rest[i] == pairs[i]);
        }
        lemma_of_path(rest, path);
        assert(entries.drop_last() == rest.map_values(second));
        assert(pairs[pairs.len() - 1].0 == pairs[pairs.len() - 1].1.path);
        assert(of_key(rest, path).push(pairs.last()).map_values(second) == of_key(
            rest,
            path,
        ).map_values(second).push(pairs.last().1));
    }
}

/// Files that have one path stay in the order in which they were found.
pub proof fn law_entries_of_one_path_stay_in_order(entries: Seq<FileEntryView>, path: Text)
    ensures
        of_path(git::sorted_entries(entries), path) == of_path(entries, path),
{
    let second = |pair: (Text, FileEntryView)| pair.1;
    let keyed = git::keyed(entries);
    let sorted = order::stable_sorted(keyed);
    assert(keyed.map_values(second) == entries);
    lemma_of_key_sorted(keyed, path);
    lemma_of_path(keyed, path);
    order::law_sorted(keyed);
    assert forall|i: int| 0 <= i < sorted.len() implies (#[trigger] sorted[i]).0
        == sorted[i].1.path by {
        keyed.to_multiset_ensures();
        sorted.to_multiset_ensures();
        assert(sorted.contains(sorted[i]));
        assert(sorted.to_multiset().count(sorted[i]) > 0);
        assert(keyed.contains(sorted[i]));
        let k = choose|k: int| 0 <= k < keyed.len() && keyed[k] == sorted[i];
        assert(keyed[k] == (entries[k].path, entries[k]));
    }
    lemma_of_path(sorted, path);
    assert(sorted.map_values(second) == git::sorted_entries(entries));
}

} // verus!
