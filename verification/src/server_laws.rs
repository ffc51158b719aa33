//! What holds of the answers that requests get.

use vstd::prelude::*;
use vstd::utf8::*;

use crate::diff;
#[allow(unused_imports)]
use crate::diff::State;
use crate::encoding;
use crate::git;
#[allow(unused_imports)]
use crate::git::{FileEntryView, SideView};
use crate::server;
#[allow(unused_imports)]
use crate::server::{AppView, Assets, ComparisonView, JobView};
use crate::session;
#[allow(unused_imports)]
use crate::session::{LogView, Outcome};
use crate::text;
#[allow(unused_imports)]
use crate::text::Text;

verus! {

broadcast use vstd::seq_lib::group_seq_properties;

/// What follows the base in a key.
spec fn head_key(head: SideView) -> Text {
    match head {
        SideView::Rev(rev) => rev,
        SideView::Worktree => "worktree"@,
    }
}

/// Different comparisons have different keys, as long as their bases are commits, whose names
/// are all of one length, and no commit is called `worktree`.
pub proof fn law_key_tells_comparison(a: ComparisonView, b: ComparisonView)
    requires
        a.base.len() == b.base.len(),
        a.head != SideView::Rev("worktree"@),
        b.head != SideView::Rev("worktree"@),
        server::key_of(a) == server::key_of(b),
    ensures
        a == b,
{
    reveal_strlit("..");
    reveal_strlit("..worktree");
    reveal_strlit("worktree");
    assert("..worktree"@ == ".."@ + "worktree"@);
    let key = server::key_of(a);
    assert(server::key_of(a) == a.base + ".."@ + head_key(a.head));
    assert(server::key_of(b) == b.base + ".."@ + head_key(b.head));
    let n = a.base.len() as int;
    assert(key.take(n) == a.base);
    assert(key.take(n) == b.base);
    assert(key.skip(n + 2) == head_key(a.head));
    assert(key.skip(n + 2) == head_key(b.head));
}

/// Files that were kept are used again, and git is not asked.
pub proof fn law_kept_files_are_used(
    app: AppView,
    comparison: ComparisonView,
    hit: Seq<FileEntryView>,
    log: LogView,
)
    requires
        log.lookups.len() > 0,
        log.lookups[0] == Some(hit),
    ensures
        server::changed_files(app, comparison, false, log) == Outcome::Done(
            hit,
            LogView { lookups: log.lookups.skip(1), ..log },
        ),
{
}

/// Files that were found anew are kept under the key of their comparison: before they are given
/// out, that is what is asked for.
pub proof fn law_found_files_are_kept(
    app: AppView,
    comparison: ComparisonView,
    entries: Seq<FileEntryView>,
    left: LogView,
    log: LogView,
)
    requires
        crate::repo::changed(app.root, comparison.base, comparison.head, log) == Outcome::Done(
            entries,
            left,
        ),
        left.stores == 0,
    ensures
        server::changed_files(app, comparison, true, log) == Outcome::<Seq<FileEntryView>>::Ask(
            session::RequestView::Store(server::key_of(comparison), entries),
        ),
{
}

/// The paths that the API answers at.
pub open spec fn api_paths() -> Seq<Text> {
    seq!["/api/meta"@, "/api/commits"@, "/api/diff"@, "/api/file"@, "/api/tree"@]
}

/// Any other path is not found, without a question asked.
pub proof fn law_unknown_path_is_not_found(app: AppView, assets: Assets, url: Text, log: LogView)
    requires
        server::asset_at(assets, server::url_parts(url).0) is None,
        !api_paths().contains(server::url_parts(url).0),
    ensures
        server::routed(app, assets, url, log) == Outcome::Done(
            JobView::Ready(server::error_reply(404, "no such endpoint"@)),
            log,
        ),
{
    let path = server::url_parts(url).0;
    let known = api_paths();
    assert(known[0] == "/api/meta"@ && known[1] == "/api/commits"@ && known[2] == "/api/diff"@
        && known[3] == "/api/file"@ && known[4] == "/api/tree"@);
    assert forall|i: int| 0 <= i < known.len() implies known[i] != path by {
        if known[i] == path {
            assert(known.contains(path));
        }
    }
}

/// A request for a difference or a file that does not say which is refused, without a question
/// asked.
pub proof fn law_path_must_be_given(app: AppView, assets: Assets, url: Text, log: LogView)
    requires
        server::url_parts(url).0 == "/api/diff"@ || server::url_parts(url).0 == "/api/file"@,
        server::param(server::query_params(server::url_parts(url).1), "path"@) matches Some(path)
            ==> path.len() == 0,
    ensures
        server::routed(app, assets, url, log) == Outcome::Done(
            JobView::Ready(
                server::error_reply(400, "missing '"@ + "path"@ + "' parameter"@),
            ),
            log,
        ),
{
    let path = server::url_parts(url).0;
    lemma_api_paths(path);
    lemma_no_asset(assets, path);
}

/// The paths of a difference and of a file are not those of what comes before them.
proof fn lemma_api_paths(path: Text)
    requires
        path == "/api/diff"@ || path == "/api/file"@,
    ensures
        path != "/api/meta"@,
        path != "/api/commits"@,
        path.len() == 9,
        "/api/diff"@ != "/api/file"@,
{
    reveal_strlit("/api/meta");
    reveal_strlit("/api/commits");
    reveal_strlit("/api/diff");
    reveal_strlit("/api/file");
    assert("/api/meta"@[5] == 'm');
    assert("/api/commits"@[5] == 'c');
    assert("/api/diff"@[5] == 'd');
    assert("/api/file"@[5] == 'f');
}

/// No part of the user interface is at a path of nine characters.
proof fn lemma_no_asset(assets: Assets, path: Text)
    requires
        path.len() == 9,
    ensures
        server::asset_at(assets, path) is None,
{
    reveal_strlit("/");
    reveal_strlit("/index.html");
    reveal_strlit("/app.js");
    reveal_strlit("/style.css");
    reveal_strlit("/fonts/JetBrainsMono-Regular.woff2");
    reveal_strlit("/fonts/JetBrainsMono-Italic.woff2");
    reveal_strlit("/fonts/JetBrainsMono-Bold.woff2");
}

/// Of the parts of a query, each adds its parameter to those before it.
pub proof fn law_parameter_is_read(parts: Seq<Text>, key: Text, value: Text)
    requires
        !key.contains('='),
        !value.contains('%'),
    ensures
        server::params_from(parts.push(key.push('=') + value)) == server::params_from(parts).insert(
            key,
            value,
        ),
{
    let part = key.push('=') + value;
    let all = parts.push(part);
    assert(all.drop_last() == parts);
    assert forall|j: int| 0 <= j < key.len() implies part[j] != '=' by {
        assert(key.contains(key[j]));
    }
    text::lemma_first_index(part, '=', key.len() as int);
    assert(part.take(key.len() as int) == key);
    assert(part.skip(key.len() as int + 1) == value);
    encoding::law_plain_text_decodes_to_itself(value);
}

/// Text that does not look binary is decoded to itself.
pub proof fn law_text_is_decoded(s: Text)
    requires
        !git::looks_binary(encode_utf8(s)),
    ensures
        server::decoded(Some(encode_utf8(s))) == (Some(s), false),
{
    encode_utf8_valid_utf8(s);
    encode_utf8_decode_utf8(s);
}

/// An empty commit is no commit: the comparison is that of the branches, and what is shown around
/// the files is what is shown without it.
pub proof fn law_empty_commit_is_no_commit(
    app: AppView,
    params: vstd::map::Map<Text, Text>,
    log: LogView,
)
    requires
        server::param(params, "commit"@) == Some(Seq::<char>::empty()),
    ensures
        server::compared(app, params, log) == Outcome::Done(server::branch_of(app), log),
        server::summarized(app, params, log) == server::summarized(
            app,
            params.remove("commit"@),
            log,
        ),
        server::summarized(app, params, log) matches Outcome::Done(meta, _) ==> meta.merge_base
            == app.merge_base && meta.base == app.base_info && meta.head == app.head_info,
{
    let without = params.remove("commit"@);
    assert(server::param(without, "commit"@) is None);
    assert(server::compared(app, params, log) == server::compared(app, without, log));
    assert(!server::is_scoped(params) && !server::is_scoped(without));
}

/// A blob is reported as text or as binary, never as both.
pub proof fn law_blob_is_text_or_binary(raw: Option<Seq<u8>>)
    ensures
        raw is Some ==> (server::decoded(raw).0 is Some) == !server::decoded(raw).1,
        raw is None ==> server::decoded(raw) == (None::<Text>, false),
{
}

/// A view tells what is there: only a path without a file is missing, and only a file that is
/// not text is binary.
pub proof fn law_view_tells_what_is_there(
    set: syntect::parsing::SyntaxSet,
    rules: Seq<(Seq<Text>, Text)>,
    path: Text,
    raw: Option<Seq<u8>>,
)
    ensures
        ({
            let (content, binary) = server::decoded(raw);
            let state = diff::view_of(set, rules, path, content, binary).state;
            &&& state == State::Missing <==> raw is None
            &&& state == State::Binary <==> raw is Some && (git::looks_binary(raw->0)
                || !valid_utf8(raw->0))
            &&& state != State::Identical
        }),
{
}

/// The value of a hexadecimal digit, as a character.
pub open spec fn digit_value(c: char) -> int {
    if '0' <= c <= '9' {
        (c as int) - ('0' as int)
    } else {
        (c as int) - ('a' as int) + 10
    }
}

/// What a reader makes of the inside of a JSON string.
pub open spec fn json_read(s: Text) -> Text
    decreases s.len(),
{
    if s.len() == 0 {
        s
    } else if s[0] == '\\' && s.len() >= 6 && s[1] == 'u' {
        seq![(digit_value(s[4]) * 16 + digit_value(s[5])) as char] + json_read(s.skip(6))
    } else if s[0] == '\\' && s.len() >= 2 {
        let c = if s[1] == 'b' {
            '\u{8}'
        } else if s[1] == 't' {
            '\t'
        } else if s[1] == 'n' {
            '\n'
        } else if s[1] == 'f' {
            '\u{c}'
        } else if s[1] == 'r' {
            '\r'
        } else {
            s[1]
        };
        seq![c] + json_read(s.skip(2))
    } else {
        seq![s[0]] + json_read(s.skip(1))
    }
}

proof fn lemma_joined_front(parts: Seq<Text>)
    requires
        parts.len() > 0,
    ensures
        text::joined(parts) == parts[0] + text::joined(parts.drop_first()),
    decreases parts.len(),
{
    if parts.len() == 1 {
        reveal_with_fuel(text::joined, 2);
        assert(parts.drop_last() == Seq::<Text>::empty());
        assert(parts.drop_first() == Seq::<Text>::empty());
        assert(text::joined(parts) == parts[0]);
        assert(parts[0] + Seq::<char>::empty() == parts[0]);
    } else {
        lemma_joined_front(parts.drop_last());
        assert(parts.drop_last().drop_first() == parts.drop_first().drop_last());
        assert(parts.drop_first().last() == parts.last());
        assert(parts.drop_last()[0] == parts[0]);
        assert(text::joined(parts) == parts[0] + (text::joined(parts.drop_first().drop_last())
            + parts.last()));
    }
}

proof fn lemma_json_char(c: char, rest: Text)
    ensures
        json_read(encoding::json_char(c) + rest) == seq![c] + json_read(rest),
{
    let head = encoding::json_char(c);
    let all = head + rest;
    assert(all.skip(head.len() as int) == rest);
    assert(all[0] == head[0]);
    if head.len() == 2 {
        assert(all[1] == head[1]);
    }
    if head.len() == 6 {
        let n = c as int;
        assert(all[1] == 'u' && all[4] == head[4] && all[5] == head[5]);
        assert(0 <= n < 0x20);
        let high = n / 16;
        let low = n % 16;
        assert(0 <= high < 2 && 0 <= low < 16);
        lemma_hex_digit(high);
        lemma_hex_digit(low);
        assert(high * 16 + low == n);
        assert(n as char == c);
    }
}

proof fn lemma_hex_digit(n: int)
    requires
        0 <= n < 16,
    ensures
        digit_value(encoding::hex_digit(n)) == n,
{
}

/// What a JSON reader makes of a text that was written is that text.
pub proof fn law_json_reads_back(s: Text)
    ensures
        json_read(text::joined(s.map_values(|c: char| encoding::json_char(c)))) == s,
    decreases s.len(),
{
    let parts = s.map_values(|c: char| encoding::json_char(c));
    if s.len() == 0 {
        assert(parts == Seq::<Text>::empty());
        assert(text::joined(parts) == s);
    } else {
        let rest = s.drop_first();
        law_json_reads_back(rest);
        lemma_joined_front(parts);
        assert(parts.drop_first() == rest.map_values(|c: char| encoding::json_char(c)));
        lemma_json_char(s[0], text::joined(parts.drop_first()));
        assert(s == seq![s[0]] + rest);
    }
}

} // verus!
