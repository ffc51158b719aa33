//! More answers never change what fewer answers led to.
//!
//! Work is taken again from its start each time an answer was added. These laws say that it
//! then comes to where it was before: what it did, asked and decided with the answers that it
//! had, it does, asks and decides again.

#[allow(unused_imports)]
use vstd::prelude::*;

#[allow(unused_imports)]
use crate::git::{FileEntryView, SideView};
#[allow(unused_imports)]
use crate::repo;
#[allow(unused_imports)]
use crate::review;
#[allow(unused_imports)]
use crate::review::OptionsView;
#[allow(unused_imports)]
use crate::server;
#[allow(unused_imports)]
use crate::server::{AppView, Assets, ComparisonView};
#[allow(unused_imports)]
use crate::session;
#[allow(unused_imports)]
use crate::session::{LogView, Outcome};
#[allow(unused_imports)]
use crate::text::Text;

verus! {

/// Answers with more answers behind them.
pub open spec fn with_more(log: LogView, more: LogView) -> LogView {
    LogView {
        git: log.git + more.git,
        reads: log.reads + more.reads,
        lookups: log.lookups + more.lookups,
        stores: log.stores + more.stores,
    }
}

/// Whether work that was done or failed is done or fails in the same way with `more` answers,
/// which are then left behind those that were left.
pub open spec fn stays<V>(fewer: Outcome<V>, all: Outcome<V>, more: LogView) -> bool {
    match fewer {
        Outcome::Ask(_) => true,
        Outcome::Fail(error, left) => all == Outcome::<V>::Fail(error, with_more(left, more)),
        Outcome::Done(value, left) => all == Outcome::Done(value, with_more(left, more)),
    }
}

/// A single question that was answered keeps its answer.
pub proof fn law_answer_stays(
    dir: Text,
    texts: Seq<Text>,
    entries: Seq<FileEntryView>,
    log: LogView,
    more: LogView,
)
    requires
        more.stores >= 0,
    ensures
        stays(
            session::ask_git(dir, texts, log),
            session::ask_git(dir, texts, with_more(log, more)),
            more,
        ),
        stays(
            session::ask_reads(texts, log),
            session::ask_reads(texts, with_more(log, more)),
            more,
        ),
        stays(session::ask_lookup(dir, log), session::ask_lookup(dir, with_more(log, more)), more),
        stays(
            session::ask_store(dir, entries, log),
            session::ask_store(dir, entries, with_more(log, more)),
            more,
        ),
{
    let all = with_more(log, more);
    let n = texts.len() as int;
    if log.git.len() > 0 {
        assert(all.git.skip(1) == log.git.skip(1) + more.git);
    }
    if log.reads.len() >= n {
        assert(all.reads.take(n) == log.reads.take(n));
        assert(all.reads.skip(n) == log.reads.skip(n) + more.reads);
    }
    if log.lookups.len() > 0 {
        assert(all.lookups.skip(1) == log.lookups.skip(1) + more.lookups);
    }
}

proof fn lemma_tried_text(root: Text, args: Seq<Text>, log: LogView, more: LogView)
    requires
        more.stores >= 0,
    ensures
        stays(
            repo::captured(root, args, log),
            repo::captured(root, args, with_more(log, more)),
            more,
        ),
        stays(
            repo::tried_text(root, args, log),
            repo::tried_text(root, args, with_more(log, more)),
            more,
        ),
{
    law_answer_stays(root, seq!["--no-optional-locks"@] + args, Seq::empty(), log, more);
}

proof fn lemma_resolved(root: Text, rev: Text, log: LogView, more: LogView)
    requires
        more.stores >= 0,
    ensures
        stays(
            repo::resolved(root, rev, log),
            repo::resolved(root, rev, with_more(log, more)),
            more,
        ),
{
    let args = repo::resolve_args(rev);
    lemma_tried_text(root, args, log, more);
    if let Outcome::Done(None, left) = repo::tried_text(root, args, log) {
        lemma_tried_text(root, repo::resolve_args("origin/"@ + rev), left, more);
    }
}

proof fn lemma_guessed_base(root: Text, branches: Seq<Text>, log: LogView, more: LogView)
    requires
        more.stores >= 0,
    ensures
        stays(
            repo::first_resolved(root, branches, log),
            repo::first_resolved(root, branches, with_more(log, more)),
            more,
        ),
    decreases branches.len(),
{
    if branches.len() > 0 {
        lemma_resolved(root, branches[0], log, more);
        if let Outcome::Fail(_, left) = repo::resolved(root, branches[0], log) {
            lemma_guessed_base(root, branches.drop_first(), left, more);
        }
    }
}

proof fn lemma_described(root: Text, label: Text, sha: Text, log: LogView, more: LogView)
    requires
        more.stores >= 0,
    ensures
        stays(
            repo::described(root, label, sha, log),
            repo::described(root, label, sha, with_more(log, more)),
            more,
        ),
{
    lemma_tried_text(root, seq!["log"@, "-1"@, "--format=%h%x1f%s"@, sha], log, more);
}

proof fn lemma_read_from(root: Text, side: SideView, path: Text, log: LogView, more: LogView)
    requires
        more.stores >= 0,
    ensures
        stays(
            repo::read_from(root, side, path, log),
            repo::read_from(root, side, path, with_more(log, more)),
            more,
        ),
{
    match side {
        SideView::Rev(rev) => {
            let args = seq!["--no-optional-locks"@] + seq!["show"@, rev + ":"@ + path];
            law_answer_stays(root, args, Seq::empty(), log, more);
        },
        SideView::Worktree => {
            law_answer_stays(
                root,
                seq![repo::below(root, path)],
                Seq::empty(),
                log,
                more,
            );
        },
    }
}

proof fn lemma_untracked(root: Text, log: LogView, more: LogView)
    requires
        more.stores >= 0,
    ensures
        stays(repo::untracked(root, log), repo::untracked(root, with_more(log, more)), more),
{
    lemma_tried_text(root, repo::untracked_args(), log, more);
    if let Outcome::Done(bytes, left) = repo::captured(root, repo::untracked_args(), log) {
        let wanted = repo::readable(root, crate::git::fields_of(bytes));
        law_answer_stays(root, wanted, Seq::empty(), left, more);
    }
}

proof fn lemma_changed(root: Text, base: Text, head: SideView, log: LogView, more: LogView)
    requires
        more.stores >= 0,
    ensures
        stays(
            repo::changed(root, base, head, log),
            repo::changed(root, base, head, with_more(log, more)),
            more,
        ),
{
    lemma_tried_text(root, repo::diff_args("--numstat"@, base, head), log, more);
    if let Outcome::Done(stats, left) = repo::counted(root, base, head, log) {
        lemma_tried_text(root, repo::diff_args("--name-status"@, base, head), left, more);
        if let Outcome::Done(entries, left) = repo::reported(root, base, head, stats, left) {
            lemma_untracked(root, left, more);
        }
    }
}

proof fn lemma_compared(
    app: AppView,
    params: vstd::map::Map<Text, Text>,
    log: LogView,
    more: LogView,
)
    requires
        more.stores >= 0,
    ensures
        stays(
            server::compared(app, params, log),
            server::compared(app, params, with_more(log, more)),
            more,
        ),
{
    if let Some(rev) = server::param(params, "commit"@) {
        lemma_resolved(app.root, rev, log, more);
        if let Outcome::Done(sha, left) = repo::resolved(app.root, rev, log) {
            let args = seq!["rev-parse"@, "--verify"@, "--quiet"@, sha + "^1"@];
            lemma_tried_text(app.root, args, left, more);
        }
    }
}

proof fn lemma_fetched(app: AppView, comparison: ComparisonView, log: LogView, more: LogView)
    requires
        more.stores >= 0,
    ensures
        stays(
            server::fetched(app, comparison, log),
            server::fetched(app, comparison, with_more(log, more)),
            more,
        ),
{
    lemma_changed(app.root, comparison.base, comparison.head, log, more);
    if let Outcome::Done(entries, left) = repo::changed(
        app.root,
        comparison.base,
        comparison.head,
        log,
    ) {
        law_answer_stays(server::key_of(comparison), Seq::empty(), entries, left, more);
    }
}

proof fn lemma_changed_files(
    app: AppView,
    comparison: ComparisonView,
    refresh: bool,
    log: LogView,
    more: LogView,
)
    requires
        more.stores >= 0,
    ensures
        stays(
            server::changed_files(app, comparison, refresh, log),
            server::changed_files(app, comparison, refresh, with_more(log, more)),
            more,
        ),
{
    let key = server::key_of(comparison);
    if refresh {
        lemma_fetched(app, comparison, log, more);
    } else {
        law_answer_stays(key, Seq::empty(), Seq::empty(), log, more);
        if let Outcome::Done(None, left) = session::ask_lookup(key, log) {
            lemma_fetched(app, comparison, left, more);
        }
    }
}

proof fn lemma_labelled(
    app: AppView,
    comparison: ComparisonView,
    scoped: bool,
    log: LogView,
    more: LogView,
)
    requires
        more.stores >= 0,
    ensures
        stays(
            server::labelled(app, comparison, scoped, log),
            server::labelled(app, comparison, scoped, with_more(log, more)),
            more,
        ),
{
    if let SideView::Rev(sha) = comparison.head {
        lemma_described(app.root, "parent"@, comparison.base, log, more);
        if let Outcome::Done(_, left) = repo::described(
            app.root,
            "parent"@,
            comparison.base,
            log,
        ) {
            lemma_described(app.root, Seq::empty(), sha, left, more);
            if let Outcome::Done(bare, left) = repo::described(
                app.root,
                Seq::empty(),
                sha,
                left,
            ) {
                lemma_described(app.root, bare.short, sha, left, more);
            }
        }
    }
}

#[verifier::rlimit(30)]
#[verifier::spinoff_prover]
proof fn lemma_summarized(
    app: AppView,
    params: vstd::map::Map<Text, Text>,
    log: LogView,
    more: LogView,
)
    requires
        more.stores >= 0,
    ensures
        stays(
            server::summarized(app, params, log),
            server::summarized(app, params, with_more(log, more)),
            more,
        ),
{
    let scoped = server::is_scoped(params);
    lemma_compared(app, params, log, more);
    if let Outcome::Done(comparison, left) = server::compared(app, params, log) {
        lemma_changed_files(app, comparison, true, left, more);
        if let Outcome::Done(_, left) = server::changed_files(app, comparison, true, left) {
            lemma_labelled(app, comparison, scoped, left, more);
            if let Outcome::Done(_, left) = server::labelled(app, comparison, scoped, left) {
                lemma_tried_text(app.root, repo::branch_args(), left, more);
            }
        }
    }
}

proof fn lemma_both_sides(
    app: AppView,
    comparison: ComparisonView,
    entry: FileEntryView,
    log: LogView,
    more: LogView,
)
    requires
        more.stores >= 0,
    ensures
        stays(
            server::both_sides(app, comparison, entry, log),
            server::both_sides(app, comparison, entry, with_more(log, more)),
            more,
        ),
{
    let base = SideView::Rev(comparison.base);
    let path = crate::git::entry_base_path(entry);
    lemma_read_from(app.root, base, path, log, more);
    lemma_read_from(app.root, comparison.head, entry.path, log, more);
    if let Outcome::Done(_, left) = repo::read_from(app.root, base, path, log) {
        lemma_read_from(app.root, comparison.head, entry.path, left, more);
    }
}

proof fn lemma_asked_diff(
    app: AppView,
    params: vstd::map::Map<Text, Text>,
    log: LogView,
    more: LogView,
)
    requires
        more.stores >= 0,
    ensures
        stays(
            server::asked_diff(app, params, log),
            server::asked_diff(app, params, with_more(log, more)),
            more,
        ),
{
    if let Ok(path) = server::required(params, "path"@) {
        lemma_compared(app, params, log, more);
        if let Outcome::Done(comparison, left) = server::compared(app, params, log) {
            lemma_changed_files(app, comparison, false, left, more);
            if let Outcome::Done(entry, left) = server::changed_file(app, comparison, path, left) {
                lemma_both_sides(app, comparison, entry, left, more);
            }
        }
    }
}

proof fn lemma_asked_view(
    app: AppView,
    params: vstd::map::Map<Text, Text>,
    log: LogView,
    more: LogView,
)
    requires
        more.stores >= 0,
    ensures
        stays(
            server::asked_view(app, params, log),
            server::asked_view(app, params, with_more(log, more)),
            more,
        ),
{
    if let Ok(path) = server::required(params, "path"@) {
        lemma_compared(app, params, log, more);
        if let Outcome::Done(comparison, left) = server::compared(app, params, log) {
            lemma_read_from(app.root, server::asked_side(params, comparison), path, left, more);
        }
    }
}

proof fn lemma_asked_tree(
    app: AppView,
    params: vstd::map::Map<Text, Text>,
    log: LogView,
    more: LogView,
)
    requires
        more.stores >= 0,
    ensures
        stays(
            server::asked_tree(app, params, log),
            server::asked_tree(app, params, with_more(log, more)),
            more,
        ),
{
    lemma_compared(app, params, log, more);
    if let Outcome::Done(comparison, left) = server::compared(app, params, log) {
        lemma_tried_text(app.root, repo::list_args(comparison.head), left, more);
    }
}

/// What a request came to with some answers, it comes to with more.
pub proof fn law_request_stays(
    app: AppView,
    assets: Assets,
    url: Text,
    log: LogView,
    more: LogView,
)
    requires
        more.stores >= 0,
    ensures
        stays(
            server::routed(app, assets, url, log),
            server::routed(app, assets, url, with_more(log, more)),
            more,
        ),
{
    let (path, query) = server::url_parts(url);
    let params = server::query_params(query);
    lemma_summarized(app, params, log, more);
    lemma_tried_text(app.root, repo::commits_args(app.base, app.head), log, more);
    lemma_asked_diff(app, params, log, more);
    lemma_asked_view(app, params, log, more);
    lemma_asked_tree(app, params, log, more);
}

proof fn lemma_chosen(root: Text, options: OptionsView, log: LogView, more: LogView)
    requires
        more.stores >= 0,
    ensures
        stays(
            review::chosen_base(root, options.base, log),
            review::chosen_base(root, options.base, with_more(log, more)),
            more,
        ),
        stays(
            review::chosen_head(root, options.head, log),
            review::chosen_head(root, options.head, with_more(log, more)),
            more,
        ),
{
    let args = seq!["symbolic-ref"@, "--quiet"@, "--short"@, "refs/remotes/origin/HEAD"@];
    lemma_tried_text(root, args, log, more);
    if let Outcome::Done(_, left) = repo::tried_text(root, args, log) {
        lemma_guessed_base(root, repo::usual_bases(), left, more);
    }
    if let Some(rev) = options.head {
        lemma_resolved(root, rev, log, more);
    } else {
        lemma_resolved(root, "HEAD"@, log, more);
        if let Outcome::Done(_, left) = repo::resolved(root, "HEAD"@, log) {
            lemma_tried_text(root, repo::branch_args(), left, more);
        }
    }
}

proof fn lemma_both_described(
    root: Text,
    base: Text,
    start: Text,
    head: Text,
    head_sha: Text,
    log: LogView,
    more: LogView,
)
    requires
        more.stores >= 0,
    ensures
        stays(
            review::both_described(root, base, start, head, head_sha, log),
            review::both_described(root, base, start, head, head_sha, with_more(log, more)),
            more,
        ),
{
    lemma_described(root, base, start, log, more);
    if let Outcome::Done(_, left) = repo::described(root, base, start, log) {
        lemma_described(root, head, head_sha, left, more);
    }
}

proof fn lemma_set_up_between(
    root: Text,
    base: Text,
    base_sha: Text,
    head: (SideView, Text, Text),
    options: OptionsView,
    log: LogView,
    more: LogView,
)
    requires
        more.stores >= 0,
    ensures
        stays(
            review::set_up_between(root, base, base_sha, head, options, log),
            review::set_up_between(root, base, base_sha, head, options, with_more(log, more)),
            more,
        ),
{
    lemma_tried_text(root, seq!["merge-base"@, base_sha, head.1], log, more);
    if let Outcome::Done(start, left) = review::chosen_start(
        root,
        base_sha,
        head.1,
        !options.no_merge_base,
        log,
    ) {
        lemma_both_described(root, base, start, head.2, head.1, left, more);
    }
}

#[verifier::rlimit(30)]
#[verifier::spinoff_prover]
proof fn lemma_set_up(root: Text, options: OptionsView, log: LogView, more: LogView)
    requires
        more.stores >= 0,
    ensures
        stays(
            review::set_up(root, options, log),
            review::set_up(root, options, with_more(log, more)),
            more,
        ),
{
    lemma_chosen(root, options, log, more);
    if let Outcome::Done(base, left) = review::chosen_base(root, options.base, log) {
        lemma_resolved(root, base, left, more);
        if let Outcome::Done(base_sha, left) = repo::resolved(root, base, left) {
            lemma_chosen(root, options, left, more);
            if let Outcome::Done(head, left) = review::chosen_head(root, options.head, left) {
                lemma_set_up_between(root, base, base_sha, head, options, left, more);
            }
        }
    }
}

/// What the start of a review came to with some answers, it comes to with more.
pub proof fn law_start_stays(start: Text, options: OptionsView, log: LogView, more: LogView)
    requires
        more.stores >= 0,
    ensures
        stays(
            review::started(start, options, log),
            review::started(start, options, with_more(log, more)),
            more,
        ),
{
    lemma_tried_text(start, seq!["rev-parse"@, "--show-toplevel"@], log, more);
    if let Outcome::Done(root, left) = repo::discovered(start, log) {
        lemma_set_up(root, options, left, more);
        if let Outcome::Done(app, left) = review::set_up(root, options, left) {
            lemma_changed_files(app, server::branch_of(app), true, left, more);
        }
    }
}

} // verus!
