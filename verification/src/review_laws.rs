//! What holds of every review that was started.

#[allow(unused_imports)]
use vstd::prelude::*;

#[allow(unused_imports)]
use crate::git::{RefInfoView, SideView};
#[allow(unused_imports)]
use crate::number;
#[allow(unused_imports)]
use crate::repo;
#[allow(unused_imports)]
use crate::repo_laws;
#[allow(unused_imports)]
use crate::review;
#[allow(unused_imports)]
use crate::review::{
    chosen_base, chosen_head, set_up, set_up_between, started, OptionsView,
};
#[allow(unused_imports)]
use crate::server::AppView;
#[allow(unused_imports)]
use crate::session::{ErrorView, GitReplyView, LogView, Outcome};
#[allow(unused_imports)]
use crate::text::Text;

verus! {

/// Whether a review is what was asked for: the working tree unless a head was given, from where
/// the two sides diverged unless that was declined, under the names that were given. Two sides
/// that are the same commit are no review.
pub open spec fn is_as_asked(app: AppView, options: OptionsView) -> bool {
    &&& app.context == options.context
    &&& app.merge_base == !options.no_merge_base
    &&& app.head is Worktree == options.head is None
    &&& options.base matches Some(base) ==> app.base_info.label == base
    &&& options.head matches Some(head) ==> app.head_info.label == head
    &&& app.base_info.sha == app.base
    &&& app.head matches SideView::Rev(sha) ==> app.head_info.sha == sha && sha != app.base
}

proof fn lemma_set_up_between(
    root: Text,
    base: Text,
    base_sha: Text,
    head: (SideView, Text, Text),
    options: OptionsView,
    log: LogView,
)
    requires
        head.0 matches SideView::Rev(sha) ==> sha == head.1,
    ensures
        set_up_between(root, base, base_sha, head, options, log) matches Outcome::Done(app, _) ==> {
            &&& app.root == root
            &&& app.context == options.context
            &&& app.merge_base == !options.no_merge_base
            &&& app.head == head.0
            &&& app.base_info.label == base
            &&& app.base_info.sha == app.base
            &&& app.head_info.label == head.2
            &&& app.head_info.sha == head.1
            &&& app.head is Rev ==> head.1 != app.base
        },
{
}

proof fn lemma_set_up(root: Text, options: OptionsView, log: LogView)
    ensures
        set_up(root, options, log) matches Outcome::Done(app, _) ==> app.root == root
            && is_as_asked(app, options),
{
    if let Outcome::Done(base, left) = chosen_base(root, options.base, log) {
        if let Outcome::Done(base_sha, left) = repo::resolved(root, base, left) {
            if let Outcome::Done(head, left) = chosen_head(root, options.head, left) {
                lemma_set_up_between(root, base, base_sha, head, options, left);
            }
        }
    }
}

/// A review that starts is what was asked for, and there is something to review: a head that is
/// the commit it would be compared with is refused.
pub proof fn law_review_is_as_asked(start: Text, options: OptionsView, log: LogView)
    ensures
        started(start, options, log) matches Outcome::Done(review, _) ==> is_as_asked(
            review.0,
            options,
        ),
{
    if let Outcome::Done(root, left) = repo::discovered(start, log) {
        lemma_set_up(root, options, left);
    }
}

/// Where the two sides did diverge is not asked when that was declined: the comparison is with
/// the base itself.
pub proof fn law_direct_review_is_with_base(
    root: Text,
    base: Text,
    base_sha: Text,
    head: (SideView, Text, Text),
    options: OptionsView,
    log: LogView,
)
    requires
        options.no_merge_base,
    ensures
        set_up_between(root, base, base_sha, head, options, log) matches Outcome::Done(app, _)
            ==> app.base == base_sha,
        head.0 is Rev && head.1 == base_sha ==> set_up_between(
            root,
            base,
            base_sha,
            head,
            options,
            log,
        ) is Fail,
{
}

/// Answers that start with output of git.
spec fn after_output(bytes: Seq<u8>, log: LogView) -> LogView {
    repo_laws::answered(GitReplyView::Output(bytes), log)
}

/// Whether git described a commit by its short name and its subject.
pub open spec fn describes(bytes: Seq<u8>, info: RefInfoView) -> bool {
    &&& !info.short.contains('\u{1f}')
    &&& repo_laws::said(bytes) == info.short.push('\u{1f}') + info.subject
}

/// A review between two names compares the commits that git resolves them to: from their common
/// ancestor, unless that was declined, to the head. Both ends are described under the names that
/// they were asked for by, the start being that of the base. Where start and head are one commit,
/// there is nothing to review.
pub proof fn law_review_of_two_names(
    root: Text,
    options: OptionsView,
    base: Text,
    head: Text,
    shas: (Seq<u8>, Seq<u8>, Seq<u8>),
    about: (Seq<u8>, Seq<u8>),
    base_info: RefInfoView,
    head_info: RefInfoView,
    log: LogView,
)
    requires
        options.base == Some(base),
        options.head == Some(head),
        !options.no_merge_base,
        repo_laws::said(shas.0).len() > 0,
        repo_laws::said(shas.1).len() > 0,
        repo_laws::said(shas.2).len() > 0,
        describes(about.0, base_info),
        describes(about.1, head_info),
        base_info.label == base,
        base_info.sha == repo_laws::said(shas.2),
        head_info.label == head,
        head_info.sha == repo_laws::said(shas.1),
    ensures
        ({
            let answers = repo_laws::answered(
                GitReplyView::Output(shas.0),
                repo_laws::answered(
                    GitReplyView::Output(shas.1),
                    repo_laws::answered(
                        GitReplyView::Output(shas.2),
                        repo_laws::answered(
                            GitReplyView::Output(about.0),
                            repo_laws::answered(GitReplyView::Output(about.1), log),
                        ),
                    ),
                ),
            );
            let two = repo_laws::answered(
                GitReplyView::Output(shas.0),
                repo_laws::answered(GitReplyView::Output(shas.1), log),
            );
            &&& log.git.len() == 0 ==> repo_laws::waits_for_git(
                set_up(root, options, log),
                root,
                seq![
                    "--no-optional-locks"@,
                    "rev-parse"@,
                    "--verify"@,
                    "--quiet"@,
                    base + "^{commit}"@,
                ],
            )
            &&& log.git.len() == 0 ==> repo_laws::waits_for_git(
                set_up(root, options, two),
                root,
                seq![
                    "--no-optional-locks"@,
                    "merge-base"@,
                    repo_laws::said(shas.0),
                    repo_laws::said(shas.1),
                ],
            )
            &&& repo_laws::said(shas.2) != repo_laws::said(shas.1) ==> set_up(
                root,
                options,
                answers,
            ) == Outcome::Done(
                AppView {
                    root,
                    base: repo_laws::said(shas.2),
                    head: SideView::Rev(repo_laws::said(shas.1)),
                    base_info,
                    head_info,
                    merge_base: true,
                    context: options.context,
                },
                log,
            )
            &&& repo_laws::said(shas.2) == repo_laws::said(shas.1) ==> (set_up(
                root,
                options,
                answers,
            ) matches Outcome::Fail(error, _) && error == (ErrorView {
                message: "'"@ + base + "' and '"@ + head
                    + "' are the same commit; there is nothing to review"@,
                cause: None,
            }))
        }),
{
    let e = after_output(about.1, log);
    let d = after_output(about.0, e);
    let c = after_output(shas.2, d);
    let b = after_output(shas.1, c);
    let (x, y, z) = (
        repo_laws::said(shas.0),
        repo_laws::said(shas.1),
        repo_laws::said(shas.2),
    );
    repo_laws::law_commit_is_asked_for(root, base, shas.0, log);
    repo_laws::law_commit_is_asked_for(root, base, shas.0, b);
    repo_laws::law_commit_is_asked_for(root, base, shas.0, after_output(shas.1, log));
    repo_laws::law_commit_is_asked_for(root, head, shas.1, c);
    repo_laws::law_commit_is_asked_for(root, head, shas.1, log);
    repo_laws::law_ancestor_is_asked_for(root, x, y, shas.2, log);
    repo_laws::law_ancestor_is_asked_for(root, x, y, shas.2, d);
    repo_laws::law_description_is_asked_for(
        root,
        base,
        z,
        base_info.short,
        base_info.subject,
        about.0,
        e,
    );
    repo_laws::law_description_is_asked_for(
        root,
        head,
        y,
        head_info.short,
        head_info.subject,
        about.1,
        log,
    );
}

/// A review without a head is of the work tree, on top of the commit that is checked out, and is
/// named after the branch, or `HEAD` where there is none.
pub proof fn law_review_of_work_tree(
    root: Text,
    sha: Seq<u8>,
    branch: Seq<u8>,
    log: LogView,
)
    requires
        repo_laws::said(sha).len() > 0,
        repo_laws::said(branch).len() > 0,
    ensures
        log.git.len() == 0 ==> repo_laws::waits_for_git(
            chosen_head(root, None, log),
            root,
            seq![
                "--no-optional-locks"@,
                "rev-parse"@,
                "--verify"@,
                "--quiet"@,
                "HEAD"@ + "^{commit}"@,
            ],
        ),
        chosen_head(
            root,
            None,
            repo_laws::answered(
                GitReplyView::Output(sha),
                repo_laws::answered(GitReplyView::Output(branch), log),
            ),
        ) == Outcome::Done(
            (SideView::Worktree, repo_laws::said(sha), repo_laws::said(branch)),
            log,
        ),
        chosen_head(
            root,
            None,
            repo_laws::answered(
                GitReplyView::Output(sha),
                repo_laws::answered(GitReplyView::Failed(branch), log),
            ),
        ) == Outcome::Done((SideView::Worktree, repo_laws::said(sha), "HEAD"@), log),
{
    let named = after_output(branch, log);
    let bare = repo_laws::answered(GitReplyView::Failed(branch), log);
    repo_laws::law_commit_is_asked_for(root, "HEAD"@, sha, log);
    repo_laws::law_commit_is_asked_for(root, "HEAD"@, sha, named);
    repo_laws::law_commit_is_asked_for(root, "HEAD"@, sha, bare);
    repo_laws::law_branch_is_asked_for(root, branch, log);
}

/// A review is started by finding the repository around the directory, setting the review up there,
/// and finding the changed files of its comparison anew.
pub proof fn law_start_finds_files(
    start: Text,
    options: OptionsView,
    root: Text,
    app: AppView,
    files: Seq<crate::git::FileEntryView>,
    log: LogView,
    found: LogView,
    ready: LogView,
    left: LogView,
)
    requires
        repo::discovered(start, log) == Outcome::Done(root, found),
        set_up(root, options, found) == Outcome::Done(app, ready),
        repo::changed(app.root, app.base, app.head, ready) == Outcome::Done(files, left),
        left.stores > 0,
    ensures
        started(start, options, log) == Outcome::Done(
            (app, files),
            LogView { stores: left.stores - 1, ..left },
        ),
{
}

/// A review is served on the machine itself, at the given port.
pub proof fn law_address(port: u16)
    ensures
        review::address_of(port) == "http://127.0.0.1:"@ + number::decimal(port as nat),
{
}

/// What is said when a review starts: the directory, both ends by their names and short commits,
/// whether the work tree is part of it, how many files changed, and where to look.
pub proof fn law_banner(app: AppView, files: nat, url: Text)
    ensures
        ({
            let start = "reviewbuddy  "@ + repo::directory_name(app.root) + "\n  base  "@
                + app.base_info.label + "  "@ + app.base_info.short + "\n  head  "@
                + app.head_info.label + "  "@ + app.head_info.short;
            let end = " changed\n\n  "@ + url + "\n\n"@;
            &&& app.head is Worktree && files == 1 ==> review::banner_of(app, files, url) == start
                + "  + working tree\n  "@ + number::decimal(1) + " file"@ + end
            &&& app.head is Worktree && files != 1 ==> review::banner_of(app, files, url) == start
                + "  + working tree\n  "@ + number::decimal(files) + " files"@ + end
            &&& app.head is Rev && files == 1 ==> review::banner_of(app, files, url) == start
                + "\n  "@ + number::decimal(1) + " file"@ + end
            &&& app.head is Rev && files != 1 ==> review::banner_of(app, files, url) == start
                + "\n  "@ + number::decimal(files) + " files"@ + end
        }),
{
    reveal_strlit(" file");
    reveal_strlit(" files");
    reveal_strlit("s");
    assert(" files"@ == " file"@ + "s"@);
    let none = Seq::<char>::empty();
    let start = "reviewbuddy  "@ + repo::directory_name(app.root) + "\n  base  "@
        + app.base_info.label + "  "@ + app.base_info.short + "\n  head  "@ + app.head_info.label
        + "  "@ + app.head_info.short;
    reveal_strlit("  + working tree");
    reveal_strlit("\n  ");
    reveal_strlit("  + working tree\n  ");
    assert("  + working tree\n  "@ == "  + working tree"@ + "\n  "@);
    let tree = if app.head is Worktree {
        "  + working tree"@
    } else {
        none
    };
    let plural = if files == 1 {
        none
    } else {
        "s"@
    };
    let end = " changed\n\n  "@ + url + "\n\n"@;
    let told = start + tree + "\n  "@ + number::decimal(files) + " file"@ + plural;
    assert(review::banner_of(app, files, url) == told + end);
    assert(start + none == start);
    assert(start + tree + "\n  "@ == start + (tree + "\n  "@));
    assert(none + "\n  "@ == "\n  "@);
    let counted = start + tree + "\n  "@ + number::decimal(files);
    assert(counted + " file"@ + plural == counted + (" file"@ + plural));
    assert(" file"@ + none == " file"@);
}

/// Without a base the usual one is guessed, and the guess is what the review is based on.
pub proof fn law_base_is_guessed(root: Text, options: OptionsView, log: LogView)
    requires
        options.base is None,
    ensures
        repo::guessed_base(root, log) matches Outcome::Done(base, left) ==> set_up(
            root,
            options,
            log,
        ) == set_up(root, (OptionsView { base: Some(base), ..options }), left),
        repo::guessed_base(root, log) matches Outcome::Ask(request) ==> set_up(root, options, log)
            == Outcome::<AppView>::Ask(request),
{
}

} // verus!
