//! Starting a review: what is compared with what, and what is said about it.

use vstd::prelude::*;
use vstd::string::*;

use crate::git::{FileEntry, RefInfo, Side};
#[allow(unused_imports)]
use crate::git::{FileEntryView, RefInfoView, SideView};
use crate::number;
use crate::repo;
use crate::repo::Repo;
use crate::server;
use crate::server::App;
#[allow(unused_imports)]
use crate::server::AppView;
use crate::session;
use crate::session::{Error, Halt, Session};
#[allow(unused_imports)]
use crate::session::{ErrorView, LogView, Outcome};
use crate::text;
#[allow(unused_imports)]
use crate::text::Text;

verus! {

broadcast use {vstd::string::group_string_axioms, vstd::seq_lib::group_seq_properties};

/// What to review.
pub struct Options {
    /// Branch, tag or commit to compare against; the repository's main branch where it is not
    /// given.
    pub base: Option<String>,
    /// What to compare; the working tree where it is not given.
    pub head: Option<String>,
    /// Compare with the base itself instead of with where the two diverged.
    pub no_merge_base: bool,
    /// Lines of unchanged code to show around each change.
    pub context: usize,
}

/// What to review, as specifications see it.
#[verifier::ext_equal]
pub struct OptionsView {
    pub base: Option<Text>,
    pub head: Option<Text>,
    pub no_merge_base: bool,
    pub context: usize,
}

impl DeepView for Options {
    type V = OptionsView;

    open spec fn deep_view(&self) -> OptionsView {
        OptionsView {
            base: self.base.deep_view(),
            head: self.head.deep_view(),
            no_merge_base: self.no_merge_base,
            context: self.context,
        }
    }
}

/// The base of a review: the one that was asked for, or a guess.
pub open spec fn chosen_base(root: Text, base: Option<Text>, log: LogView) -> Outcome<Text> {
    match base {
        Some(base) => Outcome::Done(base, log),
        None => repo::guessed_base(root, log),
    }
}

/// The head of a review, its commit, and what it is called: what was asked for, or the working
/// tree on the current branch.
pub open spec fn chosen_head(root: Text, head: Option<Text>, log: LogView) -> Outcome<
    (SideView, Text, Text),
> {
    match head {
        Some(rev) => session::after(
            repo::resolved(root, rev, log),
            |sha: Text, left: LogView| Outcome::Done((SideView::Rev(sha), sha, rev), left),
        ),
        None => session::after(
            repo::resolved(root, "HEAD"@, log),
            |sha: Text, left: LogView|
                session::after(
                    repo::tried_text(root, repo::branch_args(), left),
                    |branch: Option<Text>, left: LogView|
                        Outcome::Done(
                            (
                                SideView::Worktree,
                                sha,
                                match branch {
                                    Some(branch) => branch,
                                    None => "HEAD"@,
                                },
                            ),
                            left,
                        ),
                ),
        ),
    }
}

/// The commit that a review compares with: where base and head diverged, which shows what the
/// head adds and not what it is missing, or the base itself.
pub open spec fn chosen_start(
    root: Text,
    base_sha: Text,
    head_sha: Text,
    merge_base: bool,
    log: LogView,
) -> Outcome<Text> {
    if merge_base {
        repo::common_ancestor(root, base_sha, head_sha, log)
    } else {
        Outcome::Done(base_sha, log)
    }
}

/// The failure of a review of nothing.
pub open spec fn same_commit(base: Text, head: Text) -> ErrorView {
    session::plain_error(
        "'"@ + base + "' and '"@ + head + "' are the same commit; there is nothing to review"@,
    )
}

/// Describing both ends of a review.
pub open spec fn both_described(
    root: Text,
    base: Text,
    start: Text,
    head: Text,
    head_sha: Text,
    log: LogView,
) -> Outcome<(RefInfoView, RefInfoView)> {
    session::after(
        repo::described(root, base, start, log),
        |base_info: RefInfoView, left: LogView|
            session::after(
                repo::described(root, head, head_sha, left),
                |head_info: RefInfoView, left: LogView| Outcome::Done((base_info, head_info), left),
            ),
    )
}

/// Setting up a review of a head that was chosen, against a base that was found.
pub open spec fn set_up_between(
    root: Text,
    base: Text,
    base_sha: Text,
    head: (SideView, Text, Text),
    options: OptionsView,
    log: LogView,
) -> Outcome<AppView> {
    let merge_base = !options.no_merge_base;
    session::after(
        chosen_start(root, base_sha, head.1, merge_base, log),
        |start: Text, left: LogView|
            if start == head.1 && head.0 is Rev {
                Outcome::Fail(same_commit(base, head.2), left)
            } else {
                session::after(
                    both_described(root, base, start, head.2, head.1, left),
                    |infos: (RefInfoView, RefInfoView), left: LogView|
                        Outcome::Done(
                            AppView {
                                root,
                                base: start,
                                head: head.0,
                                base_info: infos.0,
                                head_info: infos.1,
                                merge_base,
                                context: options.context,
                            },
                            left,
                        ),
                )
            },
    )
}

/// Setting up a review in a repository.
pub open spec fn set_up(root: Text, options: OptionsView, log: LogView) -> Outcome<AppView> {
    session::after(
        chosen_base(root, options.base, log),
        |base: Text, left: LogView|
            session::after(
                repo::resolved(root, base, left),
                |base_sha: Text, left: LogView|
                    session::after(
                        chosen_head(root, options.head, left),
                        |head: (SideView, Text, Text), left: LogView|
                            set_up_between(root, base, base_sha, head, options, left),
                    ),
            ),
    )
}

/// Starting a review from a directory, with the files that it is about.
pub open spec fn started(start: Text, options: OptionsView, log: LogView) -> Outcome<
    (AppView, Seq<FileEntryView>),
> {
    session::after(
        repo::discovered(start, log),
        |root: Text, left: LogView|
            session::after(
                set_up(root, options, left),
                |app: AppView, left: LogView|
                    session::after(
                        server::changed_files(app, server::branch_of(app), true, left),
                        |files: Seq<FileEntryView>, left: LogView|
                            Outcome::Done((app, files), left),
                    ),
            ),
    )
}

/// Finds the base of a review.
fn choose_base(repo: &Repo, session: &mut Session<'_>, base: &Option<String>) -> (r: Result<
    String,
    Halt,
>)
    ensures
        session::keeps_to(
            r,
            final(session).left(),
            chosen_base(repo.root@, base.deep_view(), old(session).left()),
        ),
{
    match base {
        Some(base) => Ok(base.clone()),
        None => repo.default_base(session),
    }
}

/// Finds the head of a review.
fn choose_head(repo: &Repo, session: &mut Session<'_>, head: &Option<String>) -> (r: Result<
    (Side, String, String),
    Halt,
>)
    ensures
        session::keeps_to(
            r,
            final(session).left(),
            chosen_head(repo.root@, head.deep_view(), old(session).left()),
        ),
{
    match head {
        Some(rev) => match repo.resolve(session, rev.as_str()) {
            Err(halt) => Err(halt),
            Ok(sha) => Ok((Side::Rev(sha.clone()), sha, rev.clone())),
        },
        None => {
            let sha = match repo.resolve(session, "HEAD") {
                Err(halt) => {
                    return Err(halt);
                },
                Ok(sha) => sha,
            };
            match repo.current_branch(session) {
                Err(halt) => Err(halt),
                Ok(Some(branch)) => Ok((Side::Worktree, sha, branch)),
                Ok(None) => Ok((Side::Worktree, sha, "HEAD".to_owned())),
            }
        },
    }
}

/// Finds the commit that a review compares with.
fn choose_start(
    repo: &Repo,
    session: &mut Session<'_>,
    base_sha: &String,
    head_sha: &String,
    merge_base: bool,
) -> (r: Result<String, Halt>)
    ensures
        session::keeps_to(
            r,
            final(session).left(),
            chosen_start(repo.root@, base_sha@, head_sha@, merge_base, old(session).left()),
        ),
{
    if merge_base {
        repo.merge_base(session, base_sha.as_str(), head_sha.as_str())
    } else {
        Ok(base_sha.clone())
    }
}

/// Describes both ends of a review.
fn describe_both(
    repo: &Repo,
    session: &mut Session<'_>,
    base: &String,
    start: &String,
    head: &String,
    head_sha: &String,
) -> (r: Result<(RefInfo, RefInfo), Halt>)
    ensures
        session::keeps_to(
            r,
            final(session).left(),
            both_described(repo.root@, base@, start@, head@, head_sha@, old(session).left()),
        ),
{
    let base_info = match repo.describe(session, base.as_str(), start.as_str()) {
        Err(halt) => {
            return Err(halt);
        },
        Ok(info) => info,
    };
    match repo.describe(session, head.as_str(), head_sha.as_str()) {
        Err(halt) => Err(halt),
        Ok(head_info) => Ok((base_info, head_info)),
    }
}

/// Sets up a review in a repository.
pub fn prepare(repo: Repo, session: &mut Session<'_>, options: &Options) -> (r: Result<App, Halt>)
    ensures
        session::keeps_to(
            r,
            final(session).left(),
            set_up(repo.root@, options.deep_view(), old(session).left()),
        ),
{
    let base = match choose_base(&repo, session, &options.base) {
        Err(halt) => {
            return Err(halt);
        },
        Ok(base) => base,
    };
    let base_sha = match repo.resolve(session, base.as_str()) {
        Err(halt) => {
            return Err(halt);
        },
        Ok(sha) => sha,
    };
    let (head, head_sha, head_label) = match choose_head(&repo, session, &options.head) {
        Err(halt) => {
            return Err(halt);
        },
        Ok(head) => head,
    };
    // Three-dot by default: show what this branch adds, not what it is missing.
    let merge_base = !options.no_merge_base;
    let start = match choose_start(&repo, session, &base_sha, &head_sha, merge_base) {
        Err(halt) => {
            return Err(halt);
        },
        Ok(start) => start,
    };
    if matches!(head, Side::Rev(_)) && text::same(start.as_str(), head_sha.as_str()) {
        let mut message = "'".to_owned();
        message.append(base.as_str());
        message.append("' and '");
        message.append(head_label.as_str());
        message.append("' are the same commit; there is nothing to review");
        return Err(Halt::Fail(Error { message, cause: None }));
    }
    let (base_info, head_info) = match describe_both(
        &repo,
        session,
        &base,
        &start,
        &head_label,
        &head_sha,
    ) {
        Err(halt) => {
            return Err(halt);
        },
        Ok(infos) => infos,
    };
    Ok(App::new(repo, start, head, base_info, head_info, merge_base, options.context))
}

/// Starts a review from a directory, and finds the files that it is about.
pub fn run(session: &mut Session<'_>, start: &str, options: &Options) -> (r: Result<
    (App, Vec<FileEntry>),
    Halt,
>)
    ensures
        session::keeps_to(
            r,
            final(session).left(),
            started(start@, options.deep_view(), old(session).left()),
        ),
{
    let repo = match Repo::discover(session, start) {
        Err(halt) => {
            return Err(halt);
        },
        Ok(repo) => repo,
    };
    let app = match prepare(repo, session, options) {
        Err(halt) => {
            return Err(halt);
        },
        Ok(app) => app,
    };
    let comparison = app.branch_comparison();
    match app.files(session, &comparison, true) {
        Err(halt) => Err(halt),
        Ok(files) => Ok((app, files)),
    }
}

/// The address that a review is served at.
pub open spec fn address_of(port: u16) -> Text {
    "http://127.0.0.1:"@ + number::decimal(port as nat)
}

/// The address that a review is served at.
pub fn address(port: u16) -> (url: String)
    ensures
        url@ == address_of(port),
{
    let mut url = "http://127.0.0.1:".to_owned();
    number::push_decimal(&mut url, port as u128);
    url
}

/// What is said about a review when it starts.
pub open spec fn banner_of(app: AppView, files: nat, url: Text) -> Text {
    let worktree = match app.head {
        SideView::Worktree => "  + working tree"@,
        SideView::Rev(_) => Seq::empty(),
    };
    let plural = if files == 1 {
        Seq::empty()
    } else {
        "s"@
    };
    "reviewbuddy  "@ + repo::directory_name(app.root) + "\n  base  "@ + app.base_info.label + "  "@
        + app.base_info.short + "\n  head  "@ + app.head_info.label + "  "@ + app.head_info.short
        + worktree + "\n  "@ + number::decimal(files) + " file"@ + plural + " changed\n\n  "@ + url
        + "\n\n"@
}

/// What is said about a review when it starts.
pub fn banner(app: &App, files: usize, url: &str) -> (s: String)
    ensures
        s@ == banner_of(app.deep_view(), files as nat, url@),
{
    let mut s = "reviewbuddy  ".to_owned();
    let name = app.repo.name();
    s.append(name.as_str());
    s.append("\n  base  ");
    s.append(app.base_info.label.as_str());
    s.append("  ");
    s.append(app.base_info.short.as_str());
    s.append("\n  head  ");
    s.append(app.head_info.label.as_str());
    s.append("  ");
    s.append(app.head_info.short.as_str());
    let ghost so_far = s@;
    assert(so_far + Seq::<char>::empty() == so_far);
    if let Side::Worktree = app.head {
        s.append("  + working tree");
    }
    s.append("\n  ");
    number::push_decimal(&mut s, files as u128);
    s.append(" file");
    let ghost so_far = s@;
    assert(so_far + Seq::<char>::empty() == so_far);
    if files != 1 {
        s.append("s");
    }
    s.append(" changed\n\n  ");
    s.append(url);
    s.append("\n\n");
    s
}

} // verus!
