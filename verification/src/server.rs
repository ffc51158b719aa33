//! The local HTTP server's JSON API: what is answered to which request.

use vstd::hash_map::StringHashMap;
use vstd::prelude::*;
use vstd::string::*;
use vstd::utf8::*;

use crate::diff;
use crate::diff::{Context, FileDiff, FileView, Input};
#[allow(unused_imports)]
use crate::diff::InputView;
use crate::encoding;
use crate::git;
use crate::git::{FileEntry, RefInfo, Side};
#[allow(unused_imports)]
use crate::git::{FileEntryView, RefInfoView, SideView, Status};
#[allow(unused_imports)]
use crate::highlight;
use crate::highlight::Highlighter;
use crate::repo;
use crate::repo::Repo;
use crate::session;
use crate::session::{Error, Halt, Session};
#[allow(unused_imports)]
use crate::session::{ErrorView, LogView, Outcome};
use crate::text;
#[allow(unused_imports)]
use crate::text::Text;

verus! {

broadcast use {vstd::string::group_string_axioms, vstd::seq_lib::group_seq_properties};

/// What to diff against what. The configured branch comparison by default, or
/// a single commit against its parent when the UI asks for one.
#[derive(Debug)]
pub struct Comparison {
    pub base: String,
    pub head: Side,
}

/// A comparison as specifications see it.
#[verifier::ext_equal]
pub struct ComparisonView {
    pub base: Text,
    pub head: SideView,
}

impl DeepView for Comparison {
    type V = ComparisonView;

    open spec fn deep_view(&self) -> ComparisonView {
        ComparisonView { base: self.base@, head: self.head.deep_view() }
    }
}

impl Clone for Comparison {
    fn clone(&self) -> (r: Comparison)
        ensures
            r.deep_view() == self.deep_view(),
    {
        Comparison { base: self.base.clone(), head: self.head.clone() }
    }
}

/// The key that the changed files of a comparison are kept under.
pub open spec fn key_of(comparison: ComparisonView) -> Text {
    match comparison.head {
        SideView::Rev(rev) => comparison.base + ".."@ + rev,
        SideView::Worktree => comparison.base + "..worktree"@,
    }
}

impl Comparison {
    /// The key that the changed files of this comparison are kept under.
    pub fn key(&self) -> (key: String)
        ensures
            key@ == key_of(self.deep_view()),
    {
        let mut key = self.base.clone();
        match &self.head {
            Side::Rev(rev) => {
                key.append("..");
                key.append(rev.as_str());
            },
            Side::Worktree => {
                key.append("..worktree");
            },
        }
        key
    }
}

/// What is reviewed.
#[derive(Debug)]
pub struct App {
    pub repo: Repo,
    /// The commit every file is compared against.
    pub base: String,
    pub head: Side,
    pub base_info: RefInfo,
    pub head_info: RefInfo,
    pub merge_base: bool,
    pub context: usize,
}

/// What is reviewed, as specifications see it.
#[verifier::ext_equal]
pub struct AppView {
    pub root: Text,
    pub base: Text,
    pub head: SideView,
    pub base_info: RefInfoView,
    pub head_info: RefInfoView,
    pub merge_base: bool,
    pub context: usize,
}

impl DeepView for App {
    type V = AppView;

    open spec fn deep_view(&self) -> AppView {
        AppView {
            root: self.repo.root@,
            base: self.base@,
            head: self.head.deep_view(),
            base_info: self.base_info.deep_view(),
            head_info: self.head_info.deep_view(),
            merge_base: self.merge_base,
            context: self.context,
        }
    }
}

/// The values of query parameters, as text.
pub open spec fn params_view(params: vstd::map::Map<Text, String>) -> vstd::map::Map<Text, Text> {
    params.map_values(|value: String| value@)
}

/// The value of a parameter, where it was given.
pub open spec fn param(params: vstd::map::Map<Text, Text>, key: Text) -> Option<Text> {
    if params.contains_key(key) {
        Some(params[key])
    } else {
        None
    }
}

/// Looks up the value of a parameter.
fn look<'a>(params: &'a StringHashMap<String>, key: &str) -> (value: Option<&'a String>)
    ensures
        value.deep_view() == param(params_view(params@), key@),
{
    params.get(key)
}

/// Whether a request is scoped to one commit: it gives one, and not an empty one.
pub open spec fn is_scoped(params: vstd::map::Map<Text, Text>) -> bool {
    param(params, "commit"@) matches Some(rev) && rev.len() > 0
}

/// The comparison that a review was started with.
pub open spec fn branch_of(app: AppView) -> ComparisonView {
    ComparisonView { base: app.base, head: app.head }
}

/// The comparison that a request asks for: a commit with its first parent, or else what the
/// review was started with.
pub open spec fn compared(
    app: AppView,
    params: vstd::map::Map<Text, Text>,
    log: LogView,
) -> Outcome<ComparisonView> {
    let rev = match param(params, "commit"@) {
        Some(rev) => rev,
        None => Seq::empty(),
    };
    if rev.len() == 0 {
        Outcome::Done(branch_of(app), log)
    } else {
        session::after(
            repo::resolved(app.root, rev, log),
            |sha: Text, left: LogView|
                session::after(
                    repo::first_parent_of(app.root, sha, left),
                    |parent: Text, left: LogView|
                        Outcome::Done(
                            ComparisonView { base: parent, head: SideView::Rev(sha) },
                            left,
                        ),
                ),
        )
    }
}

/// Finding the changed files of a comparison anew, and keeping them.
pub open spec fn fetched(app: AppView, comparison: ComparisonView, log: LogView) -> Outcome<
    Seq<FileEntryView>,
> {
    session::after(
        repo::changed(app.root, comparison.base, comparison.head, log),
        |entries: Seq<FileEntryView>, left: LogView|
            session::after(
                session::ask_store(key_of(comparison), entries, left),
                |_stored: (), left: LogView| Outcome::Done(entries, left),
            ),
    )
}

/// The changed files of a comparison: those that were kept, unless they are to be found anew.
pub open spec fn changed_files(
    app: AppView,
    comparison: ComparisonView,
    refresh: bool,
    log: LogView,
) -> Outcome<Seq<FileEntryView>> {
    if refresh {
        fetched(app, comparison, log)
    } else {
        session::after(
            session::ask_lookup(key_of(comparison), log),
            |found: Option<Seq<FileEntryView>>, left: LogView|
                match found {
                    Some(hit) => Outcome::Done(hit, left),
                    None => fetched(app, comparison, left),
                },
        )
    }
}

/// The first entry with the given path.
pub open spec fn entry_at(entries: Seq<FileEntryView>, path: Text) -> Option<FileEntryView>
    decreases entries.len(),
{
    if entries.len() == 0 {
        None
    } else if entries[0].path == path {
        Some(entries[0])
    } else {
        entry_at(entries.drop_first(), path)
    }
}

/// The entry of a changed file.
pub open spec fn changed_file(
    app: AppView,
    comparison: ComparisonView,
    path: Text,
    log: LogView,
) -> Outcome<FileEntryView> {
    session::after(
        changed_files(app, comparison, false, log),
        |entries: Seq<FileEntryView>, left: LogView|
            match entry_at(entries, path) {
                Some(entry) => Outcome::Done(entry, left),
                None => Outcome::Fail(
                    session::plain_error("'"@ + path + "' is not part of this comparison"@),
                    left,
                ),
            },
    )
}

/// Finds the first entry with the given path.
fn find_entry(entries: &Vec<FileEntry>, path: &str) -> (r: Option<FileEntry>)
    ensures
        r.deep_view() == entry_at(entries.deep_view(), path@),
{
    let ghost all = entries.deep_view();
    let mut i: usize = 0;
    assert(all.skip(0) == all);
    while i < entries.len()
        invariant
            all == entries.deep_view(),
            i <= entries@.len(),
            entry_at(all, path@) == entry_at(all.skip(i as int), path@),
        decreases entries@.len() - i,
    {
        assert(all.skip(i as int)[0] == entries@[i as int].deep_view());
        if text::same(entries[i].path.as_str(), path) {
            return Some(entries[i].clone());
        }
        assert(all.skip(i as int).drop_first() == all.skip(i + 1));
        i = i + 1;
    }
    None
}

impl App {
    /// What is reviewed.
    pub fn new(
        repo: Repo,
        base: String,
        head: Side,
        base_info: RefInfo,
        head_info: RefInfo,
        merge_base: bool,
        context: usize,
    ) -> (app: App)
        ensures
            app.deep_view() == (AppView {
                root: repo.root@,
                base: base@,
                head: head.deep_view(),
                base_info: base_info.deep_view(),
                head_info: head_info.deep_view(),
                merge_base,
                context,
            }),
    {
        App { repo, base, head, base_info, head_info, merge_base, context }
    }

    /// The branch comparison that the review was started with.
    pub fn branch_comparison(&self) -> (r: Comparison)
        ensures
            r.deep_view() == branch_of(self.deep_view()),
    {
        Comparison { base: self.base.clone(), head: self.head.clone() }
    }

    /// Reads the `commit` parameter, falling back to the branch comparison.
    pub fn comparison(&self, session: &mut Session<'_>, params: &StringHashMap<String>) -> (r:
        Result<Comparison, Halt>)
        ensures
            session::keeps_to(
                r,
                final(session).left(),
                compared(self.deep_view(), params_view(params@), old(session).left()),
            ),
    {
        let rev = match look(params, "commit") {
            Some(rev) => rev.as_str(),
            None => {
                return Ok(self.branch_comparison());
            },
        };
        if rev.is_empty() {
            return Ok(self.branch_comparison());
        }
        let sha = match self.repo.resolve(session, rev) {
            Err(halt) => {
                return Err(halt);
            },
            Ok(sha) => sha,
        };
        let parent = match self.repo.first_parent(session, sha.as_str()) {
            Err(halt) => {
                return Err(halt);
            },
            Ok(parent) => parent,
        };
        Ok(Comparison { base: parent, head: Side::Rev(sha) })
    }

    /// Finds the changed files of a comparison, and has them kept.
    fn fetch(&self, session: &mut Session<'_>, comparison: &Comparison) -> (r: Result<
        Vec<FileEntry>,
        Halt,
    >)
        ensures
            session::keeps_to(
                r,
                final(session).left(),
                fetched(self.deep_view(), comparison.deep_view(), old(session).left()),
            ),
    {
        let entries = match self.repo.changed_files(
            session,
            comparison.base.as_str(),
            &comparison.head,
        ) {
            Err(halt) => {
                return Err(halt);
            },
            Ok(entries) => entries,
        };
        let key = comparison.key();
        match session.store(key.as_str(), &entries) {
            Err(halt) => Err(halt),
            Ok(_) => Ok(entries),
        }
    }

    /// The changed files for a comparison. `refresh` re-reads from git, which
    /// matters only for the working tree since it changes under us.
    pub fn files(&self, session: &mut Session<'_>, comparison: &Comparison, refresh: bool) -> (r:
        Result<Vec<FileEntry>, Halt>)
        ensures
            session::keeps_to(
                r,
                final(session).left(),
                changed_files(
                    self.deep_view(),
                    comparison.deep_view(),
                    refresh,
                    old(session).left(),
                ),
            ),
    {
        if !refresh {
            let key = comparison.key();
            match session.lookup(key.as_str()) {
                Err(halt) => {
                    return Err(halt);
                },
                Ok(Some(hit)) => {
                    return Ok(hit);
                },
                Ok(None) => {},
            }
        }
        self.fetch(session, comparison)
    }

    /// The entry of a changed file.
    pub fn entry(&self, session: &mut Session<'_>, comparison: &Comparison, path: &str) -> (r:
        Result<FileEntry, Halt>)
        ensures
            session::keeps_to(
                r,
                final(session).left(),
                changed_file(
                    self.deep_view(),
                    comparison.deep_view(),
                    path@,
                    old(session).left(),
                ),
            ),
    {
        match self.files(session, comparison, false) {
            Err(halt) => Err(halt),
            Ok(entries) => match find_entry(&entries, path) {
                Some(entry) => Ok(entry),
                None => {
                    let mut message = "'".to_owned();
                    message.append(path);
                    message.append("' is not part of this comparison");
                    Err(Halt::Fail(Error { message, cause: None }))
                },
            },
        }
    }
}

/// The changed files that were found, by the key of their comparison. Commit ranges never
/// change, so what is kept of them stays valid.
pub struct FileCache {
    kept: StringHashMap<Vec<FileEntry>>,
}

impl View for FileCache {
    type V = vstd::map::Map<Text, Seq<FileEntryView>>;

    closed spec fn view(&self) -> vstd::map::Map<Text, Seq<FileEntryView>> {
        self.kept@.map_values(|entries: Vec<FileEntry>| entries.deep_view())
    }
}

impl FileCache {
    /// Nothing kept yet.
    pub fn new() -> (cache: FileCache)
        ensures
            cache@ == vstd::map::Map::<Text, Seq<FileEntryView>>::empty(),
    {
        let cache = FileCache { kept: StringHashMap::new() };
        assert(cache@ == vstd::map::Map::<Text, Seq<FileEntryView>>::empty());
        cache
    }

    /// What is kept under a key.
    pub fn get(&self, key: &str) -> (found: Option<Vec<FileEntry>>)
        ensures
            found.deep_view() == (if self@.contains_key(key@) {
                Some(self@[key@])
            } else {
                None
            }),
    {
        match self.kept.get(key) {
            Some(entries) => Some(git::copy_entries(entries)),
            None => None,
        }
    }

    /// Keeps files under a key, in place of what was kept there.
    pub fn insert(&mut self, key: String, entries: Vec<FileEntry>)
        ensures
            final(self)@ == old(self)@.insert(key@, entries.deep_view()),
    {
        let ghost before = self@;
        let ghost k = key@;
        self.kept.insert(key, entries);
        assert(self@ == before.insert(k, entries.deep_view()));
    }
}

/// The parameter that one part of a query gives: a key, and a percent-encoded value. A part
/// without a `=`, or whose value is not UTF-8, gives none.
pub open spec fn pair_of(part: Text) -> Option<(Text, Text)> {
    match text::split_at_first(part, '=') {
        None => None,
        Some((key, value)) => match encoding::percent_text(value) {
            None => None,
            Some(value) => Some((key, value)),
        },
    }
}

/// The parameters that the parts of a query give; of two with one key, the later.
pub open spec fn params_from(parts: Seq<Text>) -> vstd::map::Map<Text, Text>
    decreases parts.len(),
{
    if parts.len() == 0 {
        vstd::map::Map::empty()
    } else {
        let rest = params_from(parts.drop_last());
        match pair_of(parts.last()) {
            Some((key, value)) => rest.insert(key, value),
            None => rest,
        }
    }
}

/// The parameters of a query.
pub open spec fn query_params(query: Text) -> vstd::map::Map<Text, Text> {
    params_from(text::split_on(query, '&'))
}

/// Reads the parameters of a query.
pub fn parse_query(query: &str) -> (params: StringHashMap<String>)
    ensures
        params_view(params@) == query_params(query@),
{
    let parts = text::split(query, '&');
    let ghost all = parts.deep_view();
    let mut params: StringHashMap<String> = StringHashMap::new();
    let mut i: usize = 0;
    assert(all.take(0) == Seq::<Text>::empty());
    assert(params_view(params@) == vstd::map::Map::<Text, Text>::empty());
    while i < parts.len()
        invariant
            all == parts.deep_view(),
            i <= parts@.len(),
            params_view(params@) == params_from(all.take(i as int)),
        decreases parts@.len() - i,
    {
        let ghost before = params@;
        assert(all.take(i + 1).drop_last() == all.take(i as int));
        assert(all.take(i + 1).last() == parts@[i as int]@);
        if let Some((key, raw)) = text::split_once(parts[i].as_str(), '=') {
            if let Some(value) = encoding::percent_decode(raw.as_str()) {
                let ghost k = key@;
                params.insert(key, value);
                assert(params_view(params@) == params_view(before).insert(k, value@));
            }
        }
        i = i + 1;
    }
    assert(all.take(all.len() as int) == all);
    params
}

/// The value of a parameter that must be given, and not be empty.
pub open spec fn required(params: vstd::map::Map<Text, Text>, key: Text) -> Result<Text, ErrorView> {
    match param(params, key) {
        Some(value) => if value.len() > 0 {
            Ok(value)
        } else {
            Err(session::plain_error("missing '"@ + key + "' parameter"@))
        },
        None => Err(session::plain_error("missing '"@ + key + "' parameter"@)),
    }
}

/// The value of a parameter that must be given.
pub fn require<'a>(params: &'a StringHashMap<String>, key: &str) -> (r: Result<&'a str, Error>)
    ensures
        match r {
            Ok(value) => required(params_view(params@), key@) == Ok::<Text, ErrorView>(value@),
            Err(error) => required(params_view(params@), key@) == Err::<Text, ErrorView>(
                error.deep_view(),
            ),
        },
{
    if let Some(value) = look(params, key) {
        if !value.as_str().is_empty() {
            return Ok(value.as_str());
        }
    }
    let mut message = "missing '".to_owned();
    message.append(key);
    message.append("' parameter");
    Err(Error { message, cause: None })
}

/// The text of a blob, and whether it is something other than text.
pub open spec fn decoded(raw: Option<Seq<u8>>) -> (Option<Text>, bool) {
    match raw {
        None => (None, false),
        Some(bytes) => if git::looks_binary(bytes) || !valid_utf8(bytes) {
            (None, true)
        } else {
            (Some(decode_utf8(bytes)), false)
        },
    }
}

/// A copy of bytes.
fn copy_bytes(bytes: &[u8]) -> (r: Vec<u8>)
    ensures
        r@ == bytes@,
{
    let mut r: Vec<u8> = Vec::new();
    let mut i: usize = 0;
    while i < bytes.len()
        invariant
            i <= bytes@.len(),
            r@ == bytes@.take(i as int),
        decreases bytes@.len() - i,
    {
        r.push(bytes[i]);
        i = i + 1;
        assert(bytes@.take(i as int) == bytes@.take(i - 1).push(bytes@[i - 1]));
    }
    assert(bytes@.take(i as int) == bytes@);
    r
}

/// Decodes a blob, reporting anything that is not valid UTF-8 text as binary.
pub fn decode(raw: Option<&Vec<u8>>) -> (r: (Option<String>, bool))
    ensures
        r.deep_view() == decoded(raw.deep_view()),
{
    match raw {
        None => (None, false),
        Some(bytes) => {
            assert(bytes.deep_view() == bytes@);
            if git::is_binary(bytes.as_slice()) {
                return (None, true);
            }
            match encoding::utf8(copy_bytes(bytes.as_slice())) {
                Some(content) => (Some(content), false),
                None => (None, true),
            }
        },
    }
}

/// What is sent back.
#[derive(Debug)]
pub struct Reply {
    pub status: u16,
    pub content_type: &'static str,
    pub cache: &'static str,
    pub body: Vec<u8>,
}

/// What is sent back, as specifications see it.
#[verifier::ext_equal]
pub struct ReplyView {
    pub status: u16,
    pub content_type: Text,
    pub cache: Text,
    pub body: Seq<u8>,
}

impl DeepView for Reply {
    type V = ReplyView;

    open spec fn deep_view(&self) -> ReplyView {
        ReplyView {
            status: self.status,
            content_type: self.content_type@,
            cache: self.cache@,
            body: self.body@,
        }
    }
}

/// A part of the user interface.
pub open spec fn asset_reply(content_type: Text, body: Text) -> ReplyView {
    ReplyView { status: 200, content_type, cache: "no-store"@, body: encode_utf8(body) }
}

/// A font, which browsers may keep.
pub open spec fn font_reply(body: Seq<u8>) -> ReplyView {
    ReplyView {
        status: 200,
        content_type: "font/woff2"@,
        cache: "public, max-age=604800, immutable"@,
        body,
    }
}

/// Data.
pub open spec fn json_reply(body: Seq<u8>) -> ReplyView {
    ReplyView { status: 200, content_type: "application/json"@, cache: "no-store"@, body }
}

/// A refusal, with the reason.
pub open spec fn error_reply(status: u16, message: Text) -> ReplyView {
    ReplyView {
        status,
        content_type: "application/json"@,
        cache: "no-store"@,
        body: encoding::json_object("error"@, encoding::json_string(message)),
    }
}

impl Reply {
    /// A part of the user interface, which is always sent anew.
    pub fn asset(content_type: &'static str, body: &str) -> (reply: Reply)
        ensures
            reply.deep_view() == asset_reply(content_type@, body@),
    {
        Reply { status: 200, content_type, cache: "no-store", body: copy_bytes(body.as_bytes()) }
    }

    /// Fonts never change within a build, so let the browser keep them.
    pub fn font(body: &[u8]) -> (reply: Reply)
        ensures
            reply.deep_view() == font_reply(body@),
    {
        Reply {
            status: 200,
            content_type: "font/woff2",
            cache: "public, max-age=604800, immutable",
            body: copy_bytes(body),
        }
    }

    /// Data that was serialized, or the reason why it could not be.
    pub fn json(serialized: Result<Vec<u8>, String>) -> (reply: Reply)
        ensures
            reply.deep_view() == match serialized {
                Ok(body) => json_reply(body@),
                Err(reason) => error_reply(500, reason@),
            },
    {
        match serialized {
            Ok(body) => Reply {
                status: 200,
                content_type: "application/json",
                cache: "no-store",
                body,
            },
            Err(reason) => Reply::error(500, reason.as_str()),
        }
    }

    /// A refusal, with the reason.
    pub fn error(status: u16, message: &str) -> (reply: Reply)
        ensures
            reply.deep_view() == error_reply(status, message@),
    {
        Reply {
            status,
            content_type: "application/json",
            cache: "no-store",
            body: encoding::json_text("error", message),
        }
    }
}

/// What the user interface shows around the files.
#[derive(Debug)]
pub struct Meta {
    pub repo: String,
    pub branch: Option<String>,
    pub base: RefInfo,
    pub head: RefInfo,
    pub merge_base: bool,
    pub worktree: bool,
    pub context: usize,
    pub files: Vec<FileEntry>,
}

/// What the user interface shows around the files, as specifications see it.
#[verifier::ext_equal]
pub struct MetaView {
    pub repo: Text,
    pub branch: Option<Text>,
    pub base: RefInfoView,
    pub head: RefInfoView,
    pub merge_base: bool,
    pub worktree: bool,
    pub context: usize,
    pub files: Seq<FileEntryView>,
}

impl DeepView for Meta {
    type V = MetaView;

    open spec fn deep_view(&self) -> MetaView {
        MetaView {
            repo: self.repo@,
            branch: self.branch.deep_view(),
            base: self.base.deep_view(),
            head: self.head.deep_view(),
            merge_base: self.merge_base,
            worktree: self.worktree,
            context: self.context,
            files: self.files.deep_view(),
        }
    }
}

/// How the two sides of a comparison are described: as the branches are, or, scoped to one
/// commit, as that commit and its parent.
pub open spec fn labelled(
    app: AppView,
    comparison: ComparisonView,
    scoped: bool,
    log: LogView,
) -> Outcome<(RefInfoView, RefInfoView)> {
    match comparison.head {
        SideView::Rev(sha) => if scoped {
            session::after(
                repo::described(app.root, "parent"@, comparison.base, log),
                |base: RefInfoView, left: LogView|
                    session::after(
                        repo::described(app.root, Seq::empty(), sha, left),
                        |bare: RefInfoView, left: LogView|
                            session::after(
                                repo::described(app.root, bare.short, sha, left),
                                |head: RefInfoView, left: LogView|
                                    Outcome::Done((base, head), left),
                            ),
                    ),
            )
        } else {
            Outcome::Done((app.base_info, app.head_info), log)
        },
        SideView::Worktree => Outcome::Done((app.base_info, app.head_info), log),
    }
}

/// What the user interface shows around the files, with the changed files found anew.
pub open spec fn summarized(
    app: AppView,
    params: vstd::map::Map<Text, Text>,
    log: LogView,
) -> Outcome<MetaView> {
    let scoped = is_scoped(params);
    session::after(
        compared(app, params, log),
        |comparison: ComparisonView, left: LogView|
            session::after(
                changed_files(app, comparison, true, left),
                |files: Seq<FileEntryView>, left: LogView|
                    session::after(
                        labelled(app, comparison, scoped, left),
                        |sides: (RefInfoView, RefInfoView), left: LogView|
                            session::after(
                                repo::tried_text(app.root, repo::branch_args(), left),
                                |branch: Option<Text>, left: LogView|
                                    Outcome::Done(
                                        MetaView {
                                            repo: repo::directory_name(app.root),
                                            branch,
                                            base: sides.0,
                                            head: sides.1,
                                            merge_base: app.merge_base && !scoped,
                                            worktree: comparison.head is Worktree,
                                            context: app.context,
                                            files,
                                        },
                                        left,
                                    ),
                            ),
                    ),
            ),
    )
}

impl App {
    /// Describes the two sides of a comparison. When scoped to one commit, describes that
    /// commit rather than the branches.
    fn label(&self, session: &mut Session<'_>, comparison: &Comparison, scoped: bool) -> (r: Result<
        (RefInfo, RefInfo),
        Halt,
    >)
        ensures
            session::keeps_to(
                r,
                final(session).left(),
                labelled(
                    self.deep_view(),
                    comparison.deep_view(),
                    scoped,
                    old(session).left(),
                ),
            ),
    {
        proof {
            reveal_strlit("");
        }
        assert(""@ == Seq::<char>::empty());
        let sha = match &comparison.head {
            Side::Rev(sha) => sha.as_str(),
            Side::Worktree => {
                return Ok((self.base_info.clone(), self.head_info.clone()));
            },
        };
        if !scoped {
            return Ok((self.base_info.clone(), self.head_info.clone()));
        }
        let base = match self.repo.describe(session, "parent", comparison.base.as_str()) {
            Err(halt) => {
                return Err(halt);
            },
            Ok(base) => base,
        };
        let bare = match self.repo.describe(session, "", sha) {
            Err(halt) => {
                return Err(halt);
            },
            Ok(bare) => bare,
        };
        match self.repo.describe(session, bare.short.as_str(), sha) {
            Err(halt) => Err(halt),
            Ok(head) => Ok((base, head)),
        }
    }
}

/// What the user interface shows around the files.
pub fn meta(app: &App, session: &mut Session<'_>, params: &StringHashMap<String>) -> (r: Result<
    Meta,
    Halt,
>)
    ensures
        session::keeps_to(
            r,
            final(session).left(),
            summarized(app.deep_view(), params_view(params@), old(session).left()),
        ),
{
    let comparison = match app.comparison(session, params) {
        Err(halt) => {
            return Err(halt);
        },
        Ok(comparison) => comparison,
    };
    let files = match app.files(session, &comparison, true) {
        Err(halt) => {
            return Err(halt);
        },
        Ok(files) => files,
    };
    let scoped = match look(params, "commit") {
        Some(rev) => !rev.as_str().is_empty(),
        None => false,
    };
    let (base, head) = match app.label(session, &comparison, scoped) {
        Err(halt) => {
            return Err(halt);
        },
        Ok(sides) => sides,
    };
    let branch = match app.repo.current_branch(session) {
        Err(halt) => {
            return Err(halt);
        },
        Ok(branch) => branch,
    };
    Ok(
        Meta {
            repo: app.repo.name(),
            branch,
            base,
            head,
            merge_base: app.merge_base && !scoped,
            worktree: matches!(comparison.head, Side::Worktree),
            context: app.context,
            files,
        },
    )
}

/// Lists the commits of the review.
pub fn commits(app: &App, session: &mut Session<'_>) -> (r: Result<Vec<RefInfo>, Halt>)
    ensures
        session::keeps_to(
            r,
            final(session).left(),
            repo::listed_commits(
                app.repo.root@,
                app.base@,
                app.head.deep_view(),
                old(session).left(),
            ),
        ),
{
    app.repo.commits(session, app.base.as_str(), &app.head)
}

/// A difference that is to be rendered.
pub struct DiffJob {
    pub entry: FileEntry,
    pub old_text: Option<String>,
    pub new_text: Option<String>,
    pub binary: bool,
    pub context: Context,
}

/// A difference that is to be rendered, as specifications see it.
#[verifier::ext_equal]
pub struct DiffJobView {
    pub input: InputView,
    pub context: Context,
}

/// What a difference is made of, given the entry of the file and its two sides.
pub open spec fn diff_input(
    entry: FileEntryView,
    old_text: Option<Text>,
    new_text: Option<Text>,
    binary: bool,
) -> InputView {
    InputView {
        path: entry.path,
        old_path: entry.old_path,
        status: entry.status,
        additions: entry.additions,
        deletions: entry.deletions,
        old_text,
        new_text,
        binary,
    }
}

impl DeepView for DiffJob {
    type V = DiffJobView;

    open spec fn deep_view(&self) -> DiffJobView {
        DiffJobView {
            input: diff_input(
                self.entry.deep_view(),
                self.old_text.deep_view(),
                self.new_text.deep_view(),
                self.binary,
            ),
            context: self.context,
        }
    }
}

/// A file that is to be rendered whole.
pub struct ViewJob {
    pub path: String,
    pub text: Option<String>,
    pub binary: bool,
}

/// A file that is to be rendered whole, as specifications see it.
#[verifier::ext_equal]
pub struct ViewJobView {
    pub path: Text,
    pub text: Option<Text>,
    pub binary: bool,
}

impl DeepView for ViewJob {
    type V = ViewJobView;

    open spec fn deep_view(&self) -> ViewJobView {
        ViewJobView { path: self.path@, text: self.text.deep_view(), binary: self.binary }
    }
}

/// Reading the two sides of a changed file: none on the base side where it is new, none on the
/// head side where it is deleted.
pub open spec fn both_sides(
    app: AppView,
    comparison: ComparisonView,
    entry: FileEntryView,
    log: LogView,
) -> Outcome<(Option<Seq<u8>>, Option<Seq<u8>>)> {
    let is_new = entry.status == Status::Added || entry.status == Status::Untracked;
    session::after(
        if is_new {
            Outcome::Done(None, log)
        } else {
            repo::read_from(
                app.root,
                SideView::Rev(comparison.base),
                git::entry_base_path(entry),
                log,
            )
        },
        |old_raw: Option<Seq<u8>>, left: LogView|
            session::after(
                if entry.status == Status::Deleted {
                    Outcome::Done(None, left)
                } else {
                    repo::read_from(app.root, comparison.head, entry.path, left)
                },
                |new_raw: Option<Seq<u8>>, left: LogView| Outcome::Done((old_raw, new_raw), left),
            ),
    )
}

/// The difference to render, given the two sides of the file.
pub open spec fn diff_job(
    entry: FileEntryView,
    old_raw: Option<Seq<u8>>,
    new_raw: Option<Seq<u8>>,
    context: Context,
) -> DiffJobView {
    let (old_text, old_binary) = decoded(old_raw);
    let (new_text, new_binary) = decoded(new_raw);
    DiffJobView {
        input: diff_input(entry, old_text, new_text, entry.binary || old_binary || new_binary),
        context,
    }
}

/// The context that a request asks for.
pub open spec fn asked_context(params: vstd::map::Map<Text, Text>) -> Context {
    diff::context_of(
        match param(params, "ctx"@) {
            Some(raw) => raw,
            None => "3"@,
        },
    )
}

/// The difference that a request asks for.
pub open spec fn asked_diff(
    app: AppView,
    params: vstd::map::Map<Text, Text>,
    log: LogView,
) -> Outcome<DiffJobView> {
    match required(params, "path"@) {
        Err(error) => Outcome::Fail(error, log),
        Ok(path) => session::after(
            compared(app, params, log),
            |comparison: ComparisonView, left: LogView|
                session::after(
                    changed_file(app, comparison, path, left),
                    |entry: FileEntryView, left: LogView|
                        session::after(
                            both_sides(app, comparison, entry, left),
                            |raw: (Option<Seq<u8>>, Option<Seq<u8>>), left: LogView|
                                Outcome::Done(
                                    diff_job(entry, raw.0, raw.1, asked_context(params)),
                                    left,
                                ),
                        ),
                ),
        ),
    }
}

/// The side that a request asks for: the base where it says so, else the head.
pub open spec fn asked_side(
    params: vstd::map::Map<Text, Text>,
    comparison: ComparisonView,
) -> SideView {
    if param(params, "side"@) == Some("base"@) {
        SideView::Rev(comparison.base)
    } else {
        comparison.head
    }
}

/// The file that a request asks for.
pub open spec fn asked_view(
    app: AppView,
    params: vstd::map::Map<Text, Text>,
    log: LogView,
) -> Outcome<ViewJobView> {
    match required(params, "path"@) {
        Err(error) => Outcome::Fail(error, log),
        Ok(path) => session::after(
            compared(app, params, log),
            |comparison: ComparisonView, left: LogView|
                session::after(
                    repo::read_from(app.root, asked_side(params, comparison), path, left),
                    |raw: Option<Seq<u8>>, left: LogView|
                        Outcome::Done(
                            ViewJobView { path, text: decoded(raw).0, binary: decoded(raw).1 },
                            left,
                        ),
                ),
        ),
    }
}

/// The list of files that a request asks for.
pub open spec fn asked_tree(
    app: AppView,
    params: vstd::map::Map<Text, Text>,
    log: LogView,
) -> Outcome<ReplyView> {
    session::after(
        compared(app, params, log),
        |comparison: ComparisonView, left: LogView|
            session::after(
                repo::listed(app.root, comparison.head, left),
                |files: Seq<Text>, left: LogView|
                    Outcome::Done(
                        json_reply(
                            encoding::json_object("files"@, encoding::json_array(files)),
                        ),
                        left,
                    ),
            ),
    )
}

impl App {
    /// Reads the two sides of a changed file.
    fn read_sides<'a>(
        &self,
        session: &mut Session<'a>,
        comparison: &Comparison,
        entry: &FileEntry,
    ) -> (r: Result<(Option<&'a Vec<u8>>, Option<&'a Vec<u8>>), Halt>)
        ensures
            session::keeps_to(
                r,
                final(session).left(),
                both_sides(
                    self.deep_view(),
                    comparison.deep_view(),
                    entry.deep_view(),
                    old(session).left(),
                ),
            ),
    {
        let old_raw = if entry.status.is_new() {
            None
        } else {
            let base_side = Side::Rev(comparison.base.clone());
            match self.repo.read(session, &base_side, entry.base_path()) {
                Err(halt) => {
                    return Err(halt);
                },
                Ok(raw) => raw,
            }
        };
        let new_raw = if entry.status.is_deleted() {
            None
        } else {
            match self.repo.read(session, &comparison.head, entry.path.as_str()) {
                Err(halt) => {
                    return Err(halt);
                },
                Ok(raw) => raw,
            }
        };
        Ok((old_raw, new_raw))
    }
}

/// Finds the difference that a request asks for.
pub fn file_diff(app: &App, session: &mut Session<'_>, params: &StringHashMap<String>) -> (r:
    Result<DiffJob, Halt>)
    ensures
        session::keeps_to(
            r,
            final(session).left(),
            asked_diff(app.deep_view(), params_view(params@), old(session).left()),
        ),
{
    let path = match require(params, "path") {
        Err(error) => {
            return Err(Halt::Fail(error));
        },
        Ok(path) => path,
    };
    let raw_context = match look(params, "ctx") {
        Some(raw) => raw.as_str(),
        None => "3",
    };
    let context = Context::parse(raw_context);
    let comparison = match app.comparison(session, params) {
        Err(halt) => {
            return Err(halt);
        },
        Ok(comparison) => comparison,
    };
    let entry = match app.entry(session, &comparison, path) {
        Err(halt) => {
            return Err(halt);
        },
        Ok(entry) => entry,
    };
    let (old_raw, new_raw) = match app.read_sides(session, &comparison, &entry) {
        Err(halt) => {
            return Err(halt);
        },
        Ok(raw) => raw,
    };
    let (old_text, old_binary) = decode(old_raw);
    let (new_text, new_binary) = decode(new_raw);
    let binary = entry.binary || old_binary || new_binary;
    Ok(DiffJob { entry, old_text, new_text, binary, context })
}

/// Finds the file that a request asks for.
pub fn file_view(app: &App, session: &mut Session<'_>, params: &StringHashMap<String>) -> (r:
    Result<ViewJob, Halt>)
    ensures
        session::keeps_to(
            r,
            final(session).left(),
            asked_view(app.deep_view(), params_view(params@), old(session).left()),
        ),
{
    let path = match require(params, "path") {
        Err(error) => {
            return Err(Halt::Fail(error));
        },
        Ok(path) => path,
    };
    let comparison = match app.comparison(session, params) {
        Err(halt) => {
            return Err(halt);
        },
        Ok(comparison) => comparison,
    };
    let on_base = match look(params, "side") {
        Some(side) => text::same(side.as_str(), "base"),
        None => false,
    };
    let side = if on_base {
        Side::Rev(comparison.base)
    } else {
        comparison.head
    };
    let (content, binary) = match app.repo.read(session, &side, path) {
        Err(halt) => {
            return Err(halt);
        },
        Ok(raw) => decode(raw),
    };
    Ok(ViewJob { path: path.to_owned(), text: content, binary })
}

/// Lists the files that a request asks for.
pub fn tree(app: &App, session: &mut Session<'_>, params: &StringHashMap<String>) -> (r: Result<
    Reply,
    Halt,
>)
    ensures
        session::keeps_to(
            r,
            final(session).left(),
            asked_tree(app.deep_view(), params_view(params@), old(session).left()),
        ),
{
    let comparison = match app.comparison(session, params) {
        Err(halt) => {
            return Err(halt);
        },
        Ok(comparison) => comparison,
    };
    match app.repo.list_files(session, &comparison.head) {
        Err(halt) => Err(halt),
        Ok(files) => Ok(Reply::json(Ok(encoding::json_texts("files", &files)))),
    }
}

/// The parts of the user interface.
pub struct Assets {
    pub index_html: String,
    pub app_js: String,
    pub style_css: String,
    pub font_regular: Vec<u8>,
    pub font_italic: Vec<u8>,
    pub font_bold: Vec<u8>,
}

/// What a request leads to.
pub enum Job {
    /// This reply.
    Ready(Reply),
    /// What is shown around the files.
    Meta(Meta),
    /// The commits of the review.
    Commits(Vec<RefInfo>),
    /// A difference, to be rendered.
    Diff(DiffJob),
    /// A whole file, to be rendered.
    View(ViewJob),
}

/// What a request leads to, as specifications see it.
#[verifier::ext_equal]
pub enum JobView {
    Ready(ReplyView),
    Meta(MetaView),
    Commits(Seq<RefInfoView>),
    Diff(DiffJobView),
    View(ViewJobView),
}

impl DeepView for Job {
    type V = JobView;

    open spec fn deep_view(&self) -> JobView {
        match self {
            Job::Ready(reply) => JobView::Ready(reply.deep_view()),
            Job::Meta(meta) => JobView::Meta(meta.deep_view()),
            Job::Commits(commits) => JobView::Commits(commits.deep_view()),
            Job::Diff(job) => JobView::Diff(job.deep_view()),
            Job::View(job) => JobView::View(job.deep_view()),
        }
    }
}

/// A request that failed is answered with the reason.
pub open spec fn replied(outcome: Outcome<JobView>) -> Outcome<JobView> {
    match outcome {
        Outcome::Fail(error, left) => Outcome::Done(
            JobView::Ready(error_reply(400, error.message)),
            left,
        ),
        _ => outcome,
    }
}

/// Answers a request that failed with the reason.
fn into_reply(result: Result<Job, Halt>) -> (r: Result<Job, Halt>)
    ensures
        forall|left: LogView, plan: Outcome<JobView>| #[trigger]
            session::keeps_to(result, left, plan) ==> session::keeps_to(r, left, replied(plan)),
{
    match result {
        Err(Halt::Fail(error)) => Ok(Job::Ready(Reply::error(400, error.message.as_str()))),
        Err(Halt::Ask(request)) => Err(Halt::Ask(request)),
        Ok(job) => Ok(job),
    }
}

/// The path and the query of a request.
pub open spec fn url_parts(url: Text) -> (Text, Text) {
    match text::split_at_first(url, '?') {
        Some(parts) => parts,
        None => (url, Seq::empty()),
    }
}

/// The part of the user interface at a path.
pub open spec fn asset_at(assets: Assets, path: Text) -> Option<ReplyView> {
    if path == "/"@ || path == "/index.html"@ {
        Some(asset_reply("text/html; charset=utf-8"@, assets.index_html@))
    } else if path == "/app.js"@ {
        Some(asset_reply("text/javascript; charset=utf-8"@, assets.app_js@))
    } else if path == "/style.css"@ {
        Some(asset_reply("text/css; charset=utf-8"@, assets.style_css@))
    } else if path == "/fonts/JetBrainsMono-Regular.woff2"@ {
        Some(font_reply(assets.font_regular@))
    } else if path == "/fonts/JetBrainsMono-Italic.woff2"@ {
        Some(font_reply(assets.font_italic@))
    } else if path == "/fonts/JetBrainsMono-Bold.woff2"@ {
        Some(font_reply(assets.font_bold@))
    } else {
        None
    }
}

/// Finds the part of the user interface at a path.
fn find_asset(assets: &Assets, path: &str) -> (r: Option<Reply>)
    ensures
        r.deep_view() == asset_at(*assets, path@),
{
    if text::same(path, "/") || text::same(path, "/index.html") {
        Some(Reply::asset("text/html; charset=utf-8", assets.index_html.as_str()))
    } else if text::same(path, "/app.js") {
        Some(Reply::asset("text/javascript; charset=utf-8", assets.app_js.as_str()))
    } else if text::same(path, "/style.css") {
        Some(Reply::asset("text/css; charset=utf-8", assets.style_css.as_str()))
    } else if text::same(path, "/fonts/JetBrainsMono-Regular.woff2") {
        Some(Reply::font(assets.font_regular.as_slice()))
    } else if text::same(path, "/fonts/JetBrainsMono-Italic.woff2") {
        Some(Reply::font(assets.font_italic.as_slice()))
    } else if text::same(path, "/fonts/JetBrainsMono-Bold.woff2") {
        Some(Reply::font(assets.font_bold.as_slice()))
    } else {
        None
    }
}

/// What a request to the API leads to.
pub open spec fn api_job(
    app: AppView,
    path: Text,
    params: vstd::map::Map<Text, Text>,
    log: LogView,
) -> Outcome<JobView> {
    if path == "/api/meta"@ {
        session::after(
            summarized(app, params, log),
            |meta: MetaView, left: LogView| Outcome::Done(JobView::Meta(meta), left),
        )
    } else if path == "/api/commits"@ {
        session::after(
            repo::listed_commits(app.root, app.base, app.head, log),
            |commits: Seq<RefInfoView>, left: LogView|
                Outcome::Done(JobView::Commits(commits), left),
        )
    } else if path == "/api/diff"@ {
        session::after(
            asked_diff(app, params, log),
            |job: DiffJobView, left: LogView| Outcome::Done(JobView::Diff(job), left),
        )
    } else if path == "/api/file"@ {
        session::after(
            asked_view(app, params, log),
            |job: ViewJobView, left: LogView| Outcome::Done(JobView::View(job), left),
        )
    } else if path == "/api/tree"@ {
        session::after(
            asked_tree(app, params, log),
            |reply: ReplyView, left: LogView| Outcome::Done(JobView::Ready(reply), left),
        )
    } else {
        Outcome::Done(JobView::Ready(error_reply(404, "no such endpoint"@)), log)
    }
}

/// Takes a request to the API as far as it goes.
fn api(app: &App, session: &mut Session<'_>, path: &str, params: &StringHashMap<String>) -> (r:
    Result<Job, Halt>)
    ensures
        session::keeps_to(
            r,
            final(session).left(),
            api_job(app.deep_view(), path@, params_view(params@), old(session).left()),
        ),
{
    if text::same(path, "/api/meta") {
        match meta(app, session, params) {
            Err(halt) => Err(halt),
            Ok(meta) => Ok(Job::Meta(meta)),
        }
    } else if text::same(path, "/api/commits") {
        match commits(app, session) {
            Err(halt) => Err(halt),
            Ok(commits) => Ok(Job::Commits(commits)),
        }
    } else if text::same(path, "/api/diff") {
        match file_diff(app, session, params) {
            Err(halt) => Err(halt),
            Ok(job) => Ok(Job::Diff(job)),
        }
    } else if text::same(path, "/api/file") {
        match file_view(app, session, params) {
            Err(halt) => Err(halt),
            Ok(job) => Ok(Job::View(job)),
        }
    } else if text::same(path, "/api/tree") {
        match tree(app, session, params) {
            Err(halt) => Err(halt),
            Ok(reply) => Ok(Job::Ready(reply)),
        }
    } else {
        Ok(Job::Ready(Reply::error(404, "no such endpoint")))
    }
}

/// What a request leads to.
pub open spec fn routed(app: AppView, assets: Assets, url: Text, log: LogView) -> Outcome<JobView> {
    let (path, query) = url_parts(url);
    match asset_at(assets, path) {
        Some(reply) => Outcome::Done(JobView::Ready(reply), log),
        None => replied(api_job(app, path, query_params(query), log)),
    }
}

/// Takes a request as far as it goes.
pub fn route(app: &App, assets: &Assets, session: &mut Session<'_>, url: &str) -> (r: Result<
    Job,
    Halt,
>)
    ensures
        session::keeps_to(
            r,
            final(session).left(),
            routed(app.deep_view(), *assets, url@, old(session).left()),
        ),
{
    let (path, query) = match text::split_once(url, '?') {
        Some(parts) => parts,
        None => (url.to_owned(), String::new()),
    };
    assert((path@, query@) == url_parts(url@));
    if let Some(reply) = find_asset(assets, path.as_str()) {
        return Ok(Job::Ready(reply));
    }
    let params = parse_query(query.as_str());
    let result = api(app, session, path.as_str(), &params);
    into_reply(result)
}

/// The answer to a request.
pub enum Answer {
    /// This reply.
    Ready(Reply),
    /// What is shown around the files.
    Meta(Meta),
    /// The commits of the review.
    Commits(Vec<RefInfo>),
    /// A difference.
    Diff(FileDiff),
    /// A whole file.
    View(FileView),
}

/// Whether `answer` is what a job was to lead to.
pub open spec fn answers(
    answer: Answer,
    job: JobView,
    set: syntect::parsing::SyntaxSet,
    rules: Seq<(Seq<Text>, Text)>,
) -> bool {
    match job {
        JobView::Ready(reply) => answer matches Answer::Ready(r) && r.deep_view() == reply,
        JobView::Meta(meta) => answer matches Answer::Meta(m) && m.deep_view() == meta,
        JobView::Commits(commits) => answer matches Answer::Commits(c) && c.deep_view() == commits,
        JobView::Diff(job) => answer matches Answer::Diff(file) && diff::is_diff(
            file.deep_view(),
            set,
            rules,
            job.input,
            job.context,
        ),
        JobView::View(job) => answer matches Answer::View(view) && view.deep_view()
            == diff::view_of(set, rules, job.path, job.text, job.binary),
    }
}

/// A text that may be absent, borrowed.
fn borrowed(s: &Option<String>) -> (r: Option<&str>)
    ensures
        r.deep_view() == s.deep_view(),
{
    match s {
        Some(s) => Some(s.as_str()),
        None => None,
    }
}

/// Renders what a job is to show.
pub fn finish(highlighter: &Highlighter, job: Job) -> (answer: Answer)
    requires
        job matches Job::Diff(DiffJob { context: Context::Lines(radius), .. }) ==> 2 * radius
            <= usize::MAX,
    ensures
        answers(answer, job.deep_view(), highlighter.set(), highlighter.rules()),
        answer is Diff || answer is View ==> highlight::follow_table(highlighter.rules()),
{
    match job {
        Job::Ready(reply) => Answer::Ready(reply),
        Job::Meta(meta) => Answer::Meta(meta),
        Job::Commits(commits) => Answer::Commits(commits),
        Job::Diff(job) => {
            let input = Input {
                path: job.entry.path.as_str(),
                old_path: borrowed(&job.entry.old_path),
                status: job.entry.status,
                additions: job.entry.additions,
                deletions: job.entry.deletions,
                old_text: borrowed(&job.old_text),
                new_text: borrowed(&job.new_text),
                binary: job.binary,
            };
            Answer::Diff(diff::build(highlighter, input, job.context))
        },
        Job::View(job) => Answer::View(
            diff::view(highlighter, job.path.as_str(), borrowed(&job.text), job.binary),
        ),
    }
}

/// Whether a job's context is small enough to be doubled.
pub open spec fn is_modest(job: JobView) -> bool {
    job matches JobView::Diff(d) ==> (d.context matches Context::Lines(radius) ==> radius <= 200)
}

/// However a request asks for context, it gets no more than 200 lines.
pub proof fn law_requested_context_is_bounded(
    app: AppView,
    assets: Assets,
    url: Text,
    log: LogView,
)
    ensures
        routed(app, assets, url, log) matches Outcome::Done(job, _) ==> is_modest(job),
{
    let (path, query) = url_parts(url);
    let params = query_params(query);
    let context = asked_context(params);
    assert(context matches Context::Lines(radius) ==> radius <= 200);
    if path == "/api/diff"@ {
        let plan = asked_diff(app, params, log);
        assert(plan matches Outcome::Done(job, _) ==> job.context == context);
    }
}

/// A request is always answered in the end: what fails on the way is told in the reply.
pub proof fn law_every_request_is_answered(app: AppView, assets: Assets, url: Text, log: LogView)
    ensures
        !(routed(app, assets, url, log) is Fail),
{
}

/// Answers a request, as far as the answers from outside go.
pub fn respond(
    app: &App,
    assets: &Assets,
    highlighter: &Highlighter,
    session: &mut Session<'_>,
    url: &str,
) -> (r: Result<Answer, Halt>)
    ensures
        match r {
            Ok(answer) => exists|job: JobView|
                #![trigger answers(answer, job, highlighter.set(), highlighter.rules())]
                routed(app.deep_view(), *assets, url@, old(session).left()) == Outcome::Done(
                    job,
                    final(session).left(),
                ) && answers(answer, job, highlighter.set(), highlighter.rules()),
            Err(Halt::Ask(request)) => routed(
                app.deep_view(),
                *assets,
                url@,
                old(session).left(),
            ) == Outcome::<JobView>::Ask(request.deep_view()),
            Err(Halt::Fail(_)) => false,
        },
        r matches Ok(answer) ==> (answer is Diff || answer is View ==> highlight::follow_table(
            highlighter.rules(),
        )),
{
    let ghost before = session.left();
    match route(app, assets, session, url) {
        Err(halt) => {
            proof {
                law_every_request_is_answered(app.deep_view(), *assets, url@, before);
            }
            Err(halt)
        },
        Ok(job) => {
            proof {
                law_requested_context_is_bounded(app.deep_view(), *assets, url@, before);
                assert(is_modest(job.deep_view()));
            }
            let ghost view = job.deep_view();
            let answer = finish(highlighter, job);
            assert(answers(answer, view, highlighter.set(), highlighter.rules()));
            Ok(answer)
        },
    }
}

} // verus!
