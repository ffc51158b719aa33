//! Work that waits on the outside: a step asks for what it needs, and is taken again from its
//! start once the answer is there.
//!
//! A [`Session`] holds the answers that were given so far. Work takes them in order; where one
//! is not there yet, it halts with the question. Whoever runs the work answers the question,
//! adds the answer to the log and starts over, until the work is done or fails.

use vstd::prelude::*;
use vstd::string::*;

use crate::git::FileEntry;
#[allow(unused_imports)]
use crate::git::FileEntryView;
#[allow(unused_imports)]
use crate::text::Text;

verus! {

broadcast use {vstd::string::group_string_axioms, vstd::seq_lib::group_seq_properties};

/// A question to the outside.
pub enum Request {
    /// Run git in a directory, with these arguments.
    Git { dir: String, args: Vec<String> },
    /// Read these files. Each is answered.
    Read(Vec<String>),
    /// Look up the changed files kept under a key.
    Lookup(String),
    /// Keep changed files under a key.
    Store(String, Vec<FileEntry>),
}

/// A question as specifications see it.
#[verifier::ext_equal]
pub enum RequestView {
    Git { dir: Text, args: Seq<Text> },
    Read(Seq<Text>),
    Lookup(Text),
    Store(Text, Seq<FileEntryView>),
}

impl DeepView for Request {
    type V = RequestView;

    open spec fn deep_view(&self) -> RequestView {
        match self {
            Request::Git { dir, args } => RequestView::Git { dir: dir@, args: args.deep_view() },
            Request::Read(paths) => RequestView::Read(paths.deep_view()),
            Request::Lookup(key) => RequestView::Lookup(key@),
            Request::Store(key, entries) => RequestView::Store(key@, entries.deep_view()),
        }
    }
}

/// How a run of git ended.
pub enum GitReply {
    /// It succeeded and wrote this.
    Output(Vec<u8>),
    /// It failed and complained with this.
    Failed(Vec<u8>),
    /// It could not be run, for this reason.
    NotRun(String),
}

/// The end of a run of git as specifications see it.
#[verifier::ext_equal]
pub enum GitReplyView {
    Output(Seq<u8>),
    Failed(Seq<u8>),
    NotRun(Text),
}

impl DeepView for GitReply {
    type V = GitReplyView;

    open spec fn deep_view(&self) -> GitReplyView {
        match self {
            GitReply::Output(bytes) => GitReplyView::Output(bytes@),
            GitReply::Failed(bytes) => GitReplyView::Failed(bytes@),
            GitReply::NotRun(reason) => GitReplyView::NotRun(reason@),
        }
    }
}

/// What became of reading a file.
pub enum ReadReply {
    /// It holds this.
    Content(Vec<u8>),
    /// There is no such file.
    Missing,
    /// It could not be read, for this reason.
    Failed(String),
}

/// What became of reading a file, as specifications see it.
#[verifier::ext_equal]
pub enum ReadReplyView {
    Content(Seq<u8>),
    Missing,
    Failed(Text),
}

impl DeepView for ReadReply {
    type V = ReadReplyView;

    open spec fn deep_view(&self) -> ReadReplyView {
        match self {
            ReadReply::Content(bytes) => ReadReplyView::Content(bytes@),
            ReadReply::Missing => ReadReplyView::Missing,
            ReadReply::Failed(reason) => ReadReplyView::Failed(reason@),
        }
    }
}

/// The answers that were given so far, each kind in the order of its questions.
pub struct Log {
    pub git: Vec<GitReply>,
    pub reads: Vec<ReadReply>,
    pub lookups: Vec<Option<Vec<FileEntry>>>,
    /// How often something was kept.
    pub stores: usize,
}

/// Answers as specifications see them.
#[verifier::ext_equal]
pub struct LogView {
    pub git: Seq<GitReplyView>,
    pub reads: Seq<ReadReplyView>,
    pub lookups: Seq<Option<Seq<FileEntryView>>>,
    pub stores: int,
}

impl DeepView for Log {
    type V = LogView;

    open spec fn deep_view(&self) -> LogView {
        LogView {
            git: self.git.deep_view(),
            reads: self.reads.deep_view(),
            lookups: self.lookups.deep_view(),
            stores: self.stores as int,
        }
    }
}

impl Log {
    /// A log without answers.
    pub fn new() -> (log: Log)
        ensures
            log.git@.len() == 0,
            log.reads@.len() == 0,
            log.lookups@.len() == 0,
            log.stores == 0,
    {
        Log {
            git: Vec::new(),
            reads: Vec::new(),
            lookups: Vec::new(),
            stores: 0,
        }
    }
}

/// What went wrong, and why where that is known.
#[derive(Debug)]
pub struct Error {
    pub message: String,
    pub cause: Option<String>,
}

/// What went wrong, as specifications see it.
#[verifier::ext_equal]
pub struct ErrorView {
    pub message: Text,
    pub cause: Option<Text>,
}

impl DeepView for Error {
    type V = ErrorView;

    open spec fn deep_view(&self) -> ErrorView {
        ErrorView { message: self.message@, cause: self.cause.deep_view() }
    }
}

/// An error without a known cause.
pub open spec fn plain_error(message: Text) -> ErrorView {
    ErrorView { message, cause: None }
}

/// An error with its cause behind it.
pub open spec fn full_text(error: ErrorView) -> Text {
    match error.cause {
        Some(cause) => error.message + ": "@ + cause,
        None => error.message,
    }
}

impl Error {
    /// The message and, behind it, the cause.
    pub fn full(&self) -> (s: String)
        ensures
            s@ == full_text(self.deep_view()),
    {
        let mut s = self.message.clone();
        if let Some(cause) = &self.cause {
            s.append(": ");
            s.append(cause.as_str());
        }
        s
    }
}

/// Why work stopped short.
pub enum Halt {
    /// It needs an answer.
    Ask(Request),
    /// It failed.
    Fail(Error),
}

/// How work goes that starts with given answers: it needs one more, or it fails or is done, with
/// the answers that are then left.
#[verifier::ext_equal]
pub enum Outcome<V> {
    Ask(RequestView),
    Fail(ErrorView, LogView),
    Done(V, LogView),
}

/// Whether a result, with the answers that are left, is how work was to go.
pub open spec fn keeps_to<T: DeepView>(
    result: Result<T, Halt>,
    left: LogView,
    plan: Outcome<T::V>,
) -> bool {
    match result {
        Ok(value) => plan == Outcome::Done(value.deep_view(), left),
        Err(Halt::Fail(error)) => plan == Outcome::<T::V>::Fail(error.deep_view(), left),
        Err(Halt::Ask(request)) => plan == Outcome::<T::V>::Ask(request.deep_view()),
    }
}

/// Work that goes on with what other work gave, once that is done.
pub open spec fn after<A, B>(
    first: Outcome<A>,
    next: spec_fn(A, LogView) -> Outcome<B>,
) -> Outcome<B> {
    match first {
        Outcome::Ask(request) => Outcome::Ask(request),
        Outcome::Fail(error, left) => Outcome::Fail(error, left),
        Outcome::Done(value, left) => next(value, left),
    }
}

/// Work that gives nothing where other work fails.
pub open spec fn tolerant<A>(first: Outcome<A>) -> Outcome<Option<A>> {
    match first {
        Outcome::Ask(request) => Outcome::Ask(request),
        Outcome::Fail(_, left) => Outcome::Done(None, left),
        Outcome::Done(value, left) => Outcome::Done(Some(value), left),
    }
}

/// Work in progress: a log, and how far its answers were taken.
pub struct Session<'a> {
    log: &'a Log,
    git: usize,
    reads: usize,
    lookups: usize,
    stores: usize,
}

impl<'a> Session<'a> {
    #[verifier::type_invariant]
    spec fn within_log(self) -> bool {
        &&& self.git <= self.log.git@.len()
        &&& self.reads <= self.log.reads@.len()
        &&& self.lookups <= self.log.lookups@.len()
        &&& self.stores <= self.log.stores
    }

    /// The answers that are left.
    pub closed spec fn left(&self) -> LogView {
        LogView {
            git: self.log.git.deep_view().skip(self.git as int),
            reads: self.log.reads.deep_view().skip(self.reads as int),
            lookups: self.log.lookups.deep_view().skip(self.lookups as int),
            stores: self.log.stores - self.stores,
        }
    }

    /// Starts work, with all answers left.
    pub fn new(log: &'a Log) -> (session: Session<'a>)
        ensures
            session.left() == log.deep_view(),
    {
        let session = Session { log, git: 0, reads: 0, lookups: 0, stores: 0 };
        proof {
            let all = log.deep_view();
            assert(all.git.skip(0) == all.git);
            assert(all.reads.skip(0) == all.reads);
            assert(all.lookups.skip(0) == all.lookups);
        }
        session
    }
}

/// Asking for a run of git.
pub open spec fn ask_git(dir: Text, args: Seq<Text>, log: LogView) -> Outcome<GitReplyView> {
    if log.git.len() == 0 {
        Outcome::Ask(RequestView::Git { dir, args })
    } else {
        Outcome::Done(log.git[0], LogView { git: log.git.skip(1), ..log })
    }
}

/// Asking for files.
pub open spec fn ask_reads(paths: Seq<Text>, log: LogView) -> Outcome<Seq<ReadReplyView>> {
    if log.reads.len() < paths.len() {
        Outcome::Ask(RequestView::Read(paths))
    } else {
        Outcome::Done(
            log.reads.take(paths.len() as int),
            LogView { reads: log.reads.skip(paths.len() as int), ..log },
        )
    }
}

/// Asking for kept files.
pub open spec fn ask_lookup(key: Text, log: LogView) -> Outcome<Option<Seq<FileEntryView>>> {
    if log.lookups.len() == 0 {
        Outcome::Ask(RequestView::Lookup(key))
    } else {
        Outcome::Done(log.lookups[0], LogView { lookups: log.lookups.skip(1), ..log })
    }
}

/// Asking to keep files.
pub open spec fn ask_store(key: Text, entries: Seq<FileEntryView>, log: LogView) -> Outcome<()> {
    if log.stores <= 0 {
        Outcome::Ask(RequestView::Store(key, entries))
    } else {
        Outcome::Done((), LogView { stores: log.stores - 1, ..log })
    }
}

/// A copy of texts.
pub fn copy_texts(texts: &[&str]) -> (r: Vec<String>)
    ensures
        r.deep_view() == texts.deep_view(),
{
    let mut r: Vec<String> = Vec::new();
    let mut i: usize = 0;
    while i < texts.len()
        invariant
            i <= texts@.len(),
            r.deep_view() == texts.deep_view().take(i as int),
        decreases texts@.len() - i,
    {
        let ghost before = r.deep_view();
        let one = texts[i].to_owned();
        r.push(one);
        assert(r.deep_view() == before.push(one@));
        i = i + 1;
    }
    assert(texts.deep_view().take(i as int) == texts.deep_view());
    r
}

impl<'a> Session<'a> {
    /// Takes the end of a run of git.
    pub fn git(&mut self, dir: &str, args: Vec<String>) -> (r: Result<&'a GitReply, Halt>)
        ensures
            keeps_to(r, final(self).left(), ask_git(dir@, args.deep_view(), old(self).left())),
    {
        proof {
            use_type_invariant(&*self);
        }
        let ghost before = self.left();
        let log = self.log;
        let at = self.git;
        if at < log.git.len() {
            self.git = at + 1;
            let reply = &log.git[at];
            assert(before.git[0] == reply.deep_view());
            assert(before.git.skip(1) == log.git.deep_view().skip(at + 1));
            Ok(reply)
        } else {
            Err(Halt::Ask(Request::Git { dir: dir.to_owned(), args }))
        }
    }

    /// Takes what became of reading files.
    pub fn reads(&mut self, paths: Vec<String>) -> (r: Result<&'a [ReadReply], Halt>)
        ensures
            keeps_to(r, final(self).left(), ask_reads(paths.deep_view(), old(self).left())),
    {
        proof {
            use_type_invariant(&*self);
        }
        let ghost before = self.left();
        let log = self.log;
        let at = self.reads;
        let n = paths.len();
        if log.reads.len() - at >= n {
            self.reads = at + n;
            let (_, rest) = log.reads.as_slice().split_at(at);
            let (taken, _) = rest.split_at(n);
            assert(taken.deep_view() == before.reads.take(n as int));
            assert(before.reads.skip(n as int) == log.reads.deep_view().skip(at + n));
            Ok(taken)
        } else {
            Err(Halt::Ask(Request::Read(paths)))
        }
    }

    /// Takes the files that were kept under a key.
    pub fn lookup(&mut self, key: &str) -> (r: Result<Option<Vec<FileEntry>>, Halt>)
        ensures
            keeps_to(r, final(self).left(), ask_lookup(key@, old(self).left())),
    {
        proof {
            use_type_invariant(&*self);
        }
        let ghost before = self.left();
        let log = self.log;
        let at = self.lookups;
        if at < log.lookups.len() {
            self.lookups = at + 1;
            let found = match &log.lookups[at] {
                Some(entries) => Some(crate::git::copy_entries(entries)),
                None => None,
            };
            assert(before.lookups[0] == found.deep_view());
            assert(before.lookups.skip(1) == log.lookups.deep_view().skip(at + 1));
            Ok(found)
        } else {
            Err(Halt::Ask(Request::Lookup(key.to_owned())))
        }
    }

    /// Has files kept under a key.
    pub fn store(&mut self, key: &str, entries: &Vec<FileEntry>) -> (r: Result<(), Halt>)
        ensures
            keeps_to(
                r,
                final(self).left(),
                ask_store(key@, entries.deep_view(), old(self).left()),
            ),
    {
        proof {
            use_type_invariant(&*self);
        }
        if self.stores < self.log.stores {
            self.stores = self.stores + 1;
            Ok(())
        } else {
            Err(Halt::Ask(Request::Store(key.to_owned(), crate::git::copy_entries(entries))))
        }
    }
}

} // verus!
