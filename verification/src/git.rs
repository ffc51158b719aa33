//! What a review asks of git, and what it makes of the answers.

use vstd::hash_map::StringHashMap;
use vstd::prelude::*;
use vstd::slice::slice_subrange;
use vstd::string::*;

use crate::encoding;
use crate::number;
use crate::order;
pub use crate::repo::Repo;
use crate::text;
#[allow(unused_imports)]
use crate::text::Text;

verus! {

broadcast use {vstd::string::group_string_axioms, vstd::seq_lib::group_seq_properties};

/// Where the content of one side of the comparison comes from.
#[derive(Debug)]
pub enum Side {
    /// A resolved commit.
    Rev(String),
    /// The files as they currently sit on disk.
    Worktree,
}

/// A side as specifications see it.
#[verifier::ext_equal]
pub enum SideView {
    Rev(Text),
    Worktree,
}

impl DeepView for Side {
    type V = SideView;

    open spec fn deep_view(&self) -> SideView {
        match self {
            Side::Rev(rev) => SideView::Rev(rev@),
            Side::Worktree => SideView::Worktree,
        }
    }
}

impl Clone for Side {
    fn clone(&self) -> (r: Side)
        ensures
            r.deep_view() == self.deep_view(),
    {
        match self {
            Side::Rev(rev) => Side::Rev(rev.clone()),
            Side::Worktree => Side::Worktree,
        }
    }
}

/// What happened to a file.
#[derive(Clone, Copy, Debug, PartialEq, Eq, Structural)]
pub enum Status {
    Added,
    Modified,
    Deleted,
    Renamed,
    Copied,
    TypeChanged,
    Untracked,
}

/// One changed file in the comparison.
#[derive(Debug)]
pub struct FileEntry {
    pub path: String,
    pub old_path: Option<String>,
    pub status: Status,
    pub additions: u32,
    pub deletions: u32,
    pub binary: bool,
}

/// A changed file as specifications see it.
#[verifier::ext_equal]
pub struct FileEntryView {
    pub path: Text,
    pub old_path: Option<Text>,
    pub status: Status,
    pub additions: u32,
    pub deletions: u32,
    pub binary: bool,
}

impl DeepView for FileEntry {
    type V = FileEntryView;

    open spec fn deep_view(&self) -> FileEntryView {
        FileEntryView {
            path: self.path@,
            old_path: self.old_path.deep_view(),
            status: self.status,
            additions: self.additions,
            deletions: self.deletions,
            binary: self.binary,
        }
    }
}

/// A copy of a text that may be absent.
pub fn copy_option(s: &Option<String>) -> (r: Option<String>)
    ensures
        r.deep_view() == s.deep_view(),
{
    match s {
        Some(s) => Some(s.clone()),
        None => None,
    }
}

impl Clone for FileEntry {
    fn clone(&self) -> (r: FileEntry)
        ensures
            r.deep_view() == self.deep_view(),
    {
        FileEntry {
            path: self.path.clone(),
            old_path: copy_option(&self.old_path),
            status: self.status,
            additions: self.additions,
            deletions: self.deletions,
            binary: self.binary,
        }
    }
}

/// A copy of a list of changed files.
pub fn copy_entries(entries: &Vec<FileEntry>) -> (r: Vec<FileEntry>)
    ensures
        r.deep_view() == entries.deep_view(),
{
    let mut r: Vec<FileEntry> = Vec::new();
    let mut i: usize = 0;
    while i < entries.len()
        invariant
            i <= entries@.len(),
            r.deep_view() == entries.deep_view().take(i as int),
        decreases entries@.len() - i,
    {
        let ghost before = r.deep_view();
        let entry = entries[i].clone();
        r.push(entry);
        assert(r.deep_view() == before.push(entry.deep_view()));
        i = i + 1;
    }
    assert(entries.deep_view().take(i as int) == entries.deep_view());
    r
}

/// A commit, described for display.
#[derive(Debug)]
pub struct RefInfo {
    pub label: String,
    pub sha: String,
    pub short: String,
    pub subject: String,
}

/// A described commit as specifications see it.
#[verifier::ext_equal]
pub struct RefInfoView {
    pub label: Text,
    pub sha: Text,
    pub short: Text,
    pub subject: Text,
}

impl DeepView for RefInfo {
    type V = RefInfoView;

    open spec fn deep_view(&self) -> RefInfoView {
        RefInfoView {
            label: self.label@,
            sha: self.sha@,
            short: self.short@,
            subject: self.subject@,
        }
    }
}

impl Clone for RefInfo {
    fn clone(&self) -> (r: RefInfo)
        ensures
            r.deep_view() == self.deep_view(),
    {
        RefInfo {
            label: self.label.clone(),
            sha: self.sha.clone(),
            short: self.short.clone(),
            subject: self.subject.clone(),
        }
    }
}

/// What a status code of git stands for: its first letter decides.
pub open spec fn status_of(code: Text) -> Status {
    if code.len() == 0 {
        Status::Modified
    } else if code[0] == 'A' {
        Status::Added
    } else if code[0] == 'D' {
        Status::Deleted
    } else if code[0] == 'R' {
        Status::Renamed
    } else if code[0] == 'C' {
        Status::Copied
    } else if code[0] == 'T' {
        Status::TypeChanged
    } else {
        Status::Modified
    }
}

impl Status {
    /// Reads a status code of git.
    pub fn from_code(code: &str) -> (status: Status)
        ensures
            status == status_of(code@),
    {
        let chars = text::chars_of(code);
        if chars.len() == 0 {
            return Status::Modified;
        }
        match chars[0] {
            'A' => Status::Added,
            'D' => Status::Deleted,
            'R' => Status::Renamed,
            'C' => Status::Copied,
            'T' => Status::TypeChanged,
            _ => Status::Modified,
        }
    }

    /// True when the base side has no content for this entry.
    pub fn is_new(self) -> (r: bool)
        ensures
            r == (self == Status::Added || self == Status::Untracked),
    {
        matches!(self, Status::Added | Status::Untracked)
    }

    /// True when the head side has no content for this entry.
    pub fn is_deleted(self) -> (r: bool)
        ensures
            r == (self == Status::Deleted),
    {
        self == Status::Deleted
    }
}

/// The path that a file had on the base side.
pub open spec fn entry_base_path(entry: FileEntryView) -> Text {
    match entry.old_path {
        Some(path) => path,
        None => entry.path,
    }
}

impl FileEntry {
    /// The path this file had on the base side.
    pub fn base_path(&self) -> (path: &str)
        ensures
            path@ == entry_base_path(self.deep_view()),
    {
        match &self.old_path {
            Some(path) => path.as_str(),
            None => self.path.as_str(),
        }
    }
}

/// How many bytes are looked at to tell whether a file is binary.
pub const BINARY_PROBE: usize = 8000;

/// Whether a NUL byte is near the start.
pub open spec fn looks_binary(bytes: Seq<u8>) -> bool {
    exists|i: int| 0 <= i < bytes.len() && i < BINARY_PROBE && #[trigger] bytes[i] == 0
}

/// Mirrors git's own heuristic: a NUL byte near the start means binary.
pub fn is_binary(bytes: &[u8]) -> (r: bool)
    ensures
        r == looks_binary(bytes@),
{
    let mut i: usize = 0;
    while i < bytes.len() && i < BINARY_PROBE
        invariant
            i <= bytes@.len(),
            forall|j: int| 0 <= j < i ==> #[trigger] bytes@[j] != 0,
        decreases bytes@.len() - i,
    {
        if bytes[i] == 0 {
            return true;
        }
        i = i + 1;
    }
    false
}

/// The records that are not empty, as text.
pub open spec fn record_texts(records: Seq<Seq<u8>>) -> Seq<Text>
    decreases records.len(),
{
    if records.len() == 0 {
        Seq::empty()
    } else {
        let rest = record_texts(records.drop_last());
        if records.last().len() == 0 {
            rest
        } else {
            rest.push(encoding::utf8_lossy(records.last()))
        }
    }
}

/// The fields of `-z` output: its NUL separated records, less the empty ones.
pub open spec fn fields_of(bytes: Seq<u8>) -> Seq<Text> {
    record_texts(text::split_on(bytes, 0u8))
}

/// Adds a record to the fields, where it is not empty.
fn push_field(fields: &mut Vec<String>, record: &[u8])
    ensures
        final(fields).deep_view() == (if record@.len() == 0 {
            old(fields).deep_view()
        } else {
            old(fields).deep_view().push(encoding::utf8_lossy(record@))
        }),
{
    let ghost before = fields.deep_view();
    if record.len() > 0 {
        let field = encoding::lossy(record);
        fields.push(field);
        assert(fields.deep_view() == before.push(field@));
    }
}

/// Splits `-z` output into its NUL separated records.
pub fn nul_fields(bytes: &[u8]) -> (fields: Vec<String>)
    ensures
        fields.deep_view() == fields_of(bytes@),
{
    let ghost s = bytes@;
    let ghost mut done: Seq<Seq<u8>> = Seq::empty();
    let mut fields: Vec<String> = Vec::new();
    let mut start: usize = 0;
    let mut i: usize = 0;
    assert(s.take(0) == Seq::<u8>::empty());
    assert(s.subrange(0, 0) == Seq::<u8>::empty());
    assert(fields.deep_view() == Seq::<Text>::empty());
    while i < bytes.len()
        invariant
            s == bytes@,
            start <= i <= s.len(),
            text::split_on(s.take(i as int), 0u8) == done.push(s.subrange(start as int, i as int)),
            fields.deep_view() == record_texts(done),
        decreases s.len() - i,
    {
        let ghost record = s.subrange(start as int, i as int);
        assert(s.take(i + 1).drop_last() == s.take(i as int));
        assert(s.take(i + 1).last() == s[i as int]);
        if bytes[i] == 0 {
            push_field(&mut fields, slice_subrange(bytes, start, i));
            start = i + 1;
            proof {
                assert(done.push(record).drop_last() == done);
                done = done.push(record);
                assert(s.subrange(start as int, i + 1) == Seq::<u8>::empty());
            }
        } else {
            assert(done.push(record).drop_last() == done);
            assert(s.subrange(start as int, i + 1) == record.push(s[i as int]));
        }
        i = i + 1;
    }
    assert(s.take(s.len() as int) == s);
    push_field(&mut fields, slice_subrange(bytes, start, i));
    assert(done.push(s.subrange(start as int, i as int)).drop_last() == done);
    fields
}

/// The field at `i`; empty where there are not so many.
pub open spec fn field_at(fields: Seq<Text>, i: int) -> Text {
    if 0 <= i < fields.len() {
        fields[i]
    } else {
        Seq::empty()
    }
}

/// The fields behind the first `n`; none where there are not so many.
pub open spec fn fields_behind(fields: Seq<Text>, n: int) -> Seq<Text> {
    if n <= fields.len() {
        fields.skip(n)
    } else {
        Seq::empty()
    }
}

/// The field at `i`; empty where there are not so many.
fn field(fields: &Vec<String>, i: usize) -> (r: String)
    ensures
        r@ == field_at(fields.deep_view(), i as int),
{
    if i < fields.len() {
        fields[i].clone()
    } else {
        String::new()
    }
}

/// The place `n` behind `i`, or the end.
fn forward(fields: &Vec<String>, i: usize, n: usize) -> (r: usize)
    requires
        i <= fields@.len(),
    ensures
        r <= fields@.len(),
        n > 0 && i < fields@.len() ==> r > i,
        fields.deep_view().skip(r as int) == fields_behind(
            fields.deep_view().skip(i as int),
            n as int,
        ),
{
    let ghost rest = fields.deep_view().skip(i as int);
    if n <= fields.len() - i {
        assert(rest.skip(n as int) == fields.deep_view().skip(i + n));
        i + n
    } else {
        assert(fields.deep_view().skip(fields@.len() as int) == Seq::<Text>::empty());
        fields.len()
    }
}

/// The number that a text gives, or zero where it gives none that fits.
pub open spec fn count_of(s: Text) -> u32 {
    match number::parsed(s, u32::MAX as nat) {
        Some(n) => n as u32,
        None => 0,
    }
}

/// Reads the number that a text gives.
fn count(s: &str) -> (n: u32)
    ensures
        n == count_of(s@),
{
    match number::parse(s, u32::MAX as u64) {
        Some(n) => n as u32,
        None => 0,
    }
}

/// The three parts of a record of line counts: `<added>\t<deleted>\t<path>`.
pub open spec fn stat_parts(record: Text) -> (Text, Text, Text) {
    match text::split_at_first(record, '\t') {
        None => (record, "-"@, Seq::empty()),
        Some((added, rest)) => match text::split_at_first(rest, '\t') {
            None => (added, rest, Seq::empty()),
            Some((deleted, path)) => (added, deleted, path),
        },
    }
}

/// Cuts a record of line counts into its three parts.
fn cut_stat(record: &str) -> (r: (String, String, String))
    ensures
        r.deep_view() == stat_parts(record@),
{
    match text::split_once(record, '\t') {
        None => (record.to_owned(), "-".to_owned(), String::new()),
        Some((added, rest)) => match text::split_once(rest.as_str(), '\t') {
            None => (added, rest, String::new()),
            Some((deleted, path)) => (added, deleted, path),
        },
    }
}

/// The line counts of a record, and whether it is of a binary file.
pub open spec fn stat_of(added: Text, deleted: Text) -> (u32, u32, bool) {
    (count_of(added), count_of(deleted), added == "-"@)
}

/// The line counts of files by their path on the head side, added to those that are known. A
/// record without a path is of a renamed file, whose old and new paths follow as fields.
pub open spec fn stats_from(
    fields: Seq<Text>,
    known: vstd::map::Map<Text, (u32, u32, bool)>,
) -> vstd::map::Map<Text, (u32, u32, bool)>
    decreases fields.len(),
{
    if fields.len() == 0 {
        known
    } else {
        let (added, deleted, path) = stat_parts(fields[0]);
        if path.len() == 0 {
            stats_from(
                fields_behind(fields, 3),
                known.insert(field_at(fields, 2), stat_of(added, deleted)),
            )
        } else {
            stats_from(fields.skip(1), known.insert(path, stat_of(added, deleted)))
        }
    }
}

/// Reads the line counts of files by their path on the head side.
pub fn read_stats(fields: &Vec<String>) -> (stats: StringHashMap<(u32, u32, bool)>)
    ensures
        stats@ == stats_from(fields.deep_view(), vstd::map::Map::empty()),
{
    let ghost all = fields.deep_view();
    let ghost goal = stats_from(all, vstd::map::Map::empty());
    let mut stats: StringHashMap<(u32, u32, bool)> = StringHashMap::new();
    let mut i: usize = 0;
    assert(all.skip(0) == all);
    while i < fields.len()
        invariant
            all == fields.deep_view(),
            i <= fields@.len(),
            goal == stats_from(all.skip(i as int), stats@),
        decreases fields@.len() - i,
    {
        let ghost rest = all.skip(i as int);
        let (added, deleted, path) = cut_stat(fields[i].as_str());
        assert(rest[0] == fields@[i as int]@);
        let stat = (
            count(added.as_str()),
            count(deleted.as_str()),
            text::same(added.as_str(), "-"),
        );
        if path.as_str().is_empty() {
            let renamed = if fields.len() - i > 2 {
                field(fields, i + 2)
            } else {
                String::new()
            };
            assert(renamed@ == field_at(rest, 2));
            stats.insert(renamed, stat);
            i = forward(fields, i, 3);
        } else {
            stats.insert(path, stat);
            i = forward(fields, i, 1);
        }
    }
    stats
}

/// The changed files that a list of status codes and paths tells of, with the line counts that
/// are known. A renamed or copied file has two paths, the old one first.
pub open spec fn entries_from(
    fields: Seq<Text>,
    stats: vstd::map::Map<Text, (u32, u32, bool)>,
) -> Seq<FileEntryView>
    decreases fields.len(),
{
    if fields.len() == 0 {
        Seq::empty()
    } else {
        let status = status_of(fields[0]);
        let moved = status == Status::Renamed || status == Status::Copied;
        let path = field_at(
            fields,
            if moved {
                2
            } else {
                1
            },
        );
        let (additions, deletions, binary) = if stats.contains_key(path) {
            stats[path]
        } else {
            (0u32, 0u32, false)
        };
        let old_path = if moved {
            Some(field_at(fields, 1))
        } else {
            None
        };
        seq![FileEntryView { path, old_path, status, additions, deletions, binary }]
            + entries_from(
            fields_behind(
                fields,
                if moved {
                    3
                } else {
                    2
                },
            ),
            stats.remove(path),
        )
    }
}

/// Reads the changed files out of a list of status codes and paths.
pub fn read_entries(fields: &Vec<String>, stats: StringHashMap<(u32, u32, bool)>) -> (entries: Vec<
    FileEntry,
>)
    ensures
        entries.deep_view() == entries_from(fields.deep_view(), stats@),
{
    let mut stats = stats;
    let ghost all = fields.deep_view();
    let ghost goal = entries_from(all, stats@);
    let mut entries: Vec<FileEntry> = Vec::new();
    let mut i: usize = 0;
    assert(all.skip(0) == all);
    assert(entries.deep_view() + goal == goal);
    while i < fields.len()
        invariant
            all == fields.deep_view(),
            i <= fields@.len(),
            goal == entries.deep_view() + entries_from(all.skip(i as int), stats@),
        decreases fields@.len() - i,
    {
        let ghost rest = all.skip(i as int);
        let ghost before = entries.deep_view();
        let status = Status::from_code(fields[i].as_str());
        assert(rest[0] == fields@[i as int]@);
        let moved = matches!(status, Status::Renamed | Status::Copied);
        let next: String = if fields.len() - i > 1 {
            field(fields, i + 1)
        } else {
            String::new()
        };
        assert(next@ == field_at(rest, 1));
        let (old_path, path) = if moved {
            let new = if fields.len() - i > 2 {
                field(fields, i + 2)
            } else {
                String::new()
            };
            assert(new@ == field_at(rest, 2));
            (Some(next), new)
        } else {
            (None, next)
        };
        let (additions, deletions, binary) = match stats.get(path.as_str()) {
            Some(stat) => *stat,
            None => (0u32, 0u32, false),
        };
        stats.remove(path.as_str());
        let entry = FileEntry { path, old_path, status, additions, deletions, binary };
        entries.push(entry);
        assert(entries.deep_view() == before.push(entry.deep_view()));
        i = forward(
            fields,
            i,
            if moved {
                3
            } else {
                2
            },
        );
        let ghost tail = entries_from(all.skip(i as int), stats@);
        assert(before + (seq![entry.deep_view()] + tail) == entries.deep_view() + tail);
    }
    assert(entries.deep_view() + Seq::<FileEntryView>::empty() == entries.deep_view());
    entries
}

/// Entries in the order of their paths; those of one path stay in the order they had.
pub open spec fn sorted_entries(entries: Seq<FileEntryView>) -> Seq<FileEntryView> {
    order::stable_sorted(keyed(entries)).map_values(|pair: (Text, FileEntryView)| pair.1)
}

/// Entries with their paths as keys.
pub open spec fn keyed(entries: Seq<FileEntryView>) -> Seq<(Text, FileEntryView)> {
    entries.map_values(|entry: FileEntryView| (entry.path, entry))
}

/// Puts entries in the order of their paths.
pub fn sort_entries(entries: Vec<FileEntry>) -> (sorted: Vec<FileEntry>)
    ensures
        sorted.deep_view() == sorted_entries(entries.deep_view()),
{
    let ghost all = keyed(entries.deep_view());
    let mut sorted: Vec<FileEntry> = Vec::new();
    let mut i: usize = 0;
    assert(all.take(0) == Seq::<(Text, FileEntryView)>::empty());
    assert(keyed(sorted.deep_view()) == order::stable_sorted(all.take(0)));
    while i < entries.len()
        invariant
            all == keyed(entries.deep_view()),
            i <= entries@.len(),
            keyed(sorted.deep_view()) == order::stable_sorted(all.take(i as int)),
        decreases entries@.len() - i,
    {
        assert(all.take(i + 1).drop_last() == all.take(i as int));
        assert(all.take(i + 1).last() == all[i as int]);
        insert_entry(&mut sorted, entries[i].clone());
        i = i + 1;
    }
    assert(all.take(all.len() as int) == all);
    assert(sorted.deep_view() == keyed(sorted.deep_view()).map_values(
        |pair: (Text, FileEntryView)| pair.1,
    ));
    sorted
}

/// Puts an entry behind all that its path does not come before.
fn insert_entry(sorted: &mut Vec<FileEntry>, entry: FileEntry)
    ensures
        keyed(final(sorted).deep_view()) == order::inserted(
            keyed(old(sorted).deep_view()),
            (entry.path@, entry.deep_view()),
        ),
{
    let ghost before = keyed(sorted.deep_view());
    let ghost key = (entry.path@, entry.deep_view());
    let ghost held = sorted@;
    let mut n: usize = sorted.len();
    assert(before.take(n as int) == before);
    assert(order::inserted(before, key) + Seq::empty() == order::inserted(before, key));
    assert(before.skip(n as int) == Seq::<(Text, FileEntryView)>::empty());
    while n > 0 && order::comes_before(entry.path.as_str(), sorted[n - 1].path.as_str())
        invariant
            n <= sorted@.len(),
            sorted@ == held,
            before == keyed(sorted.deep_view()),
            key == (entry.path@, entry.deep_view()),
            order::inserted(before, key) == order::inserted(before.take(n as int), key)
                + before.skip(n as int),
        decreases n,
    {
        assert(before[n - 1].0 == sorted@[n - 1].path@);
        proof {
            order::lemma_insert_step(before, key, n as int);
        }
        n = n - 1;
    }
    sorted.insert(n, entry);
    proof {
        if n > 0 {
            assert(before.take(n as int).last().0 == held[n - 1].path@);
        }
        assert(order::inserted(before.take(n as int), key) == before.take(n as int).push(key));
        assert(keyed(sorted.deep_view()) == before.take(n as int).push(key) + before.skip(
            n as int,
        ));
    }
}

/// Texts in order.
pub open spec fn sorted_texts(texts: Seq<Text>) -> Seq<Text> {
    order::stable_sorted(paired(texts)).map_values(|pair: (Text, ())| pair.0)
}

/// Texts as keys to nothing.
pub open spec fn paired(texts: Seq<Text>) -> Seq<(Text, ())> {
    texts.map_values(|s: Text| (s, ()))
}

/// Texts with each that equals the one before it left out.
pub open spec fn without_repeats(texts: Seq<Text>) -> Seq<Text>
    decreases texts.len(),
{
    if texts.len() == 0 {
        texts
    } else {
        let rest = without_repeats(texts.drop_last());
        if rest.len() > 0 && rest.last() == texts.last() {
            rest
        } else {
            rest.push(texts.last())
        }
    }
}

/// Puts texts in order.
fn sort_texts(texts: Vec<String>) -> (sorted: Vec<String>)
    ensures
        sorted.deep_view() == sorted_texts(texts.deep_view()),
{
    let ghost all = paired(texts.deep_view());
    let mut sorted: Vec<String> = Vec::new();
    let mut i: usize = 0;
    assert(all.take(0) == Seq::<(Text, ())>::empty());
    assert(paired(sorted.deep_view()) == order::stable_sorted(all.take(0)));
    while i < texts.len()
        invariant
            all == paired(texts.deep_view()),
            i <= texts@.len(),
            paired(sorted.deep_view()) == order::stable_sorted(all.take(i as int)),
        decreases texts@.len() - i,
    {
        assert(all.take(i + 1).drop_last() == all.take(i as int));
        assert(all.take(i + 1).last() == all[i as int]);
        insert_text(&mut sorted, texts[i].clone());
        i = i + 1;
    }
    assert(all.take(all.len() as int) == all);
    assert(sorted.deep_view() == paired(sorted.deep_view()).map_values(|pair: (Text, ())| pair.0));
    sorted
}

/// Puts a text behind all that it does not come before.
fn insert_text(sorted: &mut Vec<String>, s: String)
    ensures
        paired(final(sorted).deep_view()) == order::inserted(
            paired(old(sorted).deep_view()),
            (s@, ()),
        ),
{
    let ghost before = paired(sorted.deep_view());
    let ghost key = (s@, ());
    let ghost held = sorted@;
    let mut n: usize = sorted.len();
    assert(before.take(n as int) == before);
    assert(order::inserted(before, key) + Seq::empty() == order::inserted(before, key));
    assert(before.skip(n as int) == Seq::<(Text, ())>::empty());
    while n > 0 && order::comes_before(s.as_str(), sorted[n - 1].as_str())
        invariant
            n <= sorted@.len(),
            sorted@ == held,
            before == paired(sorted.deep_view()),
            key == (s@, ()),
            order::inserted(before, key) == order::inserted(before.take(n as int), key)
                + before.skip(n as int),
        decreases n,
    {
        assert(before[n - 1].0 == sorted@[n - 1]@);
        proof {
            order::lemma_insert_step(before, key, n as int);
        }
        n = n - 1;
    }
    sorted.insert(n, s);
    proof {
        if n > 0 {
            assert(before.take(n as int).last().0 == held[n - 1]@);
        }
        assert(order::inserted(before.take(n as int), key) == before.take(n as int).push(key));
        assert(paired(sorted.deep_view()) == before.take(n as int).push(key) + before.skip(
            n as int,
        ));
    }
}

/// Puts texts in order, each once.
pub fn sort_and_dedup(texts: Vec<String>) -> (r: Vec<String>)
    ensures
        r.deep_view() == without_repeats(sorted_texts(texts.deep_view())),
{
    let sorted = sort_texts(texts);
    let ghost all = sorted.deep_view();
    let mut r: Vec<String> = Vec::new();
    let mut i: usize = 0;
    assert(all.take(0) == Seq::<Text>::empty());
    assert(r.deep_view() == Seq::<Text>::empty());
    while i < sorted.len()
        invariant
            all == sorted.deep_view(),
            i <= sorted@.len(),
            r.deep_view() == without_repeats(all.take(i as int)),
        decreases sorted@.len() - i,
    {
        let ghost before = r.deep_view();
        assert(all.take(i + 1).drop_last() == all.take(i as int));
        assert(all.take(i + 1).last() == sorted@[i as int]@);
        let n = r.len();
        let repeated = n > 0 && text::same(r[n - 1].as_str(), sorted[i].as_str());
        if !repeated {
            let s = sorted[i].clone();
            r.push(s);
            assert(r.deep_view() == before.push(s@));
        }
        i = i + 1;
    }
    assert(all.take(all.len() as int) == all);
    r
}

} // verus!
