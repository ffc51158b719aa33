//! Turns two blobs into the rows the browser renders.

use vstd::prelude::*;
use vstd::string::*;
use vstd::utf8::*;

use similar::{DiffOp, InlineChangeOptions};

use crate::git::Status;
use crate::highlight;
use crate::highlight::Highlighter;
use crate::line_diff;
use crate::groups;
use crate::line_diff::{LineAlgorithm, LineChange, LineDiff, LineTag, Refinement};
#[allow(unused_imports)]
use crate::line_diff::{LineChangeView, LineOp};
use crate::number;
use crate::render;
use crate::render::Token;
#[allow(unused_imports)]
use crate::render::TokenView;
use crate::text;
#[allow(unused_imports)]
use crate::text::Text;

verus! {

broadcast use {vstd::string::group_string_axioms, vstd::seq_lib::group_seq_properties};

/// How much unchanged code to keep around each change.
#[derive(Clone, Copy, Debug, PartialEq, Eq, Structural)]
pub enum Context {
    Lines(usize),
    Full,
}

/// The context that a query parameter asks for: a number of lines, no more than 200 and 3 where
/// it is not a number, or `full`.
pub open spec fn context_of(raw: Text) -> Context {
    if raw == "full"@ {
        Context::Full
    } else {
        match number::parsed(raw, usize::MAX as nat) {
            Some(n) => if n < 200 {
                Context::Lines(n as usize)
            } else {
                Context::Lines(200)
            },
            None => Context::Lines(3),
        }
    }
}

impl Context {
    /// Parses the `ctx` query parameter: a line count, or `full`.
    pub fn parse(raw: &str) -> (context: Context)
        ensures
            context == context_of(raw@),
    {
        if text::same(raw, "full") {
            return Context::Full;
        }
        match number::parse(raw, usize::MAX as u64) {
            Some(n) => if n < 200 {
                Context::Lines(n as usize)
            } else {
                Context::Lines(200)
            },
            None => Context::Lines(3),
        }
    }
}

/// What there is to show of a file.
#[derive(Clone, Copy, Debug, PartialEq, Eq, Structural)]
pub enum State {
    /// Rendered normally.
    Rendered,
    /// Not text, so there is nothing useful to show.
    Binary,
    /// Text, but the two sides are identical.
    Identical,
    /// The path does not exist on the side that was asked for.
    Missing,
}

/// The difference of one file.
#[derive(Debug)]
pub struct FileDiff {
    pub path: String,
    pub old_path: Option<String>,
    pub status: Status,
    pub language: Option<String>,
    pub additions: u32,
    pub deletions: u32,
    pub state: State,
    pub hunks: Vec<Hunk>,
}

/// A run of changes with the unchanged code around it.
#[derive(Debug)]
pub struct Hunk {
    pub header: String,
    pub rows: Vec<Row>,
}

/// A line of a hunk.
#[derive(Debug)]
pub struct Row {
    /// `ctx`, `del` or `add`.
    pub kind: &'static str,
    pub old: Option<u32>,
    pub new: Option<u32>,
    pub html: String,
    pub no_newline: bool,
}

/// A whole file, highlighted, for the browse pane.
#[derive(Debug)]
pub struct FileView {
    pub path: String,
    pub language: Option<String>,
    pub state: State,
    pub lines: Vec<String>,
}

/// A row as specifications see it.
#[verifier::ext_equal]
pub struct RowView {
    pub kind: Text,
    pub old: Option<u32>,
    pub new: Option<u32>,
    pub html: Text,
    pub no_newline: bool,
}

/// A hunk as specifications see it.
#[verifier::ext_equal]
pub struct HunkView {
    pub header: Text,
    pub rows: Seq<RowView>,
}

/// The difference of one file as specifications see it.
#[verifier::ext_equal]
pub struct FileDiffView {
    pub path: Text,
    pub old_path: Option<Text>,
    pub status: Status,
    pub language: Option<Text>,
    pub additions: u32,
    pub deletions: u32,
    pub state: State,
    pub hunks: Seq<HunkView>,
}

/// A whole file as specifications see it.
#[verifier::ext_equal]
pub struct FileViewView {
    pub path: Text,
    pub language: Option<Text>,
    pub state: State,
    pub lines: Seq<Text>,
}

impl DeepView for Row {
    type V = RowView;

    open spec fn deep_view(&self) -> RowView {
        RowView {
            kind: self.kind@,
            old: self.old,
            new: self.new,
            html: self.html@,
            no_newline: self.no_newline,
        }
    }
}

impl DeepView for Hunk {
    type V = HunkView;

    open spec fn deep_view(&self) -> HunkView {
        HunkView { header: self.header@, rows: self.rows.deep_view() }
    }
}

impl DeepView for FileDiff {
    type V = FileDiffView;

    open spec fn deep_view(&self) -> FileDiffView {
        FileDiffView {
            path: self.path@,
            old_path: self.old_path.deep_view(),
            status: self.status,
            language: self.language.deep_view(),
            additions: self.additions,
            deletions: self.deletions,
            state: self.state,
            hunks: self.hunks.deep_view(),
        }
    }
}

impl DeepView for FileView {
    type V = FileViewView;

    open spec fn deep_view(&self) -> FileViewView {
        FileViewView {
            path: self.path@,
            language: self.language.deep_view(),
            state: self.state,
            lines: self.lines.deep_view(),
        }
    }
}

/// The header of a hunk: `@@ -old,count +new,count @@`, lines counted from one.
pub open spec fn header_of(old_start: int, old_end: int, new_start: int, new_end: int) -> Text {
    "@@ -"@ + number::decimal((old_start + 1) as nat) + ","@ + number::decimal(
        (old_end - old_start) as nat,
    ) + " +"@ + number::decimal((new_start + 1) as nat) + ","@ + number::decimal(
        (new_end - new_start) as nat,
    ) + " @@"@
}

/// The header of a group of steps, where there is a step.
pub open spec fn group_header(group: Seq<LineOp>) -> Option<Text> {
    if group.len() == 0 {
        None
    } else {
        Some(
            header_of(
                group[0].old_start,
                group.last().old_end,
                group[0].new_start,
                group.last().new_end,
            ),
        )
    }
}

/// `@@ -old,count +new,count @@`, matching what readers of diffs expect to see.
pub fn hunk_header(group: &[DiffOp]) -> (header: Option<String>)
    requires
        group@.len() > 0 ==> {
            &&& line_diff::op_view(group@[0]).old_start <= line_diff::op_view(group@.last()).old_end
            &&& line_diff::op_view(group@[0]).new_start <= line_diff::op_view(group@.last()).new_end
        },
    ensures
        header.deep_view() == group_header(line_diff::ops_view(group@)),
{
    if group.len() == 0 {
        return None;
    }
    let first = &group[0];
    let last = &group[group.len() - 1];
    let old_start = first.old_range().start;
    let new_start = first.new_range().start;
    let old_end = last.old_range().end;
    let new_end = last.new_range().end;
    let mut header = "@@ -".to_owned();
    number::push_decimal(&mut header, old_start as u128 + 1);
    header.append(",");
    number::push_decimal(&mut header, (old_end - old_start) as u128);
    header.append(" +");
    number::push_decimal(&mut header, new_start as u128 + 1);
    header.append(",");
    number::push_decimal(&mut header, (new_end - new_start) as u128);
    header.append(" @@");
    Some(header)
}

/// The tokens of a line; none where it has no place or lies behind the last.
pub open spec fn tokens_at(lines: Seq<Seq<TokenView>>, index: Option<usize>) -> Seq<TokenView> {
    match index {
        Some(i) => if i < lines.len() {
            lines[i as int]
        } else {
            Seq::empty()
        },
        None => Seq::empty(),
    }
}

/// The tokens of a line; none where it has no place or lies behind the last.
fn line_tokens(lines: &Vec<Vec<Token>>, index: Option<usize>) -> (tokens: &[Token])
    ensures
        tokens.deep_view() == tokens_at(lines.deep_view(), index),
{
    if let Some(i) = index {
        if i < lines.len() {
            let tokens = lines[i].as_slice();
            assert(tokens.deep_view() == lines@[i as int].deep_view());
            return tokens;
        }
    }
    let none: &[Token] = &[];
    assert(none.deep_view() == Seq::<TokenView>::empty());
    none
}

/// The emphasised ranges with one more behind them, added to the last where it goes on there.
pub open spec fn emphasized(emphasis: Seq<(usize, usize)>, start: int, end: int) -> Seq<
    (usize, usize),
> {
    if emphasis.len() > 0 && emphasis.last().1 == start {
        emphasis.drop_last().push((emphasis.last().0, end as usize))
    } else {
        emphasis.push((start as usize, end as usize))
    }
}

/// The byte ranges of a line that its parts mark as changed.
pub open spec fn marked(values: Seq<(bool, Text)>) -> Seq<(usize, usize)>
    decreases values.len(),
{
    if values.len() == 0 {
        Seq::empty()
    } else {
        let before = marked(values.drop_last());
        let start = encode_utf8(line_diff::text_of_values(values.drop_last())).len() as int;
        let end = encode_utf8(line_diff::text_of_values(values)).len() as int;
        if values.last().0 {
            emphasized(before, start, end)
        } else {
            before
        }
    }
}

/// A line without the newlines at its end, and then without the carriage returns.
pub open spec fn bare_line(line: Text) -> Text {
    text::without_trailing(text::without_trailing(line, '\n'), '\r')
}

/// Whether the first `end` bytes of a line are the entire line: all of it up to its trailing white
/// space, or up to what ends it.
pub open spec fn is_entire(line: Text, end: int) -> bool {
    ||| end == encode_utf8(text::trimmed_end(line)).len()
    ||| end >= encode_utf8(bare_line(line)).len()
}

/// The byte ranges of a line to emphasise. A single range that covers the entire line carries no
/// information.
pub open spec fn emphasis_of(values: Seq<(bool, Text)>) -> Seq<(usize, usize)> {
    let ranges = marked(values);
    if ranges.len() == 1 && ranges[0].0 == 0 && is_entire(
        line_diff::text_of_values(values),
        ranges[0].1 as int,
    ) {
        Seq::empty()
    } else {
        ranges
    }
}

/// Joins the inline-diff fragments back into a line, recording which byte
/// ranges of it the refinement marked as changed.
pub fn flatten(values: &Vec<(bool, String)>) -> (r: (String, Vec<(usize, usize)>))
    ensures
        r.0@ == line_diff::text_of_values(values.deep_view()),
        r.1@ == emphasis_of(values.deep_view()),
{
    let ghost all = values.deep_view();
    let mut line = String::new();
    let mut emphasis: Vec<(usize, usize)> = Vec::new();
    let mut i: usize = 0;
    assert(all.take(0) == Seq::<(bool, Text)>::empty());
    assert(line@ == Seq::<char>::empty());
    while i < values.len()
        invariant
            all == values.deep_view(),
            i <= values@.len(),
            line@ == line_diff::text_of_values(all.take(i as int)),
            emphasis@ == marked(all.take(i as int)),
        decreases values@.len() - i,
    {
        let ghost before = emphasis@;
        let (changed, fragment) = &values[i];
        assert(all.take(i + 1).drop_last() == all.take(i as int));
        assert(all.take(i + 1).last() == (*changed, fragment@));
        let start = line.as_str().as_bytes().len();
        line.append(fragment.as_str());
        if *changed {
            let end = line.as_str().as_bytes().len();
            let n = emphasis.len();
            if n > 0 && emphasis[n - 1].1 == start {
                let first = emphasis[n - 1].0;
                emphasis.set(n - 1, (first, end));
                assert(emphasis@ == before.drop_last().push((first, end)));
            } else {
                emphasis.push((start, end));
            }
        }
        i = i + 1;
    }
    assert(all.take(all.len() as int) == all);
    if emphasis.len() == 1 {
        let trimmed = text::trim_end(line.as_str());
        let ended = text::trim_end_matches(line.as_str(), '\n');
        let bare = text::trim_end_matches(ended.as_str(), '\r');
        let end = emphasis[0].1;
        if emphasis[0].0 == 0 && (end == trimmed.as_str().as_bytes().len() || end
            >= bare.as_str().as_bytes().len()) {
            emphasis = Vec::new();
            assert(emphasis@ == Seq::<(usize, usize)>::empty());
        }
    }
    (line, emphasis)
}

/// The number of a line, counted from one, in 32 bits.
pub open spec fn line_number(index: usize) -> u32 {
    ((index + 1) % 0x1_0000_0000) as u32
}

/// The numbers of a line that is there.
pub open spec fn line_number_of(index: Option<usize>) -> Option<u32> {
    match index {
        Some(i) => Some(line_number(i)),
        None => None,
    }
}

fn numbered(index: Option<usize>) -> (number: Option<u32>)
    ensures
        number == line_number_of(index),
{
    match index {
        Some(i) => {
            let n: u128 = (i as u128 + 1) % 0x1_0000_0000;
            Some(n as u32)
        },
        None => None,
    }
}

/// What a line of a difference is called.
pub open spec fn kind_of(tag: LineTag) -> Text {
    match tag {
        LineTag::Equal => "ctx"@,
        LineTag::Delete => "del"@,
        LineTag::Insert => "add"@,
    }
}

/// The row of a line: highlighted as its side of the difference is, the new where it is on both.
pub open spec fn row_of(
    change: LineChangeView,
    old_tokens: Seq<Seq<TokenView>>,
    new_tokens: Seq<Seq<TokenView>>,
) -> RowView {
    let tokens = if change.tag is Delete {
        tokens_at(old_tokens, change.old_index)
    } else {
        tokens_at(new_tokens, change.new_index)
    };
    RowView {
        kind: kind_of(change.tag),
        old: line_number_of(change.old_index),
        new: line_number_of(change.new_index),
        html: render::rendered(
            bare_line(line_diff::text_of_values(change.values)),
            tokens,
            emphasis_of(change.values),
        ),
        no_newline: change.missing_newline,
    }
}

/// Makes the row of a line.
pub fn row(change: &LineChange, old_tokens: &Vec<Vec<Token>>, new_tokens: &Vec<Vec<Token>>) -> (r:
    Row)
    ensures
        r.deep_view() == row_of(
            change.deep_view(),
            old_tokens.deep_view(),
            new_tokens.deep_view(),
        ),
{
    let (kind, tokens) = match change.tag {
        LineTag::Equal => ("ctx", line_tokens(new_tokens, change.new_index)),
        LineTag::Delete => ("del", line_tokens(old_tokens, change.old_index)),
        LineTag::Insert => ("add", line_tokens(new_tokens, change.new_index)),
    };
    let (line, emphasis) = flatten(&change.values);
    let ended = text::trim_end_matches(line.as_str(), '\n');
    let trimmed = text::trim_end_matches(ended.as_str(), '\r');
    Row {
        kind,
        old: numbered(change.old_index),
        new: numbered(change.new_index),
        html: render::render_line(trimmed.as_str(), tokens, emphasis.as_slice()),
        no_newline: change.missing_newline,
    }
}

/// The rows of lines.
pub open spec fn rows_of(
    changes: Seq<LineChangeView>,
    old_tokens: Seq<Seq<TokenView>>,
    new_tokens: Seq<Seq<TokenView>>,
) -> Seq<RowView> {
    changes.map_values(|change: LineChangeView| row_of(change, old_tokens, new_tokens))
}

/// Makes the rows of lines.
pub fn push_rows(
    rows: &mut Vec<Row>,
    changes: &Vec<LineChange>,
    old_tokens: &Vec<Vec<Token>>,
    new_tokens: &Vec<Vec<Token>>,
)
    ensures
        final(rows).deep_view() == old(rows).deep_view() + rows_of(
            changes.deep_view(),
            old_tokens.deep_view(),
            new_tokens.deep_view(),
        ),
{
    let ghost before = rows.deep_view();
    let ghost all = rows_of(changes.deep_view(), old_tokens.deep_view(), new_tokens.deep_view());
    let mut i: usize = 0;
    assert(before + all.take(0) == before);
    while i < changes.len()
        invariant
            all == rows_of(changes.deep_view(), old_tokens.deep_view(), new_tokens.deep_view()),
            i <= changes@.len(),
            rows.deep_view() == before + all.take(i as int),
        decreases changes@.len() - i,
    {
        let ghost now = rows.deep_view();
        let r = row(&changes[i], old_tokens, new_tokens);
        assert(r.deep_view() == all[i as int]);
        rows.push(r);
        assert(rows.deep_view() == now.push(all[i as int]));
        assert(now.push(all[i as int]) == before + all.take(i + 1));
        i = i + 1;
    }
    assert(all.take(all.len() as int) == all);
}

/// The hunk of a group of steps, given the lines of each step; none where there is no step.
pub open spec fn hunk_of(
    group: Seq<LineOp>,
    changes: Seq<Seq<LineChangeView>>,
    old_tokens: Seq<Seq<TokenView>>,
    new_tokens: Seq<Seq<TokenView>>,
) -> Option<HunkView> {
    match group_header(group) {
        Some(header) => Some(
            HunkView { header, rows: rows_of(text::joined(changes), old_tokens, new_tokens) },
        ),
        None => None,
    }
}

/// Makes the hunk of a group of steps, given the lines of each step.
pub fn hunk(
    group: &[DiffOp],
    changes: &Vec<Vec<LineChange>>,
    old_tokens: &Vec<Vec<Token>>,
    new_tokens: &Vec<Vec<Token>>,
) -> (r: Option<Hunk>)
    requires
        group@.len() > 0 ==> {
            &&& line_diff::op_view(group@[0]).old_start <= line_diff::op_view(group@.last()).old_end
            &&& line_diff::op_view(group@[0]).new_start <= line_diff::op_view(group@.last()).new_end
        },
    ensures
        r.deep_view() == hunk_of(
            line_diff::ops_view(group@),
            changes.deep_view(),
            old_tokens.deep_view(),
            new_tokens.deep_view(),
        ),
{
    let header = match hunk_header(group) {
        Some(header) => header,
        None => {
            return None;
        },
    };
    let ghost all = changes.deep_view();
    let mut rows: Vec<Row> = Vec::new();
    let mut i: usize = 0;
    assert(all.take(0) == Seq::<Seq<LineChangeView>>::empty());
    assert(rows.deep_view() == rows_of(
        Seq::empty(),
        old_tokens.deep_view(),
        new_tokens.deep_view(),
    ));
    while i < changes.len()
        invariant
            all == changes.deep_view(),
            i <= changes@.len(),
            rows.deep_view() == rows_of(
                text::joined(all.take(i as int)),
                old_tokens.deep_view(),
                new_tokens.deep_view(),
            ),
        decreases changes@.len() - i,
    {
        let ghost before = text::joined(all.take(i as int));
        push_rows(&mut rows, &changes[i], old_tokens, new_tokens);
        assert(all.take(i + 1).drop_last() == all.take(i as int));
        assert(all.take(i + 1).last() == changes@[i as int].deep_view());
        assert(rows_of(before, old_tokens.deep_view(), new_tokens.deep_view()) + rows_of(
            changes@[i as int].deep_view(),
            old_tokens.deep_view(),
            new_tokens.deep_view(),
        ) == rows_of(
            before + changes@[i as int].deep_view(),
            old_tokens.deep_view(),
            new_tokens.deep_view(),
        ));
        i = i + 1;
    }
    assert(all.take(all.len() as int) == all);
    Some(Hunk { header, rows })
}

/// What a difference is made of.
pub struct Input<'a> {
    pub path: &'a str,
    pub old_path: Option<&'a str>,
    pub status: Status,
    pub additions: u32,
    pub deletions: u32,
    /// `None` when the file does not exist on that side.
    pub old_text: Option<&'a str>,
    pub new_text: Option<&'a str>,
    pub binary: bool,
}

/// What a difference is made of, as specifications see it.
#[verifier::ext_equal]
pub struct InputView {
    pub path: Text,
    pub old_path: Option<Text>,
    pub status: Status,
    pub additions: u32,
    pub deletions: u32,
    pub old_text: Option<Text>,
    pub new_text: Option<Text>,
    pub binary: bool,
}

impl<'a> DeepView for Input<'a> {
    type V = InputView;

    open spec fn deep_view(&self) -> InputView {
        InputView {
            path: self.path@,
            old_path: self.old_path.deep_view(),
            status: self.status,
            additions: self.additions,
            deletions: self.deletions,
            old_text: self.old_text.deep_view(),
            new_text: self.new_text.deep_view(),
            binary: self.binary,
        }
    }
}

/// The path that a file had on the base side.
pub open spec fn base_path_of(input: InputView) -> Text {
    match input.old_path {
        Some(path) => path,
        None => input.path,
    }
}

/// The text of a side; empty where the file is not there.
pub open spec fn side_text(side: Option<Text>) -> Text {
    match side {
        Some(s) => s,
        None => Seq::empty(),
    }
}

/// What there is to show of a difference.
pub open spec fn state_of(input: InputView) -> State {
    if input.binary {
        State::Binary
    } else if input.old_text is None && input.new_text is None {
        State::Missing
    } else if side_text(input.old_text) == side_text(input.new_text) {
        State::Identical
    } else {
        State::Rendered
    }
}

/// The name of the language of either path, the new one first.
pub open spec fn diff_language(set: syntect::parsing::SyntaxSet, input: InputView) -> Option<Text> {
    match highlight::language_of(set, input.path) {
        Some(name) => Some(name),
        None => highlight::language_of(set, base_path_of(input)),
    }
}

/// The difference of a file with the given hunks.
pub open spec fn diff_of(
    set: syntect::parsing::SyntaxSet,
    input: InputView,
    hunks: Seq<HunkView>,
) -> FileDiffView {
    FileDiffView {
        path: input.path,
        old_path: input.old_path,
        status: input.status,
        language: diff_language(set, input),
        additions: input.additions,
        deletions: input.deletions,
        state: state_of(input),
        hunks,
    }
}

/// The groups of steps that are shown: those around the changes, or one of all steps.
pub open spec fn shown_groups(ops: Seq<LineOp>, context: Context) -> Seq<Seq<LineOp>> {
    match context {
        Context::Full => seq![ops],
        Context::Lines(radius) => line_diff::grouped(ops, radius as int),
    }
}

/// Whether `changes` are the lines of each step of a group.
pub open spec fn are_group_changes(
    changes: Seq<Seq<LineChangeView>>,
    group: Seq<LineOp>,
    old_lines: Seq<Text>,
    new_lines: Seq<Text>,
) -> bool {
    &&& changes.len() == group.len()
    &&& forall|i: int|
        0 <= i < group.len() ==> line_diff::are_changes(
            #[trigger] changes[i],
            group[i],
            old_lines,
            new_lines,
        )
}

/// Whether `changes` are the lines of each step of each group.
pub open spec fn are_all_changes(
    changes: Seq<Seq<Seq<LineChangeView>>>,
    groups: Seq<Seq<LineOp>>,
    old_lines: Seq<Text>,
    new_lines: Seq<Text>,
) -> bool {
    &&& changes.len() == groups.len()
    &&& forall|i: int|
        0 <= i < groups.len() ==> are_group_changes(
            #[trigger] changes[i],
            groups[i],
            old_lines,
            new_lines,
        )
}

/// The hunks of the groups, given the lines of each step.
pub open spec fn hunks_of(
    groups: Seq<Seq<LineOp>>,
    changes: Seq<Seq<Seq<LineChangeView>>>,
    old_tokens: Seq<Seq<TokenView>>,
    new_tokens: Seq<Seq<TokenView>>,
) -> Seq<HunkView> {
    Seq::new(
        groups.len(),
        |i: int| hunk_of(groups[i], changes[i], old_tokens, new_tokens)->0,
    )
}

/// Whether `hunks` show the difference of two texts, for some refinement of its lines.
pub open spec fn are_hunks(
    hunks: Seq<HunkView>,
    old_text: Text,
    new_text: Text,
    context: Context,
    old_tokens: Seq<Seq<TokenView>>,
    new_tokens: Seq<Seq<TokenView>>,
) -> bool {
    let old_lines = line_diff::ended_lines(old_text);
    let new_lines = line_diff::ended_lines(new_text);
    let groups = shown_groups(line_diff::histogram_ops(old_lines, new_lines), context);
    exists|changes: Seq<Seq<Seq<LineChangeView>>>| #[trigger]
        are_all_changes(changes, groups, old_lines, new_lines) && hunks == hunks_of(
            groups,
            changes,
            old_tokens,
            new_tokens,
        )
}

/// A chain of steps leads forward on both sides.
pub proof fn lemma_chain_forward(
    ops: Seq<LineOp>,
    old_lines: Seq<Text>,
    new_lines: Seq<Text>,
    i: int,
)
    requires
        line_diff::is_chain(ops),
        forall|k: int|
            0 <= k < ops.len() ==> line_diff::is_op(#[trigger] ops[k], old_lines, new_lines),
        0 <= i < ops.len(),
    ensures
        ops[0].old_start <= ops[i].old_start <= ops[i].old_end,
        ops[0].new_start <= ops[i].new_start <= ops[i].new_end,
    decreases i,
{
    assert(line_diff::is_op(ops[i], old_lines, new_lines));
    if i > 0 {
        lemma_chain_forward(ops, old_lines, new_lines, i - 1);
        assert(ops[i].old_start == ops[i - 1].old_end);
    }
}

/// The lines of the steps of a group.
fn group_changes(diff: &LineDiff, group: &Vec<DiffOp>, options: &InlineChangeOptions) -> (changes:
    Vec<Vec<LineChange>>)
    requires
        line_diff::refines_by(*options) is Words && line_diff::cleans_up(*options),
        forall|i: int|
            0 <= i < group@.len() ==> line_diff::is_op(
                #[trigger] line_diff::ops_view(group@)[i],
                line_diff::diff_old_lines(*diff),
                line_diff::diff_new_lines(*diff),
            ),
    ensures
        are_group_changes(
            changes.deep_view(),
            line_diff::ops_view(group@),
            line_diff::diff_old_lines(*diff),
            line_diff::diff_new_lines(*diff),
        ),
{
    let ghost ops = line_diff::ops_view(group@);
    let mut changes: Vec<Vec<LineChange>> = Vec::new();
    let mut i: usize = 0;
    while i < group.len()
        invariant
            line_diff::refines_by(*options) is Words && line_diff::cleans_up(*options),
            ops == line_diff::ops_view(group@),
            i <= group@.len(),
            forall|k: int|
                0 <= k < ops.len() ==> line_diff::is_op(
                    #[trigger] ops[k],
                    line_diff::diff_old_lines(*diff),
                    line_diff::diff_new_lines(*diff),
                ),
            changes@.len() == i,
            forall|k: int|
                0 <= k < i ==> line_diff::are_changes(
                    #[trigger] changes.deep_view()[k],
                    ops[k],
                    line_diff::diff_old_lines(*diff),
                    line_diff::diff_new_lines(*diff),
                ),
        decreases group@.len() - i,
    {
        let ghost before = changes.deep_view();
        assert(ops[i as int] == line_diff::op_view(group@[i as int]));
        let lines = diff.changes(&group[i], options);
        changes.push(lines);
        assert(changes.deep_view() == before.push(lines.deep_view()));
        i = i + 1;
    }
    changes
}

/// Word level refinement reads better than the character level default.
fn inline_options() -> (options: InlineChangeOptions)
    ensures
        line_diff::refines_by(options) is Words,
        line_diff::cleans_up(options),
{
    line_diff::refinement_options(Refinement::Words, true)
}

/// Whether a group is not empty, goes on from step to step, and says what is so.
pub open spec fn is_sound(group: Seq<LineOp>, old_lines: Seq<Text>, new_lines: Seq<Text>) -> bool {
    &&& group.len() > 0
    &&& line_diff::is_chain(group)
    &&& line_diff::are_ops(group, old_lines, new_lines)
}

/// Whether what is shown of a difference is sound: its steps lead from the old lines to the new,
/// each group of them goes on from step to step and starts behind the one before it, every
/// change is in a group, and of the unchanged lines just those are that the context asks for.
#[verifier::opaque]
pub open spec fn shows_every_change(
    ops: Seq<LineOp>,
    context: Context,
    old_lines: Seq<Text>,
    new_lines: Seq<Text>,
) -> bool {
    let groups = shown_groups(ops, context);
    &&& line_diff::leads(ops, old_lines, new_lines)
    &&& forall|i: int| 0 <= i < groups.len() ==> is_sound(#[trigger] groups[i], old_lines, new_lines)
    &&& line_diff::in_order(groups)
    &&& line_diff::edits(text::joined(groups)) == line_diff::edits(ops)
    &&& context matches Context::Lines(radius) ==> {
        &&& forall|i: int|
            0 <= i < groups.len() ==> line_diff::is_group(
                #[trigger] groups[i],
                old_lines,
                new_lines,
            )
        &&& line_diff::edits(ops).len() > 0 ==> text::joined(groups) == text::joined(
            line_diff::shown_parts(ops, radius as int),
        )
    }
}

/// Finds the groups of steps that are shown.
fn find_groups(diff: &LineDiff, context: Context) -> (groups: Vec<Vec<DiffOp>>)
    requires
        line_diff::leads(
            line_diff::diff_ops(*diff),
            line_diff::diff_old_lines(*diff),
            line_diff::diff_new_lines(*diff),
        ),
        line_diff::diff_ops(*diff).len() > 0,
        context matches Context::Lines(radius) ==> 2 * radius <= usize::MAX,
    ensures
        line_diff::groups_view(groups@) == shown_groups(line_diff::diff_ops(*diff), context),
        shows_every_change(
            line_diff::diff_ops(*diff),
            context,
            line_diff::diff_old_lines(*diff),
            line_diff::diff_new_lines(*diff),
        ),
        forall|i: int|
            0 <= i < groups@.len() ==> is_sound(
                #[trigger] line_diff::groups_view(groups@)[i],
                line_diff::diff_old_lines(*diff),
                line_diff::diff_new_lines(*diff),
            ),
{
    proof {
        reveal(shows_every_change);
    }
    match context {
        Context::Full => {
            let mut one: Vec<Vec<DiffOp>> = Vec::new();
            one.push(diff.ops());
            proof {
                let ops = line_diff::diff_ops(*diff);
                assert(line_diff::groups_view(one@) == seq![ops]);
                reveal_with_fuel(text::joined, 2);
                assert(seq![ops].drop_last() == Seq::<Seq<LineOp>>::empty());
                assert(text::joined(seq![ops]) == ops);
            }
            one
        },
        Context::Lines(radius) => {
            let groups = diff.grouped_ops(radius);
            proof {
                groups::law_groups_hold_every_change(
                    line_diff::diff_ops(*diff),
                    radius as int,
                    line_diff::diff_old_lines(*diff),
                    line_diff::diff_new_lines(*diff),
                );
            }
            groups
        },
    }
}

/// Makes the hunk of a group, for some refinement of its lines. One without steps has none.
fn group_hunk(
    diff: &LineDiff,
    group: &Vec<DiffOp>,
    options: &InlineChangeOptions,
    old_tokens: &Vec<Vec<Token>>,
    new_tokens: &Vec<Vec<Token>>,
) -> (r: (Option<Hunk>, Ghost<Seq<Seq<LineChangeView>>>))
    requires
        line_diff::refines_by(*options) is Words && line_diff::cleans_up(*options),
        is_sound(
            line_diff::ops_view(group@),
            line_diff::diff_old_lines(*diff),
            line_diff::diff_new_lines(*diff),
        ),
    ensures
        are_group_changes(
            r.1@,
            line_diff::ops_view(group@),
            line_diff::diff_old_lines(*diff),
            line_diff::diff_new_lines(*diff),
        ),
        hunk_of(
            line_diff::ops_view(group@),
            r.1@,
            old_tokens.deep_view(),
            new_tokens.deep_view(),
        ) == r.0.deep_view(),
{
    let changes = group_changes(diff, group, options);
    proof {
        lemma_chain_forward(
            line_diff::ops_view(group@),
            line_diff::diff_old_lines(*diff),
            line_diff::diff_new_lines(*diff),
            group@.len() - 1,
        );
    }
    let made = hunk(group.as_slice(), &changes, old_tokens, new_tokens);
    (made, Ghost(changes.deep_view()))
}

/// Makes the hunks of the difference of two texts.
fn build_hunks(
    old_text: &str,
    new_text: &str,
    context: Context,
    old_tokens: &Vec<Vec<Token>>,
    new_tokens: &Vec<Vec<Token>>,
) -> (hunks: Vec<Hunk>)
    requires
        old_text@ != new_text@,
        context matches Context::Lines(radius) ==> 2 * radius <= usize::MAX,
    ensures
        are_hunks(
            hunks.deep_view(),
            old_text@,
            new_text@,
            context,
            old_tokens.deep_view(),
            new_tokens.deep_view(),
        ),
        shows_every_change(
            line_diff::histogram_ops(
                line_diff::ended_lines(old_text@),
                line_diff::ended_lines(new_text@),
            ),
            context,
            line_diff::ended_lines(old_text@),
            line_diff::ended_lines(new_text@),
        ),
{
    let diff = LineDiff::find(old_text, new_text, LineAlgorithm::Histogram);
    let ghost old_lines = line_diff::diff_old_lines(diff);
    let ghost new_lines = line_diff::diff_new_lines(diff);
    proof {
        line_diff::law_ended_lines(old_text@);
        line_diff::law_ended_lines(new_text@);
    }
    let groups = find_groups(&diff, context);
    let ghost shown = line_diff::groups_view(groups@);
    let options = inline_options();
    let mut hunks: Vec<Hunk> = Vec::new();
    let ghost mut all: Seq<Seq<Seq<LineChangeView>>> = Seq::empty();
    let mut i: usize = 0;
    while i < groups.len()
        invariant
            old_lines == line_diff::diff_old_lines(diff),
            new_lines == line_diff::diff_new_lines(diff),
            shown == line_diff::groups_view(groups@),
            line_diff::refines_by(options) is Words && line_diff::cleans_up(options),
            i <= groups@.len(),
            forall|k: int|
                0 <= k < shown.len() ==> is_sound(#[trigger] shown[k], old_lines, new_lines),
            all.len() == i,
            hunks@.len() == i,
            forall|k: int|
                0 <= k < i ==> are_group_changes(
                    #[trigger] all[k],
                    shown[k],
                    old_lines,
                    new_lines,
                ),
            forall|k: int|
                0 <= k < i ==> hunk_of(
                    shown[k],
                    all[k],
                    old_tokens.deep_view(),
                    new_tokens.deep_view(),
                ) == Some((#[trigger] hunks@[k]).deep_view()),
        decreases groups@.len() - i,
    {
        assert(shown[i as int] == line_diff::ops_view(groups@[i as int]@));
        let (made, Ghost(changes)) = group_hunk(&diff, &groups[i], &options, old_tokens, new_tokens);
        assert(made is Some);
        if let Some(made) = made {
            hunks.push(made);
        }
        proof {
            all = all.push(changes);
        }
        i = i + 1;
    }
    assert(are_all_changes(all, shown, old_lines, new_lines));
    assert(hunks.deep_view() == hunks_of(
        shown,
        all,
        old_tokens.deep_view(),
        new_tokens.deep_view(),
    ));
    hunks
}

/// Whether `file` is the difference of a file: headed as it should be, without hunks where there
/// is nothing to show, and else with hunks that show every change, for some refinement of the
/// lines.
pub open spec fn is_diff(
    file: FileDiffView,
    set: syntect::parsing::SyntaxSet,
    rules: Seq<(Seq<Text>, Text)>,
    input: InputView,
    context: Context,
) -> bool {
    let old_text = side_text(input.old_text);
    let new_text = side_text(input.new_text);
    &&& file == diff_of(set, input, file.hunks)
    &&& file.state != State::Rendered ==> file.hunks.len() == 0
    &&& file.state == State::Rendered ==> are_hunks(
        file.hunks,
        old_text,
        new_text,
        context,
        highlight::tokenized(set, rules, base_path_of(input), old_text),
        highlight::tokenized(set, rules, input.path, new_text),
    )
    &&& file.state == State::Rendered ==> shows_every_change(
        line_diff::histogram_ops(
            line_diff::ended_lines(old_text),
            line_diff::ended_lines(new_text),
        ),
        context,
        line_diff::ended_lines(old_text),
        line_diff::ended_lines(new_text),
    )
}

/// Renders the difference of one file. Which parts of a replaced line are emphasised is left to
/// the refinement.
pub fn build(highlighter: &Highlighter, input: Input<'_>, context: Context) -> (file: FileDiff)
    requires
        context matches Context::Lines(radius) ==> 2 * radius <= usize::MAX,
    ensures
        is_diff(
            file.deep_view(),
            highlighter.set(),
            highlighter.rules(),
            input.deep_view(),
            context,
        ),
        highlight::follow_table(highlighter.rules()),
{
    proof {
        reveal_strlit("");
    }
    assert(""@ == Seq::<char>::empty());
    let base_path = match input.old_path {
        Some(path) => path,
        None => input.path,
    };
    let language = match highlighter.language(input.path) {
        Some(name) => Some(name),
        None => highlighter.language(base_path),
    };
    let old_path = match input.old_path {
        Some(path) => Some(path.to_owned()),
        None => None,
    };
    let mut file = FileDiff {
        path: input.path.to_owned(),
        old_path,
        status: input.status,
        language,
        additions: input.additions,
        deletions: input.deletions,
        state: State::Rendered,
        hunks: Vec::new(),
    };
    assert(file.hunks.deep_view() == Seq::<HunkView>::empty());
    if input.binary {
        file.state = State::Binary;
        return file;
    }
    let old_text = match input.old_text {
        Some(old_text) => old_text,
        None => {
            if input.new_text.is_none() {
                file.state = State::Missing;
                return file;
            }
            ""
        },
    };
    let new_text = match input.new_text {
        Some(new_text) => new_text,
        None => "",
    };
    if text::same(old_text, new_text) {
        file.state = State::Identical;
        return file;
    }
    let old_tokens = highlighter.tokenize(base_path, old_text);
    let new_tokens = highlighter.tokenize(input.path, new_text);
    file.hunks = build_hunks(old_text, new_text, context, &old_tokens, &new_tokens);
    file
}

/// The lines of a file, each rendered without its line ending. A newline at the end of the file
/// starts no line.
pub open spec fn view_lines(file: Text, tokens: Seq<Seq<TokenView>>) -> Seq<Text> {
    let parts = text::split_on(file, '\n');
    let all = Seq::new(
        parts.len(),
        |i: int|
            render::rendered(
                text::without_trailing(parts[i], '\r'),
                tokens_at(tokens, Some(i as usize)),
                Seq::empty(),
            ),
    );
    if file.len() > 0 && file.last() == '\n' {
        all.drop_last()
    } else {
        all
    }
}

/// A whole file, highlighted. One that is not text is binary, and only one that is not there is
/// missing.
pub open spec fn view_of(
    set: syntect::parsing::SyntaxSet,
    rules: Seq<(Seq<Text>, Text)>,
    path: Text,
    file: Option<Text>,
    binary: bool,
) -> FileViewView {
    let (state, lines) = if binary {
        (State::Binary, Seq::empty())
    } else {
        match file {
            None => (State::Missing, Seq::empty()),
            Some(content) => (
                State::Rendered,
                view_lines(content, highlight::tokenized(set, rules, path, content)),
            ),
        }
    };
    FileViewView { path, language: highlight::language_of(set, path), state, lines }
}

/// Tells whether a text ends in a newline.
fn ends_line(s: &str) -> (r: bool)
    ensures
        r == (s@.len() > 0 && s@.last() == '\n'),
{
    let chars = text::chars_of(s);
    let n = chars.len();
    n > 0 && chars[n - 1] == '\n'
}

/// Renders a whole file for the browse pane.
pub fn view(highlighter: &Highlighter, path: &str, file: Option<&str>, binary: bool) -> (view:
    FileView)
    ensures
        view.deep_view() == view_of(
            highlighter.set(),
            highlighter.rules(),
            path@,
            file.deep_view(),
            binary,
        ),
        highlight::follow_table(highlighter.rules()),
{
    let mut view = FileView {
        path: path.to_owned(),
        language: highlighter.language(path),
        state: State::Rendered,
        lines: Vec::new(),
    };
    assert(view.lines.deep_view() == Seq::<Text>::empty());
    if binary {
        view.state = State::Binary;
        return view;
    }
    let content = match file {
        Some(content) => content,
        None => {
            view.state = State::Missing;
            return view;
        },
    };
    let tokens = highlighter.tokenize(path, content);
    let parts = text::split(content, '\n');
    let none: Vec<(usize, usize)> = Vec::new();
    assert(none@ == Seq::<(usize, usize)>::empty());
    let ghost all = Seq::new(
        parts.deep_view().len(),
        |i: int|
            render::rendered(
                text::without_trailing(parts.deep_view()[i], '\r'),
                tokens_at(tokens.deep_view(), Some(i as usize)),
                Seq::empty(),
            ),
    );
    let mut lines: Vec<String> = Vec::new();
    let mut i: usize = 0;
    while i < parts.len()
        invariant
            i <= parts@.len(),
            none@ == Seq::<(usize, usize)>::empty(),
            all.len() == parts@.len(),
            forall|k: int|
                0 <= k < parts@.len() ==> #[trigger] all[k] == render::rendered(
                    text::without_trailing(parts@[k]@, '\r'),
                    tokens_at(tokens.deep_view(), Some(k as usize)),
                    Seq::empty(),
                ),
            lines.deep_view() == all.take(i as int),
        decreases parts@.len() - i,
    {
        let ghost before = lines.deep_view();
        let trimmed = text::trim_end_matches(parts[i].as_str(), '\r');
        let html = render::render_line(
            trimmed.as_str(),
            line_tokens(&tokens, Some(i)),
            none.as_slice(),
        );
        assert(html@ == all[i as int]);
        lines.push(html);
        assert(lines.deep_view() == before.push(all[i as int]));
        assert(all.take(i + 1) == all.take(i as int).push(all[i as int]));
        i = i + 1;
    }
    assert(all.take(all.len() as int) == all);
    if ends_line(content) {
        proof {
            text::law_split_join(content@, '\n');
        }
        let last = lines.pop();
        assert(lines.deep_view() == all.drop_last());
    }
    assert(lines.deep_view() == view_lines(content@, tokens.deep_view()));
    view.lines = lines;
    view
}

} // verus!
