//! Differences between two texts, line by line, as similar finds them.

use std::ops::Range;

use vstd::prelude::*;

use similar::{Algorithm, ChangeTag, DiffOp, InlineChangeMode, InlineChangeOptions, TextDiff};

use crate::text;
#[allow(unused_imports)]
use crate::text::Text;

verus! {

broadcast use vstd::seq_lib::group_seq_properties;

/// Trusted: `similar::DiffOp`, one step of a difference.
#[verifier::external_type_specification]
#[verifier::external_body]
pub struct ExDiffOp(DiffOp);

/// Trusted: `similar::InlineChangeOptions`, how replaced lines are refined.
#[verifier::external_type_specification]
#[verifier::external_body]
pub struct ExInlineChangeOptions(InlineChangeOptions);

/// What a step does.
pub enum OpKind {
    /// The lines are the same on both sides.
    Equal,
    /// Lines of the old side are gone.
    Delete,
    /// Lines of the new side were not there.
    Insert,
    /// Lines of the old side gave way to lines of the new.
    Replace,
}

/// A step as specifications see it: what it does, and to which lines of either side.
pub struct LineOp {
    pub kind: OpKind,
    pub old_start: int,
    pub old_end: int,
    pub new_start: int,
    pub new_end: int,
}

/// What a step holds.
pub uninterp spec fn op_view(op: DiffOp) -> LineOp;

/// What the steps hold.
pub open spec fn ops_view(ops: Seq<DiffOp>) -> Seq<LineOp> {
    ops.map_values(|op: DiffOp| op_view(op))
}

/// What the groups of steps hold.
pub open spec fn groups_view(groups: Seq<Vec<DiffOp>>) -> Seq<Seq<LineOp>> {
    groups.map_values(|group: Vec<DiffOp>| ops_view(group@))
}

/// The steps that the histogram algorithm finds from the old lines to the new.
pub uninterp spec fn histogram_ops(old_lines: Seq<Seq<char>>, new_lines: Seq<Seq<char>>) -> Seq<
    LineOp,
>;

/// How the steps between two texts are found.
pub enum LineAlgorithm {
    Myers,
    RawMyers,
    Patience,
    Lcs,
    Hunt,
    Histogram,
}

/// By what replaced lines are refined.
pub enum Refinement {
    /// What similar takes by itself.
    Auto,
    /// Runs of white space, and of anything else.
    Words,
    /// Single characters.
    Chars,
}

/// By what replaced lines are refined.
pub uninterp spec fn refines_by(options: InlineChangeOptions) -> Refinement;

/// Whether refined changes are moved to where they read well.
pub uninterp spec fn cleans_up(options: InlineChangeOptions) -> bool;

/// The lines of a text, each with what ends it: a newline, a carriage return, or the one
/// behind the other.
pub open spec fn ended_lines(s: Text) -> Seq<Text>
    decreases s.len(),
{
    if s.len() == 0 {
        Seq::empty()
    } else {
        let lines = ended_lines(s.drop_last());
        let c = s.last();
        if lines.len() == 0 || lines.last().last() == '\n' || (lines.last().last() == '\r' && c
            != '\n') {
            lines.push(seq![c])
        } else {
            lines.drop_last().push(lines.last().push(c))
        }
    }
}

/// Cutting a text into such lines loses nothing, and none of them is empty.
pub proof fn law_ended_lines(s: Text)
    ensures
        text::joined(ended_lines(s)) == s,
        forall|i: int| 0 <= i < ended_lines(s).len() ==> (#[trigger] ended_lines(s)[i]).len() > 0,
    decreases s.len(),
{
    if s.len() > 0 {
        let all = ended_lines(s);
        let lines = ended_lines(s.drop_last());
        law_ended_lines(s.drop_last());
        if lines.len() == 0 || lines.last().last() == '\n' || (lines.last().last() == '\r'
            && s.last() != '\n') {
            assert(all.drop_last() == lines);
            assert(text::joined(all) == s);
        } else {
            assert(all.drop_last() == lines.drop_last());
            assert(text::joined(all) == text::joined(lines).push(s.last()));
            assert(text::joined(all) == s);
        }
    }
}

/// Whether a step speaks of lines that are there, and says what is so of them. One that changes
/// something has a line to change.
pub open spec fn is_op(op: LineOp, old_lines: Seq<Text>, new_lines: Seq<Text>) -> bool {
    &&& 0 <= op.old_start <= op.old_end <= old_lines.len()
    &&& 0 <= op.new_start <= op.new_end <= new_lines.len()
    &&& op.kind is Equal ==> old_lines.subrange(op.old_start, op.old_end) == new_lines.subrange(
        op.new_start,
        op.new_end,
    )
    &&& op.kind is Delete ==> op.new_start == op.new_end
    &&& op.kind is Insert ==> op.old_start == op.old_end
    &&& !(op.kind is Equal) ==> op.old_start < op.old_end || op.new_start < op.new_end
}

/// Whether each step goes on where the one before it ended.
pub open spec fn is_chain(ops: Seq<LineOp>) -> bool {
    forall|i: int, j: int|
        0 <= i && j == i + 1 && j < ops.len() ==> (#[trigger] ops[j]).old_start == (
        #[trigger] ops[i]).old_end && ops[j].new_start == ops[i].new_end
}

/// Whether the steps lead from the old lines to the new: each says what is so, and together
/// they go through every line of both sides once and in order. Unchanged lines that follow one
/// another are in one step.
pub open spec fn leads(ops: Seq<LineOp>, old_lines: Seq<Text>, new_lines: Seq<Text>) -> bool {
    &&& forall|i: int| 0 <= i < ops.len() ==> is_op(#[trigger] ops[i], old_lines, new_lines)
    &&& is_chain(ops)
    &&& forall|i: int, j: int|
        0 <= i && j == i + 1 && j < ops.len() ==> !((#[trigger] ops[i]).kind is Equal && (
        #[trigger] ops[j]).kind is Equal)
    &&& ops.len() == 0 ==> old_lines.len() == 0 && new_lines.len() == 0
    &&& ops.len() > 0 ==> ops[0].old_start == 0 && ops[0].new_start == 0 && ops.last().old_end
        == old_lines.len() && ops.last().new_end == new_lines.len()
}

/// The steps that change something.
pub open spec fn edits(ops: Seq<LineOp>) -> Seq<LineOp> {
    ops.filter(|op: LineOp| !(op.kind is Equal))
}

/// The first `n` lines of a step over unchanged lines, or all where there are fewer.
pub open spec fn first_lines(op: LineOp, n: int) -> LineOp {
    let k = if n < op.old_end - op.old_start {
        n
    } else {
        op.old_end - op.old_start
    };
    LineOp { old_end: op.old_start + k, new_end: op.new_start + k, ..op }
}

/// The last `n` lines of a step over unchanged lines, or all where there are fewer.
pub open spec fn last_lines(op: LineOp, n: int) -> LineOp {
    let k = if n < op.old_end - op.old_start {
        n
    } else {
        op.old_end - op.old_start
    };
    LineOp { old_start: op.old_end - k, new_start: op.new_end - k, ..op }
}

/// What is left of a step when unchanged lines are shown only where a change is no more than
/// `radius` lines away: all of a change, and the ends of unchanged lines that are next to one.
pub open spec fn shown_part(ops: Seq<LineOp>, i: int, radius: int) -> Seq<LineOp> {
    let op = ops[i];
    if !(op.kind is Equal) {
        seq![op]
    } else if i == 0 {
        seq![last_lines(op, radius)]
    } else if i == ops.len() - 1 {
        seq![first_lines(op, radius)]
    } else if op.old_end - op.old_start <= 2 * radius {
        seq![op]
    } else {
        seq![first_lines(op, radius), last_lines(op, radius)]
    }
}

/// What is left of each step.
pub open spec fn shown_parts(ops: Seq<LineOp>, radius: int) -> Seq<Seq<LineOp>> {
    Seq::new(ops.len(), |i: int| shown_part(ops, i, radius))
}

/// The first `k` steps in groups, of which the last may go on: one ends within each step over
/// unchanged lines of which only the ends are left, and the next starts there.
pub open spec fn grouped_steps(ops: Seq<LineOp>, radius: int, k: int) -> Seq<Seq<LineOp>>
    decreases k,
{
    if k <= 0 {
        seq![Seq::empty()]
    } else {
        let before = grouped_steps(ops, radius, k - 1);
        let part = shown_part(ops, k - 1, radius);
        if part.len() == 2 {
            before.drop_last().push(before.last().push(part[0])).push(seq![part[1]])
        } else {
            before.drop_last().push(before.last() + part)
        }
    }
}

/// The steps in groups around what is left out; none where nothing changes.
pub open spec fn grouped(ops: Seq<LineOp>, radius: int) -> Seq<Seq<LineOp>> {
    if edits(ops).len() == 0 {
        Seq::empty()
    } else {
        grouped_steps(ops, radius, ops.len() as int)
    }
}

/// Whether each of the steps says what is so.
pub open spec fn are_ops(ops: Seq<LineOp>, old_lines: Seq<Text>, new_lines: Seq<Text>) -> bool {
    forall|i: int| 0 <= i < ops.len() ==> is_op(#[trigger] ops[i], old_lines, new_lines)
}

/// Whether one of the steps changes something.
pub open spec fn has_change(ops: Seq<LineOp>) -> bool {
    exists|i: int| 0 <= i < ops.len() && !((#[trigger] ops[i]).kind is Equal)
}

/// Whether a group of steps says what is so, goes on from step to step, and changes something.
pub open spec fn is_group(group: Seq<LineOp>, old_lines: Seq<Text>, new_lines: Seq<Text>) -> bool {
    &&& group.len() > 0
    &&& are_ops(group, old_lines, new_lines)
    &&& is_chain(group)
    &&& has_change(group)
}

/// Whether each group starts behind the one before it, on both sides.
pub open spec fn in_order(groups: Seq<Seq<LineOp>>) -> bool {
    forall|i: int, j: int|
        0 <= i && j == i + 1 && j < groups.len() ==> (#[trigger] groups[i]).last().old_end <= (
        #[trigger] groups[j])[0].old_start && groups[i].last().new_end <= groups[j][0].new_start
}

/// Whether a line stays, is gone, or is new.
#[derive(Clone, Copy, PartialEq, Eq, Structural)]
pub enum LineTag {
    Equal,
    Delete,
    Insert,
}

/// One line of a difference, in parts that were refined as changed or not.
pub struct LineChange {
    pub tag: LineTag,
    pub old_index: Option<usize>,
    pub new_index: Option<usize>,
    pub values: Vec<(bool, String)>,
    pub missing_newline: bool,
}

/// A line of a difference as specifications see it.
#[verifier::ext_equal]
pub struct LineChangeView {
    pub tag: LineTag,
    pub old_index: Option<usize>,
    pub new_index: Option<usize>,
    pub values: Seq<(bool, Text)>,
    pub missing_newline: bool,
}

impl DeepView for LineChange {
    type V = LineChangeView;

    open spec fn deep_view(&self) -> LineChangeView {
        LineChangeView {
            tag: self.tag,
            old_index: self.old_index,
            new_index: self.new_index,
            values: self.values.deep_view(),
            missing_newline: self.missing_newline,
        }
    }
}

/// The text that the parts of a line make up.
pub open spec fn text_of_values(values: Seq<(bool, Text)>) -> Text
    decreases values.len(),
{
    if values.len() == 0 {
        Seq::empty()
    } else {
        text_of_values(values.drop_last()) + values.last().1
    }
}

/// Whether nothing ends a line.
pub open spec fn lacks_newline(line: Text) -> bool {
    line.len() > 0 && line.last() != '\n' && line.last() != '\r'
}

/// Whether `change` is the line `line` of a difference, at the given places of the two sides.
pub open spec fn is_change(
    change: LineChangeView,
    tag: LineTag,
    old_index: Option<int>,
    new_index: Option<int>,
    line: Text,
) -> bool {
    &&& change.tag == tag
    &&& old_index == match change.old_index {
        Some(i) => Some(i as int),
        None => None,
    }
    &&& new_index == match change.new_index {
        Some(i) => Some(i as int),
        None => None,
    }
    &&& text_of_values(change.values) == line
    &&& change.missing_newline == lacks_newline(line)
}

/// Whether nothing in a text ends a line.
pub open spec fn is_inner(s: Text) -> bool {
    !s.contains('\n') && !s.contains('\r')
}

/// Whether `changes` are the lines of a step: those of the old side, gone or staying, and
/// behind them those that are new. Only in replaced lines are parts refined as changed, and none
/// of these is empty or holds what ends the line.
pub open spec fn are_changes(
    changes: Seq<LineChangeView>,
    op: LineOp,
    old_lines: Seq<Text>,
    new_lines: Seq<Text>,
) -> bool {
    let gone = op.old_end - op.old_start;
    let added = if op.kind is Equal {
        0
    } else {
        op.new_end - op.new_start
    };
    &&& changes.len() == gone + added
    &&& forall|i: int|
        0 <= i < gone ==> is_change(
            #[trigger] changes[i],
            if op.kind is Equal {
                LineTag::Equal
            } else {
                LineTag::Delete
            },
            Some(op.old_start + i),
            if op.kind is Equal {
                Some(op.new_start + i)
            } else {
                None
            },
            old_lines[op.old_start + i],
        )
    &&& forall|i: int|
        gone <= i < gone + added ==> is_change(
            #[trigger] changes[i],
            LineTag::Insert,
            None,
            Some(op.new_start + (i - gone)),
            new_lines[op.new_start + (i - gone)],
        )
    &&& !(op.kind is Replace) ==> forall|i: int|
        0 <= i < changes.len() ==> (#[trigger] changes[i]).values.len() == 1
            && !changes[i].values[0].0
    &&& forall|i: int, j: int|
        0 <= i < changes.len() && 0 <= j < changes[i].values.len() && (
        #[trigger] changes[i].values[j]).0 ==> changes[i].values[j].1.len() > 0 && is_inner(
            changes[i].values[j].1,
        )
}

/// Trusted: `DiffOp::old_range` gives the lines of the old side.
pub assume_specification[ DiffOp::old_range ](op: &DiffOp) -> (r: Range<usize>)
    ensures
        r.start == op_view(*op).old_start,
        r.end == op_view(*op).old_end,
;

/// Trusted: `DiffOp::new_range` gives the lines of the new side.
pub assume_specification[ DiffOp::new_range ](op: &DiffOp) -> (r: Range<usize>)
    ensures
        r.start == op_view(*op).new_start,
        r.end == op_view(*op).new_end,
;

/// Trusted: `InlineChangeOptions::new`, with the given mode and semantic cleanup or not.
#[verifier::external_body]
pub(crate) fn refinement_options(by: Refinement, cleanup: bool) -> (options: InlineChangeOptions)
    ensures
        refines_by(options) == by,
        cleans_up(options) == cleanup,
{
    let mode = match by {
        Refinement::Auto => InlineChangeMode::Auto,
        Refinement::Words => InlineChangeMode::Words,
        Refinement::Chars => InlineChangeMode::Chars,
    };
    let mut options = InlineChangeOptions::new();
    options.mode(mode).semantic_cleanup(cleanup);
    options
}

/// Trusted: `similar::TextDiff` over lines. Its type cannot be declared, because of the trait
/// that bounds its parameter.
#[verifier::external_body]
pub struct LineDiff<'a> {
    diff: TextDiff<'a, 'a, str>,
}

/// The lines of the old side.
pub uninterp spec fn diff_old_lines(diff: LineDiff<'_>) -> Seq<Seq<char>>;

/// The lines of the new side.
pub uninterp spec fn diff_new_lines(diff: LineDiff<'_>) -> Seq<Seq<char>>;

/// The steps from the one to the other.
pub uninterp spec fn diff_ops(diff: LineDiff<'_>) -> Seq<LineOp>;

impl<'a> LineDiff<'a> {
    /// Trusted: `TextDiffConfig::diff_lines` cuts both texts into lines. The histogram algorithm
    /// finds steps that lead from the ones to the others; of the others nothing is said.
    #[verifier::external_body]
    pub(crate) fn find(old_text: &'a str, new_text: &'a str, algorithm: LineAlgorithm) -> (diff:
        LineDiff<'a>)
        ensures
            diff_old_lines(diff) == ended_lines(old_text@),
            diff_new_lines(diff) == ended_lines(new_text@),
            algorithm is Histogram ==> diff_ops(diff) == histogram_ops(
                ended_lines(old_text@),
                ended_lines(new_text@),
            ),
            algorithm is Histogram ==> leads(
                diff_ops(diff),
                ended_lines(old_text@),
                ended_lines(new_text@),
            ),
    {
        let algorithm = match algorithm {
            LineAlgorithm::Myers => Algorithm::Myers,
            LineAlgorithm::RawMyers => Algorithm::RawMyers,
            LineAlgorithm::Patience => Algorithm::Patience,
            LineAlgorithm::Lcs => Algorithm::Lcs,
            LineAlgorithm::Hunt => Algorithm::Hunt,
            LineAlgorithm::Histogram => Algorithm::Histogram,
        };
        LineDiff { diff: TextDiff::configure().algorithm(algorithm).diff_lines(old_text, new_text) }
    }

    /// Trusted: `TextDiff::ops` gives the steps.
    #[verifier::external_body]
    pub(crate) fn ops(&self) -> (ops: Vec<DiffOp>)
        ensures
            ops_view(ops@) == diff_ops(*self),
    {
        self.diff.ops().to_vec()
    }

    /// Trusted: `TextDiff::grouped_ops` groups steps that lead from the one side to the other. It
    /// leaves out the unchanged lines that are more than the radius from any change, and ends a
    /// group and starts the next where it does so between two changes. It may overflow where
    /// twice the radius does.
    #[verifier::external_body]
    pub(crate) fn grouped_ops(&self, radius: usize) -> (groups: Vec<Vec<DiffOp>>)
        requires
            2 * radius <= usize::MAX,
        ensures
            leads(diff_ops(*self), diff_old_lines(*self), diff_new_lines(*self)) ==> groups_view(
                groups@,
            ) == grouped(diff_ops(*self), radius as int),
    {
        self.diff.grouped_ops(radius)
    }

    /// Trusted: `TextDiff::iter_inline_changes_with_options` gives the lines of a step. Which
    /// parts of replaced lines count as changed rests on the options, and on how long the search
    /// takes; of that nothing is said but that words are refined, with cleanup, and that no such
    /// part is empty or holds what ends the line. It panics on a step of lines that are not there.
    #[verifier::external_body]
    pub(crate) fn changes(&self, op: &DiffOp, options: &InlineChangeOptions) -> (changes: Vec<
        LineChange,
    >)
        requires
            is_op(op_view(*op), diff_old_lines(*self), diff_new_lines(*self)),
            refines_by(*options) is Words && cleans_up(*options),
        ensures
            are_changes(
                changes.deep_view(),
                op_view(*op),
                diff_old_lines(*self),
                diff_new_lines(*self),
            ),
    {
        let convert = |change: similar::InlineChange<'_, str>| LineChange {
            tag: match change.tag() {
                ChangeTag::Equal => LineTag::Equal,
                ChangeTag::Delete => LineTag::Delete,
                ChangeTag::Insert => LineTag::Insert,
            },
            old_index: change.old_index(),
            new_index: change.new_index(),
            values: change.values().iter().map(|(on, s)| (*on, s.to_string())).collect(),
            missing_newline: change.missing_newline(),
        };
        self.diff.iter_inline_changes_with_options(op, *options).map(convert).collect()
    }
}

} // verus!
