//! What holds of the differences that are shown, whatever the two texts.

use vstd::prelude::*;
use vstd::utf8::*;

use syntect::parsing::SyntaxSet;

use crate::diff;
#[allow(unused_imports)]
use crate::diff::Context;
use crate::highlight;
use crate::highlight_laws;
use crate::line_diff;
#[allow(unused_imports)]
use crate::line_diff::{LineChangeView, LineOp};
use crate::markup;
use crate::number;
use crate::render;
#[allow(unused_imports)]
use crate::render::TokenView;
use crate::text;
#[allow(unused_imports)]
use crate::text::Text;

verus! {

broadcast use vstd::seq_lib::group_seq_properties;

/// The lines of a difference that the old side has, with their places there.
pub open spec fn old_side(changes: Seq<LineChangeView>) -> Seq<(int, Text)>
    decreases changes.len(),
{
    if changes.len() == 0 {
        Seq::empty()
    } else {
        let rest = old_side(changes.drop_last());
        match changes.last().old_index {
            Some(i) => rest.push((i as int, line_diff::text_of_values(changes.last().values))),
            None => rest,
        }
    }
}

/// The lines of a difference that the new side has, with their places there.
pub open spec fn new_side(changes: Seq<LineChangeView>) -> Seq<(int, Text)>
    decreases changes.len(),
{
    if changes.len() == 0 {
        Seq::empty()
    } else {
        let rest = new_side(changes.drop_last());
        match changes.last().new_index {
            Some(i) => rest.push((i as int, line_diff::text_of_values(changes.last().values))),
            None => rest,
        }
    }
}

/// The lines from place `from` to place `to`, with their places.
pub open spec fn placed(lines: Seq<Text>, from: int, to: int) -> Seq<(int, Text)> {
    Seq::new((to - from) as nat, |k: int| (from + k, lines[from + k]))
}

proof fn lemma_sides_add(a: Seq<LineChangeView>, b: Seq<LineChangeView>)
    ensures
        old_side(a + b) == old_side(a) + old_side(b),
        new_side(a + b) == new_side(a) + new_side(b),
    decreases b.len(),
{
    if b.len() == 0 {
        assert(a + b == a);
        assert(old_side(a) + old_side(b) == old_side(a));
        assert(new_side(a) + new_side(b) == new_side(a));
    } else {
        lemma_sides_add(a, b.drop_last());
        assert((a + b).drop_last() == a + b.drop_last());
        assert((a + b).last() == b.last());
        assert(old_side(a + b) == old_side(a) + old_side(b));
        assert(new_side(a + b) == new_side(a) + new_side(b));
    }
}

/// What the first `n` lines of a step have on either side.
proof fn lemma_step_sides(
    changes: Seq<LineChangeView>,
    op: LineOp,
    old_lines: Seq<Text>,
    new_lines: Seq<Text>,
    n: int,
)
    requires
        line_diff::is_op(op, old_lines, new_lines),
        line_diff::are_changes(changes, op, old_lines, new_lines),
        0 <= n <= changes.len(),
    ensures
        old_side(changes.take(n)) == placed(
            old_lines,
            op.old_start,
            if n < op.old_end - op.old_start {
                op.old_start + n
            } else {
                op.old_end
            },
        ),
        new_side(changes.take(n)) == placed(
            new_lines,
            op.new_start,
            if op.kind is Equal {
                op.new_start + n
            } else if n < op.old_end - op.old_start {
                op.new_start
            } else {
                op.new_start + (n - (op.old_end - op.old_start))
            },
        ),
    decreases n,
{
    let gone = op.old_end - op.old_start;
    if n == 0 {
        assert(changes.take(0) == Seq::<LineChangeView>::empty());
        assert(old_side(changes.take(0)) == placed(old_lines, op.old_start, op.old_start));
        assert(new_side(changes.take(0)) == placed(new_lines, op.new_start, op.new_start));
    } else {
        lemma_step_sides(changes, op, old_lines, new_lines, n - 1);
        let change = changes[n - 1];
        assert(changes.take(n).drop_last() == changes.take(n - 1));
        assert(changes.take(n).last() == change);
        if n - 1 < gone {
            assert(old_side(changes.take(n)) == placed(old_lines, op.old_start, op.old_start + n));
            if op.kind is Equal {
                let olds = old_lines.subrange(op.old_start, op.old_end);
                let news = new_lines.subrange(op.new_start, op.new_end);
                assert(olds == news);
                assert(olds.len() == gone && news.len() == op.new_end - op.new_start);
                assert(olds[n - 1] == old_lines[op.old_start + (n - 1)]);
                assert(news[n - 1] == new_lines[op.new_start + (n - 1)]);
                assert(new_side(changes.take(n)) == placed(
                    new_lines,
                    op.new_start,
                    op.new_start + n,
                ));
            }
        } else {
            assert(new_side(changes.take(n)) == placed(
                new_lines,
                op.new_start,
                op.new_start + (n - gone),
            ));
        }
    }
}

/// The lines of a step are those it speaks of, on either side.
proof fn lemma_op_sides(
    changes: Seq<LineChangeView>,
    op: LineOp,
    old_lines: Seq<Text>,
    new_lines: Seq<Text>,
)
    requires
        line_diff::is_op(op, old_lines, new_lines),
        line_diff::are_changes(changes, op, old_lines, new_lines),
    ensures
        old_side(changes) == placed(old_lines, op.old_start, op.old_end),
        new_side(changes) == placed(new_lines, op.new_start, op.new_end),
{
    lemma_step_sides(changes, op, old_lines, new_lines, changes.len() as int);
    assert(changes.take(changes.len() as int) == changes);
    if op.kind is Equal {
        assert(old_lines.subrange(op.old_start, op.old_end).len() == new_lines.subrange(
            op.new_start,
            op.new_end,
        ).len());
    }
}

proof fn lemma_placed_add(lines: Seq<Text>, a: int, b: int, c: int)
    requires
        a <= b <= c,
    ensures
        placed(lines, a, b) + placed(lines, b, c) == placed(lines, a, c),
{
}

proof fn lemma_group_sides(
    changes: Seq<Seq<LineChangeView>>,
    group: Seq<LineOp>,
    old_lines: Seq<Text>,
    new_lines: Seq<Text>,
    n: int,
)
    requires
        diff::is_sound(group, old_lines, new_lines),
        diff::are_group_changes(changes, group, old_lines, new_lines),
        1 <= n <= group.len(),
    ensures
        old_side(text::joined(changes.take(n))) == placed(
            old_lines,
            group[0].old_start,
            group[n - 1].old_end,
        ),
        new_side(text::joined(changes.take(n))) == placed(
            new_lines,
            group[0].new_start,
            group[n - 1].new_end,
        ),
    decreases n,
{
    let op = group[n - 1];
    assert(line_diff::is_op(op, old_lines, new_lines));
    assert(line_diff::are_changes(changes[n - 1], op, old_lines, new_lines));
    lemma_op_sides(changes[n - 1], op, old_lines, new_lines);
    assert(changes.take(n).drop_last() == changes.take(n - 1));
    assert(changes.take(n).last() == changes[n - 1]);
    lemma_sides_add(text::joined(changes.take(n - 1)), changes[n - 1]);
    if n == 1 {
        assert(changes.take(0) == Seq::<Seq<LineChangeView>>::empty());
        assert(text::joined(changes.take(1)) == changes[0]);
    } else {
        lemma_group_sides(changes, group, old_lines, new_lines, n - 1);
        diff::lemma_chain_forward(group, old_lines, new_lines, n - 2);
        assert(group[n - 1].old_start == group[n - 2].old_end);
        lemma_placed_add(old_lines, group[0].old_start, group[n - 2].old_end, op.old_end);
        lemma_placed_add(new_lines, group[0].new_start, group[n - 2].new_end, op.new_end);
    }
}

/// The lines of a hunk that the old side has are those from where the hunk starts to where it
/// ends there, each once and in order, and likewise on the new side.
pub proof fn law_hunk_tells_both_sides(
    changes: Seq<Seq<LineChangeView>>,
    group: Seq<LineOp>,
    old_lines: Seq<Text>,
    new_lines: Seq<Text>,
)
    requires
        diff::is_sound(group, old_lines, new_lines),
        diff::are_group_changes(changes, group, old_lines, new_lines),
    ensures
        old_side(text::joined(changes)) == placed(
            old_lines,
            group[0].old_start,
            group.last().old_end,
        ),
        new_side(text::joined(changes)) == placed(
            new_lines,
            group[0].new_start,
            group.last().new_end,
        ),
{
    lemma_group_sides(changes, group, old_lines, new_lines, group.len() as int);
    assert(changes.take(changes.len() as int) == changes);
}

/// The header of a hunk counts its lines: what it gives as the lengths are the numbers of lines
/// that the two sides have in the hunk, and where it says that they start, they do.
pub proof fn law_header_counts_rows(
    changes: Seq<Seq<LineChangeView>>,
    group: Seq<LineOp>,
    old_lines: Seq<Text>,
    new_lines: Seq<Text>,
)
    requires
        diff::is_sound(group, old_lines, new_lines),
        diff::are_group_changes(changes, group, old_lines, new_lines),
    ensures
        diff::group_header(group) == Some(
            diff::header_of(
                group[0].old_start,
                group[0].old_start + old_side(text::joined(changes)).len(),
                group[0].new_start,
                group[0].new_start + new_side(text::joined(changes)).len(),
            ),
        ),
        forall|k: int|
            0 <= k < old_side(text::joined(changes)).len() ==> (#[trigger] old_side(
                text::joined(changes),
            )[k]).0 == group[0].old_start + k,
        forall|k: int|
            0 <= k < new_side(text::joined(changes)).len() ==> (#[trigger] new_side(
                text::joined(changes),
            )[k]).0 == group[0].new_start + k,
{
    law_hunk_tells_both_sides(changes, group, old_lines, new_lines);
    diff::lemma_chain_forward(group, old_lines, new_lines, group.len() - 1);
    let all = text::joined(changes);
    lemma_placed_at(old_side(all), old_lines, group[0].old_start, group.last().old_end);
    lemma_placed_at(new_side(all), new_lines, group[0].new_start, group.last().new_end);
}

proof fn lemma_placed_at(side: Seq<(int, Text)>, lines: Seq<Text>, from: int, to: int)
    requires
        side == placed(lines, from, to),
        from <= to,
    ensures
        side.len() == to - from,
        forall|k: int| 0 <= k < side.len() ==> (#[trigger] side[k]).0 == from + k,
{
}

/// The texts of lines, without their places.
pub open spec fn texts(lines: Seq<(int, Text)>) -> Seq<Text> {
    lines.map_values(|line: (int, Text)| line.1)
}

/// With full context, a difference is the whole of both texts: the lines that stay or are gone
/// make up the old one, and those that stay or are new make up the new one.
pub proof fn law_full_context_tells_both_texts(
    changes: Seq<Seq<LineChangeView>>,
    old_text: Text,
    new_text: Text,
)
    requires
        line_diff::leads(
            line_diff::histogram_ops(
                line_diff::ended_lines(old_text),
                line_diff::ended_lines(new_text),
            ),
            line_diff::ended_lines(old_text),
            line_diff::ended_lines(new_text),
        ),
        old_text != new_text,
        diff::are_group_changes(
            changes,
            diff::shown_groups(
                line_diff::histogram_ops(
                    line_diff::ended_lines(old_text),
                    line_diff::ended_lines(new_text),
                ),
                Context::Full,
            )[0],
            line_diff::ended_lines(old_text),
            line_diff::ended_lines(new_text),
        ),
    ensures
        text::joined(texts(old_side(text::joined(changes)))) == old_text,
        text::joined(texts(new_side(text::joined(changes)))) == new_text,
{
    let old_lines = line_diff::ended_lines(old_text);
    let new_lines = line_diff::ended_lines(new_text);
    let ops = line_diff::histogram_ops(old_lines, new_lines);
    line_diff::law_ended_lines(old_text);
    line_diff::law_ended_lines(new_text);
    law_hunk_tells_both_sides(changes, ops, old_lines, new_lines);
    assert(texts(placed(old_lines, 0, old_lines.len() as int)) == old_lines);
    assert(texts(placed(new_lines, 0, new_lines.len() as int)) == new_lines);
}

/// A row shows its line as it is, less what ends it, whatever is highlighted or emphasised.
pub proof fn law_row_shows_line(
    set: SyntaxSet,
    rules: Seq<(Seq<Text>, Text)>,
    change: LineChangeView,
    old_path: Text,
    old_text: Text,
    new_path: Text,
    new_text: Text,
)
    requires
        highlight::follow_table(rules),
    ensures
        markup::shown(
            diff::row_of(
                change,
                highlight::tokenized(set, rules, old_path, old_text),
                highlight::tokenized(set, rules, new_path, new_text),
            ).html,
        ) == diff::bare_line(line_diff::text_of_values(change.values)),
{
    let line = diff::bare_line(line_diff::text_of_values(change.values));
    let emphasis = diff::emphasis_of(change.values);
    let (path, file, index) = if change.tag is Delete {
        (old_path, old_text, change.old_index)
    } else {
        (new_path, new_text, change.new_index)
    };
    lemma_line_shows(set, rules, path, file, index, line, emphasis);
}

proof fn lemma_line_shows(
    set: SyntaxSet,
    rules: Seq<(Seq<Text>, Text)>,
    path: Text,
    file: Text,
    index: Option<usize>,
    line: Text,
    emphasis: Seq<(usize, usize)>,
)
    requires
        highlight::follow_table(rules),
    ensures
        markup::shown(
            render::rendered(
                line,
                diff::tokens_at(
                    highlight::tokenized(set, rules, path, file),
                    index,
                ),
                emphasis,
            ),
        ) == line,
{
    let tokens = highlight::tokenized(set, rules, path, file);
    highlight_laws::law_one_entry_per_line(set, rules, path, file);
    if index is Some && index->0 < tokens.len() {
        highlight_laws::law_highlighted_line_shows(
            set,
            rules,
            path,
            file,
            index->0 as int,
            line,
            emphasis,
        );
    } else {
        markup::law_render_shows_line(line, Seq::empty(), emphasis);
    }
}

/// The browse pane shows every line of a file as it is, less what ends it.
pub proof fn law_view_shows_file(
    set: SyntaxSet,
    rules: Seq<(Seq<Text>, Text)>,
    path: Text,
    file: Text,
    i: int,
)
    requires
        highlight::follow_table(rules),
        0 <= i < diff::view_lines(
            file,
            highlight::tokenized(set, rules, path, file),
        ).len(),
    ensures
        i < text::split_on(file, '\n').len(),
        markup::shown(
            diff::view_lines(
                file,
                highlight::tokenized(set, rules, path, file),
            )[i],
        ) == text::without_trailing(text::split_on(file, '\n')[i], '\r'),
{
    let line = text::without_trailing(text::split_on(file, '\n')[i], '\r');
    lemma_line_shows(set, rules, path, file, Some(i as usize), line, Seq::empty());
}

/// The browse pane has a line for each newline of a file, and one more where text follows the
/// last of them or the file is empty.
pub proof fn law_view_line_count(file: Text, tokens: Seq<Seq<TokenView>>)
    ensures
        diff::view_lines(file, tokens).len() == (if file.len() == 0 {
            1
        } else {
            text::lines_of(file).len()
        }),
{
    lemma_split_count(file);
}

proof fn lemma_split_count(file: Text)
    ensures
        file.len() > 0 ==> text::split_on(file, '\n').len() == text::lines_of(file).len() + (
        if file.last() == '\n' {
            1int
        } else {
            0int
        }),
        file.len() == 0 ==> text::split_on(file, '\n').len() == 1,
        file.len() > 0 ==> text::lines_of(file).last().last() == file.last(),
        file.len() > 0 ==> text::lines_of(file).len() > 0,
    decreases file.len(),
{
    text::law_split_join(file, '\n');
    if file.len() > 0 {
        lemma_split_count(file.drop_last());
        text::law_split_join(file.drop_last(), '\n');
        if file.len() == 1 {
            assert(text::lines_of(file.drop_last()) == Seq::<Text>::empty());
        }
    }
}

/// Where the part `i` of a line starts, in bytes.
#[verifier::opaque]
pub open spec fn part_start(values: Seq<(bool, Text)>, i: int) -> int {
    encode_utf8(line_diff::text_of_values(values.take(i))).len() as int
}

/// Whether byte `p` of a line lies in a part that is marked as changed.
pub open spec fn in_changed_part(values: Seq<(bool, Text)>, p: int) -> bool {
    exists|i: int|
        0 <= i < values.len() && (#[trigger] values[i]).0 && part_start(values, i) <= p
            < part_start(values, i + 1)
}

/// Whether ranges come in order, without overlap, and end by byte `to`.
pub open spec fn ranges_in_order(ranges: Seq<(usize, usize)>, to: int) -> bool {
    &&& forall|i: int|
        0 <= i < ranges.len() ==> (#[trigger] ranges[i]).0 <= ranges[i].1 && ranges[i].1 <= to
    &&& forall|i: int, j: int|
        0 <= i < j < ranges.len() ==> (#[trigger] ranges[i]).1 < (#[trigger] ranges[j]).0
}

/// A line's marked ranges come in order within the line and hold exactly the bytes of its
/// changed parts.
pub proof fn law_marked_is_changed(values: Seq<(bool, Text)>)
    requires
        encode_utf8(line_diff::text_of_values(values)).len() <= usize::MAX,
    ensures
        ranges_in_order(
            diff::marked(values),
            encode_utf8(line_diff::text_of_values(values)).len() as int,
        ),
        forall|p: int|
            #![trigger render::emphasized_at(diff::marked(values), p)]
            #![trigger in_changed_part(values, p)]
            render::emphasized_at(diff::marked(values), p) <==> in_changed_part(values, p),
    decreases values.len(),
{
    let ranges = diff::marked(values);
    if values.len() == 0 {
    } else {
        let rest = values.drop_last();
        let before = diff::marked(rest);
        let start = encode_utf8(line_diff::text_of_values(rest)).len() as int;
        let end = encode_utf8(line_diff::text_of_values(values)).len() as int;
        text::lemma_encode_add(line_diff::text_of_values(rest), values.last().1);
        assert(start <= end);
        law_marked_is_changed(rest);
        lemma_changed_part_step(values, start, end);
        if values.last().0 {
            lemma_emphasized_step(before, start, end);
        }
        assert forall|p: int|
            #![trigger render::emphasized_at(ranges, p)]
            #![trigger in_changed_part(values, p)]
            render::emphasized_at(ranges, p) <==> in_changed_part(values, p) by {
            assert(render::emphasized_at(before, p) <==> in_changed_part(rest, p));
        }
    }
}

/// The parts before the last start where they start without it.
proof fn lemma_part_starts(values: Seq<(bool, Text)>)
    requires
        values.len() > 0,
    ensures
        forall|i: int|
            0 <= i < values.len() ==> #[trigger] part_start(values.drop_last(), i) == part_start(
                values,
                i,
            ),
        part_start(values, values.len() - 1) == encode_utf8(
            line_diff::text_of_values(values.drop_last()),
        ).len(),
        part_start(values, values.len() as int) == encode_utf8(
            line_diff::text_of_values(values),
        ).len(),
{
    reveal(part_start);
    let rest = values.drop_last();
    assert(values.take(values.len() as int) == values);
    assert(values.take(values.len() - 1) == rest);
    assert forall|i: int| 0 <= i < values.len() implies #[trigger] part_start(rest, i)
        == part_start(values, i) by {
        assert(rest.take(i) == values.take(i));
    }
}

proof fn lemma_changed_part_step(values: Seq<(bool, Text)>, start: int, end: int)
    requires
        values.len() > 0,
        start == encode_utf8(line_diff::text_of_values(values.drop_last())).len(),
        end == encode_utf8(line_diff::text_of_values(values)).len(),
    ensures
        forall|p: int|
            #![trigger in_changed_part(values, p)]
            in_changed_part(values, p) <==> in_changed_part(values.drop_last(), p) || (
            values.last().0 && start <= p < end),
{
    let rest = values.drop_last();
    let n = values.len() - 1;
    lemma_part_starts(values);
    assert forall|p: int|
        #![trigger in_changed_part(values, p)]
        in_changed_part(values, p) <==> in_changed_part(rest, p) || (values.last().0 && start <= p
            < end) by {
        if in_changed_part(values, p) {
            let i = choose|i: int|
                0 <= i < values.len() && (#[trigger] values[i]).0 && part_start(values, i) <= p
                    < part_start(values, i + 1);
            if i < n {
                assert(rest[i].0);
                assert(part_start(rest, i) <= p < part_start(rest, i + 1));
            }
        }
        if in_changed_part(rest, p) {
            let i = choose|i: int|
                0 <= i < rest.len() && (#[trigger] rest[i]).0 && part_start(rest, i) <= p
                    < part_start(rest, i + 1);
            assert(values[i].0);
            assert(part_start(values, i) <= p < part_start(values, i + 1));
        }
        if values.last().0 && start <= p < end {
            assert(values[n].0);
        }
    }
}

proof fn lemma_emphasized_step(before: Seq<(usize, usize)>, start: int, end: int)
    requires
        ranges_in_order(before, start),
        0 <= start <= end <= usize::MAX,
    ensures
        ranges_in_order(diff::emphasized(before, start, end), end),
        forall|p: int|
            #![trigger render::emphasized_at(diff::emphasized(before, start, end), p)]
            render::emphasized_at(diff::emphasized(before, start, end), p) <==> (
            render::emphasized_at(before, p) || start <= p < end),
{
    let after = diff::emphasized(before, start, end);
    let n = before.len() as int;
    if n > 0 && before.last().1 == start {
        let last = before[n - 1];
        assert(after[n - 1] == (last.0, end as usize));
        assert forall|i: int| 0 <= i < after.len() implies (#[trigger] after[i]).0 <= after[i].1
            && after[i].1 <= end by {
            assert(before[i].0 <= before[i].1);
        }
        assert forall|i: int, j: int| 0 <= i < j < after.len() implies (#[trigger] after[i]).1 < (
        #[trigger] after[j]).0 by {
            assert(before[i].1 < before[j].0);
        }
        assert forall|p: int| #[trigger] render::emphasized_at(after, p) <==> (
        render::emphasized_at(before, p) || start <= p < end) by {
            if render::emphasized_at(before, p) {
                let i = choose|i: int|
                    0 <= i < before.len() && (#[trigger] before[i]).0 <= p < before[i].1;
                assert(after[i].0 <= p < after[i].1);
            }
            if start <= p < end {
                assert(last.0 <= last.1);
                assert(after[n - 1].0 <= p < after[n - 1].1);
            }
            if render::emphasized_at(after, p) {
                let i = choose|i: int|
                    0 <= i < after.len() && (#[trigger] after[i]).0 <= p < after[i].1;
                assert(before[i].0 <= p);
            }
        }
    } else {
        assert(after[n] == (start as usize, end as usize));
        assert forall|i: int| 0 <= i < after.len() implies (#[trigger] after[i]).0 <= after[i].1
            && after[i].1 <= end by {
            if i < n {
                assert(after[i] == before[i]);
            }
        }
        assert forall|i: int, j: int| 0 <= i < j < after.len() implies (#[trigger] after[i]).1 < (
        #[trigger] after[j]).0 by {
            assert(after[i] == before[i]);
            if j < n {
                assert(after[j] == before[j]);
            } else {
                assert(before[i].1 <= start);
                if i < n - 1 {
                    assert(before[i].1 < before[n - 1].0);
                    assert(before[n - 1].0 <= before[n - 1].1);
                }
            }
        }
        assert forall|p: int| #[trigger] render::emphasized_at(after, p) <==> (
        render::emphasized_at(before, p) || start <= p < end) by {
            if render::emphasized_at(before, p) {
                let i = choose|i: int|
                    0 <= i < before.len() && (#[trigger] before[i]).0 <= p < before[i].1;
                assert(after[i] == before[i]);
            }
            if start <= p < end {
                assert(after[n].0 <= p < after[n].1);
            }
            if render::emphasized_at(after, p) {
                let i = choose|i: int|
                    0 <= i < after.len() && (#[trigger] after[i]).0 <= p < after[i].1;
                if i < n {
                    assert(after[i] == before[i]);
                }
            }
        }
    }
}

/// A run that covers the entire line, up to its trailing white space or up to what ends it, is
/// never emphasised; any other ranges are, as they were marked.
pub proof fn law_whole_line_is_not_emphasised(values: Seq<(bool, Text)>)
    ensures
        ({
            let line = line_diff::text_of_values(values);
            let ranges = diff::marked(values);
            let whole = ranges.len() == 1 && ranges[0].0 == 0 && diff::is_entire(
                line,
                ranges[0].1 as int,
            );
            diff::emphasis_of(values) == (if whole {
                Seq::empty()
            } else {
                ranges
            })
        }),
{
}

/// Whether no marked part of a line is empty or holds what ends the line.
pub open spec fn marks_inner(values: Seq<(bool, Text)>) -> bool {
    forall|j: int|
        0 <= j < values.len() && (#[trigger] values[j]).0 ==> values[j].1.len() > 0
            && line_diff::is_inner(values[j].1)
}

/// Whether the first `q` characters of a line take `end` bytes, and the last of them does not end
/// the line.
spec fn ends_at(line: Text, end: int, q: int) -> bool {
    &&& 0 < q <= line.len()
    &&& line[q - 1] != '\n'
    &&& line[q - 1] != '\r'
    &&& encode_utf8(line.take(q)).len() == end
}

/// Whether byte `end` of a line lies behind a character that does not end it.
spec fn ends_inside(line: Text, end: int) -> bool {
    exists|q: int| ends_at(line, end, q)
}

proof fn lemma_without_trailing(s: Text, c: char, q: int) -> (m: int)
    requires
        0 < q <= s.len(),
        s[q - 1] != c,
    ensures
        q <= m <= s.len(),
        text::without_trailing(s, c) == s.take(m),
    decreases s.len(),
{
    if s.last() == c {
        let m = lemma_without_trailing(s.drop_last(), c, q);
        assert(s.drop_last().take(m) == s.take(m));
        m
    } else {
        assert(s.take(s.len() as int) == s);
        s.len() as int
    }
}

/// What lies behind a character that does not end the line lies in the line without its end.
proof fn lemma_ends_inside(line: Text, end: int)
    requires
        ends_inside(line, end),
    ensures
        end <= encode_utf8(diff::bare_line(line)).len(),
{
    let q = choose|q: int| ends_at(line, end, q);
    let m = lemma_without_trailing(line, '\n', q);
    let ended = line.take(m);
    let n = lemma_without_trailing(ended, '\r', q);
    assert(ended.take(n) == line.take(n));
    assert(line.take(n) == line.take(q) + line.subrange(q, n));
    text::lemma_encode_add(line.take(q), line.subrange(q, n));
}

proof fn lemma_marked_ends(values: Seq<(bool, Text)>)
    requires
        marks_inner(values),
        encode_utf8(line_diff::text_of_values(values)).len() <= usize::MAX,
    ensures
        forall|i: int|
            0 <= i < diff::marked(values).len() ==> ends_inside(
                line_diff::text_of_values(values),
                (#[trigger] diff::marked(values)[i]).1 as int,
            ),
    decreases values.len(),
{
    if values.len() > 0 {
        let rest = values.drop_last();
        let before = line_diff::text_of_values(rest);
        let part = values.last().1;
        let line = line_diff::text_of_values(values);
        let old = diff::marked(rest);
        let ranges = diff::marked(values);
        text::lemma_encode_add(before, part);
        assert(marks_inner(rest)) by {
            assert forall|j: int| 0 <= j < rest.len() && (
            #[trigger] rest[j]).0 implies rest[j].1.len() > 0 && line_diff::is_inner(
                rest[j].1,
            ) by {
                assert(values[j] == rest[j]);
            }
        }
        lemma_marked_ends(rest);
        assert forall|i: int| 0 <= i < ranges.len() implies ends_inside(
            line,
            (#[trigger] ranges[i]).1 as int,
        ) by {
            let end = ranges[i].1 as int;
            if values.last().0 && i == ranges.len() - 1 {
                let q = line.len() as int;
                assert(values[values.len() - 1].0);
                assert(line[q - 1] == part[part.len() - 1]);
                assert(line.take(q) == line);
                assert(ends_at(line, end, q));
            } else {
                assert(ranges[i] == old[i]);
                let q = choose|q: int| ends_at(before, end, q);
                assert(line.take(q) == before.take(q));
                assert(ends_at(line, end, q));
            }
        }
    }
}

/// What is emphasised of a line lies in what is shown of it: it never reaches what ends the line.
pub proof fn law_emphasis_is_of_shown_line(
    changes: Seq<LineChangeView>,
    op: LineOp,
    old_lines: Seq<Text>,
    new_lines: Seq<Text>,
    k: int,
    i: int,
)
    requires
        line_diff::are_changes(changes, op, old_lines, new_lines),
        0 <= k < changes.len(),
        encode_utf8(line_diff::text_of_values(changes[k].values)).len() <= usize::MAX,
        0 <= i < diff::emphasis_of(changes[k].values).len(),
    ensures
        diff::emphasis_of(changes[k].values)[i].0 <= diff::emphasis_of(changes[k].values)[i].1,
        diff::emphasis_of(changes[k].values)[i].1 <= encode_utf8(
            diff::bare_line(line_diff::text_of_values(changes[k].values)),
        ).len(),
{
    let values = changes[k].values;
    assert(marks_inner(values)) by {
        assert forall|j: int| 0 <= j < values.len() && (
        #[trigger] values[j]).0 implies values[j].1.len() > 0 && line_diff::is_inner(
            values[j].1,
        ) by {
            assert(changes[k].values[j].0);
        }
    }
    lemma_marked_ends(values);
    law_marked_is_changed(values);
    lemma_ends_inside(line_diff::text_of_values(values), diff::marked(values)[i].1 as int);
}

/// However a context is asked for, it is full or no more than 200 lines.
pub proof fn law_context_is_bounded(raw: Text)
    ensures
        diff::context_of(raw) matches Context::Lines(n) ==> n <= 200,
{
}

/// A number of lines that is written out is the context that is read, up to 200.
pub proof fn law_context_reads_number(n: nat)
    requires
        n <= usize::MAX,
    ensures
        diff::context_of(number::decimal(n)) == Context::Lines(
            if n < 200 {
                n as usize
            } else {
                200
            },
        ),
{
    number::law_print_parse(n, usize::MAX as nat);
    reveal_strlit("full");
    if number::decimal(n) == "full"@ {
        assert(number::parsed("full"@, usize::MAX as nat) is Some);
        assert(!number::is_digit("full"@[0]));
    }
}

} // verus!
