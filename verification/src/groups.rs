//! What groups of steps hold of a difference.

use vstd::prelude::*;

use crate::line_diff;
#[allow(unused_imports)]
use crate::line_diff::LineOp;
use crate::text;
#[allow(unused_imports)]
use crate::text::Text;

verus! {

/// Whether a step says what is so, and goes on from the one before it with something else.
spec fn goes_on(ops: Seq<LineOp>, old_lines: Seq<Text>, new_lines: Seq<Text>, i: int) -> bool {
    &&& 0 <= i < ops.len()
    &&& line_diff::is_op(ops[i], old_lines, new_lines)
    &&& i > 0 ==> {
        &&& ops[i].old_start == ops[i - 1].old_end
        &&& ops[i].new_start == ops[i - 1].new_end
        &&& !(ops[i].kind is Equal && ops[i - 1].kind is Equal)
    }
}

/// Whether each step does so.
#[verifier::opaque]
spec fn all_go_on(ops: Seq<LineOp>, old_lines: Seq<Text>, new_lines: Seq<Text>) -> bool {
    forall|i: int| 0 <= i < ops.len() ==> #[trigger] goes_on(ops, old_lines, new_lines, i)
}

/// The ends of unchanged lines are unchanged.
proof fn lemma_ends_are_ops(op: LineOp, old_lines: Seq<Text>, new_lines: Seq<Text>, n: int)
    requires
        line_diff::is_op(op, old_lines, new_lines),
        op.kind is Equal,
        n >= 0,
    ensures
        line_diff::is_op(line_diff::first_lines(op, n), old_lines, new_lines),
        line_diff::is_op(line_diff::last_lines(op, n), old_lines, new_lines),
{
    let olds = old_lines.subrange(op.old_start, op.old_end);
    let news = new_lines.subrange(op.new_start, op.new_end);
    let len = op.old_end - op.old_start;
    assert(olds.len() == news.len());
    let k = if n < len {
        n
    } else {
        len
    };
    assert(old_lines.subrange(op.old_start, op.old_start + k) == olds.subrange(0, k));
    assert(new_lines.subrange(op.new_start, op.new_start + k) == news.subrange(0, k));
    assert(old_lines.subrange(op.old_end - k, op.old_end) == olds.subrange(len - k, len));
    assert(new_lines.subrange(op.new_end - k, op.new_end) == news.subrange(len - k, len));
}

/// Whether a group says what is so and goes on from step to step.
spec fn is_run(group: Seq<LineOp>, old_lines: Seq<Text>, new_lines: Seq<Text>) -> bool {
    &&& group.len() > 0
    &&& line_diff::are_ops(group, old_lines, new_lines)
    &&& line_diff::is_chain(group)
}

/// A group goes on with a step that starts where it ends.
proof fn lemma_push(group: Seq<LineOp>, op: LineOp, old_lines: Seq<Text>, new_lines: Seq<Text>)
    requires
        is_run(group, old_lines, new_lines),
        line_diff::is_op(op, old_lines, new_lines),
        op.old_start == group.last().old_end,
        op.new_start == group.last().new_end,
    ensures
        is_run(group.push(op), old_lines, new_lines),
        line_diff::has_change(group) || !(op.kind is Equal) ==> line_diff::has_change(
            group.push(op),
        ),
{
    let all = group.push(op);
    assert(all[group.len() as int] == op);
    if line_diff::has_change(group) {
        let e = choose|e: int| 0 <= e < group.len() && !((#[trigger] group[e]).kind is Equal);
        assert(all[e] == group[e]);
    }
    assert forall|i: int, j: int| 0 <= i && j == i + 1 && j < all.len() implies (
    #[trigger] all[j]).old_start == (#[trigger] all[i]).old_end && all[j].new_start
        == all[i].new_end by {
        assert(all[i] == group[i]);
        if j < group.len() {
            assert(all[j] == group[j]);
        }
    }
}

/// A step by itself is a group.
proof fn lemma_single(op: LineOp, old_lines: Seq<Text>, new_lines: Seq<Text>)
    requires
        line_diff::is_op(op, old_lines, new_lines),
    ensures
        is_run(seq![op], old_lines, new_lines),
        !(op.kind is Equal) ==> line_diff::has_change(seq![op]),
{
    assert(seq![op][0] == op);
}

/// Whether the first `k` steps are rightly grouped: each group goes on from step to step, starts
/// behind the one before it, and all but the last change something, as the last does where it
/// ends in a change.
spec fn rightly_grouped(
    groups: Seq<Seq<LineOp>>,
    ops: Seq<LineOp>,
    old_lines: Seq<Text>,
    new_lines: Seq<Text>,
    k: int,
) -> bool {
    &&& groups.len() > 0
    &&& forall|i: int| 0 <= i < groups.len() ==> is_run(#[trigger] groups[i], old_lines, new_lines)
    &&& forall|i: int| 0 <= i < groups.len() - 1 ==> line_diff::has_change(#[trigger] groups[i])
    &&& line_diff::in_order(groups)
    &&& !(ops[k - 1].kind is Equal) ==> line_diff::has_change(groups.last())
    &&& k < ops.len() ==> groups.last().last().old_end == ops[k - 1].old_end
        && groups.last().last().new_end == ops[k - 1].new_end
    &&& k > 1 && k == ops.len() ==> line_diff::has_change(groups.last())
}

/// The last group goes on with one more step.
proof fn lemma_extend(
    groups: Seq<Seq<LineOp>>,
    ops: Seq<LineOp>,
    old_lines: Seq<Text>,
    new_lines: Seq<Text>,
    k: int,
    op: LineOp,
)
    requires
        1 <= k < ops.len(),
        rightly_grouped(groups, ops, old_lines, new_lines, k),
        goes_on(ops, old_lines, new_lines, k),
        line_diff::is_op(op, old_lines, new_lines),
        op.kind == ops[k].kind,
        op.old_start == ops[k].old_start,
        op.new_start == ops[k].new_start,
        k + 1 < ops.len() ==> op.old_end == ops[k].old_end && op.new_end == ops[k].new_end,
    ensures
        rightly_grouped(
            groups.drop_last().push(groups.last().push(op)),
            ops,
            old_lines,
            new_lines,
            k + 1,
        ),
{
    let last = groups.last();
    let all = groups.drop_last().push(last.push(op));
    let n = groups.len() - 1;
    lemma_push(last, op, old_lines, new_lines);
    assert(all.last() == last.push(op));
    assert forall|i: int| 0 <= i < all.len() implies is_run(
        #[trigger] all[i],
        old_lines,
        new_lines,
    ) by {
        if i < n {
            assert(all[i] == groups[i]);
        }
    }
    assert forall|i: int| 0 <= i < all.len() - 1 implies line_diff::has_change(
        #[trigger] all[i],
    ) by {
        assert(all[i] == groups[i]);
    }
    assert forall|i: int, j: int| 0 <= i && j == i + 1 && j < all.len() implies (
    #[trigger] all[i]).last().old_end <= (#[trigger] all[j])[0].old_start && all[i].last().new_end
        <= all[j][0].new_start by {
        assert(all[i] == groups[i]);
        assert(is_run(groups[n], old_lines, new_lines));
        assert(groups[j][0] == all[j][0]);
    }
}

/// The last group ends within a step over unchanged lines, and the next starts there.
proof fn lemma_cut(
    groups: Seq<Seq<LineOp>>,
    ops: Seq<LineOp>,
    old_lines: Seq<Text>,
    new_lines: Seq<Text>,
    k: int,
    first: LineOp,
    last: LineOp,
)
    requires
        1 <= k < ops.len() - 1,
        rightly_grouped(groups, ops, old_lines, new_lines, k),
        goes_on(ops, old_lines, new_lines, k),
        ops[k].kind is Equal,
        line_diff::is_op(first, old_lines, new_lines),
        line_diff::is_op(last, old_lines, new_lines),
        first.old_start == ops[k].old_start,
        first.new_start == ops[k].new_start,
        first.old_end <= last.old_start,
        first.new_end <= last.new_start,
        last.old_end == ops[k].old_end,
        last.new_end == ops[k].new_end,
    ensures
        rightly_grouped(
            groups.drop_last().push(groups.last().push(first)).push(seq![last]),
            ops,
            old_lines,
            new_lines,
            k + 1,
        ),
{
    let n = groups.len() - 1;
    let ended = groups.last().push(first);
    let all = groups.drop_last().push(ended).push(seq![last]);
    lemma_push(groups.last(), first, old_lines, new_lines);
    lemma_single(last, old_lines, new_lines);
    assert(all[n] == ended && all[n + 1] == seq![last] && all.last() == seq![last]);
    assert(seq![last].last() == last && ended.last() == first);
    assert forall|i: int| 0 <= i < all.len() implies is_run(
        #[trigger] all[i],
        old_lines,
        new_lines,
    ) by {
        if i < n {
            assert(all[i] == groups[i]);
        }
    }
    assert forall|i: int| 0 <= i < all.len() - 1 implies line_diff::has_change(
        #[trigger] all[i],
    ) by {
        if i < n {
            assert(all[i] == groups[i]);
        }
    }
    assert forall|i: int, j: int| 0 <= i && j == i + 1 && j < all.len() implies (
    #[trigger] all[i]).last().old_end <= (#[trigger] all[j])[0].old_start && all[i].last().new_end
        <= all[j][0].new_start by {
        if i < n {
            assert(all[i] == groups[i]);
            assert(is_run(groups[n], old_lines, new_lines));
            assert(groups[j][0] == all[j][0]);
        }
    }
}

/// The steps are rightly grouped.
proof fn lemma_grouped(
    ops: Seq<LineOp>,
    radius: int,
    old_lines: Seq<Text>,
    new_lines: Seq<Text>,
    k: int,
)
    requires
        all_go_on(ops, old_lines, new_lines),
        radius >= 0,
        1 <= k <= ops.len(),
    ensures
        rightly_grouped(
            line_diff::grouped_steps(ops, radius, k),
            ops,
            old_lines,
            new_lines,
            k,
        ),
    decreases k,
{
    let before = line_diff::grouped_steps(ops, radius, k - 1);
    let all = line_diff::grouped_steps(ops, radius, k);
    let part = line_diff::shown_part(ops, k - 1, radius);
    let op = ops[k - 1];
    assert(goes_on(ops, old_lines, new_lines, k - 1)) by {
        reveal(all_go_on);
    }
    if op.kind is Equal {
        lemma_ends_are_ops(op, old_lines, new_lines, radius);
        assert(old_lines.subrange(op.old_start, op.old_end).len() == new_lines.subrange(
            op.new_start,
            op.new_end,
        ).len());
    }
    if k == 1 {
        assert(before == seq![Seq::<LineOp>::empty()]);
        lemma_single(part[0], old_lines, new_lines);
        assert(part == seq![part[0]]);
        assert(Seq::<LineOp>::empty() + part == part);
        assert(all == seq![part]);
        assert(all.last() == part && part.last() == part[0]);
    } else {
        lemma_grouped(ops, radius, old_lines, new_lines, k - 1);
        if part.len() == 2 {
            lemma_cut(before, ops, old_lines, new_lines, k - 1, part[0], part[1]);
        } else {
            assert(before.last() + part == before.last().push(part[0]));
            lemma_extend(before, ops, old_lines, new_lines, k - 1, part[0]);
        }
    }
}

proof fn lemma_joined_push<T>(parts: Seq<Seq<T>>, part: Seq<T>)
    ensures
        text::joined(parts.push(part)) == text::joined(parts) + part,
{
    assert(parts.push(part).drop_last() == parts);
}

/// The groups hold what is left of the steps.
proof fn lemma_joined(ops: Seq<LineOp>, radius: int, k: int)
    requires
        0 <= k <= ops.len(),
    ensures
        line_diff::grouped_steps(ops, radius, k).len() > 0,
        text::joined(line_diff::grouped_steps(ops, radius, k)) == text::joined(
            line_diff::shown_parts(ops, radius).take(k),
        ),
    decreases k,
{
    let parts = line_diff::shown_parts(ops, radius);
    let all = line_diff::grouped_steps(ops, radius, k);
    if k == 0 {
        assert(parts.take(0) == Seq::<Seq<LineOp>>::empty());
        assert(all.drop_last() == Seq::<Seq<LineOp>>::empty());
        assert(text::joined(all) == text::joined(all.drop_last()) + all.last());
        assert(text::joined(all) == Seq::<LineOp>::empty());
    } else {
        let before = line_diff::grouped_steps(ops, radius, k - 1);
        let part = line_diff::shown_part(ops, k - 1, radius);
        lemma_joined(ops, radius, k - 1);
        assert(parts.take(k).drop_last() == parts.take(k - 1));
        assert(parts.take(k).last() == part);
        let closed = text::joined(before.drop_last());
        assert(text::joined(before) == closed + before.last());
        if part.len() == 2 {
            let ended = before.last().push(part[0]);
            lemma_joined_push(before.drop_last(), ended);
            lemma_joined_push(before.drop_last().push(ended), seq![part[1]]);
            assert(closed + ended + seq![part[1]] == closed + before.last() + part);
        } else {
            lemma_joined_push(before.drop_last(), before.last() + part);
            assert(closed + (before.last() + part) == closed + before.last() + part);
        }
    }
}

/// What is left of the steps changes what they change.
proof fn lemma_edits(ops: Seq<LineOp>, radius: int, k: int)
    requires
        0 <= k <= ops.len(),
    ensures
        line_diff::edits(text::joined(line_diff::shown_parts(ops, radius).take(k)))
            == line_diff::edits(ops.take(k)),
    decreases k,
{
    let parts = line_diff::shown_parts(ops, radius);
    let is_edit = |op: LineOp| !(op.kind is Equal);
    if k == 0 {
        assert(parts.take(0) == Seq::<Seq<LineOp>>::empty());
        assert(ops.take(0) == Seq::<LineOp>::empty());
    } else {
        let part = line_diff::shown_part(ops, k - 1, radius);
        lemma_edits(ops, radius, k - 1);
        assert(parts.take(k).drop_last() == parts.take(k - 1));
        assert(parts.take(k).last() == part);
        assert(ops.take(k) == ops.take(k - 1) + seq![ops[k - 1]]);
        Seq::filter_distributes_over_add(ops.take(k - 1), seq![ops[k - 1]], is_edit);
        Seq::filter_distributes_over_add(text::joined(parts.take(k - 1)), part, is_edit);
        if ops[k - 1].kind is Equal {
            lemma_no_edits(part);
            lemma_no_edits(seq![ops[k - 1]]);
            assert(line_diff::edits(part) == line_diff::edits(seq![ops[k - 1]]));
        } else {
            assert(part == seq![ops[k - 1]]);
        }
    }
}

/// Steps that change nothing leave nothing to change.
pub proof fn lemma_no_edits(ops: Seq<LineOp>)
    requires
        forall|i: int| 0 <= i < ops.len() ==> (#[trigger] ops[i]).kind is Equal,
    ensures
        line_diff::edits(ops) == Seq::<LineOp>::empty(),
    decreases ops.len(),
{
    reveal(Seq::filter);
    if ops.len() > 0 {
        let rest = ops.drop_last();
        assert forall|i: int| 0 <= i < rest.len() implies (#[trigger] rest[i]).kind is Equal by {
            assert(ops[i].kind is Equal);
        }
        lemma_no_edits(rest);
        assert(ops.last().kind is Equal);
    }
}

/// Steps of which some change something have one that does.
proof fn lemma_some_change(ops: Seq<LineOp>)
    requires
        line_diff::edits(ops).len() > 0,
    ensures
        line_diff::has_change(ops),
{
    if !line_diff::has_change(ops) {
        lemma_no_edits(ops);
    }
}

/// The groups that are shown of steps that lead from one side to the other: every change is in
/// one of them, each goes on from step to step and changes something, each starts behind the one
/// before it, and together they hold what is left of each step.
pub proof fn law_groups_hold_every_change(
    ops: Seq<LineOp>,
    radius: int,
    old_lines: Seq<Text>,
    new_lines: Seq<Text>,
)
    requires
        line_diff::leads(ops, old_lines, new_lines),
        radius >= 0,
    ensures
        forall|i: int|
            0 <= i < line_diff::grouped(ops, radius).len() ==> line_diff::is_group(
                #[trigger] line_diff::grouped(ops, radius)[i],
                old_lines,
                new_lines,
            ),
        line_diff::in_order(line_diff::grouped(ops, radius)),
        line_diff::edits(text::joined(line_diff::grouped(ops, radius))) == line_diff::edits(ops),
        line_diff::edits(ops).len() > 0 ==> text::joined(line_diff::grouped(ops, radius))
            == text::joined(line_diff::shown_parts(ops, radius)),
{
    let groups = line_diff::grouped(ops, radius);
    let n = ops.len() as int;
    if line_diff::edits(ops).len() == 0 {
        assert(text::joined(groups) == Seq::<LineOp>::empty());
        lemma_no_edits(text::joined(groups));
        assert(line_diff::edits(ops) == Seq::<LineOp>::empty());
    } else {
        assert(all_go_on(ops, old_lines, new_lines)) by {
            reveal(all_go_on);
        }
        lemma_some_change(ops);
        lemma_grouped(ops, radius, old_lines, new_lines, n);
        lemma_joined(ops, radius, n);
        lemma_edits(ops, radius, n);
        assert(line_diff::shown_parts(ops, radius).take(n) == line_diff::shown_parts(ops, radius));
        assert(ops.take(n) == ops);
        let e = choose|e: int| 0 <= e < ops.len() && !((#[trigger] ops[e]).kind is Equal);
        assert(n == 1 ==> e == n - 1);
        assert forall|i: int| 0 <= i < groups.len() implies line_diff::is_group(
            #[trigger] groups[i],
            old_lines,
            new_lines,
        ) by {
            assert(is_run(groups[i], old_lines, new_lines));
        }
    }
}

} // verus!
