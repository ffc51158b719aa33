//! How much of a file a difference shows around its changes.

use vstd::prelude::*;

use syntect::parsing::SyntaxSet;

use crate::diff;
#[allow(unused_imports)]
use crate::diff::{Context, FileDiffView, HunkView, InputView, RowView, State};
use crate::groups;
use crate::highlight;
use crate::line_diff;
#[allow(unused_imports)]
use crate::line_diff::{LineChangeView, LineOp, LineTag};
use crate::render;
#[allow(unused_imports)]
use crate::render::TokenView;
use crate::text;
#[allow(unused_imports)]
use crate::text::Text;

verus! {

/// The items at those of the first `k` places that are kept.
pub open spec fn picked<T>(items: Seq<T>, keep: spec_fn(int) -> bool, k: int) -> Seq<T>
    decreases k,
{
    if k <= 0 {
        Seq::empty()
    } else if keep(k - 1) {
        picked(items, keep, k - 1).push(items[k - 1])
    } else {
        picked(items, keep, k - 1)
    }
}

/// Whether a row is of a line that changed.
pub open spec fn is_changed(row: RowView) -> bool {
    row.kind != "ctx"@
}

/// Whether the row at place `i` changed, or one that is no more than `n` rows away.
pub open spec fn is_near(rows: Seq<RowView>, n: int, i: int) -> bool {
    exists|j: int| 0 <= j < rows.len() && i - n <= j <= i + n && is_changed(#[trigger] rows[j])
}

/// The rows that are no more than `n` rows from one that changed.
pub open spec fn rows_near(rows: Seq<RowView>, n: int) -> Seq<RowView> {
    picked(rows, |i: int| is_near(rows, n, i), rows.len() as int)
}

/// A row without the HTML of a line that changed, of which parts may be emphasised.
pub open spec fn outline(row: RowView) -> RowView {
    RowView {
        html: if is_changed(row) {
            Seq::empty()
        } else {
            row.html
        },
        ..row
    }
}

/// Rows without the HTML of lines that changed.
pub open spec fn outlines(rows: Seq<RowView>) -> Seq<RowView> {
    rows.map_values(|row: RowView| outline(row))
}

/// The rows of all hunks.
pub open spec fn all_rows(hunks: Seq<HunkView>) -> Seq<RowView>
    decreases hunks.len(),
{
    if hunks.len() == 0 {
        Seq::empty()
    } else {
        all_rows(hunks.drop_last()) + hunks.last().rows
    }
}

/// A line of a difference, by where it stands.
#[verifier::ext_equal]
struct Place {
    tag: LineTag,
    old: Option<int>,
    new: Option<int>,
}

/// Where the lines of a step stand.
spec fn op_places(op: LineOp) -> Seq<Place> {
    let gone = op.old_end - op.old_start;
    let added = if op.kind is Equal {
        0
    } else {
        op.new_end - op.new_start
    };
    Seq::new(
        (gone + added) as nat,
        |k: int|
            if k < gone {
                Place {
                    tag: if op.kind is Equal {
                        LineTag::Equal
                    } else {
                        LineTag::Delete
                    },
                    old: Some(op.old_start + k),
                    new: if op.kind is Equal {
                        Some(op.new_start + k)
                    } else {
                        None
                    },
                }
            } else {
                Place {
                    tag: LineTag::Insert,
                    old: None,
                    new: Some(op.new_start + (k - gone)),
                }
            },
    )
}

/// Where the lines of all steps stand.
spec fn places(ops: Seq<LineOp>) -> Seq<Place>
    decreases ops.len(),
{
    if ops.len() == 0 {
        Seq::empty()
    } else {
        places(ops.drop_last()) + op_places(ops.last())
    }
}

/// Whether the line at place `i` changed, or one that is no more than `n` lines away.
spec fn place_near(all: Seq<Place>, n: int, i: int) -> bool {
    exists|j: int|
        0 <= j < all.len() && i - n <= j <= i + n && !((#[trigger] all[j]).tag is Equal)
}

proof fn lemma_places_add(a: Seq<LineOp>, b: Seq<LineOp>)
    ensures
        places(a + b) == places(a) + places(b),
    decreases b.len(),
{
    if b.len() == 0 {
        assert(a + b == a);
        assert(places(a) + places(b) == places(a));
    } else {
        lemma_places_add(a, b.drop_last());
        assert((a + b).drop_last() == a + b.drop_last());
        assert((a + b).last() == b.last());
        assert(places(a + b) == places(a) + places(b));
    }
}

/// Places that are picked behind others are picked from what is behind them.
proof fn lemma_picked_split<T>(items: Seq<T>, keep: spec_fn(int) -> bool, p: int, m: int)
    requires
        0 <= p,
        0 <= m,
        p + m <= items.len(),
    ensures
        picked(items, keep, p + m) == picked(items, keep, p) + picked(
            items.subrange(p, p + m),
            |k: int| keep(p + k),
            m,
        ),
    decreases m,
{
    let rest = |k: int| keep(p + k);
    if m == 0 {
        assert(picked(items, keep, p) + Seq::empty() == picked(items, keep, p));
    } else {
        lemma_picked_split(items, keep, p, m - 1);
        let all = items.subrange(p, p + m);
        let less = items.subrange(p, p + m - 1);
        lemma_picked_same(all, less, rest, rest, m - 1);
        assert(all[m - 1] == items[p + m - 1]);
        assert(picked(items, keep, p + m) == picked(items, keep, p) + picked(all, rest, m));
    }
}

/// What is picked rests on the places that are looked at, and no others.
proof fn lemma_picked_same<T>(
    a: Seq<T>,
    b: Seq<T>,
    keep: spec_fn(int) -> bool,
    also: spec_fn(int) -> bool,
    k: int,
)
    requires
        k <= a.len(),
        k <= b.len(),
        forall|i: int| 0 <= i < k ==> #[trigger] a[i] == b[i],
        forall|i: int| 0 <= i < k ==> #[trigger] keep(i) == also(i),
    ensures
        picked(a, keep, k) == picked(b, also, k),
    decreases k,
{
    if k > 0 {
        lemma_picked_same(a, b, keep, also, k - 1);
        assert(a[k - 1] == b[k - 1]);
        assert(keep(k - 1) == also(k - 1));
    }
}

/// Picking the places before `a` and from `b` on.
proof fn lemma_picked_ends<T>(items: Seq<T>, keep: spec_fn(int) -> bool, a: int, b: int, k: int)
    requires
        0 <= a <= b <= items.len(),
        0 <= k <= items.len(),
        forall|i: int| 0 <= i < items.len() ==> #[trigger] keep(i) == (i < a || i >= b),
    ensures
        picked(items, keep, k) == (if k <= a {
            items.take(k)
        } else if k <= b {
            items.take(a)
        } else {
            items.take(a) + items.subrange(b, k)
        }),
    decreases k,
{
    if k > 0 {
        lemma_picked_ends(items, keep, a, b, k - 1);
        assert(keep(k - 1) == (k - 1 < a || k - 1 >= b));
        if k <= a {
            assert(items.take(k - 1).push(items[k - 1]) == items.take(k));
        } else if k > b {
            let before = if k - 1 <= a {
                items.take(k - 1)
            } else if k - 1 <= b {
                items.take(a)
            } else {
                items.take(a) + items.subrange(b, k - 1)
            };
            assert(before.push(items[k - 1]) == items.take(a) + items.subrange(b, k));
        } else {
            assert(k - 1 == a ==> items.take(k - 1) == items.take(a));
        }
    } else {
        assert(items.take(0) == Seq::<T>::empty());
    }
}

/// Where the lines of one step stand among those of all.
proof fn lemma_places_at(ops: Seq<LineOp>, i: int)
    requires
        0 <= i < ops.len(),
    ensures
        places(ops.take(i + 1)) == places(ops.take(i)) + op_places(ops[i]),
        places(ops).len() == places(ops.take(i + 1)).len() + places(ops.skip(i + 1)).len(),
        places(ops).subrange(
            places(ops.take(i)).len() as int,
            places(ops.take(i + 1)).len() as int,
        ) == op_places(ops[i]),
        forall|k: int|
            0 <= k < op_places(ops[i]).len() ==> places(ops)[places(ops.take(i)).len() + k] == (
            #[trigger] op_places(ops[i])[k]),
{
    assert(ops.take(i + 1).drop_last() == ops.take(i));
    assert(ops.take(i + 1).last() == ops[i]);
    lemma_places_add(ops.take(i + 1), ops.skip(i + 1));
    assert(ops.take(i + 1) + ops.skip(i + 1) == ops);
    let p = places(ops.take(i)).len() as int;
    let q = places(ops.take(i + 1)).len() as int;
    assert(places(ops).subrange(p, q) == op_places(ops[i]));
}

/// A step that changes something has a line, and none that stays.
proof fn lemma_edit_places(op: LineOp, old_lines: Seq<Text>, new_lines: Seq<Text>)
    requires
        line_diff::is_op(op, old_lines, new_lines),
        !(op.kind is Equal),
    ensures
        op_places(op).len() > 0,
        forall|k: int| 0 <= k < op_places(op).len() ==> !((#[trigger] op_places(op)[k]).tag is Equal),
{
}

/// Whether a step and those next to it say what is so, and unchanged lines are next to changes.
spec fn stands(ops: Seq<LineOp>, old_lines: Seq<Text>, new_lines: Seq<Text>, i: int) -> bool {
    let equal = ops[i].kind is Equal;
    &&& 0 <= i < ops.len()
    &&& line_diff::is_op(ops[i], old_lines, new_lines)
    &&& i > 0 ==> line_diff::is_op(ops[i - 1], old_lines, new_lines) && !(equal && ops[i
        - 1].kind is Equal)
    &&& i < ops.len() - 1 ==> line_diff::is_op(ops[i + 1], old_lines, new_lines) && !(equal
        && ops[i + 1].kind is Equal)
}

/// Whether the steps lead from the old lines to the new.
#[verifier::opaque]
spec fn lead(ops: Seq<LineOp>, old_lines: Seq<Text>, new_lines: Seq<Text>) -> bool {
    line_diff::leads(ops, old_lines, new_lines)
}

proof fn lemma_stands(ops: Seq<LineOp>, old_lines: Seq<Text>, new_lines: Seq<Text>, i: int)
    requires
        lead(ops, old_lines, new_lines),
        0 <= i < ops.len(),
    ensures
        stands(ops, old_lines, new_lines, i),
{
    reveal(lead);
}

/// Where the steps start and end.
proof fn lemma_lead_ends(ops: Seq<LineOp>, old_lines: Seq<Text>, new_lines: Seq<Text>)
    requires
        lead(ops, old_lines, new_lines),
    ensures
        ops.len() == 0 ==> old_lines.len() == 0 && new_lines.len() == 0,
        ops.len() > 0 ==> ops[0].old_start == 0 && ops[0].new_start == 0 && ops.last().old_end
            == old_lines.len() && ops.last().new_end == new_lines.len(),
{
    reveal(lead);
}

/// What is around the lines of a step over unchanged lines: a change, or nothing.
proof fn lemma_around(ops: Seq<LineOp>, old_lines: Seq<Text>, new_lines: Seq<Text>, i: int)
    requires
        stands(ops, old_lines, new_lines, i),
        ops[i].kind is Equal,
    ensures
        is_run(
            places(ops),
            places(ops.take(i)).len() as int,
            (places(ops.take(i)).len() + op_places(ops[i]).len()) as int,
        ),
        i > 0 <==> places(ops.take(i)).len() > 0,
        i < ops.len() - 1 <==> places(ops.take(i)).len() + op_places(ops[i]).len() < places(
            ops,
        ).len(),
{
    let all = places(ops);
    let own = op_places(ops[i]);
    let p = places(ops.take(i)).len() as int;
    lemma_places_at(ops, i);
    assert forall|j: int| p <= j < p + own.len() implies (#[trigger] all[j]).tag is Equal by {
        assert(own[j - p].tag is Equal);
        assert(all[p + (j - p)] == own[j - p]);
    }
    if i > 0 {
        let before = op_places(ops[i - 1]);
        lemma_places_at(ops, i - 1);
        lemma_edit_places(ops[i - 1], old_lines, new_lines);
        assert(!(before[before.len() - 1].tag is Equal));
    } else {
        assert(ops.take(0) == Seq::<LineOp>::empty());
    }
    if i < ops.len() - 1 {
        let behind = op_places(ops[i + 1]);
        lemma_places_at(ops, i + 1);
        lemma_edit_places(ops[i + 1], old_lines, new_lines);
        assert(!(behind[0].tag is Equal));
    } else {
        assert(ops.skip(i + 1) == Seq::<LineOp>::empty());
    }
}

/// Whether the lines from `p` to `q` are unchanged, with a change or nothing on either side.
spec fn is_run(all: Seq<Place>, p: int, q: int) -> bool {
    &&& 0 <= p <= q <= all.len()
    &&& forall|j: int| p <= j < q ==> (#[trigger] all[j]).tag is Equal
    &&& p > 0 ==> !(all[p - 1].tag is Equal)
    &&& q < all.len() ==> !(all[q].tag is Equal)
}

/// An unchanged line is near a change where it is near an end of its run that is next to one.
proof fn lemma_near(all: Seq<Place>, p: int, q: int, n: int, k: int)
    requires
        is_run(all, p, q),
        n >= 0,
        p <= k < q,
    ensures
        place_near(all, n, k) == ((p > 0 && k - p < n) || (q < all.len() && q - k <= n)),
{
    if p > 0 && k - p < n {
        assert(!(all[p - 1].tag is Equal));
    }
    if q < all.len() && q - k <= n {
        assert(!(all[q].tag is Equal));
    }
}

/// What of a run of unchanged lines is near a change.
proof fn lemma_run(all: Seq<Place>, p: int, q: int, n: int)
    requires
        is_run(all, p, q),
        n >= 0,
    ensures
        picked(all.subrange(p, q), |k: int| place_near(all, n, p + k), q - p) == ({
            let own = all.subrange(p, q);
            let m = if n < q - p {
                n
            } else {
                q - p
            };
            if p == 0 && q == all.len() {
                Seq::empty()
            } else if p == 0 {
                own.subrange(q - p - m, q - p)
            } else if q == all.len() {
                own.take(m)
            } else if q - p <= 2 * n {
                own
            } else {
                own.take(m) + own.subrange(q - p - m, q - p)
            }
        }),
{
    let own = all.subrange(p, q);
    let keep = |k: int| place_near(all, n, p + k);
    let len = q - p;
    let m = if n < len {
        n
    } else {
        len
    };
    let from = if p == 0 {
        0
    } else {
        m
    };
    let to = if q == all.len() {
        len
    } else {
        len - m
    };
    let (a, b) = if from <= to {
        (from, to)
    } else {
        (len, len)
    };
    assert forall|k: int| 0 <= k < own.len() implies #[trigger] keep(k) == (k < a || k >= b) by {
        lemma_near(all, p, q, n, p + k);
    }
    lemma_picked_ends(own, keep, a, b, len);
    assert(own.take(0) + own.subrange(len - m, len) == own.subrange(len - m, len));
    assert(own.take(0) == Seq::<Place>::empty());
    assert(own.take(len) == own);
    assert(own.take(m) + own.subrange(m, len) == own);
    assert(own.take(m) + own.subrange(len, len) == own.take(m));
    assert(own.subrange(0, len) == own);
    assert(own.subrange(len, len) == Seq::<Place>::empty());
}

/// The lines of one step that are near a change are those of what is left of it.
proof fn lemma_step(
    ops: Seq<LineOp>,
    old_lines: Seq<Text>,
    new_lines: Seq<Text>,
    n: int,
    i: int,
)
    requires
        stands(ops, old_lines, new_lines, i),
        n >= 0,
        ops.len() > 1 || !(ops[i].kind is Equal),
    ensures
        picked(
            op_places(ops[i]),
            |k: int| place_near(places(ops), n, places(ops.take(i)).len() + k),
            op_places(ops[i]).len() as int,
        ) == places(line_diff::shown_part(ops, i, n)),
{
    let op = ops[i];
    let own = op_places(op);
    let all = places(ops);
    let p = places(ops.take(i)).len() as int;
    let len = own.len() as int;
    lemma_places_at(ops, i);
    lemma_one(op);
    if !(op.kind is Equal) {
        let keep = |k: int| place_near(all, n, p + k);
        lemma_edit_places(op, old_lines, new_lines);
        assert forall|k: int| 0 <= k < len implies #[trigger] keep(k) == (k < len || k >= len) by {
            assert(!(own[k].tag is Equal));
            assert(all[p + k] == own[k]);
        }
        lemma_picked_ends(own, keep, len, len, len);
        assert(own.take(len) == own);
    } else {
        lemma_around(ops, old_lines, new_lines, i);
        lemma_run(all, p, p + len, n);
        lemma_ends(op, old_lines, new_lines, n);
    }
}

/// The ends of a step over unchanged lines.
proof fn lemma_ends(op: LineOp, old_lines: Seq<Text>, new_lines: Seq<Text>, n: int)
    requires
        line_diff::is_op(op, old_lines, new_lines),
        op.kind is Equal,
        n >= 0,
    ensures
        op_places(op).len() == op.old_end - op.old_start,
        ({
            let own = op_places(op);
            let len = own.len() as int;
            let m = if n < len {
                n
            } else {
                len
            };
            let first = line_diff::first_lines(op, n);
            let last = line_diff::last_lines(op, n);
            &&& places(seq![first]) == own.take(m)
            &&& places(seq![last]) == own.subrange(len - m, len)
            &&& places(seq![first, last]) == own.take(m) + own.subrange(len - m, len)
        }),
{
    let own = op_places(op);
    let len = own.len() as int;
    let first = line_diff::first_lines(op, n);
    let last = line_diff::last_lines(op, n);
    assert(old_lines.subrange(op.old_start, op.old_end).len() == new_lines.subrange(
        op.new_start,
        op.new_end,
    ).len());
    let m = if n < len {
        n
    } else {
        len
    };
    assert(op_places(first) == own.take(m));
    assert(op_places(last) == own.subrange(len - m, len));
    lemma_one(first);
    lemma_one(last);
    lemma_two(first, last);
}

proof fn lemma_one(op: LineOp)
    ensures
        places(seq![op]) == op_places(op),
{
    assert(seq![op].drop_last() == Seq::<LineOp>::empty());
    assert(places(Seq::empty()) + op_places(op) == op_places(op));
}

proof fn lemma_two(a: LineOp, b: LineOp)
    ensures
        places(seq![a, b]) == op_places(a) + op_places(b),
{
    lemma_one(a);
    assert(seq![a, b].drop_last() == seq![a]);
}

/// The lines of the first `i` steps that are near a change are those of what is left of them.
proof fn lemma_steps(
    ops: Seq<LineOp>,
    old_lines: Seq<Text>,
    new_lines: Seq<Text>,
    n: int,
    i: int,
)
    requires
        lead(ops, old_lines, new_lines),
        n >= 0,
        0 <= i <= ops.len(),
        line_diff::edits(ops).len() > 0,
    ensures
        places(text::joined(line_diff::shown_parts(ops, n).take(i))) == picked(
            places(ops),
            |k: int| place_near(places(ops), n, k),
            places(ops.take(i)).len() as int,
        ),
    decreases i,
{
    let all = places(ops);
    let keep = |k: int| place_near(all, n, k);
    let parts = line_diff::shown_parts(ops, n);
    if i == 0 {
        assert(parts.take(0) == Seq::<Seq<LineOp>>::empty());
        assert(ops.take(0) == Seq::<LineOp>::empty());
    } else {
        lemma_steps(ops, old_lines, new_lines, n, i - 1);
        assert(parts.take(i).drop_last() == parts.take(i - 1));
        assert(parts.take(i).last() == line_diff::shown_part(ops, i - 1, n));
        lemma_places_add(text::joined(parts.take(i - 1)), parts[i - 1]);
        let p = places(ops.take(i - 1)).len() as int;
        let own = op_places(ops[i - 1]);
        lemma_places_at(ops, i - 1);
        lemma_picked_split(all, keep, p, own.len() as int);
        let rest = |k: int| keep(p + k);
        let near = |k: int| place_near(all, n, p + k);
        lemma_picked_same(own, own, rest, near, own.len() as int);
        if ops.len() == 1 && ops[0].kind is Equal {
            assert(ops == seq![ops[0]]);
            groups::lemma_no_edits(ops);
        }
        lemma_stands(ops, old_lines, new_lines, i - 1);
        lemma_step(ops, old_lines, new_lines, n, i - 1);
    }
}

/// A step that changes something is among the changes.
proof fn lemma_some_edit(ops: Seq<LineOp>, i: int)
    requires
        0 <= i < ops.len(),
        !(ops[i].kind is Equal),
    ensures
        line_diff::edits(ops).len() > 0,
    decreases ops.len(),
{
    reveal(Seq::filter);
    if i < ops.len() - 1 {
        lemma_some_edit(ops.drop_last(), i);
    }
}

/// The row of a line, without its HTML where it changed.
spec fn outline_at(
    place: Place,
    old_lines: Seq<Text>,
    new_lines: Seq<Text>,
    new_tokens: Seq<Seq<TokenView>>,
) -> RowView {
    let line = if place.tag is Insert {
        new_lines[place.new->0]
    } else {
        old_lines[place.old->0]
    };
    RowView {
        kind: diff::kind_of(place.tag),
        old: match place.old {
            Some(i) => Some(diff::line_number(i as usize)),
            None => None,
        },
        new: match place.new {
            Some(i) => Some(diff::line_number(i as usize)),
            None => None,
        },
        html: if place.tag is Equal {
            render::rendered(
                diff::bare_line(line),
                diff::tokens_at(new_tokens, Some(place.new->0 as usize)),
                diff::emphasis_of(seq![(false, line)]),
            )
        } else {
            Seq::empty()
        },
        no_newline: line_diff::lacks_newline(line),
    }
}

/// The rows of lines, without their HTML where they changed.
spec fn outlines_at(
    all: Seq<Place>,
    old_lines: Seq<Text>,
    new_lines: Seq<Text>,
    new_tokens: Seq<Seq<TokenView>>,
) -> Seq<RowView> {
    all.map_values(|place: Place| outline_at(place, old_lines, new_lines, new_tokens))
}

/// A row tells by its kind whether its line changed.
proof fn lemma_kinds(tag: LineTag)
    ensures
        (diff::kind_of(tag) == "ctx"@) == (tag is Equal),
{
    reveal_strlit("ctx");
    reveal_strlit("del");
    reveal_strlit("add");
    assert("ctx"@[0] == 'c' && "del"@[0] == 'd' && "add"@[0] == 'a');
}

/// An unmarked line in one part is that line.
proof fn lemma_plain_values(values: Seq<(bool, Text)>, line: Text)
    requires
        values.len() == 1,
        !values[0].0,
        line_diff::text_of_values(values) == line,
    ensures
        values == seq![(false, line)],
{
    assert(values.drop_last() == Seq::<(bool, Text)>::empty());
    assert(line_diff::text_of_values(values) == line_diff::text_of_values(values.drop_last())
        + values.last().1);
    assert(Seq::<char>::empty() + values[0].1 == values[0].1);
}

/// The row of a line of a step.
proof fn lemma_row(
    changes: Seq<LineChangeView>,
    op: LineOp,
    old_lines: Seq<Text>,
    new_lines: Seq<Text>,
    old_tokens: Seq<Seq<TokenView>>,
    new_tokens: Seq<Seq<TokenView>>,
    k: int,
)
    requires
        line_diff::is_op(op, old_lines, new_lines),
        line_diff::are_changes(changes, op, old_lines, new_lines),
        0 <= k < changes.len(),
    ensures
        changes.len() == op_places(op).len(),
        outline(diff::row_of(changes[k], old_tokens, new_tokens)) == outline_at(
            op_places(op)[k],
            old_lines,
            new_lines,
            new_tokens,
        ),
{
    let change = changes[k];
    let gone = op.old_end - op.old_start;
    lemma_kinds(change.tag);
    if k < gone {
        assert(line_diff::is_change(
            change,
            if op.kind is Equal {
                LineTag::Equal
            } else {
                LineTag::Delete
            },
            Some(op.old_start + k),
            if op.kind is Equal {
                Some(op.new_start + k)
            } else {
                None
            },
            old_lines[op.old_start + k],
        ));
        if op.kind is Equal {
            assert(change.values.len() == 1 && !change.values[0].0);
            lemma_plain_values(change.values, old_lines[op.old_start + k]);
        }
    } else {
        assert(line_diff::is_change(
            change,
            LineTag::Insert,
            None,
            Some(op.new_start + (k - gone)),
            new_lines[op.new_start + (k - gone)],
        ));
    }
}

/// The rows of a step.
proof fn lemma_op_rows(
    changes: Seq<LineChangeView>,
    op: LineOp,
    old_lines: Seq<Text>,
    new_lines: Seq<Text>,
    old_tokens: Seq<Seq<TokenView>>,
    new_tokens: Seq<Seq<TokenView>>,
)
    requires
        line_diff::is_op(op, old_lines, new_lines),
        line_diff::are_changes(changes, op, old_lines, new_lines),
    ensures
        outlines(diff::rows_of(changes, old_tokens, new_tokens)) == outlines_at(
            op_places(op),
            old_lines,
            new_lines,
            new_tokens,
        ),
{
    let rows = outlines(diff::rows_of(changes, old_tokens, new_tokens));
    let wanted = outlines_at(op_places(op), old_lines, new_lines, new_tokens);
    assert forall|k: int| 0 <= k < rows.len() implies rows[k] == wanted[k] by {
        lemma_row(changes, op, old_lines, new_lines, old_tokens, new_tokens, k);
    }
    assert(rows == wanted);
}

proof fn lemma_outlines_add(a: Seq<RowView>, b: Seq<RowView>)
    ensures
        outlines(a + b) == outlines(a) + outlines(b),
{
    assert(outlines(a + b) == outlines(a) + outlines(b));
}

proof fn lemma_outlines_at_add(
    a: Seq<Place>,
    b: Seq<Place>,
    old_lines: Seq<Text>,
    new_lines: Seq<Text>,
    new_tokens: Seq<Seq<TokenView>>,
)
    ensures
        outlines_at(a + b, old_lines, new_lines, new_tokens) == outlines_at(
            a,
            old_lines,
            new_lines,
            new_tokens,
        ) + outlines_at(b, old_lines, new_lines, new_tokens),
{
    assert(outlines_at(a + b, old_lines, new_lines, new_tokens) == outlines_at(
        a,
        old_lines,
        new_lines,
        new_tokens,
    ) + outlines_at(b, old_lines, new_lines, new_tokens));
}

/// The rows of the first `n` steps of a group.
proof fn lemma_group_rows(
    changes: Seq<Seq<LineChangeView>>,
    group: Seq<LineOp>,
    old_lines: Seq<Text>,
    new_lines: Seq<Text>,
    old_tokens: Seq<Seq<TokenView>>,
    new_tokens: Seq<Seq<TokenView>>,
    n: int,
)
    requires
        line_diff::are_ops(group, old_lines, new_lines),
        diff::are_group_changes(changes, group, old_lines, new_lines),
        0 <= n <= group.len(),
    ensures
        outlines(diff::rows_of(text::joined(changes.take(n)), old_tokens, new_tokens))
            == outlines_at(places(group.take(n)), old_lines, new_lines, new_tokens),
    decreases n,
{
    let rows = outlines(diff::rows_of(text::joined(changes.take(n)), old_tokens, new_tokens));
    if n == 0 {
        assert(changes.take(0) == Seq::<Seq<LineChangeView>>::empty());
        assert(group.take(0) == Seq::<LineOp>::empty());
        assert(rows == outlines_at(places(group.take(n)), old_lines, new_lines, new_tokens));
    } else {
        lemma_group_rows(changes, group, old_lines, new_lines, old_tokens, new_tokens, n - 1);
        assert(line_diff::is_op(group[n - 1], old_lines, new_lines));
        assert(line_diff::are_changes(changes[n - 1], group[n - 1], old_lines, new_lines));
        lemma_op_rows(
            changes[n - 1],
            group[n - 1],
            old_lines,
            new_lines,
            old_tokens,
            new_tokens,
        );
        assert(changes.take(n).drop_last() == changes.take(n - 1));
        assert(changes.take(n).last() == changes[n - 1]);
        assert(group.take(n).drop_last() == group.take(n - 1));
        assert(group.take(n).last() == group[n - 1]);
        let before = diff::rows_of(text::joined(changes.take(n - 1)), old_tokens, new_tokens);
        let own = diff::rows_of(changes[n - 1], old_tokens, new_tokens);
        assert(diff::rows_of(text::joined(changes.take(n)), old_tokens, new_tokens) == before
            + own);
        lemma_outlines_add(before, own);
        lemma_outlines_at_add(
            places(group.take(n - 1)),
            op_places(group[n - 1]),
            old_lines,
            new_lines,
            new_tokens,
        );
    }
}

/// The rows of a group.
proof fn lemma_hunk_rows(
    changes: Seq<Seq<LineChangeView>>,
    group: Seq<LineOp>,
    old_lines: Seq<Text>,
    new_lines: Seq<Text>,
    old_tokens: Seq<Seq<TokenView>>,
    new_tokens: Seq<Seq<TokenView>>,
)
    requires
        group.len() > 0,
        line_diff::are_ops(group, old_lines, new_lines),
        diff::are_group_changes(changes, group, old_lines, new_lines),
    ensures
        outlines(diff::hunk_of(group, changes, old_tokens, new_tokens)->0.rows) == outlines_at(
            places(group),
            old_lines,
            new_lines,
            new_tokens,
        ),
{
    lemma_group_rows(
        changes,
        group,
        old_lines,
        new_lines,
        old_tokens,
        new_tokens,
        group.len() as int,
    );
    assert(changes.take(group.len() as int) == changes);
    assert(group.take(group.len() as int) == group);
}

/// The rows of the first `n` groups.
proof fn lemma_all_rows(
    groups: Seq<Seq<LineOp>>,
    changes: Seq<Seq<Seq<LineChangeView>>>,
    old_lines: Seq<Text>,
    new_lines: Seq<Text>,
    old_tokens: Seq<Seq<TokenView>>,
    new_tokens: Seq<Seq<TokenView>>,
    n: int,
)
    requires
        forall|i: int|
            0 <= i < groups.len() ==> (#[trigger] groups[i]).len() > 0 && line_diff::are_ops(
                groups[i],
                old_lines,
                new_lines,
            ),
        diff::are_all_changes(changes, groups, old_lines, new_lines),
        0 <= n <= groups.len(),
    ensures
        outlines(all_rows(diff::hunks_of(groups, changes, old_tokens, new_tokens).take(n)))
            == outlines_at(
            places(text::joined(groups.take(n))),
            old_lines,
            new_lines,
            new_tokens,
        ),
    decreases n,
{
    let hunks = diff::hunks_of(groups, changes, old_tokens, new_tokens);
    let rows = outlines(all_rows(hunks.take(n)));
    let wanted = outlines_at(
        places(text::joined(groups.take(n))),
        old_lines,
        new_lines,
        new_tokens,
    );
    if n == 0 {
        assert(hunks.take(0) == Seq::<HunkView>::empty());
        assert(groups.take(0) == Seq::<Seq<LineOp>>::empty());
        assert(rows == wanted);
    } else {
        lemma_all_rows(groups, changes, old_lines, new_lines, old_tokens, new_tokens, n - 1);
        assert(outlines(hunks[n - 1].rows) == outlines_at(
            places(groups[n - 1]),
            old_lines,
            new_lines,
            new_tokens,
        )) by {
            assert(diff::are_group_changes(changes[n - 1], groups[n - 1], old_lines, new_lines));
            lemma_hunk_rows(
                changes[n - 1],
                groups[n - 1],
                old_lines,
                new_lines,
                old_tokens,
                new_tokens,
            );
        }
        assert(hunks.take(n).drop_last() == hunks.take(n - 1));
        assert(hunks.take(n).last() == hunks[n - 1]);
        assert(groups.take(n).drop_last() == groups.take(n - 1));
        assert(groups.take(n).last() == groups[n - 1]);
        lemma_places_add(text::joined(groups.take(n - 1)), groups[n - 1]);
        lemma_outlines_add(all_rows(hunks.take(n - 1)), hunks[n - 1].rows);
        lemma_outlines_at_add(
            places(text::joined(groups.take(n - 1))),
            places(groups[n - 1]),
            old_lines,
            new_lines,
            new_tokens,
        );
    }
}

/// Picking rows by their lines is picking them by what they show.
proof fn lemma_picked_rows(
    all: Seq<Place>,
    old_lines: Seq<Text>,
    new_lines: Seq<Text>,
    new_tokens: Seq<Seq<TokenView>>,
    n: int,
    k: int,
)
    requires
        0 <= k <= all.len(),
    ensures
        outlines_at(
            picked(all, |i: int| place_near(all, n, i), k),
            old_lines,
            new_lines,
            new_tokens,
        ) == ({
            let rows = outlines_at(all, old_lines, new_lines, new_tokens);
            picked(rows, |i: int| is_near(rows, n, i), k)
        }),
    decreases k,
{
    let rows = outlines_at(all, old_lines, new_lines, new_tokens);
    let keep = |i: int| place_near(all, n, i);
    let near = |i: int| is_near(rows, n, i);
    if k == 0 {
        assert(outlines_at(picked(all, keep, 0), old_lines, new_lines, new_tokens) == picked(
            rows,
            near,
            0,
        ));
    } else {
        lemma_picked_rows(all, old_lines, new_lines, new_tokens, n, k - 1);
        lemma_near_rows(all, old_lines, new_lines, new_tokens, n, k - 1);
        assert(keep(k - 1) == near(k - 1));
        let before = picked(all, keep, k - 1);
        assert(outlines_at(before.push(all[k - 1]), old_lines, new_lines, new_tokens)
            == outlines_at(before, old_lines, new_lines, new_tokens).push(rows[k - 1]));
    }
}

/// A row is near a changed row where its line is near a changed line.
proof fn lemma_near_rows(
    all: Seq<Place>,
    old_lines: Seq<Text>,
    new_lines: Seq<Text>,
    new_tokens: Seq<Seq<TokenView>>,
    n: int,
    i: int,
)
    ensures
        place_near(all, n, i) == is_near(
            outlines_at(all, old_lines, new_lines, new_tokens),
            n,
            i,
        ),
{
    let rows = outlines_at(all, old_lines, new_lines, new_tokens);
    assert forall|j: int| 0 <= j < all.len() implies is_changed(#[trigger] rows[j]) == !(
    all[j].tag is Equal) by {
        lemma_kinds(all[j].tag);
    }
    if place_near(all, n, i) {
        let j = choose|j: int|
            0 <= j < all.len() && i - n <= j <= i + n && !((#[trigger] all[j]).tag is Equal);
        assert(is_changed(rows[j]));
    }
    if is_near(rows, n, i) {
        let j = choose|j: int|
            0 <= j < rows.len() && i - n <= j <= i + n && is_changed(#[trigger] rows[j]);
        assert(!(all[j].tag is Equal));
    }
}

/// Steps between texts that differ change something.
proof fn lemma_differs(old_text: Text, new_text: Text, ops: Seq<LineOp>)
    requires
        old_text != new_text,
        lead(ops, line_diff::ended_lines(old_text), line_diff::ended_lines(new_text)),
    ensures
        line_diff::has_change(ops),
        line_diff::edits(ops).len() > 0,
{
    let old_lines = line_diff::ended_lines(old_text);
    let new_lines = line_diff::ended_lines(new_text);
    line_diff::law_ended_lines(old_text);
    line_diff::law_ended_lines(new_text);
    lemma_lead_ends(ops, old_lines, new_lines);
    if !line_diff::has_change(ops) {
        if ops.len() == 0 {
            assert(old_lines == new_lines);
        } else {
            lemma_stands(ops, old_lines, new_lines, 0);
            assert(ops[0].kind is Equal);
            if ops.len() == 1 {
                assert(old_lines.subrange(0, old_lines.len() as int) == old_lines);
                assert(new_lines.subrange(0, new_lines.len() as int) == new_lines);
            } else {
                assert(ops[1].kind is Equal);
            }
        }
    }
    let i = choose|i: int| 0 <= i < ops.len() && !((#[trigger] ops[i]).kind is Equal);
    lemma_some_edit(ops, i);
}

/// The steps of the difference of a file.
spec fn steps(input: InputView) -> Seq<LineOp> {
    line_diff::histogram_ops(
        line_diff::ended_lines(diff::side_text(input.old_text)),
        line_diff::ended_lines(diff::side_text(input.new_text)),
    )
}

/// What the rows of a difference are, without their HTML where they changed.
proof fn lemma_diff_rows(
    file: FileDiffView,
    set: SyntaxSet,
    rules: Seq<(Seq<Text>, Text)>,
    input: InputView,
    context: Context,
)
    requires
        diff::is_diff(file, set, rules, input, context),
        file.state == State::Rendered,
    ensures
        outlines(all_rows(file.hunks)) == outlines_at(
            places(text::joined(diff::shown_groups(steps(input), context))),
            line_diff::ended_lines(diff::side_text(input.old_text)),
            line_diff::ended_lines(diff::side_text(input.new_text)),
            highlight::tokenized(set, rules, input.path, diff::side_text(input.new_text)),
        ),
{
    let old_text = diff::side_text(input.old_text);
    let new_text = diff::side_text(input.new_text);
    let old_lines = line_diff::ended_lines(old_text);
    let new_lines = line_diff::ended_lines(new_text);
    let old_tokens = highlight::tokenized(set, rules, diff::base_path_of(input), old_text);
    let new_tokens = highlight::tokenized(set, rules, input.path, new_text);
    let groups = diff::shown_groups(steps(input), context);
    let changes = choose|changes: Seq<Seq<Seq<LineChangeView>>>| #[trigger]
        diff::are_all_changes(changes, groups, old_lines, new_lines) && file.hunks
            == diff::hunks_of(groups, changes, old_tokens, new_tokens);
    assert forall|i: int| 0 <= i < groups.len() implies (#[trigger] groups[i]).len() > 0
        && line_diff::are_ops(groups[i], old_lines, new_lines) by {
        lemma_sound(file, set, rules, input, context, i);
    }
    lemma_all_rows(
        groups,
        changes,
        old_lines,
        new_lines,
        old_tokens,
        new_tokens,
        groups.len() as int,
    );
    assert(file.hunks.take(groups.len() as int) == file.hunks);
    assert(groups.take(groups.len() as int) == groups);
}

/// The groups of a difference hold steps that say what is so.
proof fn lemma_sound(
    file: FileDiffView,
    set: SyntaxSet,
    rules: Seq<(Seq<Text>, Text)>,
    input: InputView,
    context: Context,
    i: int,
)
    requires
        diff::is_diff(file, set, rules, input, context),
        file.state == State::Rendered,
        0 <= i < diff::shown_groups(steps(input), context).len(),
    ensures
        diff::shown_groups(steps(input), context)[i].len() > 0,
        line_diff::are_ops(
            diff::shown_groups(steps(input), context)[i],
            line_diff::ended_lines(diff::side_text(input.old_text)),
            line_diff::ended_lines(diff::side_text(input.new_text)),
        ),
{
    reveal(diff::shows_every_change);
    assert(diff::is_sound(
        diff::shown_groups(steps(input), context)[i],
        line_diff::ended_lines(diff::side_text(input.old_text)),
        line_diff::ended_lines(diff::side_text(input.new_text)),
    ));
}

/// What the steps of a difference are, and what is shown of them.
proof fn lemma_steps_lead(
    file: FileDiffView,
    set: SyntaxSet,
    rules: Seq<(Seq<Text>, Text)>,
    input: InputView,
    context: Context,
)
    requires
        diff::is_diff(file, set, rules, input, context),
        file.state == State::Rendered,
    ensures
        diff::side_text(input.old_text) != diff::side_text(input.new_text),
        lead(
            steps(input),
            line_diff::ended_lines(diff::side_text(input.old_text)),
            line_diff::ended_lines(diff::side_text(input.new_text)),
        ),
        line_diff::edits(text::joined(diff::shown_groups(steps(input), context)))
            == line_diff::edits(steps(input)),
        context matches Context::Lines(n) ==> (line_diff::edits(steps(input)).len() > 0
            ==> text::joined(diff::shown_groups(steps(input), context)) == text::joined(
            line_diff::shown_parts(steps(input), n as int),
        )),
{
    let old_lines = line_diff::ended_lines(diff::side_text(input.old_text));
    let new_lines = line_diff::ended_lines(diff::side_text(input.new_text));
    assert(diff::shows_every_change(steps(input), context, old_lines, new_lines));
    lemma_lead(steps(input), context, old_lines, new_lines);
    lemma_shown(steps(input), context, old_lines, new_lines);
}

proof fn lemma_lead(
    ops: Seq<LineOp>,
    context: Context,
    old_lines: Seq<Text>,
    new_lines: Seq<Text>,
)
    requires
        diff::shows_every_change(ops, context, old_lines, new_lines),
    ensures
        lead(ops, old_lines, new_lines),
{
    reveal(diff::shows_every_change);
    reveal(lead);
}

proof fn lemma_shown(
    ops: Seq<LineOp>,
    context: Context,
    old_lines: Seq<Text>,
    new_lines: Seq<Text>,
)
    requires
        diff::shows_every_change(ops, context, old_lines, new_lines),
    ensures
        line_diff::edits(text::joined(diff::shown_groups(ops, context))) == line_diff::edits(ops),
        context matches Context::Lines(n) ==> (line_diff::edits(ops).len() > 0 ==> text::joined(
            diff::shown_groups(ops, context),
        ) == text::joined(line_diff::shown_parts(ops, n as int))),
{
    reveal(diff::shows_every_change);
}

/// A context of `n` lines shows just the rows that full context shows no more than `n` rows from
/// a change: every row that changed, and every row that is so near to one, in the same order and
/// with the same numbers. Rows of lines that stay are the same in every way; those of lines that
/// changed may differ in what of them is emphasised.
pub proof fn law_context_shows_what_is_near(
    full: FileDiffView,
    part: FileDiffView,
    set: SyntaxSet,
    rules: Seq<(Seq<Text>, Text)>,
    input: InputView,
    n: usize,
)
    requires
        diff::is_diff(full, set, rules, input, Context::Full),
        diff::is_diff(part, set, rules, input, Context::Lines(n)),
    ensures
        outlines(all_rows(part.hunks)) == rows_near(outlines(all_rows(full.hunks)), n as int),
{
    if full.state == State::Rendered {
        let ops = steps(input);
        let all = places(ops);
        let old_lines = line_diff::ended_lines(diff::side_text(input.old_text));
        let new_lines = line_diff::ended_lines(diff::side_text(input.new_text));
        let new_tokens = highlight::tokenized(
            set,
            rules,
            input.path,
            diff::side_text(input.new_text),
        );
        lemma_diff_rows(full, set, rules, input, Context::Full);
        lemma_diff_rows(part, set, rules, input, Context::Lines(n));
        lemma_steps_lead(part, set, rules, input, Context::Lines(n));
        lemma_differs(diff::side_text(input.old_text), diff::side_text(input.new_text), ops);
        lemma_joined_one(ops);
        lemma_steps(ops, old_lines, new_lines, n as int, ops.len() as int);
        let parts = line_diff::shown_parts(ops, n as int);
        assert(parts.take(ops.len() as int) == parts);
        assert(ops.take(ops.len() as int) == ops);
        lemma_picked_rows(all, old_lines, new_lines, new_tokens, n as int, all.len() as int);
    } else {
        assert(full.hunks == Seq::<HunkView>::empty());
        assert(part.hunks == Seq::<HunkView>::empty());
        assert(outlines(all_rows(full.hunks)) == Seq::<RowView>::empty());
        assert(outlines(all_rows(part.hunks)) == Seq::<RowView>::empty());
    }
}

proof fn lemma_joined_one(ops: Seq<LineOp>)
    ensures
        text::joined(seq![ops]) == ops,
{
    assert(seq![ops].drop_last() == Seq::<Seq<LineOp>>::empty());
    assert(text::joined(seq![ops].drop_last()) == Seq::<LineOp>::empty());
    assert(Seq::<LineOp>::empty() + ops == ops);
}

/// The rows that changed.
pub open spec fn changed_rows(rows: Seq<RowView>) -> Seq<RowView>
    decreases rows.len(),
{
    if rows.len() == 0 {
        rows
    } else if is_changed(rows.last()) {
        changed_rows(rows.drop_last()).push(rows.last())
    } else {
        changed_rows(rows.drop_last())
    }
}

proof fn lemma_changed_rows(rows: Seq<RowView>, n: int, k: int)
    requires
        n >= 0,
        0 <= k <= rows.len(),
    ensures
        changed_rows(picked(rows, |i: int| is_near(rows, n, i), k)) == changed_rows(rows.take(k)),
    decreases k,
{
    let keep = |i: int| is_near(rows, n, i);
    if k == 0 {
        assert(rows.take(0) == Seq::<RowView>::empty());
    } else {
        lemma_changed_rows(rows, n, k - 1);
        let before = picked(rows, keep, k - 1);
        assert(rows.take(k).drop_last() == rows.take(k - 1));
        assert(rows.take(k).last() == rows[k - 1]);
        assert(before.push(rows[k - 1]).drop_last() == before);
        if is_changed(rows[k - 1]) {
            assert(keep(k - 1));
        }
    }
}

proof fn lemma_none_near(rows: Seq<RowView>, keep: spec_fn(int) -> bool, k: int)
    requires
        0 <= k <= rows.len(),
        forall|i: int| 0 <= i < rows.len() && #[trigger] keep(i) ==> is_changed(rows[i]),
    ensures
        forall|i: int|
            0 <= i < picked(rows, keep, k).len() ==> is_changed(#[trigger] picked(rows, keep, k)[i]),
    decreases k,
{
    if k > 0 {
        lemma_none_near(rows, keep, k - 1);
        let before = picked(rows, keep, k - 1);
        let all = picked(rows, keep, k);
        assert forall|i: int| 0 <= i < all.len() implies is_changed(#[trigger] all[i]) by {
            if i < before.len() {
                assert(all[i] == before[i]);
                assert(is_changed(before[i]));
            } else {
                assert(keep(k - 1));
            }
        }
    }
}

/// The rows that changed are the same whatever the context, but for what of them is emphasised,
/// and a context of no lines shows no others.
pub proof fn law_changed_rows_are_always_shown(
    full: FileDiffView,
    part: FileDiffView,
    set: SyntaxSet,
    rules: Seq<(Seq<Text>, Text)>,
    input: InputView,
    n: usize,
)
    requires
        diff::is_diff(full, set, rules, input, Context::Full),
        diff::is_diff(part, set, rules, input, Context::Lines(n)),
    ensures
        changed_rows(outlines(all_rows(part.hunks))) == changed_rows(
            outlines(all_rows(full.hunks)),
        ),
        n == 0 ==> forall|i: int|
            0 <= i < all_rows(part.hunks).len() ==> is_changed(
                #[trigger] all_rows(part.hunks)[i],
            ),
{
    let rows = outlines(all_rows(full.hunks));
    let shown = outlines(all_rows(part.hunks));
    law_context_shows_what_is_near(full, part, set, rules, input, n);
    lemma_changed_rows(rows, n as int, rows.len() as int);
    assert(rows.take(rows.len() as int) == rows);
    if n == 0 {
        lemma_none_near(rows, |i: int| is_near(rows, n as int, i), rows.len() as int);
        assert forall|i: int| 0 <= i < all_rows(part.hunks).len() implies is_changed(
            #[trigger] all_rows(part.hunks)[i],
        ) by {
            assert(is_changed(shown[i]));
        }
    }
}

/// Whether a hunk holds a row that changed.
pub open spec fn changes_something(hunk: HunkView) -> bool {
    exists|r: int| 0 <= r < hunk.rows.len() && is_changed(#[trigger] hunk.rows[r])
}

/// A group with a change has a row that changed.
proof fn lemma_group_changes(
    changes: Seq<Seq<LineChangeView>>,
    group: Seq<LineOp>,
    old_lines: Seq<Text>,
    new_lines: Seq<Text>,
    old_tokens: Seq<Seq<TokenView>>,
    new_tokens: Seq<Seq<TokenView>>,
    e: int,
)
    requires
        line_diff::are_ops(group, old_lines, new_lines),
        diff::are_group_changes(changes, group, old_lines, new_lines),
        0 <= e < group.len(),
        !(group[e].kind is Equal),
    ensures
        changes_something(diff::hunk_of(group, changes, old_tokens, new_tokens)->0),
{
    let rows = diff::hunk_of(group, changes, old_tokens, new_tokens)->0.rows;
    let all = places(group);
    lemma_hunk_rows(changes, group, old_lines, new_lines, old_tokens, new_tokens);
    lemma_places_at(group, e);
    assert(line_diff::is_op(group[e], old_lines, new_lines));
    lemma_edit_places(group[e], old_lines, new_lines);
    let r = places(group.take(e)).len() as int;
    assert(!(op_places(group[e])[0].tag is Equal));
    assert(all[r + 0] == op_places(group[e])[0]);
    lemma_kinds(all[r].tag);
    assert(outlines(rows).len() == all.len());
    assert(is_changed(outlines(rows)[r]));
    assert(is_changed(rows[r]));
}

/// Where there is something to show, there is a hunk, and every hunk holds a row that changed.
pub proof fn law_every_hunk_changes_something(
    file: FileDiffView,
    set: SyntaxSet,
    rules: Seq<(Seq<Text>, Text)>,
    input: InputView,
    context: Context,
)
    requires
        diff::is_diff(file, set, rules, input, context),
        file.state == State::Rendered,
    ensures
        file.hunks.len() > 0,
        forall|h: int| 0 <= h < file.hunks.len() ==> changes_something(#[trigger] file.hunks[h]),
{
    let old_text = diff::side_text(input.old_text);
    let new_text = diff::side_text(input.new_text);
    let old_lines = line_diff::ended_lines(old_text);
    let new_lines = line_diff::ended_lines(new_text);
    let old_tokens = highlight::tokenized(set, rules, diff::base_path_of(input), old_text);
    let new_tokens = highlight::tokenized(set, rules, input.path, new_text);
    let groups = diff::shown_groups(steps(input), context);
    let changes = choose|changes: Seq<Seq<Seq<LineChangeView>>>| #[trigger]
        diff::are_all_changes(changes, groups, old_lines, new_lines) && file.hunks
            == diff::hunks_of(groups, changes, old_tokens, new_tokens);
    lemma_groups_change(file, set, rules, input, context);
    assert forall|h: int| 0 <= h < file.hunks.len() implies changes_something(
        #[trigger] file.hunks[h],
    ) by {
        lemma_sound(file, set, rules, input, context, h);
        assert(diff::are_group_changes(changes[h], groups[h], old_lines, new_lines));
        assert(line_diff::has_change(groups[h]));
        let e = choose|e: int| 0 <= e < groups[h].len() && !((#[trigger] groups[h][e]).kind is Equal);
        lemma_group_changes(
            changes[h],
            groups[h],
            old_lines,
            new_lines,
            old_tokens,
            new_tokens,
            e,
        );
        assert(file.hunks[h] == diff::hunk_of(groups[h], changes[h], old_tokens, new_tokens)->0);
    }
}

proof fn lemma_group_changes_something(
    file: FileDiffView,
    set: SyntaxSet,
    rules: Seq<(Seq<Text>, Text)>,
    input: InputView,
    n: usize,
    h: int,
)
    requires
        diff::is_diff(file, set, rules, input, Context::Lines(n)),
        file.state == State::Rendered,
        0 <= h < diff::shown_groups(steps(input), Context::Lines(n)).len(),
    ensures
        line_diff::has_change(diff::shown_groups(steps(input), Context::Lines(n))[h]),
{
    reveal(diff::shows_every_change);
    assert(line_diff::is_group(
        diff::shown_groups(steps(input), Context::Lines(n))[h],
        line_diff::ended_lines(diff::side_text(input.old_text)),
        line_diff::ended_lines(diff::side_text(input.new_text)),
    ));
}

proof fn lemma_groups_change(
    file: FileDiffView,
    set: SyntaxSet,
    rules: Seq<(Seq<Text>, Text)>,
    input: InputView,
    context: Context,
)
    requires
        diff::is_diff(file, set, rules, input, context),
        file.state == State::Rendered,
    ensures
        diff::shown_groups(steps(input), context).len() > 0,
        forall|h: int|
            0 <= h < diff::shown_groups(steps(input), context).len() ==> line_diff::has_change(
                #[trigger] diff::shown_groups(steps(input), context)[h],
            ),
{
    let old_text = diff::side_text(input.old_text);
    let new_text = diff::side_text(input.new_text);
    let groups = diff::shown_groups(steps(input), context);
    lemma_steps_lead(file, set, rules, input, context);
    lemma_differs(old_text, new_text, steps(input));
    match context {
        Context::Full => {
            assert(groups[0] == steps(input));
            assert(line_diff::has_change(groups[0]));
        },
        Context::Lines(n) => {
            assert forall|h: int| 0 <= h < groups.len() implies line_diff::has_change(
                #[trigger] groups[h],
            ) by {
                lemma_group_changes_something(file, set, rules, input, n, h);
            }
            if groups.len() == 0 {
                assert(text::joined(groups) == Seq::<LineOp>::empty());
                groups::lemma_no_edits(text::joined(groups));
            }
        },
    }
}

/// The kinds of the rows of a step: one for each line that stays, or one for each line that is
/// gone and behind those one for each that is new.
pub open spec fn step_kinds(op: LineOp) -> Seq<Text> {
    if op.kind is Equal {
        Seq::new((op.old_end - op.old_start) as nat, |k: int| "ctx"@)
    } else {
        Seq::new((op.old_end - op.old_start) as nat, |k: int| "del"@) + Seq::new(
            (op.new_end - op.new_start) as nat,
            |k: int| "add"@,
        )
    }
}

/// The kinds of the rows of steps.
pub open spec fn steps_kinds(ops: Seq<LineOp>) -> Seq<Text>
    decreases ops.len(),
{
    if ops.len() == 0 {
        Seq::empty()
    } else {
        steps_kinds(ops.drop_last()) + step_kinds(ops.last())
    }
}

/// The kinds of lines by where they stand.
spec fn place_kinds(all: Seq<Place>) -> Seq<Text> {
    all.map_values(|place: Place| diff::kind_of(place.tag))
}

proof fn lemma_place_kinds(ops: Seq<LineOp>, old_lines: Seq<Text>, new_lines: Seq<Text>)
    requires
        line_diff::are_ops(ops, old_lines, new_lines),
    ensures
        place_kinds(places(ops)) == steps_kinds(ops),
    decreases ops.len(),
{
    if ops.len() == 0 {
        assert(place_kinds(places(ops)) == Seq::<Text>::empty());
    } else {
        let rest = ops.drop_last();
        let op = ops.last();
        assert(line_diff::are_ops(rest, old_lines, new_lines)) by {
            assert forall|k: int| 0 <= k < rest.len() implies line_diff::is_op(
                #[trigger] rest[k],
                old_lines,
                new_lines,
            ) by {
                assert(rest[k] == ops[k]);
                assert(line_diff::is_op(ops[k], old_lines, new_lines));
            }
        }
        lemma_place_kinds(rest, old_lines, new_lines);
        assert(line_diff::is_op(ops[ops.len() - 1], old_lines, new_lines));
        assert(place_kinds(op_places(op)) == step_kinds(op));
        assert(place_kinds(places(rest) + op_places(op)) == place_kinds(places(rest))
            + place_kinds(op_places(op)));
    }
}

/// With full context the rows follow the steps from the old lines to the new: of a step that changes
/// lines, those that are gone come first, and those that are new come behind them.
pub proof fn law_rows_follow_steps(
    file: FileDiffView,
    set: SyntaxSet,
    rules: Seq<(Seq<Text>, Text)>,
    input: InputView,
    old_text: Text,
    new_text: Text,
)
    requires
        diff::is_diff(file, set, rules, input, Context::Full),
        !input.binary,
        input.old_text == Some(old_text),
        input.new_text == Some(new_text),
        old_text != new_text,
    ensures
        all_rows(file.hunks).map_values(|row: RowView| row.kind) == steps_kinds(
            line_diff::histogram_ops(
                line_diff::ended_lines(old_text),
                line_diff::ended_lines(new_text),
            ),
        ),
{
    let ops = steps(input);
    let old_lines = line_diff::ended_lines(old_text);
    let new_lines = line_diff::ended_lines(new_text);
    let tokens = highlight::tokenized(set, rules, input.path, new_text);
    let rows = all_rows(file.hunks);
    assert(file.state == State::Rendered);
    lemma_diff_rows(file, set, rules, input, Context::Full);
    lemma_joined_one(ops);
    lemma_sound(file, set, rules, input, Context::Full, 0);
    assert(diff::shown_groups(ops, Context::Full)[0] == ops);
    lemma_place_kinds(ops, old_lines, new_lines);
    let kinds = rows.map_values(|row: RowView| row.kind);
    let wanted = place_kinds(places(ops));
    assert(outlines(rows) == outlines_at(places(ops), old_lines, new_lines, tokens));
    assert(outlines(rows).len() == rows.len());
    assert(outlines_at(places(ops), old_lines, new_lines, tokens).len() == places(ops).len());
    assert forall|i: int| 0 <= i < kinds.len() implies kinds[i] == wanted[i] by {
        assert(outlines(rows)[i].kind == rows[i].kind);
        assert(outlines_at(places(ops), old_lines, new_lines, tokens)[i].kind == diff::kind_of(
            places(ops)[i].tag,
        ));
    }
    assert(kinds == wanted);
}

} // verus!
