//! What each row of a difference and each line of a view is marked with.

use vstd::prelude::*;
use vstd::utf8::*;

use syntect::parsing::SyntaxSet;

use crate::diff;
#[allow(unused_imports)]
use crate::diff::{Context, FileDiffView, InputView, RowView, State};
use crate::diff_laws;
use crate::highlight;
use crate::highlight_laws;
use crate::line_diff;
#[allow(unused_imports)]
use crate::line_diff::{LineChangeView, LineOp, LineTag};
use crate::marks;
use crate::markup;
use crate::render;
#[allow(unused_imports)]
use crate::render::TokenView;
use crate::text;
#[allow(unused_imports)]
use crate::text::Text;

verus! {

/// The tokens that highlighting a file gives for its line `i`, counted from zero.
pub open spec fn line_tokens(
    set: SyntaxSet,
    rules: Seq<(Seq<Text>, Text)>,
    path: Text,
    file: Text,
    i: int,
) -> Seq<TokenView> {
    if 0 <= i < highlight::tokenized(set, rules, path, file).len() {
        highlight::tokenized(set, rules, path, file)[i]
    } else {
        Seq::empty()
    }
}

/// Whether a row is of a line: it shows the line without what ends it, says whether nothing ends
/// it, and marks every character with the class of the token that lies over it. What is emphasised
/// beside that is left open.
pub open spec fn is_row_of(row: RowView, line: Text, tokens: Seq<TokenView>) -> bool {
    &&& markup::shown(row.html) == diff::bare_line(line)
    &&& row.no_newline == (line.len() > 0 && line.last() != '\n' && line.last() != '\r')
    &&& marks::fall_on_characters(diff::bare_line(line), tokens) ==> exists|
        emphasized: spec_fn(int) -> bool,
    | #[trigger]
        marks::is_marked(row.html, diff::bare_line(line), tokens, emphasized)
}

/// Whether a row is of a line, as above, and nothing of it is emphasised.
pub open spec fn is_plain_row_of(row: RowView, line: Text, tokens: Seq<TokenView>) -> bool {
    &&& is_row_of(row, line, tokens)
    &&& marks::fall_on_characters(diff::bare_line(line), tokens) ==> marks::is_marked(
        row.html,
        diff::bare_line(line),
        tokens,
        |p: int| false,
    )
}

/// The place that an element of a concatenation has in its part.
proof fn lemma_joined_at<T>(parts: Seq<Seq<T>>, r: int) -> (at: (int, int))
    requires
        0 <= r < text::joined(parts).len(),
    ensures
        0 <= at.0 < parts.len(),
        0 <= at.1 < parts[at.0].len(),
        text::joined(parts)[r] == parts[at.0][at.1],
    decreases parts.len(),
{
    let before = text::joined(parts.drop_last());
    if r < before.len() {
        let at = lemma_joined_at(parts.drop_last(), r);
        assert(parts.drop_last()[at.0] == parts[at.0]);
        at
    } else {
        (parts.len() - 1, r - before.len())
    }
}

/// The bytes of a part are no more than those of the whole.
proof fn lemma_part_fits(parts: Seq<Text>, i: int)
    requires
        0 <= i < parts.len(),
    ensures
        encode_utf8(parts[i]).len() <= encode_utf8(text::joined(parts)).len(),
    decreases parts.len(),
{
    let rest = parts.drop_last();
    text::lemma_encode_add(text::joined(rest), parts.last());
    if i < parts.len() - 1 {
        lemma_part_fits(rest, i);
        assert(rest[i] == parts[i]);
    }
}

/// A line without what ends it is a start of it.
pub proof fn lemma_bare_prefix(line: Text) -> (n: int)
    ensures
        0 <= n <= line.len(),
        diff::bare_line(line) == line.take(n),
{
    let m = lemma_trailing(line, '\n');
    let n = lemma_trailing(line.take(m), '\r');
    assert(line.take(m).take(n) == line.take(n));
    n
}

proof fn lemma_trailing(s: Text, c: char) -> (m: int)
    ensures
        0 <= m <= s.len(),
        text::without_trailing(s, c) == s.take(m),
        forall|j: int| m <= j < s.len() ==> s[j] == c,
        m > 0 ==> s[m - 1] != c,
    decreases s.len(),
{
    if s.len() > 0 && s.last() == c {
        let m = lemma_trailing(s.drop_last(), c);
        assert(s.drop_last().take(m) == s.take(m));
        assert forall|j: int| m <= j < s.len() implies s[j] == c by {
            if j < s.len() - 1 {
                assert(s.drop_last()[j] == s[j]);
            }
        }
        m
    } else {
        assert(s.take(s.len() as int) == s);
        s.len() as int
    }
}

/// Whether a byte of a line is one that a character starts at, or the end of the line.
spec fn is_start(line: Text, e: int) -> bool {
    exists|k: int| 0 <= k <= line.len() && #[trigger] marks::byte_of(line, k) == e
}

proof fn lemma_start_stays(line: Text, more: Text, e: int)
    requires
        is_start(line, e),
    ensures
        is_start(line + more, e),
{
    let k = choose|k: int| 0 <= k <= line.len() && #[trigger] marks::byte_of(line, k) == e;
    assert((line + more).take(k) == line.take(k));
    assert(marks::byte_of(line + more, k) == e);
}

/// What is marked of a line starts and ends at characters.
proof fn lemma_marked_at_starts(values: Seq<(bool, Text)>)
    requires
        encode_utf8(line_diff::text_of_values(values)).len() <= usize::MAX,
    ensures
        forall|i: int|
            0 <= i < diff::marked(values).len() ==> is_start(
                line_diff::text_of_values(values),
                (#[trigger] diff::marked(values)[i]).0 as int,
            ) && is_start(
                line_diff::text_of_values(values),
                diff::marked(values)[i].1 as int,
            ),
    decreases values.len(),
{
    if values.len() > 0 {
        let rest = values.drop_last();
        let before = line_diff::text_of_values(rest);
        let part = values.last().1;
        let line = line_diff::text_of_values(values);
        let old = diff::marked(rest);
        let ranges = diff::marked(values);
        text::lemma_encode_add(before, part);
        lemma_marked_at_starts(rest);
        let start = encode_utf8(before).len() as int;
        let end = encode_utf8(line).len() as int;
        assert(before.take(before.len() as int) == before);
        assert(line.take(line.len() as int) == line);
        assert(marks::byte_of(before, before.len() as int) == start);
        assert(marks::byte_of(line, line.len() as int) == end);
        assert(is_start(before, start));
        assert(is_start(line, end));
        lemma_start_stays(before, part, start);
        assert forall|i: int| 0 <= i < ranges.len() implies is_start(
            line,
            (#[trigger] ranges[i]).0 as int,
        ) && is_start(line, ranges[i].1 as int) by {
            if i < old.len() {
                assert(is_start(before, old[i].0 as int) && is_start(before, old[i].1 as int));
                lemma_start_stays(before, part, old[i].0 as int);
                lemma_start_stays(before, part, old[i].1 as int);
            }
        }
    }
}

proof fn lemma_start_is_boundary(line: Text, n: int, e: int)
    requires
        0 <= n <= line.len(),
        is_start(line, e),
        e < encode_utf8(line.take(n)).len(),
    ensures
        is_char_boundary(encode_utf8(line.take(n)), e),
{
    let k = choose|k: int| 0 <= k <= line.len() && #[trigger] marks::byte_of(line, k) == e;
    if k > n {
        marks::lemma_byte_of_grows(line, n, k);
    }
    assert(line.take(n).take(k) == line.take(k));
    assert(marks::byte_of(line.take(n), k) == e);
    marks::lemma_byte_of_is_boundary(line.take(n), k);
}

/// What is emphasised of a line starts and ends at characters of what is shown of it.
proof fn lemma_emphasis_on_characters(values: Seq<(bool, Text)>)
    requires
        encode_utf8(line_diff::text_of_values(values)).len() <= usize::MAX,
    ensures
        marks::ranges_on_characters(
            diff::bare_line(line_diff::text_of_values(values)),
            diff::emphasis_of(values),
        ),
{
    let line = line_diff::text_of_values(values);
    let n = lemma_bare_prefix(line);
    let ranges = diff::emphasis_of(values);
    lemma_marked_at_starts(values);
    assert forall|i: int| 0 <= i < ranges.len() implies {
        &&& (#[trigger] ranges[i]).0 < encode_utf8(line.take(n)).len() ==> is_char_boundary(
            encode_utf8(line.take(n)),
            ranges[i].0 as int,
        )
        &&& ranges[i].1 < encode_utf8(line.take(n)).len() ==> is_char_boundary(
            encode_utf8(line.take(n)),
            ranges[i].1 as int,
        )
    } by {
        assert(ranges[i] == diff::marked(values)[i]);
        if ranges[i].0 < encode_utf8(line.take(n)).len() {
            lemma_start_is_boundary(line, n, ranges[i].0 as int);
        }
        if ranges[i].1 < encode_utf8(line.take(n)).len() {
            lemma_start_is_boundary(line, n, ranges[i].1 as int);
        }
    }
}

/// The tokens of a highlighted line end no tag.
proof fn lemma_line_tokens(
    set: SyntaxSet,
    rules: Seq<(Seq<Text>, Text)>,
    path: Text,
    file: Text,
    i: int,
)
    requires
        highlight::follow_table(rules),
    ensures
        markup::classes_stay_in_tags(line_tokens(set, rules, path, file, i)),
{
    highlight_laws::law_one_entry_per_line(set, rules, path, file);
    if 0 <= i < text::lines_of(file).len() {
        highlight_laws::lemma_classes_stay_in_tags(set, rules, path, file, i);
    }
}

/// The row of a line that is rendered with the tokens of a highlighted line.
proof fn lemma_row_of(row: RowView, values: Seq<(bool, Text)>, tokens: Seq<TokenView>)
    requires
        markup::classes_stay_in_tags(tokens),
        encode_utf8(line_diff::text_of_values(values)).len() <= usize::MAX,
        row.html == render::rendered(
            diff::bare_line(line_diff::text_of_values(values)),
            tokens,
            diff::emphasis_of(values),
        ),
        row.no_newline == line_diff::lacks_newline(line_diff::text_of_values(values)),
    ensures
        is_row_of(row, line_diff::text_of_values(values), tokens),
        values.len() == 1 && !values[0].0 ==> is_plain_row_of(
            row,
            line_diff::text_of_values(values),
            tokens,
        ),
{
    let line = line_diff::text_of_values(values);
    let bare = diff::bare_line(line);
    let emphasis = diff::emphasis_of(values);
    markup::law_render_shows_line(bare, tokens, emphasis);
    lemma_emphasis_on_characters(values);
    if marks::fall_on_characters(bare, tokens) {
        marks::law_characters_carry_their_class(bare, tokens, emphasis);
        if values.len() == 1 && !values[0].0 {
            reveal_with_fuel(diff::marked, 2);
            assert(values.drop_last() == Seq::<(bool, Text)>::empty());
            assert(emphasis == Seq::<(usize, usize)>::empty());
            let emphasized = |p: int| marks::in_ranges(emphasis, p);
            assert(emphasized =~= |p: int| false);
        }
    }
}

/// The groups of a difference hold steps that say what is so.
proof fn lemma_group_ops(
    ops: Seq<LineOp>,
    context: Context,
    old_lines: Seq<Text>,
    new_lines: Seq<Text>,
    h: int,
    g: int,
)
    requires
        diff::shows_every_change(ops, context, old_lines, new_lines),
        0 <= h < diff::shown_groups(ops, context).len(),
        0 <= g < diff::shown_groups(ops, context)[h].len(),
    ensures
        line_diff::is_op(diff::shown_groups(ops, context)[h][g], old_lines, new_lines),
{
    reveal(diff::shows_every_change);
    assert(diff::is_sound(diff::shown_groups(ops, context)[h], old_lines, new_lines));
}

proof fn lemma_number(i: usize, len: nat)
    requires
        i < len <= u32::MAX,
    ensures
        diff::line_number(i) == i + 1,
{
}

/// What the rows of a file are, line by line. A row that is new is the line of the new text with
/// its number, marked as highlighting the new text marks that line; a row that is gone is the line
/// of the old text with its number, marked as highlighting the old text, under the path that it
/// had, marks that line; and a row that stays is a line that both texts have, marked as the new
/// one, with nothing emphasised.
pub open spec fn is_row(
    row: RowView,
    set: SyntaxSet,
    rules: Seq<(Seq<Text>, Text)>,
    old_path: Text,
    old_text: Text,
    new_path: Text,
    new_text: Text,
) -> bool {
    let old_lines = line_diff::ended_lines(old_text);
    let new_lines = line_diff::ended_lines(new_text);
    ||| {
        &&& row.kind == "add"@
        &&& row.old is None
        &&& row.new matches Some(n) && 1 <= n <= new_lines.len() && is_row_of(
            row,
            new_lines[n - 1],
            line_tokens(set, rules, new_path, new_text, n - 1),
        )
    }
    ||| {
        &&& row.kind == "del"@
        &&& row.new is None
        &&& row.old matches Some(n) && 1 <= n <= old_lines.len() && is_row_of(
            row,
            old_lines[n - 1],
            line_tokens(set, rules, old_path, old_text, n - 1),
        )
    }
    ||| {
        &&& row.kind == "ctx"@
        &&& row.old is Some && 1 <= row.old->0 <= old_lines.len()
        &&& row.new is Some && 1 <= row.new->0 <= new_lines.len()
        &&& old_lines[row.old->0 - 1] == new_lines[row.new->0 - 1]
        &&& is_plain_row_of(
            row,
            new_lines[row.new->0 - 1],
            line_tokens(set, rules, new_path, new_text, row.new->0 - 1),
        )
    }
}

proof fn lemma_change_is_row(
    changes: Seq<LineChangeView>,
    op: LineOp,
    set: SyntaxSet,
    rules: Seq<(Seq<Text>, Text)>,
    old_path: Text,
    old_text: Text,
    new_path: Text,
    new_text: Text,
    k: int,
)
    requires
        highlight::follow_table(rules),
        line_diff::is_op(op, line_diff::ended_lines(old_text), line_diff::ended_lines(new_text)),
        line_diff::are_changes(
            changes,
            op,
            line_diff::ended_lines(old_text),
            line_diff::ended_lines(new_text),
        ),
        0 <= k < changes.len(),
        encode_utf8(old_text).len() <= usize::MAX,
        encode_utf8(new_text).len() <= usize::MAX,
        line_diff::ended_lines(old_text).len() <= u32::MAX,
        line_diff::ended_lines(new_text).len() <= u32::MAX,
    ensures
        is_row(
            diff::row_of(
                changes[k],
                highlight::tokenized(set, rules, old_path, old_text),
                highlight::tokenized(set, rules, new_path, new_text),
            ),
            set,
            rules,
            old_path,
            old_text,
            new_path,
            new_text,
        ),
{
    let old_lines = line_diff::ended_lines(old_text);
    let new_lines = line_diff::ended_lines(new_text);
    let change = changes[k];
    let gone = op.old_end - op.old_start;
    let row = diff::row_of(
        change,
        highlight::tokenized(set, rules, old_path, old_text),
        highlight::tokenized(set, rules, new_path, new_text),
    );
    line_diff::law_ended_lines(old_text);
    line_diff::law_ended_lines(new_text);
    if k < gone {
        let at = op.old_start + k;
        assert(line_diff::is_change(
            change,
            if op.kind is Equal {
                LineTag::Equal
            } else {
                LineTag::Delete
            },
            Some(at),
            if op.kind is Equal {
                Some(op.new_start + k)
            } else {
                None
            },
            old_lines[at],
        ));
        lemma_part_fits(old_lines, at);
        lemma_number(change.old_index->0, old_lines.len());
        if op.kind is Equal {
            let there = op.new_start + k;
            assert(old_lines.subrange(op.old_start, op.old_end)[k] == old_lines[at]);
            assert(op.new_end - op.new_start == gone) by {
                assert(old_lines.subrange(op.old_start, op.old_end).len() == gone);
                assert(new_lines.subrange(op.new_start, op.new_end).len() == op.new_end
                    - op.new_start);
            }
            assert(new_lines.subrange(op.new_start, op.new_end)[k] == new_lines[there]);
            assert(there < new_lines.len());
            lemma_number(change.new_index->0, new_lines.len());
            lemma_line_tokens(set, rules, new_path, new_text, there);
            assert(change.values.len() == 1 && !change.values[0].0);
            lemma_row_of(
                row,
                change.values,
                line_tokens(set, rules, new_path, new_text, there),
            );
        } else {
            lemma_line_tokens(set, rules, old_path, old_text, at);
            lemma_row_of(row, change.values, line_tokens(set, rules, old_path, old_text, at));
        }
    } else {
        let at = op.new_start + (k - gone);
        assert(line_diff::is_change(change, LineTag::Insert, None, Some(at), new_lines[at]));
        lemma_part_fits(new_lines, at);
        lemma_number(change.new_index->0, new_lines.len());
        lemma_line_tokens(set, rules, new_path, new_text, at);
        lemma_row_of(row, change.values, line_tokens(set, rules, new_path, new_text, at));
    }
}

/// Every row of a difference is the line that it says it is, of the text that has the line, and
/// marked by the tokens that highlighting that text gives for that very line: a new row by those of
/// the new text, a row that is gone by those of the old text under the path that it had, and a row
/// that stays by those of the new text.
pub proof fn law_rows_are_marked_as_their_lines(
    file: FileDiffView,
    set: SyntaxSet,
    rules: Seq<(Seq<Text>, Text)>,
    input: InputView,
    context: Context,
    h: int,
    r: int,
)
    requires
        diff::is_diff(file, set, rules, input, context),
        highlight::follow_table(rules),
        0 <= h < file.hunks.len(),
        0 <= r < file.hunks[h].rows.len(),
        input.old_text matches Some(s) ==> encode_utf8(s).len() <= usize::MAX
            && line_diff::ended_lines(s).len() <= u32::MAX,
        input.new_text matches Some(s) ==> encode_utf8(s).len() <= usize::MAX
            && line_diff::ended_lines(s).len() <= u32::MAX,
    ensures
        is_row(
            file.hunks[h].rows[r],
            set,
            rules,
            match input.old_path {
                Some(path) => path,
                None => input.path,
            },
            match input.old_text {
                Some(s) => s,
                None => Seq::empty(),
            },
            input.path,
            match input.new_text {
                Some(s) => s,
                None => Seq::empty(),
            },
        ),
{
    let old_text = diff::side_text(input.old_text);
    let new_text = diff::side_text(input.new_text);
    let old_lines = line_diff::ended_lines(old_text);
    let new_lines = line_diff::ended_lines(new_text);
    let old_tokens = highlight::tokenized(set, rules, diff::base_path_of(input), old_text);
    let new_tokens = highlight::tokenized(set, rules, input.path, new_text);
    let ops = line_diff::histogram_ops(old_lines, new_lines);
    let groups = diff::shown_groups(ops, context);
    assert(file.state == State::Rendered);
    let changes = choose|changes: Seq<Seq<Seq<LineChangeView>>>| #[trigger]
        diff::are_all_changes(changes, groups, old_lines, new_lines) && file.hunks
            == diff::hunks_of(groups, changes, old_tokens, new_tokens);
    assert(diff::are_group_changes(changes[h], groups[h], old_lines, new_lines));
    assert(file.hunks[h] == diff::hunk_of(groups[h], changes[h], old_tokens, new_tokens)->0);
    lemma_group_is_there(ops, context, old_lines, new_lines, h);
    let all = text::joined(changes[h]);
    assert(file.hunks[h].rows == diff::rows_of(all, old_tokens, new_tokens));
    let (g, k) = lemma_joined_at(changes[h], r);
    lemma_group_ops(ops, context, old_lines, new_lines, h, g);
    assert(line_diff::are_changes(changes[h][g], groups[h][g], old_lines, new_lines));
    lemma_change_is_row(
        changes[h][g],
        groups[h][g],
        set,
        rules,
        diff::base_path_of(input),
        old_text,
        input.path,
        new_text,
        k,
    );
}

proof fn lemma_group_is_there(
    ops: Seq<LineOp>,
    context: Context,
    old_lines: Seq<Text>,
    new_lines: Seq<Text>,
    h: int,
)
    requires
        diff::shows_every_change(ops, context, old_lines, new_lines),
        0 <= h < diff::shown_groups(ops, context).len(),
    ensures
        diff::shown_groups(ops, context)[h].len() > 0,
{
    reveal(diff::shows_every_change);
    assert(diff::is_sound(diff::shown_groups(ops, context)[h], old_lines, new_lines));
}

/// Line `i` of a view shows line `i` of the file, without what ends it, and marks every character
/// with the class of the token that lies over it, of those that highlighting the file gives for
/// that very line, and with no class where none does. Nothing is emphasised.
pub proof fn law_view_is_marked_line_by_line(
    set: SyntaxSet,
    rules: Seq<(Seq<Text>, Text)>,
    path: Text,
    file: Text,
    i: int,
)
    requires
        highlight::follow_table(rules),
        0 <= i < diff::view_of(set, rules, path, Some(file), false).lines.len(),
        i <= usize::MAX,
    ensures
        ({
            let html = diff::view_of(set, rules, path, Some(file), false).lines[i];
            let line = text::without_trailing(text::split_on(file, '\n')[i], '\r');
            let tokens = line_tokens(set, rules, path, file, i);
            &&& markup::shown(html) == line
            &&& marks::fall_on_characters(line, tokens) ==> marks::is_marked(
                html,
                line,
                tokens,
                |p: int| false,
            )
        }),
{
    let html = diff::view_of(set, rules, path, Some(file), false).lines[i];
    let line = text::without_trailing(text::split_on(file, '\n')[i], '\r');
    let tokens = line_tokens(set, rules, path, file, i);
    let none = Seq::<(usize, usize)>::empty();
    lemma_line_tokens(set, rules, path, file, i);
    assert(html == render::rendered(line, tokens, none));
    markup::law_render_shows_line(line, tokens, none);
    if marks::fall_on_characters(line, tokens) {
        marks::law_characters_carry_their_class(line, tokens, none);
        let emphasized = |p: int| marks::in_ranges(none, p);
        assert(emphasized =~= |p: int| false);
    }
}

/// Whether what is marked of a line is its first `end` bytes, and these are all of it up to its
/// trailing white space, or up to what ends it.
pub open spec fn is_all_marked(values: Seq<(bool, Text)>, end: int) -> bool {
    let line = line_diff::text_of_values(values);
    &&& end == encode_utf8(text::trimmed_end(line)).len() || end >= encode_utf8(
        diff::bare_line(line),
    ).len()
    &&& forall|p: int|
        0 <= p ==> (#[trigger] diff_laws::in_changed_part(values, p) <==> p < end)
}

/// Whether a byte of a line is to be emphasised: it lies in a part that is marked as changed, and
/// not all of the line is.
pub open spec fn is_emphasized(values: Seq<(bool, Text)>, p: int) -> bool {
    diff_laws::in_changed_part(values, p) && !exists|end: int| #[trigger] is_all_marked(values, end)
}

/// Ranges that are marked are not empty where no marked part is.
proof fn lemma_marked_not_empty(values: Seq<(bool, Text)>)
    requires
        encode_utf8(line_diff::text_of_values(values)).len() <= usize::MAX,
        forall|j: int| 0 <= j < values.len() && (#[trigger] values[j]).0 ==> values[j].1.len() > 0,
    ensures
        forall|i: int|
            0 <= i < diff::marked(values).len() ==> (#[trigger] diff::marked(values)[i]).0
                < diff::marked(values)[i].1,
    decreases values.len(),
{
    if values.len() > 0 {
        let rest = values.drop_last();
        let before = line_diff::text_of_values(rest);
        let part = values.last().1;
        let old = diff::marked(rest);
        let ranges = diff::marked(values);
        text::lemma_encode_add(before, part);
        assert forall|j: int| 0 <= j < rest.len() && (#[trigger] rest[j]).0 implies rest[j].1.len()
            > 0 by {
            assert(rest[j] == values[j]);
        }
        lemma_marked_not_empty(rest);
        assert forall|i: int| 0 <= i < ranges.len() implies (#[trigger] ranges[i]).0
            < ranges[i].1 by {
            if i < old.len() {
                assert(old[i].0 < old[i].1);
            }
            if values.last().0 {
                assert(values[values.len() - 1].0);
                assert(part.take(part.len() as int) == part);
                assert(part.take(0) == Seq::<char>::empty());
                marks::lemma_byte_of_grows(part, 0, part.len() as int);
            }
        }
    }
}

/// Where all that is marked is the start of the line up to `end`, it is one range.
proof fn lemma_one_range(values: Seq<(bool, Text)>, end: int)
    requires
        encode_utf8(line_diff::text_of_values(values)).len() <= usize::MAX,
        forall|j: int| 0 <= j < values.len() && (#[trigger] values[j]).0 ==> values[j].1.len() > 0,
        diff::marked(values).len() > 0,
        forall|p: int| 0 <= p ==> (#[trigger] diff_laws::in_changed_part(values, p) <==> p < end),
    ensures
        diff::marked(values).len() == 1,
        diff::marked(values)[0].0 == 0,
        diff::marked(values)[0].1 == end,
{
    let ranges = diff::marked(values);
    diff_laws::law_marked_is_changed(values);
    lemma_marked_not_empty(values);
    let first = ranges[0];
    assert(first.0 < first.1);
    assert(render::emphasized_at(ranges, first.0 as int));
    assert(diff_laws::in_changed_part(values, first.0 as int));
    assert(diff_laws::in_changed_part(values, 0));
    assert(render::emphasized_at(ranges, 0));
    let i = choose|i: int| 0 <= i < ranges.len() && (#[trigger] ranges[i]).0 <= 0 < ranges[i].1;
    if i > 0 {
        assert(ranges[0].1 < ranges[i].0);
    }
    assert(first.0 == 0);
    if ranges.len() > 1 {
        let second = ranges[1];
        assert(second.0 < second.1);
        assert(ranges[0].1 < ranges[1].0);
        assert(render::emphasized_at(ranges, second.0 as int));
        assert(diff_laws::in_changed_part(values, second.0 as int));
        lemma_gap(values, end, first.1 as int);
    }
    if first.1 < end {
        lemma_gap(values, end, first.1 as int);
    }
    if first.1 > end {
        assert(ranges[0].0 <= end < ranges[0].1);
        assert(render::emphasized_at(ranges, end));
        assert(diff_laws::in_changed_part(values, end));
    }
}

/// No range holds where the first one ends.
proof fn lemma_gap(values: Seq<(bool, Text)>, end: int, q: int)
    requires
        encode_utf8(line_diff::text_of_values(values)).len() <= usize::MAX,
        diff::marked(values).len() > 0,
        q == diff::marked(values)[0].1,
        forall|p: int| 0 <= p ==> (#[trigger] diff_laws::in_changed_part(values, p) <==> p < end),
    ensures
        q >= end,
{
    let ranges = diff::marked(values);
    diff_laws::law_marked_is_changed(values);
    if q < end {
        assert(diff_laws::in_changed_part(values, q));
        assert(render::emphasized_at(ranges, q));
        let i = choose|i: int| 0 <= i < ranges.len() && (#[trigger] ranges[i]).0 <= q < ranges[i].1;
        if i > 0 {
            assert(ranges[0].1 < ranges[i].0);
        }
    }
}

/// What is emphasised is what is marked, unless all of the line is.
proof fn lemma_emphasis(values: Seq<(bool, Text)>, p: int)
    requires
        encode_utf8(line_diff::text_of_values(values)).len() <= usize::MAX,
        forall|j: int| 0 <= j < values.len() && (#[trigger] values[j]).0 ==> values[j].1.len() > 0,
        0 <= p,
    ensures
        marks::in_ranges(diff::emphasis_of(values), p) == is_emphasized(values, p),
{
    let ranges = diff::marked(values);
    let line = line_diff::text_of_values(values);
    diff_laws::law_marked_is_changed(values);
    assert(render::emphasized_at(ranges, p) <==> diff_laws::in_changed_part(values, p));
    assert(marks::in_ranges(ranges, p) == render::emphasized_at(ranges, p));
    let whole = ranges.len() == 1 && ranges[0].0 == 0 && diff::is_entire(line, ranges[0].1 as int);
    if whole {
        let end = ranges[0].1 as int;
        assert forall|q: int| 0 <= q implies (#[trigger] diff_laws::in_changed_part(values, q)
            <==> q < end) by {
            assert(render::emphasized_at(ranges, q) <==> diff_laws::in_changed_part(values, q));
            if q < end {
                assert(ranges[0].0 <= q < ranges[0].1);
            }
        }
        assert(is_all_marked(values, end));
        assert(!marks::in_ranges(Seq::<(usize, usize)>::empty(), p));
    } else if ranges.len() > 0 {
        if exists|end: int| #[trigger] is_all_marked(values, end) {
            let end = choose|end: int| #[trigger] is_all_marked(values, end);
            lemma_one_range(values, end);
        }
    }
}

/// The row of a line emphasises just those characters that lie in its changed parts, and none where
/// all of the line changed; and it marks each with the class of the token that lies over it, of
/// those of its own place: the old one where the line is gone, else the new one.
pub proof fn law_row_emphasises_what_changed(
    change: LineChangeView,
    old_tokens: Seq<Seq<TokenView>>,
    new_tokens: Seq<Seq<TokenView>>,
    i: usize,
)
    requires
        change.tag is Delete ==> change.old_index == Some(i) && i < old_tokens.len(),
        !(change.tag is Delete) ==> change.new_index == Some(i) && i < new_tokens.len(),
        encode_utf8(line_diff::text_of_values(change.values)).len() <= usize::MAX,
        forall|j: int|
            0 <= j < change.values.len() && (#[trigger] change.values[j]).0
                ==> change.values[j].1.len() > 0,
        markup::classes_stay_in_tags(
            if change.tag is Delete {
                old_tokens[i as int]
            } else {
                new_tokens[i as int]
            },
        ),
        marks::fall_on_characters(
            diff::bare_line(line_diff::text_of_values(change.values)),
            if change.tag is Delete {
                old_tokens[i as int]
            } else {
                new_tokens[i as int]
            },
        ),
    ensures
        marks::is_marked(
            diff::row_of(change, old_tokens, new_tokens).html,
            diff::bare_line(line_diff::text_of_values(change.values)),
            if change.tag is Delete {
                old_tokens[i as int]
            } else {
                new_tokens[i as int]
            },
            |p: int| is_emphasized(change.values, p),
        ),
{
    let values = change.values;
    let bare = diff::bare_line(line_diff::text_of_values(values));
    let tokens = if change.tag is Delete {
        old_tokens[i as int]
    } else {
        new_tokens[i as int]
    };
    let emphasis = diff::emphasis_of(values);
    let html = diff::row_of(change, old_tokens, new_tokens).html;
    lemma_emphasis_on_characters(values);
    marks::law_characters_carry_their_class(bare, tokens, emphasis);
    assert(html == render::rendered(bare, tokens, emphasis));
    let ranged = |p: int| marks::in_ranges(emphasis, p);
    let emphasized = |p: int| is_emphasized(values, p);
    assert forall|k: int| 0 <= k < bare.len() implies (#[trigger] marks::marks(html)[k]).shown
        == bare[k] && marks::carries(
        marks::marks(html)[k].classes,
        tokens,
        marks::byte_of(bare, k),
        emphasized(marks::byte_of(bare, k)),
    ) by {
        let p = marks::byte_of(bare, k);
        lemma_emphasis(values, p);
        assert(ranged(p) == emphasized(p));
    }
}

/// A line of a text ends in a newline, in a carriage return, in both or, at the end of the text, in
/// nothing. What is shown of it is all that stands before that, which holds neither.
pub proof fn law_shown_line_has_no_end(s: Text, i: int)
    requires
        0 <= i < line_diff::ended_lines(s).len(),
    ensures
        ({
            let line = line_diff::ended_lines(s)[i];
            let bare = diff::bare_line(line);
            &&& !bare.contains('\n') && !bare.contains('\r')
            &&& line == bare || line == bare + seq!['\n'] || line == bare + seq!['\r'] || line
                == bare + seq!['\r', '\n']
            &&& i < line_diff::ended_lines(s).len() - 1 ==> line != bare
        }),
{
    let line = line_diff::ended_lines(s)[i];
    lemma_ends_once(s, i);
    let m = lemma_trailing(line, '\n');
    let cut = line.take(m);
    let n = lemma_trailing(cut, '\r');
    let bare = line.take(n);
    assert(cut.take(n) == bare);
    assert(diff::bare_line(line) == bare);
    let len = line.len();
    assert forall|j: int| 0 <= j < n implies bare[j] != '\n' && bare[j] != '\r' by {
        assert(bare[j] == line[j]);
        if n > 0 {
            assert(cut[n - 1] == line[n - 1]);
        }
        if m > 0 && n == m {
            assert(line[m - 1] != '\n');
        }
    }
    if n < m {
        assert(cut[m - 1] == '\r');
        if n < m - 1 {
            assert(cut[n] == '\r' && cut[m - 1] == '\r');
            assert(line[n] == '\r');
        }
        assert(n == m - 1);
    }
    if m < len {
        if m < len - 1 {
            assert(line[m] == '\n');
        }
        assert(m == len - 1);
    }
    if n == len {
        assert(line == bare);
    } else if n == m {
        assert(line == bare + seq!['\n']);
    } else if m == len {
        assert(line == bare + seq!['\r']);
    } else {
        assert(line == bare + seq!['\r', '\n']);
    }
}

/// Within a line of a text nothing ends it but at its end, and all but the last have an end.
proof fn lemma_ends_once(s: Text, i: int)
    requires
        0 <= i < line_diff::ended_lines(s).len(),
    ensures
        ({
            let line = line_diff::ended_lines(s)[i];
            &&& line.len() > 0
            &&& forall|j: int| 0 <= j < line.len() - 1 ==> #[trigger] line[j] != '\n'
            &&& forall|j: int|
                0 <= j < line.len() - 1 && #[trigger] line[j] == '\r' ==> j == line.len() - 2
                    && line.last() == '\n'
            &&& i < line_diff::ended_lines(s).len() - 1 ==> line.last() == '\n' || line.last()
                == '\r'
        }),
    decreases s.len(),
{
    line_diff::law_ended_lines(s);
    if s.len() > 0 {
        let lines = line_diff::ended_lines(s.drop_last());
        let all = line_diff::ended_lines(s);
        let c = s.last();
        line_diff::law_ended_lines(s.drop_last());
        if lines.len() == 0 || lines.last().last() == '\n' || (lines.last().last() == '\r' && c
            != '\n') {
            assert(all == lines.push(seq![c]));
            if i < lines.len() {
                lemma_ends_once(s.drop_last(), i);
                assert(all[i] == lines[i]);
            }
        } else {
            assert(all == lines.drop_last().push(lines.last().push(c)));
            if i < lines.len() - 1 {
                lemma_ends_once(s.drop_last(), i);
                assert(all[i] == lines[i]);
            } else {
                lemma_ends_once(s.drop_last(), lines.len() - 1);
                let before = lines.last();
                let line = before.push(c);
                assert forall|j: int| 0 <= j < line.len() - 1 implies #[trigger] line[j]
                    != '\n' by {
                    assert(line[j] == before[j]);
                }
                assert forall|j: int|
                    0 <= j < line.len() - 1 && #[trigger] line[j] == '\r' implies j == line.len()
                    - 2 && line.last() == '\n' by {
                    assert(line[j] == before[j]);
                }
            }
        }
    }
}

} // verus!
