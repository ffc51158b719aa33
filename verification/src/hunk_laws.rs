//! How the hunks of a difference count and number the lines of both texts.

use vstd::prelude::*;

use syntect::parsing::SyntaxSet;

use crate::diff;
#[allow(unused_imports)]
use crate::diff::{Context, FileDiffView, HunkView, InputView, RowView, State};
use crate::diff_laws;
use crate::highlight;
use crate::line_diff;
#[allow(unused_imports)]
use crate::line_diff::{LineChangeView, LineOp};
use crate::number;
#[allow(unused_imports)]
use crate::render::TokenView;
use crate::text;
#[allow(unused_imports)]
use crate::text::Text;

verus! {

/// The numbers that rows have on the old side, from the first row on.
pub open spec fn old_numbers(rows: Seq<RowView>) -> Seq<u32>
    decreases rows.len(),
{
    if rows.len() == 0 {
        Seq::empty()
    } else {
        match rows.last().old {
            Some(n) => old_numbers(rows.drop_last()).push(n),
            None => old_numbers(rows.drop_last()),
        }
    }
}

/// The numbers that rows have on the new side, from the first row on.
pub open spec fn new_numbers(rows: Seq<RowView>) -> Seq<u32>
    decreases rows.len(),
{
    if rows.len() == 0 {
        Seq::empty()
    } else {
        match rows.last().new {
            Some(n) => new_numbers(rows.drop_last()).push(n),
            None => new_numbers(rows.drop_last()),
        }
    }
}

/// Whether numbers go up one by one, from the one behind `start`.
pub open spec fn count_on(numbers: Seq<u32>, start: int) -> bool {
    forall|k: int| 0 <= k < numbers.len() ==> #[trigger] numbers[k] == start + k + 1
}

/// The numbers of places, counted from one.
spec fn numbered(side: Seq<(int, Text)>) -> Seq<u32> {
    side.map_values(|at: (int, Text)| ((at.0 + 1) % 0x1_0000_0000) as u32)
}

proof fn lemma_numbers(
    changes: Seq<LineChangeView>,
    old_tokens: Seq<Seq<TokenView>>,
    new_tokens: Seq<Seq<TokenView>>,
)
    ensures
        old_numbers(diff::rows_of(changes, old_tokens, new_tokens)) == numbered(
            diff_laws::old_side(changes),
        ),
        new_numbers(diff::rows_of(changes, old_tokens, new_tokens)) == numbered(
            diff_laws::new_side(changes),
        ),
    decreases changes.len(),
{
    let rows = diff::rows_of(changes, old_tokens, new_tokens);
    if changes.len() == 0 {
        assert(numbered(diff_laws::old_side(changes)) == Seq::<u32>::empty());
        assert(numbered(diff_laws::new_side(changes)) == Seq::<u32>::empty());
    } else {
        let fewer = changes.drop_last();
        let change = changes.last();
        lemma_numbers(fewer, old_tokens, new_tokens);
        assert(rows.drop_last() == diff::rows_of(fewer, old_tokens, new_tokens));
        assert(rows.last() == diff::row_of(change, old_tokens, new_tokens));
        let line = line_diff::text_of_values(change.values);
        if let Some(i) = change.old_index {
            assert(numbered(diff_laws::old_side(fewer).push((i as int, line))) == numbered(
                diff_laws::old_side(fewer),
            ).push(diff::line_number(i)));
        }
        if let Some(i) = change.new_index {
            assert(numbered(diff_laws::new_side(fewer).push((i as int, line))) == numbered(
                diff_laws::new_side(fewer),
            ).push(diff::line_number(i)));
        }
    }
}

proof fn lemma_count_on(side: Seq<(int, Text)>, lines: Seq<Text>, from: int, to: int)
    requires
        side == diff_laws::placed(lines, from, to),
        0 <= from <= to <= u32::MAX,
    ensures
        numbered(side).len() == to - from,
        count_on(numbered(side), from),
{
    assert forall|k: int| 0 <= k < numbered(side).len() implies #[trigger] numbered(side)[k] == from
        + k + 1 by {
        assert(side[k].0 == from + k);
        assert(0 <= from + k + 1 < 0x1_0000_0000);
    }
}

/// Whether the header of a hunk is of its rows: it gives, for either side, the number that the
/// first row there has or would have, and how many rows there are, and the rows are numbered on
/// from there without a gap.
pub open spec fn is_header_of(header: Text, rows: Seq<RowView>, old: int, new: int) -> bool {
    &&& old >= 0
    &&& new >= 0
    &&& header == seq!['@', '@', ' ', '-'] + number::decimal((old + 1) as nat) + seq![',']
        + number::decimal(old_numbers(rows).len()) + seq![' ', '+'] + number::decimal(
        (new + 1) as nat,
    ) + seq![','] + number::decimal(new_numbers(rows).len()) + seq![' ', '@', '@']
    &&& count_on(old_numbers(rows), old)
    &&& count_on(new_numbers(rows), new)
}

proof fn lemma_header(old: int, old_len: nat, new: int, new_len: nat)
    requires
        0 <= old,
        0 <= new,
    ensures
        diff::header_of(old, old + old_len, new, new + new_len) == seq!['@', '@', ' ', '-']
            + number::decimal((old + 1) as nat) + seq![','] + number::decimal(old_len) + seq![
            ' ',
            '+',
        ] + number::decimal((new + 1) as nat) + seq![','] + number::decimal(new_len) + seq![
            ' ',
            '@',
            '@',
        ],
{
    reveal_strlit("@@ -");
    reveal_strlit(",");
    reveal_strlit(" +");
    reveal_strlit(" @@");
    assert("@@ -"@ == seq!['@', '@', ' ', '-']);
    assert(","@ == seq![',']);
    assert(" +"@ == seq![' ', '+']);
    assert(" @@"@ == seq![' ', '@', '@']);
}

proof fn lemma_sound_group(
    ops: Seq<LineOp>,
    context: Context,
    old_lines: Seq<Text>,
    new_lines: Seq<Text>,
    h: int,
)
    requires
        diff::shows_every_change(ops, context, old_lines, new_lines),
        0 <= h < diff::shown_groups(ops, context).len(),
    ensures
        diff::is_sound(diff::shown_groups(ops, context)[h], old_lines, new_lines),
{
    reveal(diff::shows_every_change);
}

proof fn lemma_hunk(
    group: Seq<LineOp>,
    changes: Seq<Seq<LineChangeView>>,
    old_lines: Seq<Text>,
    new_lines: Seq<Text>,
    old_tokens: Seq<Seq<TokenView>>,
    new_tokens: Seq<Seq<TokenView>>,
)
    requires
        diff::is_sound(group, old_lines, new_lines),
        diff::are_group_changes(changes, group, old_lines, new_lines),
        old_lines.len() <= u32::MAX,
        new_lines.len() <= u32::MAX,
    ensures
        ({
            let hunk = diff::hunk_of(group, changes, old_tokens, new_tokens)->0;
            &&& is_header_of(hunk.header, hunk.rows, group[0].old_start, group[0].new_start)
            &&& old_numbers(hunk.rows).len() == group.last().old_end - group[0].old_start
            &&& new_numbers(hunk.rows).len() == group.last().new_end - group[0].new_start
        }),
{
    let all = text::joined(changes);
    let rows = diff::rows_of(all, old_tokens, new_tokens);
    diff_laws::law_hunk_tells_both_sides(changes, group, old_lines, new_lines);
    diff::lemma_chain_forward(group, old_lines, new_lines, group.len() - 1);
    lemma_numbers(all, old_tokens, new_tokens);
    let (a, b) = (group[0].old_start, group.last().old_end);
    let (c, d) = (group[0].new_start, group.last().new_end);
    assert(line_diff::is_op(group[0], old_lines, new_lines));
    assert(line_diff::is_op(group[group.len() - 1], old_lines, new_lines));
    lemma_count_on(diff_laws::old_side(all), old_lines, a, b);
    lemma_count_on(diff_laws::new_side(all), new_lines, c, d);
    lemma_header(a, (b - a) as nat, c, (d - c) as nat);
}

/// The groups and lines that the hunks of a difference were made of.
proof fn lemma_made_of(
    file: FileDiffView,
    set: SyntaxSet,
    rules: Seq<(Seq<Text>, Text)>,
    input: InputView,
    context: Context,
    h: int,
) -> (made: (Seq<Seq<LineChangeView>>, Seq<Seq<TokenView>>, Seq<Seq<TokenView>>))
    requires
        diff::is_diff(file, set, rules, input, context),
        0 <= h < file.hunks.len(),
    ensures
        ({
            let old_lines = line_diff::ended_lines(diff::side_text(input.old_text));
            let new_lines = line_diff::ended_lines(diff::side_text(input.new_text));
            let groups = diff::shown_groups(
                line_diff::histogram_ops(old_lines, new_lines),
                context,
            );
            &&& file.hunks.len() == groups.len()
            &&& diff::are_group_changes(made.0, groups[h], old_lines, new_lines)
            &&& file.hunks[h] == diff::hunk_of(groups[h], made.0, made.1, made.2)->0
            &&& diff::is_sound(groups[h], old_lines, new_lines)
        }),
{
    let old_text = diff::side_text(input.old_text);
    let new_text = diff::side_text(input.new_text);
    let old_lines = line_diff::ended_lines(old_text);
    let new_lines = line_diff::ended_lines(new_text);
    let old_tokens = highlight::tokenized(set, rules, diff::base_path_of(input), old_text);
    let new_tokens = highlight::tokenized(set, rules, input.path, new_text);
    let ops = line_diff::histogram_ops(old_lines, new_lines);
    let groups = diff::shown_groups(ops, context);
    assert(file.state == State::Rendered);
    let changes = choose|changes: Seq<Seq<Seq<LineChangeView>>>| #[trigger]
        diff::are_all_changes(changes, groups, old_lines, new_lines) && file.hunks
            == diff::hunks_of(groups, changes, old_tokens, new_tokens);
    assert(diff::are_group_changes(changes[h], groups[h], old_lines, new_lines));
    lemma_sound_group(ops, context, old_lines, new_lines, h);
    (changes[h], old_tokens, new_tokens)
}

/// The header of every hunk says which lines of either text its rows are, and the rows are just
/// those lines, in order and without a gap.
pub proof fn law_header_tells_of_rows(
    file: FileDiffView,
    set: SyntaxSet,
    rules: Seq<(Seq<Text>, Text)>,
    input: InputView,
    context: Context,
    h: int,
)
    requires
        diff::is_diff(file, set, rules, input, context),
        0 <= h < file.hunks.len(),
        input.old_text matches Some(s) ==> line_diff::ended_lines(s).len() <= u32::MAX,
        input.new_text matches Some(s) ==> line_diff::ended_lines(s).len() <= u32::MAX,
    ensures
        exists|old: int, new: int| #[trigger]
            is_header_of(file.hunks[h].header, file.hunks[h].rows, old, new),
{
    let old_lines = line_diff::ended_lines(diff::side_text(input.old_text));
    let new_lines = line_diff::ended_lines(diff::side_text(input.new_text));
    let groups = diff::shown_groups(line_diff::histogram_ops(old_lines, new_lines), context);
    let (changes, old_tokens, new_tokens) = lemma_made_of(file, set, rules, input, context, h);
    lemma_hunk(groups[h], changes, old_lines, new_lines, old_tokens, new_tokens);
    assert(is_header_of(
        file.hunks[h].header,
        file.hunks[h].rows,
        groups[h][0].old_start,
        groups[h][0].new_start,
    ));
}

/// With full context a difference is one hunk, whose rows are all lines of both texts: on either
/// side they are numbered from one to the number of lines.
pub proof fn law_full_context_numbers_both_texts(
    file: FileDiffView,
    set: SyntaxSet,
    rules: Seq<(Seq<Text>, Text)>,
    input: InputView,
    old_text: Text,
    new_text: Text,
)
    requires
        diff::is_diff(file, set, rules, input, Context::Full),
        !input.binary,
        input.old_text == Some(old_text),
        input.new_text == Some(new_text),
        old_text != new_text,
        line_diff::ended_lines(old_text).len() <= u32::MAX,
        line_diff::ended_lines(new_text).len() <= u32::MAX,
    ensures
        file.hunks.len() == 1,
        old_numbers(file.hunks[0].rows).len() == line_diff::ended_lines(old_text).len(),
        count_on(old_numbers(file.hunks[0].rows), 0),
        new_numbers(file.hunks[0].rows).len() == line_diff::ended_lines(new_text).len(),
        count_on(new_numbers(file.hunks[0].rows), 0),
{
    let old_lines = line_diff::ended_lines(old_text);
    let new_lines = line_diff::ended_lines(new_text);
    let ops = line_diff::histogram_ops(old_lines, new_lines);
    let groups = diff::shown_groups(ops, Context::Full);
    assert(file.state == State::Rendered);
    assert(file.hunks.len() == 1);
    let (changes, old_tokens, new_tokens) = lemma_made_of(
        file,
        set,
        rules,
        input,
        Context::Full,
        0,
    );
    lemma_hunk(groups[0], changes, old_lines, new_lines, old_tokens, new_tokens);
    lemma_leads(ops, Context::Full, old_lines, new_lines);
}

proof fn lemma_leads(
    ops: Seq<LineOp>,
    context: Context,
    old_lines: Seq<Text>,
    new_lines: Seq<Text>,
)
    requires
        diff::shows_every_change(ops, context, old_lines, new_lines),
    ensures
        line_diff::leads(ops, old_lines, new_lines),
{
    reveal(diff::shows_every_change);
}

/// A difference is shown under the path, the old path, the status and the line counts that it was
/// asked for with. It is binary where it is called so; missing where neither side is there;
/// identical where both sides are the same, one that is not there being empty; and else it has
/// hunks. Without hunks to show, there are none.
pub proof fn law_diff_says_what_it_is(
    file: FileDiffView,
    set: SyntaxSet,
    rules: Seq<(Seq<Text>, Text)>,
    input: InputView,
    context: Context,
)
    requires
        diff::is_diff(file, set, rules, input, context),
    ensures
        file.path == input.path,
        file.old_path == input.old_path,
        file.status == input.status,
        file.additions == input.additions,
        file.deletions == input.deletions,
        input.binary ==> file.state == State::Binary && file.hunks.len() == 0,
        !input.binary && input.old_text is None && input.new_text is None ==> file.state
            == State::Missing && file.hunks.len() == 0,
        !input.binary && input.old_text is Some && input.new_text == input.old_text ==> file.state
            == State::Identical && file.hunks.len() == 0,
        !input.binary && input.old_text is None && input.new_text == Some(Seq::<char>::empty())
            ==> file.state == State::Identical,
        !input.binary && input.new_text is None && input.old_text == Some(Seq::<char>::empty())
            ==> file.state == State::Identical,
        !input.binary && input.old_text is Some && input.new_text is Some && input.old_text
            != input.new_text ==> file.state == State::Rendered,
        !input.binary && input.old_text is None && input.new_text is Some && input.new_text->0.len()
            > 0 ==> file.state == State::Rendered,
        !input.binary && input.new_text is None && input.old_text is Some && input.old_text->0.len()
            > 0 ==> file.state == State::Rendered,
        highlight::language_of(set, input.path) is Some ==> file.language == highlight::language_of(
            set,
            input.path,
        ),
        highlight::language_of(set, input.path) is None ==> file.language == (
        match input.old_path {
            Some(old) => highlight::language_of(set, old),
            None => None,
        }),
{
}

/// A file is shown under its path and in its language, with a row for each of its lines, and with
/// one for an empty file.
pub proof fn law_view_says_what_it_is(
    set: SyntaxSet,
    rules: Seq<(Seq<Text>, Text)>,
    path: Text,
    file: Option<Text>,
    binary: bool,
)
    ensures
        diff::view_of(set, rules, path, file, binary).path == path,
        diff::view_of(set, rules, path, file, binary).language == highlight::language_of(set, path),
        binary ==> diff::view_of(set, rules, path, file, binary).state == State::Binary,
        !binary && file is None ==> diff::view_of(set, rules, path, file, binary).state
            == State::Missing,
        !binary && file is Some ==> diff::view_of(set, rules, path, file, binary).state
            == State::Rendered,
        binary || file is None ==> diff::view_of(set, rules, path, file, binary).lines.len() == 0,
        !binary && file is Some ==> diff::view_of(set, rules, path, file, binary).lines.len() == (
        if file->0.len() == 0 {
            1
        } else {
            text::lines_of(file->0).len()
        }),
{
    if let Some(content) = file {
        diff_laws::law_view_line_count(
            content,
            highlight::tokenized(set, rules, path, content),
        );
    }
}

} // verus!
