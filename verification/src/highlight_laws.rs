//! What holds of highlighting, whatever the file and whatever its grammar says.

use vstd::prelude::*;
use vstd::utf8::*;

use syntect::parsing::{SyntaxReference, SyntaxSet};

use crate::highlight;
use crate::markup;
use crate::render;
#[allow(unused_imports)]
use crate::render::TokenView;
use crate::scopes;
#[allow(unused_imports)]
use crate::scopes::{ScopeOpView, StackView};
use crate::text;
#[allow(unused_imports)]
use crate::text::Text;

verus! {

broadcast use vstd::seq_lib::group_seq_properties;

proof fn lemma_one_entry_per_line(
    rules: Seq<(Seq<Text>, Text)>,
    stack: StackView,
    lines: Seq<Text>,
    ops: Seq<Seq<(usize, ScopeOpView)>>,
)
    ensures
        highlight::classified(rules, stack, lines, ops).len() == lines.len(),
    decreases lines.len(),
{
    if lines.len() > 0 {
        if ops.len() == 0 {
            lemma_one_entry_per_line(rules, stack, lines.drop_first(), ops);
        } else {
            let len = encode_utf8(lines[0]).len() as int;
            let after = highlight::scanned(rules, Seq::empty(), 0, stack, ops[0], len).1;
            lemma_one_entry_per_line(rules, after, lines.drop_first(), ops.drop_first());
        }
    }
}

/// Highlighting always gives one entry per line.
pub proof fn law_one_entry_per_line(
    set: SyntaxSet,
    rules: Seq<(Seq<Text>, Text)>,
    path: Text,
    file: Text,
)
    ensures
        highlight::tokenized(set, rules, path, file).len() == text::lines_of(file).len(),
{
    let lines = text::lines_of(file);
    let ops = if highlight::too_large(file) {
        Seq::empty()
    } else {
        highlight::ops_from(set, highlight::grammar_for(set, path), Seq::empty(), lines)
    };
    lemma_one_entry_per_line(rules, scopes::empty_stack(), lines, ops);
}

proof fn lemma_unparsed(
    rules: Seq<(Seq<Text>, Text)>,
    stack: StackView,
    lines: Seq<Text>,
    ops: Seq<Seq<(usize, ScopeOpView)>>,
    i: int,
)
    requires
        ops.len() <= i < lines.len(),
    ensures
        highlight::classified(rules, stack, lines, ops).len() == lines.len(),
        highlight::classified(rules, stack, lines, ops)[i].len() == 0,
    decreases lines.len(),
{
    lemma_one_entry_per_line(rules, stack, lines, ops);
    if ops.len() == 0 {
        if i > 0 {
            lemma_unparsed(rules, stack, lines.drop_first(), ops, i - 1);
        }
    } else {
        let len = encode_utf8(lines[0]).len() as int;
        let after = highlight::scanned(rules, Seq::empty(), 0, stack, ops[0], len).1;
        lemma_unparsed(rules, after, lines.drop_first(), ops.drop_first(), i - 1);
    }
}

/// No line of a file that is too large is highlighted.
pub proof fn law_large_file_is_plain(
    set: SyntaxSet,
    rules: Seq<(Seq<Text>, Text)>,
    path: Text,
    file: Text,
    i: int,
)
    requires
        highlight::too_large(file),
        0 <= i < text::lines_of(file).len(),
    ensures
        highlight::tokenized(set, rules, path, file)[i].len() == 0,
{
    lemma_unparsed(rules, scopes::empty_stack(), text::lines_of(file), Seq::empty(), i);
}

proof fn lemma_parsed(
    set: SyntaxSet,
    syntax: SyntaxReference,
    before: Seq<Text>,
    lines: Seq<Text>,
    i: int,
)
    requires
        0 <= i < lines.len(),
        highlight::too_long(lines[i]),
    ensures
        highlight::ops_from(set, syntax, before, lines).len() <= i,
    decreases lines.len(),
{
    if i > 0 && !highlight::too_long(lines[0]) {
        lemma_parsed(set, syntax, before.push(lines[0]), lines.drop_first(), i - 1);
    }
}

/// From a line on that is too long to be parsed, no line of a file is highlighted.
pub proof fn law_long_line_ends_highlighting(
    set: SyntaxSet,
    rules: Seq<(Seq<Text>, Text)>,
    path: Text,
    file: Text,
    i: int,
    j: int,
)
    requires
        0 <= i <= j < text::lines_of(file).len(),
        highlight::too_long(text::lines_of(file)[i]),
    ensures
        highlight::tokenized(set, rules, path, file)[j].len() == 0,
{
    let lines = text::lines_of(file);
    let syntax = highlight::grammar_for(set, path);
    let ops = if highlight::too_large(file) {
        Seq::empty()
    } else {
        highlight::ops_from(set, syntax, Seq::empty(), lines)
    };
    lemma_parsed(set, syntax, Seq::empty(), lines, i);
    lemma_unparsed(rules, scopes::empty_stack(), lines, ops, j);
}

/// Whether tokens follow one another without overlap, from byte `from` to byte `to`, each with
/// a class and something under it, and none that goes on from the one before with its class.
pub open spec fn in_sequence(tokens: Seq<TokenView>, from: int, to: int) -> bool {
    &&& forall|i: int|
        0 <= i < tokens.len() ==> from <= (#[trigger] tokens[i]).start < tokens[i].end <= to
            && tokens[i].class.len() > 0
    &&& forall|i: int, j: int|
        0 <= i < j < tokens.len() ==> (#[trigger] tokens[i]).end <= (#[trigger] tokens[j]).start
    &&& forall|i: int|
        0 < i < tokens.len() ==> (tokens[i - 1].end < (#[trigger] tokens[i]).start || tokens[i
            - 1].class != tokens[i].class)
}

/// A range behind all others keeps tokens in sequence.
pub proof fn law_push_token(tokens: Seq<TokenView>, from: int, start: int, end: int, class: Text)
    requires
        in_sequence(tokens, from, start),
        from <= start <= end,
    ensures
        in_sequence(highlight::pushed(tokens, start, end, class), from, end),
{
    let r = highlight::pushed(tokens, start, end, class);
    if end <= start || class.len() == 0 {
        assert(r == tokens);
    } else if tokens.len() > 0 && tokens.last().end == start && tokens.last().class == class {
        let n = tokens.len() - 1;
        assert forall|i: int| 0 <= i < r.len() implies from <= (#[trigger] r[i]).start < r[i].end
            <= end && r[i].class.len() > 0 by {
            assert(from <= tokens[i].start < tokens[i].end <= start);
        }
        assert forall|i: int, j: int| 0 <= i < j < r.len() implies (#[trigger] r[i]).end <= (
        #[trigger] r[j]).start by {
            assert(tokens[i].end <= tokens[j].start);
        }
        assert forall|i: int| 0 < i < r.len() implies (r[i - 1].end < (#[trigger] r[i]).start
            || r[i - 1].class != r[i].class) by {
            assert(tokens[i - 1].end < tokens[i].start || tokens[i - 1].class != tokens[i].class);
        }
    } else {
        assert forall|i: int| 0 <= i < r.len() implies from <= (#[trigger] r[i]).start < r[i].end
            <= end && r[i].class.len() > 0 by {
            if i < tokens.len() {
                assert(r[i] == tokens[i]);
            }
        }
        assert forall|i: int, j: int| 0 <= i < j < r.len() implies (#[trigger] r[i]).end <= (
        #[trigger] r[j]).start by {
            assert(r[i] == tokens[i]);
            if j < tokens.len() {
                assert(r[j] == tokens[j]);
            }
        }
        assert forall|i: int| 0 < i < r.len() implies (r[i - 1].end < (#[trigger] r[i]).start
            || r[i - 1].class != r[i].class) by {
            assert(r[i - 1] == tokens[i - 1]);
            if i < tokens.len() {
                assert(r[i] == tokens[i]);
            } else {
                assert(tokens[i - 1].end <= start);
                assert(tokens.last() == tokens[i - 1]);
            }
        }
    }
}

/// Whether changes come in order, from byte `from` to byte `to`, and can all be made.
pub open spec fn ops_in_order(
    stack: StackView,
    ops: Seq<(usize, ScopeOpView)>,
    from: int,
    to: int,
) -> bool
    decreases ops.len(),
{
    if ops.len() == 0 {
        from <= to
    } else {
        &&& from <= ops[0].0 <= to
        &&& scopes::changed(stack, ops[0].1) matches Some(after) && ops_in_order(
            after,
            ops.drop_first(),
            ops[0].0 as int,
            to,
        )
    }
}

proof fn lemma_scanned_in_sequence(
    rules: Seq<(Seq<Text>, Text)>,
    tokens: Seq<TokenView>,
    start: int,
    stack: StackView,
    ops: Seq<(usize, ScopeOpView)>,
    len: int,
)
    requires
        0 <= start,
        in_sequence(tokens, 0, start),
        ops_in_order(stack, ops, start, len),
    ensures
        in_sequence(highlight::scanned(rules, tokens, start, stack, ops, len).0, 0, len),
    decreases ops.len(),
{
    let class = highlight::class_of(rules, stack.scopes);
    if ops.len() == 0 {
        law_push_token(tokens, 0, start, len, class);
    } else {
        let at = ops[0].0 as int;
        law_push_token(tokens, 0, start, at, class);
        let after = scopes::changed(stack, ops[0].1)->0;
        lemma_scanned_in_sequence(
            rules,
            highlight::pushed(tokens, start, at, class),
            at,
            after,
            ops.drop_first(),
            len,
        );
    }
}

/// Where a line's changes come in order and can be made, its tokens lie in the line one
/// behind the other.
pub proof fn law_tokens_in_sequence(
    rules: Seq<(Seq<Text>, Text)>,
    stack: StackView,
    ops: Seq<(usize, ScopeOpView)>,
    len: int,
)
    requires
        ops_in_order(stack, ops, 0, len),
    ensures
        in_sequence(highlight::scanned(rules, Seq::empty(), 0, stack, ops, len).0, 0, len),
{
    lemma_scanned_in_sequence(rules, Seq::empty(), 0, stack, ops, len);
}

/// A scope that no rule speaks of leaves the class to the scopes around it.
pub proof fn law_unmatched_falls_through(
    rules: Seq<(Seq<Text>, Text)>,
    around: Seq<Seq<Text>>,
    scope: Seq<Text>,
)
    requires
        highlight::rule_class(rules, scope) is None,
    ensures
        highlight::class_of(rules, around.push(scope)) == highlight::class_of(rules, around),
{
    assert(around.push(scope).drop_last() == around);
}

/// Whether every class of the tokens is that of a rule.
pub open spec fn classes_from(tokens: Seq<TokenView>, rules: Seq<(Seq<Text>, Text)>) -> bool {
    forall|i: int|
        0 <= i < tokens.len() ==> exists|k: int|
            0 <= k < rules.len() && (#[trigger] rules[k]).1 == (#[trigger] tokens[i]).class
}

proof fn lemma_rule_class(rules: Seq<(Seq<Text>, Text)>, scope: Seq<Text>)
    ensures
        highlight::rule_class(rules, scope) matches Some(class) ==> exists|k: int|
            0 <= k < rules.len() && (#[trigger] rules[k]).1 == class,
    decreases rules.len(),
{
    if rules.len() > 0 {
        if !rules[0].0.is_prefix_of(scope) {
            let rest = rules.drop_first();
            lemma_rule_class(rest, scope);
            if let Some(class) = highlight::rule_class(rest, scope) {
                let k = choose|k: int| 0 <= k < rest.len() && (#[trigger] rest[k]).1 == class;
                assert(rules[k + 1].1 == class);
            }
        } else {
            assert(rules[0].1 == rules[0].1);
        }
    }
}

proof fn lemma_class_of(rules: Seq<(Seq<Text>, Text)>, held: Seq<Seq<Text>>)
    ensures
        highlight::class_of(rules, held).len() == 0 || exists|k: int|
            0 <= k < rules.len() && (#[trigger] rules[k]).1 == highlight::class_of(rules, held),
    decreases held.len(),
{
    if held.len() > 0 {
        lemma_rule_class(rules, held.last());
        lemma_class_of(rules, held.drop_last());
    }
}

proof fn lemma_pushed_classes(
    tokens: Seq<TokenView>,
    start: int,
    end: int,
    rules: Seq<(Seq<Text>, Text)>,
    held: Seq<Seq<Text>>,
)
    requires
        classes_from(tokens, rules),
    ensures
        classes_from(
            highlight::pushed(tokens, start, end, highlight::class_of(rules, held)),
            rules,
        ),
{
    let class = highlight::class_of(rules, held);
    let r = highlight::pushed(tokens, start, end, class);
    lemma_class_of(rules, held);
    assert forall|i: int| 0 <= i < r.len() implies exists|k: int|
        0 <= k < rules.len() && (#[trigger] rules[k]).1 == (#[trigger] r[i]).class by {
        if i < tokens.len() && r[i].class == tokens[i].class {
            let k = choose|k: int|
                0 <= k < rules.len() && (#[trigger] rules[k]).1 == tokens[i].class;
            assert(rules[k].1 == r[i].class);
        } else {
            assert(r[i].class == class);
        }
    }
}

proof fn lemma_scanned_classes(
    rules: Seq<(Seq<Text>, Text)>,
    tokens: Seq<TokenView>,
    start: int,
    stack: StackView,
    ops: Seq<(usize, ScopeOpView)>,
    len: int,
)
    requires
        classes_from(tokens, rules),
    ensures
        classes_from(highlight::scanned(rules, tokens, start, stack, ops, len).0, rules),
    decreases ops.len(),
{
    let class = highlight::class_of(rules, stack.scopes);
    if ops.len() == 0 {
        lemma_pushed_classes(tokens, start, len, rules, stack.scopes);
    } else {
        let at = ops[0].0 as int;
        let next = highlight::pushed(tokens, start, at, class);
        lemma_pushed_classes(tokens, start, at, rules, stack.scopes);
        match scopes::changed(stack, ops[0].1) {
            Some(after) => {
                lemma_scanned_classes(rules, next, at, after, ops.drop_first(), len);
            },
            None => {
                lemma_pushed_classes(next, start, len, rules, stack.scopes);
            },
        }
    }
}

proof fn lemma_classified_classes(
    rules: Seq<(Seq<Text>, Text)>,
    stack: StackView,
    lines: Seq<Text>,
    ops: Seq<Seq<(usize, ScopeOpView)>>,
    i: int,
)
    requires
        0 <= i < lines.len(),
    ensures
        highlight::classified(rules, stack, lines, ops).len() == lines.len(),
        classes_from(highlight::classified(rules, stack, lines, ops)[i], rules),
    decreases lines.len(),
{
    lemma_one_entry_per_line(rules, stack, lines, ops);
    if ops.len() == 0 {
        if i > 0 {
            lemma_classified_classes(rules, stack, lines.drop_first(), ops, i - 1);
        }
    } else {
        let len = encode_utf8(lines[0]).len() as int;
        let after = highlight::scanned(rules, Seq::empty(), 0, stack, ops[0], len).1;
        if i > 0 {
            lemma_classified_classes(rules, after, lines.drop_first(), ops.drop_first(), i - 1);
        } else {
            lemma_scanned_classes(rules, Seq::empty(), 0, stack, ops[0], len);
        }
    }
}

/// Every class of a highlighted file is that of a rule.
pub proof fn law_classes_are_of_rules(
    set: SyntaxSet,
    rules: Seq<(Seq<Text>, Text)>,
    path: Text,
    file: Text,
    i: int,
)
    requires
        0 <= i < text::lines_of(file).len(),
    ensures
        classes_from(highlight::tokenized(set, rules, path, file)[i], rules),
{
    let lines = text::lines_of(file);
    let ops = if highlight::too_large(file) {
        Seq::empty()
    } else {
        highlight::ops_from(set, highlight::grammar_for(set, path), Seq::empty(), lines)
    };
    lemma_classified_classes(rules, scopes::empty_stack(), lines, ops, i);
}

/// The rules that are kept are rules of the table, each with the scope made for it.
proof fn lemma_kept(table: Seq<(Text, Text)>, made: Seq<Option<Seq<Text>>>, n: int, k: int)
    requires
        highlight::made_for(table, made),
        0 <= n <= made.len(),
        0 <= k < highlight::kept(table, made.take(n)).len(),
    ensures
        exists|i: int|
            0 <= i < table.len() && highlight::kept(table, made.take(n))[k] == (
                scopes::atoms_of((#[trigger] table[i]).0),
                table[i].1,
            ),
    decreases n,
{
    if n > 0 {
        assert(made.take(n).drop_last() == made.take(n - 1));
        assert(made.take(n).last() == made[n - 1]);
        let rest = highlight::kept(table, made.take(n - 1));
        let all = highlight::kept(table, made.take(n));
        if k < rest.len() {
            lemma_kept(table, made, n - 1, k);
            assert(all[k] == rest[k]);
        } else {
            assert(made[n - 1] is Some);
            assert(all[k] == (scopes::atoms_of(table[n - 1].0), table[n - 1].1));
        }
    }
}

/// The classes that a stylesheet sees are single letters.
proof fn lemma_rule_letters()
    ensures
        forall|i: int|
            0 <= i < highlight::class_rules().len() ==> !(
            #[trigger] highlight::class_rules()[i]).1.contains('>'),
{
    reveal_strlit("c");
    reveal_strlit("s");
    reveal_strlit("n");
    reveal_strlit("k");
    reveal_strlit("e");
    reveal_strlit("o");
    reveal_strlit("f");
    reveal_strlit("t");
}

/// The classes of a highlighted line end no tag.
pub proof fn lemma_classes_stay_in_tags(
    set: SyntaxSet,
    rules: Seq<(Seq<Text>, Text)>,
    path: Text,
    file: Text,
    i: int,
)
    requires
        highlight::follow_table(rules),
        0 <= i < text::lines_of(file).len(),
    ensures
        markup::classes_stay_in_tags(highlight::tokenized(set, rules, path, file)[i]),
{
    let table = highlight::class_rules();
    let made = choose|made: Seq<Option<Seq<Text>>>| #[trigger]
        highlight::made_for(table, made) && rules == highlight::kept(table, made);
    let tokens = highlight::tokenized(set, rules, path, file)[i];
    law_classes_are_of_rules(set, rules, path, file, i);
    lemma_rule_letters();
    assert(made.take(made.len() as int) == made);
    assert forall|j: int| 0 <= j < tokens.len() implies !(#[trigger] tokens[j]).class.contains(
        '>',
    ) by {
        let k = choose|k: int| 0 <= k < rules.len() && (#[trigger] rules[k]).1 == tokens[j].class;
        lemma_kept(table, made, made.len() as int, k);
        let n = choose|n: int|
            0 <= n < table.len() && rules[k] == (
                scopes::atoms_of((#[trigger] table[n]).0),
                table[n].1,
            );
        assert(!table[n].1.contains('>'));
    }
}

/// Highlighting and emphasis change nothing of what a line says: with the classes of any
/// highlighted line over it, a browser shows exactly the text that was rendered.
pub proof fn law_highlighted_line_shows(
    set: SyntaxSet,
    rules: Seq<(Seq<Text>, Text)>,
    path: Text,
    file: Text,
    i: int,
    line: Text,
    emphasis: Seq<(usize, usize)>,
)
    requires
        highlight::follow_table(rules),
        0 <= i < text::lines_of(file).len(),
    ensures
        markup::shown(
            render::rendered(
                line,
                highlight::tokenized(set, rules, path, file)[i],
                emphasis,
            ),
        ) == line,
{
    let tokens = highlight::tokenized(set, rules, path, file)[i];
    lemma_classes_stay_in_tags(set, rules, path, file, i);
    markup::law_render_shows_line(line, tokens, emphasis);
}

/// The first part of a text that does not start with the separator starts as the text does.
proof fn lemma_first_part(s: Text, sep: char)
    requires
        s.len() > 0,
        s[0] != sep,
    ensures
        text::split_on(s, sep).len() > 0,
        text::split_on(s, sep)[0].len() > 0,
        text::split_on(s, sep)[0][0] == s[0],
    decreases s.len(),
{
    text::law_split_join(s, sep);
    let parts = text::split_on(s.drop_last(), sep);
    if s.len() == 1 {
        reveal_with_fuel(text::split_on, 2);
        assert(s.drop_last() == Seq::<char>::empty());
        assert(text::split_on(s, sep)[0] == Seq::<char>::empty().push(s[0]));
    } else {
        lemma_first_part(s.drop_last(), sep);
        assert(s.drop_last()[0] == s[0]);
        if s.last() == sep {
            assert(text::split_on(s, sep)[0] == parts[0]);
        } else if parts.len() == 1 {
            assert(text::split_on(s, sep)[0] == parts[0].push(s.last()));
        } else {
            assert(text::split_on(s, sep)[0] == parts[0]);
        }
    }
}

/// The first parts joined start all parts joined.
proof fn lemma_join_prefix(parts: Seq<Text>, n: int, sep: char)
    requires
        1 <= n <= parts.len(),
    ensures
        text::join_with(parts.take(n), sep).is_prefix_of(text::join_with(parts, sep)),
    decreases parts.len(),
{
    if n == parts.len() {
        assert(parts.take(n) == parts);
        assert(text::join_with(parts, sep) == text::join_with(parts, sep).subrange(
            0,
            text::join_with(parts, sep).len() as int,
        ));
    } else {
        let shorter = parts.drop_last();
        lemma_join_prefix(shorter, n, sep);
        assert(shorter.take(n) == parts.take(n));
        let head = text::join_with(parts.take(n), sep);
        let whole = text::join_with(parts, sep);
        assert(whole == text::join_with(shorter, sep).push(sep) + parts.last());
        assert(head == whole.subrange(0, head.len() as int)) by {
            assert(head == text::join_with(shorter, sep).subrange(0, head.len() as int));
        }
    }
}

/// Whether a name needs no trimming: it starts and ends neither in white space nor in a dot.
spec fn is_trim(name: Text) -> bool {
    &&& name.len() > 0
    &&& !text::is_white(name[0])
    &&& !text::is_white(name.last())
    &&& name[0] != '.'
    &&& name.last() != '.'
}

proof fn lemma_atoms_of_trim(name: Text)
    requires
        is_trim(name),
    ensures
        scopes::atoms_of(name) == text::split_on(name, '.'),
{
}

/// The table's prefixes need no trimming, and none starts with a `p`.
#[verifier::rlimit(40)]
#[verifier::spinoff_prover]
proof fn lemma_rule_names()
    ensures
        forall|i: int|
            0 <= i < highlight::class_rules().len() ==> is_trim(
                (#[trigger] highlight::class_rules()[i]).0,
            ) && highlight::class_rules()[i].0[0] != 'p',
{
    reveal_strlit("comment");
    reveal_strlit("string");
    reveal_strlit("constant.numeric");
    reveal_strlit("constant.language");
    reveal_strlit("constant.character.escape");
    reveal_strlit("constant");
    reveal_strlit("keyword.operator");
    reveal_strlit("keyword");
    reveal_strlit("storage");
    reveal_strlit("entity.name.function");
    reveal_strlit("support.function");
    reveal_strlit("entity.name");
    reveal_strlit("entity.other.inherited-class");
    reveal_strlit("support.type");
    reveal_strlit("support.class");
    reveal_strlit("support.constant");
    reveal_strlit("variable.language");
    reveal_strlit("variable.function");
}

/// No prefix of the table starts a later one.
#[verifier::rlimit(80)]
#[verifier::spinoff_prover]
proof fn lemma_rule_prefixes()
    ensures
        forall|i: int, j: int|
            0 <= i < j < highlight::class_rules().len() ==> !(
            #[trigger] highlight::class_rules()[i]).0.is_prefix_of(
                (#[trigger] highlight::class_rules()[j]).0,
            ),
{
    let table = highlight::class_rules();
    reveal_strlit("comment");
    reveal_strlit("string");
    reveal_strlit("constant.numeric");
    reveal_strlit("constant.language");
    reveal_strlit("constant.character.escape");
    reveal_strlit("constant");
    reveal_strlit("keyword.operator");
    reveal_strlit("keyword");
    reveal_strlit("storage");
    reveal_strlit("entity.name.function");
    reveal_strlit("support.function");
    reveal_strlit("entity.name");
    reveal_strlit("entity.other.inherited-class");
    reveal_strlit("support.type");
    reveal_strlit("support.class");
    reveal_strlit("support.constant");
    reveal_strlit("variable.language");
    reveal_strlit("variable.function");
    assert forall|i: int, j: int| 0 <= i < j < table.len() implies !(
    #[trigger] table[i]).0.is_prefix_of((#[trigger] table[j]).0) by {
        let a = table[i].0;
        let b = table[j].0;
        if a.is_prefix_of(b) {
            let c = b.subrange(0, a.len() as int);
            assert(c[0] == b[0] && c[1] == b[1] && c[2] == b[2]);
            if a.len() > 9 {
                assert(c[7] == b[7] && c[8] == b[8] && c[9] == b[9]);
            }
        }
    }
}

/// No rule speaks of punctuation, so that a string's quotes get the class of the string.
pub proof fn law_punctuation_falls_through(
    rules: Seq<(Seq<Text>, Text)>,
    around: Seq<Seq<Text>>,
    scope: Seq<Text>,
)
    requires
        highlight::follow_table(rules),
        scope.len() > 0,
        scope[0] == "punctuation"@,
    ensures
        highlight::class_of(rules, around.push(scope)) == highlight::class_of(rules, around),
{
    let table = highlight::class_rules();
    let made = choose|made: Seq<Option<Seq<Text>>>| #[trigger]
        highlight::made_for(table, made) && rules == highlight::kept(table, made);
    lemma_rule_names();
    reveal_strlit("punctuation");
    assert(made.take(made.len() as int) == made);
    assert forall|k: int| 0 <= k < rules.len() implies !(#[trigger] rules[k]).0.is_prefix_of(
        scope,
    ) by {
        lemma_kept(table, made, made.len() as int, k);
        let n = choose|n: int|
            0 <= n < table.len() && rules[k] == (
                scopes::atoms_of((#[trigger] table[n]).0),
                table[n].1,
            );
        let name = table[n].0;
        assert(is_trim(name));
        lemma_atoms_of_trim(name);
        lemma_first_part(name, '.');
        if rules[k].0.is_prefix_of(scope) {
            assert(scope.subrange(0, rules[k].0.len() as int)[0] == scope[0]);
        }
    }
    lemma_no_rule(rules, scope);
    law_unmatched_falls_through(rules, around, scope);
}

proof fn lemma_no_rule(rules: Seq<(Seq<Text>, Text)>, scope: Seq<Text>)
    requires
        forall|k: int| 0 <= k < rules.len() ==> !(#[trigger] rules[k]).0.is_prefix_of(scope),
    ensures
        highlight::rule_class(rules, scope) is None,
    decreases rules.len(),
{
    if rules.len() > 0 {
        let rest = rules.drop_first();
        assert forall|k: int| 0 <= k < rest.len() implies !(#[trigger] rest[k]).0.is_prefix_of(
            scope,
        ) by {
            assert(rest[k] == rules[k + 1]);
        }
        lemma_no_rule(rest, scope);
    }
}

/// The rules of the table, all kept.
pub open spec fn all_rules(table: Seq<(Text, Text)>) -> Seq<(Seq<Text>, Text)> {
    table.map_values(|rule: (Text, Text)| (scopes::atoms_of(rule.0), rule.1))
}

proof fn lemma_first_rule(rules: Seq<(Seq<Text>, Text)>, scope: Seq<Text>, k: int)
    requires
        0 <= k < rules.len(),
        rules[k].0.is_prefix_of(scope),
        forall|i: int| 0 <= i < k ==> !(#[trigger] rules[i]).0.is_prefix_of(scope),
    ensures
        highlight::rule_class(rules, scope) == Some(rules[k].1),
    decreases rules.len(),
{
    if k > 0 {
        assert(!rules[0].0.is_prefix_of(scope));
        let rest = rules.drop_first();
        assert forall|i: int| 0 <= i < k - 1 implies !(#[trigger] rest[i]).0.is_prefix_of(
            scope,
        ) by {
            assert(rest[i] == rules[i + 1]);
        }
        lemma_first_rule(rest, scope, k - 1);
    }
}

/// The more specific rules come first: no rule is hidden by an earlier one, but decides the
/// class of the scope that it names.
pub proof fn law_rules_most_specific_first(k: int)
    requires
        0 <= k < highlight::class_rules().len(),
    ensures
        highlight::rule_class(
            all_rules(highlight::class_rules()),
            scopes::atoms_of(highlight::class_rules()[k].0),
        ) == Some(highlight::class_rules()[k].1),
{
    let table = highlight::class_rules();
    let rules = all_rules(table);
    let scope = scopes::atoms_of(table[k].0);
    lemma_rule_names();
    lemma_rule_prefixes();
    lemma_atoms_of_trim(table[k].0);
    text::law_split_join(table[k].0, '.');
    assert(scope.subrange(0, scope.len() as int) == scope);
    assert forall|i: int| 0 <= i < k implies !(#[trigger] rules[i]).0.is_prefix_of(scope) by {
        let a = table[i].0;
        assert(is_trim(a));
        lemma_atoms_of_trim(a);
        text::law_split_join(a, '.');
        let atoms = text::split_on(a, '.');
        if atoms.is_prefix_of(scope) {
            assert(scope.take(atoms.len() as int) == atoms);
            lemma_join_prefix(scope, atoms.len() as int, '.');
        }
    }
    lemma_first_rule(rules, scope, k);
}

} // verus!
