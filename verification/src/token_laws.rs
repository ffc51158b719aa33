//! Which class highlighting gives to each byte of a file.

use vstd::prelude::*;
use vstd::utf8::*;

use syntect::parsing::{SyntaxReference, SyntaxSet};

use crate::grammar;
use crate::highlight;
use crate::highlight_laws;
use crate::marks;
#[allow(unused_imports)]
use crate::render::TokenView;
use crate::scopes;
#[allow(unused_imports)]
use crate::scopes::{ScopeOpView, StackView};
use crate::text;
#[allow(unused_imports)]
use crate::text::Text;

verus! {

/// Whether tokens give a class to byte `p`: the first of them over it has that class, or none lies
/// over it where it has no class.
pub open spec fn give_class(tokens: Seq<TokenView>, p: int, class: Text) -> bool {
    &&& class.len() > 0 ==> exists|j: int| #[trigger]
        marks::first_over(tokens, p, j) && tokens[j].class == class
    &&& class.len() == 0 ==> forall|j: int|
        0 <= j < tokens.len() ==> !marks::lies_over(#[trigger] tokens[j], p)
}

/// The stack of scopes at byte `p` of a line: that behind all changes that are made up to there.
pub open spec fn stack_at(stack: StackView, ops: Seq<(usize, ScopeOpView)>, p: int) -> StackView
    decreases ops.len(),
{
    if ops.len() == 0 || ops[0].0 > p {
        stack
    } else {
        stack_at(scopes::changed(stack, ops[0].1)->0, ops.drop_first(), p)
    }
}

/// The stack of scopes behind a line: that behind all of its changes.
pub open spec fn stack_behind(stack: StackView, ops: Seq<(usize, ScopeOpView)>) -> StackView
    decreases ops.len(),
{
    if ops.len() == 0 {
        stack
    } else {
        stack_behind(scopes::changed(stack, ops[0].1)->0, ops.drop_first())
    }
}

/// The stack of scopes before line `i` of a file: that behind the lines before it.
pub open spec fn stack_before(
    stack: StackView,
    ops: Seq<Seq<(usize, ScopeOpView)>>,
    i: int,
) -> StackView
    decreases i,
{
    if i <= 0 {
        stack
    } else {
        stack_behind(stack_before(stack, ops, i - 1), ops[i - 1])
    }
}

proof fn lemma_pushed(tokens: Seq<TokenView>, start: int, end: int, class: Text, p: int, c: Text)
    requires
        highlight_laws::in_sequence(tokens, 0, start),
        0 <= start <= end,
        p < start ==> give_class(tokens, p, c),
    ensures
        p < start ==> give_class(highlight::pushed(tokens, start, end, class), p, c),
        start <= p < end ==> give_class(highlight::pushed(tokens, start, end, class), p, class),
{
    let r = highlight::pushed(tokens, start, end, class);
    let n = tokens.len() as int;
    if end > start && class.len() > 0 {
        assert forall|j: int| 0 <= j < r.len() implies marks::lies_over(#[trigger] r[j], p) == (j
            < n && marks::lies_over(tokens[j], p) || (j == r.len() - 1 && start <= p < end)) by {
            if j < n {
                assert(0 <= tokens[j].start < tokens[j].end <= start);
            }
        }
        if p < start {
            if c.len() > 0 {
                let j = choose|j: int| #[trigger]
                    marks::first_over(tokens, p, j) && tokens[j].class == c;
                assert(marks::lies_over(tokens[j], p));
                assert forall|i: int| 0 <= i < j implies !marks::lies_over(#[trigger] r[i], p) by {
                    assert(!marks::lies_over(tokens[i], p));
                }
                assert(marks::lies_over(r[j], p));
                assert(marks::first_over(r, p, j));
            } else {
                assert forall|j: int| 0 <= j < r.len() implies !marks::lies_over(
                    #[trigger] r[j],
                    p,
                ) by {
                    if j < n {
                        assert(!marks::lies_over(tokens[j], p));
                    }
                }
            }
        }
        if start <= p < end {
            let j = r.len() - 1;
            assert forall|i: int| 0 <= i < j implies !marks::lies_over(#[trigger] r[i], p) by {
                assert(tokens[i].end <= start);
            }
            assert(marks::lies_over(r[j], p));
            assert(marks::first_over(r, p, j));
        }
    } else {
        assert forall|j: int| 0 <= j < tokens.len() && start <= p implies !marks::lies_over(
            #[trigger] tokens[j],
            p,
        ) by {
            assert(tokens[j].end <= start);
        }
    }
}

proof fn lemma_scanned(
    rules: Seq<(Seq<Text>, Text)>,
    tokens: Seq<TokenView>,
    start: int,
    stack: StackView,
    ops: Seq<(usize, ScopeOpView)>,
    len: int,
    p: int,
    c: Text,
)
    requires
        0 <= start,
        highlight_laws::in_sequence(tokens, 0, start),
        highlight_laws::ops_in_order(stack, ops, start, len),
        0 <= p < len,
        p < start ==> give_class(tokens, p, c),
    ensures
        p < start ==> give_class(
            highlight::scanned(rules, tokens, start, stack, ops, len).0,
            p,
            c,
        ),
        p >= start ==> give_class(
            highlight::scanned(rules, tokens, start, stack, ops, len).0,
            p,
            highlight::class_of(rules, stack_at(stack, ops, p).scopes),
        ),
    decreases ops.len(),
{
    let class = highlight::class_of(rules, stack.scopes);
    if ops.len() == 0 {
        lemma_pushed(tokens, start, len, class, p, c);
    } else {
        let at = ops[0].0 as int;
        let next = highlight::pushed(tokens, start, at, class);
        let after = scopes::changed(stack, ops[0].1)->0;
        highlight_laws::law_push_token(tokens, 0, start, at, class);
        lemma_pushed(tokens, start, at, class, p, c);
        lemma_scanned(
            rules,
            next,
            at,
            after,
            ops.drop_first(),
            len,
            p,
            if p < start {
                c
            } else {
                class
            },
        );
    }
}

proof fn lemma_scanned_stack(
    rules: Seq<(Seq<Text>, Text)>,
    tokens: Seq<TokenView>,
    start: int,
    stack: StackView,
    ops: Seq<(usize, ScopeOpView)>,
    from: int,
    len: int,
)
    requires
        highlight_laws::ops_in_order(stack, ops, from, len),
    ensures
        highlight::scanned(rules, tokens, start, stack, ops, len).1 == stack_behind(stack, ops),
    decreases ops.len(),
{
    if ops.len() > 0 {
        let at = ops[0].0 as int;
        let class = highlight::class_of(rules, stack.scopes);
        let after = scopes::changed(stack, ops[0].1)->0;
        lemma_scanned_stack(
            rules,
            highlight::pushed(tokens, start, at, class),
            at,
            after,
            ops.drop_first(),
            at,
            len,
        );
    }
}

/// Dropping the first line leaves the stacks of the others as they are.
proof fn lemma_stack_before(stack: StackView, ops: Seq<Seq<(usize, ScopeOpView)>>, i: int)
    requires
        0 < i <= ops.len(),
    ensures
        stack_before(stack, ops, i) == stack_before(
            stack_behind(stack, ops[0]),
            ops.drop_first(),
            i - 1,
        ),
    decreases i,
{
    if i > 1 {
        lemma_stack_before(stack, ops, i - 1);
        assert(ops.drop_first()[i - 2] == ops[i - 1]);
    } else {
        assert(stack_before(stack, ops, 0) == stack);
    }
}

/// Whether the changes of the first `n` lines come in order within them and can all be made.
pub open spec fn can_be_made(
    lines: Seq<Text>,
    stack: StackView,
    ops: Seq<Seq<(usize, ScopeOpView)>>,
    n: int,
) -> bool {
    forall|j: int|
        0 <= j < n ==> highlight_laws::ops_in_order(
            stack_before(stack, ops, j),
            #[trigger] ops[j],
            0,
            encode_utf8(lines[j]).len() as int,
        )
}

proof fn lemma_classified(
    rules: Seq<(Seq<Text>, Text)>,
    stack: StackView,
    lines: Seq<Text>,
    ops: Seq<Seq<(usize, ScopeOpView)>>,
    i: int,
    p: int,
)
    requires
        0 <= i < ops.len(),
        i < lines.len(),
        can_be_made(lines, stack, ops, i + 1),
        0 <= p < encode_utf8(lines[i]).len(),
    ensures
        highlight::classified(rules, stack, lines, ops).len() > i,
        give_class(
            highlight::classified(rules, stack, lines, ops)[i],
            p,
            highlight::class_of(
                rules,
                stack_at(stack_before(stack, ops, i), ops[i], p).scopes,
            ),
        ),
    decreases lines.len(),
{
    let len = encode_utf8(lines[0]).len() as int;
    let none = Seq::<TokenView>::empty();
    let (tokens, after) = highlight::scanned(rules, none, 0, stack, ops[0], len);
    assert(stack_before(stack, ops, 0) == stack);
    assert(highlight_laws::ops_in_order(stack_before(stack, ops, 0), ops[0], 0, len));
    let rest_lines = lines.drop_first();
    let rest_ops = ops.drop_first();
    let rest = highlight::classified(rules, after, rest_lines, rest_ops);
    let all = highlight::classified(rules, stack, lines, ops);
    assert(all == seq![tokens] + rest);
    if i == 0 {
        lemma_scanned(rules, none, 0, stack, ops[0], len, p, Seq::empty());
        assert(all[0] == tokens);
    } else {
        lemma_scanned_stack(rules, none, 0, stack, ops[0], 0, len);
        assert(after == stack_behind(stack, ops[0]));
        lemma_stack_before(stack, ops, i);
        assert(rest_ops[i - 1] == ops[i] && rest_lines[i - 1] == lines[i]);
        assert forall|j: int| 0 <= j < i implies highlight_laws::ops_in_order(
            stack_before(after, rest_ops, j),
            #[trigger] rest_ops[j],
            0,
            encode_utf8(rest_lines[j]).len() as int,
        ) by {
            assert(rest_ops[j] == ops[j + 1] && rest_lines[j] == lines[j + 1]);
            lemma_stack_before(stack, ops, j + 1);
        }
        lemma_classified(rules, after, rest_lines, rest_ops, i - 1, p);
        assert(all[i] == rest[i - 1]);
    }
}

/// Whether the grammar gives the changes `ops` for the first `n` lines, each parsed behind those
/// before it, and none of these lines is longer than 16 KiB.
pub open spec fn are_parsed(
    set: SyntaxSet,
    syntax: SyntaxReference,
    lines: Seq<Text>,
    ops: Seq<Seq<(usize, ScopeOpView)>>,
    n: int,
) -> bool {
    forall|j: int|
        0 <= j < n ==> encode_utf8(lines[j]).len() <= 16384 && grammar::line_ops(
            set,
            syntax,
            lines.take(j),
            lines[j],
        ) == Some(#[trigger] ops[j])
}

proof fn lemma_ops_from(
    set: SyntaxSet,
    syntax: SyntaxReference,
    lines: Seq<Text>,
    ops: Seq<Seq<(usize, ScopeOpView)>>,
    k: int,
    n: int,
)
    requires
        0 <= k <= n <= lines.len(),
        n <= ops.len(),
        are_parsed(set, syntax, lines, ops, n),
    ensures
        highlight::ops_from(set, syntax, lines.take(k), lines.skip(k)).len() >= n - k,
        highlight::ops_from(set, syntax, lines.take(k), lines.skip(k)).take(n - k) == ops.subrange(
            k,
            n,
        ),
    decreases n - k,
{
    let got = highlight::ops_from(set, syntax, lines.take(k), lines.skip(k));
    if k < n {
        lemma_ops_from(set, syntax, lines, ops, k + 1, n);
        assert(lines.skip(k)[0] == lines[k]);
        assert(lines.skip(k).drop_first() == lines.skip(k + 1));
        assert(lines.take(k).push(lines[k]) == lines.take(k + 1));
        assert(grammar::line_ops(set, syntax, lines.take(k), lines[k]) == Some(ops[k]));
        let rest = highlight::ops_from(set, syntax, lines.take(k + 1), lines.skip(k + 1));
        assert(got == seq![ops[k]] + rest);
        assert(got.take(n - k) == seq![ops[k]] + rest.take(n - k - 1));
        assert(ops.subrange(k, n) == seq![ops[k]] + ops.subrange(k + 1, n));
    } else {
        assert(got.take(0) == ops.subrange(k, k));
    }
}

/// Only the changes of the lines before matter for the stack before a line.
proof fn lemma_same_before(
    stack: StackView,
    a: Seq<Seq<(usize, ScopeOpView)>>,
    b: Seq<Seq<(usize, ScopeOpView)>>,
    i: int,
)
    requires
        0 <= i <= a.len(),
        i <= b.len(),
        forall|j: int| 0 <= j < i ==> a[j] == b[j],
    ensures
        stack_before(stack, a, i) == stack_before(stack, b, i),
    decreases i,
{
    if i > 0 {
        lemma_same_before(stack, a, b, i - 1);
    }
}

/// The class of every byte of a file that is not too large is that of the innermost scope that a
/// rule speaks of, among the scopes that are open at that byte: those that the grammar of the path
/// has opened in the lines before and in the line up to there.
pub proof fn law_bytes_have_class_of_scopes(
    set: SyntaxSet,
    rules: Seq<(Seq<Text>, Text)>,
    path: Text,
    file: Text,
    ops: Seq<Seq<(usize, ScopeOpView)>>,
    i: int,
    p: int,
)
    requires
        encode_utf8(file).len() <= 2097152,
        text::lines_of(file).len() <= 40000,
        0 <= i < text::lines_of(file).len(),
        i < ops.len(),
        are_parsed(set, highlight::grammar_for(set, path), text::lines_of(file), ops, i + 1),
        can_be_made(text::lines_of(file), scopes::empty_stack(), ops, i + 1),
        0 <= p < encode_utf8(text::lines_of(file)[i]).len(),
    ensures
        give_class(
            highlight::tokenized(set, rules, path, file)[i],
            p,
            highlight::class_of(
                rules,
                stack_at(stack_before(scopes::empty_stack(), ops, i), ops[i], p).scopes,
            ),
        ),
{
    let lines = text::lines_of(file);
    let syntax = highlight::grammar_for(set, path);
    let stack = scopes::empty_stack();
    let got = highlight::ops_from(set, syntax, Seq::empty(), lines);
    assert(lines.take(0) == Seq::<Text>::empty());
    assert(lines.skip(0) == lines);
    lemma_ops_from(set, syntax, lines, ops, 0, i + 1);
    assert forall|j: int| 0 <= j < i + 1 implies got[j] == ops[j] by {
        assert(got.take(i + 1)[j] == ops.subrange(0, i + 1)[j]);
    }
    assert forall|j: int| 0 <= j < i + 1 implies highlight_laws::ops_in_order(
        stack_before(stack, got, j),
        #[trigger] got[j],
        0,
        encode_utf8(lines[j]).len() as int,
    ) by {
        assert(got[j] == ops[j]);
        lemma_same_before(stack, got, ops, j);
    }
    lemma_same_before(stack, got, ops, i);
    lemma_classified(rules, stack, lines, got, i, p);
}

/// A file of more than 2 MiB or of more than 40000 lines is not highlighted, nor is a line longer
/// than 16 KiB or one behind it.
pub proof fn law_large_is_not_highlighted(
    set: SyntaxSet,
    rules: Seq<(Seq<Text>, Text)>,
    path: Text,
    file: Text,
    i: int,
    j: int,
)
    requires
        0 <= i <= j < text::lines_of(file).len(),
    ensures
        encode_utf8(file).len() > 2097152 || text::lines_of(file).len() > 40000 || encode_utf8(
            text::lines_of(file)[i],
        ).len() > 16384 ==> highlight::tokenized(set, rules, path, file)[j].len() == 0,
{
    if encode_utf8(file).len() > 2097152 || text::lines_of(file).len() > 40000 {
        highlight_laws::law_large_file_is_plain(set, rules, path, file, j);
    } else if encode_utf8(text::lines_of(file)[i]).len() > 16384 {
        highlight_laws::law_long_line_ends_highlighting(set, rules, path, file, i, j);
    }
}

/// Whether rule `k` is the first that speaks of a scope: its atoms are the first ones of the scope.
pub open spec fn first_to_match(
    rules: Seq<(Seq<Text>, Text)>,
    scope: Seq<Text>,
    k: int,
) -> bool {
    &&& 0 <= k < rules.len()
    &&& rules[k].0.is_prefix_of(scope)
    &&& forall|i: int| 0 <= i < k ==> !(#[trigger] rules[i]).0.is_prefix_of(scope)
}

/// Whether no rule speaks of a scope.
pub open spec fn none_matches(rules: Seq<(Seq<Text>, Text)>, scope: Seq<Text>) -> bool {
    forall|k: int| 0 <= k < rules.len() ==> !(#[trigger] rules[k]).0.is_prefix_of(scope)
}

proof fn lemma_rule(rules: Seq<(Seq<Text>, Text)>, scope: Seq<Text>, k: int)
    ensures
        first_to_match(rules, scope, k) ==> highlight::rule_class(rules, scope) == Some(rules[k].1),
        none_matches(rules, scope) ==> highlight::rule_class(rules, scope) is None,
    decreases rules.len(),
{
    if rules.len() > 0 {
        let rest = rules.drop_first();
        lemma_rule(rest, scope, k - 1);
        if first_to_match(rules, scope, k) && k > 0 {
            assert(!rules[0].0.is_prefix_of(scope));
            assert forall|i: int| 0 <= i < k - 1 implies !(#[trigger] rest[i]).0.is_prefix_of(
                scope,
            ) by {
                assert(rest[i] == rules[i + 1]);
            }
            assert(rest[k - 1] == rules[k]);
        }
        if none_matches(rules, scope) {
            assert(!rules[0].0.is_prefix_of(scope));
            assert forall|i: int| 0 <= i < rest.len() implies !(#[trigger] rest[i]).0.is_prefix_of(
                scope,
            ) by {
                assert(rest[i] == rules[i + 1]);
            }
        }
    }
}

/// The class of a stack of scopes is that of the first rule that speaks of the innermost scope that
/// any rule speaks of; where no rule speaks of any, there is no class.
pub proof fn law_innermost_scope_decides(
    rules: Seq<(Seq<Text>, Text)>,
    held: Seq<Seq<Text>>,
    i: int,
    k: int,
)
    requires
        -1 <= i < held.len(),
        forall|j: int| i < j < held.len() ==> none_matches(rules, #[trigger] held[j]),
    ensures
        i >= 0 && first_to_match(rules, held[i], k) ==> highlight::class_of(rules, held)
            == rules[k].1,
        i == -1 ==> highlight::class_of(rules, held).len() == 0,
    decreases held.len(),
{
    if held.len() > 0 {
        let n = held.len() - 1;
        let rest = held.drop_last();
        lemma_rule(rules, held[n], k);
        if i < n {
            assert(none_matches(rules, held[n]));
            assert forall|j: int| i < j < rest.len() implies none_matches(
                rules,
                #[trigger] rest[j],
            ) by {
                assert(rest[j] == held[j]);
            }
            law_innermost_scope_decides(rules, rest, i, k);
            if i >= 0 {
                assert(rest[i] == held[i]);
            }
        }
    }
}

/// Which class each scope gets that has one.
pub proof fn law_scopes_have_their_classes()
    ensures
        highlight::class_rules() == seq![
            ("comment"@, "c"@),
            ("string"@, "s"@),
            ("constant.numeric"@, "n"@),
            ("constant.language"@, "k"@),
            ("constant.character.escape"@, "e"@),
            ("constant"@, "n"@),
            ("keyword.operator"@, "o"@),
            ("keyword"@, "k"@),
            ("storage"@, "k"@),
            ("entity.name.function"@, "f"@),
            ("support.function"@, "f"@),
            ("entity.name"@, "t"@),
            ("entity.other.inherited-class"@, "t"@),
            ("support.type"@, "t"@),
            ("support.class"@, "t"@),
            ("support.constant"@, "n"@),
            ("variable.language"@, "k"@),
            ("variable.function"@, "f"@),
        ],
{
}

/// Which language files are read as whose extension has no grammar.
pub open spec fn reads_as(ext: Text, language: Text) -> bool {
    ||| language == "JavaScript"@ && (ext == "ts"@ || ext == "tsx"@ || ext == "jsx"@ || ext
        == "mjs"@ || ext == "cjs"@ || ext == "mts"@ || ext == "cts"@)
    ||| language == "C++"@ && (ext == "h"@ || ext == "hpp"@)
    ||| language == "Java"@ && (ext == "kt"@ || ext == "kts"@)
    ||| language == "HTML"@ && (ext == "vue"@ || ext == "svelte"@)
    ||| language == "Bourne Again Shell (bash)"@ && (ext == "zsh"@ || ext == "fish"@)
    ||| language == "YAML"@ && ext == "yml"@
}

proof fn lemma_extensions()
    ensures
        "ts"@ == seq!['t', 's'],
        "tsx"@ == seq!['t', 's', 'x'],
        "jsx"@ == seq!['j', 's', 'x'],
        "mjs"@ == seq!['m', 'j', 's'],
        "cjs"@ == seq!['c', 'j', 's'],
        "mts"@ == seq!['m', 't', 's'],
        "cts"@ == seq!['c', 't', 's'],
        "h"@ == seq!['h'],
        "hpp"@ == seq!['h', 'p', 'p'],
        "kt"@ == seq!['k', 't'],
        "kts"@ == seq!['k', 't', 's'],
        "vue"@ == seq!['v', 'u', 'e'],
        "svelte"@.len() == 6,
        "zsh"@ == seq!['z', 's', 'h'],
        "fish"@.len() == 4,
        "yml"@ == seq!['y', 'm', 'l'],
{
    reveal_strlit("ts");
    reveal_strlit("tsx");
    reveal_strlit("jsx");
    reveal_strlit("mjs");
    reveal_strlit("cjs");
    reveal_strlit("mts");
    reveal_strlit("cts");
    reveal_strlit("h");
    reveal_strlit("hpp");
    reveal_strlit("kt");
    reveal_strlit("kts");
    reveal_strlit("vue");
    reveal_strlit("svelte");
    reveal_strlit("zsh");
    reveal_strlit("fish");
    reveal_strlit("yml");
}

proof fn lemma_looked_up(table: Seq<(Text, Text)>, key: Text, k: int)
    requires
        0 <= k <= table.len(),
        forall|i: int| 0 <= i < k ==> (#[trigger] table[i]).0 != key,
    ensures
        k < table.len() && table[k].0 == key ==> highlight::looked_up(table, key) == Some(
            table[k].1,
        ),
        k == table.len() ==> highlight::looked_up(table, key) is None,
    decreases table.len(),
{
    if k > 0 {
        let rest = table.drop_first();
        assert(table[0].0 != key);
        assert forall|i: int| 0 <= i < k - 1 implies (#[trigger] rest[i]).0 != key by {
            assert(rest[i] == table[i + 1]);
        }
        lemma_looked_up(rest, key, k - 1);
        if k < table.len() {
            assert(rest[k - 1] == table[k]);
        }
    }
}

proof fn lemma_alias_table()
    ensures
        ({
            let table = highlight::language_aliases();
            &&& table.len() == 16
            &&& table[0] == ("ts"@, "JavaScript"@)
            &&& table[1] == ("tsx"@, "JavaScript"@)
            &&& table[2] == ("jsx"@, "JavaScript"@)
            &&& table[3] == ("mjs"@, "JavaScript"@)
            &&& table[4] == ("cjs"@, "JavaScript"@)
            &&& table[5] == ("mts"@, "JavaScript"@)
            &&& table[6] == ("cts"@, "JavaScript"@)
            &&& table[7] == ("h"@, "C++"@)
            &&& table[8] == ("hpp"@, "C++"@)
            &&& table[9] == ("kt"@, "Java"@)
            &&& table[10] == ("kts"@, "Java"@)
            &&& table[11] == ("vue"@, "HTML"@)
            &&& table[12] == ("svelte"@, "HTML"@)
            &&& table[13] == ("zsh"@, "Bourne Again Shell (bash)"@)
            &&& table[14] == ("fish"@, "Bourne Again Shell (bash)"@)
            &&& table[15] == ("yml"@, "YAML"@)
        }),
{
}

/// A file whose extension has no grammar is read as the language that reads well for it, and no
/// other extension is.
pub proof fn law_aliases(ext: Text, language: Text)
    ensures
        highlight::looked_up(highlight::language_aliases(), ext) == Some(language) <==> reads_as(
            ext,
            language,
        ),
{
    lemma_alias_table();
    lemma_extensions();
    let table = highlight::language_aliases();
    let found = exists|k: int| 0 <= k < table.len() && (#[trigger] table[k]).0 == ext;
    if found {
        let k = choose|k: int| 0 <= k < table.len() && (#[trigger] table[k]).0 == ext;
        assert forall|i: int| 0 <= i < k implies (#[trigger] table[i]).0 != ext by {
            let (a, b) = (table[i].0, table[k].0);
            if a == b {
                assert(a.len() == b.len() && a[0] == b[0] && a[1] == b[1]);
            }
        }
        lemma_looked_up(table, ext, k);
    } else {
        lemma_looked_up(table, ext, 16);
        assert(table[0].0 != ext && table[1].0 != ext && table[2].0 != ext && table[3].0 != ext
            && table[4].0 != ext && table[5].0 != ext && table[6].0 != ext && table[7].0 != ext
            && table[8].0 != ext && table[9].0 != ext && table[10].0 != ext && table[11].0 != ext
            && table[12].0 != ext && table[13].0 != ext && table[14].0 != ext && table[15].0
            != ext);
    }
}

/// What follows the last separator.
proof fn lemma_after_last(a: Text, b: Text, sep: char)
    requires
        !b.contains(sep),
    ensures
        text::last_index(a.push(sep) + b, sep) == a.len(),
        text::after_last_of(a.push(sep) + b, sep) == b,
        text::last_index(b, sep) < 0,
        text::after_last_of(b, sep) == b,
    decreases b.len(),
{
    let s = a.push(sep) + b;
    if b.len() == 0 {
        assert(s == a.push(sep));
        assert(s.skip(a.len() as int + 1) == b);
        assert(b.skip(0) == b);
    } else {
        let c = b.drop_last();
        assert(b.contains(b[b.len() - 1]));
        assert forall|i: int| 0 <= i < c.len() implies c[i] != sep by {
            assert(c[i] == b[i]);
            assert(b.contains(b[i]));
        }
        lemma_after_last(a, c, sep);
        assert(s.drop_last() == a.push(sep) + c);
        assert(s.last() == b.last());
        assert(s.skip(a.len() as int + 1) == b);
        assert(text::last_index(c, sep) >= -1) by {
            lemma_last_index_least(c, sep);
        }
        assert(b.skip(0) == b);
    }
}

proof fn lemma_last_index_least(s: Text, sep: char)
    ensures
        text::last_index(s, sep) >= -1,
    decreases s.len(),
{
    if s.len() > 0 && s.last() != sep {
        lemma_last_index_least(s.drop_last(), sep);
    }
}

/// The grammar of a file is chosen by its name alone, wherever it lies: by the whole name where
/// there is a grammar for it; else by what follows its last dot; else by the language that this is
/// read as; and else it is plain text.
pub proof fn law_grammar_is_by_name(
    set: SyntaxSet,
    dir: Text,
    stem: Text,
    ext: Text,
    language: Text,
)
    requires
        !stem.contains('/'),
        !ext.contains('/'),
        !ext.contains('.'),
    ensures
        ({
            let list = grammar::grammars(set);
            let name = stem.push('.') + ext;
            let here = highlight::grammar_for(set, name);
            let plain = grammar::last_named(list, "Plain Text"@)->0;
            &&& highlight::grammar_for(set, dir.push('/') + name) == here
            &&& grammar::last_for_extension(list, name) matches Some(g) ==> here == g
            &&& grammar::last_for_extension(list, name) is None ==> (grammar::last_for_extension(
                list,
                ext,
            ) matches Some(g) ==> here == g)
            &&& grammar::last_for_extension(list, name) is None && grammar::last_for_extension(
                list,
                ext,
            ) is None && reads_as(ext, language) ==> here == match grammar::last_named(
                list,
                language,
            ) {
                Some(g) => g,
                None => plain,
            }
            &&& grammar::last_for_extension(list, name) is None && grammar::last_for_extension(
                list,
                ext,
            ) is None && (forall|other: Text| !#[trigger] reads_as(ext, other)) ==> here == plain
        }),
{
    let name = stem.push('.') + ext;
    assert forall|i: int| 0 <= i < name.len() implies name[i] != '/' by {
        if i < stem.len() {
            assert(name[i] == stem[i]);
            assert(stem.contains(stem[i]));
        } else if i > stem.len() {
            assert(name[i] == ext[i - stem.len() - 1]);
            assert(ext.contains(ext[i - stem.len() - 1]));
        }
    }
    assert(!name.contains('/'));
    assert(text::after_last_of(dir.push('/') + name, '/') == name && text::after_last_of(name, '/')
        == name) by {
        lemma_after_last(dir, name, '/');
    }
    assert(highlight::extension_of(name) == ext) by {
        lemma_after_last(stem, ext, '.');
    }
    law_aliases(ext, language);
    if let Some(found) = highlight::looked_up(highlight::language_aliases(), ext) {
        law_aliases(ext, found);
    }
}

/// A language has the name of its grammar; plain text is no language.
pub proof fn law_language_is_name_of_grammar(set: SyntaxSet, path: Text)
    ensures
        ({
            let name = grammar::grammar_name(highlight::grammar_for(set, path));
            &&& name == "Plain Text"@ ==> highlight::language_of(set, path) is None
            &&& name != "Plain Text"@ ==> highlight::language_of(set, path) == Some(name)
        }),
{
}

/// Every rule of the table whose scope could be made is kept, with its class and in its order, and
/// no other rule is there.
pub proof fn law_rules_are_kept(
    table: Seq<(Text, Text)>,
    made: Seq<Option<Seq<Text>>>,
    atoms: Seq<Text>,
)
    ensures
        highlight::kept(table, Seq::empty()) == Seq::<(Seq<Text>, Text)>::empty(),
        highlight::kept(table, made.push(None)) == highlight::kept(table, made),
        highlight::kept(table, made.push(Some(atoms))) == highlight::kept(table, made).push(
            (atoms, table[made.len() as int].1),
        ),
{
    assert(made.push(None).drop_last() == made);
    assert(made.push(Some(atoms)).drop_last() == made);
}

/// A name without a dot has no extension: the grammar is that for the whole name, else that for
/// files without an extension, else that for plain text.
pub proof fn law_grammar_of_bare_name(set: SyntaxSet, dir: Text, name: Text)
    requires
        !name.contains('/'),
        !name.contains('.'),
    ensures
        ({
            let list = grammar::grammars(set);
            let here = highlight::grammar_for(set, name);
            let none = Seq::<char>::empty();
            &&& highlight::grammar_for(set, dir.push('/') + name) == here
            &&& grammar::last_for_extension(list, name) matches Some(g) ==> here == g
            &&& grammar::last_for_extension(list, name) is None ==> (grammar::last_for_extension(
                list,
                none,
            ) matches Some(g) ==> here == g)
            &&& grammar::last_for_extension(list, name) is None && grammar::last_for_extension(
                list,
                none,
            ) is None ==> here == grammar::last_named(list, "Plain Text"@)->0
        }),
{
    let none = Seq::<char>::empty();
    assert(text::after_last_of(dir.push('/') + name, '/') == name && text::after_last_of(name, '/')
        == name) by {
        lemma_after_last(dir, name, '/');
    }
    assert(highlight::extension_of(name) == none) by {
        lemma_after_last(dir, name, '.');
    }
    lemma_no_alias_for_nothing();
}

/// No extension is not read as any language.
proof fn lemma_no_alias_for_nothing()
    ensures
        highlight::looked_up(highlight::language_aliases(), Seq::<char>::empty()) is None,
{
    let none = Seq::<char>::empty();
    if let Some(found) = highlight::looked_up(highlight::language_aliases(), none) {
        law_aliases(none, found);
        lemma_extensions();
        assert(none.len() == 0);
        assert(!reads_as(none, found));
    }
}

proof fn lemma_ops_stop(
    set: SyntaxSet,
    syntax: SyntaxReference,
    lines: Seq<Text>,
    k: int,
    i: int,
)
    requires
        0 <= k <= i < lines.len(),
        grammar::line_ops(set, syntax, lines.take(i), lines[i]) is None,
    ensures
        highlight::ops_from(set, syntax, lines.take(k), lines.skip(k)).len() <= i - k,
    decreases i - k,
{
    assert(lines.skip(k)[0] == lines[k]);
    assert(lines.skip(k).drop_first() == lines.skip(k + 1));
    assert(lines.take(k).push(lines[k]) == lines.take(k + 1));
    if k < i {
        lemma_ops_stop(set, syntax, lines, k + 1, i);
    }
}

proof fn lemma_without_ops(
    rules: Seq<(Seq<Text>, Text)>,
    stack: StackView,
    lines: Seq<Text>,
    ops: Seq<Seq<(usize, ScopeOpView)>>,
    j: int,
)
    requires
        ops.len() <= j < lines.len(),
    ensures
        highlight::classified(rules, stack, lines, ops).len() > j,
        highlight::classified(rules, stack, lines, ops)[j].len() == 0,
    decreases lines.len(),
{
    if ops.len() == 0 {
        if j > 0 {
            lemma_without_ops(rules, stack, lines.drop_first(), ops, j - 1);
        }
    } else {
        let len = encode_utf8(lines[0]).len() as int;
        let after = highlight::scanned(rules, Seq::empty(), 0, stack, ops[0], len).1;
        lemma_without_ops(rules, after, lines.drop_first(), ops.drop_first(), j - 1);
    }
}

/// From a line on that the grammar fails on, no line of a file is highlighted.
pub proof fn law_failing_grammar_ends_highlighting(
    set: SyntaxSet,
    rules: Seq<(Seq<Text>, Text)>,
    path: Text,
    file: Text,
    i: int,
    j: int,
)
    requires
        0 <= i <= j < text::lines_of(file).len(),
        grammar::line_ops(
            set,
            highlight::grammar_for(set, path),
            text::lines_of(file).take(i),
            text::lines_of(file)[i],
        ) is None,
    ensures
        highlight::tokenized(set, rules, path, file)[j].len() == 0,
{
    let lines = text::lines_of(file);
    let syntax = highlight::grammar_for(set, path);
    let ops = if highlight::too_large(file) {
        Seq::empty()
    } else {
        highlight::ops_from(set, syntax, Seq::empty(), lines)
    };
    assert(lines.take(0) == Seq::<Text>::empty());
    assert(lines.skip(0) == lines);
    lemma_ops_stop(set, syntax, lines, 0, i);
    lemma_without_ops(rules, scopes::empty_stack(), lines, ops, j);
}

/// A change that cannot be made ends the changes of its line: the rest of the line, from where the
/// scopes were last changed, has the class of the scopes as they were, and so has the next line.
pub proof fn law_failing_change_ends_line(
    rules: Seq<(Seq<Text>, Text)>,
    tokens: Seq<TokenView>,
    start: int,
    stack: StackView,
    ops: Seq<(usize, ScopeOpView)>,
    len: int,
    p: int,
)
    requires
        highlight_laws::in_sequence(tokens, 0, start),
        ops.len() > 0,
        0 <= start <= ops[0].0 <= len,
        scopes::changed(stack, ops[0].1) is None,
        start <= p < len,
    ensures
        give_class(
            highlight::scanned(rules, tokens, start, stack, ops, len).0,
            p,
            highlight::class_of(rules, stack.scopes),
        ),
        highlight::scanned(rules, tokens, start, stack, ops, len).1 == stack,
{
    let class = highlight::class_of(rules, stack.scopes);
    let at = ops[0].0 as int;
    let next = highlight::pushed(tokens, start, at, class);
    if at == start || class.len() == 0 {
        assert(next == tokens);
        lemma_pushed(tokens, start, len, class, p, Seq::empty());
    } else {
        lemma_overlaid(tokens, start, at, len, class, p);
    }
}

/// Two ranges of one class that start at the same byte, the second of them to the end of the line,
/// give that class to the rest of the line.
proof fn lemma_overlaid(
    tokens: Seq<TokenView>,
    start: int,
    at: int,
    len: int,
    class: Text,
    p: int,
)
    requires
        highlight_laws::in_sequence(tokens, 0, start),
        0 <= start < at <= len,
        class.len() > 0,
        start <= p < len,
    ensures
        give_class(
            highlight::pushed(highlight::pushed(tokens, start, at, class), start, len, class),
            p,
            class,
        ),
{
    let next = highlight::pushed(tokens, start, at, class);
    let all = highlight::pushed(next, start, len, class);
    let n = next.len() as int;
    assert(next.last().end == at);
    assert(all == next.push(TokenView { start, end: len, class }));
    if p < at {
        lemma_pushed(tokens, start, at, class, p, Seq::empty());
        let j = choose|j: int| #[trigger] marks::first_over(next, p, j) && next[j].class == class;
        assert forall|i: int| 0 <= i < j implies !marks::lies_over(#[trigger] all[i], p) by {
            assert(all[i] == next[i]);
            assert(!marks::lies_over(next[i], p));
        }
        assert(all[j] == next[j]);
        assert(marks::lies_over(next[j], p));
        assert(marks::first_over(all, p, j));
    } else {
        assert forall|i: int| 0 <= i < n implies !marks::lies_over(#[trigger] all[i], p) by {
            assert(all[i] == next[i]);
            if i < n - 1 {
                assert(next[i] == tokens[i]);
                assert(tokens[i].end <= start);
            }
        }
        assert(marks::lies_over(all[n], p));
        assert(marks::first_over(all, p, n));
    }
}

} // verus!
