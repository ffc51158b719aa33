//! Syntax highlighting.
//!
//! syntect parses with Sublime grammars, which gives stacks of scopes rather
//! than colours. Those stacks are collapsed onto a handful of short CSS class
//! names, so the theme lives in the stylesheet.

use vstd::prelude::*;
use vstd::string::*;
use vstd::utf8::*;

use syntect::parsing::{ParseState, Scope, ScopeStack, SyntaxReference, SyntaxSet};

use crate::grammar;
pub use crate::render::{render_line, Token};
#[allow(unused_imports)]
use crate::render::TokenView;
use crate::scopes;
use crate::scopes::ScopeOp;
#[allow(unused_imports)]
use crate::scopes::{ScopeOpView, StackView};
use crate::text;
#[allow(unused_imports)]
use crate::text::Text;

verus! {

broadcast use {vstd::string::group_string_axioms, vstd::seq_lib::group_seq_properties};

/// Files with more bytes than this are served as plain text.
pub const MAX_HIGHLIGHT_BYTES: usize = 2 * 1024 * 1024;

/// Files with more lines than this are served as plain text; the parser is the slow
/// part of a request.
pub const MAX_HIGHLIGHT_LINES: usize = 40_000;

/// Scope prefixes and the classes they get, most specific first.
///
/// `punctuation` is deliberately absent: leaving it unmatched lets a string's
/// quotes fall through to the enclosing `string` scope, which is what readers
/// expect.
pub open spec fn class_rules() -> Seq<(Text, Text)> {
    seq![
        ("comment"@, "c"@),
        ("string"@, "s"@),
        ("constant.numeric"@, "n"@),
        ("constant.language"@, "k"@),
        ("constant.character.escape"@, "e"@),
        ("constant"@, "n"@),
        ("keyword.operator"@, "o"@),
        ("keyword"@, "k"@),
        ("storage"@, "k"@),
        ("entity.name.function"@, "f"@),
        ("support.function"@, "f"@),
        ("entity.name"@, "t"@),
        ("entity.other.inherited-class"@, "t"@),
        ("support.type"@, "t"@),
        ("support.class"@, "t"@),
        ("support.constant"@, "n"@),
        ("variable.language"@, "k"@),
        ("variable.function"@, "f"@),
    ]
}

/// Scope prefixes and the classes they get, most specific first.
pub fn rule_table() -> (table: Vec<(&'static str, &'static str)>)
    ensures
        table.deep_view() == class_rules(),
{
    let table: Vec<(&'static str, &'static str)> = vec![
        ("comment", "c"),
        ("string", "s"),
        ("constant.numeric", "n"),
        ("constant.language", "k"),
        ("constant.character.escape", "e"),
        ("constant", "n"),
        ("keyword.operator", "o"),
        ("keyword", "k"),
        ("storage", "k"),
        ("entity.name.function", "f"),
        ("support.function", "f"),
        ("entity.name", "t"),
        ("entity.other.inherited-class", "t"),
        ("support.type", "t"),
        ("support.class", "t"),
        ("support.constant", "n"),
        ("variable.language", "k"),
        ("variable.function", "f"),
    ];
    assert(table.deep_view() == class_rules());
    table
}

/// Extensions with no grammar of their own that read well as another language.
pub open spec fn language_aliases() -> Seq<(Text, Text)> {
    seq![
        ("ts"@, "JavaScript"@),
        ("tsx"@, "JavaScript"@),
        ("jsx"@, "JavaScript"@),
        ("mjs"@, "JavaScript"@),
        ("cjs"@, "JavaScript"@),
        ("mts"@, "JavaScript"@),
        ("cts"@, "JavaScript"@),
        ("h"@, "C++"@),
        ("hpp"@, "C++"@),
        ("kt"@, "Java"@),
        ("kts"@, "Java"@),
        ("vue"@, "HTML"@),
        ("svelte"@, "HTML"@),
        ("zsh"@, "Bourne Again Shell (bash)"@),
        ("fish"@, "Bourne Again Shell (bash)"@),
        ("yml"@, "YAML"@),
    ]
}

/// Extensions with no grammar of their own that read well as another language.
fn alias_table() -> (table: Vec<(&'static str, &'static str)>)
    ensures
        table.deep_view() == language_aliases(),
{
    let table: Vec<(&'static str, &'static str)> = vec![
        ("ts", "JavaScript"),
        ("tsx", "JavaScript"),
        ("jsx", "JavaScript"),
        ("mjs", "JavaScript"),
        ("cjs", "JavaScript"),
        ("mts", "JavaScript"),
        ("cts", "JavaScript"),
        ("h", "C++"),
        ("hpp", "C++"),
        ("kt", "Java"),
        ("kts", "Java"),
        ("vue", "HTML"),
        ("svelte", "HTML"),
        ("zsh", "Bourne Again Shell (bash)"),
        ("fish", "Bourne Again Shell (bash)"),
        ("yml", "YAML"),
    ];
    assert(table.deep_view() == language_aliases());
    table
}

/// What the first pair with the key `key` holds.
pub open spec fn looked_up(table: Seq<(Text, Text)>, key: Text) -> Option<Text>
    decreases table.len(),
{
    if table.len() == 0 {
        None
    } else if table[0].0 == key {
        Some(table[0].1)
    } else {
        looked_up(table.drop_first(), key)
    }
}

/// The language that files with the extension `ext` are read as, where it has no grammar.
pub fn alias_for(ext: &str) -> (alias: Option<&'static str>)
    ensures
        alias.deep_view() == looked_up(language_aliases(), ext@),
{
    let table = alias_table();
    let ghost pairs = table.deep_view();
    let mut i: usize = 0;
    assert(pairs.skip(0) == pairs);
    while i < table.len()
        invariant
            pairs == table.deep_view(),
            pairs == language_aliases(),
            i <= table@.len(),
            looked_up(pairs, ext@) == looked_up(pairs.skip(i as int), ext@),
        decreases table@.len() - i,
    {
        let (key, name) = table[i];
        assert(pairs.skip(i as int)[0] == (key@, name@));
        if text::same(key, ext) {
            return Some(name);
        }
        assert(pairs.skip(i as int).drop_first() == pairs.skip(i + 1));
        i = i + 1;
    }
    None
}

/// What follows the last dot of a file's name; empty where there is no dot.
pub open spec fn extension_of(name: Text) -> Text {
    if text::last_index(name, '.') < 0 {
        Seq::empty()
    } else {
        text::after_last_of(name, '.')
    }
}

/// What follows the last dot of a file's name; empty where there is no dot.
fn extension(name: &str) -> (ext: String)
    ensures
        ext@ == extension_of(name@),
{
    let chars = text::chars_of(name);
    let k = text::after_last(&chars, '.');
    if k == 0 {
        String::new()
    } else {
        assert(name@.subrange(k as int, name@.len() as int) == name@.skip(k as int));
        text::text_of(&chars, k, chars.len())
    }
}

/// The grammar for a file: by its whole name, else by its extension, else by what its
/// extension is read as, else that for plain text.
pub open spec fn grammar_for(set: SyntaxSet, path: Text) -> SyntaxReference {
    let list = grammar::grammars(set);
    let name = text::after_last_of(path, '/');
    let ext = extension_of(name);
    let plain = grammar::last_named(list, "Plain Text"@)->0;
    if let Some(g) = grammar::last_for_extension(list, name) {
        g
    } else if let Some(g) = grammar::last_for_extension(list, ext) {
        g
    } else if let Some(alias) = looked_up(language_aliases(), ext) {
        if let Some(g) = grammar::last_named(list, alias) {
            g
        } else {
            plain
        }
    } else {
        plain
    }
}

/// The class that the first rule with a prefix of `scope` gives.
pub open spec fn rule_class(rules: Seq<(Seq<Text>, Text)>, scope: Seq<Text>) -> Option<Text>
    decreases rules.len(),
{
    if rules.len() == 0 {
        None
    } else if rules[0].0.is_prefix_of(scope) {
        Some(rules[0].1)
    } else {
        rule_class(rules.drop_first(), scope)
    }
}

/// The class of the innermost scope that a rule speaks of; empty where there is none.
pub open spec fn class_of(rules: Seq<(Seq<Text>, Text)>, scopes: Seq<Seq<Text>>) -> Text
    decreases scopes.len(),
{
    if scopes.len() == 0 {
        Seq::empty()
    } else if let Some(class) = rule_class(rules, scopes.last()) {
        class
    } else {
        class_of(rules, scopes.drop_last())
    }
}

/// The tokens with one more range: added to the last token where it goes on from there with
/// the same class, left out where it is empty or has no class.
pub open spec fn pushed(tokens: Seq<TokenView>, start: int, end: int, class: Text) -> Seq<
    TokenView,
> {
    if end <= start || class.len() == 0 {
        tokens
    } else if tokens.len() > 0 && tokens.last().end == start && tokens.last().class == class {
        tokens.drop_last().push(TokenView { start: tokens.last().start, end, class })
    } else {
        tokens.push(TokenView { start, end, class })
    }
}

/// Adds a range to the tokens of a line.
pub fn push_token(tokens: &mut Vec<Token>, start: usize, end: usize, class: &'static str)
    ensures
        final(tokens).deep_view() == pushed(
            old(tokens).deep_view(),
            start as int,
            end as int,
            class@,
        ),
{
    let ghost before = tokens.deep_view();
    if end <= start || class.is_empty() {
        return;
    }
    let n = tokens.len();
    if n > 0 {
        let last = tokens[n - 1];
        assert(before.last() == last.deep_view());
        if last.end == start && text::same(last.class, class) {
            tokens.set(n - 1, Token { start: last.start, end, class });
            assert(tokens.deep_view() == pushed(before, start as int, end as int, class@));
            return;
        }
    }
    tokens.push(Token { start, end, class });
    assert(tokens.deep_view() == pushed(before, start as int, end as int, class@));
}

/// What the rest of a line adds: its tokens, and the stack behind it. A change that cannot be
/// made ends the line's changes.
pub open spec fn scanned(
    rules: Seq<(Seq<Text>, Text)>,
    tokens: Seq<TokenView>,
    start: int,
    stack: StackView,
    ops: Seq<(usize, ScopeOpView)>,
    len: int,
) -> (Seq<TokenView>, StackView)
    decreases ops.len(),
{
    let class = class_of(rules, stack.scopes);
    if ops.len() == 0 {
        (pushed(tokens, start, len, class), stack)
    } else {
        let at = ops[0].0 as int;
        let next = pushed(tokens, start, at, class);
        match scopes::changed(stack, ops[0].1) {
            Some(after) => scanned(rules, next, at, after, ops.drop_first(), len),
            None => (pushed(next, start, len, class), stack),
        }
    }
}

/// The tokens of the lines, given the changes that each makes to the stack; the lines behind
/// those have no tokens.
pub open spec fn classified(
    rules: Seq<(Seq<Text>, Text)>,
    stack: StackView,
    lines: Seq<Text>,
    ops: Seq<Seq<(usize, ScopeOpView)>>,
) -> Seq<Seq<TokenView>>
    decreases lines.len(),
{
    if lines.len() == 0 {
        Seq::empty()
    } else if ops.len() == 0 {
        seq![Seq::<TokenView>::empty()] + classified(rules, stack, lines.drop_first(), ops)
    } else {
        let len = encode_utf8(lines[0]).len() as int;
        let (tokens, after) = scanned(rules, Seq::empty(), 0, stack, ops[0], len);
        seq![tokens] + classified(rules, after, lines.drop_first(), ops.drop_first())
    }
}

/// Whether a line is too long to be parsed.
pub open spec fn too_long(line: Text) -> bool {
    encode_utf8(line).len() > grammar::MAX_PARSED_LINE
}

/// The changes that each line makes, up to the first line that is too long or that the grammar
/// fails on.
pub open spec fn ops_from(
    set: SyntaxSet,
    syntax: SyntaxReference,
    before: Seq<Text>,
    lines: Seq<Text>,
) -> Seq<Seq<(usize, ScopeOpView)>>
    decreases lines.len(),
{
    if lines.len() == 0 || too_long(lines[0]) {
        Seq::empty()
    } else {
        match grammar::line_ops(set, syntax, before, lines[0]) {
            Some(ops) => seq![ops] + ops_from(
                set,
                syntax,
                before.push(lines[0]),
                lines.drop_first(),
            ),
            None => Seq::empty(),
        }
    }
}

/// Whether a file is too large to be highlighted.
pub open spec fn too_large(file: Text) -> bool {
    encode_utf8(file).len() > MAX_HIGHLIGHT_BYTES || text::lines_of(file).len()
        > MAX_HIGHLIGHT_LINES
}

/// The tokens of every line of a file.
pub open spec fn tokenized(
    set: SyntaxSet,
    rules: Seq<(Seq<Text>, Text)>,
    path: Text,
    file: Text,
) -> Seq<Seq<TokenView>> {
    let lines = text::lines_of(file);
    let ops = if too_large(file) {
        Seq::empty()
    } else {
        ops_from(set, grammar_for(set, path), Seq::empty(), lines)
    };
    classified(rules, scopes::empty_stack(), lines, ops)
}

/// Whether the changes of each line are made within it.
pub open spec fn ops_within(ops: Seq<Seq<(usize, ScopeOpView)>>, lines: Seq<Text>) -> bool {
    &&& ops.len() <= lines.len()
    &&& forall|i: int, k: int|
        0 <= i < ops.len() && 0 <= k < ops[i].len() ==> (#[trigger] ops[i][k]).0 <= encode_utf8(
            lines[i],
        ).len()
}

/// Whether tokens lie within a line of `len` bytes, each with something under it.
pub open spec fn lie_within(tokens: Seq<TokenView>, len: int) -> bool {
    forall|i: int|
        0 <= i < tokens.len() ==> 0 <= (#[trigger] tokens[i]).start < tokens[i].end <= len
}

/// Whether the tokens of each line lie within it.
pub open spec fn tokens_within(tokens: Seq<Seq<TokenView>>, lines: Seq<Text>) -> bool {
    &&& tokens.len() == lines.len()
    &&& forall|i: int|
        0 <= i < lines.len() ==> lie_within(
            #[trigger] tokens[i],
            encode_utf8(lines[i]).len() as int,
        )
}

/// One more range within the line keeps tokens within it.
proof fn lemma_pushed_within(tokens: Seq<TokenView>, start: int, end: int, class: Text, len: int)
    requires
        lie_within(tokens, len),
        0 <= start,
        end <= len,
    ensures
        lie_within(pushed(tokens, start, end, class), len),
{
    let all = pushed(tokens, start, end, class);
    assert forall|i: int| 0 <= i < all.len() implies 0 <= (#[trigger] all[i]).start < all[i].end
        <= len by {
        if i < tokens.len() {
            assert(0 <= tokens[i].start < tokens[i].end <= len);
        }
    }
}

/// Changes within a line make tokens within it.
proof fn lemma_scanned_within(
    rules: Seq<(Seq<Text>, Text)>,
    tokens: Seq<TokenView>,
    start: int,
    stack: StackView,
    ops: Seq<(usize, ScopeOpView)>,
    len: int,
)
    requires
        lie_within(tokens, len),
        0 <= start <= len,
        forall|k: int| 0 <= k < ops.len() ==> (#[trigger] ops[k]).0 <= len,
    ensures
        lie_within(scanned(rules, tokens, start, stack, ops, len).0, len),
    decreases ops.len(),
{
    let class = class_of(rules, stack.scopes);
    if ops.len() == 0 {
        lemma_pushed_within(tokens, start, len, class, len);
    } else {
        let at = ops[0].0 as int;
        let next = pushed(tokens, start, at, class);
        lemma_pushed_within(tokens, start, at, class, len);
        match scopes::changed(stack, ops[0].1) {
            Some(after) => {
                let rest = ops.drop_first();
                assert forall|k: int| 0 <= k < rest.len() implies (#[trigger] rest[k]).0 <= len by {
                    assert(rest[k] == ops[k + 1]);
                }
                lemma_scanned_within(rules, next, at, after, rest, len);
            },
            None => {
                lemma_pushed_within(next, start, len, class, len);
            },
        }
    }
}

/// Changes within each line make tokens within each line.
proof fn lemma_classified_within(
    rules: Seq<(Seq<Text>, Text)>,
    stack: StackView,
    lines: Seq<Text>,
    ops: Seq<Seq<(usize, ScopeOpView)>>,
)
    requires
        ops_within(ops, lines),
    ensures
        tokens_within(classified(rules, stack, lines, ops), lines),
    decreases lines.len(),
{
    if lines.len() > 0 {
        let rest = lines.drop_first();
        let all = classified(rules, stack, lines, ops);
        let len = encode_utf8(lines[0]).len() as int;
        let (first, tail) = if ops.len() == 0 {
            lemma_classified_within(rules, stack, rest, ops);
            (Seq::<TokenView>::empty(), classified(rules, stack, rest, ops))
        } else {
            let (tokens, after) = scanned(rules, Seq::empty(), 0, stack, ops[0], len);
            let more = ops.drop_first();
            assert forall|k: int| 0 <= k < ops[0].len() implies (#[trigger] ops[0][k]).0 <= len by {}
            lemma_scanned_within(rules, Seq::empty(), 0, stack, ops[0], len);
            assert forall|i: int, k: int|
                0 <= i < more.len() && 0 <= k < more[i].len() implies (#[trigger] more[i][k]).0
                <= encode_utf8(rest[i]).len() by {
                assert(ops[i + 1][k].0 <= encode_utf8(lines[i + 1]).len());
            }
            lemma_classified_within(rules, after, rest, more);
            (tokens, classified(rules, after, rest, more))
        };
        assert(all == seq![first] + tail);
        assert forall|i: int| 0 <= i < lines.len() implies lie_within(
            #[trigger] all[i],
            encode_utf8(lines[i]).len() as int,
        ) by {
            if i > 0 {
                assert(all[i] == tail[i - 1]);
                assert(lines[i] == rest[i - 1]);
            }
        }
    }
}

/// The rules as specifications see them: the atoms of a prefix, and its class.
pub open spec fn rules_view(rules: Seq<(Scope, &'static str)>) -> Seq<(Seq<Text>, Text)> {
    rules.map_values(|rule: (Scope, &'static str)| (scopes::scope_atoms(rule.0), rule.1@))
}

/// The rules whose scope could be made, in the order of the table.
pub open spec fn kept(table: Seq<(Text, Text)>, made: Seq<Option<Seq<Text>>>) -> Seq<
    (Seq<Text>, Text),
>
    decreases made.len(),
{
    if made.len() == 0 {
        Seq::empty()
    } else {
        let rest = kept(table, made.drop_last());
        match made.last() {
            Some(atoms) => rest.push((atoms, table[made.len() - 1].1)),
            None => rest,
        }
    }
}

/// What each scope that could be made holds.
pub open spec fn made_view(made: Seq<Option<Scope>>) -> Seq<Option<Seq<Text>>> {
    made.map_values(
        |scope: Option<Scope>|
            match scope {
                Some(s) => Some(scopes::scope_atoms(s)),
                None => None,
            },
    )
}

/// Whether the scopes, where they could be made, are those that the table names.
pub open spec fn made_for(table: Seq<(Text, Text)>, made: Seq<Option<Seq<Text>>>) -> bool {
    &&& made.len() == table.len()
    &&& forall|i: int|
        0 <= i < made.len() ==> ((#[trigger] made[i]) matches Some(atoms) ==> atoms
            == scopes::atoms_of(table[i].0))
}

/// Whether the rules are those of the table whose scopes could be made.
pub open spec fn follow_table(rules: Seq<(Seq<Text>, Text)>) -> bool {
    exists|made: Seq<Option<Seq<Text>>>| #[trigger]
        made_for(class_rules(), made) && rules == kept(class_rules(), made)
}

/// Makes the scope of every rule.
fn make_scopes(table: &Vec<(&'static str, &'static str)>) -> (made: Vec<Option<Scope>>)
    ensures
        made_for(table.deep_view(), made_view(made@)),
{
    let mut made: Vec<Option<Scope>> = Vec::new();
    let mut i: usize = 0;
    while i < table.len()
        invariant
            i <= table@.len(),
            made@.len() == i,
            forall|j: int|
                0 <= j < i ==> ((#[trigger] made@[j]) matches Some(s) ==> scopes::scope_atoms(s)
                    == scopes::atoms_of(table@[j].0@)),
        decreases table@.len() - i,
    {
        made.push(scopes::scope_named(table[i].0));
        i = i + 1;
    }
    let ghost view = made_view(made@);
    assert forall|j: int| 0 <= j < view.len() implies ((#[trigger] view[j]) matches Some(atoms)
        ==> atoms == scopes::atoms_of(table.deep_view()[j].0)) by {
        assert(made@[j] is Some == view[j] is Some);
    }
    made
}

/// Keeps the rules whose scope could be made.
pub fn keep_rules(table: &Vec<(&'static str, &'static str)>, made: &Vec<Option<Scope>>) -> (rules:
    Vec<(Scope, &'static str)>)
    requires
        made@.len() == table@.len(),
    ensures
        rules_view(rules@) == kept(table.deep_view(), made_view(made@)),
{
    let mut rules: Vec<(Scope, &'static str)> = Vec::new();
    let ghost view = made_view(made@);
    let mut i: usize = 0;
    assert(view.take(0) == Seq::<Option<Seq<Text>>>::empty());
    assert(rules_view(rules@) == Seq::<(Seq<Text>, Text)>::empty());
    while i < made.len()
        invariant
            made@.len() == table@.len(),
            view == made_view(made@),
            i <= made@.len(),
            rules_view(rules@) == kept(table.deep_view(), view.take(i as int)),
        decreases made@.len() - i,
    {
        let ghost before = rules@;
        assert(view.take(i + 1).drop_last() == view.take(i as int));
        assert(view.take(i + 1).last() == view[i as int]);
        if let Some(scope) = made[i] {
            rules.push((scope, table[i].1));
            assert(rules_view(rules@) == rules_view(before).push(
                (scopes::scope_atoms(scope), table@[i as int].1@),
            ));
        }
        i = i + 1;
    }
    assert(view.take(view.len() as int) == view);
    rules
}

/// The grammars, and the rules that turn their scopes into classes.
pub struct Highlighter {
    syntaxes: SyntaxSet,
    rules: Vec<(Scope, &'static str)>,
}

impl Highlighter {
    /// The grammars.
    pub closed spec fn set(&self) -> SyntaxSet {
        self.syntaxes
    }

    /// The rules.
    pub closed spec fn rules(&self) -> Seq<(Seq<Text>, Text)> {
        rules_view(self.rules@)
    }

    #[verifier::type_invariant]
    spec fn well_formed(self) -> bool {
        &&& grammar::built_in(self.syntaxes)
        &&& grammar::last_named(grammar::grammars(self.syntaxes), "Plain Text"@) is Some
        &&& follow_table(rules_view(self.rules@))
    }

    /// Loads the grammars. That takes tens of milliseconds and a few megabytes, so it is worth
    /// doing once. A rule whose scope cannot be made is left out.
    pub fn load() -> (highlighter: Highlighter)
        ensures
            grammar::built_in(highlighter.set()),
            grammar::last_named(grammar::grammars(highlighter.set()), "Plain Text"@) is Some,
            follow_table(highlighter.rules()),
    {
        let table = rule_table();
        let made = make_scopes(&table);
        let rules = keep_rules(&table, &made);
        assert(made_for(class_rules(), made_view(made@)));
        Highlighter { syntaxes: SyntaxSet::load_defaults_newlines(), rules }
    }

    /// Finds the grammar for a file.
    fn syntax_for(&self, path: &str) -> (syntax: &SyntaxReference)
        ensures
            *syntax == grammar_for(self.set(), path@),
            grammar::grammars(self.set()).contains(*syntax),
    {
        proof {
            use_type_invariant(self);
        }
        let ghost list = grammar::grammars(self.syntaxes);
        let name = text::tail_after(path, '/');
        let ext = extension(name.as_str());
        proof {
            grammar::lemma_found_is_listed(list, name@);
            grammar::lemma_found_is_listed(list, ext@);
            grammar::lemma_found_is_listed(list, "Plain Text"@);
        }
        if let Some(syntax) = self.syntaxes.find_syntax_by_extension(name.as_str()) {
            return syntax;
        }
        if let Some(syntax) = self.syntaxes.find_syntax_by_extension(ext.as_str()) {
            return syntax;
        }
        if let Some(alias) = alias_for(ext.as_str()) {
            proof {
                grammar::lemma_found_is_listed(list, alias@);
            }
            if let Some(syntax) = self.syntaxes.find_syntax_by_name(alias) {
                return syntax;
            }
        }
        self.syntaxes.find_syntax_plain_text()
    }

    /// Human readable language name, or `None` when there is no grammar for it.
    pub fn language(&self, path: &str) -> (name: Option<String>)
        ensures
            name.deep_view() == language_of(self.set(), path@),
            follow_table(self.rules()),
    {
        proof {
            use_type_invariant(self);
        }
        let name = grammar::name_of(self.syntax_for(path));
        if text::same(name, "Plain Text") {
            None
        } else {
            Some(name.to_owned())
        }
    }

    /// The class of the innermost scope that a rule speaks of.
    fn class_for(&self, stack: &ScopeStack) -> (class: &'static str)
        ensures
            class@ == class_of(self.rules(), scopes::stack_scopes(*stack)),
    {
        let held = stack.as_slice();
        let ghost all = scopes::stack_scopes(*stack);
        let ghost rules = self.rules();
        let mut n: usize = held.len();
        assert(all.take(n as int) == all);
        while n > 0
            invariant
                all == scopes::stack_scopes(*stack),
                all == held@.map_values(|s: Scope| scopes::scope_atoms(s)),
                rules == self.rules(),
                n <= held@.len(),
                class_of(rules, all) == class_of(rules, all.take(n as int)),
            decreases n,
        {
            let scope = held[n - 1];
            assert(all.take(n as int).last() == scopes::scope_atoms(scope));
            assert(all.take(n as int).drop_last() == all.take(n - 1));
            let mut i: usize = 0;
            assert(rules.skip(0) == rules);
            while i < self.rules.len()
                invariant
                    rules == rules_view(self.rules@),
                    i <= self.rules@.len(),
                    rule_class(rules, scopes::scope_atoms(scope)) == rule_class(
                        rules.skip(i as int),
                        scopes::scope_atoms(scope),
                    ),
                    0 < n <= all.len(),
                    all == scopes::stack_scopes(*stack),
                    rules == self.rules(),
                    class_of(rules, all) == class_of(rules, all.take(n as int)),
                    all.take(n as int).last() == scopes::scope_atoms(scope),
                decreases self.rules@.len() - i,
            {
                let (prefix, class) = self.rules[i];
                assert(rules.skip(i as int)[0] == (scopes::scope_atoms(prefix), class@));
                if prefix.is_prefix_of(scope) {
                    return class;
                }
                assert(rules.skip(i as int).drop_first() == rules.skip(i + 1));
                i = i + 1;
            }
            n = n - 1;
        }
        proof {
            reveal_strlit("");
        }
        assert(""@ == Seq::<char>::empty());
        ""
    }

    /// Parses the lines of a file, up to the first that is too long or that its grammar fails on:
    /// a grammar that trips over one line will not recover.
    fn parse(&self, path: &str, lines: &Vec<String>) -> (ops: Vec<Vec<(usize, ScopeOp)>>)
        ensures
            ops.deep_view() == ops_from(
                self.set(),
                grammar_for(self.set(), path@),
                Seq::empty(),
                lines.deep_view(),
            ),
            ops_within(ops.deep_view(), lines.deep_view()),
    {
        proof {
            use_type_invariant(self);
        }
        let syntax = self.syntax_for(path);
        let ghost all = lines.deep_view();
        let ghost goal = ops_from(self.set(), *syntax, Seq::empty(), all);
        assert(grammar::grammars(self.syntaxes).contains(*syntax));
        let mut parser = ParseState::new(syntax);
        let mut ops: Vec<Vec<(usize, ScopeOp)>> = Vec::new();
        let mut i: usize = 0;
        assert(all.skip(0) == all);
        assert(all.take(0) == Seq::<Text>::empty());
        assert(ops.deep_view() + goal == goal);
        while i < lines.len()
            invariant
                grammar::built_in(self.syntaxes),
                grammar::grammars(self.syntaxes).contains(*syntax),
                all == lines.deep_view(),
                i <= lines@.len(),
                grammar::parser_grammar(parser) == *syntax,
                grammar::parser_lines(parser) == all.take(i as int),
                ops@.len() == i,
                ops_within(ops.deep_view(), all),
                goal == ops.deep_view() + ops_from(
                    self.syntaxes,
                    *syntax,
                    all.take(i as int),
                    all.skip(i as int),
                ),
                goal == ops_from(self.set(), grammar_for(self.set(), path@), Seq::empty(), all),
            decreases lines@.len() - i,
        {
            let ghost before = ops.deep_view();
            assert(all.skip(i as int)[0] == lines@[i as int]@);
            if lines[i].as_str().as_bytes().len() > grammar::MAX_PARSED_LINE {
                assert(ops.deep_view() + Seq::empty() == ops.deep_view());
                return ops;
            }
            match grammar::parse_line(&mut parser, lines[i].as_str(), &self.syntaxes) {
                Some(line_ops) => {
                    ops.push(line_ops);
                    assert(ops.deep_view() == before.push(line_ops.deep_view()));
                    assert forall|j: int, k: int|
                        0 <= j < ops.deep_view().len() && 0 <= k < ops.deep_view()[j].len() implies (
                    #[trigger] ops.deep_view()[j][k]).0 <= encode_utf8(all[j]).len() by {
                        if j < i {
                            assert(ops.deep_view()[j] == before[j]);
                            assert(before[j][k].0 <= encode_utf8(all[j]).len());
                        } else {
                            assert(ops.deep_view()[j][k].0 == line_ops@[k].0);
                        }
                    }
                },
                None => {
                    assert(ops.deep_view() + Seq::empty() == ops.deep_view());
                    return ops;
                },
            }
            assert(all.take(i + 1) == all.take(i as int).push(all[i as int]));
            assert(all.skip(i as int).drop_first() == all.skip(i + 1));
            i = i + 1;
            assert(goal == ops.deep_view() + ops_from(
                self.syntaxes,
                *syntax,
                all.take(i as int),
                all.skip(i as int),
            ));
        }
        assert(ops.deep_view() + Seq::empty() == ops.deep_view());
        ops
    }

    /// Classifies one line, and takes the stack from its start to its end.
    fn classify_line(&self, stack: &mut ScopeStack, ops: &Vec<(usize, ScopeOp)>, len: usize) -> (r:
        Vec<Token>)
        ensures
            (r.deep_view(), scopes::stack_view(*final(stack))) == scanned(
                self.rules(),
                Seq::empty(),
                0,
                scopes::stack_view(*old(stack)),
                ops.deep_view(),
                len as int,
            ),
    {
        let ghost all = ops.deep_view();
        let ghost rules = self.rules();
        let ghost goal = scanned(
            rules,
            Seq::empty(),
            0,
            scopes::stack_view(*stack),
            all,
            len as int,
        );
        let mut tokens: Vec<Token> = Vec::new();
        let mut start: usize = 0;
        let mut i: usize = 0;
        assert(all.skip(0) == all);
        assert(tokens.deep_view() == Seq::<TokenView>::empty());
        while i < ops.len()
            invariant
                all == ops.deep_view(),
                rules == self.rules(),
                i <= ops@.len(),
                goal == scanned(
                    rules,
                    Seq::empty(),
                    0,
                    scopes::stack_view(*old(stack)),
                    all,
                    len as int,
                ),
                goal == scanned(
                    rules,
                    tokens.deep_view(),
                    start as int,
                    scopes::stack_view(*stack),
                    all.skip(i as int),
                    len as int,
                ),
            decreases ops@.len() - i,
        {
            let at = ops[i].0;
            assert(all.skip(i as int)[0] == (at, ops@[i as int].1.deep_view()));
            assert(all.skip(i as int).drop_first() == all.skip(i + 1));
            push_token(&mut tokens, start, at, self.class_for(stack));
            if !scopes::apply(stack, &ops[i].1) {
                push_token(&mut tokens, start, len, self.class_for(stack));
                return tokens;
            }
            start = at;
            i = i + 1;
        }
        push_token(&mut tokens, start, len, self.class_for(stack));
        tokens
    }

    /// Classifies every line, given the changes that parsing found. There is one entry per
    /// line, empty behind the lines that were parsed.
    pub fn classify(&self, lines: &Vec<String>, ops: &Vec<Vec<(usize, ScopeOp)>>) -> (r: Vec<
        Vec<Token>,
    >)
        ensures
            r.deep_view() == classified(
                self.rules(),
                scopes::empty_stack(),
                lines.deep_view(),
                ops.deep_view(),
            ),
    {
        let ghost all = lines.deep_view();
        let ghost changes = ops.deep_view();
        let ghost rules = self.rules();
        let ghost goal = classified(rules, scopes::empty_stack(), all, changes);
        let mut stack = ScopeStack::new();
        let mut r: Vec<Vec<Token>> = Vec::new();
        let mut i: usize = 0;
        assert(scopes::stack_view(stack) == scopes::empty_stack());
        assert(all.skip(0) == all);
        assert(changes.skip(0) == changes);
        assert(r.deep_view() + goal == goal);
        while i < lines.len()
            invariant
                all == lines.deep_view(),
                changes == ops.deep_view(),
                rules == self.rules(),
                i <= lines@.len(),
                goal == r.deep_view() + classified(
                    rules,
                    scopes::stack_view(stack),
                    all.skip(i as int),
                    if i < changes.len() {
                        changes.skip(i as int)
                    } else {
                        Seq::empty()
                    },
                ),
            decreases lines@.len() - i,
        {
            let ghost before = r.deep_view();
            let ghost stack_before = scopes::stack_view(stack);
            let ghost rest = if i < changes.len() {
                changes.skip(i as int)
            } else {
                Seq::empty()
            };
            let ghost next = if i + 1 < changes.len() {
                changes.skip(i + 1)
            } else {
                Seq::empty()
            };
            assert(all.skip(i as int).drop_first() == all.skip(i + 1));
            assert(all.skip(i as int)[0] == lines@[i as int]@);
            let tokens = if i < ops.len() {
                assert(rest[0] == ops@[i as int].deep_view());
                assert(rest.drop_first() == next);
                let len = lines[i].as_str().as_bytes().len();
                self.classify_line(&mut stack, &ops[i], len)
            } else {
                Vec::new()
            };
            assert(i >= changes.len() ==> tokens.deep_view() == Seq::<TokenView>::empty());
            let ghost tail = classified(rules, scopes::stack_view(stack), all.skip(i + 1), next);
            assert(classified(rules, stack_before, all.skip(i as int), rest) == seq![
                tokens.deep_view(),
            ] + tail);
            r.push(tokens);
            assert(r.deep_view() == before.push(tokens.deep_view()));
            assert(before + (seq![tokens.deep_view()] + tail) == before.push(tokens.deep_view())
                + tail);
            i = i + 1;
        }
        assert(r.deep_view() + Seq::empty() == r.deep_view());
        r
    }

    /// Classifies every line of `file`. The result always has one entry per
    /// line, empty where nothing is highlighted.
    pub fn tokenize(&self, path: &str, file: &str) -> (r: Vec<Vec<Token>>)
        ensures
            r.deep_view() == tokenized(self.set(), self.rules(), path@, file@),
            tokens_within(r.deep_view(), text::lines_of(file@)),
            follow_table(self.rules()),
    {
        proof {
            use_type_invariant(self);
        }
        let lines = text::lines_with_endings(file);
        let ops = if file.as_bytes().len() > MAX_HIGHLIGHT_BYTES || lines.len()
            > MAX_HIGHLIGHT_LINES {
            Vec::new()
        } else {
            self.parse(path, &lines)
        };
        assert(too_large(file@) ==> ops.deep_view() == Seq::<
            Seq<(usize, ScopeOpView)>,
        >::empty());
        proof {
            lemma_classified_within(
                self.rules(),
                scopes::empty_stack(),
                lines.deep_view(),
                ops.deep_view(),
            );
        }
        self.classify(&lines, &ops)
    }
}

/// The name of a file's language, where it has a grammar.
pub open spec fn language_of(set: SyntaxSet, path: Text) -> Option<Text> {
    let name = grammar::grammar_name(grammar_for(set, path));
    if name == "Plain Text"@ {
        None
    } else {
        Some(name)
    }
}

} // verus!
