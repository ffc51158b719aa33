//! The grammars of syntect: finding one for a file, and parsing lines with it.

use vstd::prelude::*;
use vstd::utf8::*;

use syntect::parsing::{ClearAmount, ParseState, ScopeStackOp, SyntaxReference, SyntaxSet};

use crate::scopes::ScopeOp;
#[allow(unused_imports)]
use crate::scopes::ScopeOpView;
#[allow(unused_imports)]
use crate::text::Text;

verus! {

broadcast use vstd::seq_lib::group_seq_properties;

/// Trusted: `syntect::parsing::SyntaxSet`, a list of grammars that refer to each other.
#[verifier::external_type_specification]
#[verifier::external_body]
pub struct ExSyntaxSet(SyntaxSet);

/// Trusted: `syntect::parsing::SyntaxReference`, one grammar of a set.
#[verifier::external_type_specification]
#[verifier::external_body]
pub struct ExSyntaxReference(SyntaxReference);

/// Trusted: `syntect::parsing::ParseState`, a parser part of the way through a file.
#[verifier::external_type_specification]
#[verifier::external_body]
pub struct ExParseState(ParseState);

/// The longest line, in bytes, that a parser is given.
///
/// A grammar may look for a text that an earlier line held, and compiles a pattern of it for that.
/// This keeps such patterns far below the size that compiling refuses.
pub const MAX_PARSED_LINE: usize = 16 * 1024;

/// The grammars that a set holds, in its own order.
pub uninterp spec fn grammars(set: SyntaxSet) -> Seq<SyntaxReference>;

/// Whether a set is the one that syntect carries.
pub uninterp spec fn built_in(set: SyntaxSet) -> bool;

/// The name of a grammar.
pub uninterp spec fn grammar_name(grammar: SyntaxReference) -> Seq<char>;

/// The extensions of the files that a grammar is for.
pub uninterp spec fn grammar_extensions(grammar: SyntaxReference) -> Seq<Seq<char>>;

/// The grammar that a parser works by.
pub uninterp spec fn parser_grammar(parser: ParseState) -> SyntaxReference;

/// The lines that a parser has gone through.
pub uninterp spec fn parser_lines(parser: ParseState) -> Seq<Seq<char>>;

/// What parsing `line` behind `lines` gives: the changes to the stack of scopes, each with
/// the byte that it is made at; none where the grammar fails.
pub uninterp spec fn line_ops(
    set: SyntaxSet,
    grammar: SyntaxReference,
    lines: Seq<Seq<char>>,
    line: Seq<char>,
) -> Option<Seq<(usize, ScopeOpView)>>;

/// An ASCII letter in lower case; any other character as it is.
pub open spec fn lowered(c: char) -> char {
    if 'A' <= c <= 'Z' {
        ((c as u32) + 32) as char
    } else {
        c
    }
}

/// Whether two texts differ at most in the case of ASCII letters.
pub open spec fn same_but_case(a: Text, b: Text) -> bool {
    a.map_values(|c: char| lowered(c)) == b.map_values(|c: char| lowered(c))
}

/// Whether `ext` is one of the extensions, in whatever case.
pub open spec fn has_extension(extensions: Seq<Text>, ext: Text) -> bool {
    exists|i: int| 0 <= i < extensions.len() && same_but_case(#[trigger] extensions[i], ext)
}

/// The last of the grammars that is for files with the extension `ext`.
pub open spec fn last_for_extension(list: Seq<SyntaxReference>, ext: Text) -> Option<
    SyntaxReference,
>
    decreases list.len(),
{
    if list.len() == 0 {
        None
    } else if has_extension(grammar_extensions(list.last()), ext) {
        Some(list.last())
    } else {
        last_for_extension(list.drop_last(), ext)
    }
}

/// The last of the grammars that is called `name`.
pub open spec fn last_named(list: Seq<SyntaxReference>, name: Text) -> Option<SyntaxReference>
    decreases list.len(),
{
    if list.len() == 0 {
        None
    } else if grammar_name(list.last()) == name {
        Some(list.last())
    } else {
        last_named(list.drop_last(), name)
    }
}

/// The grammar that a reference refers to.
pub open spec fn referred(grammar: Option<&SyntaxReference>) -> Option<SyntaxReference> {
    match grammar {
        Some(g) => Some(*g),
        None => None,
    }
}

/// Trusted: `SyntaxSet::load_defaults_newlines` loads the set that syntect carries. One of
/// its grammars is that for plain text.
pub assume_specification[ SyntaxSet::load_defaults_newlines ]() -> (set: SyntaxSet)
    ensures
        built_in(set),
        last_named(grammars(set), "Plain Text"@) is Some,
;

/// Trusted: `SyntaxSet::find_syntax_by_extension` finds the last grammar with an extension
/// that equals the given one, whatever the case of its ASCII letters.
pub assume_specification<'a>[ SyntaxSet::find_syntax_by_extension ](
    set: &'a SyntaxSet,
    extension: &str,
) -> (r: Option<&'a SyntaxReference>)
    ensures
        referred(r) == last_for_extension(grammars(*set), extension@),
        r matches Some(g) ==> has_extension(grammar_extensions(*g), extension@),
;

/// Trusted: `SyntaxSet::find_syntax_by_name` finds the last grammar of the given name.
pub assume_specification<'a>[ SyntaxSet::find_syntax_by_name ](
    set: &'a SyntaxSet,
    name: &str,
) -> (r: Option<&'a SyntaxReference>)
    ensures
        referred(r) == last_named(grammars(*set), name@),
;

/// Trusted: `SyntaxSet::find_syntax_plain_text` finds the grammar called `Plain Text`. It
/// panics where there is none.
pub assume_specification[ SyntaxSet::find_syntax_plain_text ](set: &SyntaxSet) -> (r:
    &SyntaxReference)
    requires
        last_named(grammars(*set), "Plain Text"@) is Some,
    ensures
        Some(*r) == last_named(grammars(*set), "Plain Text"@),
;

/// Trusted: the field `name` of `SyntaxReference`.
#[verifier::external_body]
pub(crate) fn name_of(grammar: &SyntaxReference) -> (name: &str)
    ensures
        name@ == grammar_name(*grammar),
{
    grammar.name.as_str()
}

/// Trusted: `ParseState::new` starts a parser that has gone through no line yet. It panics on a
/// grammar without a start context, which none of those has that syntect carries.
pub assume_specification[ ParseState::new ](syntax: &SyntaxReference) -> (parser: ParseState)
    requires
        exists|set: SyntaxSet| built_in(set) && #[trigger] grammars(set).contains(*syntax),
    ensures
        parser_grammar(parser) == *syntax,
        parser_lines(parser) == Seq::<Seq<char>>::empty(),
;

/// Trusted: what `ParseState::parse_line` gives rests on the set, the grammar, the lines
/// before and the line. Every change is made at a byte of the line or at its end. It may panic on
/// a set that the grammar is not part of, and where a pattern that it makes of a captured text
/// cannot be compiled because it is too large. Of a parser that failed nothing is said.
#[verifier::external_body]
pub(crate) fn parse_line(parser: &mut ParseState, line: &str, set: &SyntaxSet) -> (ops: Option<
    Vec<(usize, ScopeOp)>,
>)
    requires
        built_in(*set),
        grammars(*set).contains(parser_grammar(*old(parser))),
        encode_utf8(line@).len() <= MAX_PARSED_LINE,
    ensures
        ops.deep_view() == line_ops(
            *set,
            parser_grammar(*old(parser)),
            parser_lines(*old(parser)),
            line@,
        ),
        ops matches Some(list) ==> forall|i: int|
            0 <= i < list@.len() ==> (#[trigger] list@[i]).0 <= encode_utf8(line@).len(),
        ops is Some ==> parser_grammar(*final(parser)) == parser_grammar(*old(parser)),
        ops is Some ==> parser_lines(*final(parser)) == parser_lines(*old(parser)).push(line@),
{
    let ops = parser.parse_line(line, set).ok()?;
    let convert = |(at, op)| match op {
        ScopeStackOp::Push(scope) => (at, ScopeOp::Push(scope)),
        ScopeStackOp::Pop(n) => (at, ScopeOp::Pop(n)),
        ScopeStackOp::Clear(ClearAmount::TopN(n)) => (at, ScopeOp::ClearTop(n)),
        ScopeStackOp::Clear(ClearAmount::All) => (at, ScopeOp::ClearAll),
        ScopeStackOp::Restore => (at, ScopeOp::Restore),
        ScopeStackOp::Noop => (at, ScopeOp::Noop),
    };
    Some(ops.into_iter().map(convert).collect())
}

/// A grammar that is found is one of those that were searched.
pub proof fn lemma_found_is_listed(list: Seq<SyntaxReference>, wanted: Text)
    ensures
        last_for_extension(list, wanted) matches Some(g) ==> list.contains(g),
        last_named(list, wanted) matches Some(g) ==> list.contains(g) && grammar_name(g) == wanted,
    decreases list.len(),
{
    if list.len() > 0 {
        let rest = list.drop_last();
        lemma_found_is_listed(rest, wanted);
        assert(list[list.len() - 1] == list.last());
        assert forall|g: SyntaxReference| rest.contains(g) implies list.contains(g) by {
            let i = choose|i: int| 0 <= i < rest.len() && rest[i] == g;
            assert(list[i] == g);
        }
    }
}

} // verus!
