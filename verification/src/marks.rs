//! What a browser marks the characters of rendered HTML with.

use vstd::prelude::*;
use vstd::utf8::*;

use crate::markup;
use crate::render;
#[allow(unused_imports)]
use crate::render::TokenView;
use crate::text;
#[allow(unused_imports)]
use crate::text::Text;

verus! {

/// A character that is shown, and the `class` attribute of the span that it stands in.
#[verifier::ext_equal]
pub struct Mark {
    pub shown: char,
    pub classes: Text,
}

/// The `class` attribute that a tag sets: that of a span that opens, and none behind one that
/// closes.
pub open spec fn tag_classes(tag: Text) -> Text {
    let start = seq!['s', 'p', 'a', 'n', ' ', 'c', 'l', 'a', 's', 's', '=', '"'];
    if start.is_prefix_of(tag) && tag.len() > start.len() && tag.last() == '"' {
        tag.subrange(start.len() as int, tag.len() - 1)
    } else {
        Seq::empty()
    }
}

/// What a reader of HTML that stands in a span with the given classes makes of `s`: tags set the
/// classes of what follows them, and the three character references stand for what they name.
pub open spec fn marks_in(s: Text, classes: Text) -> Seq<Mark>
    decreases s.len(),
{
    if s.len() == 0 {
        Seq::empty()
    } else if s[0] == '<' {
        let k = text::first_index(s, '>');
        if 0 < k < s.len() {
            marks_in(s.skip(k + 1), tag_classes(s.subrange(1, k)))
        } else {
            Seq::empty()
        }
    } else if seq!['&', 'a', 'm', 'p', ';'].is_prefix_of(s) {
        seq![Mark { shown: '&', classes }] + marks_in(s.skip(5), classes)
    } else if seq!['&', 'l', 't', ';'].is_prefix_of(s) {
        seq![Mark { shown: '<', classes }] + marks_in(s.skip(4), classes)
    } else if seq!['&', 'g', 't', ';'].is_prefix_of(s) {
        seq![Mark { shown: '>', classes }] + marks_in(s.skip(4), classes)
    } else {
        seq![Mark { shown: s[0], classes }] + marks_in(s.skip(1), classes)
    }
}

/// The characters that HTML shows, each with its classes.
pub open spec fn marks(html: Text) -> Seq<Mark> {
    marks_in(html, Seq::empty())
}

/// The byte that the character `k` of a line starts at.
pub open spec fn byte_of(line: Text, k: int) -> int {
    encode_utf8(line.take(k)).len() as int
}

/// Whether a token lies over byte `p`.
pub open spec fn lies_over(token: TokenView, p: int) -> bool {
    token.start <= p < token.end
}

/// Whether `j` is the first token that lies over byte `p`.
pub open spec fn first_over(tokens: Seq<TokenView>, p: int, j: int) -> bool {
    &&& 0 <= j < tokens.len()
    &&& lies_over(tokens[j], p)
    &&& forall|i: int| 0 <= i < j ==> !lies_over(#[trigger] tokens[i], p)
}

/// Whether a byte lies in one of the ranges.
pub open spec fn in_ranges(ranges: Seq<(usize, usize)>, p: int) -> bool {
    exists|i: int| 0 <= i < ranges.len() && (#[trigger] ranges[i]).0 <= p < ranges[i].1
}

/// The classes of a character: its syntax class, with `x` behind it where it is emphasised.
pub open spec fn with_emphasis(class: Text, emphasized: bool) -> Text {
    if !emphasized {
        class
    } else if class.len() == 0 {
        seq!['x']
    } else {
        class + seq![' ', 'x']
    }
}

/// Whether the classes of a character at byte `p` are those of the first token that lies over it,
/// or no class where none does.
pub open spec fn carries(
    classes: Text,
    tokens: Seq<TokenView>,
    p: int,
    emphasized: bool,
) -> bool {
    &&& forall|j: int| #[trigger]
        first_over(tokens, p, j) ==> classes == with_emphasis(tokens[j].class, emphasized)
    &&& (forall|j: int| 0 <= j < tokens.len() ==> !lies_over(#[trigger] tokens[j], p))
        ==> classes == with_emphasis(Seq::empty(), emphasized)
}

/// Whether HTML shows a line, each character of it with the class of the token that lies over it
/// and emphasised just where it is to be.
pub open spec fn is_marked(
    html: Text,
    line: Text,
    tokens: Seq<TokenView>,
    emphasized: spec_fn(int) -> bool,
) -> bool {
    &&& marks(html).len() == line.len()
    &&& forall|k: int|
        0 <= k < line.len() ==> (#[trigger] marks(html)[k]).shown == line[k] && carries(
            marks(html)[k].classes,
            tokens,
            byte_of(line, k),
            emphasized(byte_of(line, k)),
        )
}

/// Whether no token starts or ends inside a character of a line.
pub open spec fn fall_on_characters(line: Text, tokens: Seq<TokenView>) -> bool {
    forall|i: int|
        0 <= i < tokens.len() ==> {
            &&& (#[trigger] tokens[i]).start < encode_utf8(line).len() ==> is_char_boundary(
                encode_utf8(line),
                tokens[i].start,
            )
            &&& tokens[i].end < encode_utf8(line).len() ==> is_char_boundary(
                encode_utf8(line),
                tokens[i].end,
            )
        }
}

/// Whether no range starts or ends inside a character of a line.
pub open spec fn ranges_on_characters(line: Text, ranges: Seq<(usize, usize)>) -> bool {
    forall|i: int|
        0 <= i < ranges.len() ==> {
            &&& (#[trigger] ranges[i]).0 < encode_utf8(line).len() ==> is_char_boundary(
                encode_utf8(line),
                ranges[i].0 as int,
            )
            &&& ranges[i].1 < encode_utf8(line).len() ==> is_char_boundary(
                encode_utf8(line),
                ranges[i].1 as int,
            )
        }
}

/// A character with its classes.
spec fn mark(shown: char, classes: Text) -> Mark {
    Mark { shown, classes }
}

/// A text whose characters all have the same classes.
spec fn in_one_span(s: Text, classes: Text) -> Seq<Mark> {
    s.map_values(|c: char| mark(c, classes))
}

proof fn lemma_prefix(a: Text, b: Text)
    ensures
        a.is_prefix_of(a + b),
        (a + b).skip(a.len() as int) == b,
{
    assert((a + b).subrange(0, a.len() as int) == a);
    assert((a + b).skip(a.len() as int) == b);
}

proof fn lemma_no_prefix(a: Text, s: Text, i: int)
    requires
        0 <= i < a.len(),
        i < s.len() ==> s[i] != a[i],
    ensures
        !a.is_prefix_of(s),
{
    if a.is_prefix_of(s) {
        assert(s.subrange(0, a.len() as int)[i] == a[i]);
    }
}

/// An escaped character is read as that character.
proof fn lemma_read_char(c: char, rest: Text, classes: Text)
    ensures
        marks_in(render::escaped_char(c) + rest, classes) == seq![Mark { shown: c, classes }]
            + marks_in(rest, classes),
{
    markup::lemma_escaped_char(c);
    let s = render::escaped_char(c) + rest;
    lemma_prefix(render::escaped_char(c), rest);
    let amp = seq!['&', 'a', 'm', 'p', ';'];
    let lt = seq!['&', 'l', 't', ';'];
    let gt = seq!['&', 'g', 't', ';'];
    if c == '&' {
    } else if c == '<' {
        lemma_no_prefix(amp, s, 1);
    } else if c == '>' {
        lemma_no_prefix(amp, s, 1);
        lemma_no_prefix(lt, s, 1);
    } else {
        assert(s[0] == c);
        lemma_no_prefix(amp, s, 0);
        lemma_no_prefix(lt, s, 0);
        lemma_no_prefix(gt, s, 0);
    }
}

/// Escaped text is read as that text, in the span that it stands in.
proof fn lemma_read_text(body: Text, rest: Text, classes: Text)
    ensures
        marks_in(render::escaped(body) + rest, classes) == in_one_span(body, classes) + marks_in(
            rest,
            classes,
        ),
    decreases body.len(),
{
    if body.len() == 0 {
        assert(render::escaped(body) + rest == rest);
        assert(in_one_span(body, classes) + marks_in(rest, classes) == marks_in(rest, classes));
    } else {
        let first = seq![body[0]];
        let tail = body.drop_first();
        lemma_read_text(tail, rest, classes);
        assert(body == first + tail);
        markup::law_escape_add(first, tail);
        assert(render::escaped(first) == render::escaped_char(body[0])) by {
            reveal_with_fuel(render::escaped, 2);
            assert(first.drop_last() == Seq::<char>::empty());
            assert(Seq::<char>::empty() + render::escaped_char(body[0]) == render::escaped_char(
                body[0],
            ));
        }
        let more = render::escaped(tail) + rest;
        assert(render::escaped(body) + rest == render::escaped_char(body[0]) + more);
        lemma_read_char(body[0], more, classes);
        let head = seq![mark(body[0], classes)];
        assert(in_one_span(body, classes) == head + in_one_span(tail, classes));
        assert(in_one_span(body, classes) + marks_in(rest, classes) == head + (in_one_span(
            tail,
            classes,
        ) + marks_in(rest, classes)));
    }
}

/// A tag shows nothing and sets the classes of what follows it.
proof fn lemma_read_tag(tag: Text, rest: Text, classes: Text)
    requires
        !tag.contains('>'),
    ensures
        marks_in(seq!['<'] + tag + seq!['>'] + rest, classes) == marks_in(rest, tag_classes(tag)),
{
    let s = seq!['<'] + tag + seq!['>'] + rest;
    let k = tag.len() as int + 1;
    assert(s[0] == '<');
    assert(s[k] == '>');
    assert forall|j: int| 0 <= j < k implies s[j] != '>' by {
        if j > 0 {
            assert(s[j] == tag[j - 1]);
            assert(tag.contains(tag[j - 1]));
        }
    }
    text::lemma_first_index(s, '>', k);
    assert(s.subrange(1, k) == tag);
    assert(s.skip(k + 1) == rest);
}

/// The opening tag of a span, without what encloses it.
spec fn opening(classes: Text) -> Text {
    seq!['s', 'p', 'a', 'n', ' ', 'c', 'l', 'a', 's', 's', '=', '"'] + classes + seq!['"']
}

proof fn lemma_opening(classes: Text)
    requires
        !classes.contains('>'),
    ensures
        !opening(classes).contains('>'),
        tag_classes(opening(classes)) == classes,
        render::span_tag(classes) == seq!['<'] + opening(classes) + seq!['>'],
{
    let tag = opening(classes);
    let start = seq!['s', 'p', 'a', 'n', ' ', 'c', 'l', 'a', 's', 's', '=', '"'];
    assert forall|i: int| 0 <= i < tag.len() implies tag[i] != '>' by {
        if 12 <= i < 12 + classes.len() {
            assert(tag[i] == classes[i - 12]);
            assert(classes.contains(classes[i - 12]));
        }
    }
    assert(tag == start + (classes + seq!['"']));
    lemma_prefix(start, classes + seq!['"']);
    assert(tag.subrange(12, tag.len() - 1) == classes);
    reveal_strlit("<span class=\"");
    reveal_strlit("\">");
    assert("<span class=\""@ == seq!['<'] + start);
    assert("\">"@ == seq!['"', '>']);
    assert(render::span_tag(classes) == seq!['<'] + tag + seq!['>']);
}

proof fn lemma_closing()
    ensures
        "</span>"@ == seq!['<'] + seq!['/', 's', 'p', 'a', 'n'] + seq!['>'],
        !seq!['/', 's', 'p', 'a', 'n'].contains('>'),
        tag_classes(seq!['/', 's', 'p', 'a', 'n']) == Seq::<char>::empty(),
{
    reveal_strlit("</span>");
    let tag = seq!['/', 's', 'p', 'a', 'n'];
    assert("</span>"@ == seq!['<'] + tag + seq!['>']);
    lemma_no_prefix(
        seq!['s', 'p', 'a', 'n', ' ', 'c', 'l', 'a', 's', 's', '=', '"'],
        tag,
        0,
    );
}

/// A piece is read as its text, each character with the classes of the piece.
proof fn lemma_read_piece(class: Text, emphasized: bool, body: Text, rest: Text)
    requires
        !class.contains('>'),
    ensures
        marks_in(render::piece(class, emphasized, render::escaped(body)) + rest, Seq::empty())
            == in_one_span(body, with_emphasis(class, emphasized)) + marks_in(rest, Seq::empty()),
{
    let none = Seq::<char>::empty();
    let text = render::escaped(body);
    if class.len() == 0 && !emphasized {
        assert(class == none);
        lemma_read_text(body, rest, none);
    } else {
        let classes = render::piece_classes(class, emphasized);
        reveal_strlit("x");
        reveal_strlit(" x");
        assert("x"@ == seq!['x']);
        assert(" x"@ == seq![' ', 'x']);
        assert(classes == with_emphasis(class, emphasized));
        assert forall|i: int| 0 <= i < classes.len() implies classes[i] != '>' by {
            if i < class.len() {
                assert(classes[i] == class[i]);
                assert(class.contains(class[i]));
            }
        }
        let end = seq!['/', 's', 'p', 'a', 'n'];
        lemma_opening(classes);
        lemma_closing();
        let tail = "</span>"@ + rest;
        assert(tail == seq!['<'] + end + seq!['>'] + rest);
        lemma_read_tag(end, rest, classes);
        lemma_read_text(body, tail, classes);
        let all = render::piece(class, emphasized, text) + rest;
        assert(all == seq!['<'] + opening(classes) + seq!['>'] + (text + tail));
        lemma_read_tag(opening(classes), text + tail, none);
    }
}

/// The bytes of a line are those of its first `n` characters and those of the rest.
proof fn lemma_bytes_split(line: Text, n: int)
    requires
        0 <= n <= line.len(),
    ensures
        encode_utf8(line) == encode_utf8(line.take(n)) + encode_utf8(line.skip(n)),
        0 <= byte_of(line, n) <= encode_utf8(line).len(),
        encode_utf8(line).subrange(byte_of(line, n), encode_utf8(line).len() as int)
            == encode_utf8(line.skip(n)),
{
    assert(line == line.take(n) + line.skip(n));
    text::lemma_encode_add(line.take(n), line.skip(n));
    let bytes = encode_utf8(line);
    assert(bytes.subrange(byte_of(line, n), bytes.len() as int) == encode_utf8(line.skip(n)));
}

/// Where a character starts, none is cut.
pub proof fn lemma_byte_of_is_boundary(line: Text, n: int)
    requires
        0 <= n <= line.len(),
    ensures
        is_char_boundary(encode_utf8(line), byte_of(line, n)),
    decreases n,
{
    let bytes = encode_utf8(line);
    encode_utf8_valid_utf8(line);
    if n == 0 {
        assert(line.take(0) == Seq::<char>::empty());
    } else {
        let rest = line.drop_first();
        lemma_byte_of_is_boundary(rest, n - 1);
        encode_utf8_first_scalar(line);
        assert(line.take(n).drop_first() == rest.take(n - 1));
        assert(line.take(n)[0] == line[0]);
        assert(pop_first_scalar(bytes) == encode_utf8(rest));
        lemma_bytes_split(line, n);
    }
}

/// Characters start one behind the other.
pub proof fn lemma_byte_of_grows(line: Text, a: int, b: int)
    requires
        0 <= a < b <= line.len(),
    ensures
        byte_of(line, a) < byte_of(line, b),
{
    let more = line.subrange(a, b);
    assert(line.take(b) == line.take(a) + more);
    text::lemma_encode_add(line.take(a), more);
    encode_utf8_first_scalar(more);
    char_is_scalar(more[0]);
    if encode_utf8(more).len() == 0 {
        assert(encode_scalar(more[0] as u32).len() > 0);
    }
}

/// The characters up to a cut, and where they end.
proof fn lemma_up_to(line: Text, n: int, q: int) -> (m: int)
    requires
        0 <= n <= line.len(),
        byte_of(line, n) <= q <= encode_utf8(line).len(),
        is_char_boundary(encode_utf8(line), q),
    ensures
        n <= m <= line.len(),
        byte_of(line, m) == q,
        render::between(line, byte_of(line, n), q) == line.subrange(n, m),
{
    let bytes = encode_utf8(line);
    let p = byte_of(line, n);
    let len = bytes.len() as int;
    let tail = bytes.subrange(p, len);
    let rest = line.skip(n);
    encode_utf8_valid_utf8(line);
    lemma_byte_of_is_boundary(line, n);
    lemma_bytes_split(line, n);
    render::lemma_boundary_in_tail(bytes, p, q);
    valid_utf8_split(tail, q - p);
    decode_utf8_split(tail, q - p);
    assert(tail.subrange(0, q - p) == bytes.subrange(p, q));
    let body = render::between(line, p, q);
    decode_utf8_encode_utf8(bytes.subrange(p, q));
    encode_utf8_decode_utf8(rest);
    let behind = decode_utf8(tail.subrange(q - p, tail.len() as int));
    assert(rest == body + behind);
    let m = n + body.len();
    assert(line.subrange(n, m) == body) by {
        assert(rest.take(body.len() as int) == body);
        assert(rest.take(body.len() as int) == line.subrange(n, m));
    }
    assert(line.take(m) == line.take(n) + body);
    text::lemma_encode_add(line.take(n), body);
    m
}

/// Between a place and the first cut behind it there is none.
proof fn lemma_no_cut(
    line: Text,
    tokens: Seq<TokenView>,
    emphasis: Seq<(usize, usize)>,
    p: int,
    c: int,
)
    requires
        p < c < render::next_cut(line, tokens, emphasis, p),
    ensures
        !render::is_cut(line, tokens, emphasis, c),
    decreases encode_utf8(line).len() - p,
{
    if p + 1 < encode_utf8(line).len() && !render::is_cut(line, tokens, emphasis, p + 1) {
        if c > p + 1 {
            lemma_no_cut(line, tokens, emphasis, p + 1, c);
        }
    }
}

/// Two places that the same tokens lie over have the same class.
proof fn lemma_same_class(tokens: Seq<TokenView>, p: int, c: int)
    requires
        forall|i: int|
            0 <= i < tokens.len() ==> lies_over(#[trigger] tokens[i], p) == lies_over(tokens[i], c),
    ensures
        render::class_at(tokens, p) == render::class_at(tokens, c),
    decreases tokens.len(),
{
    if tokens.len() > 0 {
        let rest = tokens.drop_first();
        assert(lies_over(tokens[0], p) == lies_over(tokens[0], c));
        assert forall|i: int| 0 <= i < rest.len() implies lies_over(#[trigger] rest[i], p)
            == lies_over(rest[i], c) by {
            assert(rest[i] == tokens[i + 1]);
        }
        lemma_same_class(rest, p, c);
    }
}

/// Up to the next cut, all characters have the same class and are emphasised or not.
proof fn lemma_same_until_cut(
    line: Text,
    tokens: Seq<TokenView>,
    emphasis: Seq<(usize, usize)>,
    p: int,
    c: int,
)
    requires
        fall_on_characters(line, tokens),
        ranges_on_characters(line, emphasis),
        0 <= p <= c < render::next_cut(line, tokens, emphasis, p),
        c < encode_utf8(line).len(),
    ensures
        render::class_at(tokens, p) == render::class_at(tokens, c),
        render::emphasized_at(emphasis, p) == render::emphasized_at(emphasis, c),
{
    let bytes = encode_utf8(line);
    let len = bytes.len() as int;
    assert forall|e: int|
        p < e <= c && is_char_boundary(bytes, e) implies !#[trigger] render::is_edge(
        tokens,
        emphasis,
        len,
        e,
    ) by {
        lemma_no_cut(line, tokens, emphasis, p, e);
    }
    assert forall|i: int| 0 <= i < tokens.len() implies lies_over(#[trigger] tokens[i], p)
        == lies_over(tokens[i], c) by {
        let token = tokens[i];
        if p < token.start <= c {
            assert(is_char_boundary(bytes, token.start));
            assert(render::clip(token.start, len) == token.start);
            assert(render::is_edge(tokens, emphasis, len, token.start));
        }
        if p < token.end <= c {
            assert(is_char_boundary(bytes, token.end));
            assert(render::clip(token.end, len) == token.end);
            assert(render::is_edge(tokens, emphasis, len, token.end));
        }
    }
    lemma_same_class(tokens, p, c);
    assert forall|i: int| 0 <= i < emphasis.len() implies ((#[trigger] emphasis[i]).0 <= p
        < emphasis[i].1) == (emphasis[i].0 <= c < emphasis[i].1) by {
        let (start, end) = (emphasis[i].0 as int, emphasis[i].1 as int);
        if p < start <= c {
            assert(is_char_boundary(bytes, start));
            assert(render::clip(start, len) == start);
            assert(render::is_edge(tokens, emphasis, len, start));
        }
        if p < end <= c {
            assert(is_char_boundary(bytes, end));
            assert(render::clip(end, len) == end);
            assert(render::is_edge(tokens, emphasis, len, end));
        }
    }
    if render::emphasized_at(emphasis, p) {
        let i = choose|i: int|
            0 <= i < emphasis.len() && (#[trigger] emphasis[i]).0 <= p < emphasis[i].1;
        assert(emphasis[i].0 <= c < emphasis[i].1);
    }
    if render::emphasized_at(emphasis, c) {
        let i = choose|i: int|
            0 <= i < emphasis.len() && (#[trigger] emphasis[i]).0 <= c < emphasis[i].1;
        assert(emphasis[i].0 <= p < emphasis[i].1);
    }
}

/// What the character `k` of a line is to be marked with.
spec fn mark_of(
    line: Text,
    tokens: Seq<TokenView>,
    emphasis: Seq<(usize, usize)>,
    k: int,
) -> Mark {
    Mark {
        shown: line[k],
        classes: with_emphasis(
            render::class_at(tokens, byte_of(line, k)),
            render::emphasized_at(emphasis, byte_of(line, k)),
        ),
    }
}

/// What a line is to be marked with from the character `n` on.
spec fn marks_from(
    line: Text,
    tokens: Seq<TokenView>,
    emphasis: Seq<(usize, usize)>,
    n: int,
) -> Seq<Mark> {
    Seq::new((line.len() - n) as nat, |k: int| mark_of(line, tokens, emphasis, n + k))
}

proof fn lemma_class_stays(tokens: Seq<TokenView>, p: int)
    requires
        markup::classes_stay_in_tags(tokens),
    ensures
        !render::class_at(tokens, p).contains('>'),
    decreases tokens.len(),
{
    if tokens.len() > 0 {
        let rest = tokens.drop_first();
        assert(!tokens[0].class.contains('>'));
        assert forall|i: int| 0 <= i < rest.len() implies !(#[trigger] rest[i]).class.contains(
            '>',
        ) by {
            assert(rest[i] == tokens[i + 1]);
        }
        lemma_class_stays(rest, p);
    }
}

proof fn lemma_read_from(
    line: Text,
    tokens: Seq<TokenView>,
    emphasis: Seq<(usize, usize)>,
    n: int,
)
    requires
        markup::classes_stay_in_tags(tokens),
        fall_on_characters(line, tokens),
        ranges_on_characters(line, emphasis),
        0 <= n <= line.len(),
    ensures
        marks_in(
            render::rendered_from(line, tokens, emphasis, byte_of(line, n)),
            Seq::empty(),
        ) == marks_from(line, tokens, emphasis, n),
    decreases line.len() - n,
{
    let bytes = encode_utf8(line);
    let p = byte_of(line, n);
    assert(line.take(line.len() as int) == line);
    if n == line.len() {
        assert(marks_from(line, tokens, emphasis, n) == Seq::<Mark>::empty());
    } else {
        lemma_byte_of_grows(line, n, line.len() as int);
        let q = render::next_cut(line, tokens, emphasis, p);
        render::lemma_next_cut(line, tokens, emphasis, p);
        let m = lemma_up_to(line, n, q);
        assert(m > n);
        lemma_read_from(line, tokens, emphasis, m);
        let class = render::class_at(tokens, p);
        let emphasized = render::emphasized_at(emphasis, p);
        let body = render::between(line, p, q);
        lemma_class_stays(tokens, p);
        lemma_read_piece(
            class,
            emphasized,
            body,
            render::rendered_from(line, tokens, emphasis, q),
        );
        let start = in_one_span(body, with_emphasis(class, emphasized));
        let all = marks_from(line, tokens, emphasis, n);
        assert forall|k: int| 0 <= k < m - n implies start[k] == #[trigger] all[k] by {
            let c = byte_of(line, n + k);
            lemma_byte_of_grows(line, n + k, m);
            if k > 0 {
                lemma_byte_of_grows(line, n, n + k);
            }
            lemma_same_until_cut(line, tokens, emphasis, p, c);
            assert(body[k] == line[n + k]);
        }
        assert(start + marks_from(line, tokens, emphasis, m) == all);
    }
}

/// The class at a byte is that of the first token that lies over it.
proof fn lemma_first_over(tokens: Seq<TokenView>, p: int, j: int)
    requires
        first_over(tokens, p, j),
    ensures
        render::class_at(tokens, p) == tokens[j].class,
    decreases tokens.len(),
{
    if j > 0 {
        let rest = tokens.drop_first();
        assert(!lies_over(tokens[0], p));
        assert forall|i: int| 0 <= i < j - 1 implies !lies_over(#[trigger] rest[i], p) by {
            assert(rest[i] == tokens[i + 1]);
        }
        assert(rest[j - 1] == tokens[j]);
        lemma_first_over(rest, p, j - 1);
    }
}

proof fn lemma_none_over(tokens: Seq<TokenView>, p: int)
    requires
        forall|j: int| 0 <= j < tokens.len() ==> !lies_over(#[trigger] tokens[j], p),
    ensures
        render::class_at(tokens, p) == Seq::<char>::empty(),
    decreases tokens.len(),
{
    if tokens.len() > 0 {
        let rest = tokens.drop_first();
        assert(!lies_over(tokens[0], p));
        assert forall|j: int| 0 <= j < rest.len() implies !lies_over(#[trigger] rest[j], p) by {
            assert(rest[j] == tokens[j + 1]);
        }
        lemma_none_over(rest, p);
    }
}

/// Every character of a rendered line carries the class of the first token that lies over it, and
/// no class where none does; and it is emphasised just where a range holds it.
pub proof fn law_characters_carry_their_class(
    line: Text,
    tokens: Seq<TokenView>,
    emphasis: Seq<(usize, usize)>,
)
    requires
        markup::classes_stay_in_tags(tokens),
        fall_on_characters(line, tokens),
        ranges_on_characters(line, emphasis),
    ensures
        is_marked(
            render::rendered(line, tokens, emphasis),
            line,
            tokens,
            |p: int| in_ranges(emphasis, p),
        ),
{
    assert(line.take(0) == Seq::<char>::empty());
    assert(byte_of(line, 0) == 0);
    lemma_read_from(line, tokens, emphasis, 0);
    let html = render::rendered(line, tokens, emphasis);
    let emphasized = |p: int| in_ranges(emphasis, p);
    assert forall|k: int| 0 <= k < line.len() implies (#[trigger] marks(html)[k]).shown == line[k]
        && carries(
        marks(html)[k].classes,
        tokens,
        byte_of(line, k),
        emphasized(byte_of(line, k)),
    ) by {
        let p = byte_of(line, k);
        assert(marks(html)[k] == mark_of(line, tokens, emphasis, k));
        assert forall|j: int| #[trigger] first_over(tokens, p, j) implies marks(html)[k].classes
            == with_emphasis(tokens[j].class, emphasized(p)) by {
            lemma_first_over(tokens, p, j);
        }
        if forall|j: int| 0 <= j < tokens.len() ==> !lies_over(#[trigger] tokens[j], p) {
            lemma_none_over(tokens, p);
        }
    }
}

/// The next cut is the first one behind a place, or the end of the line.
proof fn lemma_next_cut_is(
    line: Text,
    tokens: Seq<TokenView>,
    emphasis: Seq<(usize, usize)>,
    p: int,
    c: int,
)
    requires
        p < c <= encode_utf8(line).len(),
        c == encode_utf8(line).len() || render::is_cut(line, tokens, emphasis, c),
        forall|q: int| p < q < c ==> !render::is_cut(line, tokens, emphasis, q),
    ensures
        render::next_cut(line, tokens, emphasis, p) == c,
    decreases c - p,
{
    if p + 1 < c {
        assert(!render::is_cut(line, tokens, emphasis, p + 1));
        lemma_next_cut_is(line, tokens, emphasis, p + 1, c);
    }
}

/// The HTML of a line from a place on, where the next cut is known.
proof fn lemma_step(
    line: Text,
    tokens: Seq<TokenView>,
    emphasis: Seq<(usize, usize)>,
    n: int,
    m: int,
)
    requires
        0 <= n < m <= line.len(),
        render::next_cut(line, tokens, emphasis, byte_of(line, n)) == byte_of(line, m),
    ensures
        render::rendered_from(line, tokens, emphasis, byte_of(line, n)) == render::piece(
            render::class_at(tokens, byte_of(line, n)),
            render::emphasized_at(emphasis, byte_of(line, n)),
            render::escaped(line.subrange(n, m)),
        ) + render::rendered_from(line, tokens, emphasis, byte_of(line, m)),
{
    let p = byte_of(line, n);
    let q = byte_of(line, m);
    assert(line.take(line.len() as int) == line);
    lemma_byte_of_grows(line, n, m);
    lemma_bytes_split(line, m);
    lemma_byte_of_is_boundary(line, m);
    let k = lemma_up_to(line, n, q);
    if k < m {
        lemma_byte_of_grows(line, k, m);
    }
    if m < k {
        lemma_byte_of_grows(line, m, k);
    }
    assert(render::between(line, p, q) == line.subrange(n, m));
}

/// The HTML of a line in which only the characters from `i` to `j` are marked.
proof fn lemma_one_span(
    line: Text,
    tokens: Seq<TokenView>,
    emphasis: Seq<(usize, usize)>,
    i: int,
    j: int,
    class: Text,
    emphasized: bool,
)
    requires
        0 <= i < j <= line.len(),
        forall|p: int|
            #![trigger render::is_edge(tokens, emphasis, encode_utf8(line).len() as int, p)]
            render::is_edge(tokens, emphasis, encode_utf8(line).len() as int, p) <==> p == byte_of(
                line,
                i,
            ) || p == byte_of(line, j),
        forall|p: int| #[trigger]
            render::class_at(tokens, p) == (if byte_of(line, i) <= p < byte_of(line, j) {
                class
            } else {
                Seq::empty()
            }),
        forall|p: int| #[trigger]
            render::emphasized_at(emphasis, p) == (emphasized && byte_of(line, i) <= p < byte_of(
                line,
                j,
            )),
    ensures
        render::rendered(line, tokens, emphasis) == render::escaped(line.take(i)) + render::piece(
            class,
            emphasized,
            render::escaped(line.subrange(i, j)),
        ) + render::escaped(line.skip(j)),
{
    let len = encode_utf8(line).len() as int;
    let n = line.len() as int;
    let (a, b) = (byte_of(line, i), byte_of(line, j));
    let none = Seq::<char>::empty();
    assert(line.take(0) == none);
    assert(byte_of(line, 0) == 0);
    assert(line.take(n) == line);
    assert(byte_of(line, n) == len);
    lemma_byte_of_grows(line, i, j);
    lemma_byte_of_is_boundary(line, i);
    lemma_byte_of_is_boundary(line, j);
    let last = render::escaped(line.skip(j));
    if j < n {
        lemma_byte_of_grows(line, j, n);
        lemma_next_cut_is(line, tokens, emphasis, b, len);
        lemma_step(line, tokens, emphasis, j, n);
        assert(line.subrange(j, n) == line.skip(j));
        assert(render::rendered_from(line, tokens, emphasis, len) == none);
        assert(last + none == last);
    } else {
        assert(line.skip(j) == none);
        assert(last == none);
    }
    assert(render::rendered_from(line, tokens, emphasis, b) == last);
    assert(b == len || render::is_cut(line, tokens, emphasis, b));
    lemma_next_cut_is(line, tokens, emphasis, a, b);
    lemma_step(line, tokens, emphasis, i, j);
    let marked = render::piece(class, emphasized, render::escaped(line.subrange(i, j)));
    assert(render::rendered_from(line, tokens, emphasis, a) == marked + last);
    if i > 0 {
        lemma_byte_of_grows(line, 0, i);
        lemma_next_cut_is(line, tokens, emphasis, 0, a);
        lemma_step(line, tokens, emphasis, 0, i);
        assert(line.subrange(0, i) == line.take(i));
        let first = render::escaped(line.take(i));
        assert(first + (marked + last) == first + marked + last);
    } else {
        assert(line.take(i) == none);
        assert(render::escaped(line.take(i)) == none);
        assert(none + marked + last == marked + last);
    }
}

/// A line without tokens and emphasis is its text alone, escaped; one with a single token is its
/// text with the characters under the token in one span; and one with a single emphasised range has
/// those characters in one span of class `x`. There are no other tags.
pub proof fn law_html_of_one_span(line: Text, class: Text, i: int, j: int)
    requires
        0 <= i < j <= line.len(),
        class.len() > 0,
        encode_utf8(line).len() <= usize::MAX,
    ensures
        ({
            let none = Seq::<(usize, usize)>::empty();
            let token = TokenView { start: byte_of(line, i), end: byte_of(line, j), class };
            let range = (byte_of(line, i) as usize, byte_of(line, j) as usize);
            let (before, under, behind) = (
                render::escaped(line.take(i)),
                render::escaped(line.subrange(i, j)),
                render::escaped(line.skip(j)),
            );
            &&& render::rendered(line, Seq::empty(), none) == render::escaped(line)
            &&& render::rendered(line, seq![token], none) == before + ("<span class=\""@ + class
                + "\">"@ + under + "</span>"@) + behind
            &&& render::rendered(line, Seq::empty(), seq![range]) == before + ("<span class=\"x\">"@
                + under + "</span>"@) + behind
            &&& render::rendered(line, seq![token], seq![range]) == before + ("<span class=\""@
                + class + " x\">"@ + under + "</span>"@) + behind
        }),
{
    let none = Seq::<(usize, usize)>::empty();
    let bare = Seq::<TokenView>::empty();
    let len = encode_utf8(line).len() as int;
    let n = line.len() as int;
    let (a, b) = (byte_of(line, i), byte_of(line, j));
    let token = TokenView { start: a, end: b, class };
    let range = (a as usize, b as usize);
    lemma_byte_of_grows(line, i, j);
    lemma_bytes_split(line, j);
    lemma_tokens(token);
    lemma_ranges(range);
    assert forall|p: int|
        #![trigger render::is_edge(seq![token], none, len, p)]
        render::is_edge(seq![token], none, len, p) <==> p == a || p == b by {
        lemma_edges(token, range, len, p);
    }
    assert forall|p: int|
        #![trigger render::is_edge(bare, seq![range], len, p)]
        render::is_edge(bare, seq![range], len, p) <==> p == a || p == b by {
        lemma_edges(token, range, len, p);
    }
    assert forall|p: int|
        #![trigger render::is_edge(seq![token], seq![range], len, p)]
        render::is_edge(seq![token], seq![range], len, p) <==> p == a || p == b by {
        lemma_edges(token, range, len, p);
    }
    lemma_one_span(line, seq![token], none, i, j, class, false);
    lemma_one_span(line, bare, seq![range], i, j, Seq::empty(), true);
    lemma_one_span(line, seq![token], seq![range], i, j, class, true);
    reveal_strlit("<span class=\"");
    reveal_strlit("\">");
    reveal_strlit("x");
    reveal_strlit(" x");
    reveal_strlit("<span class=\"x\">");
    reveal_strlit(" x\">");
    assert("<span class=\"x\">"@ == "<span class=\""@ + "x"@ + "\">"@);
    assert(" x\">"@ == " x"@ + "\">"@);
    assert("<span class=\""@ + (class + " x"@) + "\">"@ == "<span class=\""@ + class + " x\">"@);
    // Without tokens and emphasis nothing is cut.
    assert(line.take(0) == Seq::<char>::empty());
    assert(line.take(n) == line);
    lemma_byte_of_grows(line, 0, n);
    lemma_next_cut_is(line, bare, none, 0, len);
    lemma_step(line, bare, none, 0, n);
    assert(line.subrange(0, n) == line);
    assert(render::rendered_from(line, bare, none, len) == Seq::<char>::empty());
    assert(render::escaped(line) + Seq::<char>::empty() == render::escaped(line));
}

proof fn lemma_edges(token: TokenView, range: (usize, usize), len: int, p: int)
    requires
        token.start == range.0,
        token.end == range.1,
        0 <= token.start < token.end <= len,
    ensures
        render::is_edge(seq![token], Seq::empty(), len, p) <==> p == token.start || p == token.end,
        render::is_edge(Seq::empty(), seq![range], len, p) <==> p == token.start || p == token.end,
        render::is_edge(seq![token], seq![range], len, p) <==> p == token.start || p == token.end,
{
    let tokens = seq![token];
    let ranges = seq![range];
    assert(tokens[0] == token);
    assert(ranges[0] == range);
    assert(render::clip(token.start, len) == token.start);
    assert(render::clip(token.end, len) == token.end);
}

proof fn lemma_tokens(token: TokenView)
    ensures
        forall|p: int| #[trigger]
            render::class_at(seq![token], p) == (if token.start <= p < token.end {
                token.class
            } else {
                Seq::empty()
            }),
        forall|p: int| #[trigger]
            render::class_at(Seq::<TokenView>::empty(), p) == Seq::<char>::empty(),
{
    assert(seq![token].drop_first() == Seq::<TokenView>::empty());
    reveal_with_fuel(render::class_at, 2);
}

proof fn lemma_ranges(range: (usize, usize))
    ensures
        forall|p: int| #[trigger]
            render::emphasized_at(seq![range], p) == (range.0 <= p < range.1),
        forall|p: int| !#[trigger] render::emphasized_at(Seq::<(usize, usize)>::empty(), p),
{
    assert forall|p: int| #[trigger] render::emphasized_at(seq![range], p) == (range.0 <= p
        < range.1) by {
        assert(seq![range][0] == range);
    }
}

} // verus!
