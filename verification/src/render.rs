//! Turning a line of text into HTML: syntax classes and emphasis become spans.

use vstd::prelude::*;
use vstd::string::*;
use vstd::utf8::*;

use crate::text;
#[allow(unused_imports)]
use crate::text::Text;

verus! {

broadcast use {vstd::string::group_string_axioms, vstd::seq_lib::group_seq_properties};

/// A classified byte range within a single line.
#[derive(Clone, Copy, Debug)]
pub struct Token {
    pub start: usize,
    pub end: usize,
    pub class: &'static str,
}

/// A token as specifications see it.
#[verifier::ext_equal]
pub struct TokenView {
    pub start: int,
    pub end: int,
    pub class: Text,
}

impl DeepView for Token {
    type V = TokenView;

    open spec fn deep_view(&self) -> TokenView {
        TokenView { start: self.start as int, end: self.end as int, class: self.class@ }
    }
}

/// What a character becomes in HTML text.
pub open spec fn escaped_char(c: char) -> Text {
    if c == '&' {
        "&amp;"@
    } else if c == '<' {
        "&lt;"@
    } else if c == '>' {
        "&gt;"@
    } else {
        seq![c]
    }
}

/// What a text becomes in HTML.
pub open spec fn escaped(s: Text) -> Text
    decreases s.len(),
{
    if s.len() == 0 {
        Seq::empty()
    } else {
        escaped(s.drop_last()) + escaped_char(s.last())
    }
}

/// Appends `text`, escaped for HTML.
pub fn escape_into(out: &mut String, text: &str)
    ensures
        final(out)@ == old(out)@ + escaped(text@),
{
    let ghost start = out@;
    assert(text@.take(0) == Seq::<char>::empty());
    assert(start + escaped(Seq::<char>::empty()) == start);
    for c in it: text.chars()
        invariant
            it.seq() == text@,
            out@ == start + escaped(text@.take(it.index() as int)),
    {
        let ghost n = it.index() as int;
        let ghost now = out@;
        assert(text@.take(n + 1).drop_last() == text@.take(n));
        assert(text@.take(n + 1).last() == c);
        if c == '&' {
            out.append("&amp;");
        } else if c == '<' {
            out.append("&lt;");
        } else if c == '>' {
            out.append("&gt;");
        } else {
            out.push(c);
            assert(now.push(c) == now + seq![c]);
        }
        assert(out@ == now + escaped_char(c));
        assert(out@ == start + (escaped(text@.take(n)) + escaped_char(c)));
    }
    assert(text@.take(text@.len() as int) == text@);
}

/// `n`, or `limit` where that is less.
pub open spec fn clip(n: int, limit: int) -> int {
    if n < limit {
        n
    } else {
        limit
    }
}

/// Whether a token or an emphasised range starts or ends at byte `p` of a line of `len`.
pub open spec fn is_edge(
    tokens: Seq<TokenView>,
    emphasis: Seq<(usize, usize)>,
    len: int,
    p: int,
) -> bool {
    ||| exists|i: int|
        0 <= i < tokens.len() && (clip((#[trigger] tokens[i]).start, len) == p || clip(
            tokens[i].end,
            len,
        ) == p)
    ||| exists|i: int|
        0 <= i < emphasis.len() && (clip((#[trigger] emphasis[i]).0 as int, len) == p || clip(
            emphasis[i].1 as int,
            len,
        ) == p)
}

/// Whether the line is cut at byte `p`: at an edge that does not fall inside a character.
pub open spec fn is_cut(
    line: Text,
    tokens: Seq<TokenView>,
    emphasis: Seq<(usize, usize)>,
    p: int,
) -> bool {
    &&& is_edge(tokens, emphasis, encode_utf8(line).len() as int, p)
    &&& is_char_boundary(encode_utf8(line), p)
}

/// The first cut behind byte `p`, or the end of the line.
pub open spec fn next_cut(
    line: Text,
    tokens: Seq<TokenView>,
    emphasis: Seq<(usize, usize)>,
    p: int,
) -> int
    decreases encode_utf8(line).len() - p,
{
    if p + 1 >= encode_utf8(line).len() {
        encode_utf8(line).len() as int
    } else if is_cut(line, tokens, emphasis, p + 1) {
        p + 1
    } else {
        next_cut(line, tokens, emphasis, p + 1)
    }
}

/// The class of the first token that holds byte `p`; empty where none does.
pub open spec fn class_at(tokens: Seq<TokenView>, p: int) -> Text
    decreases tokens.len(),
{
    if tokens.len() == 0 {
        Seq::empty()
    } else if tokens[0].start <= p < tokens[0].end {
        tokens[0].class
    } else {
        class_at(tokens.drop_first(), p)
    }
}

/// Whether an emphasised range holds byte `p`.
pub open spec fn emphasized_at(emphasis: Seq<(usize, usize)>, p: int) -> bool {
    exists|i: int| 0 <= i < emphasis.len() && (#[trigger] emphasis[i]).0 <= p < emphasis[i].1
}

/// The start tag of a span.
pub open spec fn span_tag(classes: Text) -> Text {
    "<span class=\""@ + classes + "\">"@
}

/// The classes of a piece: its syntax class, and `x` where it is emphasised.
pub open spec fn piece_classes(class: Text, emphasized: bool) -> Text {
    if !emphasized {
        class
    } else if class.len() == 0 {
        "x"@
    } else {
        class + " x"@
    }
}

/// A piece of HTML: bare where it has no class, in a span where it has.
pub open spec fn piece(class: Text, emphasized: bool, body: Text) -> Text {
    if class.len() == 0 && !emphasized {
        body
    } else {
        span_tag(piece_classes(class, emphasized)) + body + "</span>"@
    }
}

/// The characters from byte `p` to byte `q` of a line.
pub open spec fn between(line: Text, p: int, q: int) -> Text {
    decode_utf8(encode_utf8(line).subrange(p, q))
}

/// The HTML of a line from byte `p` on.
pub open spec fn rendered_from(
    line: Text,
    tokens: Seq<TokenView>,
    emphasis: Seq<(usize, usize)>,
    p: int,
) -> Text
    decreases encode_utf8(line).len() - p,
    via rendered_from_ends
{
    if p >= encode_utf8(line).len() {
        Seq::empty()
    } else {
        let q = next_cut(line, tokens, emphasis, p);
        piece(class_at(tokens, p), emphasized_at(emphasis, p), escaped(between(line, p, q)))
            + rendered_from(line, tokens, emphasis, q)
    }
}

#[via_fn]
proof fn rendered_from_ends(
    line: Text,
    tokens: Seq<TokenView>,
    emphasis: Seq<(usize, usize)>,
    p: int,
) {
    lemma_next_cut(line, tokens, emphasis, p);
}

/// The HTML of a line: cut wherever a class or emphasis starts or ends, each piece in its span.
pub open spec fn rendered(
    line: Text,
    tokens: Seq<TokenView>,
    emphasis: Seq<(usize, usize)>,
) -> Text {
    rendered_from(line, tokens, emphasis, 0)
}

/// A cut lies behind where the search starts, within the line, and not inside a character.
pub proof fn lemma_next_cut(
    line: Text,
    tokens: Seq<TokenView>,
    emphasis: Seq<(usize, usize)>,
    p: int,
)
    ensures
        p < encode_utf8(line).len() ==> p < next_cut(line, tokens, emphasis, p),
        next_cut(line, tokens, emphasis, p) <= encode_utf8(line).len(),
        is_char_boundary(encode_utf8(line), next_cut(line, tokens, emphasis, p)),
    decreases encode_utf8(line).len() - p,
{
    encode_utf8_valid_utf8(line);
    is_char_boundary_start_end_of_seq(encode_utf8(line));
    if p + 1 < encode_utf8(line).len() {
        lemma_next_cut(line, tokens, emphasis, p + 1);
    }
}

/// A boundary behind another one is a boundary of the bytes from there on.
pub proof fn lemma_boundary_in_tail(bytes: Seq<u8>, p: int, q: int)
    requires
        valid_utf8(bytes),
        is_char_boundary(bytes, p),
        is_char_boundary(bytes, q),
        0 <= p <= q <= bytes.len(),
    ensures
        valid_utf8(bytes.subrange(p, bytes.len() as int)),
        is_char_boundary(bytes.subrange(p, bytes.len() as int), q - p),
{
    let tail = bytes.subrange(p, bytes.len() as int);
    valid_utf8_split(bytes, p);
    is_char_boundary_start_end_of_seq(tail);
    if q < bytes.len() {
        is_char_boundary_iff_not_is_continuation_byte(bytes, q);
        is_char_boundary_iff_not_is_continuation_byte(tail, q - p);
        assert(tail[q - p] == bytes[q]);
    }
}

/// Finds the class of the first token that holds byte `p`.
fn find_class(tokens: &[Token], p: usize) -> (class: &'static str)
    ensures
        class@ == class_at(tokens.deep_view(), p as int),
{
    let ghost view = tokens.deep_view();
    let mut i: usize = 0;
    assert(view.skip(0) == view);
    while i < tokens.len()
        invariant
            view == tokens.deep_view(),
            i <= tokens@.len(),
            class_at(view, p as int) == class_at(view.skip(i as int), p as int),
        decreases tokens@.len() - i,
    {
        let token = tokens[i];
        assert(view.skip(i as int)[0] == token.deep_view());
        if token.start <= p && p < token.end {
            return token.class;
        }
        assert(view.skip(i as int).drop_first() == view.skip(i + 1));
        i = i + 1;
    }
    proof {
        reveal_strlit("");
    }
    assert(""@ == Seq::<char>::empty());
    ""
}

/// Tells whether an emphasised range holds byte `p`.
fn find_emphasis(emphasis: &[(usize, usize)], p: usize) -> (r: bool)
    ensures
        r == emphasized_at(emphasis@, p as int),
{
    let mut i: usize = 0;
    while i < emphasis.len()
        invariant
            i <= emphasis@.len(),
            forall|j: int|
                0 <= j < i ==> !((#[trigger] emphasis@[j]).0 <= p && p < emphasis@[j].1),
        decreases emphasis@.len() - i,
    {
        if emphasis[i].0 <= p && p < emphasis[i].1 {
            assert(emphasis@[i as int].0 <= p);
            return true;
        }
        i = i + 1;
    }
    false
}

/// Sets the mark at byte `p`, where the line reaches that far.
fn mark(marks: &mut Vec<bool>, p: usize)
    ensures
        final(marks)@.len() == old(marks)@.len(),
        forall|q: int| 0 <= q < old(marks)@.len() ==> #[trigger] final(marks)@[q] == (old(marks)@[q] || q == p),
{
    if p < marks.len() {
        marks.set(p, true);
    }
}

/// Marks every byte of a line of `len` bytes at which a token or an emphasised range starts or ends.
fn mark_edges(tokens: &[Token], emphasis: &[(usize, usize)], len: usize) -> (marks: Vec<bool>)
    ensures
        marks@.len() == len,
        forall|p: int|
            0 <= p < len ==> #[trigger] marks@[p] == is_edge(
                tokens.deep_view(),
                emphasis@,
                len as int,
                p,
            ),
{
    let mut marks: Vec<bool> = Vec::new();
    let mut n: usize = 0;
    while n < len
        invariant
            n <= len,
            marks@.len() == n,
            forall|p: int| 0 <= p < n ==> !#[trigger] marks@[p],
        decreases len - n,
    {
        marks.push(false);
        n = n + 1;
    }
    let ghost view = tokens.deep_view();
    let mut i: usize = 0;
    while i < tokens.len()
        invariant
            view == tokens.deep_view(),
            i <= tokens@.len(),
            marks@.len() == len,
            forall|p: int|
                0 <= p < len ==> #[trigger] marks@[p] == is_edge(
                    view.take(i as int),
                    Seq::empty(),
                    len as int,
                    p,
                ),
        decreases tokens@.len() - i,
    {
        let ghost before = marks@;
        let token = tokens[i];
        mark(&mut marks, token.start);
        mark(&mut marks, token.end);
        assert forall|p: int| 0 <= p < len implies #[trigger] marks@[p] == is_edge(
            view.take(i + 1),
            Seq::empty(),
            len as int,
            p,
        ) by {
            assert(view.take(i + 1) == view.take(i as int).push(token.deep_view()));
            lemma_edge_of_token(view.take(i as int), token.deep_view(), len as int, p);
            assert(before[p] == is_edge(view.take(i as int), Seq::empty(), len as int, p));
        }
        i = i + 1;
    }
    assert(view.take(tokens@.len() as int) == view);
    let mut k: usize = 0;
    assert(emphasis@.take(0) == Seq::<(usize, usize)>::empty());
    while k < emphasis.len()
        invariant
            k <= emphasis@.len(),
            marks@.len() == len,
            forall|p: int|
                0 <= p < len ==> #[trigger] marks@[p] == is_edge(
                    view,
                    emphasis@.take(k as int),
                    len as int,
                    p,
                ),
        decreases emphasis@.len() - k,
    {
        let ghost before = marks@;
        let range = emphasis[k];
        mark(&mut marks, range.0);
        mark(&mut marks, range.1);
        assert forall|p: int| 0 <= p < len implies #[trigger] marks@[p] == is_edge(
            view,
            emphasis@.take(k + 1),
            len as int,
            p,
        ) by {
            assert(emphasis@.take(k + 1) == emphasis@.take(k as int).push(range));
            lemma_edge_of_range(view, emphasis@.take(k as int), range, len as int, p);
            assert(before[p] == is_edge(view, emphasis@.take(k as int), len as int, p));
        }
        k = k + 1;
    }
    assert(emphasis@.take(emphasis@.len() as int) == emphasis@);
    marks
}

/// One token more adds its two ends to the edges.
proof fn lemma_edge_of_token(tokens: Seq<TokenView>, token: TokenView, len: int, p: int)
    requires
        0 <= p < len,
    ensures
        is_edge(tokens.push(token), Seq::empty(), len, p) == (is_edge(tokens, Seq::empty(), len, p)
            || token.start == p || token.end == p),
{
    let longer = tokens.push(token);
    let none: Seq<(usize, usize)> = Seq::empty();
    assert(longer[tokens.len() as int] == token);
    if is_edge(tokens, none, len, p) {
        let j = choose|j: int|
            0 <= j < tokens.len() && (clip((#[trigger] tokens[j]).start, len) == p || clip(
                tokens[j].end,
                len,
            ) == p);
        assert(longer[j] == tokens[j]);
    }
}

/// One range more adds its two ends to the edges.
proof fn lemma_edge_of_range(
    tokens: Seq<TokenView>,
    emphasis: Seq<(usize, usize)>,
    range: (usize, usize),
    len: int,
    p: int,
)
    requires
        0 <= p < len,
    ensures
        is_edge(tokens, emphasis.push(range), len, p) == (is_edge(tokens, emphasis, len, p)
            || range.0 == p || range.1 == p),
{
    let longer = emphasis.push(range);
    assert(longer[emphasis.len() as int] == range);
    if exists|j: int|
        0 <= j < emphasis.len() && (clip((#[trigger] emphasis[j]).0 as int, len) == p || clip(
            emphasis[j].1 as int,
            len,
        ) == p) {
        let j = choose|j: int|
            0 <= j < emphasis.len() && (clip((#[trigger] emphasis[j]).0 as int, len) == p || clip(
                emphasis[j].1 as int,
                len,
            ) == p);
        assert(longer[j] == emphasis[j]);
    }
}

/// Appends a piece of a line.
fn push_piece(html: &mut String, class: &str, emphasized: bool, body: &str)
    ensures
        final(html)@ == old(html)@ + piece(class@, emphasized, escaped(body@)),
{
    let ghost start = html@;
    if class.is_empty() && !emphasized {
        escape_into(html, body);
    } else {
        html.append("<span class=\"");
        if class.is_empty() {
            html.append("x");
            assert(piece_classes(class@, emphasized) == "x"@);
        } else {
            html.append(class);
            if emphasized {
                html.append(" x");
            }
        }
        assert(html@ == start + ("<span class=\""@ + piece_classes(class@, emphasized)));
        html.append("\">");
        assert(html@ == start + span_tag(piece_classes(class@, emphasized)));
        escape_into(html, body);
        html.append("</span>");
        assert(html@ == start + (span_tag(piece_classes(class@, emphasized)) + escaped(body@)
            + "</span>"@));
    }
}

/// Finds the first cut behind byte `p`, given the marks of the edges.
fn find_cut(
    text: &str,
    marks: &Vec<bool>,
    p: usize,
    Ghost(tokens): Ghost<Seq<TokenView>>,
    Ghost(emphasis): Ghost<Seq<(usize, usize)>>,
) -> (q: usize)
    requires
        marks@.len() == encode_utf8(text@).len(),
        p < marks@.len(),
        forall|q: int|
            0 <= q < marks@.len() ==> #[trigger] marks@[q] == is_edge(
                tokens,
                emphasis,
                marks@.len() as int,
                q,
            ),
    ensures
        q == next_cut(text@, tokens, emphasis, p as int),
{
    let len = marks.len();
    let mut q: usize = p + 1;
    while q < len && !(marks[q] && text.is_char_boundary(q))
        invariant
            len == marks@.len() == encode_utf8(text@).len(),
            p < q <= len,
            forall|q: int|
                0 <= q < len ==> #[trigger] marks@[q] == is_edge(tokens, emphasis, len as int, q),
            next_cut(text@, tokens, emphasis, p as int) == next_cut(
                text@,
                tokens,
                emphasis,
                q - 1,
            ),
        decreases len - q,
    {
        q = q + 1;
    }
    q
}

/// Renders one line as HTML, overlaying inline-diff emphasis on the syntax
/// classes. Both are byte ranges over the same text, so the line is cut at
/// every boundary that either one introduces.
pub fn render_line(text: &str, tokens: &[Token], emphasis: &[(usize, usize)]) -> (html: String)
    ensures
        html@ == rendered(text@, tokens.deep_view(), emphasis@),
{
    let len = text.as_bytes().len();
    let ghost bytes = encode_utf8(text@);
    let ghost view = tokens.deep_view();
    proof {
        encode_utf8_valid_utf8(text@);
        is_char_boundary_start_end_of_seq(bytes);
    }
    let marks = mark_edges(tokens, emphasis, len);
    let mut html = String::new();
    let mut rest: &str = text;
    let mut p: usize = 0;
    assert(bytes.subrange(0, len as int) == bytes);
    while p < len
        invariant
            bytes == encode_utf8(text@),
            valid_utf8(bytes),
            len == bytes.len(),
            p <= len,
            view == tokens.deep_view(),
            marks@.len() == len,
            forall|q: int|
                0 <= q < len ==> #[trigger] marks@[q] == is_edge(view, emphasis@, len as int, q),
            is_char_boundary(bytes, p as int),
            rest.spec_bytes() == bytes.subrange(p as int, len as int),
            rendered(text@, view, emphasis@) == html@ + rendered_from(
                text@,
                view,
                emphasis@,
                p as int,
            ),
        decreases len - p,
    {
        let q = find_cut(text, &marks, p, Ghost(view), Ghost(emphasis@));
        proof {
            lemma_next_cut(text@, view, emphasis@, p as int);
            lemma_boundary_in_tail(bytes, p as int, q as int);
        }
        let (body, tail) = rest.split_at(q - p);
        proof {
            lemma_subranges(bytes, p as int, q as int);
            encode_utf8_decode_utf8(body@);
            lemma_seq_assoc(
                html@,
                piece(class_at(view, p as int), emphasized_at(emphasis@, p as int), escaped(body@)),
                rendered_from(text@, view, emphasis@, q as int),
            );
        }
        push_piece(&mut html, find_class(tokens, p), find_emphasis(emphasis, p), body);
        rest = tail;
        p = q;
    }
    assert(html@ + Seq::<char>::empty() == html@);
    html
}

proof fn lemma_subranges(bytes: Seq<u8>, p: int, q: int)
    requires
        0 <= p <= q <= bytes.len(),
    ensures
        bytes.subrange(p, bytes.len() as int).subrange(0, q - p) == bytes.subrange(p, q),
        bytes.subrange(p, bytes.len() as int).subrange(q - p, bytes.len() - p) == bytes.subrange(
            q,
            bytes.len() as int,
        ),
{
}

proof fn lemma_seq_assoc(a: Text, b: Text, c: Text)
    ensures
        a + (b + c) == a + b + c,
{
}

} // verus!
