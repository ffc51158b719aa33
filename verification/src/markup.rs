//! What a browser reads back out of rendered HTML: the tags taken out and the
//! character references resolved.

use vstd::prelude::*;
use vstd::utf8::*;

use crate::render;
#[allow(unused_imports)]
use crate::render::TokenView;
#[allow(unused_imports)]
use crate::text::Text;

verus! {

broadcast use vstd::seq_lib::group_seq_properties;

/// The text with the three character references resolved that escaping makes.
pub open spec fn unescaped(s: Text) -> Text
    decreases s.len(),
{
    if s.len() == 0 {
        s
    } else if seq!['&', 'a', 'm', 'p', ';'].is_prefix_of(s) {
        seq!['&'] + unescaped(s.skip(5))
    } else if seq!['&', 'l', 't', ';'].is_prefix_of(s) {
        seq!['<'] + unescaped(s.skip(4))
    } else if seq!['&', 'g', 't', ';'].is_prefix_of(s) {
        seq!['>'] + unescaped(s.skip(4))
    } else {
        seq![s[0]] + unescaped(s.skip(1))
    }
}

/// Whether a reader that starts inside a tag, or not, is inside one behind `s`.
pub open spec fn ends_inside(s: Text, inside: bool) -> bool
    decreases s.len(),
{
    if s.len() == 0 {
        inside
    } else {
        ends_inside(
            s.drop_first(),
            if inside {
                s[0] != '>'
            } else {
                s[0] == '<'
            },
        )
    }
}

/// What lies outside the tags of `s`, for a reader that starts inside a tag or not.
pub open spec fn outside_tags(s: Text, inside: bool) -> Text
    decreases s.len(),
{
    if s.len() == 0 {
        s
    } else if inside {
        outside_tags(s.drop_first(), s[0] != '>')
    } else if s[0] == '<' {
        outside_tags(s.drop_first(), true)
    } else {
        seq![s[0]] + outside_tags(s.drop_first(), false)
    }
}

/// What a browser shows of the HTML `s`.
pub open spec fn shown(s: Text) -> Text {
    unescaped(outside_tags(s, false))
}

/// Whether no class of `tokens` holds a character that would end its tag.
pub open spec fn classes_stay_in_tags(tokens: Seq<TokenView>) -> bool {
    forall|i: int| 0 <= i < tokens.len() ==> !(#[trigger] tokens[i]).class.contains('>')
}

/// What each character is escaped to.
pub proof fn lemma_escaped_char(c: char)
    ensures
        c == '&' ==> render::escaped_char(c) == seq!['&', 'a', 'm', 'p', ';'],
        c == '<' ==> render::escaped_char(c) == seq!['&', 'l', 't', ';'],
        c == '>' ==> render::escaped_char(c) == seq!['&', 'g', 't', ';'],
        c != '&' && c != '<' && c != '>' ==> render::escaped_char(c) == seq![c],
{
    reveal_strlit("&amp;");
    reveal_strlit("&lt;");
    reveal_strlit("&gt;");
    assert("&amp;"@ == seq!['&', 'a', 'm', 'p', ';']);
    assert("&lt;"@ == seq!['&', 'l', 't', ';']);
    assert("&gt;"@ == seq!['&', 'g', 't', ';']);
}

/// Escaping a concatenation concatenates what the parts are escaped to.
pub proof fn law_escape_add(a: Text, b: Text)
    ensures
        render::escaped(a + b) == render::escaped(a) + render::escaped(b),
    decreases b.len(),
{
    if b.len() == 0 {
        assert(a + b == a);
        assert(render::escaped(a) + render::escaped(b) == render::escaped(a));
    } else {
        law_escape_add(a, b.drop_last());
        assert((a + b).drop_last() == a + b.drop_last());
        assert((a + b).last() == b.last());
        assert(render::escaped(a + b) == render::escaped(a) + (render::escaped(b.drop_last())
            + render::escaped_char(b.last())));
    }
}

/// Escaping loses nothing: resolving the references gives the text back.
pub proof fn law_escape_unescape(s: Text)
    ensures
        unescaped(render::escaped(s)) == s,
    decreases s.len(),
{
    if s.len() > 0 {
        let first = seq![s[0]];
        let rest = s.drop_first();
        law_escape_unescape(rest);
        assert(s == first + rest);
        law_escape_add(first, rest);
        lemma_escaped_char(s[0]);
        reveal_with_fuel(render::escaped, 2);
        assert(first.drop_last() == Seq::<char>::empty());
        assert(render::escaped(first) == render::escaped_char(s[0]));
        let all = render::escaped(s);
        let head = render::escaped_char(s[0]);
        let tail = render::escaped(rest);
        assert(all == head + tail);
        assert(all.skip(head.len() as int) == tail);
        assert(all.subrange(0, head.len() as int) == head);
        assert(all[0] == head[0]);
        if s[0] == '&' {
            assert(all[1] == 'a');
        } else if s[0] == '<' {
            assert(all[1] == 'l');
        } else if s[0] == '>' {
            assert(all[1] == 'g');
        } else {
            assert(all[0] != '&');
            assert(!seq!['&', 'a', 'm', 'p', ';'].is_prefix_of(all));
            assert(!seq!['&', 'l', 't', ';'].is_prefix_of(all));
            assert(!seq!['&', 'g', 't', ';'].is_prefix_of(all));
        }
        assert(!(all[1] == 'l' || all[1] == 'g') || !seq!['&', 'a', 'm', 'p', ';'].is_prefix_of(
            all,
        )) by {
            if seq!['&', 'a', 'm', 'p', ';'].is_prefix_of(all) {
                assert(all.subrange(0, 5)[1] == 'a');
            }
        }
        assert(!(all[1] == 'g') || !seq!['&', 'l', 't', ';'].is_prefix_of(all)) by {
            if seq!['&', 'l', 't', ';'].is_prefix_of(all) {
                assert(all.subrange(0, 4)[1] == 'l');
            }
        }
        assert(unescaped(all) == first + unescaped(tail));
    }
}

/// Escaped text opens and closes no tag.
pub proof fn law_escaped_is_text(s: Text)
    ensures
        !render::escaped(s).contains('<'),
        !render::escaped(s).contains('>'),
    decreases s.len(),
{
    if s.len() > 0 {
        law_escaped_is_text(s.drop_last());
        lemma_escaped_char(s.last());
        let head = render::escaped(s.drop_last());
        let tail = render::escaped_char(s.last());
        assert forall|i: int| 0 <= i < render::escaped(s).len() implies render::escaped(s)[i] != '<'
            && render::escaped(s)[i] != '>' by {
            if i < head.len() {
                assert(head.contains(head[i]));
                assert(render::escaped(s)[i] == head[i]);
            } else {
                assert(render::escaped(s)[i] == tail[i - head.len()]);
            }
        }
    }
}

proof fn lemma_tags_add(a: Text, b: Text, inside: bool)
    ensures
        ends_inside(a + b, inside) == ends_inside(b, ends_inside(a, inside)),
        outside_tags(a + b, inside) == outside_tags(a, inside) + outside_tags(
            b,
            ends_inside(a, inside),
        ),
    decreases a.len(),
{
    if a.len() == 0 {
        assert(a + b == b);
        assert(Seq::<char>::empty() + outside_tags(b, inside) == outside_tags(b, inside));
    } else {
        let next = if inside {
            a[0] != '>'
        } else {
            a[0] == '<'
        };
        lemma_tags_add(a.drop_first(), b, next);
        assert((a + b).drop_first() == a.drop_first() + b);
        assert((a + b)[0] == a[0]);
        if !inside && a[0] != '<' {
            assert(outside_tags(a + b, inside) == seq![a[0]] + (outside_tags(a.drop_first(), next)
                + outside_tags(b, ends_inside(a, inside))));
        }
    }
}

proof fn lemma_plain_text(s: Text)
    requires
        !s.contains('<'),
    ensures
        outside_tags(s, false) == s,
        !ends_inside(s, false),
    decreases s.len(),
{
    if s.len() > 0 {
        let t = s.drop_first();
        assert(s.contains(s[0]));
        assert forall|i: int| 0 <= i < t.len() implies t[i] != '<' by {
            assert(s[i + 1] == t[i]);
        }
        lemma_plain_text(t);
        assert(s == seq![s[0]] + t);
    }
}

proof fn lemma_inside_tag(s: Text)
    requires
        !s.contains('>'),
    ensures
        outside_tags(s, true) == Seq::<char>::empty(),
        ends_inside(s, true),
    decreases s.len(),
{
    if s.len() > 0 {
        let t = s.drop_first();
        assert(s.contains(s[0]));
        assert forall|i: int| 0 <= i < t.len() implies t[i] != '>' by {
            assert(s[i + 1] == t[i]);
        }
        lemma_inside_tag(t);
    }
}

/// A tag, opened by `<` and closed by its only `>`, shows nothing.
proof fn lemma_tag(body: Text)
    requires
        !body.contains('>'),
    ensures
        outside_tags(seq!['<'] + body + seq!['>'], false) == Seq::<char>::empty(),
        !ends_inside(seq!['<'] + body + seq!['>'], false),
{
    let open = seq!['<'];
    let close = seq!['>'];
    reveal_with_fuel(outside_tags, 2);
    reveal_with_fuel(ends_inside, 2);
    assert(open.drop_first() == Seq::<char>::empty());
    assert(close.drop_first() == Seq::<char>::empty());
    lemma_tags_add(open, body, false);
    lemma_tags_add(open + body, close, false);
    lemma_inside_tag(body);
    assert(outside_tags(open + body, false) == Seq::<char>::empty());
}

/// Of a piece, only its body shows.
proof fn lemma_piece(class: Text, emphasized: bool, body: Text)
    requires
        !class.contains('>'),
        !body.contains('<'),
    ensures
        outside_tags(render::piece(class, emphasized, body), false) == body,
        !ends_inside(render::piece(class, emphasized, body), false),
{
    lemma_plain_text(body);
    if class.len() != 0 || emphasized {
        reveal_strlit("<span class=\"");
        reveal_strlit("\">");
        reveal_strlit("x");
        reveal_strlit(" x");
        reveal_strlit("</span>");
        let classes = render::piece_classes(class, emphasized);
        assert(!classes.contains('>')) by {
            assert forall|i: int| 0 <= i < classes.len() implies classes[i] != '>' by {
                if i < class.len() {
                    assert(class.contains(class[i]));
                }
            }
        }
        let opening = seq!['s', 'p', 'a', 'n', ' ', 'c', 'l', 'a', 's', 's', '=', '"'] + classes
            + seq!['"'];
        assert(!opening.contains('>')) by {
            assert forall|i: int| 0 <= i < opening.len() implies opening[i] != '>' by {
                if 12 <= i < 12 + classes.len() {
                    assert(classes.contains(classes[i - 12]));
                }
            }
        }
        assert(render::span_tag(classes) == seq!['<'] + opening + seq!['>']);
        lemma_tag(opening);
        let closing = seq!['/', 's', 'p', 'a', 'n'];
        assert("</span>"@ == seq!['<'] + closing + seq!['>']);
        lemma_tag(closing);
        lemma_tags_add(render::span_tag(classes), body, false);
        lemma_tags_add(render::span_tag(classes) + body, "</span>"@, false);
        assert(Seq::<char>::empty() + body == body);
        assert(body + Seq::<char>::empty() == body);
    }
}

proof fn lemma_class_at(tokens: Seq<TokenView>, p: int)
    requires
        classes_stay_in_tags(tokens),
    ensures
        !render::class_at(tokens, p).contains('>'),
    decreases tokens.len(),
{
    if tokens.len() > 0 {
        let rest = tokens.drop_first();
        assert forall|i: int| 0 <= i < rest.len() implies !(#[trigger] rest[i]).class.contains(
            '>',
        ) by {
            assert(rest[i] == tokens[i + 1]);
        }
        lemma_class_at(rest, p);
        assert(!tokens[0].class.contains('>'));
    }
}

proof fn lemma_shown_from(
    line: Text,
    tokens: Seq<TokenView>,
    emphasis: Seq<(usize, usize)>,
    p: int,
)
    requires
        classes_stay_in_tags(tokens),
        0 <= p <= encode_utf8(line).len(),
        is_char_boundary(encode_utf8(line), p),
    ensures
        outside_tags(render::rendered_from(line, tokens, emphasis, p), false) == render::escaped(
            render::between(line, p, encode_utf8(line).len() as int),
        ),
    decreases encode_utf8(line).len() - p,
{
    let bytes = encode_utf8(line);
    let len = bytes.len() as int;
    encode_utf8_valid_utf8(line);
    if p == len {
        assert(bytes.subrange(p, len) == Seq::<u8>::empty());
    } else {
        let q = render::next_cut(line, tokens, emphasis, p);
        render::lemma_next_cut(line, tokens, emphasis, p);
        lemma_shown_from(line, tokens, emphasis, q);
        render::lemma_boundary_in_tail(bytes, p, q);
        let tail = bytes.subrange(p, len);
        decode_utf8_split(tail, q - p);
        assert(tail.subrange(0, q - p) == bytes.subrange(p, q));
        assert(tail.subrange(q - p, tail.len() as int) == bytes.subrange(q, len));
        let body = render::between(line, p, q);
        let rest = render::between(line, q, len);
        assert(render::between(line, p, len) == body + rest);
        law_escape_add(body, rest);
        law_escaped_is_text(body);
        lemma_class_at(tokens, p);
        let class = render::class_at(tokens, p);
        let emphasized = render::emphasized_at(emphasis, p);
        lemma_piece(class, emphasized, render::escaped(body));
        lemma_tags_add(
            render::piece(class, emphasized, render::escaped(body)),
            render::rendered_from(line, tokens, emphasis, q),
            false,
        );
    }
}

/// Rendering changes nothing of what a line says: whatever classes and emphasis lie over
/// it, a browser shows exactly the line.
pub proof fn law_render_shows_line(
    line: Text,
    tokens: Seq<TokenView>,
    emphasis: Seq<(usize, usize)>,
)
    requires
        classes_stay_in_tags(tokens),
    ensures
        shown(render::rendered(line, tokens, emphasis)) == line,
{
    let bytes = encode_utf8(line);
    encode_utf8_valid_utf8(line);
    is_char_boundary_start_end_of_seq(bytes);
    lemma_shown_from(line, tokens, emphasis, 0);
    assert(bytes.subrange(0, bytes.len() as int) == bytes);
    encode_utf8_decode_utf8(line);
    law_escape_unescape(line);
}

} // verus!
