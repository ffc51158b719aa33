//! Text primitives: every string is modelled by its sequence of characters, and
//! by the UTF-8 encoding of that sequence where byte offsets matter.

use vstd::prelude::*;
use vstd::string::*;
use vstd::utf8::*;

verus! {

broadcast use {vstd::string::group_string_axioms, vstd::seq_lib::group_seq_properties};

/// A piece of text, as specifications see it.
pub type Text = Seq<char>;

/// Trusted: `String::push` of std appends one character.
pub assume_specification[ String::push ](s: &mut String, c: char)
    ensures
        final(s)@ == old(s)@.push(c),
;

/// The characters of `s`.
pub fn chars_of(s: &str) -> (chars: Vec<char>)
    ensures
        chars@ == s@,
{
    let mut chars: Vec<char> = Vec::new();
    for c in it: s.chars()
        invariant
            it.seq() == s@,
            chars@ == s@.take(it.index() as int),
    {
        chars.push(c);
    }
    assert(s@.take(s@.len() as int) == s@);
    chars
}

/// The text made of `chars[from..to]`.
pub fn text_of(chars: &Vec<char>, from: usize, to: usize) -> (s: String)
    requires
        from <= to <= chars@.len(),
    ensures
        s@ == chars@.subrange(from as int, to as int),
{
    let mut s = String::new();
    let mut i: usize = from;
    while i < to
        invariant
            from <= i <= to <= chars@.len(),
            s@ == chars@.subrange(from as int, i as int),
        decreases to - i,
    {
        s.push(chars[i]);
        i = i + 1;
        assert(chars@.subrange(from as int, i as int) == chars@.subrange(
            from as int,
            i - 1,
        ).push(chars@[i - 1]));
    }
    s
}

/// Two texts with the same encoding are the same text.
pub proof fn lemma_same_encoding(a: Text, b: Text)
    requires
        encode_utf8(a) == encode_utf8(b),
    ensures
        a == b,
{
    encode_utf8_decode_utf8(a);
    encode_utf8_decode_utf8(b);
}

/// The encoding of a concatenation is the concatenation of the encodings.
pub proof fn lemma_encode_add(a: Text, b: Text)
    ensures
        encode_utf8(a + b) == encode_utf8(a) + encode_utf8(b),
    decreases a.len(),
{
    if a.len() == 0 {
        assert(a + b == b);
        assert(encode_utf8(a) + encode_utf8(b) == encode_utf8(b));
    } else {
        lemma_encode_add(a.drop_first(), b);
        assert((a + b).drop_first() == a.drop_first() + b);
        assert(encode_utf8(a + b) == encode_scalar(a[0] as u32) + (encode_utf8(a.drop_first())
            + encode_utf8(b)));
        assert(encode_utf8(a) + encode_utf8(b) == encode_scalar(a[0] as u32) + (encode_utf8(
            a.drop_first(),
        ) + encode_utf8(b)));
    }
}

/// Tells whether two byte strings are equal.
pub fn same_bytes(a: &[u8], b: &[u8]) -> (r: bool)
    ensures
        r == (a@ == b@),
{
    if a.len() != b.len() {
        return false;
    }
    let mut i: usize = 0;
    while i < a.len()
        invariant
            i <= a@.len() == b@.len(),
            forall|j: int| 0 <= j < i ==> a@[j] == b@[j],
        decreases a@.len() - i,
    {
        if a[i] != b[i] {
            return false;
        }
        i = i + 1;
    }
    assert(a@ == b@);
    true
}

/// Tells whether two texts are equal.
pub fn same(a: &str, b: &str) -> (r: bool)
    ensures
        r == (a@ == b@),
{
    let r = same_bytes(a.as_bytes(), b.as_bytes());
    proof {
        if r {
            lemma_same_encoding(a@, b@);
        }
    }
    r
}

/// The position of the first `c` in `s`, or the length of `s`.
pub open spec fn first_index<T>(s: Seq<T>, c: T) -> int
    decreases s.len(),
{
    if s.len() == 0 || s[0] == c {
        0
    } else {
        1 + first_index(s.drop_first(), c)
    }
}

/// The position of the last `c` in `s`, or -1.
pub open spec fn last_index<T>(s: Seq<T>, c: T) -> int
    decreases s.len(),
{
    if s.len() == 0 || s.last() == c {
        s.len() - 1
    } else {
        last_index(s.drop_last(), c)
    }
}

/// `first_index` is the one position with no `c` before it that is at the end or holds `c`.
pub proof fn lemma_first_index<T>(s: Seq<T>, c: T, k: int)
    requires
        0 <= k <= s.len(),
        forall|j: int| 0 <= j < k ==> s[j] != c,
        k < s.len() ==> s[k] == c,
    ensures
        first_index(s, c) == k,
    decreases s.len(),
{
    if s.len() != 0 && s[0] != c {
        let t = s.drop_first();
        assert forall|j: int| 0 <= j < k - 1 implies t[j] != c by {
            assert(t[j] == s[j + 1]);
        }
        lemma_first_index(t, c, k - 1);
    }
}

/// What lies before and at the first `c`.
pub proof fn lemma_first_index_is<T>(s: Seq<T>, c: T)
    ensures
        0 <= first_index(s, c) <= s.len(),
        forall|j: int| 0 <= j < first_index(s, c) ==> s[j] != c,
        first_index(s, c) < s.len() ==> s[first_index(s, c)] == c,
    decreases s.len(),
{
    if s.len() != 0 && s[0] != c {
        let t = s.drop_first();
        lemma_first_index_is(t, c);
        assert forall|j: int| 0 <= j < first_index(s, c) implies s[j] != c by {
            if j > 0 {
                assert(s[j] == t[j - 1]);
            }
        }
    }
}

/// `last_index` is the one position with no `c` after it that is -1 or holds `c`.
pub proof fn lemma_last_index<T>(s: Seq<T>, c: T, k: int)
    requires
        -1 <= k < s.len(),
        forall|j: int| k < j < s.len() ==> s[j] != c,
        k >= 0 ==> s[k] == c,
    ensures
        last_index(s, c) == k,
    decreases s.len(),
{
    if s.len() != 0 && s.last() != c {
        let t = s.drop_last();
        assert forall|j: int| k < j < t.len() implies t[j] != c by {
            assert(t[j] == s[j]);
        }
        lemma_last_index(t, c, k);
    }
}

/// The position of the first `c` in `chars`, or their number.
pub fn position(chars: &Vec<char>, c: char) -> (k: usize)
    ensures
        k == first_index(chars@, c),
        k <= chars@.len(),
{
    let mut k: usize = 0;
    while k < chars.len() && chars[k] != c
        invariant
            k <= chars@.len(),
            forall|j: int| 0 <= j < k ==> chars@[j] != c,
        decreases chars@.len() - k,
    {
        k = k + 1;
    }
    proof {
        lemma_first_index(chars@, c, k as int);
    }
    k
}

/// One past the position of the last `c` in `chars`; 0 where there is none.
pub fn after_last(chars: &Vec<char>, c: char) -> (k: usize)
    ensures
        k == last_index(chars@, c) + 1,
        k <= chars@.len(),
{
    let mut k: usize = chars.len();
    while k > 0 && chars[k - 1] != c
        invariant
            k <= chars@.len(),
            forall|j: int| k <= j < chars@.len() ==> chars@[j] != c,
        decreases k,
    {
        k = k - 1;
    }
    proof {
        lemma_last_index(chars@, c, k - 1);
    }
    k
}

/// The parts of `s` between the occurrences of `sep`; one more than there are of these.
pub open spec fn split_on<T>(s: Seq<T>, sep: T) -> Seq<Seq<T>>
    decreases s.len(),
{
    if s.len() == 0 {
        seq![Seq::<T>::empty()]
    } else {
        let parts = split_on(s.drop_last(), sep);
        if s.last() == sep {
            parts.push(Seq::<T>::empty())
        } else {
            parts.drop_last().push(parts.last().push(s.last()))
        }
    }
}

/// The parts, with `sep` between each and the next.
pub open spec fn join_with<T>(parts: Seq<Seq<T>>, sep: T) -> Seq<T>
    decreases parts.len(),
{
    if parts.len() == 0 {
        Seq::<T>::empty()
    } else if parts.len() == 1 {
        parts[0]
    } else {
        join_with(parts.drop_last(), sep).push(sep) + parts.last()
    }
}

/// Splitting loses nothing: the parts joined again are what was split, and no part
/// holds the separator.
pub proof fn law_split_join<T>(s: Seq<T>, sep: T)
    ensures
        join_with(split_on(s, sep), sep) == s,
        split_on(s, sep).len() >= 1,
        forall|i: int|
            0 <= i < split_on(s, sep).len() ==> !(#[trigger] split_on(s, sep)[i]).contains(sep),
    decreases s.len(),
{
    let all = split_on(s, sep);
    if s.len() == 0 {
        assert(all[0] == s);
    } else {
        let parts = split_on(s.drop_last(), sep);
        law_split_join(s.drop_last(), sep);
        if s.last() == sep {
            assert(all.drop_last() == parts);
            assert(join_with(all, sep) == s);
        } else {
            assert(all.drop_last() == parts.drop_last());
            assert(all.last() == parts.last().push(s.last()));
            assert(join_with(all, sep) == join_with(parts, sep).push(s.last()));
            assert(join_with(all, sep) == s);
            assert forall|i: int| 0 <= i < all.len() implies !(#[trigger] all[i]).contains(sep) by {
                if i < all.len() - 1 {
                    assert(all[i] == parts[i]);
                } else {
                    assert(!parts.last().contains(sep)) by {
                        assert(parts.last() == parts[parts.len() - 1]);
                    }
                }
            }
        }
    }
}

/// The parts of `s` between the occurrences of `sep`.
pub fn split(s: &str, sep: char) -> (parts: Vec<String>)
    ensures
        parts.deep_view() == split_on(s@, sep),
{
    let chars = chars_of(s);
    let mut parts: Vec<String> = Vec::new();
    let mut start: usize = 0;
    let mut i: usize = 0;
    assert(s@.take(0) == Seq::<char>::empty());
    assert(s@.subrange(0, 0) == Seq::<char>::empty());
    while i < chars.len()
        invariant
            chars@ == s@,
            start <= i <= s@.len(),
            split_on(s@.take(i as int), sep) == parts.deep_view().push(
                s@.subrange(start as int, i as int),
            ),
        decreases s@.len() - i,
    {
        let ghost before = parts.deep_view();
        let ghost part = s@.subrange(start as int, i as int);
        assert(s@.take(i + 1).drop_last() == s@.take(i as int));
        assert(s@.take(i + 1).last() == s@[i as int]);
        if chars[i] == sep {
            parts.push(text_of(&chars, start, i));
            start = i + 1;
            assert(parts.deep_view() == before.push(part));
            assert(s@.subrange(start as int, i + 1) == Seq::<char>::empty());
        } else {
            assert(before.push(part).drop_last() == before);
            assert(s@.subrange(start as int, i + 1) == part.push(s@[i as int]));
        }
        i = i + 1;
    }
    assert(s@.take(s@.len() as int) == s@);
    let ghost before = parts.deep_view();
    parts.push(text_of(&chars, start, i));
    assert(parts.deep_view() == before.push(s@.subrange(start as int, i as int)));
    parts
}

/// The parts, with `sep` between each and the next.
pub fn join(parts: &[&str], sep: char) -> (r: String)
    ensures
        r@ == join_with(parts.deep_view(), sep),
{
    let ghost all = parts.deep_view();
    let mut r = String::new();
    let mut i: usize = 0;
    assert(all.take(0) == Seq::<Text>::empty());
    assert(r@ == Seq::<char>::empty());
    while i < parts.len()
        invariant
            all == parts.deep_view(),
            i <= parts@.len(),
            r@ == join_with(all.take(i as int), sep),
        decreases parts@.len() - i,
    {
        assert(all.take(i + 1).drop_last() == all.take(i as int));
        assert(all.take(i + 1).last() == parts@[i as int]@);
        if i > 0 {
            r.push(sep);
        } else {
            assert(all.take(1)[0] == parts@[0]@);
            assert(r@ + parts@[0]@ == parts@[0]@);
        }
        r.append(parts[i]);
        i = i + 1;
    }
    assert(all.take(all.len() as int) == all);
    r
}

/// The parts one behind the other.
pub open spec fn joined<T>(parts: Seq<Seq<T>>) -> Seq<T>
    decreases parts.len(),
{
    if parts.len() == 0 {
        Seq::<T>::empty()
    } else {
        joined(parts.drop_last()) + parts.last()
    }
}

/// The lines of `s`, each with the newline that ends it; the last may have none.
pub open spec fn lines_of(s: Text) -> Seq<Text>
    decreases s.len(),
{
    if s.len() == 0 {
        Seq::empty()
    } else {
        let lines = lines_of(s.drop_last());
        if lines.len() == 0 || lines.last().last() == '\n' {
            lines.push(seq![s.last()])
        } else {
            lines.drop_last().push(lines.last().push(s.last()))
        }
    }
}

/// Whether `line` can stand among lines: it is not empty, and a newline is only at its end.
pub open spec fn is_line(line: Text) -> bool {
    &&& line.len() > 0
    &&& forall|j: int| 0 <= j < line.len() - 1 ==> #[trigger] line[j] != '\n'
}

/// Cutting a text into lines loses nothing: the lines one behind the other are the text.
/// Every line but the last ends in its only newline.
pub proof fn law_lines(s: Text)
    ensures
        joined(lines_of(s)) == s,
        forall|i: int| 0 <= i < lines_of(s).len() ==> is_line(#[trigger] lines_of(s)[i]),
        forall|i: int|
            0 <= i < lines_of(s).len() - 1 ==> (#[trigger] lines_of(s)[i]).last() == '\n',
    decreases s.len(),
{
    let all = lines_of(s);
    if s.len() > 0 {
        let lines = lines_of(s.drop_last());
        law_lines(s.drop_last());
        if lines.len() == 0 || lines.last().last() == '\n' {
            assert(all.drop_last() == lines);
            assert(joined(all) == s);
            assert forall|i: int| 0 <= i < all.len() implies is_line(#[trigger] all[i]) by {
                if i < lines.len() {
                    assert(all[i] == lines[i]);
                }
            }
            assert forall|i: int| 0 <= i < all.len() - 1 implies (#[trigger] all[i]).last()
                == '\n' by {
                assert(all[i] == lines[i]);
            }
        } else {
            assert(all.drop_last() == lines.drop_last());
            assert(joined(all) == joined(lines).push(s.last()));
            assert(joined(all) == s);
            assert forall|i: int| 0 <= i < all.len() implies is_line(#[trigger] all[i]) by {
                if i < lines.len() - 1 {
                    assert(all[i] == lines[i]);
                } else {
                    let last = lines[lines.len() - 1];
                    assert(is_line(last));
                    assert(all[i] == last.push(s.last()));
                    assert forall|j: int| 0 <= j < all[i].len() - 1 implies #[trigger] all[i][j]
                        != '\n' by {
                        assert(all[i][j] == last[j]);
                    }
                }
            }
            assert forall|i: int| 0 <= i < all.len() - 1 implies (#[trigger] all[i]).last()
                == '\n' by {
                assert(all[i] == lines[i]);
            }
        }
    }
}

/// The lines of `text`, each with the newline that ends it; the last may have none.
pub fn lines_with_endings(text: &str) -> (lines: Vec<String>)
    ensures
        lines.deep_view() == lines_of(text@),
{
    let ghost s = text@;
    let chars = chars_of(text);
    let mut lines: Vec<String> = Vec::new();
    let mut start: usize = 0;
    let mut i: usize = 0;
    assert(s.take(0) == Seq::<char>::empty());
    assert(lines.deep_view() == Seq::<Text>::empty());
    while i < chars.len()
        invariant
            chars@ == s,
            start <= i <= s.len(),
            start == i ==> lines_of(s.take(i as int)) == lines.deep_view() && (i > 0
                ==> lines@.len() > 0 && lines.deep_view().last().last() == '\n'),
            start == i && i == 0 ==> lines@.len() == 0,
            start < i ==> lines_of(s.take(i as int)) == lines.deep_view().push(
                s.subrange(start as int, i as int),
            ) && s[i - 1] != '\n',
        decreases s.len() - i,
    {
        let ghost before = lines.deep_view();
        let ghost line = s.subrange(start as int, i as int);
        let ghost longer = s.subrange(start as int, i + 1);
        proof {
            assert(s.take(i + 1).drop_last() == s.take(i as int));
            assert(s.take(i + 1).last() == s[i as int]);
            assert(longer == line.push(s[i as int]));
            if start == i {
                assert(line == Seq::<char>::empty());
                assert(longer == seq![s[i as int]]);
            } else {
                assert(before.push(line).drop_last() == before);
                assert(line.last() == s[i - 1]);
            }
            assert(lines_of(s.take(i + 1)) == before.push(longer));
        }
        i = i + 1;
        if chars[i - 1] == '\n' {
            lines.push(text_of(&chars, start, i));
            assert(lines.deep_view() == before.push(longer));
            assert(longer.last() == '\n');
            start = i;
        }
    }
    assert(s.take(s.len() as int) == s);
    if start < i {
        let ghost before = lines.deep_view();
        lines.push(text_of(&chars, start, i));
        assert(lines.deep_view() == before.push(s.subrange(start as int, i as int)));
    }
    lines
}

/// What lies before and after the first `sep`, where there is one.
pub open spec fn split_at_first(s: Text, sep: char) -> Option<(Text, Text)> {
    let k = first_index(s, sep);
    if k < s.len() {
        Some((s.take(k), s.skip(k + 1)))
    } else {
        None
    }
}

/// What lies before and after the first `sep`, where there is one.
pub fn split_once(s: &str, sep: char) -> (r: Option<(String, String)>)
    ensures
        r.deep_view() == split_at_first(s@, sep),
{
    let chars = chars_of(s);
    let k = position(&chars, sep);
    if k < chars.len() {
        assert(s@.subrange(0, k as int) == s@.take(k as int));
        assert(s@.subrange(k + 1, s@.len() as int) == s@.skip(k + 1));
        Some((text_of(&chars, 0, k), text_of(&chars, k + 1, chars.len())))
    } else {
        None
    }
}

/// What follows the last `sep`; the whole text where there is none.
pub open spec fn after_last_of(s: Text, sep: char) -> Text {
    s.skip(last_index(s, sep) + 1)
}

/// What follows the last `sep`; the whole text where there is none.
pub fn tail_after(s: &str, sep: char) -> (r: String)
    ensures
        r@ == after_last_of(s@, sep),
{
    let chars = chars_of(s);
    let k = after_last(&chars, sep);
    assert(s@.subrange(k as int, s@.len() as int) == s@.skip(k as int));
    text_of(&chars, k, chars.len())
}

/// What follows `prefix`, where `s` starts with it.
pub open spec fn without_prefix(s: Text, prefix: Text) -> Option<Text> {
    if prefix.is_prefix_of(s) {
        Some(s.skip(prefix.len() as int))
    } else {
        None
    }
}

/// What follows `prefix`, where `s` starts with it.
pub fn strip_prefix(s: &str, prefix: &str) -> (r: Option<String>)
    ensures
        r.deep_view() == without_prefix(s@, prefix@),
{
    let chars = chars_of(s);
    let head = chars_of(prefix);
    if head.len() > chars.len() {
        return None;
    }
    let mut i: usize = 0;
    while i < head.len()
        invariant
            chars@ == s@,
            head@ == prefix@,
            i <= head@.len() <= chars@.len(),
            forall|j: int| 0 <= j < i ==> head@[j] == chars@[j],
        decreases head@.len() - i,
    {
        if head[i] != chars[i] {
            assert(s@.subrange(0, prefix@.len() as int)[i as int] == s@[i as int]);
            return None;
        }
        i = i + 1;
    }
    assert(prefix@ == s@.subrange(0, prefix@.len() as int));
    assert(s@.subrange(i as int, s@.len() as int) == s@.skip(i as int));
    Some(text_of(&chars, i, chars.len()))
}

/// `s` without the `c`s at its end.
pub open spec fn without_trailing(s: Text, c: char) -> Text
    decreases s.len(),
{
    if s.len() > 0 && s.last() == c {
        without_trailing(s.drop_last(), c)
    } else {
        s
    }
}

/// `s` without the `c`s at its end.
pub fn trim_end_matches(s: &str, c: char) -> (r: String)
    ensures
        r@ == without_trailing(s@, c),
{
    let chars = chars_of(s);
    let mut n: usize = chars.len();
    assert(s@.take(n as int) == s@);
    while n > 0 && chars[n - 1] == c
        invariant
            chars@ == s@,
            n <= s@.len(),
            without_trailing(s@.take(n as int), c) == without_trailing(s@, c),
        decreases n,
    {
        assert(s@.take(n as int).drop_last() == s@.take(n - 1));
        n = n - 1;
    }
    assert(s@.subrange(0, n as int) == s@.take(n as int));
    text_of(&chars, 0, n)
}

/// The characters with the Unicode property White_Space.
pub open spec fn is_white(c: char) -> bool {
    ||| '\u{9}' <= c <= '\u{d}'
    ||| c == ' '
    ||| c == '\u{85}'
    ||| c == '\u{a0}'
    ||| c == '\u{1680}'
    ||| '\u{2000}' <= c <= '\u{200a}'
    ||| c == '\u{2028}'
    ||| c == '\u{2029}'
    ||| c == '\u{202f}'
    ||| c == '\u{205f}'
    ||| c == '\u{3000}'
}

/// Tells whether `c` is white space.
pub fn white(c: char) -> (r: bool)
    ensures
        r == is_white(c),
{
    ('\u{9}' <= c && c <= '\u{d}') || c == ' ' || c == '\u{85}' || c == '\u{a0}' || c == '\u{1680}'
        || ('\u{2000}' <= c && c <= '\u{200a}') || c == '\u{2028}' || c == '\u{2029}' || c
        == '\u{202f}' || c == '\u{205f}' || c == '\u{3000}'
}

/// `s` without the white space at its end.
pub open spec fn trimmed_end(s: Text) -> Text
    decreases s.len(),
{
    if s.len() > 0 && is_white(s.last()) {
        trimmed_end(s.drop_last())
    } else {
        s
    }
}

/// `s` without the white space at its start.
pub open spec fn trimmed_start(s: Text) -> Text
    decreases s.len(),
{
    if s.len() > 0 && is_white(s[0]) {
        trimmed_start(s.drop_first())
    } else {
        s
    }
}

/// `s` without the white space at its end.
pub fn trim_end(s: &str) -> (r: String)
    ensures
        r@ == trimmed_end(s@),
{
    let chars = chars_of(s);
    let mut n: usize = chars.len();
    assert(s@.take(n as int) == s@);
    while n > 0 && white(chars[n - 1])
        invariant
            chars@ == s@,
            n <= s@.len(),
            trimmed_end(s@.take(n as int)) == trimmed_end(s@),
        decreases n,
    {
        assert(s@.take(n as int).drop_last() == s@.take(n - 1));
        n = n - 1;
    }
    assert(s@.subrange(0, n as int) == s@.take(n as int));
    text_of(&chars, 0, n)
}

/// `s` without the white space at its start.
pub fn trim_start(s: &str) -> (r: String)
    ensures
        r@ == trimmed_start(s@),
{
    let chars = chars_of(s);
    let mut n: usize = 0;
    assert(s@.skip(0) == s@);
    while n < chars.len() && white(chars[n])
        invariant
            chars@ == s@,
            n <= s@.len(),
            trimmed_start(s@.skip(n as int)) == trimmed_start(s@),
        decreases s@.len() - n,
    {
        assert(s@.skip(n as int).drop_first() == s@.skip(n + 1));
        n = n + 1;
    }
    assert(s@.subrange(n as int, s@.len() as int) == s@.skip(n as int));
    text_of(&chars, n, chars.len())
}

/// `s` without the white space at either end.
pub open spec fn trimmed(s: Text) -> Text {
    trimmed_start(trimmed_end(s))
}

/// `s` without the white space at either end.
pub fn trim(s: &str) -> (r: String)
    ensures
        r@ == trimmed(s@),
{
    let t = trim_end(s);
    trim_start(t.as_str())
}

} // verus!
