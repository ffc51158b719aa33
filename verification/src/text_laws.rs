//! What cutting, trimming, ordering and reading texts comes to.

use vstd::prelude::*;
use vstd::utf8::*;

use crate::number;
use crate::order;
use crate::text;
#[allow(unused_imports)]
use crate::text::Text;

verus! {

/// White space is what Unicode calls so.
pub proof fn law_white_space(c: char)
    ensures
        text::is_white(c) <==> {
            let n = c as int;
            ||| 9 <= n <= 13
            ||| n == 0x20
            ||| n == 0x85
            ||| n == 0xa0
            ||| n == 0x1680
            ||| 0x2000 <= n <= 0x200a
            ||| n == 0x2028
            ||| n == 0x2029
            ||| n == 0x202f
            ||| n == 0x205f
            ||| n == 0x3000
        },
{
}

/// Whether all of a text is white space.
pub open spec fn is_blank(s: Text) -> bool {
    forall|i: int| 0 <= i < s.len() ==> text::is_white(#[trigger] s[i])
}

/// Trimming the end of a text takes off the white space there, all of it and nothing else.
pub proof fn law_trim_end(s: Text)
    ensures
        exists|tail: Text|
            s == #[trigger] (text::trimmed_end(s) + tail) && is_blank(tail),
        text::trimmed_end(s).len() > 0 ==> !text::is_white(text::trimmed_end(s).last()),
    decreases s.len(),
{
    let t = text::trimmed_end(s);
    if s.len() > 0 && text::is_white(s.last()) {
        law_trim_end(s.drop_last());
        let less = choose|tail: Text|
            s.drop_last() == #[trigger] (text::trimmed_end(s.drop_last()) + tail) && is_blank(tail);
        let tail = less.push(s.last());
        assert(t == text::trimmed_end(s.drop_last()));
        assert(s == s.drop_last().push(s.last()));
        assert(t + tail == (t + less).push(s.last()));
        assert(s == t + tail);
        assert(is_blank(tail));
    } else {
        assert(s == t + Seq::<char>::empty());
        assert(is_blank(Seq::<char>::empty()));
    }
}

proof fn lemma_trim_start(s: Text) -> (head: Text)
    ensures
        s == head + text::trimmed_start(s),
        is_blank(head),
        text::trimmed_start(s).len() > 0 ==> !text::is_white(text::trimmed_start(s)[0]),
    decreases s.len(),
{
    if s.len() > 0 && text::is_white(s[0]) {
        let less = lemma_trim_start(s.drop_first());
        let head = seq![s[0]] + less;
        let rest = text::trimmed_start(s.drop_first());
        assert(s == seq![s[0]] + s.drop_first());
        assert(head + rest == seq![s[0]] + (less + rest));
        assert(s == head + text::trimmed_start(s));
        head
    } else {
        assert(s == Seq::<char>::empty() + s);
        Seq::empty()
    }
}

/// Trimming a text takes off the white space at both ends, all of it and nothing else.
pub proof fn law_trim(s: Text)
    ensures
        exists|head: Text, tail: Text|
            s == #[trigger] (head + text::trimmed(s) + tail) && is_blank(head) && is_blank(tail),
        text::trimmed(s).len() > 0 ==> !text::is_white(text::trimmed(s)[0]) && !text::is_white(
            text::trimmed(s).last(),
        ),
{
    law_trim_end(s);
    let ended = text::trimmed_end(s);
    let tail = choose|tail: Text| s == #[trigger] (ended + tail) && is_blank(tail);
    let head = lemma_trim_start(ended);
    assert(s == head + text::trimmed(s) + tail);
    if text::trimmed(s).len() > 0 {
        assert(ended.last() == text::trimmed(s).last());
    }
}

/// Taking a character off the end of a text takes off all of it that stand there, and nothing else.
pub proof fn law_without_trailing(s: Text, c: char)
    ensures
        text::without_trailing(s, c).is_prefix_of(s),
        forall|i: int|
            text::without_trailing(s, c).len() <= i < s.len() ==> #[trigger] s[i] == c,
        text::without_trailing(s, c).len() > 0 ==> text::without_trailing(s, c).last() != c,
    decreases s.len(),
{
    let t = text::without_trailing(s, c);
    if s.len() > 0 && s.last() == c {
        law_without_trailing(s.drop_last(), c);
        assert(s.subrange(0, t.len() as int) == s.drop_last().subrange(0, t.len() as int));
        assert forall|i: int| t.len() <= i < s.len() implies #[trigger] s[i] == c by {
            if i < s.len() - 1 {
                assert(s.drop_last()[i] == s[i]);
            }
        }
    } else {
        assert(s.subrange(0, s.len() as int) == s);
    }
}

/// A text is cut in two at the first separator, which is in neither part; one without a separator
/// is not cut.
pub proof fn law_cut_at_first(a: Text, b: Text, sep: char)
    requires
        !a.contains(sep),
    ensures
        text::split_at_first(a.push(sep) + b, sep) == Some((a, b)),
        text::split_at_first(a, sep) is None,
{
    let s = a.push(sep) + b;
    assert forall|j: int| 0 <= j < a.len() implies s[j] != sep && a[j] != sep by {
        assert(s[j] == a[j]);
        assert(a.contains(a[j]));
    }
    assert(s[a.len() as int] == sep);
    text::lemma_first_index(s, sep, a.len() as int);
    text::lemma_first_index(a, sep, a.len() as int);
    assert(s.take(a.len() as int) == a);
    assert(s.skip(a.len() as int + 1) == b);
}

/// Taking a prefix off a text leaves what follows it, and a text without it is left alone.
pub proof fn law_strip_prefix(prefix: Text, rest: Text, other: Text)
    ensures
        text::without_prefix(prefix + rest, prefix) == Some(rest),
        text::without_prefix(other, prefix) matches Some(r) ==> other == prefix + r,
{
    let s = prefix + rest;
    assert(s.subrange(0, prefix.len() as int) == prefix);
    assert(s.skip(prefix.len() as int) == rest);
    if prefix.is_prefix_of(other) {
        assert(other == prefix + other.skip(prefix.len() as int));
    }
}

/// Whether bytes come first: they agree with the others up to some place, and there they end or
/// have the smaller byte.
pub open spec fn comes_first_at(a: Seq<u8>, b: Seq<u8>, k: int) -> bool {
    &&& 0 <= k <= a.len()
    &&& k < b.len()
    &&& forall|i: int| 0 <= i < k ==> a[i] == #[trigger] b[i]
    &&& k == a.len() || a[k] < b[k]
}

/// Texts are ordered by the bytes of their encodings: one comes before another just where, at the
/// first place in which they differ, it has ended or has the smaller byte.
pub proof fn law_order_is_by_bytes(a: Text, b: Text)
    ensures
        order::before(a, b) <==> exists|k: int| #[trigger]
            comes_first_at(encode_utf8(a), encode_utf8(b), k),
{
    lemma_bytes_order(encode_utf8(a), encode_utf8(b));
}

proof fn lemma_bytes_order(a: Seq<u8>, b: Seq<u8>)
    ensures
        order::bytes_before(a, b) <==> exists|k: int| #[trigger] comes_first_at(a, b, k),
    decreases a.len(),
{
    if a.len() == 0 || b.len() == 0 || a[0] != b[0] {
        if order::bytes_before(a, b) {
            assert(comes_first_at(a, b, 0));
        }
        if exists|k: int| #[trigger] comes_first_at(a, b, k) {
            let k = choose|k: int| #[trigger] comes_first_at(a, b, k);
            if k > 0 {
                assert(a[0] == b[0]);
            }
        }
    } else {
        let x = a.drop_first();
        let y = b.drop_first();
        lemma_bytes_order(x, y);
        if order::bytes_before(a, b) {
            let k = choose|k: int| #[trigger] comes_first_at(x, y, k);
            assert forall|i: int| 0 <= i < k + 1 implies a[i] == #[trigger] b[i] by {
                if i > 0 {
                    assert(x[i - 1] == y[i - 1]);
                }
            }
            assert(comes_first_at(a, b, k + 1));
        }
        if exists|k: int| #[trigger] comes_first_at(a, b, k) {
            let k = choose|k: int| #[trigger] comes_first_at(a, b, k);
            assert(k > 0);
            assert forall|i: int| 0 <= i < k - 1 implies x[i] == #[trigger] y[i] by {
                assert(a[i + 1] == b[i + 1]);
            }
            assert(comes_first_at(x, y, k - 1));
        }
    }
}

/// The number that digits stand for, the highest first.
pub open spec fn value_of(digits: Text) -> int
    decreases digits.len(),
{
    if digits.len() == 0 {
        0
    } else {
        10 * value_of(digits.drop_last()) + (digits.last() as int - '0' as int)
    }
}

proof fn lemma_value(digits: Text)
    requires
        forall|i: int| 0 <= i < digits.len() ==> '0' <= #[trigger] digits[i] <= '9',
    ensures
        number::digits_value(digits) == value_of(digits),
    decreases digits.len(),
{
    if digits.len() > 0 {
        let rest = digits.drop_last();
        assert forall|i: int| 0 <= i < rest.len() implies '0' <= #[trigger] rest[i] <= '9' by {
            assert(rest[i] == digits[i]);
        }
        assert('0' <= digits[digits.len() - 1] <= '9');
        lemma_value(rest);
    }
}

/// Digits, with one plus sign before them or without, are read as the number that they stand for,
/// as long as it is no more than the limit. Nothing else is a number.
pub proof fn law_numbers_are_read(s: Text, digits: Text, limit: nat)
    ensures
        digits.len() > 0 && (forall|i: int|
            0 <= i < digits.len() ==> '0' <= #[trigger] digits[i] <= '9') ==> {
            let n = value_of(digits);
            &&& n <= limit ==> number::parsed(digits, limit) == Some(n as nat)
            &&& n <= limit ==> number::parsed(seq!['+'] + digits, limit) == Some(n as nat)
            &&& n > limit ==> number::parsed(digits, limit) is None
        },
        number::parsed(s, limit) is Some ==> s.len() > 0 && (s[0] == '+' || '0' <= s[0] <= '9')
            && forall|i: int| 0 < i < s.len() ==> '0' <= #[trigger] s[i] <= '9',
        s.len() == 0 ==> number::parsed(s, limit) is None,
{
    if digits.len() > 0 && (forall|i: int|
        0 <= i < digits.len() ==> '0' <= #[trigger] digits[i] <= '9') {
        lemma_value(digits);
        assert(number::is_digit(digits[0]));
        assert(number::without_plus(digits) == digits);
        assert((seq!['+'] + digits).drop_first() == digits);
        assert(number::all_digits(digits));
    }
    if number::parsed(s, limit) is Some {
        let t = number::without_plus(s);
        assert(number::is_digit(t[0]));
        assert forall|i: int| 0 < i < s.len() implies '0' <= #[trigger] s[i] <= '9' by {
            if s[0] == '+' {
                assert(t[i - 1] == s[i]);
                assert(number::is_digit(t[i - 1]));
            } else {
                assert(number::is_digit(t[i]));
            }
        }
    }
}

} // verus!
