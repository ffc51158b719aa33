//! The order of texts, by the bytes of their encodings, and stable sorting by it.

use vstd::prelude::*;
use vstd::string::*;
use vstd::utf8::*;

#[allow(unused_imports)]
use crate::text::Text;

verus! {

broadcast use vstd::seq_lib::group_seq_properties;

/// Whether `a` comes strictly before `b`, byte by byte.
pub open spec fn bytes_before(a: Seq<u8>, b: Seq<u8>) -> bool
    decreases a.len(),
{
    if b.len() == 0 {
        false
    } else if a.len() == 0 {
        true
    } else if a[0] != b[0] {
        a[0] < b[0]
    } else {
        bytes_before(a.drop_first(), b.drop_first())
    }
}

/// Whether the text `a` comes strictly before the text `b`.
pub open spec fn before(a: Text, b: Text) -> bool {
    bytes_before(encode_utf8(a), encode_utf8(b))
}

/// Tells whether `a` comes strictly before `b`.
pub fn comes_before(a: &str, b: &str) -> (r: bool)
    ensures
        r == before(a@, b@),
{
    let x = a.as_bytes();
    let y = b.as_bytes();
    let mut i: usize = 0;
    assert(x@.skip(0) == x@);
    assert(y@.skip(0) == y@);
    while i < x.len() && i < y.len() && x[i] == y[i]
        invariant
            i <= x@.len(),
            i <= y@.len(),
            bytes_before(x@, y@) == bytes_before(x@.skip(i as int), y@.skip(i as int)),
        decreases x@.len() - i,
    {
        assert(x@.skip(i as int).drop_first() == x@.skip(i + 1));
        assert(y@.skip(i as int).drop_first() == y@.skip(i + 1));
        i = i + 1;
    }
    if i == y.len() {
        false
    } else if i == x.len() {
        true
    } else {
        x[i] < y[i]
    }
}

/// The order is irreflexive and asymmetric, and orders any two different byte strings.
pub proof fn lemma_bytes_total(a: Seq<u8>, b: Seq<u8>)
    ensures
        !bytes_before(a, a),
        bytes_before(a, b) ==> !bytes_before(b, a),
        a != b ==> bytes_before(a, b) || bytes_before(b, a),
    decreases a.len(),
{
    if a.len() > 0 {
        if b.len() > 0 {
            lemma_bytes_total(a.drop_first(), b.drop_first());
            if a[0] == b[0] && a.drop_first() == b.drop_first() {
                assert(a == seq![a[0]] + a.drop_first());
                assert(b == seq![b[0]] + b.drop_first());
            }
        } else {
            lemma_bytes_total(a.drop_first(), b);
        }
    } else if b.len() == 0 {
        assert(a == b);
    }
}

/// The order is transitive, also where one of the steps is only "not after".
pub proof fn lemma_bytes_transitive(a: Seq<u8>, b: Seq<u8>, c: Seq<u8>)
    ensures
        !bytes_before(b, a) && !bytes_before(c, b) ==> !bytes_before(c, a),
    decreases a.len(),
{
    if a.len() > 0 && b.len() > 0 && c.len() > 0 {
        lemma_bytes_transitive(a.drop_first(), b.drop_first(), c.drop_first());
    }
}

/// `s` with `k` put behind every element that does not come after it. The keys decide.
pub open spec fn inserted<V>(s: Seq<(Text, V)>, k: (Text, V)) -> Seq<(Text, V)>
    decreases s.len(),
{
    if s.len() > 0 && before(k.0, s.last().0) {
        inserted(s.drop_last(), k).push(s.last())
    } else {
        s.push(k)
    }
}

/// Putting an element into what comes before a greater one, and that one behind it, is putting it
/// into both.
pub proof fn lemma_insert_step<V>(s: Seq<(Text, V)>, k: (Text, V), n: int)
    requires
        0 < n <= s.len(),
        before(k.0, s[n - 1].0),
        inserted(s, k) == inserted(s.take(n), k) + s.skip(n),
    ensures
        inserted(s, k) == inserted(s.take(n - 1), k) + s.skip(n - 1),
{
    let less = inserted(s.take(n - 1), k);
    assert(s.take(n).last() == s[n - 1]);
    assert(s.take(n).drop_last() == s.take(n - 1));
    assert(inserted(s.take(n), k) == less.push(s[n - 1]));
    assert(less.push(s[n - 1]) + s.skip(n) == less + s.skip(n - 1));
}

/// `s` in the order of its keys; elements of one key stay in the order they had.
pub open spec fn stable_sorted<V>(s: Seq<(Text, V)>) -> Seq<(Text, V)>
    decreases s.len(),
{
    if s.len() == 0 {
        s
    } else {
        inserted(stable_sorted(s.drop_last()), s.last())
    }
}

/// Whether the keys never come in the wrong order.
pub open spec fn in_order<V>(s: Seq<(Text, V)>) -> bool {
    forall|i: int, j: int| 0 <= i < j < s.len() ==> !before((#[trigger] s[j]).0, (#[trigger] s[i]).0)
}

proof fn lemma_inserted<V>(s: Seq<(Text, V)>, k: (Text, V))
    requires
        in_order(s),
    ensures
        in_order(inserted(s, k)),
        inserted(s, k).to_multiset() == s.to_multiset().insert(k),
        forall|i: int|
            0 <= i < inserted(s, k).len() ==> (#[trigger] inserted(s, k)[i] == k || s.contains(
                inserted(s, k)[i],
            )),
    decreases s.len(),
{
    let r = inserted(s, k);
    if s.len() > 0 && before(k.0, s.last().0) {
        let t = s.drop_last();
        let u = inserted(t, k);
        assert(in_order(t)) by {
            assert forall|i: int, j: int| 0 <= i < j < t.len() implies !before(
                (#[trigger] t[j]).0,
                (#[trigger] t[i]).0,
            ) by {
                assert(t[i] == s[i] && t[j] == s[j]);
            }
        }
        lemma_inserted(t, k);
        assert forall|i: int| 0 <= i < r.len() implies (#[trigger] r[i] == k || s.contains(
            r[i],
        )) by {
            if i < u.len() {
                assert(r[i] == u[i]);
                if u[i] != k {
                    assert(t.contains(u[i]));
                    let n = choose|n: int| 0 <= n < t.len() && t[n] == u[i];
                    assert(s[n] == u[i]);
                }
            } else {
                assert(s[s.len() - 1] == r[i]);
            }
        }
        assert forall|i: int, j: int| 0 <= i < j < r.len() implies !before(
            (#[trigger] r[j]).0,
            (#[trigger] r[i]).0,
        ) by {
            if j < u.len() {
                assert(r[i] == u[i] && r[j] == u[j]);
            } else {
                assert(r[j] == s.last());
                assert(r[i] == u[i]);
                if u[i] == k {
                    lemma_bytes_total(encode_utf8(k.0), encode_utf8(s.last().0));
                } else {
                    assert(t.contains(u[i]));
                    let n = choose|n: int| 0 <= n < t.len() && t[n] == u[i];
                    assert(s[n] == u[i] && s[s.len() - 1] == s.last());
                }
            }
        }
        assert(s == t.push(s.last()));
        t.to_multiset_ensures();
        u.to_multiset_ensures();
        assert(r.to_multiset() == u.to_multiset().insert(s.last()));
        assert(r.to_multiset() =~= s.to_multiset().insert(k));
    } else {
        s.to_multiset_ensures();
        assert forall|i: int, j: int| 0 <= i < j < r.len() implies !before(
            (#[trigger] r[j]).0,
            (#[trigger] r[i]).0,
        ) by {
            if j < s.len() {
                assert(r[i] == s[i] && r[j] == s[j]);
            } else {
                assert(r[j] == k && r[i] == s[i]);
                if i < s.len() - 1 {
                    assert(!before(s[s.len() - 1].0, s[i].0));
                    lemma_bytes_transitive(
                        encode_utf8(s[i].0),
                        encode_utf8(s.last().0),
                        encode_utf8(k.0),
                    );
                }
            }
        }
        assert forall|i: int| 0 <= i < r.len() implies (#[trigger] r[i] == k || s.contains(
            r[i],
        )) by {
            if i < s.len() {
                assert(r[i] == s[i]);
            }
        }
    }
}

/// Sorting puts the keys in order and keeps every element, as often as it was there.
pub proof fn law_sorted<V>(s: Seq<(Text, V)>)
    ensures
        in_order(stable_sorted(s)),
        stable_sorted(s).to_multiset() == s.to_multiset(),
    decreases s.len(),
{
    if s.len() > 0 {
        law_sorted(s.drop_last());
        lemma_inserted(stable_sorted(s.drop_last()), s.last());
        s.drop_last().to_multiset_ensures();
        assert(s == s.drop_last().push(s.last()));
    }
}

} // verus!
