//! Decimal numbers in text.

use vstd::prelude::*;

use crate::text::chars_of;
#[allow(unused_imports)]
use crate::text::Text;

verus! {

broadcast use vstd::seq_lib::group_seq_properties;

/// The character of a digit below ten.
pub open spec fn digit(d: int) -> char {
    (d + 48) as char
}

/// Whether `c` is one of the ten ASCII digits.
pub open spec fn is_digit(c: char) -> bool {
    '0' <= c <= '9'
}

/// `n` in decimal, without leading zeros.
pub open spec fn decimal(n: nat) -> Text
    decreases n,
{
    if n < 10 {
        seq![digit(n as int)]
    } else {
        decimal(n / 10).push(digit((n % 10) as int))
    }
}

/// Whether `s` is made of digits alone, one at least.
pub open spec fn all_digits(s: Text) -> bool {
    &&& s.len() > 0
    &&& forall|i: int| 0 <= i < s.len() ==> is_digit(#[trigger] s[i])
}

/// The number that a run of digits stands for.
pub open spec fn digits_value(s: Text) -> nat
    decreases s.len(),
{
    if s.len() == 0 {
        0
    } else {
        digits_value(s.drop_last()) * 10 + (s.last() as nat - 48) as nat
    }
}

/// `s` without one leading `+`.
pub open spec fn without_plus(s: Text) -> Text {
    if s.len() > 0 && s[0] == '+' {
        s.drop_first()
    } else {
        s
    }
}

/// The number that `s` reads as: digits alone, after at most one `+`, standing for
/// no more than `limit`.
pub open spec fn parsed(s: Text, limit: nat) -> Option<nat> {
    let digits = without_plus(s);
    if all_digits(digits) && digits_value(digits) <= limit {
        Some(digits_value(digits))
    } else {
        None
    }
}

/// A longer run of digits stands for no smaller number.
proof fn lemma_value_grows(s: Text, n: int)
    requires
        0 <= n <= s.len(),
    ensures
        digits_value(s.take(n)) <= digits_value(s),
    decreases s.len() - n,
{
    if n == s.len() {
        assert(s.take(n) == s);
    } else {
        lemma_value_grows(s, n + 1);
        assert(s.take(n + 1).drop_last() == s.take(n));
    }
}

/// Reads a decimal number that is at most `limit`.
pub fn parse(s: &str, limit: u64) -> (r: Option<u64>)
    ensures
        r matches Some(n) ==> parsed(s@, limit as nat) == Some(n as nat),
        r is None ==> parsed(s@, limit as nat) is None,
{
    let chars = chars_of(s);
    let start: usize = if chars.len() > 0 && chars[0] == '+' {
        1
    } else {
        0
    };
    let ghost digits = without_plus(s@);
    assert(digits == s@.skip(start as int));
    if start == chars.len() {
        return None;
    }
    let mut value: u64 = 0;
    let mut i: usize = start;
    assert(digits.take(0) == Seq::<char>::empty());
    while i < chars.len()
        invariant
            chars@ == s@,
            start <= i <= s@.len(),
            start <= 1,
            digits == s@.skip(start as int),
            digits == without_plus(s@),
            value == digits_value(digits.take(i - start)),
            value <= limit,
            forall|j: int| 0 <= j < i - start ==> is_digit(#[trigger] digits[j]),
        decreases s@.len() - i,
    {
        let c = chars[i];
        let ghost n = i - start;
        assert(digits[n] == c);
        assert(digits.take(n + 1).drop_last() == digits.take(n));
        assert(digits.take(n + 1).last() == c);
        if !('0' <= c && c <= '9') {
            return None;
        }
        let d: u64 = c as u64 - 48;
        let next: u128 = value as u128 * 10 + d as u128;
        assert(next == digits_value(digits.take(n + 1)));
        if next > limit as u128 {
            proof {
                lemma_value_grows(digits, n + 1);
            }
            return None;
        }
        value = next as u64;
        i = i + 1;
    }
    assert(digits.take(digits.len() as int) == digits);
    Some(value)
}

/// Appends `n` in decimal.
pub fn push_decimal(out: &mut String, n: u128)
    ensures
        final(out)@ == old(out)@ + decimal(n as nat),
    decreases n,
{
    if n >= 10 {
        push_decimal(out, n / 10);
    }
    let d: u8 = (n % 10) as u8;
    out.push((d + 48) as char);
    assert(out@ == old(out)@ + decimal(n as nat));
}

/// A number printed and read again is that number, under any limit that admits it.
pub proof fn law_print_parse(n: nat, limit: nat)
    requires
        n <= limit,
    ensures
        parsed(decimal(n), limit) == Some(n),
{
    lemma_printed(n);
}

proof fn lemma_printed(n: nat)
    ensures
        all_digits(decimal(n)),
        digits_value(decimal(n)) == n,
        decimal(n)[0] != '+',
    decreases n,
{
    if n < 10 {
        assert(decimal(n).drop_last() == Seq::<char>::empty());
        assert(digits_value(Seq::<char>::empty()) == 0);
    } else {
        lemma_printed(n / 10);
        assert(decimal(n).drop_last() == decimal(n / 10));
        assert(decimal(n)[0] == decimal(n / 10)[0]);
    }
}

} // verus!
