use vstd::prelude::*;

verus! {

/// `c` is one of the ten decimal digits of ASCII.
pub open spec fn is_digit(c: char) -> bool {
    '0' <= c && c <= '9'
}

/// The number that a decimal digit stands for.
pub open spec fn digit_value(c: char) -> nat {
    (c as int - '0' as int) as nat
}

/// Every character of `s` is a decimal digit.
pub open spec fn all_digits(s: Seq<char>) -> bool {
    forall|i: int| 0 <= i < s.len() ==> is_digit(#[trigger] s[i])
}

/// The number that a sequence of decimal digits denotes; 0 for the empty one.
pub open spec fn decimal(s: Seq<char>) -> nat
    decreases s.len(),
{
    if s.len() == 0 {
        0
    } else {
        decimal(s.drop_last()) * 10 + digit_value(s.last())
    }
}

/// The length of the run of digits that `s` ends in.
pub open spec fn trailing_digits(s: Seq<char>) -> nat
    decreases s.len(),
{
    if s.len() > 0 && is_digit(s.last()) {
        1 + trailing_digits(s.drop_last())
    } else {
        0
    }
}

/// A run of digits from `a` to `b` that no digit precedes is the whole run
/// that the first `b` characters end in.
pub proof fn lemma_trailing_run(s: Seq<char>, a: int, b: int)
    requires
        0 <= a <= b <= s.len(),
        forall|i: int| a <= i < b ==> is_digit(s[i]),
        a == 0 || !is_digit(s[a - 1]),
    ensures
        trailing_digits(s.take(b)) == b - a,
    decreases b - a,
{
    if a < b {
        assert(s.take(b).drop_last() == s.take(b - 1));
        lemma_trailing_run(s, a, b - 1);
    } else if a > 0 {
        assert(s.take(b).last() == s[a - 1]);
    }
}

/// Digits in front add to a number, they never lessen it.
pub proof fn lemma_decimal_skip(s: Seq<char>, k: int)
    requires
        0 <= k <= s.len(),
    ensures
        decimal(s.skip(k)) <= decimal(s),
    decreases s.len(),
{
    if k < s.len() {
        assert(s.skip(k).drop_last() == s.drop_last().skip(k));
        lemma_decimal_skip(s.drop_last(), k);
    } else {
        assert(s.skip(k).len() == 0);
    }
}

/// A number is at least what any of its leading digits alone denote.
pub proof fn lemma_decimal_take(s: Seq<char>, k: int)
    requires
        0 <= k <= s.len(),
    ensures
        decimal(s.take(k)) <= decimal(s),
    decreases s.len() - k,
{
    if k < s.len() {
        assert(s.take(k + 1).drop_last() == s.take(k));
        lemma_decimal_take(s, k + 1);
    } else {
        assert(s.take(k) == s);
    }
}

/// Whether `c` is a decimal digit.
pub fn is_digit_char(c: char) -> (b: bool)
    ensures
        b == is_digit(c),
{
    c >= '0' && c <= '9'
}

/// The number that the digit `c` stands for.
pub fn digit_of(c: char) -> (d: u32)
    requires
        is_digit(c),
    ensures
        d == digit_value(c),
        d <= 9,
{
    (c as u32) - ('0' as u32)
}

} // verus!
