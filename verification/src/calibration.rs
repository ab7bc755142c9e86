use crate::capped::{add_capped, cap};
use crate::digits::{digit_of, digit_value, is_digit, is_digit_char};
use crate::text::{cut, line_spans, lines, spans_within, to_chars};
use vstd::prelude::*;

verus! {

/// `s` with every occurrence of the non-empty `from` replaced by `to`:
/// the occurrences are looked for from the left, and the search goes on
/// behind each one that was found.
pub open spec fn replaced(s: Seq<char>, from: Seq<char>, to: Seq<char>) -> Seq<char>
    decreases s.len(),
{
    if from.len() == 0 || s.len() < from.len() {
        s
    } else if from.is_prefix_of(s) {
        to + replaced(s.skip(from.len() as int), from, to)
    } else {
        seq![s[0]] + replaced(s.drop_first(), from, to)
    }
}

/// A line in which each name of a digit, from `one` to `nine`, has its digit
/// put into it: `one` becomes `one1one`, then `two` becomes `two2two`, and so
/// on, so that names that share a letter are both found.
pub open spec fn spelled(line: Seq<char>) -> Seq<char> {
    let s1 = replaced(line, "one"@, "one1one"@);
    let s2 = replaced(s1, "two"@, "two2two"@);
    let s3 = replaced(s2, "three"@, "three3three"@);
    let s4 = replaced(s3, "four"@, "four4four"@);
    let s5 = replaced(s4, "five"@, "five5five"@);
    let s6 = replaced(s5, "six"@, "six6six"@);
    let s7 = replaced(s6, "seven"@, "seven7seven"@);
    let s8 = replaced(s7, "eight"@, "eight8eight"@);
    replaced(s8, "nine"@, "nine9nine"@)
}

/// The values of the digits of `s`, in their order.
pub open spec fn digit_values(s: Seq<char>) -> Seq<nat>
    decreases s.len(),
{
    if s.len() == 0 {
        Seq::empty()
    } else if is_digit(s.last()) {
        digit_values(s.drop_last()).push(digit_value(s.last()))
    } else {
        digit_values(s.drop_last())
    }
}

/// The value of a line: its first digit as the tens and its last digit as
/// the ones; with `str_vals` the names of digits count as digits too. A line
/// without a digit has no value.
pub open spec fn line_value(line: Seq<char>, str_vals: bool) -> Option<nat> {
    let ds = digit_values(
        if str_vals {
            spelled(line)
        } else {
            line
        },
    );
    if ds.len() > 0 {
        Some(ds.first() * 10 + ds.last())
    } else {
        None
    }
}

/// The sum of the values of the lines, if every line has a value.
pub open spec fn total_value(rows: Seq<Seq<char>>, str_vals: bool) -> Option<nat>
    decreases rows.len(),
{
    if rows.len() == 0 {
        Some(0)
    } else {
        match (total_value(rows.drop_last(), str_vals), line_value(rows.last(), str_vals)) {
            (Some(t), Some(v)) => Some(t + v),
            _ => None,
        }
    }
}

/// Whether `from` stands in `text` at position `at`.
fn starts_at(text: &Vec<char>, at: usize, from: &Vec<char>) -> (b: bool)
    requires
        at <= text@.len(),
    ensures
        b == from@.is_prefix_of(text@.skip(at as int)),
{
    if from.len() > text.len() - at {
        return false;
    }
    let len = text.len();
    let mut k: usize = 0;
    while k < from.len()
        invariant
            len == text@.len(),
            at + from@.len() <= text@.len(),
            k <= from@.len(),
            forall|j: int| 0 <= j < k ==> from@[j] == text@[at + j],
        decreases from@.len() - k,
    {
        if from[k] != text[at + k] {
            assert(text@.skip(at as int)[k as int] == text@[at + k]);
            return false;
        }
        k += 1;
    }
    assert(from@ =~= text@.skip(at as int).subrange(0, from@.len() as int));
    true
}

/// `text` with every occurrence of `from` replaced by `to`.
pub fn replace(text: &Vec<char>, from: &Vec<char>, to: &Vec<char>) -> (out: Vec<char>)
    requires
        from@.len() > 0,
    ensures
        out@ == replaced(text@, from@, to@),
{
    let mut out: Vec<char> = Vec::new();
    let mut i: usize = 0;
    proof {
        assert(text@.skip(0) == text@);
        assert(out@ + replaced(text@, from@, to@) == replaced(text@, from@, to@));
    }
    while i < text.len()
        invariant
            i <= text@.len(),
            from@.len() > 0,
            replaced(text@, from@, to@) == out@ + replaced(text@.skip(i as int), from@, to@),
        decreases text@.len() - i,
    {
        let ghost rest = text@.skip(i as int);
        let ghost before = out@;
        if starts_at(text, i, from) {
            let mut k: usize = 0;
            while k < to.len()
                invariant
                    k <= to@.len(),
                    out@ == before + to@.take(k as int),
                decreases to@.len() - k,
            {
                assert(to@.take(k + 1) == to@.take(k as int).push(to@[k as int]));
                out.push(to[k]);
                k += 1;
            }
            proof {
                assert(to@.take(to@.len() as int) == to@);
                assert(rest.skip(from@.len() as int) == text@.skip(i + from@.len()));
                assert(before + (to@ + replaced(rest.skip(from@.len() as int), from@, to@)) == (
                before + to@) + replaced(rest.skip(from@.len() as int), from@, to@));
            }
            i += from.len();
        } else {
            proof {
                assert(rest.drop_first() == text@.skip(i + 1));
                if rest.len() < from@.len() {
                    assert(replaced(rest.drop_first(), from@, to@) == rest.drop_first());
                    assert(rest == seq![rest[0]] + rest.drop_first());
                }
                assert(before + (seq![rest[0]] + replaced(rest.drop_first(), from@, to@)) == before.push(
                    text@[i as int],
                ) + replaced(rest.drop_first(), from@, to@));
            }
            out.push(text[i]);
            i += 1;
        }
    }
    proof {
        assert(text@.skip(i as int).len() == 0);
        assert(out@ + text@.skip(i as int) == out@);
    }
    out
}

/// `text` with every occurrence of the word `from` replaced by the word `to`.
fn replace_word(text: &Vec<char>, from: &str, to: &str) -> (out: Vec<char>)
    requires
        from@.len() > 0,
    ensures
        out@ == replaced(text@, from@, to@),
{
    let from = to_chars(from);
    let to = to_chars(to);
    replace(text, &from, &to)
}

/// The line with the digit of each name of a digit put into the name.
pub fn spell_out(line: &Vec<char>) -> (out: Vec<char>)
    ensures
        out@ == spelled(line@),
{
    proof {
        reveal_strlit("one");
        reveal_strlit("two");
        reveal_strlit("three");
        reveal_strlit("four");
        reveal_strlit("five");
        reveal_strlit("six");
        reveal_strlit("seven");
        reveal_strlit("eight");
        reveal_strlit("nine");
    }
    let s1 = replace_word(line, "one", "one1one");
    let s2 = replace_word(&s1, "two", "two2two");
    let s3 = replace_word(&s2, "three", "three3three");
    let s4 = replace_word(&s3, "four", "four4four");
    let s5 = replace_word(&s4, "five", "five5five");
    let s6 = replace_word(&s5, "six", "six6six");
    let s7 = replace_word(&s6, "seven", "seven7seven");
    let s8 = replace_word(&s7, "eight", "eight8eight");
    replace_word(&s8, "nine", "nine9nine")
}

/// The value that the first and the last digit of `line` make, if it has a
/// digit.
pub fn first_and_last(line: &Vec<char>) -> (r: Option<u32>)
    ensures
        match r {
            Some(v) => digit_values(line@).len() > 0 && v == digit_values(line@).first() * 10
                + digit_values(line@).last(),
            None => digit_values(line@).len() == 0,
        },
{
    let mut first: Option<u32> = None;
    let mut last: u32 = 0;
    let mut i: usize = 0;
    proof {
        assert(line@.take(0) == Seq::<char>::empty());
    }
    while i < line.len()
        invariant
            i <= line@.len(),
            last <= 9,
            match first {
                Some(f) => {
                    let ds = digit_values(line@.take(i as int));
                    ds.len() > 0 && f == ds.first() && last == ds.last() && f <= 9
                },
                None => digit_values(line@.take(i as int)).len() == 0,
            },
        decreases line@.len() - i,
    {
        proof {
            assert(line@.take(i + 1).drop_last() == line@.take(i as int));
            assert(line@.take(i + 1).last() == line@[i as int]);
        }
        let c = line[i];
        if is_digit_char(c) {
            let d = digit_of(c);
            if first.is_none() {
                first = Some(d);
            }
            last = d;
        }
        i += 1;
    }
    proof {
        assert(line@.take(line@.len() as int) == line@);
    }
    match first {
        Some(f) => Some(f * 10 + last),
        None => None,
    }
}

/// The characters of `text` from `start` up to `end`.
fn slice_of(text: &Vec<char>, start: usize, end: usize) -> (out: Vec<char>)
    requires
        start <= end <= text@.len(),
    ensures
        out@ == text@.subrange(start as int, end as int),
{
    let mut out: Vec<char> = Vec::new();
    let mut i: usize = start;
    while i < end
        invariant
            start <= i <= end <= text@.len(),
            out@ == text@.subrange(start as int, i as int),
        decreases end - i,
    {
        assert(text@.subrange(start as int, i + 1) == text@.subrange(start as int, i as int).push(
            text@[i as int],
        ));
        out.push(text[i]);
        i += 1;
    }
    out
}

/// The sum of the values of the lines of `input`: nothing where a line has
/// no digit or the sum is too large for a `u32`.
pub fn get_value(input: &str, str_vals: bool) -> (r: Option<u32>)
    ensures
        r == match total_value(lines(input@), str_vals) {
            Some(n) => cap(n),
            None => None,
        },
{
    let text = to_chars(input);
    let spans = line_spans(&text);
    let ghost rows = lines(input@);
    let mut sum: Option<u32> = Some(0);
    let mut missing = false;
    let mut i: usize = 0;
    proof {
        assert(rows.take(0) == Seq::<Seq<char>>::empty());
    }
    while i < spans.len()
        invariant
            text@ == input@,
            rows == lines(input@),
            rows == cut(text@, spans@),
            spans_within(spans@, text@.len() as int),
            i <= spans@.len(),
            match total_value(rows.take(i as int), str_vals) {
                Some(n) => !missing && sum == cap(n),
                None => missing,
            },
        decreases spans@.len() - i,
    {
        let (start, end) = spans[i];
        let line = slice_of(&text, start, end);
        proof {
            assert(line@ == rows[i as int]);
            assert(rows.take(i + 1).drop_last() == rows.take(i as int));
            assert(rows.take(i + 1).last() == rows[i as int]);
        }
        let value = if str_vals {
            first_and_last(&spell_out(&line))
        } else {
            first_and_last(&line)
        };
        match value {
            Some(v) => {
                sum = add_capped(sum, v as u64);
            },
            None => {
                missing = true;
            },
        }
        i += 1;
    }
    proof {
        assert(rows.take(rows.len() as int) == rows);
    }
    if missing {
        None
    } else {
        sum
    }
}

} // verus!
