use vstd::prelude::*;

verus! {

/// The position of the first line feed in `s`, or the length of `s` if it
/// holds none.
pub open spec fn first_newline(s: Seq<char>) -> int
    decreases s.len(),
{
    if s.len() == 0 || s[0] == '\n' {
        0
    } else {
        1 + first_newline(s.drop_first())
    }
}

/// `s` without one trailing carriage return, if it ends in one.
pub open spec fn strip_cr(s: Seq<char>) -> Seq<char> {
    if s.len() > 0 && s.last() == '\r' {
        s.drop_last()
    } else {
        s
    }
}

/// The lines of a text. A line ends at a line feed; a carriage return directly
/// before that line feed belongs to the line ending. The last line needs no
/// line ending, and an empty rest after the last line feed is no line.
pub open spec fn lines(s: Seq<char>) -> Seq<Seq<char>>
    decreases s.len(),
{
    let n = first_newline(s);
    if s.len() == 0 {
        Seq::empty()
    } else if 0 <= n < s.len() {
        seq![strip_cr(s.take(n))] + lines(s.skip(n + 1))
    } else {
        seq![s]
    }
}

/// The pieces of `text` that the spans cut out, in the order of the spans.
pub open spec fn cut(text: Seq<char>, spans: Seq<(usize, usize)>) -> Seq<Seq<char>> {
    Seq::new(spans.len(), |i: int| text.subrange(spans[i].0 as int, spans[i].1 as int))
}

/// Every span lies inside a text of length `len`.
pub open spec fn spans_within(spans: Seq<(usize, usize)>, len: int) -> bool {
    forall|i: int| 0 <= i < spans.len() ==> (#[trigger] spans[i]).0 <= spans[i].1 <= len
}

pub proof fn lemma_first_newline(s: Seq<char>, n: int)
    requires
        0 <= n <= s.len(),
        forall|j: int| 0 <= j < n ==> s[j] != '\n',
        n == s.len() || s[n] == '\n',
    ensures
        first_newline(s) == n,
    decreases n,
{
    if n > 0 {
        lemma_first_newline(s.drop_first(), n - 1);
    }
}

/// The characters of a string, in order.
pub fn to_chars(s: &str) -> (v: Vec<char>)
    ensures
        v@ == s@,
{
    let mut v: Vec<char> = Vec::new();
    for c in it: s.chars()
        invariant
            it.seq() == s@,
            v@ == s@.take(it.index() as int),
    {
        v.push(c);
    }
    v
}

/// Where each line of `text` begins and ends.
pub fn line_spans(text: &Vec<char>) -> (spans: Vec<(usize, usize)>)
    ensures
        spans_within(spans@, text@.len() as int),
        cut(text@, spans@) == lines(text@),
{
    let mut spans: Vec<(usize, usize)> = Vec::new();
    let mut start: usize = 0;
    let mut i: usize = 0;
    proof {
        assert(text@.skip(0) == text@);
        assert(cut(text@, spans@) + lines(text@) == lines(text@));
    }
    while i < text.len()
        invariant
            start <= i <= text@.len(),
            spans_within(spans@, text@.len() as int),
            forall|j: int| start <= j < i ==> text@[j] != '\n',
            lines(text@) == cut(text@, spans@) + lines(text@.skip(start as int)),
        decreases text@.len() - i,
    {
        if text[i] == '\n' {
            let end: usize = if i > start && text[i - 1] == '\r' {
                i - 1
            } else {
                i
            };
            proof {
                let rest = text@.skip(start as int);
                lemma_first_newline(rest, i - start);
                assert(rest.take(i - start) == text@.subrange(start as int, i as int));
                assert(strip_cr(rest.take(i - start)) == text@.subrange(start as int, end as int));
                assert(rest.skip(i - start + 1) == text@.skip(i + 1));
                assert(cut(text@, spans@.push((start, end))) == cut(text@, spans@).push(
                    text@.subrange(start as int, end as int),
                ));
            }
            spans.push((start, end));
            start = i + 1;
        }
        i += 1;
    }
    if start < text.len() {
        proof {
            let rest = text@.skip(start as int);
            lemma_first_newline(rest, rest.len() as int);
            assert(rest == text@.subrange(start as int, text@.len() as int));
            assert(cut(text@, spans@.push((start, text@.len() as usize))) == cut(
                text@,
                spans@,
            ).push(text@.subrange(start as int, text@.len() as int)));
        }
        spans.push((start, text.len()));
    } else {
        assert(text@.skip(start as int).len() == 0);
    }
    spans
}

} // verus!
