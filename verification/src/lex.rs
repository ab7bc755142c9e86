use crate::digits::{all_digits, decimal, digit_of, is_digit, lemma_decimal_take};
use vstd::prelude::*;

verus! {

/// The classes of characters that the grammars of the puzzle texts tell apart.
pub enum CharClass {
    /// `0` to `9`.
    Digit,
    /// The letters of ASCII, small and capital.
    Alpha,
    /// Space and tab.
    Space,
    /// Space, tab, carriage return and line feed.
    Blank,
    /// Everything that is not `Blank`.
    Word,
}

/// `c` belongs to the class.
pub open spec fn member(class: CharClass, c: char) -> bool {
    match class {
        CharClass::Digit => is_digit(c),
        CharClass::Alpha => ('a' <= c && c <= 'z') || ('A' <= c && c <= 'Z'),
        CharClass::Space => c == ' ' || c == '\t',
        CharClass::Blank => c == ' ' || c == '\t' || c == '\r' || c == '\n',
        CharClass::Word => !(c == ' ' || c == '\t' || c == '\r' || c == '\n'),
    }
}

/// The length of the longest prefix of `s` whose characters all belong to the
/// class.
pub open spec fn run_len(s: Seq<char>, class: CharClass) -> nat
    decreases s.len(),
{
    if s.len() > 0 && member(class, s[0]) {
        1 + run_len(s.drop_first(), class)
    } else {
        0
    }
}

/// What is left of `s` after its run of the class, if that run is not empty.
pub open spec fn after_run(s: Seq<char>, class: CharClass) -> Option<Seq<char>> {
    let n = run_len(s, class);
    if n > 0 {
        Some(s.skip(n as int))
    } else {
        None
    }
}

/// What is left of `s` after the prefix `t`, if it begins with `t`.
pub open spec fn after_tag(s: Seq<char>, t: Seq<char>) -> Option<Seq<char>> {
    if t.is_prefix_of(s) {
        Some(s.skip(t.len() as int))
    } else {
        None
    }
}

/// What is left of `s` after a line ending, if it begins with one: a line
/// feed, or a carriage return and a line feed.
pub open spec fn after_line_ending(s: Seq<char>) -> Option<Seq<char>> {
    if s.len() >= 1 && s[0] == '\n' {
        Some(s.skip(1))
    } else if s.len() >= 2 && s[0] == '\r' && s[1] == '\n' {
        Some(s.skip(2))
    } else {
        None
    }
}

/// The number that `s` begins with and what follows it: the longest run of
/// digits, read as a decimal number, if there is a digit and the number is at
/// most `max`.
pub open spec fn number(s: Seq<char>, max: nat) -> Option<(nat, Seq<char>)> {
    let n = run_len(s, CharClass::Digit);
    if n > 0 && decimal(s.take(n as int)) <= max {
        Some((decimal(s.take(n as int)), s.skip(n as int)))
    } else {
        None
    }
}

/// What a list goes on with behind its first items `acc`: as long as a
/// separator and another item follow, the item joins the list. Where one of
/// the two is missing the list ends before the separator.
pub open spec fn list_more<T>(
    elem: spec_fn(Seq<char>) -> Option<(T, Seq<char>)>,
    sep: spec_fn(Seq<char>) -> Option<Seq<char>>,
    s: Seq<char>,
    acc: Seq<T>,
) -> (Seq<T>, Seq<char>)
    decreases s.len(),
{
    match sep(s) {
        None => (acc, s),
        Some(t) => match elem(t) {
            None => (acc, s),
            Some((v, rest)) => if rest.len() < s.len() {
                list_more(elem, sep, rest, acc.push(v))
            } else {
                (acc, s)
            },
        },
    }
}

/// A list of one or more items with a separator between each two, and what
/// follows the list.
pub open spec fn list1<T>(
    elem: spec_fn(Seq<char>) -> Option<(T, Seq<char>)>,
    sep: spec_fn(Seq<char>) -> Option<Seq<char>>,
    s: Seq<char>,
) -> Option<(Seq<T>, Seq<char>)> {
    match elem(s) {
        None => None,
        Some((v, rest)) => Some(list_more(elem, sep, rest, seq![v])),
    }
}

/// A number that fits a `usize`, and what follows it.
pub open spec fn size(s: Seq<char>) -> Option<(usize, Seq<char>)> {
    match number(s, usize::MAX as nat) {
        Some((v, rest)) => Some((v as usize, rest)),
        None => None,
    }
}

/// The parser of one `size`.
pub open spec fn size_parser() -> spec_fn(Seq<char>) -> Option<(usize, Seq<char>)> {
    |s: Seq<char>| size(s)
}

/// The parser of a non-empty run of blanks.
pub open spec fn blank_parser() -> spec_fn(Seq<char>) -> Option<Seq<char>> {
    |s: Seq<char>| after_run(s, CharClass::Blank)
}

/// One or more numbers with blanks between them, and what follows the last.
pub open spec fn size_list(s: Seq<char>) -> Option<(Seq<usize>, Seq<char>)> {
    list1(size_parser(), blank_parser(), s)
}

/// An executable list stands for a list of the grammar.
pub open spec fn shows_list<T>(r: Option<(Vec<T>, &str)>, e: Option<(Seq<T>, Seq<char>)>) -> bool {
    match r {
        Some((v, rest)) => e == Some((v@, rest@)),
        None => e is None,
    }
}

/// An executable result stands for a result of the grammar: the same value,
/// and the rest of the text as a string.
pub open spec fn shows<T>(r: Option<(T, &str)>, e: Option<(T, Seq<char>)>) -> bool {
    match r {
        Some((v, rest)) => e == Some((v, rest@)),
        None => e is None,
    }
}

/// As `shows`, for a result without a value.
pub open spec fn shows_rest(r: Option<&str>, e: Option<Seq<char>>) -> bool {
    match r {
        Some(rest) => e == Some(rest@),
        None => e is None,
    }
}

/// An executable split stands for the run of a class at the start of `s`.
pub open spec fn shows_run(r: Option<(&str, &str)>, s: Seq<char>, class: CharClass) -> bool {
    match r {
        Some((run, rest)) => {
            &&& run@ == s.take(run_len(s, class) as int)
            &&& rest@ == s.skip(run_len(s, class) as int)
        },
        None => false,
    }
}

pub proof fn lemma_run_len(s: Seq<char>, class: CharClass)
    ensures
        run_len(s, class) <= s.len(),
        forall|i: int| 0 <= i < run_len(s, class) ==> member(class, #[trigger] s[i]),
        run_len(s, class) < s.len() ==> !member(class, s[run_len(s, class) as int]),
    decreases s.len(),
{
    if s.len() > 0 && member(class, s[0]) {
        let t = s.drop_first();
        lemma_run_len(t, class);
        assert forall|i: int| 0 <= i < run_len(s, class) implies member(class, #[trigger] s[i]) by {
            if i > 0 {
                assert(s[i] == t[i - 1]);
            }
        }
        if run_len(s, class) < s.len() {
            assert(s[run_len(s, class) as int] == t[run_len(t, class) as int]);
        }
    }
}

/// Whether `c` is a space, a tab, a carriage return or a line feed.
pub fn is_blank(c: char) -> (b: bool)
    ensures
        b == member(CharClass::Blank, c),
{
    c == ' ' || c == '\t' || c == '\r' || c == '\n'
}

/// Splits off the digits that `input` begins with; nothing if it begins with
/// none. Calls `nom::character::complete::digit1`, which takes the longest
/// prefix of ASCII digits and fails on an empty one.
#[verifier::external_body]
pub(crate) fn digit1<'a>(input: &'a str) -> (r: Option<(&'a str, &'a str)>)
    ensures
        r is Some <==> run_len(input@, CharClass::Digit) > 0,
        r is Some ==> shows_run(r, input@, CharClass::Digit),
{
    match nom::character::complete::digit1::<&str, nom::error::Error<&str>>(input) {
        Ok((rest, run)) => Some((run, rest)),
        Err(_) => None,
    }
}

/// Splits off the ASCII letters that `input` begins with; nothing if it
/// begins with none. Calls `nom::character::complete::alpha1`, which takes
/// the longest prefix of ASCII letters and fails on an empty one.
#[verifier::external_body]
pub(crate) fn alpha1<'a>(input: &'a str) -> (r: Option<(&'a str, &'a str)>)
    ensures
        r is Some <==> run_len(input@, CharClass::Alpha) > 0,
        r is Some ==> shows_run(r, input@, CharClass::Alpha),
{
    match nom::character::complete::alpha1::<&str, nom::error::Error<&str>>(input) {
        Ok((rest, run)) => Some((run, rest)),
        Err(_) => None,
    }
}

/// Skips the spaces and tabs that `input` begins with; nothing if it begins
/// with none. Calls `nom::character::complete::space1`, which takes the
/// longest prefix of spaces and tabs and fails on an empty one.
#[verifier::external_body]
pub(crate) fn space1<'a>(input: &'a str) -> (r: Option<&'a str>)
    ensures
        shows_rest(r, after_run(input@, CharClass::Space)),
{
    match nom::character::complete::space1::<&str, nom::error::Error<&str>>(input) {
        Ok((rest, _)) => Some(rest),
        Err(_) => None,
    }
}

/// Skips the spaces, tabs, carriage returns and line feeds that `input`
/// begins with; nothing if it begins with none. Calls
/// `nom::character::complete::multispace1`, which takes the longest prefix of
/// these four characters and fails on an empty one.
#[verifier::external_body]
pub(crate) fn multispace1<'a>(input: &'a str) -> (r: Option<&'a str>)
    ensures
        shows_rest(r, after_run(input@, CharClass::Blank)),
{
    match nom::character::complete::multispace1::<&str, nom::error::Error<&str>>(input) {
        Ok((rest, _)) => Some(rest),
        Err(_) => None,
    }
}

/// Skips the spaces, tabs, carriage returns and line feeds that `input`
/// begins with, if any. Calls `nom::character::complete::multispace0`, which
/// takes the longest prefix of these four characters and never fails.
#[verifier::external_body]
pub(crate) fn multispace0<'a>(input: &'a str) -> (r: Option<&'a str>)
    ensures
        r is Some,
        r->0@ == input@.skip(run_len(input@, CharClass::Blank) as int),
{
    match nom::character::complete::multispace0::<&str, nom::error::Error<&str>>(input) {
        Ok((rest, _)) => Some(rest),
        Err(_) => None,
    }
}

/// Splits `input` before its first space, tab, carriage return or line feed.
/// Calls `nom::bytes::complete::take_till` with `is_blank` as its condition,
/// which takes the longest prefix on which the condition fails, and never
/// fails itself.
#[verifier::external_body]
pub(crate) fn take_word<'a>(input: &'a str) -> (r: Option<(&'a str, &'a str)>)
    ensures
        r is Some,
        shows_run(r, input@, CharClass::Word),
{
    match nom::bytes::complete::take_till::<_, &str, nom::error::Error<&str>>(|c: char| is_blank(c))(
        input,
    ) {
        Ok((rest, run)) => Some((run, rest)),
        Err(_) => None,
    }
}

/// Skips `t` at the start of `input`; nothing if `input` does not begin with
/// `t`. Calls `nom::bytes::complete::tag`, which compares the two from the
/// start and splits `input` behind the tag.
#[verifier::external_body]
pub(crate) fn tag<'a>(input: &'a str, t: &str) -> (r: Option<&'a str>)
    ensures
        shows_rest(r, after_tag(input@, t@)),
{
    match nom::bytes::complete::tag::<&str, &str, nom::error::Error<&str>>(t)(input) {
        Ok((rest, _)) => Some(rest),
        Err(_) => None,
    }
}

/// Skips a line ending at the start of `input`; nothing if `input` begins
/// with none. Calls `nom::character::complete::line_ending`, which accepts a
/// line feed, or a carriage return followed by a line feed.
#[verifier::external_body]
pub(crate) fn line_ending<'a>(input: &'a str) -> (r: Option<&'a str>)
    ensures
        shows_rest(r, after_line_ending(input@)),
{
    match nom::character::complete::line_ending::<&str, nom::error::Error<&str>>(input) {
        Ok((rest, _)) => Some(rest),
        Err(_) => None,
    }
}

/// The number that a string of digits denotes, if it is at most `max`.
pub fn to_number(digits: &str, max: usize) -> (r: Option<usize>)
    requires
        all_digits(digits@),
    ensures
        r is Some <==> decimal(digits@) <= max,
        r is Some ==> r->0 == decimal(digits@),
{
    let mut acc: usize = 0;
    for c in it: digits.chars()
        invariant
            it.seq() == digits@,
            all_digits(digits@),
            acc == decimal(digits@.take(it.index() as int)),
            acc <= max,
    {
        let ghost i = it.index() as int;
        assert(c == digits@[i]);
        let d = digit_of(c) as usize;
        proof {
            assert(digits@.take(i + 1).drop_last() == digits@.take(i));
            lemma_decimal_take(digits@, i + 1);
        }
        if d > max || acc > (max - d) / 10 {
            return None;
        }
        acc = acc * 10 + d;
    }
    proof {
        assert(digits@.take(digits@.len() as int) == digits@);
    }
    Some(acc)
}

/// Reads the number that `input` begins with, if there is one and it is at
/// most `max`, and gives what follows it.
pub fn parse_number<'a>(input: &'a str, max: usize) -> (r: Option<(usize, &'a str)>)
    ensures
        match r {
            Some((v, rest)) => number(input@, max as nat) == Some((v as nat, rest@)),
            None => number(input@, max as nat) is None,
        },
{
    proof {
        lemma_run_len(input@, CharClass::Digit);
    }
    match digit1(input) {
        Some((run, rest)) => match to_number(run, max) {
            Some(v) => Some((v, rest)),
            None => None,
        },
        None => None,
    }
}

/// What a list goes on to holds its first items in front.
pub proof fn lemma_list_more_extends<T>(
    elem: spec_fn(Seq<char>) -> Option<(T, Seq<char>)>,
    sep: spec_fn(Seq<char>) -> Option<Seq<char>>,
    s: Seq<char>,
    acc: Seq<T>,
)
    ensures
        acc.is_prefix_of(list_more(elem, sep, s, acc).0),
    decreases s.len(),
{
    match sep(s) {
        None => {},
        Some(t) => match elem(t) {
            None => {},
            Some((v, rest)) => {
                if rest.len() < s.len() {
                    lemma_list_more_extends(elem, sep, rest, acc.push(v));
                    assert(acc.is_prefix_of(acc.push(v)));
                }
            },
        },
    }
}

/// What follows a list is no longer than what followed its first items.
pub proof fn lemma_list_more_shrinks<T>(
    elem: spec_fn(Seq<char>) -> Option<(T, Seq<char>)>,
    sep: spec_fn(Seq<char>) -> Option<Seq<char>>,
    s: Seq<char>,
    acc: Seq<T>,
)
    ensures
        list_more(elem, sep, s, acc).1.len() <= s.len(),
    decreases s.len(),
{
    match sep(s) {
        None => {},
        Some(t) => match elem(t) {
            None => {},
            Some((v, rest)) => {
                if rest.len() < s.len() {
                    lemma_list_more_shrinks(elem, sep, rest, acc.push(v));
                }
            },
        },
    }
}

/// Whether `word` is the word `lit`.
pub fn is_word(word: &str, lit: &str) -> (b: bool)
    ensures
        b == (word@ == lit@),
{
    match tag(word, lit) {
        Some(rest) => {
            proof {
                if rest@.len() == 0 {
                    assert(word@ =~= lit@);
                }
            }
            rest.is_empty()
        },
        None => false,
    }
}

/// Reads one or more numbers with blanks between them, and gives what
/// follows the last.
pub fn parse_size_list<'a>(input: &'a str) -> (r: Option<(Vec<usize>, &'a str)>)
    ensures
        shows_list(r, size_list(input@)),
{
    let (first, after_first) = match parse_number(input, usize::MAX) {
        Some(x) => x,
        None => {
            return None;
        },
    };
    let mut list: Vec<usize> = Vec::new();
    list.push(first);
    let mut rest = after_first;
    assert(list@ == seq![first]);
    loop
        invariant
            size_list(input@) == Some(list_more(size_parser(), blank_parser(), rest@, list@)),
        decreases rest@.len(),
    {
        proof {
            lemma_run_len(rest@, CharClass::Blank);
        }
        let after_sep = match multispace1(rest) {
            Some(t) => t,
            None => {
                return Some((list, rest));
            },
        };
        match parse_number(after_sep, usize::MAX) {
            Some((v, next)) => {
                proof {
                    lemma_run_len(after_sep@, CharClass::Digit);
                }
                list.push(v);
                rest = next;
            },
            None => {
                return Some((list, rest));
            },
        }
    }
}

} // verus!
