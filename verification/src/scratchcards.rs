use crate::capped::{cap, sum_capped};
use crate::lex::{
    after_run, after_tag, multispace0, multispace1, parse_size_list, run_len, shows, size,
    size_list, tag, CharClass,
};
use crate::text::{cut, line_spans, lines, spans_within, to_chars};
use std::collections::HashSet;
use vstd::arithmetic::power2::{
    lemma2_to64, lemma2_to64_rest, lemma_pow2_strictly_increases, lemma_pow2_unfold, pow2,
};
use vstd::prelude::*;
use vstd::std_specs::hash::group_hash_axioms;
use vstd::string::StrSliceExecFns;

verus! {

/// A scratchcard, of which only the number of its matches counts.
pub struct Card {
    pub matches: usize,
}

/// The numbers that are both winning and picked.
pub open spec fn common(winning: Seq<usize>, picked: Seq<usize>) -> Set<usize> {
    winning.to_set().intersect(picked.to_set())
}

/// Card `j` wins a copy of card `i`: `i` is one of the cards that follow `j`,
/// as many as `j` has matches.
pub open spec fn wins(cards: Seq<Card>, j: int, i: int) -> bool {
    j < i <= j + cards[j].matches
}

/// How many instances of card `i` there are once the cards before `upto`
/// have been scored: the card itself, and for each instance of a card before
/// `upto` that wins a copy of `i`, one copy.
pub open spec fn copies(cards: Seq<Card>, i: int, upto: int) -> nat
    decreases i, upto,
{
    if upto <= 0 || upto > i {
        1
    } else if wins(cards, upto - 1, i) {
        copies(cards, i, upto - 1) + copies(cards, upto - 1, upto - 1)
    } else {
        copies(cards, i, upto - 1)
    }
}

/// How many instances of the first `n` cards there are in the end.
pub open spec fn total(cards: Seq<Card>, n: nat) -> nat
    decreases n,
{
    if n == 0 {
        0
    } else {
        total(cards, (n - 1) as nat) + copies(cards, n - 1, n - 1)
    }
}

/// No card wins a copy of a card past the end of the table.
pub open spec fn wins_in_table(cards: Seq<Card>) -> bool {
    forall|i: int| 0 <= i < cards.len() ==> i + (#[trigger] cards[i]).matches < cards.len()
}

impl Card {
    /// The card with these winning and picked numbers: it has as many matches
    /// as there are numbers that are both.
    pub fn new(winning_numbers: Vec<usize>, picked_numbers: Vec<usize>) -> (card: Self)
        ensures
            card.matches == common(winning_numbers@, picked_numbers@).len(),
    {
        broadcast use group_hash_axioms;

        let mut picked_set: HashSet<usize> = HashSet::new();
        let mut i: usize = 0;
        proof {
            assert(picked_numbers@.take(0).to_set() =~= Set::<usize>::empty());
        }
        while i < picked_numbers.len()
            invariant
                i <= picked_numbers@.len(),
                picked_set@ == picked_numbers@.take(i as int).to_set(),
            decreases picked_numbers@.len() - i,
        {
            proof {
                let next = picked_numbers@.take(i + 1);
                assert(next == picked_numbers@.take(i as int).push(picked_numbers@[i as int]));
                picked_numbers@.take(i as int).lemma_push_to_set_commute(picked_numbers@[i as int]);
            }
            picked_set.insert(picked_numbers[i]);
            i += 1;
        }
        proof {
            assert(picked_numbers@.take(i as int) == picked_numbers@);
            assert(winning_numbers@.take(0).to_set() =~= Set::<usize>::empty());
        }
        let mut matched: HashSet<usize> = HashSet::new();
        let mut j: usize = 0;
        while j < winning_numbers.len()
            invariant
                j <= winning_numbers@.len(),
                picked_set@ == picked_numbers@.to_set(),
                matched@ =~= common(winning_numbers@.take(j as int), picked_numbers@),
            decreases winning_numbers@.len() - j,
        {
            let w = winning_numbers[j];
            proof {
                let next = winning_numbers@.take(j + 1);
                assert(next == winning_numbers@.take(j as int).push(w));
                winning_numbers@.take(j as int).lemma_push_to_set_commute(w);
            }
            if picked_set.contains(&w) {
                matched.insert(w);
            }
            j += 1;
        }
        proof {
            assert(winning_numbers@.take(j as int) == winning_numbers@);
        }
        Card { matches: matched.len() }
    }

    /// The points of the card: one for the first match, doubled for each
    /// further match.
    pub fn get_points(&self) -> (r: usize)
        requires
            self.matches <= usize::BITS,
        ensures
            r == if self.matches > 0 {
                pow2((self.matches - 1) as nat)
            } else {
                0
            },
    {
        if self.matches == 0 {
            return 0;
        }
        let mut r: usize = 1;
        let mut k: usize = 0;
        proof {
            lemma2_to64();
            lemma2_to64_rest();
            if self.matches < usize::BITS {
                lemma_pow2_strictly_increases(
                    (self.matches - 1) as nat,
                    (usize::BITS - 1) as nat,
                );
            }
            assert(pow2((usize::BITS - 1) as nat) <= usize::MAX);
        }
        while k < self.matches - 1
            invariant
                self.matches > 0,
                k <= self.matches - 1,
                r == pow2(k as nat),
                pow2((self.matches - 1) as nat) <= usize::MAX,
            decreases self.matches - 1 - k,
        {
            proof {
                lemma_pow2_unfold((k + 1) as nat);
                if k + 1 < self.matches - 1 {
                    lemma_pow2_strictly_increases((k + 1) as nat, (self.matches - 1) as nat);
                }
            }
            r = r * 2;
            k += 1;
        }
        r
    }
}

/// Whether no card wins a copy of a card past the end of the table.
pub fn check_wins(cards: &[Card]) -> (b: bool)
    ensures
        b == wins_in_table(cards@),
{
    let n = cards.len();
    let mut i: usize = 0;
    while i < n
        invariant
            n == cards@.len(),
            i <= n,
            forall|j: int| 0 <= j < i ==> j + (#[trigger] cards@[j]).matches < n,
        decreases n - i,
    {
        if cards[i].matches >= n - i {
            return false;
        }
        i += 1;
    }
    true
}

/// How many instances of all cards there are in the end, or nothing where
/// that number is too large for a `u32`.
pub fn get_total_cards(cards: &[Card]) -> (r: Option<u32>)
    requires
        wins_in_table(cards@),
    ensures
        r == cap(total(cards@, cards@.len())),
{
    let n = cards.len();
    let mut counts: Vec<Option<u32>> = Vec::new();
    while counts.len() < n
        invariant
            counts@.len() <= n,
            forall|i: int| 0 <= i < counts@.len() ==> counts@[i] == Some(1u32),
        decreases n - counts@.len(),
    {
        counts.push(Some(1));
    }
    let mut idx: usize = 0;
    while idx < n
        invariant
            n == cards@.len(),
            counts@.len() == n,
            idx <= n,
            wins_in_table(cards@),
            forall|i: int| 0 <= i < idx ==> #[trigger] counts@[i] == cap(copies(cards@, i, i)),
            forall|i: int| idx <= i < n ==> #[trigger] counts@[i] == cap(copies(cards@, i, idx as int)),
        decreases n - idx,
    {
        let c = counts[idx];
        let m = cards[idx].matches;
        assert(idx + cards@[idx as int].matches < n);
        let mut j: usize = idx + 1;
        while j <= idx + m
            invariant
                n == cards@.len(),
                counts@.len() == n,
                idx < n,
                m == cards@[idx as int].matches,
                idx + m < n,
                idx + 1 <= j <= idx + m + 1,
                c == cap(copies(cards@, idx as int, idx as int)),
                forall|i: int| 0 <= i <= idx ==> #[trigger] counts@[i] == cap(copies(cards@, i, i)),
                forall|i: int| idx < i < j ==> #[trigger] counts@[i] == cap(copies(cards@, i, idx + 1)),
                forall|i: int| j <= i < n ==> #[trigger] counts@[i] == cap(copies(cards@, i, idx as int)),
            decreases idx + m + 1 - j,
        {
            let sum = sum_capped(counts[j], c);
            proof {
                assert(wins(cards@, idx as int, j as int));
            }
            counts.set(j, sum);
            j += 1;
        }
        proof {
            assert forall|i: int| idx + 1 <= i < n implies #[trigger] counts@[i] == cap(
                copies(cards@, i, idx + 1),
            ) by {
                if i >= j {
                    assert(!wins(cards@, idx as int, i));
                }
            }
        }
        idx += 1;
    }
    let mut sum: Option<u32> = Some(0);
    let mut k: usize = 0;
    while k < n
        invariant
            n == cards@.len(),
            counts@.len() == n,
            k <= n,
            forall|i: int| 0 <= i < n ==> #[trigger] counts@[i] == cap(copies(cards@, i, i)),
            sum == cap(total(cards@, k as nat)),
        decreases n - k,
    {
        sum = sum_capped(sum, counts[k]);
        k += 1;
    }
    sum
}

/// The head of a card line: `Card`, blanks and the card's number.
pub open spec fn card_id(s: Seq<char>) -> Option<(usize, Seq<char>)> {
    match after_tag(s, "Card"@) {
        Some(s1) => match after_run(s1, CharClass::Blank) {
            Some(s2) => size(s2),
            None => None,
        },
        None => None,
    }
}

/// The two lists of a card line: the winning numbers, a bar and the picked
/// numbers; blanks may stand on both sides of the bar.
pub open spec fn number_lists(s: Seq<char>) -> Option<((Seq<usize>, Seq<usize>), Seq<char>)> {
    match size_list(s) {
        Some((winning, s1)) => match after_tag(
            s1.skip(run_len(s1, CharClass::Blank) as int),
            "|"@,
        ) {
            Some(s2) => match size_list(s2.skip(run_len(s2, CharClass::Blank) as int)) {
                Some((picked, rest)) => Some(((winning, picked), rest)),
                None => None,
            },
            None => None,
        },
        None => None,
    }
}

/// The numbers of a card line: its head, a colon and blanks, then the two
/// lists. What follows the last picked number is not read.
pub open spec fn card_line(s: Seq<char>) -> Option<(Seq<usize>, Seq<usize>)> {
    match card_id(s) {
        Some((id, s1)) => match after_tag(s1, ":"@) {
            Some(s2) => match after_run(s2, CharClass::Blank) {
                Some(s3) => match number_lists(s3) {
                    Some((lists, rest)) => Some(lists),
                    None => None,
                },
                None => None,
            },
            None => None,
        },
        None => None,
    }
}

/// The card that a line describes, if it is a card line.
pub open spec fn line_card(s: Seq<char>) -> Option<Card> {
    match card_line(s) {
        Some((winning, picked)) => Some(Card { matches: common(winning, picked).len() as usize }),
        None => None,
    }
}

/// Reads a number, and gives what follows it.
pub fn parse_number<'a>(input: &'a str) -> (r: Option<(usize, &'a str)>)
    ensures
        shows(r, size(input@)),
{
    crate::lex::parse_number(input, usize::MAX)
}

/// Reads the head of a card line, and gives the card's number and what
/// follows it.
pub fn parse_card_id<'a>(input: &'a str) -> (r: Option<(usize, &'a str)>)
    ensures
        shows(r, card_id(input@)),
{
    let s1 = match tag(input, "Card") {
        Some(x) => x,
        None => {
            return None;
        },
    };
    match multispace1(s1) {
        Some(s2) => parse_number(s2),
        None => None,
    }
}

/// Reads the two lists of numbers of a card line, and gives what follows the
/// second.
pub fn parse_number_lists<'a>(input: &'a str) -> (r: Option<((Vec<usize>, Vec<usize>), &'a str)>)
    ensures
        match r {
            Some(((winning, picked), rest)) => number_lists(input@) == Some(
                ((winning@, picked@), rest@),
            ),
            None => number_lists(input@) is None,
        },
{
    let (winning, s1) = match parse_size_list(input) {
        Some(x) => x,
        None => {
            return None;
        },
    };
    let before_bar = match multispace0(s1) {
        Some(x) => x,
        None => {
            return None;
        },
    };
    let s2 = match tag(before_bar, "|") {
        Some(x) => x,
        None => {
            return None;
        },
    };
    let after_bar = match multispace0(s2) {
        Some(x) => x,
        None => {
            return None;
        },
    };
    match parse_size_list(after_bar) {
        Some((picked, rest)) => Some(((winning, picked), rest)),
        None => None,
    }
}

/// Reads the card of one line.
pub fn parse_line(input: &str) -> (r: Option<Card>)
    ensures
        r == line_card(input@),
{
    let (_id, s1) = match parse_card_id(input) {
        Some(x) => x,
        None => {
            return None;
        },
    };
    let s2 = match tag(s1, ":") {
        Some(x) => x,
        None => {
            return None;
        },
    };
    let s3 = match multispace1(s2) {
        Some(x) => x,
        None => {
            return None;
        },
    };
    match parse_number_lists(s3) {
        Some(((winning, picked), _)) => Some(Card::new(winning, picked)),
        None => None,
    }
}

/// Reads the cards of a text, one on each line, or nothing where a line is
/// no card line.
pub fn parse_input(input: &str) -> (r: Option<Vec<Card>>)
    ensures
        r is Some <==> forall|i: int|
            0 <= i < lines(input@).len() ==> line_card(#[trigger] lines(input@)[i]) is Some,
        r is Some ==> r->0@.len() == lines(input@).len() && forall|i: int|
            0 <= i < lines(input@).len() ==> Some(#[trigger] r->0@[i]) == line_card(
                lines(input@)[i],
            ),
{
    let text = to_chars(input);
    let spans = line_spans(&text);
    let ghost rows = lines(input@);
    let mut cards: Vec<Card> = Vec::new();
    let mut i: usize = 0;
    while i < spans.len()
        invariant
            text@ == input@,
            rows == lines(input@),
            rows == cut(text@, spans@),
            spans_within(spans@, text@.len() as int),
            i <= spans@.len(),
            cards@.len() == i,
            forall|k: int| 0 <= k < i ==> Some(#[trigger] cards@[k]) == line_card(rows[k]),
        decreases spans@.len() - i,
    {
        let (start, end) = spans[i];
        let line = input.substring_char(start, end);
        assert(line@ == rows[i as int]);
        match parse_line(line) {
            Some(card) => {
                cards.push(card);
            },
            None => {
                return None;
            },
        }
        i += 1;
    }
    proof {
        assert(rows.len() == spans@.len());
        assert forall|k: int| 0 <= k < rows.len() implies line_card(#[trigger] rows[k]) is Some by {
            assert(Some(cards@[k]) == line_card(rows[k]));
        }
    }
    Some(cards)
}

} // verus!
