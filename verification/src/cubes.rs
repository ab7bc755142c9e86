use crate::lex::{
    after_tag, alpha1, is_word, lemma_list_more_extends, lemma_list_more_shrinks, lemma_run_len,
    list1, list_more, number, parse_number, run_len, shows, shows_list, tag, CharClass,
};
use crate::text::{cut, line_spans, lines, spans_within, to_chars};
use vstd::prelude::*;
use vstd::string::StrSliceExecFns;

verus! {

/// The most red cubes that a possible game shows at once.
pub const MAX_RED: u32 = 12;

/// The most green cubes that a possible game shows at once.
pub const MAX_GREEN: u32 = 13;

/// The most blue cubes that a possible game shows at once.
pub const MAX_BLUE: u32 = 14;

/// The cubes of each colour that one handful shows.
#[derive(Clone, Copy, Debug, PartialEq, Eq, Structural)]
pub struct Sample {
    pub red: u32,
    pub green: u32,
    pub blue: u32,
}

/// A game: its number and its handfuls, one after another.
#[derive(Debug)]
pub struct Game {
    pub id: u32,
    pub samples: Vec<Sample>,
}

/// What a `Game` holds.
pub struct GameView {
    pub id: u32,
    pub samples: Seq<Sample>,
}

impl View for Game {
    type V = GameView;

    open spec fn view(&self) -> GameView {
        GameView { id: self.id, samples: self.samples@ }
    }
}

/// The colour that a word names.
#[derive(Clone, Copy, Debug, PartialEq, Eq, Structural)]
pub enum Colour {
    Red,
    Green,
    Blue,
    /// Any word but `red`, `green` and `blue`.
    Unknown,
}

/// A handful stays within the three limits.
pub open spec fn within_limits(sample: Sample) -> bool {
    sample.red <= MAX_RED && sample.green <= MAX_GREEN && sample.blue <= MAX_BLUE
}

/// Every handful of the game stays within the limits.
pub open spec fn possible(game: GameView) -> bool {
    forall|i: int| 0 <= i < game.samples.len() ==> within_limits(#[trigger] game.samples[i])
}

/// The numbers of the possible games, in the order of the games.
pub open spec fn valid_ids(games: Seq<Game>) -> Seq<u32>
    decreases games.len(),
{
    if games.len() == 0 {
        Seq::empty()
    } else if possible(games.last()@) {
        valid_ids(games.drop_last()).push(games.last().id)
    } else {
        valid_ids(games.drop_last())
    }
}

/// For each colour the most cubes of it that any of the handfuls shows.
pub open spec fn peak(samples: Seq<Sample>) -> Sample
    decreases samples.len(),
{
    if samples.len() == 0 {
        Sample { red: 0, green: 0, blue: 0 }
    } else {
        let p = peak(samples.drop_last());
        let s = samples.last();
        Sample {
            red: if s.red > p.red {
                s.red
            } else {
                p.red
            },
            green: if s.green > p.green {
                s.green
            } else {
                p.green
            },
            blue: if s.blue > p.blue {
                s.blue
            } else {
                p.blue
            },
        }
    }
}

/// The power of a game: the product of the fewest cubes of each colour that
/// make all its handfuls possible.
pub open spec fn power(game: GameView) -> nat {
    let p = peak(game.samples);
    (p.red as nat) * (p.green as nat) * (p.blue as nat)
}

/// Whether every handful of the game stays within the limits.
pub fn valid_game(game: &Game) -> (b: bool)
    ensures
        b == possible(game@),
{
    let mut i: usize = 0;
    while i < game.samples.len()
        invariant
            i <= game.samples@.len(),
            forall|j: int| 0 <= j < i ==> within_limits(#[trigger] game.samples@[j]),
        decreases game.samples@.len() - i,
    {
        let sample = &game.samples[i];
        if !(sample.red <= MAX_RED && sample.green <= MAX_GREEN && sample.blue <= MAX_BLUE) {
            assert(!within_limits(game@.samples[i as int]));
            return false;
        }
        i += 1;
    }
    true
}

/// The numbers of the possible games, in the order of the games.
pub fn get_valid_ids(games: &[Game]) -> (ids: Vec<u32>)
    ensures
        ids@ == valid_ids(games@),
{
    let mut ids: Vec<u32> = Vec::new();
    let mut i: usize = 0;
    proof {
        assert(games@.take(0) == Seq::<Game>::empty());
    }
    while i < games.len()
        invariant
            i <= games@.len(),
            ids@ == valid_ids(games@.take(i as int)),
        decreases games@.len() - i,
    {
        proof {
            assert(games@.take(i + 1).drop_last() == games@.take(i as int));
            assert(games@.take(i + 1).last() == games@[i as int]);
        }
        if valid_game(&games[i]) {
            ids.push(games[i].id);
        }
        i += 1;
    }
    proof {
        assert(games@.take(games@.len() as int) == games@);
    }
    ids
}

/// The power of one game, or nothing where it is too large for a `u32`.
pub fn game_power(game: &Game) -> (r: Option<u32>)
    ensures
        r is Some <==> power(game@) <= u32::MAX,
        r is Some ==> r->0 == power(game@),
{
    let mut red: u32 = 0;
    let mut green: u32 = 0;
    let mut blue: u32 = 0;
    let mut i: usize = 0;
    proof {
        assert(game.samples@.take(0) == Seq::<Sample>::empty());
    }
    while i < game.samples.len()
        invariant
            i <= game.samples@.len(),
            peak(game.samples@.take(i as int)) == (Sample { red, green, blue }),
        decreases game.samples@.len() - i,
    {
        proof {
            assert(game.samples@.take(i + 1).drop_last() == game.samples@.take(i as int));
            assert(game.samples@.take(i + 1).last() == game.samples@[i as int]);
        }
        let sample = &game.samples[i];
        if sample.red > red {
            red = sample.red;
        }
        if sample.green > green {
            green = sample.green;
        }
        if sample.blue > blue {
            blue = sample.blue;
        }
        i += 1;
    }
    proof {
        assert(game.samples@.take(game.samples@.len() as int) == game.samples@);
        assert(red * green * blue <= 0xffff_ffff * 0xffff_ffff * 0xffff_ffff) by (nonlinear_arith)
            requires
                0 <= red <= 0xffff_ffff,
                0 <= green <= 0xffff_ffff,
                0 <= blue <= 0xffff_ffff,
        ;
        assert(red * green <= 0xffff_ffff * 0xffff_ffff) by (nonlinear_arith)
            requires
                0 <= red <= 0xffff_ffff,
                0 <= green <= 0xffff_ffff,
        ;
    }
    let product: u128 = (red as u128) * (green as u128) * (blue as u128);
    if product <= u32::MAX as u128 {
        Some(product as u32)
    } else {
        None
    }
}

/// The power of each game, in the order of the games, or nothing where one of
/// them is too large for a `u32`.
pub fn get_game_powers(games: &[Game]) -> (r: Option<Vec<u32>>)
    ensures
        r is Some <==> forall|i: int| 0 <= i < games@.len() ==> power(#[trigger] games@[i]@) <= u32::MAX,
        r is Some ==> r->0@.len() == games@.len() && forall|i: int|
            0 <= i < games@.len() ==> #[trigger] r->0@[i] == power(games@[i]@),
{
    let mut powers: Vec<u32> = Vec::new();
    let mut i: usize = 0;
    while i < games.len()
        invariant
            i <= games@.len(),
            powers@.len() == i,
            forall|j: int| 0 <= j < i ==> #[trigger] powers@[j] == power(games@[j]@),
        decreases games@.len() - i,
    {
        match game_power(&games[i]) {
            Some(p) => {
                powers.push(p);
            },
            None => {
                assert(!(power(games@[i as int]@) <= u32::MAX));
                return None;
            },
        }
        i += 1;
    }
    proof {
        assert forall|j: int| 0 <= j < games@.len() implies power(#[trigger] games@[j]@)
            <= u32::MAX by {
            assert(powers@[j] == power(games@[j]@));
        }
    }
    Some(powers)
}

/// The colour that a word names.
pub open spec fn colour(word: Seq<char>) -> Colour {
    if word == "red"@ {
        Colour::Red
    } else if word == "green"@ {
        Colour::Green
    } else if word == "blue"@ {
        Colour::Blue
    } else {
        Colour::Unknown
    }
}

/// Some cubes of one colour: a number, a space and a word of letters.
pub open spec fn draw(s: Seq<char>) -> Option<((u32, Colour), Seq<char>)> {
    match number(s, u32::MAX as nat) {
        Some((count, s1)) => match after_tag(s1, " "@) {
            Some(s2) => {
                let k = run_len(s2, CharClass::Alpha) as int;
                if k > 0 {
                    Some(((count as u32, colour(s2.take(k))), s2.skip(k)))
                } else {
                    None
                }
            },
            None => None,
        },
        None => None,
    }
}

/// The parser of one `draw`.
pub open spec fn draw_parser() -> spec_fn(Seq<char>) -> Option<((u32, Colour), Seq<char>)> {
    |s: Seq<char>| draw(s)
}

/// The parser of the separator between the draws of a handful.
pub open spec fn comma_parser() -> spec_fn(Seq<char>) -> Option<Seq<char>> {
    |s: Seq<char>| after_tag(s, ", "@)
}

/// The parser of the separator between the handfuls of a game.
pub open spec fn semicolon_parser() -> spec_fn(Seq<char>) -> Option<Seq<char>> {
    |s: Seq<char>| after_tag(s, "; "@)
}

/// The draws of one handful, with `, ` between them.
pub open spec fn draws(s: Seq<char>) -> Option<(Seq<(u32, Colour)>, Seq<char>)> {
    list1(draw_parser(), comma_parser(), s)
}

/// The parser of the draws of one handful.
pub open spec fn draws_parser() -> spec_fn(Seq<char>) -> Option<(Seq<(u32, Colour)>, Seq<char>)> {
    |s: Seq<char>| draws(s)
}

/// A handful with one more draw, if the colour is known and the cubes of
/// that colour still fit a `u32`.
pub open spec fn add_draw(sample: Option<Sample>, d: (u32, Colour)) -> Option<Sample> {
    match sample {
        Some(t) => match d.1 {
            Colour::Red => if t.red + d.0 <= u32::MAX {
                Some(Sample { red: (t.red + d.0) as u32, green: t.green, blue: t.blue })
            } else {
                None
            },
            Colour::Green => if t.green + d.0 <= u32::MAX {
                Some(Sample { red: t.red, green: (t.green + d.0) as u32, blue: t.blue })
            } else {
                None
            },
            Colour::Blue => if t.blue + d.0 <= u32::MAX {
                Some(Sample { red: t.red, green: t.green, blue: (t.blue + d.0) as u32 })
            } else {
                None
            },
            Colour::Unknown => None,
        },
        None => None,
    }
}

/// The handful that the draws add up to, if all colours are known and the
/// cubes of each colour fit a `u32`.
pub open spec fn tally(ds: Seq<(u32, Colour)>) -> Option<Sample>
    decreases ds.len(),
{
    if ds.len() == 0 {
        Some(Sample { red: 0, green: 0, blue: 0 })
    } else {
        add_draw(tally(ds.drop_last()), ds.last())
    }
}

/// The handfuls that the lists of draws add up to, if each of them adds up.
pub open spec fn tallies(dss: Seq<Seq<(u32, Colour)>>) -> Option<Seq<Sample>> {
    if forall|i: int| 0 <= i < dss.len() ==> tally(#[trigger] dss[i]) is Some {
        Some(Seq::new(dss.len(), |i: int| tally(dss[i])->0))
    } else {
        None
    }
}

/// The handfuls of a game, with `; ` between them.
pub open spec fn samples(s: Seq<char>) -> Option<(Seq<Sample>, Seq<char>)> {
    match list1(draws_parser(), semicolon_parser(), s) {
        Some((dss, rest)) => match tallies(dss) {
            Some(list) => Some((list, rest)),
            None => None,
        },
        None => None,
    }
}

/// The head of a game line: `Game ` and the game's number.
pub open spec fn game_id(s: Seq<char>) -> Option<(u32, Seq<char>)> {
    match after_tag(s, "Game "@) {
        Some(s1) => match number(s1, u32::MAX as nat) {
            Some((id, rest)) => Some((id as u32, rest)),
            None => None,
        },
        None => None,
    }
}

/// The game that a line describes: its head, `: ` and its handfuls. What
/// follows the last handful is not read.
pub open spec fn game_line(s: Seq<char>) -> Option<GameView> {
    match game_id(s) {
        Some((id, s1)) => match after_tag(s1, ": "@) {
            Some(s2) => match samples(s2) {
                Some((list, rest)) => Some(GameView { id, samples: list }),
                None => None,
            },
            None => None,
        },
        None => None,
    }
}

/// The colour that `word` names.
pub fn colour_of(word: &str) -> (c: Colour)
    ensures
        c == colour(word@),
{
    if is_word(word, "red") {
        Colour::Red
    } else if is_word(word, "green") {
        Colour::Green
    } else if is_word(word, "blue") {
        Colour::Blue
    } else {
        Colour::Unknown
    }
}

/// Reads one draw, and gives what follows it.
pub fn parse_draw<'a>(input: &'a str) -> (r: Option<((u32, Colour), &'a str)>)
    ensures
        shows(r, draw(input@)),
{
    let (count, s1) = match parse_number(input, u32::MAX as usize) {
        Some(x) => x,
        None => {
            return None;
        },
    };
    let s2 = match tag(s1, " ") {
        Some(x) => x,
        None => {
            return None;
        },
    };
    match alpha1(s2) {
        Some((word, rest)) => Some(((count as u32, colour_of(word)), rest)),
        None => None,
    }
}

/// Adds one draw to a handful.
pub fn with_draw(sample: Option<Sample>, d: (u32, Colour)) -> (r: Option<Sample>)
    ensures
        r == add_draw(sample, d),
{
    let t = match sample {
        Some(t) => t,
        None => {
            return None;
        },
    };
    match d.1 {
        Colour::Red => if d.0 <= u32::MAX - t.red {
            Some(Sample { red: t.red + d.0, green: t.green, blue: t.blue })
        } else {
            None
        },
        Colour::Green => if d.0 <= u32::MAX - t.green {
            Some(Sample { red: t.red, green: t.green + d.0, blue: t.blue })
        } else {
            None
        },
        Colour::Blue => if d.0 <= u32::MAX - t.blue {
            Some(Sample { red: t.red, green: t.green, blue: t.blue + d.0 })
        } else {
            None
        },
        Colour::Unknown => None,
    }
}

/// A draw takes up at least three characters.
proof fn lemma_draw_consumes(s: Seq<char>)
    ensures
        draw(s) is Some ==> (draw(s)->0).1.len() < s.len(),
{
    if draw(s) is Some {
        lemma_run_len(s, CharClass::Digit);
        let s1 = (number(s, u32::MAX as nat)->0).1;
        let s2 = after_tag(s1, " "@)->0;
        lemma_run_len(s2, CharClass::Alpha);
    }
}

/// The draws of a handful take up at least three characters.
proof fn lemma_draws_consume(s: Seq<char>)
    ensures
        draws(s) is Some ==> (draws(s)->0).1.len() < s.len(),
{
    if draws(s) is Some {
        lemma_draw_consumes(s);
        lemma_list_more_shrinks(
            draw_parser(),
            comma_parser(),
            (draw(s)->0).1,
            seq![(draw(s)->0).0],
        );
    }
}

/// Reads the draws of one handful and adds them up. Gives the handful, or
/// nothing in its place where a colour is unknown or the cubes of a colour do
/// not fit, and what follows the draws.
pub fn parse_sample<'a>(input: &'a str) -> (r: Option<(Option<Sample>, &'a str)>)
    ensures
        match r {
            Some((sample, rest)) => draws(input@) is Some && (draws(input@)->0).1 == rest@
                && sample == tally((draws(input@)->0).0),
            None => draws(input@) is None,
        },
{
    let (first, after_first) = match parse_draw(input) {
        Some(x) => x,
        None => {
            return None;
        },
    };
    let ghost mut ds: Seq<(u32, Colour)> = seq![first];
    proof {
        assert(ds.drop_last() == Seq::<(u32, Colour)>::empty());
        assert(tally(ds.drop_last()) == Some(Sample { red: 0, green: 0, blue: 0 }));
        assert(ds.last() == first);
    }
    let mut sample = with_draw(Some(Sample { red: 0, green: 0, blue: 0 }), first);
    let mut rest = after_first;
    loop
        invariant
            draws(input@) == Some(list_more(draw_parser(), comma_parser(), rest@, ds)),
            sample == tally(ds),
        decreases rest@.len(),
    {
        let after_sep = match tag(rest, ", ") {
            Some(t) => t,
            None => {
                return Some((sample, rest));
            },
        };
        match parse_draw(after_sep) {
            Some((d, next)) => {
                proof {
                    lemma_draw_consumes(after_sep@);
                    assert(ds.push(d).drop_last() == ds);
                    ds = ds.push(d);
                }
                sample = with_draw(sample, d);
                rest = next;
            },
            None => {
                return Some((sample, rest));
            },
        }
    }
}

/// Reads the handfuls of a game, and gives what follows the last.
pub fn parse_samples<'a>(input: &'a str) -> (r: Option<(Vec<Sample>, &'a str)>)
    ensures
        shows_list(r, samples(input@)),
{
    let (first, after_first) = match parse_sample(input) {
        Some(x) => x,
        None => {
            return None;
        },
    };
    let ghost mut dss: Seq<Seq<(u32, Colour)>> = seq![(draws(input@)->0).0];
    let first = match first {
        Some(t) => t,
        None => {
            proof {
                lemma_list_more_extends(draws_parser(), semicolon_parser(), after_first@, dss);
                let all = list_more(draws_parser(), semicolon_parser(), after_first@, dss).0;
                assert(all[0] == dss[0]);
            }
            return None;
        },
    };
    let mut list: Vec<Sample> = Vec::new();
    list.push(first);
    let mut rest = after_first;
    proof {
        assert(tallies(dss)->0 =~= list@);
    }
    loop
        invariant
            list1(draws_parser(), semicolon_parser(), input@) == Some(
                list_more(draws_parser(), semicolon_parser(), rest@, dss),
            ),
            tallies(dss) == Some(list@),
        decreases rest@.len(),
    {
        let after_sep = match tag(rest, "; ") {
            Some(t) => t,
            None => {
                return Some((list, rest));
            },
        };
        match parse_sample(after_sep) {
            Some((sample, next)) => {
                let ghost ds = (draws(after_sep@)->0).0;
                proof {
                    lemma_draws_consume(after_sep@);
                }
                match sample {
                    Some(t) => {
                        proof {
                            assert forall|i: int| 0 <= i < dss.push(ds).len() implies tally(
                                #[trigger] dss.push(ds)[i],
                            ) is Some by {
                                if i < dss.len() {
                                    assert(dss.push(ds)[i] == dss[i]);
                                }
                            }
                            assert(tallies(dss.push(ds))->0 =~= list@.push(t));
                            dss = dss.push(ds);
                        }
                        list.push(t);
                        rest = next;
                    },
                    None => {
                        proof {
                            let grown = dss.push(ds);
                            lemma_list_more_extends(
                                draws_parser(),
                                semicolon_parser(),
                                next@,
                                grown,
                            );
                            let all = list_more(draws_parser(), semicolon_parser(), next@, grown).0;
                            assert(all[dss.len() as int] == grown[dss.len() as int]);
                        }
                        return None;
                    },
                }
            },
            None => {
                return Some((list, rest));
            },
        }
    }
}

/// Reads the head of a game line, and gives the game's number and what
/// follows it.
pub fn parse_id<'a>(input: &'a str) -> (r: Option<(u32, &'a str)>)
    ensures
        shows(r, game_id(input@)),
{
    match tag(input, "Game ") {
        Some(rest) => match parse_number(rest, u32::MAX as usize) {
            Some((id, rest)) => Some((id as u32, rest)),
            None => None,
        },
        None => None,
    }
}

/// Reads the game of one line.
pub fn parse_line(input: &str) -> (r: Option<Game>)
    ensures
        match r {
            Some(game) => game_line(input@) == Some(game@),
            None => game_line(input@) is None,
        },
{
    let (id, s1) = match parse_id(input) {
        Some(x) => x,
        None => {
            return None;
        },
    };
    let s2 = match tag(s1, ": ") {
        Some(x) => x,
        None => {
            return None;
        },
    };
    match parse_samples(s2) {
        Some((samples, _)) => Some(Game { id, samples }),
        None => None,
    }
}

/// Reads the games of a text, one on each line, or nothing where a line is no
/// game line.
pub fn parse_input(input: &str) -> (r: Option<Vec<Game>>)
    ensures
        r is Some <==> forall|i: int|
            0 <= i < lines(input@).len() ==> game_line(#[trigger] lines(input@)[i]) is Some,
        r is Some ==> r->0@.len() == lines(input@).len() && forall|i: int|
            0 <= i < lines(input@).len() ==> Some((#[trigger] r->0@[i])@) == game_line(
                lines(input@)[i],
            ),
{
    let text = to_chars(input);
    let spans = line_spans(&text);
    let ghost rows = lines(input@);
    let mut games: Vec<Game> = Vec::new();
    let mut i: usize = 0;
    while i < spans.len()
        invariant
            text@ == input@,
            rows == lines(input@),
            rows == cut(text@, spans@),
            spans_within(spans@, text@.len() as int),
            i <= spans@.len(),
            games@.len() == i,
            forall|k: int| 0 <= k < i ==> Some((#[trigger] games@[k])@) == game_line(rows[k]),
        decreases spans@.len() - i,
    {
        let (start, end) = spans[i];
        let line = input.substring_char(start, end);
        assert(line@ == rows[i as int]);
        match parse_line(line) {
            Some(game) => {
                games.push(game);
            },
            None => {
                return None;
            },
        }
        i += 1;
    }
    proof {
        assert(rows.len() == spans@.len());
        assert forall|k: int| 0 <= k < rows.len() implies game_line(#[trigger] rows[k]) is Some by {
            assert(Some(games@[k]@) == game_line(rows[k]));
        }
    }
    Some(games)
}

} // verus!
