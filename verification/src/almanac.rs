use crate::lex::{
    after_line_ending, after_run, after_tag, blank_parser, lemma_list_more_shrinks,
    lemma_run_len, line_ending, list1, list_more, multispace0, multispace1, parse_number,
    parse_size_list, run_len, shows, shows_list, size, size_list, space1, tag, take_word,
    CharClass,
};
use crate::pieces::{covered, locations, lowest, reaches};
use vstd::prelude::*;

verus! {

/// One interval of a map: the `length` values from `source_start` on go to
/// the values from `dest_start` on, in the same order.
#[derive(Clone, Copy, Debug, PartialEq, Eq, Structural)]
pub struct MapRange {
    pub source_start: usize,
    pub dest_start: usize,
    pub length: usize,
}

/// One named map: its intervals in the order in which they were written.
#[derive(Debug)]
pub struct Stage {
    pub name: String,
    pub map_ranges: Vec<MapRange>,
}

/// What a `Stage` holds.
pub struct StageView {
    pub name: Seq<char>,
    pub ranges: Seq<MapRange>,
}

impl MapRange {
    /// `v` lies in the source interval.
    pub open spec fn covers(&self, v: int) -> bool {
        self.source_start <= v < self.source_start + self.length
    }

    /// Where the interval sends `v`.
    pub open spec fn image(&self, v: int) -> int {
        self.dest_start + (v - self.source_start)
    }

    /// Every `usize` that the interval covers goes to a `usize`.
    pub open spec fn fits(&self) -> bool {
        forall|v: usize| self.covers(v as int) ==> self.image(v as int) <= usize::MAX
    }

    /// Whether the interval sends every `usize` that it covers to a `usize`.
    pub fn check_fits(&self) -> (b: bool)
        ensures
            b == self.fits(),
    {
        if self.length == 0 {
            return true;
        }
        let room = usize::MAX - self.source_start;
        let reach = if self.length - 1 < room {
            self.length - 1
        } else {
            room
        };
        let b = self.dest_start <= usize::MAX - reach;
        proof {
            let top = (self.source_start + reach) as usize;
            assert(self.covers(top as int));
            assert(self.image(top as int) == self.dest_start + reach);
        }
        b
    }
}

/// Where a list of intervals sends `v`: where the first interval that covers
/// it does, and to itself if none covers it.
pub open spec fn ranges_value(ranges: Seq<MapRange>, v: int) -> int
    decreases ranges.len(),
{
    if ranges.len() == 0 {
        v
    } else if ranges[0].covers(v) {
        ranges[0].image(v)
    } else {
        ranges_value(ranges.drop_first(), v)
    }
}

/// All intervals of the list fit.
pub open spec fn ranges_fit(ranges: Seq<MapRange>) -> bool {
    forall|i: int| 0 <= i < ranges.len() ==> (#[trigger] ranges[i]).fits()
}

impl View for Stage {
    type V = StageView;

    open spec fn view(&self) -> StageView {
        StageView { name: self.name@, ranges: self.map_ranges@ }
    }
}

impl Stage {
    /// All intervals of the map fit.
    pub open spec fn wf(&self) -> bool {
        ranges_fit(self.map_ranges@)
    }

    /// Where the map sends `v`.
    pub open spec fn apply(&self, v: int) -> int {
        ranges_value(self.map_ranges@, v)
    }
}

/// Where a sequence of maps sends `v`: the last map applied to what the maps
/// before it make of `v`.
pub open spec fn pipeline(maps: Seq<Stage>, v: int) -> int
    decreases maps.len(),
{
    if maps.len() == 0 {
        v
    } else {
        maps.last().apply(pipeline(maps.drop_last(), v))
    }
}

/// All maps of the sequence are well formed.
pub open spec fn maps_wf(maps: Seq<Stage>) -> bool {
    forall|i: int| 0 <= i < maps.len() ==> (#[trigger] maps[i]).wf()
}

/// `v` lies in the range that the seeds at `2 * i` and `2 * i + 1` declare:
/// the first is where it starts, the second how long it is.
pub open spec fn in_pair(seeds: Seq<usize>, i: int, v: int) -> bool {
    &&& 0 <= i
    &&& 2 * i + 1 < seeds.len()
    &&& seeds[2 * i] <= v < seeds[2 * i] + seeds[2 * i + 1]
}

/// `v` lies in one of the ranges that the seeds declare pair by pair. A last
/// seed without a partner declares nothing.
pub open spec fn in_seed_ranges(seeds: Seq<usize>, v: int) -> bool {
    exists|i: int| #[trigger] in_pair(seeds, i, v)
}

/// The seed line: `seeds: ` and a list of numbers.
pub open spec fn seeds(s: Seq<char>) -> Option<(Seq<usize>, Seq<char>)> {
    match after_tag(s, "seeds: "@) {
        Some(t) => size_list(t),
        None => None,
    }
}

/// An interval: where it leads, where it starts and how long it is, three
/// numbers with spaces or tabs between them.
pub open spec fn interval(s: Seq<char>) -> Option<(MapRange, Seq<char>)> {
    match size(s) {
        Some((dest_start, s1)) => match after_run(s1, CharClass::Space) {
            Some(s2) => match size(s2) {
                Some((source_start, s3)) => match after_run(s3, CharClass::Space) {
                    Some(s4) => match size(s4) {
                        Some((length, rest)) => Some(
                            (MapRange { source_start, dest_start, length }, rest),
                        ),
                        None => None,
                    },
                    None => None,
                },
                None => None,
            },
            None => None,
        },
        None => None,
    }
}

/// The parser of one interval.
pub open spec fn interval_parser() -> spec_fn(Seq<char>) -> Option<(MapRange, Seq<char>)> {
    |s: Seq<char>| interval(s)
}

/// The parser of one line ending.
pub open spec fn line_ending_parser() -> spec_fn(Seq<char>) -> Option<Seq<char>> {
    |s: Seq<char>| after_line_ending(s)
}

/// The head line of a map: a name without blanks, then ` map:` and a line
/// feed.
pub open spec fn map_name(s: Seq<char>) -> Option<(Seq<char>, Seq<char>)> {
    let n = run_len(s, CharClass::Word) as int;
    match after_tag(s.skip(n), " map:\n"@) {
        Some(rest) => Some((s.take(n), rest)),
        None => None,
    }
}

/// A map: its head line and its intervals, one on each line.
pub open spec fn stage(s: Seq<char>) -> Option<(StageView, Seq<char>)> {
    match map_name(s) {
        Some((name, t)) => match list1(interval_parser(), line_ending_parser(), t) {
            Some((ranges, rest)) => Some((StageView { name, ranges }, rest)),
            None => None,
        },
        None => None,
    }
}

/// The parser of one map.
pub open spec fn stage_parser() -> spec_fn(Seq<char>) -> Option<(StageView, Seq<char>)> {
    |s: Seq<char>| stage(s)
}

/// The whole text: the seed line, then the maps, with blanks before each
/// map, and nothing but blanks after the last.
pub open spec fn almanac(s: Seq<char>) -> Option<(Seq<usize>, Seq<StageView>)> {
    match seeds(s) {
        Some((seeds, s1)) => match after_run(s1, CharClass::Blank) {
            Some(s2) => match list1(stage_parser(), blank_parser(), s2) {
                Some((stages, rest)) => if run_len(rest, CharClass::Blank) == rest.len() {
                    Some((seeds, stages))
                } else {
                    None
                },
                None => None,
            },
            None => None,
        },
        None => None,
    }
}

/// What a sequence of maps holds.
pub open spec fn views(maps: Seq<Stage>) -> Seq<StageView> {
    maps.map_values(|m: Stage| m@)
}

/// A value that no interval covers stays as it is.
pub proof fn lemma_uncovered_stays(ranges: Seq<MapRange>, v: int)
    requires
        forall|i: int| 0 <= i < ranges.len() ==> !(#[trigger] ranges[i]).covers(v),
    ensures
        ranges_value(ranges, v) == v,
    decreases ranges.len(),
{
    if ranges.len() > 0 {
        assert(!ranges[0].covers(v));
        let rest = ranges.drop_first();
        assert forall|i: int| 0 <= i < rest.len() implies !(#[trigger] rest[i]).covers(v) by {
            assert(rest[i] == ranges[i + 1]);
        }
        lemma_uncovered_stays(rest, v);
    }
}

/// A value goes where the first interval that covers it sends it.
pub proof fn lemma_first_cover(ranges: Seq<MapRange>, v: int, k: int)
    requires
        0 <= k < ranges.len(),
        ranges[k].covers(v),
        forall|i: int| 0 <= i < k ==> !(#[trigger] ranges[i]).covers(v),
    ensures
        ranges_value(ranges, v) == ranges[k].image(v),
    decreases k,
{
    if k > 0 {
        assert(!ranges[0].covers(v));
        let rest = ranges.drop_first();
        assert forall|i: int| 0 <= i < k - 1 implies !(#[trigger] rest[i]).covers(v) by {
            assert(rest[i] == ranges[i + 1]);
        }
        lemma_first_cover(rest, v, k - 1);
    }
}

/// A value that exactly one interval covers goes where that interval sends
/// it, wherever in the list the interval stands.
pub proof fn lemma_single_cover(ranges: Seq<MapRange>, v: int, k: int)
    requires
        0 <= k < ranges.len(),
        ranges[k].covers(v),
        forall|i: int| 0 <= i < ranges.len() && i != k ==> !(#[trigger] ranges[i]).covers(v),
    ensures
        ranges_value(ranges, v) == ranges[k].image(v),
{
    lemma_first_cover(ranges, v, k);
}

/// Maps applied one after another: what the sequence `first + second` makes
/// of a value is what `second` makes of what `first` makes of it.
pub proof fn lemma_pipeline_concat(first: Seq<Stage>, second: Seq<Stage>, v: int)
    ensures
        pipeline(first + second, v) == pipeline(second, pipeline(first, v)),
    decreases second.len(),
{
    if second.len() == 0 {
        assert(first + second == first);
    } else {
        assert((first + second).drop_last() == first + second.drop_last());
        assert((first + second).last() == second.last());
        lemma_pipeline_concat(first, second.drop_last(), v);
    }
}

/// A single map as a sequence does what the map does.
pub proof fn lemma_pipeline_single(map: Stage, v: int)
    ensures
        pipeline(seq![map], v) == map.apply(v),
{
    assert(seq![map].drop_last() == Seq::<Stage>::empty());
    assert(pipeline(Seq::<Stage>::empty(), v) == v);
}

/// Whether every interval of every map sends what it covers to a `usize`.
pub fn check_maps(maps: &[Stage]) -> (b: bool)
    ensures
        b == maps_wf(maps@),
{
    let mut i: usize = 0;
    while i < maps.len()
        invariant
            i <= maps@.len(),
            forall|j: int| 0 <= j < i ==> (#[trigger] maps@[j]).wf(),
        decreases maps@.len() - i,
    {
        let map = &maps[i];
        let mut k: usize = 0;
        while k < map.map_ranges.len()
            invariant
                i < maps@.len(),
                *map == maps@[i as int],
                k <= map.map_ranges@.len(),
                forall|j: int| 0 <= j < k ==> (#[trigger] map.map_ranges@[j]).fits(),
            decreases map.map_ranges@.len() - k,
        {
            if !map.map_ranges[k].check_fits() {
                assert(!map.map_ranges@[k as int].fits());
                assert(!maps@[i as int].wf());
                return false;
            }
            k += 1;
        }
        i += 1;
    }
    true
}

/// Where `map` sends `val`: where its first interval that covers `val` does,
/// and to itself if none covers it.
pub fn map_value(val: usize, map: &Stage) -> (r: usize)
    requires
        map.wf(),
    ensures
        r == map.apply(val as int),
        (forall|i: int| 0 <= i < map.map_ranges@.len() ==> !(#[trigger] map.map_ranges@[i]).covers(
            val as int,
        )) ==> r == val,
        forall|k: int|
            0 <= k < map.map_ranges@.len() && (#[trigger] map.map_ranges@[k]).covers(val as int) && (
            forall|i: int|
                0 <= i < map.map_ranges@.len() && i != k ==> !(#[trigger] map.map_ranges@[i]).covers(
                    val as int,
                )) ==> r == map.map_ranges@[k].image(val as int),
{
    let ghost ranges = map.map_ranges@;
    proof {
        if forall|i: int| 0 <= i < ranges.len() ==> !(#[trigger] ranges[i]).covers(val as int) {
            lemma_uncovered_stays(ranges, val as int);
        }
        assert forall|k: int|
            0 <= k < ranges.len() && (#[trigger] ranges[k]).covers(val as int) && (forall|i: int|
                0 <= i < ranges.len() && i != k ==> !(#[trigger] ranges[i]).covers(
                    val as int,
                )) implies ranges_value(ranges, val as int) == ranges[k].image(val as int) by {
            lemma_single_cover(ranges, val as int, k);
        }
    }
    let mut i: usize = 0;
    while i < map.map_ranges.len()
        invariant
            i <= ranges.len(),
            ranges == map.map_ranges@,
            ranges_fit(ranges),
            forall|j: int| 0 <= j < i ==> !(#[trigger] ranges[j]).covers(val as int),
        decreases ranges.len() - i,
    {
        let range = &map.map_ranges[i];
        if val >= range.source_start && val - range.source_start < range.length {
            proof {
                lemma_first_cover(ranges, val as int, i as int);
                assert(*range == ranges[i as int]);
                assert(ranges[i as int].fits());
                assert(range.covers(val as int));
                assert(range.image(val as int) <= usize::MAX);
            }
            return range.dest_start + (val - range.source_start);
        }
        i += 1;
    }
    proof {
        lemma_uncovered_stays(ranges, val as int);
    }
    val
}

/// Where the maps, applied one after another, send `val`.
pub fn map_to_loc(val: usize, maps: &[Stage]) -> (r: usize)
    requires
        maps_wf(maps@),
    ensures
        r == pipeline(maps@, val as int),
{
    let mut dest = val;
    let mut i: usize = 0;
    proof {
        assert(maps@.take(0) == Seq::<Stage>::empty());
    }
    while i < maps.len()
        invariant
            i <= maps@.len(),
            maps_wf(maps@),
            dest == pipeline(maps@.take(i as int), val as int),
        decreases maps@.len() - i,
    {
        proof {
            assert(maps@.take(i + 1).drop_last() == maps@.take(i as int));
            assert(maps@.take(i + 1).last() == maps@[i as int]);
        }
        dest = map_value(dest, &maps[i]);
        i += 1;
    }
    proof {
        assert(maps@.take(maps@.len() as int) == maps@);
    }
    dest
}

/// Reads the seed line, and gives what follows it.
pub fn parse_seeds<'a>(input: &'a str) -> (r: Option<(Vec<usize>, &'a str)>)
    ensures
        shows_list(r, seeds(input@)),
{
    match tag(input, "seeds: ") {
        Some(rest) => parse_size_list(rest),
        None => None,
    }
}

/// Reads one number of an interval, and gives what follows it.
pub fn parse_value<'a>(input: &'a str) -> (r: Option<(usize, &'a str)>)
    ensures
        shows(r, size(input@)),
{
    parse_number(input, usize::MAX)
}

/// Reads one interval, and gives what follows it.
pub fn parse_map_range<'a>(input: &'a str) -> (r: Option<(MapRange, &'a str)>)
    ensures
        shows(r, interval(input@)),
{
    let (dest_start, s1) = match parse_value(input) {
        Some(x) => x,
        None => {
            return None;
        },
    };
    let s2 = match space1(s1) {
        Some(x) => x,
        None => {
            return None;
        },
    };
    let (source_start, s3) = match parse_value(s2) {
        Some(x) => x,
        None => {
            return None;
        },
    };
    let s4 = match space1(s3) {
        Some(x) => x,
        None => {
            return None;
        },
    };
    let (length, rest) = match parse_value(s4) {
        Some(x) => x,
        None => {
            return None;
        },
    };
    Some((MapRange { source_start, dest_start, length }, rest))
}

/// Reads the head line of a map, and gives the name and what follows the
/// line.
pub fn parse_map_name<'a>(input: &'a str) -> (r: Option<(&'a str, &'a str)>)
    ensures
        match r {
            Some((name, rest)) => map_name(input@) == Some((name@, rest@)),
            None => map_name(input@) is None,
        },
{
    let (name, after_name) = match take_word(input) {
        Some(x) => x,
        None => {
            return None;
        },
    };
    match tag(after_name, " map:\n") {
        Some(rest) => Some((name, rest)),
        None => None,
    }
}

/// An interval takes up at least five characters.
proof fn lemma_interval_consumes(s: Seq<char>)
    ensures
        interval(s) is Some ==> (interval(s)->0).1.len() < s.len(),
{
    if interval(s) is Some {
        let s1 = (size(s)->0).1;
        lemma_run_len(s, CharClass::Digit);
        lemma_run_len(s1, CharClass::Space);
        let s2 = after_run(s1, CharClass::Space)->0;
        let s3 = (size(s2)->0).1;
        lemma_run_len(s2, CharClass::Digit);
        lemma_run_len(s3, CharClass::Space);
        let s4 = after_run(s3, CharClass::Space)->0;
        lemma_run_len(s4, CharClass::Digit);
    }
}

/// A map takes up at least one character.
proof fn lemma_stage_consumes(s: Seq<char>)
    ensures
        stage(s) is Some ==> (stage(s)->0).1.len() < s.len(),
{
    if stage(s) is Some {
        lemma_run_len(s, CharClass::Word);
        let t = (map_name(s)->0).1;
        lemma_interval_consumes(t);
        lemma_list_more_shrinks(
            interval_parser(),
            line_ending_parser(),
            (interval(t)->0).1,
            seq![(interval(t)->0).0],
        );
    }
}

/// Reads one map, and gives what follows it.
pub fn parse_map<'a>(input: &'a str) -> (r: Option<(Stage, &'a str)>)
    ensures
        match r {
            Some((map, rest)) => stage(input@) == Some((map@, rest@)),
            None => stage(input@) is None,
        },
{
    let (name, after_name) = match parse_map_name(input) {
        Some(x) => x,
        None => {
            return None;
        },
    };
    let (first, after_first) = match parse_map_range(after_name) {
        Some(x) => x,
        None => {
            return None;
        },
    };
    let mut ranges: Vec<MapRange> = Vec::new();
    ranges.push(first);
    let mut rest = after_first;
    assert(ranges@ == seq![first]);
    loop
        invariant
            map_name(input@) == Some((name@, after_name@)),
            list1(interval_parser(), line_ending_parser(), after_name@) == Some(
                list_more(interval_parser(), line_ending_parser(), rest@, ranges@),
            ),
        decreases rest@.len(),
    {
        let after_sep = match line_ending(rest) {
            Some(t) => t,
            None => {
                return Some((Stage { name: name.to_owned(), map_ranges: ranges }, rest));
            },
        };
        match parse_map_range(after_sep) {
            Some((range, next)) => {
                proof {
                    lemma_interval_consumes(after_sep@);
                }
                ranges.push(range);
                rest = next;
            },
            None => {
                return Some((Stage { name: name.to_owned(), map_ranges: ranges }, rest));
            },
        }
    }
}

/// Reads the maps, and gives what follows the last.
pub fn parse_maps<'a>(input: &'a str) -> (r: Option<(Vec<Stage>, &'a str)>)
    ensures
        match r {
            Some((maps, rest)) => list1(stage_parser(), blank_parser(), input@) == Some(
                (views(maps@), rest@),
            ),
            None => list1(stage_parser(), blank_parser(), input@) is None,
        },
{
    let (first, after_first) = match parse_map(input) {
        Some(x) => x,
        None => {
            return None;
        },
    };
    let mut maps: Vec<Stage> = Vec::new();
    proof {
        assert(views(maps@.push(first)) == seq![first@]);
    }
    maps.push(first);
    let mut rest = after_first;
    loop
        invariant
            list1(stage_parser(), blank_parser(), input@) == Some(
                list_more(stage_parser(), blank_parser(), rest@, views(maps@)),
            ),
        decreases rest@.len(),
    {
        proof {
            lemma_run_len(rest@, CharClass::Blank);
        }
        let after_sep = match multispace1(rest) {
            Some(t) => t,
            None => {
                return Some((maps, rest));
            },
        };
        match parse_map(after_sep) {
            Some((map, next)) => {
                proof {
                    lemma_stage_consumes(after_sep@);
                    assert(views(maps@.push(map)) == views(maps@).push(map@));
                }
                maps.push(map);
                rest = next;
            },
            None => {
                return Some((maps, rest));
            },
        }
    }
}

/// Reads the seeds and the maps of a text, or nothing where the text is not
/// of that form.
pub fn parse_input(input: &str) -> (r: Option<(Vec<usize>, Vec<Stage>)>)
    ensures
        match r {
            Some((seeds, maps)) => almanac(input@) == Some((seeds@, views(maps@))),
            None => almanac(input@) is None,
        },
{
    let (seeds, s1) = match parse_seeds(input) {
        Some(x) => x,
        None => {
            return None;
        },
    };
    let s2 = match multispace1(s1) {
        Some(x) => x,
        None => {
            return None;
        },
    };
    let (maps, s3) = match parse_maps(s2) {
        Some(x) => x,
        None => {
            return None;
        },
    };
    let s4 = match multispace0(s3) {
        Some(x) => x,
        None => {
            return None;
        },
    };
    proof {
        lemma_run_len(s3@, CharClass::Blank);
    }
    if s4.is_empty() {
        Some((seeds, maps))
    } else {
        None
    }
}

/// The lowest value that the maps send one of the seeds to.
pub fn get_min_location(input: &(Vec<usize>, Vec<Stage>)) -> (r: usize)
    requires
        input.0@.len() > 0,
        maps_wf(input.1@),
    ensures
        exists|i: int| 0 <= i < input.0@.len() && r == pipeline(input.1@, #[trigger] input.0@[i] as int),
        forall|i: int| 0 <= i < input.0@.len() ==> r <= pipeline(input.1@, #[trigger] input.0@[i] as int),
{
    let seeds = &input.0;
    let maps = &input.1;
    let mut best = map_to_loc(seeds[0], maps.as_slice());
    let mut i: usize = 1;
    while i < seeds.len()
        invariant
            1 <= i <= seeds@.len(),
            maps_wf(maps@),
            exists|j: int| 0 <= j < i && best == pipeline(maps@, #[trigger] seeds@[j] as int),
            forall|j: int| 0 <= j < i ==> best <= pipeline(maps@, #[trigger] seeds@[j] as int),
        decreases seeds@.len() - i,
    {
        let loc = map_to_loc(seeds[i], maps.as_slice());
        if loc < best {
            best = loc;
        }
        i += 1;
    }
    best
}

/// The lowest value that the maps send a seed to, where the seeds are read
/// pair by pair as ranges of seeds: `usize::MAX` if the ranges hold no seed
/// at all. The ranges are sent through the maps as a whole, cut where a map
/// treats their parts differently; the result is that of trying every seed.
pub fn get_lowest_loc(input: &(Vec<usize>, Vec<Stage>)) -> (r: usize)
    requires
        maps_wf(input.1@),
    ensures
        forall|v: usize| in_seed_ranges(input.0@, v as int) ==> r <= pipeline(input.1@, v as int),
        (exists|v: usize| in_seed_ranges(input.0@, v as int) && r == pipeline(input.1@, v as int))
            || (r == usize::MAX && forall|v: usize| !in_seed_ranges(input.0@, v as int)),
{
    let seeds = &input.0;
    let maps = &input.1;
    let pieces = locations(seeds, maps.as_slice());
    let best = lowest(&pieces);
    proof {
        assert forall|v: usize| in_seed_ranges(seeds@, v as int) implies best <= pipeline(
            maps@,
            v as int,
        ) by {
            let w = pipeline(maps@, v as int);
            assert(reaches(seeds@, maps@, v as int, w));
            assert(covered(pieces@, w));
        }
        if covered(pieces@, best as int) {
            let v = choose|v: int| #[trigger] reaches(seeds@, maps@, v, best as int);
            let seed = v as usize;
            assert(in_seed_ranges(seeds@, seed as int) && best == pipeline(maps@, seed as int));
        } else {
            assert forall|v: usize| !in_seed_ranges(seeds@, v as int) by {
                if in_seed_ranges(seeds@, v as int) {
                    let w = pipeline(maps@, v as int);
                    assert(reaches(seeds@, maps@, v as int, w));
                    assert(covered(pieces@, w));
                }
            }
        }
    }
    best
}

} // verus!
