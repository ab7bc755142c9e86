use crate::capped::{add_capped, cap};
use crate::digits::{
    all_digits, decimal, digit_of, is_digit, is_digit_char, lemma_decimal_skip,
    lemma_trailing_run, trailing_digits,
};
use crate::text::{cut, line_spans, lines, spans_within, to_chars};
use vstd::prelude::*;

verus! {

/// One cell of a schematic.
#[derive(Clone, Copy, Debug, PartialEq, Eq, Structural)]
pub enum Part {
    /// A digit of the number that the number table holds at this index.
    NumberIdx(usize),
    /// Any character that is neither a digit nor a dot.
    Symbol(char),
    /// A dot.
    Empty,
}

/// A rectangular grid of cells, stored row by row, with the table of the
/// numbers that its digit cells refer to.
pub struct Schematic {
    pub data: Vec<Part>,
    pub part_numbers: Vec<u32>,
    pub width: usize,
    pub height: usize,
}

/// The numbers written in a row, from left to right: one for each maximal run
/// of digits.
pub open spec fn row_numbers(row: Seq<char>) -> Seq<nat>
    decreases row.len(),
{
    let a = row.len() - trailing_digits(row);
    if row.len() == 0 {
        Seq::empty()
    } else if !is_digit(row.last()) {
        row_numbers(row.drop_last())
    } else if 0 <= a < row.len() {
        row_numbers(row.take(a)).push(decimal(row.skip(a)))
    } else {
        Seq::empty()
    }
}

/// The numbers written in a grid, row after row.
pub open spec fn table(rows: Seq<Seq<char>>) -> Seq<nat>
    decreases rows.len(),
{
    if rows.len() == 0 {
        Seq::empty()
    } else {
        table(rows.drop_last()) + row_numbers(rows.last())
    }
}

/// Where the run of digits begins that column `x` of `row` belongs to.
pub open spec fn run_start(row: Seq<char>, x: int) -> int {
    x + 1 - trailing_digits(row.take(x + 1))
}

/// The cell that column `x` of `row` becomes, where `base` numbers stand in
/// the rows above: a digit refers to its run, and runs are counted from the
/// left.
pub open spec fn cell_in_row(row: Seq<char>, x: int, base: int) -> Part {
    let c = row[x];
    if c == '.' {
        Part::Empty
    } else if is_digit(c) {
        Part::NumberIdx((base + row_numbers(row.take(run_start(row, x))).len()) as usize)
    } else {
        Part::Symbol(c)
    }
}

/// The cells of a whole row.
pub open spec fn row_cells(row: Seq<char>, base: int) -> Seq<Part> {
    Seq::new(row.len(), |x: int| cell_in_row(row, x, base))
}

/// The cell at column `x` of row `y` of a grid.
pub open spec fn cell_of(rows: Seq<Seq<char>>, x: int, y: int) -> Part {
    cell_in_row(rows[y], x, table(rows.take(y)).len() as int)
}

/// No run of digits in the row, nor any part of one, denotes a number above
/// `u32::MAX`.
#[verifier::opaque]
pub open spec fn row_fits(row: Seq<char>) -> bool {
    forall|a: int, b: int|
        0 <= a <= b <= row.len() && all_digits(#[trigger] row.subrange(a, b)) ==> decimal(
            row.subrange(a, b),
        ) <= u32::MAX
}

/// All rows are as long as the first.
pub open spec fn even(rows: Seq<Seq<char>>) -> bool {
    forall|y: int| 0 <= y < rows.len() ==> (#[trigger] rows[y]).len() == rows[0].len()
}

/// The text of a grid that can be built: its lines are equally long and its
/// numbers fit the table.
pub open spec fn grid_text(s: Seq<char>) -> bool {
    &&& even(lines(s))
    &&& forall|y: int| 0 <= y < lines(s).len() ==> row_fits(#[trigger] lines(s)[y])
}

/// Every number cell of `data` refers to one of the first `n` numbers.
pub open spec fn refs_below(data: Seq<Part>, n: int) -> bool {
    forall|i: int|
        0 <= i < data.len() ==> (#[trigger] data[i] matches Part::NumberIdx(k) ==> k < n)
}

/// The numbers of a table as mathematical integers.
pub open spec fn values(v: Seq<u32>) -> Seq<nat> {
    Seq::new(v.len(), |k: int| v[k] as nat)
}

/// Where the first `b` characters of a row end in a whole run of digits, the
/// run adds its number to the numbers that stand before it.
proof fn lemma_row_numbers_run(row: Seq<char>, a: int, b: int)
    requires
        0 <= a < b <= row.len(),
        forall|i: int| a <= i < b ==> is_digit(row[i]),
        a == 0 || !is_digit(row[a - 1]),
    ensures
        row_numbers(row.take(b)) == row_numbers(row.take(a)).push(decimal(row.subrange(a, b))),
{
    let p = row.take(b);
    lemma_trailing_run(row, a, b);
    assert(p.last() == row[b - 1]);
    assert(p.take(a) == row.take(a));
    assert(p.skip(a) == row.subrange(a, b));
}

/// A character that is no digit adds no number.
proof fn lemma_row_numbers_gap(row: Seq<char>, x: int)
    requires
        0 <= x < row.len(),
        !is_digit(row[x]),
    ensures
        row_numbers(row.take(x + 1)) == row_numbers(row.take(x)),
{
    assert(row.take(x + 1).drop_last() == row.take(x));
}

/// Appends the cells of one row to `data` and its numbers to `numbers`.
/// Returns `false`, with nothing promised of the two, where a number of the
/// row does not fit.
fn scan_row(
    text: &Vec<char>,
    start: usize,
    end: usize,
    data: &mut Vec<Part>,
    numbers: &mut Vec<u32>,
) -> (ok: bool)
    requires
        start <= end <= text@.len(),
        refs_below(old(data)@, old(numbers)@.len() as int),
    ensures
        ok == row_fits(text@.subrange(start as int, end as int)),
        ok ==> refs_below(final(data)@, final(numbers)@.len() as int),
        ok ==> final(data)@ == old(data)@ + row_cells(
            text@.subrange(start as int, end as int),
            old(numbers)@.len() as int,
        ),
        ok ==> values(final(numbers)@) == values(old(numbers)@) + row_numbers(
            text@.subrange(start as int, end as int),
        ),
{
    let ghost row = text@.subrange(start as int, end as int);
    let ghost base = numbers@.len() as int;
    let ghost data0 = data@;
    let ghost numbers0 = numbers@;
    let ghost a: int = 0;
    let mut cur: Option<u32> = None;
    let mut i: usize = start;
    proof {
        assert(row.take(0) == Seq::<char>::empty());
        assert(values(numbers@) == values(numbers0) + row_numbers(row.take(0)));
        assert(data@ == data0 + row_cells(row, base).take(0));
    }
    while i < end
        invariant
            start <= i <= end <= text@.len(),
            row == text@.subrange(start as int, end as int),
            base == numbers0.len(),
            0 <= a <= i - start,
            data@ == data0 + row_cells(row, base).take(i - start),
            values(numbers@) == values(numbers0) + row_numbers(row.take(a)),
            cur is None ==> a == i - start,
            cur is Some ==> a < i - start,
            refs_below(data@, numbers@.len() + if cur is Some { 1int } else { 0int }),
            cur is Some ==> cur->0 == decimal(row.subrange(a, i - start)),
            forall|j: int| a <= j < i - start ==> is_digit(row[j]),
            a == 0 || !is_digit(row[a - 1]),
            forall|p: int, q: int|
                0 <= p <= q <= i - start && all_digits(#[trigger] row.subrange(p, q)) ==> decimal(
                    row.subrange(p, q),
                ) <= u32::MAX,
        decreases end - i,
    {
        let c = text[i];
        let ghost x = i - start;
        assert(c == row[x]);
        let part;
        if is_digit_char(c) {
            let d = digit_of(c);
            let v: u32 = match cur {
                Some(v) => v,
                None => 0,
            };
            proof {
                assert(row.subrange(a, x + 1).drop_last() == row.subrange(a, x));
                assert(row.subrange(a, x).len() == 0 ==> decimal(row.subrange(a, x)) == 0);
                assert(decimal(row.subrange(a, x + 1)) == v * 10 + d);
                assert(all_digits(row.subrange(a, x + 1)));
            }
            if v > (u32::MAX - d) / 10 {
                proof {
                    reveal(row_fits);
                }
                return false;
            }
            part = Part::NumberIdx(numbers.len());
            cur = Some(v * 10 + d);
            proof {
                lemma_trailing_run(row, a, x + 1);
                assert(run_start(row, x) == a);
                assert(values(numbers@).len() == numbers0.len() + row_numbers(row.take(a)).len());
                assert(part == cell_in_row(row, x, base));
                assert forall|p: int, q: int|
                    0 <= p <= q <= x + 1 && all_digits(#[trigger] row.subrange(p, q)) implies decimal(
                    row.subrange(p, q),
                ) <= u32::MAX by {
                    if q == x + 1 && p < q {
                        if p < a {
                            assert(row.subrange(p, q)[a - 1 - p] == row[a - 1]);
                        }
                        assert(row.subrange(a, x + 1).skip(p - a) == row.subrange(p, q));
                        lemma_decimal_skip(row.subrange(a, x + 1), p - a);
                    } else if p == q {
                        assert(row.subrange(p, q).len() == 0);
                    }
                }
            }
        } else {
            proof {
                if cur is Some {
                    lemma_row_numbers_run(row, a, x);
                }
                lemma_row_numbers_gap(row, x);
                assert forall|p: int, q: int|
                    0 <= p <= q <= x + 1 && all_digits(#[trigger] row.subrange(p, q)) implies decimal(
                    row.subrange(p, q),
                ) <= u32::MAX by {
                    if q == x + 1 && p < q {
                        assert(row.subrange(p, q)[x - p] == row[x]);
                    } else if p == q {
                        assert(row.subrange(p, q).len() == 0);
                    }
                }
            }
            if let Some(v) = cur {
                assert(values(numbers@.push(v)) == values(numbers@).push(v as nat));
                numbers.push(v);
                cur = None;
            }
            if c == '.' {
                part = Part::Empty;
            } else {
                part = Part::Symbol(c);
            }
            proof {
                a = x + 1;
            }
        }
        assert(part == cell_in_row(row, x, base));
        assert(row_cells(row, base).take(x + 1) == row_cells(row, base).take(x).push(part));
        data.push(part);
        i += 1;
    }
    proof {
        reveal(row_fits);
        let w = end - start;
        assert(row.take(w) == row);
        assert(row_cells(row, base).take(w) == row_cells(row, base));
        if cur is Some {
            lemma_row_numbers_run(row, a, w);
        }
    }
    if let Some(v) = cur {
        assert(values(numbers@.push(v)) == values(numbers@).push(v as nat));
        numbers.push(v);
    }
    true
}

/// The cells of the first `h` rows of a grid, row after row.
pub open spec fn cells_of(rows: Seq<Seq<char>>, h: nat) -> Seq<Part>
    decreases h,
{
    if h == 0 {
        Seq::empty()
    } else {
        cells_of(rows, (h - 1) as nat) + row_cells(
            rows[h - 1],
            table(rows.take(h - 1)).len() as int,
        )
    }
}

/// In a grid whose rows are `w` wide, the cell of column `x` and row `y`
/// stands at `y * w + x`.
proof fn lemma_cells_of(rows: Seq<Seq<char>>, h: nat, w: int)
    requires
        h <= rows.len(),
        forall|j: int| 0 <= j < h ==> (#[trigger] rows[j]).len() == w,
    ensures
        cells_of(rows, h).len() == h * w,
        forall|x: int, y: int|
            0 <= x < w && 0 <= y < h ==> cells_of(rows, h)[y * w + x] == #[trigger] cell_of(
                rows,
                x,
                y,
            ),
    decreases h,
{
    if h > 0 {
        let up = (h - 1) as nat;
        lemma_cells_of(rows, up, w);
        let last = row_cells(rows[h - 1], table(rows.take(h - 1)).len() as int);
        assert(rows[h - 1].len() == w);
        assert(h * w == up * w + w) by (nonlinear_arith)
            requires
                up == h - 1,
        ;
        assert forall|x: int, y: int| 0 <= x < w && 0 <= y < h implies cells_of(rows, h)[y * w
            + x] == #[trigger] cell_of(rows, x, y) by {
            lemma_index(x, y, w, h as int);
            if y < up {
                lemma_index(x, y, w, up as int);
                assert(cells_of(rows, h)[y * w + x] == cells_of(rows, up)[y * w + x]);
            } else {
                assert(cells_of(rows, h)[y * w + x] == last[x]);
            }
        }
    } else {
        assert(h * w == 0) by (nonlinear_arith)
            requires
                h == 0,
        ;
    }
}

/// `s` rises strictly, so nothing occurs in it twice.
pub open spec fn increasing(s: Seq<usize>) -> bool {
    forall|i: int, j: int| 0 <= i < j < s.len() ==> s[i] < s[j]
}

/// Puts `k` into a rising list, unless it is there already.
fn insert_sorted(v: &mut Vec<usize>, k: usize)
    requires
        increasing(old(v)@),
    ensures
        increasing(final(v)@),
        forall|j: usize| final(v)@.contains(j) <==> (old(v)@.contains(j) || j == k),
{
    let mut i: usize = 0;
    while i < v.len() && v[i] < k
        invariant
            i <= v@.len(),
            v@ == old(v)@,
            forall|j: int| 0 <= j < i ==> v@[j] < k,
        decreases v@.len() - i,
    {
        i += 1;
    }
    if i < v.len() && v[i] == k {
        assert(v@.contains(k));
        return;
    }
    let ghost before = v@;
    v.insert(i, k);
    proof {
        assert(v@ == before.insert(i as int, k));
        assert(v@[i as int] == k);
        assert forall|j: usize| v@.contains(j) <==> (before.contains(j) || j == k) by {
            if before.contains(j) {
                let p = choose|p: int| 0 <= p < before.len() && before[p] == j;
                if p < i {
                    assert(v@[p] == j);
                } else {
                    assert(v@[p + 1] == j);
                }
            }
            if v@.contains(j) {
                let p = choose|p: int| 0 <= p < v@.len() && v@[p] == j;
                if p < i {
                    assert(before[p] == j);
                } else if p > i {
                    assert(before[p - 1] == j);
                }
            }
        }
    }
}

proof fn lemma_index(x: int, y: int, w: int, h: int)
    by (nonlinear_arith)
    requires
        0 <= x < w,
        0 <= y < h,
    ensures
        0 <= y * w,
        y * w + x < w * h,
        (y + 1) * w == y * w + w,
        (y + 1) * w <= h * w,
        h * w == w * h,
{
}

impl Schematic {
    /// The cells fill the rectangle, and each number cell refers to a number
    /// of the table.
    pub open spec fn wf(&self) -> bool {
        &&& self.data@.len() == self.width * self.height
        &&& refs_below(self.data@, self.part_numbers@.len() as int)
    }

    /// Column `x` of row `y` lies inside the grid.
    pub open spec fn in_bounds(&self, x: int, y: int) -> bool {
        0 <= x < self.width && 0 <= y < self.height
    }

    /// The cell at column `x` of row `y`.
    pub open spec fn cell(&self, x: int, y: int) -> Part {
        self.data@[y * self.width + x]
    }

    /// The schematic is the grid that the rows of text draw: as high as there
    /// are rows, as wide as the first, each cell read from its character, and
    /// with the numbers of the rows as its table.
    pub open spec fn depicts(&self, rows: Seq<Seq<char>>) -> bool {
        &&& self.wf()
        &&& self.height == rows.len()
        &&& self.width == if rows.len() > 0 {
            rows[0].len()
        } else {
            0
        }
        &&& forall|x: int, y: int|
            self.in_bounds(x, y) ==> self.cell(x, y) == #[trigger] cell_of(rows, x, y)
        &&& values(self.part_numbers@) == table(rows)
    }

    /// The number that the cell at column `x` of row `y` refers to, if it is
    /// a cell of the grid and a digit.
    pub open spec fn number_at(&self, x: int, y: int) -> Option<usize> {
        if self.in_bounds(x, y) {
            match self.cell(x, y) {
                Part::NumberIdx(k) => Some(k),
                _ => None,
            }
        } else {
            None
        }
    }

    /// The cell at column `x` of row `y` is a digit of number `k`.
    pub open spec fn holds(&self, x: int, y: int, k: usize) -> bool {
        self.number_at(x, y) == Some(k)
    }

    /// Number `k` has a digit in the block of three by three cells around
    /// column `x` of row `y`, as far as the block lies inside the grid.
    pub open spec fn adjacent(&self, x: int, y: int, k: usize) -> bool {
        ||| self.holds(x - 1, y - 1, k)
        ||| self.holds(x, y - 1, k)
        ||| self.holds(x + 1, y - 1, k)
        ||| self.holds(x - 1, y, k)
        ||| self.holds(x, y, k)
        ||| self.holds(x + 1, y, k)
        ||| self.holds(x - 1, y + 1, k)
        ||| self.holds(x, y + 1, k)
        ||| self.holds(x + 1, y + 1, k)
    }

    /// The numbers below `n` that are adjacent to column `x` of row `y`, each
    /// once, in rising order.
    pub open spec fn near_below(&self, x: int, y: int, n: nat) -> Seq<usize>
        decreases n,
    {
        if n == 0 {
            Seq::empty()
        } else if self.adjacent(x, y, (n - 1) as usize) {
            self.near_below(x, y, (n - 1) as nat).push((n - 1) as usize)
        } else {
            self.near_below(x, y, (n - 1) as nat)
        }
    }

    /// The numbers adjacent to column `x` of row `y`, each once, in rising
    /// order.
    pub open spec fn near(&self, x: int, y: int) -> Seq<usize> {
        self.near_below(x, y, self.part_numbers@.len())
    }

    /// A symbol stands at column `x` of row `y`, and number `k` is adjacent
    /// to it.
    pub open spec fn touches(&self, x: int, y: int, k: usize) -> bool {
        self.in_bounds(x, y) && self.cell(x, y) is Symbol && self.adjacent(x, y, k)
    }

    /// A symbol that comes before column `x` of row `y`, reading row by row,
    /// has number `k` adjacent to it.
    pub open spec fn touched_before(&self, x: int, y: int, k: usize) -> bool {
        exists|x1: int, y1: int|
            (y1 < y || (y1 == y && x1 < x)) && #[trigger] self.touches(x1, y1, k)
    }

    /// Number `k` is adjacent to some symbol of the grid.
    pub open spec fn is_part_number(&self, k: usize) -> bool {
        exists|x: int, y: int| #[trigger] self.touches(x, y, k)
    }

    /// The sum of the numbers below `n` that are adjacent to a symbol, each
    /// counted once.
    pub open spec fn pn_sum_below(&self, n: nat) -> nat
        decreases n,
    {
        if n == 0 {
            0
        } else if self.is_part_number((n - 1) as usize) {
            self.pn_sum_below((n - 1) as nat) + self.part_numbers@[n - 1] as nat
        } else {
            self.pn_sum_below((n - 1) as nat)
        }
    }

    /// The sum of all numbers that are adjacent to a symbol, each counted
    /// once, however many symbols it is adjacent to.
    pub open spec fn pn_sum(&self) -> nat {
        self.pn_sum_below(self.part_numbers@.len())
    }

    /// What the cell at column `x` of row `y` adds as a gear: the product of
    /// its two adjacent numbers where it is a `*` with exactly two of them,
    /// and nothing otherwise.
    pub open spec fn gear_ratio(&self, x: int, y: int) -> nat {
        let near = self.near(x, y);
        if self.in_bounds(x, y) && self.cell(x, y) == Part::Symbol('*') && near.len() == 2 {
            self.part_numbers@[near[0] as int] as nat * self.part_numbers@[near[1] as int] as nat
        } else {
            0
        }
    }

    /// The sum of the gear ratios of the first `w` cells of row `y`.
    pub open spec fn gear_sum_row(&self, y: int, w: nat) -> nat
        decreases w,
    {
        if w == 0 {
            0
        } else {
            self.gear_sum_row(y, (w - 1) as nat) + self.gear_ratio(w - 1, y)
        }
    }

    /// The sum of the gear ratios of the first `h` rows.
    pub open spec fn gear_sum_rows(&self, h: nat) -> nat
        decreases h,
    {
        if h == 0 {
            0
        } else {
            self.gear_sum_rows((h - 1) as nat) + self.gear_sum_row(h - 1, self.width as nat)
        }
    }

    /// The sum of the gear ratios of all cells.
    pub open spec fn gear_ratio_sum(&self) -> nat {
        self.gear_sum_rows(self.height as nat)
    }

    /// A number that a cell refers to is in the table.
    pub proof fn lemma_holds_below(&self, x: int, y: int, k: usize)
        requires
            self.wf(),
            self.holds(x, y, k),
        ensures
            k < self.part_numbers@.len(),
    {
        lemma_index(x, y, self.width as int, self.height as int);
        assert(self.cell(x, y) == Part::NumberIdx(k));
        assert(self.data@[y * self.width + x] == Part::NumberIdx(k));
    }

    /// A number that is adjacent to a cell is in the table.
    pub proof fn lemma_adjacent_below(&self, x: int, y: int, k: usize)
        requires
            self.wf(),
            self.adjacent(x, y, k),
        ensures
            k < self.part_numbers@.len(),
    {
        if self.holds(x - 1, y - 1, k) {
            self.lemma_holds_below(x - 1, y - 1, k);
        } else if self.holds(x, y - 1, k) {
            self.lemma_holds_below(x, y - 1, k);
        } else if self.holds(x + 1, y - 1, k) {
            self.lemma_holds_below(x + 1, y - 1, k);
        } else if self.holds(x - 1, y, k) {
            self.lemma_holds_below(x - 1, y, k);
        } else if self.holds(x, y, k) {
            self.lemma_holds_below(x, y, k);
        } else if self.holds(x + 1, y, k) {
            self.lemma_holds_below(x + 1, y, k);
        } else if self.holds(x - 1, y + 1, k) {
            self.lemma_holds_below(x - 1, y + 1, k);
        } else if self.holds(x, y + 1, k) {
            self.lemma_holds_below(x, y + 1, k);
        } else {
            self.lemma_holds_below(x + 1, y + 1, k);
        }
    }

    /// The list of the adjacent numbers below `n` rises strictly and holds
    /// exactly these numbers.
    proof fn lemma_near_below(&self, x: int, y: int, n: nat)
        requires
            n <= usize::MAX + 1,
        ensures
            increasing(self.near_below(x, y, n)),
            forall|k: usize|
                #[trigger] self.near_below(x, y, n).contains(k) <==> (k < n && self.adjacent(
                    x,
                    y,
                    k,
                )),
        decreases n,
    {
        if n > 0 {
            let up = (n - 1) as nat;
            let last = (n - 1) as usize;
            let before = self.near_below(x, y, up);
            let all = self.near_below(x, y, n);
            self.lemma_near_below(x, y, up);
            assert forall|i: int| 0 <= i < before.len() implies before[i] < last by {
                assert(before.contains(before[i]));
            }
            assert forall|k: usize| #[trigger]
                all.contains(k) <==> (k < n && self.adjacent(x, y, k)) by {
                if before.contains(k) {
                    let p = choose|p: int| 0 <= p < before.len() && before[p] == k;
                    assert(all[p] == k);
                }
                if all.contains(k) {
                    let p = choose|p: int| 0 <= p < all.len() && all[p] == k;
                    if p < before.len() {
                        assert(before[p] == k);
                        assert(before.contains(k));
                    }
                }
                if k == last && self.adjacent(x, y, k) {
                    assert(all[before.len() as int] == k);
                }
            }
        }
    }

    /// The numbers adjacent to a cell are listed once each, however many of
    /// their digits are adjacent: the list rises strictly, and a number is in
    /// it exactly if one of its digits is adjacent to the cell.
    pub proof fn lemma_near_once(&self, x: int, y: int)
        requires
            self.wf(),
        ensures
            increasing(self.near(x, y)),
            forall|k: usize| #[trigger] self.near(x, y).contains(k) <==> self.adjacent(x, y, k),
    {
        assert(self.part_numbers@.len() == self.part_numbers.len());
        self.lemma_near_below(x, y, self.part_numbers@.len());
        assert forall|k: usize| #[trigger]
            self.near(x, y).contains(k) <==> self.adjacent(x, y, k) by {
            if self.adjacent(x, y, k) {
                self.lemma_adjacent_below(x, y, k);
            }
        }
    }

    /// A `*` with exactly two adjacent numbers is a gear, and its ratio is
    /// their product.
    pub proof fn lemma_gear_of_two(&self, x: int, y: int, a: usize, b: usize)
        requires
            self.wf(),
            self.in_bounds(x, y),
            self.cell(x, y) == Part::Symbol('*'),
            a != b,
            self.adjacent(x, y, a),
            self.adjacent(x, y, b),
            forall|k: usize| self.adjacent(x, y, k) ==> k == a || k == b,
        ensures
            self.gear_ratio(x, y) == self.part_numbers@[a as int] as nat * self.part_numbers@[b as int] as nat,
    {
        let near = self.near(x, y);
        self.lemma_near_once(x, y);
        self.lemma_adjacent_below(x, y, a);
        self.lemma_adjacent_below(x, y, b);
        assert(near.contains(a));
        assert(near.contains(b));
        let i = choose|i: int| 0 <= i < near.len() && near[i] == a;
        let j = choose|j: int| 0 <= j < near.len() && near[j] == b;
        assert(i != j);
        if near.len() > 2 {
            assert(near.contains(near[0]));
            assert(near.contains(near[1]));
            assert(near.contains(near[2]));
            assert(near[0] < near[1] < near[2]);
        }
        assert(near.contains(near[0]));
        assert(near.contains(near[1]));
        assert(near[0] < near[1]);
        let p = self.part_numbers@[a as int] as nat;
        let q = self.part_numbers@[b as int] as nat;
        assert(p * q == q * p) by (nonlinear_arith);
    }

    /// A cell with fewer than two adjacent numbers is no gear.
    pub proof fn lemma_gear_of_fewer(&self, x: int, y: int)
        requires
            self.wf(),
            forall|j: usize, k: usize| self.adjacent(x, y, j) && self.adjacent(x, y, k) ==> j == k,
        ensures
            self.gear_ratio(x, y) == 0,
    {
        let near = self.near(x, y);
        self.lemma_near_once(x, y);
        if near.len() >= 2 {
            assert(near.contains(near[0]));
            assert(near.contains(near[1]));
            assert(near[0] < near[1]);
        }
    }

    /// A cell with three or more adjacent numbers is no gear.
    pub proof fn lemma_gear_of_more(&self, x: int, y: int, a: usize, b: usize, c: usize)
        requires
            self.wf(),
            a != b,
            a != c,
            b != c,
            self.adjacent(x, y, a),
            self.adjacent(x, y, b),
            self.adjacent(x, y, c),
        ensures
            self.gear_ratio(x, y) == 0,
    {
        let near = self.near(x, y);
        self.lemma_near_once(x, y);
        assert(near.contains(a));
        assert(near.contains(b));
        assert(near.contains(c));
        let i = choose|i: int| 0 <= i < near.len() && near[i] == a;
        let j = choose|j: int| 0 <= j < near.len() && near[j] == b;
        let k = choose|k: int| 0 <= k < near.len() && near[k] == c;
        assert(i != j && i != k && j != k);
    }

    /// A rising list that holds exactly the adjacent numbers below `n` is the
    /// list of them.
    proof fn lemma_near(&self, x: int, y: int, s: Seq<usize>, n: nat)
        requires
            n <= usize::MAX + 1,
            increasing(s),
            forall|k: usize| s.contains(k) <==> (k < n && self.adjacent(x, y, k)),
        ensures
            s == self.near_below(x, y, n),
        decreases n,
    {
        if n == 0 {
            if s.len() > 0 {
                assert(s.contains(s[0]));
            }
            assert(s == Seq::<usize>::empty());
        } else {
            let k = (n - 1) as usize;
            assert forall|i: int| 0 <= i < s.len() implies s[i] < n by {
                assert(s.contains(s[i]));
            }
            if self.adjacent(x, y, k) {
                assert(s.contains(k));
                let p = choose|p: int| 0 <= p < s.len() && s[p] == k;
                if p < s.len() - 1 {
                    assert(s[p] < s[s.len() - 1]);
                }
                let front = s.drop_last();
                assert forall|j: usize| front.contains(j) <==> (j < n - 1 && self.adjacent(
                    x,
                    y,
                    j,
                )) by {
                    if front.contains(j) {
                        let q = choose|q: int| 0 <= q < front.len() && front[q] == j;
                        assert(s[q] == j);
                        assert(s.contains(j));
                        assert(s[q] < s[s.len() - 1]);
                    }
                    if j < n - 1 && self.adjacent(x, y, j) {
                        assert(s.contains(j));
                        let q = choose|q: int| 0 <= q < s.len() && s[q] == j;
                        assert(front[q] == j);
                    }
                }
                self.lemma_near(x, y, front, (n - 1) as nat);
                assert(s == front.push(k));
            } else {
                assert forall|j: usize| s.contains(j) <==> (j < n - 1 && self.adjacent(
                    x,
                    y,
                    j,
                )) by {}
                self.lemma_near(x, y, s, (n - 1) as nat);
            }
        }
    }

    /// The number whose digit stands one step from column `x` of row `y`:
    /// `dx` and `dy` are 0 for the step back, 1 for none and 2 for the step
    /// on.
    fn look(&self, x: usize, dx: usize, y: usize, dy: usize) -> (r: Option<usize>)
        requires
            self.wf(),
            dx <= 2,
            dy <= 2,
        ensures
            r == self.number_at(x + dx - 1, y + dy - 1),
    {
        if (dx == 0 && x == 0) || (dy == 0 && y == 0) || (dx == 2 && x == usize::MAX) || (dy == 2
            && y == usize::MAX) {
            return None;
        }
        let cx: usize = if dx == 0 {
            x - 1
        } else {
            x + (dx - 1)
        };
        let cy: usize = if dy == 0 {
            y - 1
        } else {
            y + (dy - 1)
        };
        match self.get(cx, cy) {
            Some(Part::NumberIdx(k)) => Some(*k),
            _ => None,
        }
    }

    /// Adds to `found` the number that `look` finds, if any.
    fn note(&self, found: &mut Vec<usize>, x: usize, dx: usize, y: usize, dy: usize)
        requires
            self.wf(),
            dx <= 2,
            dy <= 2,
            increasing(old(found)@),
        ensures
            increasing(final(found)@),
            forall|k: usize|
                final(found)@.contains(k) <==> (old(found)@.contains(k) || self.holds(
                    x + dx - 1,
                    y + dy - 1,
                    k,
                )),
    {
        match self.look(x, dx, y, dy) {
            Some(k) => insert_sorted(found, k),
            None => {},
        }
    }

    /// The indices of the numbers that are adjacent to column `x` of row `y`:
    /// each number once, however many of its digits are adjacent, in rising
    /// order.
    pub fn adjacent_numbers(&self, x: usize, y: usize) -> (r: Vec<usize>)
        requires
            self.wf(),
        ensures
            increasing(r@),
            forall|k: usize| r@.contains(k) <==> self.adjacent(x as int, y as int, k),
            forall|i: int| 0 <= i < r@.len() ==> r@[i] < self.part_numbers@.len(),
            r@ == self.near(x as int, y as int),
    {
        let mut found: Vec<usize> = Vec::new();
        let count = self.part_numbers.len();
        self.note(&mut found, x, 0, y, 0);
        self.note(&mut found, x, 1, y, 0);
        self.note(&mut found, x, 2, y, 0);
        self.note(&mut found, x, 0, y, 1);
        self.note(&mut found, x, 1, y, 1);
        self.note(&mut found, x, 2, y, 1);
        self.note(&mut found, x, 0, y, 2);
        self.note(&mut found, x, 1, y, 2);
        self.note(&mut found, x, 2, y, 2);
        proof {
            let n = self.part_numbers@.len();
            assert forall|k: usize| self.adjacent(x as int, y as int, k) implies k < n by {
                self.lemma_adjacent_below(x as int, y as int, k);
            }
            assert forall|i: int| 0 <= i < found@.len() implies found@[i] < n by {
                assert(found@.contains(found@[i]));
                assert(self.adjacent(x as int, y as int, found@[i]));
            }
            self.lemma_near(x as int, y as int, found@, n);
        }
        found
    }

    /// The gear ratio of the cell at column `x` of row `y`.
    pub fn gear_ratio_at(&self, x: usize, y: usize) -> (r: u64)
        requires
            self.wf(),
        ensures
            r == self.gear_ratio(x as int, y as int),
    {
        let star = match self.get(x, y) {
            Some(Part::Symbol(c)) => *c == '*',
            _ => false,
        };
        if !star {
            return 0;
        }
        let near = self.adjacent_numbers(x, y);
        if near.len() != 2 {
            return 0;
        }
        let a = self.get_pn(near[0]);
        let b = self.get_pn(near[1]);
        assert(a * b <= u64::MAX) by (nonlinear_arith)
            requires
                a <= u32::MAX,
                b <= u32::MAX,
        ;
        (a as u64) * (b as u64)
    }

    /// Builds the schematic of a text whose lines are equally long and whose
    /// numbers fit.
    pub fn parse(input: &str) -> (g: Self)
        requires
            grid_text(input@),
        ensures
            g.depicts(lines(input@)),
    {
        parse_input(input).unwrap()
    }

    /// The cell at column `x` of row `y`, or nothing outside the grid.
    pub fn get(&self, x: usize, y: usize) -> (r: Option<&Part>)
        requires
            self.wf(),
        ensures
            self.in_bounds(x as int, y as int) ==> r == Some(&self.cell(x as int, y as int)),
            !self.in_bounds(x as int, y as int) ==> r is None,
    {
        if x < self.width && y < self.height {
            let n = self.data.len();
            proof {
                lemma_index(x as int, y as int, self.width as int, self.height as int);
                assert(y * self.width + x < n);
            }
            Some(&self.data[y * self.width + x])
        } else {
            None
        }
    }

    /// The number that the table holds at `idx`.
    pub fn get_pn(&self, idx: usize) -> (v: u32)
        requires
            idx < self.part_numbers@.len(),
        ensures
            v == self.part_numbers@[idx as int],
    {
        self.part_numbers[idx]
    }
}

/// Builds the schematic that a text draws, or nothing where its lines differ
/// in length or one of its numbers does not fit.
pub fn parse_input(input: &str) -> (r: Option<Schematic>)
    ensures
        r is Some <==> grid_text(input@),
        r is Some ==> r->0.depicts(lines(input@)),
{
    let text = to_chars(input);
    let spans = line_spans(&text);
    let ghost rows = lines(text@);
    let height = spans.len();
    let width: usize = if height > 0 {
        spans[0].1 - spans[0].0
    } else {
        0
    };
    let mut data: Vec<Part> = Vec::new();
    let mut numbers: Vec<u32> = Vec::new();
    let mut y: usize = 0;
    proof {
        assert(rows.take(0) == Seq::<Seq<char>>::empty());
        assert(values(numbers@) == table(rows.take(0)));
    }
    while y < height
        invariant
            text@ == input@,
            rows == lines(text@),
            rows == cut(text@, spans@),
            spans_within(spans@, text@.len() as int),
            height == spans@.len(),
            0 <= y <= height,
            width == if height > 0 {
                rows[0].len()
            } else {
                0
            },
            forall|j: int| 0 <= j < y ==> (#[trigger] rows[j]).len() == width && row_fits(rows[j]),
            data@ == cells_of(rows, y as nat),
            values(numbers@) == table(rows.take(y as int)),
            refs_below(data@, numbers@.len() as int),
        decreases height - y,
    {
        let (s, e) = spans[y];
        assert(rows[y as int] == text@.subrange(s as int, e as int));
        if e - s != width {
            return None;
        }
        let ghost base = numbers@.len() as int;
        let ok = scan_row(&text, s, e, &mut data, &mut numbers);
        if !ok {
            return None;
        }
        proof {
            let row = rows[y as int];
            assert(rows.take(y + 1).drop_last() == rows.take(y as int));
            assert(rows.take(y + 1).last() == row);
            assert(base == table(rows.take(y as int)).len());
        }
        y += 1;
    }
    proof {
        assert(rows.take(height as int) == rows);
        lemma_cells_of(rows, height as nat, width as int);
        assert(height * width == width * height) by (nonlinear_arith);
    }
    let g = Schematic { data, part_numbers: numbers, width, height };
    proof {
        assert forall|x: int, y: int| g.in_bounds(x, y) implies g.cell(x, y) == #[trigger] cell_of(
            rows,
            x,
            y,
        ) by {}
        assert(g.wf());
    }
    Some(g)
}

/// Sets the mark of every number that `near` lists.
fn mark_all(marks: &mut Vec<bool>, near: &Vec<usize>)
    requires
        forall|i: int| 0 <= i < near@.len() ==> near@[i] < old(marks)@.len(),
    ensures
        final(marks)@.len() == old(marks)@.len(),
        forall|k: int|
            0 <= k < old(marks)@.len() ==> #[trigger] final(marks)@[k] == (old(marks)@[k]
                || near@.contains(k as usize)),
{
    let ghost before = marks@;
    let n = marks.len();
    let mut j: usize = 0;
    while j < near.len()
        invariant
            marks@.len() == before.len(),
            before.len() == n,
            j <= near@.len(),
            forall|i: int| 0 <= i < near@.len() ==> near@[i] < before.len(),
            forall|k: int|
                0 <= k < before.len() ==> #[trigger] marks@[k] == (before[k] || near@.take(
                    j as int,
                ).contains(k as usize)),
        decreases near@.len() - j,
    {
        let ghost prior = marks@;
        let ghost seen = near@.take(j as int);
        let ghost next = near@.take(j + 1);
        marks.set(near[j], true);
        proof {
            assert(next == seen.push(near@[j as int]));
            assert forall|k: int| 0 <= k < before.len() implies #[trigger] marks@[k] == (before[k]
                || next.contains(k as usize)) by {
                assert(prior[k] == (before[k] || seen.contains(k as usize)));
                if seen.contains(k as usize) {
                    let p = choose|p: int| 0 <= p < seen.len() && seen[p] == k as usize;
                    assert(next[p] == k as usize);
                }
                if k == near@[j as int] {
                    assert(next[j as int] == k as usize);
                }
                if next.contains(k as usize) {
                    let p = choose|p: int| 0 <= p < next.len() && next[p] == k as usize;
                    if p < j {
                        assert(seen[p] == k as usize);
                    }
                }
            }
        }
        j += 1;
    }
    assert(near@.take(near@.len() as int) == near@);
}

/// The sum of the numbers that are adjacent to a symbol, each counted once, or
/// nothing where that sum is too large for a `u32`.
pub fn get_pn_sum(schematic: &Schematic) -> (r: Option<u32>)
    requires
        schematic.wf(),
    ensures
        r == cap(schematic.pn_sum()),
{
    let n = schematic.part_numbers.len();
    let mut marks: Vec<bool> = Vec::new();
    while marks.len() < n
        invariant
            marks@.len() <= n,
            forall|j: int| 0 <= j < marks@.len() ==> !marks@[j],
        decreases n - marks@.len(),
    {
        marks.push(false);
    }
    let mut y: usize = 0;
    while y < schematic.height
        invariant
            schematic.wf(),
            n == schematic.part_numbers@.len(),
            marks@.len() == n,
            y <= schematic.height,
            forall|k: int|
                0 <= k < n ==> #[trigger] marks@[k] == schematic.touched_before(
                    0,
                    y as int,
                    k as usize,
                ),
        decreases schematic.height - y,
    {
        let mut x: usize = 0;
        while x < schematic.width
            invariant
                schematic.wf(),
                n == schematic.part_numbers@.len(),
                marks@.len() == n,
                y < schematic.height,
                x <= schematic.width,
                forall|k: int|
                    0 <= k < n ==> #[trigger] marks@[k] == schematic.touched_before(
                        x as int,
                        y as int,
                        k as usize,
                    ),
            decreases schematic.width - x,
        {
            let symbol = match schematic.get(x, y) {
                Some(Part::Symbol(_)) => true,
                _ => false,
            };
            let ghost before = marks@;
            assert(symbol == (schematic.cell(x as int, y as int) is Symbol));
            if symbol {
                let near = schematic.adjacent_numbers(x, y);
                mark_all(&mut marks, &near);
                assert forall|k: int| 0 <= k < n implies #[trigger] marks@[k] == (before[k]
                    || schematic.touches(x as int, y as int, k as usize)) by {}
            }
            proof {
                assert forall|k: int| 0 <= k < n implies #[trigger] marks@[k]
                    == schematic.touched_before(x + 1, y as int, k as usize) by {
                    let ku = k as usize;
                    assert(before[k] == schematic.touched_before(x as int, y as int, ku));
                    assert(marks@[k] == (before[k] || schematic.touches(x as int, y as int, ku)));
                    if schematic.touched_before(x as int, y as int, ku) {
                        let (x1, y1) = choose|x1: int, y1: int|
                            (y1 < y || (y1 == y && x1 < x)) && #[trigger] schematic.touches(
                                x1,
                                y1,
                                ku,
                            );
                        assert(schematic.touches(x1, y1, ku));
                    }
                    if schematic.touched_before(x + 1, y as int, ku) {
                        let (x1, y1) = choose|x1: int, y1: int|
                            (y1 < y || (y1 == y && x1 < x + 1)) && #[trigger] schematic.touches(
                                x1,
                                y1,
                                ku,
                            );
                        assert(schematic.touches(x1, y1, ku));
                    }
                }
            }
            x += 1;
        }
        proof {
            assert forall|k: int| 0 <= k < n implies #[trigger] marks@[k]
                == schematic.touched_before(0, y + 1, k as usize) by {
                let ku = k as usize;
                if schematic.touched_before(x as int, y as int, ku) {
                    let (x1, y1) = choose|x1: int, y1: int|
                        (y1 < y || (y1 == y && x1 < x)) && #[trigger] schematic.touches(x1, y1, ku);
                    assert(schematic.touches(x1, y1, ku));
                }
                if schematic.touched_before(0, y + 1, ku) {
                    let (x1, y1) = choose|x1: int, y1: int|
                        (y1 < y + 1 || (y1 == y + 1 && x1 < 0)) && #[trigger] schematic.touches(
                            x1,
                            y1,
                            ku,
                        );
                    assert(schematic.touches(x1, y1, ku));
                }
            }
        }
        y += 1;
    }
    proof {
        assert forall|k: int| 0 <= k < n implies #[trigger] marks@[k] == schematic.is_part_number(
            k as usize,
        ) by {
            let ku = k as usize;
            if schematic.is_part_number(ku) {
                let (x1, y1) = choose|x1: int, y1: int| #[trigger] schematic.touches(x1, y1, ku);
                assert(schematic.touches(x1, y1, ku));
            }
            if schematic.touched_before(0, y as int, ku) {
                let (x1, y1) = choose|x1: int, y1: int|
                    (y1 < y || (y1 == y && x1 < 0)) && #[trigger] schematic.touches(x1, y1, ku);
                assert(schematic.touches(x1, y1, ku));
            }
        }
    }
    let mut total: Option<u32> = Some(0);
    let mut k: usize = 0;
    while k < n
        invariant
            n == schematic.part_numbers@.len(),
            marks@.len() == n,
            k <= n,
            forall|j: int| 0 <= j < n ==> #[trigger] marks@[j] == schematic.is_part_number(j as usize),
            total == cap(schematic.pn_sum_below(k as nat)),
        decreases n - k,
    {
        if marks[k] {
            total = add_capped(total, schematic.part_numbers[k] as u64);
        }
        k += 1;
    }
    total
}

/// The sum of the gear ratios of all cells, or nothing where that sum is too
/// large for a `u32`.
pub fn get_gear_ratio_sum(schematic: &Schematic) -> (r: Option<u32>)
    requires
        schematic.wf(),
    ensures
        r == cap(schematic.gear_ratio_sum()),
{
    let mut total: Option<u32> = Some(0);
    let mut y: usize = 0;
    while y < schematic.height
        invariant
            schematic.wf(),
            y <= schematic.height,
            total == cap(schematic.gear_sum_rows(y as nat)),
        decreases schematic.height - y,
    {
        let mut x: usize = 0;
        while x < schematic.width
            invariant
                schematic.wf(),
                y < schematic.height,
                x <= schematic.width,
                total == cap(
                    schematic.gear_sum_rows(y as nat) + schematic.gear_sum_row(y as int, x as nat),
                ),
            decreases schematic.width - x,
        {
            let ratio = schematic.gear_ratio_at(x, y);
            total = add_capped(total, ratio);
            x += 1;
        }
        y += 1;
    }
    total
}

} // verus!
