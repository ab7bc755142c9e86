use advent::schematic::{get_gear_ratio_sum, get_pn_sum, parse_input, Part, Schematic};

const EX1: &str = "467..114..
...*......
..35..633.
......#...
617*......
.....+.58.
..592.....
......755.
...$.*....
.664.598..
";

#[test]
fn schematic_test1() {
    assert_eq!(get_pn_sum(&parse_input(EX1).unwrap()), Some(4361))
}

#[test]
fn main_test2() {
    assert_eq!(get_gear_ratio_sum(&parse_input(EX1).unwrap()), Some(467835))
}

#[test]
fn parse_reads_cells_and_numbers() {
    let g = Schematic::parse("12.*\n..34\n");
    assert_eq!(g.width, 4);
    assert_eq!(g.height, 2);
    assert_eq!(g.part_numbers, vec![12, 34]);
    assert_eq!(g.get(0, 0), Some(&Part::NumberIdx(0)));
    assert_eq!(g.get(1, 0), Some(&Part::NumberIdx(0)));
    assert_eq!(g.get(2, 0), Some(&Part::Empty));
    assert_eq!(g.get(3, 0), Some(&Part::Symbol('*')));
    assert_eq!(g.get(2, 1), Some(&Part::NumberIdx(1)));
    assert_eq!(g.get_pn(1), 34);
}

#[test]
fn a_number_next_to_a_symbol_by_two_digits_counts_once() {
    let g = parse_input("....\n.12.\n.*..\n").unwrap();
    assert_eq!(g.adjacent_numbers(1, 2), vec![0]);
    assert_eq!(get_pn_sum(&g), Some(12));
}

#[test]
fn a_number_between_two_symbols_counts_once() {
    let g = parse_input("#12#\n").unwrap();
    assert_eq!(get_pn_sum(&g), Some(12));
}

#[test]
fn a_star_is_a_gear_with_exactly_two_numbers() {
    assert_eq!(get_gear_ratio_sum(&parse_input("3*4\n").unwrap()), Some(12));
    assert_eq!(get_gear_ratio_sum(&parse_input("3*.\n").unwrap()), Some(0));
    assert_eq!(get_gear_ratio_sum(&parse_input(".*.\n").unwrap()), Some(0));
    assert_eq!(get_gear_ratio_sum(&parse_input("3.4\n.*.\n.5.\n").unwrap()), Some(0));
    assert_eq!(get_gear_ratio_sum(&parse_input("3#4\n").unwrap()), Some(0));
    assert_eq!(get_gear_ratio_sum(&parse_input("2*3\n...\n4*5\n").unwrap()), Some(26));
}

#[test]
fn the_neighbourhood_does_not_wrap_at_the_edges() {
    let g = parse_input("..*\n7..\n").unwrap();
    assert_eq!(g.adjacent_numbers(2, 0), Vec::<usize>::new());
    assert_eq!(get_pn_sum(&g), Some(0));
    let h = parse_input("*..\n..7\n").unwrap();
    assert_eq!(get_pn_sum(&h), Some(0));
    assert_eq!(h.adjacent_numbers(usize::MAX, usize::MAX), Vec::<usize>::new());
}

#[test]
fn cells_outside_the_grid_are_absent() {
    let g = parse_input("1.\n.#\n").unwrap();
    assert_eq!(g.get(1, 1), Some(&Part::Symbol('#')));
    assert_eq!(g.get(2, 0), None);
    assert_eq!(g.get(0, 2), None);
    assert_eq!(g.get(usize::MAX, usize::MAX), None);
}

#[test]
fn numbers_end_at_the_end_of_a_line() {
    let g = parse_input(".12\n34.\n").unwrap();
    assert_eq!(g.part_numbers, vec![12, 34]);
    assert_eq!(g.get(2, 0), Some(&Part::NumberIdx(0)));
    assert_eq!(g.get(0, 1), Some(&Part::NumberIdx(1)));
    let last = parse_input("#7").unwrap();
    assert_eq!(last.part_numbers, vec![7]);
    assert_eq!(get_pn_sum(&last), Some(7));
}

#[test]
fn uneven_grids_and_large_numbers_are_rejected() {
    assert!(parse_input("...\n..\n").is_none());
    assert!(parse_input("..\n...\n").is_none());
    assert!(parse_input("4294967296\n").is_none());
    assert!(parse_input("4294967295\n").is_some());
    assert!(parse_input("").is_some());
}

#[test]
fn carriage_returns_belong_to_the_line_ending() {
    let g = parse_input("12\r\n.*\r\n").unwrap();
    assert_eq!(g.width, 2);
    assert_eq!(get_pn_sum(&g), Some(12));
}

#[test]
fn sums_that_do_not_fit_are_nothing() {
    let g = parse_input("4294967295#1\n").unwrap();
    assert_eq!(get_pn_sum(&g), None);
    let h = parse_input("65536*65536\n").unwrap();
    assert_eq!(get_gear_ratio_sum(&h), None);
    let k = parse_input("65535*65537\n").unwrap();
    assert_eq!(get_gear_ratio_sum(&k), Some(u32::MAX));
}
