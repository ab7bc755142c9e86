use advent::almanac::{get_lowest_loc, map_to_loc, map_value, MapRange, Stage};
use advent::pieces::{apply_range, apply_stage, locations, lowest, seed_pieces};

fn stage(ranges: Vec<(usize, usize, usize)>) -> Stage {
    Stage {
        name: String::from("stage"),
        map_ranges: ranges
            .into_iter()
            .map(|(dest_start, source_start, length)| MapRange { source_start, dest_start, length })
            .collect(),
    }
}

fn values(pieces: &[(usize, usize)]) -> Vec<usize> {
    let mut all: Vec<usize> = pieces.iter().flat_map(|&(lo, hi)| lo..=hi).collect();
    all.sort();
    all.dedup();
    all
}

#[test]
fn seeds_are_read_pair_by_pair() {
    assert_eq!(seed_pieces(&vec![79, 14, 55, 13]), vec![(79, 92), (55, 67)]);
    assert_eq!(seed_pieces(&vec![5, 0, 7, 1, 9]), vec![(7, 7)]);
    assert_eq!(seed_pieces(&vec![usize::MAX - 1, 10]), vec![(usize::MAX - 1, usize::MAX)]);
    assert_eq!(seed_pieces(&vec![]), vec![]);
}

#[test]
fn a_range_cuts_a_piece_in_three() {
    let range = MapRange { source_start: 10, dest_start: 100, length: 5 };
    let mut out = vec![];
    let left = apply_range(&vec![(0, 20)], &range, &mut out);
    assert_eq!(left, vec![(0, 9), (15, 20)]);
    assert_eq!(out, vec![(100, 104)]);
    let mut out = vec![(1, 1)];
    let left = apply_range(&vec![(12, 13), (30, 40)], &range, &mut out);
    assert_eq!(left, vec![(30, 40)]);
    assert_eq!(out, vec![(1, 1), (102, 103)]);
    let empty = MapRange { source_start: 10, dest_start: 100, length: 0 };
    let mut out = vec![];
    assert_eq!(apply_range(&vec![(0, 20)], &empty, &mut out), vec![(0, 20)]);
    assert_eq!(out, vec![]);
}

#[test]
fn a_stage_moves_pieces_as_it_moves_their_values() {
    let s = stage(vec![(100, 0, 10), (200, 5, 10), (0, 50, 3)]);
    let pieces = vec![(3, 17), (49, 55)];
    let mut by_value: Vec<usize> = values(&pieces).into_iter().map(|v| map_value(v, &s)).collect();
    by_value.sort();
    by_value.dedup();
    assert_eq!(values(&apply_stage(pieces, &s)), by_value);
}

#[test]
fn the_lowest_value_of_pieces() {
    assert_eq!(lowest(&vec![(9, 12), (4, 5), (7, 7)]), 4);
    assert_eq!(lowest(&vec![]), usize::MAX);
    assert_eq!(lowest(&vec![(5, 4)]), usize::MAX);
}

#[test]
fn pieces_hold_what_every_seed_is_sent_to() {
    let maps = vec![stage(vec![(50, 98, 2), (52, 50, 48)]), stage(vec![(0, 15, 37), (37, 52, 2), (39, 0, 15)])];
    let seeds = vec![79usize, 14, 55, 13, 0, 4];
    let mut by_seed: Vec<usize> = vec![];
    for pair in seeds.chunks(2) {
        for seed in pair[0]..pair[0] + pair[1] {
            by_seed.push(map_to_loc(seed, &maps));
        }
    }
    by_seed.sort();
    by_seed.dedup();
    assert_eq!(values(&locations(&seeds, &maps)), by_seed);
}

#[test]
fn long_ranges_take_no_longer() {
    let maps = vec![stage(vec![(10, 1_000_000_000_000, 5), (0, 7, 1)])];
    let input = (vec![1usize, 2_000_000_000_000, 3_000_000_000_000, 1], maps);
    assert_eq!(get_lowest_loc(&input), 0);
}
