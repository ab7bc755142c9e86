use advent::almanac::{
    check_maps, get_lowest_loc, get_min_location, map_to_loc, map_value, parse_input,
    parse_map_range, MapRange, Stage,
};

const EX1: &str = "seeds: 79 14 55 13

seed-to-soil map:
50 98 2
52 50 48

soil-to-fertilizer map:
0 15 37
37 52 2
39 0 15

fertilizer-to-water map:
49 53 8
0 11 42
42 0 7
57 7 4

water-to-light map:
88 18 7
18 25 70

light-to-temperature map:
45 77 23
81 45 19
68 64 13

temperature-to-humidity map:
0 69 1
1 0 69

humidity-to-location map:
60 56 37
56 93 4
";

fn stage(ranges: Vec<(usize, usize, usize)>) -> Stage {
    Stage {
        name: String::from("stage"),
        map_ranges: ranges
            .into_iter()
            .map(|(dest_start, source_start, length)| MapRange { source_start, dest_start, length })
            .collect(),
    }
}

#[test]
fn almanac_test1() {
    let (seeds, maps) = parse_input(EX1).unwrap();
    assert_eq!(map_value(53, &maps[0]), 55);
    assert_eq!(map_value(10, &maps[0]), 10);
    assert_eq!(map_value(seeds[0], &maps[0]), 81);
    assert_eq!(map_value(seeds[1], &maps[0]), 14);
    assert_eq!(map_value(seeds[2], &maps[0]), 57);
    assert_eq!(map_value(seeds[3], &maps[0]), 13);
}

#[test]
fn almanac_test2() {
    let (seeds, maps) = parse_input(EX1).unwrap();

    let locations = seeds
        .into_iter()
        .map(|seed| map_to_loc(seed, &maps))
        .collect::<Vec<usize>>();

    assert_eq!(locations, vec![82, 43, 86, 35])
}

#[test]
fn test3() {
    let input = parse_input(EX1).unwrap();

    assert_eq!(get_lowest_loc(&input), 46);
}

#[test]
fn discrete_minimum_of_example() {
    let input = parse_input(EX1).unwrap();
    assert_eq!(get_min_location(&input), 35);
}

#[test]
fn parse_keeps_names_order_and_fields() {
    let (seeds, maps) = parse_input(EX1).unwrap();
    assert_eq!(seeds, vec![79, 14, 55, 13]);
    assert_eq!(maps.len(), 7);
    assert_eq!(maps[0].name, "seed-to-soil");
    assert_eq!(maps[6].name, "humidity-to-location");
    assert_eq!(
        maps[0].map_ranges,
        vec![
            MapRange { source_start: 98, dest_start: 50, length: 2 },
            MapRange { source_start: 50, dest_start: 52, length: 48 },
        ]
    );
    assert!(check_maps(&maps));
}

#[test]
fn interval_maps_its_range_and_nothing_else() {
    let s = stage(vec![(50, 98, 2)]);
    assert_eq!(map_value(98, &s), 50);
    assert_eq!(map_value(99, &s), 51);
    assert_eq!(map_value(10, &s), 10);
    assert_eq!(map_value(97, &s), 97);
    assert_eq!(map_value(100, &s), 100);
}

#[test]
fn first_covering_interval_wins() {
    let s = stage(vec![(100, 0, 10), (200, 5, 10)]);
    assert_eq!(map_value(7, &s), 107);
    assert_eq!(map_value(12, &s), 207);
}

#[test]
fn pipeline_is_stage_after_stage() {
    let (_, maps) = parse_input(EX1).unwrap();
    for seed in [79usize, 14, 55, 13, 0, 99, 1000] {
        let mut by_hand = seed;
        for map in maps.iter() {
            by_hand = map_value(by_hand, map);
        }
        assert_eq!(map_to_loc(seed, &maps), by_hand);
    }
    assert_eq!(map_to_loc(42, &[]), 42);
}

#[test]
fn ranged_minimum_is_minimum_over_every_seed() {
    let (_, maps) = parse_input(EX1).unwrap();
    let seeds = vec![79usize, 14, 55, 13, 0, 3];
    let mut lowest = usize::MAX;
    for pair in seeds.chunks(2) {
        for seed in pair[0]..pair[0] + pair[1] {
            lowest = lowest.min(map_to_loc(seed, &maps));
        }
    }
    assert_eq!(get_lowest_loc(&(seeds, maps)), lowest);
}

#[test]
fn ranged_minimum_without_seeds_is_the_largest_value() {
    let (_, maps) = parse_input(EX1).unwrap();
    assert_eq!(get_lowest_loc(&(vec![5, 0, 7], maps)), usize::MAX);
}

#[test]
fn interval_line_is_destination_source_length() {
    let (range, rest) = parse_map_range("50 98 2\nrest").unwrap();
    assert_eq!(range, MapRange { source_start: 98, dest_start: 50, length: 2 });
    assert_eq!(rest, "\nrest");
}

#[test]
fn malformed_texts_are_rejected() {
    assert!(parse_input("").is_none());
    assert!(parse_input("seeds: 1 2\n").is_none());
    assert!(parse_input("seeds: 1 2\n\na-to-b map:\n1 2\n").is_none());
    assert!(parse_input("seeds: 1 2\n\na-to-b map:\n1 2 3 4\n").is_none());
    assert!(parse_input("seeds: 1 2\n\na-to-b map:\n1 x 3\n").is_none());
    assert!(parse_input("seeds: x\n\na-to-b map:\n1 2 3\n").is_none());
    assert!(parse_input("seeds: 1 2\n\na-to-b map:\n1 2 3\n").is_some());
    assert!(parse_input("seeds: 1 2\n\na-to-b map:\n1 2 3").is_some());
    assert!(parse_input("seeds: 1\n\na map:\n1 2 99999999999999999999999999\n").is_none());
}

#[test]
fn intervals_that_leave_the_machine_range_are_found() {
    let s = stage(vec![(usize::MAX - 1, 0, 5)]);
    assert!(!check_maps(&[s]));
    let t = stage(vec![(usize::MAX - 1, 0, 2), (7, usize::MAX, 9)]);
    assert!(check_maps(&[t]));
}
