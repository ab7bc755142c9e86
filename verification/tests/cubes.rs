use advent::cubes::{
    game_power, get_game_powers, get_valid_ids, parse_input, parse_line, parse_sample, valid_game,
    Game, Sample,
};

const EX1: &str = "Game 1: 3 blue, 4 red; 1 red, 2 green, 6 blue; 2 green
Game 2: 1 blue, 2 green; 3 green, 4 blue, 1 red; 1 green, 1 blue
Game 3: 8 green, 6 blue, 20 red; 5 blue, 4 red, 13 green; 5 green, 1 red
Game 4: 1 green, 3 red, 6 blue; 3 green, 6 red; 3 green, 15 blue, 14 red
Game 5: 6 red, 1 blue, 3 green; 2 blue, 1 red, 2 green
";

#[test]
fn main_test1() {
    assert_eq!(get_valid_ids(&parse_input(EX1).unwrap()).iter().sum::<u32>(), 8)
}

#[test]
fn powers_of_the_example() {
    let games = parse_input(EX1).unwrap();
    assert_eq!(get_game_powers(&games), Some(vec![48, 12, 1560, 630, 36]));
    assert_eq!(get_valid_ids(&games), vec![1, 2, 5]);
}

#[test]
fn a_line_is_read_into_its_handfuls() {
    let game = parse_line("Game 7: 3 blue, 4 red; 2 green, 1 red, 1 red").unwrap();
    assert_eq!(game.id, 7);
    assert_eq!(
        game.samples,
        vec![Sample { red: 4, green: 0, blue: 3 }, Sample { red: 2, green: 2, blue: 0 }]
    );
}

#[test]
fn limits_are_twelve_thirteen_fourteen() {
    let at = Game { id: 1, samples: vec![Sample { red: 12, green: 13, blue: 14 }] };
    assert!(valid_game(&at));
    for sample in [
        Sample { red: 13, green: 0, blue: 0 },
        Sample { red: 0, green: 14, blue: 0 },
        Sample { red: 0, green: 0, blue: 15 },
    ] {
        assert!(!valid_game(&Game { id: 1, samples: vec![Sample { red: 1, green: 1, blue: 1 }, sample] }));
    }
    assert!(valid_game(&Game { id: 1, samples: vec![] }));
}

#[test]
fn a_power_that_does_not_fit_is_nothing() {
    let big = Game { id: 1, samples: vec![Sample { red: 65536, green: 65536, blue: 1 }] };
    assert_eq!(game_power(&big), None);
    let fits = Game { id: 2, samples: vec![Sample { red: 65535, green: 65537, blue: 1 }] };
    assert_eq!(game_power(&fits), Some(u32::MAX));
    assert_eq!(get_game_powers(&[fits, big]), None);
    assert_eq!(game_power(&Game { id: 3, samples: vec![] }), Some(0));
}

#[test]
fn unknown_colours_and_malformed_lines_are_rejected() {
    assert!(parse_line("Game 1: 3 purple").is_none());
    assert!(parse_line("Game 1: 3 red; 2 green, 1 mauve").is_none());
    assert!(parse_line("Game x: 3 red").is_none());
    assert!(parse_line("Game 1 3 red").is_none());
    assert!(parse_line("Game 1: red").is_none());
    assert!(parse_line("Game 1: 4294967295 red, 1 red").is_none());
    assert!(parse_line("Game 1: 4294967296 red").is_none());
    assert!(parse_input("Game 1: 3 red\nnonsense\n").is_none());
    assert_eq!(parse_input("").unwrap().len(), 0);
}

#[test]
fn a_handful_ends_where_no_draw_follows() {
    let (sample, rest) = parse_sample("3 blue, 4 red; 1 red").unwrap();
    assert_eq!(sample, Some(Sample { red: 4, green: 0, blue: 3 }));
    assert_eq!(rest, "; 1 red");
    let (sample, rest) = parse_sample("3 blue, x").unwrap();
    assert_eq!(sample, Some(Sample { red: 0, green: 0, blue: 3 }));
    assert_eq!(rest, ", x");
}
