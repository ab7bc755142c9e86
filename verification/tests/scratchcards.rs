use advent::scratchcards::{
    get_total_cards, parse_card_id, parse_input, parse_line, parse_number_lists, Card,
};

const EX1: &str = "Card 1: 41 48 83 86 17 | 83 86  6 31 17  9 48 53
Card 2: 13 32 20 16 61 | 61 30 68 82 17 32 24 19
Card 3:  1 21 53 59 44 | 69 82 63 72 16 21 14  1
Card 4: 41 92 73 84 69 | 59 84 76 51 58  5 54 83
Card 5: 87 83 26 28 32 | 88 30 70 96 82 86 14 15
Card 6: 31 18 13 56 72 | 74 77 10 23 35 67 36 11
";

#[test]
fn cards_test1() {
    let cards = parse_input(EX1).unwrap();

    assert_eq!(cards.iter().map(|card| card.get_points()).sum::<usize>(), 13)
}

#[test]
fn cards_test2() {
    let cards = parse_input(EX1).unwrap();

    assert_eq!(get_total_cards(&cards), Some(30))
}

#[test]
fn matches_count_each_number_once() {
    assert_eq!(Card::new(vec![1, 2, 3], vec![3, 4, 1]).matches, 2);
    assert_eq!(Card::new(vec![5, 5, 5], vec![5, 5]).matches, 1);
    assert_eq!(Card::new(vec![], vec![1]).matches, 0);
    assert_eq!(Card::new(vec![1, 2], vec![3, 4]).matches, 0);
}

#[test]
fn points_double_with_each_match() {
    let points: Vec<usize> = (0..6).map(|matches| Card { matches }.get_points()).collect();
    assert_eq!(points, vec![0, 1, 2, 4, 8, 16]);
    assert_eq!(Card { matches: 32 }.get_points(), 1usize << 31);
}

#[test]
fn copies_are_won_by_every_instance() {
    let cards: Vec<Card> = [1, 1, 0].iter().map(|&matches| Card { matches }).collect();
    assert_eq!(get_total_cards(&cards), Some(1 + 2 + 3));
    assert_eq!(get_total_cards(&[]), Some(0));
    let doubling: Vec<Card> = (0..40).map(|i| Card { matches: 39 - i }).collect();
    assert_eq!(get_total_cards(&doubling), None);
    let fits: Vec<Card> = (0..32).map(|i| Card { matches: 31 - i }).collect();
    assert_eq!(get_total_cards(&fits), Some(u32::MAX));
}

#[test]
fn a_card_line_gives_its_two_lists() {
    let ((winning, picked), rest) = parse_number_lists("1 22   3|4  5 trailing").unwrap();
    assert_eq!(winning, vec![1, 22, 3]);
    assert_eq!(picked, vec![4, 5]);
    assert_eq!(rest, " trailing");
    assert_eq!(parse_card_id("Card   12: 1 | 1"), Some((12, ": 1 | 1")));
    assert_eq!(parse_line("Card  12:  1 22   3|4  22 trailing").unwrap().matches, 1);
    assert_eq!(parse_line("Card 1: 1 2 | 2 1").unwrap().matches, 2);
}

#[test]
fn malformed_card_lines_are_rejected() {
    assert!(parse_line("Card 1: 1 2 3").is_none());
    assert!(parse_line("Card 1 1 2 | 3").is_none());
    assert!(parse_line("Card: 1 2 | 3").is_none());
    assert!(parse_line("card 1: 1 | 1").is_none());
    assert!(parse_line("Card 1: | 1").is_none());
    assert!(parse_line("Card 1: 1 |").is_none());
    assert!(parse_input("Card 1: 1 | 1\n\n").is_none());
    assert_eq!(parse_input("").unwrap().len(), 0);
}
