use advent::calibration::{first_and_last, get_value, replace, spell_out};

const EX1: &str = "1abc2
pqr3stu8vwx
a1b2c3d4e5f
treb7uchet
";

const EX2: &str = "two1nine
eightwothree
abcone2threexyz
xtwone3four
4nineeightseven2
zoneight234
7pqrstsixteen
";

fn chars(s: &str) -> Vec<char> {
    s.chars().collect()
}

#[test]
fn test1() {
    assert_eq!(get_value(EX1, false), Some(142));
}

#[test]
fn test2() {
    assert_eq!(get_value(EX2, true), Some(281));
}

#[test]
fn names_are_no_digits_unless_asked_for() {
    assert_eq!(get_value("two1nine\n", false), Some(11));
    assert_eq!(get_value("two1nine\n", true), Some(29));
}

#[test]
fn a_line_without_a_digit_has_no_value() {
    assert_eq!(get_value("12\nabc\n34\n", false), None);
    assert_eq!(get_value("one\n", false), None);
    assert_eq!(get_value("one\n", true), Some(11));
}

#[test]
fn an_empty_text_sums_to_nothing() {
    assert_eq!(get_value("", false), Some(0));
}

#[test]
fn replace_goes_on_behind_each_occurrence() {
    assert_eq!(replace(&chars("aaa"), &chars("aa"), &chars("b")), chars("ba"));
    assert_eq!(replace(&chars("xonex"), &chars("one"), &chars("one1one")), chars("xone1onex"));
    assert_eq!(replace(&chars("abc"), &chars("abcd"), &chars("x")), chars("abc"));
    assert_eq!(replace(&chars("abab"), &chars("ab"), &chars("")), chars(""));
}

#[test]
fn names_that_share_a_letter_are_both_spelled_out() {
    assert_eq!(spell_out(&chars("eightwo")), chars("eight8eightwo2two"));
    assert_eq!(first_and_last(&spell_out(&chars("eightwo"))), Some(82));
    assert_eq!(first_and_last(&chars("a7b")), Some(77));
    assert_eq!(first_and_last(&chars("ab")), None);
}
