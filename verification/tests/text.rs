use advent::capped::{add_capped, sum_capped};
use advent::digits::{digit_of, is_digit_char};
use advent::lex::{is_blank, is_word, parse_number, parse_size_list, to_number};
use advent::text::{line_spans, to_chars};

fn lines_of(s: &str) -> Vec<String> {
    let text = to_chars(s);
    line_spans(&text)
        .into_iter()
        .map(|(start, end)| text[start..end].iter().collect())
        .collect()
}

#[test]
fn lines_end_at_line_feeds() {
    assert_eq!(lines_of("ab\ncd\n"), vec!["ab", "cd"]);
    assert_eq!(lines_of("ab\ncd"), vec!["ab", "cd"]);
    assert_eq!(lines_of("ab\n\ncd\n"), vec!["ab", "", "cd"]);
    assert_eq!(lines_of("\n"), vec![""]);
    assert_eq!(lines_of(""), Vec::<String>::new());
}

#[test]
fn a_carriage_return_before_a_line_feed_is_dropped() {
    assert_eq!(lines_of("ab\r\ncd\r\n"), vec!["ab", "cd"]);
    assert_eq!(lines_of("a\rb\r\n"), vec!["a\rb"]);
    assert_eq!(lines_of("ab\r"), vec!["ab\r"]);
    assert_eq!(lines_of("ab\r\r\n"), vec!["ab\r"]);
    assert_eq!(lines_of("\r\n"), vec![""]);
}

#[test]
fn lines_are_those_of_the_standard_library() {
    for s in ["", "a", "a\n", "a\r\n", "a\n\nb", "\r", "\r\r\n\rx\n", "x\ny\r", "é\nü\r\n"] {
        let expected: Vec<String> = s.lines().map(String::from).collect();
        assert_eq!(lines_of(s), expected);
    }
}

#[test]
fn characters_are_kept_in_order() {
    assert_eq!(to_chars("a£c"), vec!['a', '£', 'c']);
    assert_eq!(to_chars(""), Vec::<char>::new());
}

#[test]
fn digits_are_the_ten_of_ascii() {
    assert!(is_digit_char('0') && is_digit_char('9'));
    assert!(!is_digit_char('/') && !is_digit_char(':') && !is_digit_char('٣'));
    assert_eq!(digit_of('0'), 0);
    assert_eq!(digit_of('7'), 7);
}

#[test]
fn a_number_is_its_longest_run_of_digits() {
    assert_eq!(parse_number("123abc", usize::MAX), Some((123, "abc")));
    assert_eq!(parse_number("007", usize::MAX), Some((7, "")));
    assert_eq!(parse_number("12 34", usize::MAX), Some((12, " 34")));
    assert_eq!(parse_number("", usize::MAX), None);
    assert_eq!(parse_number("x1", usize::MAX), None);
    assert_eq!(parse_number("-1", usize::MAX), None);
    assert_eq!(parse_number("256", 255), None);
    assert_eq!(parse_number("255", 255), Some((255, "")));
    assert_eq!(parse_number("0", 0), Some((0, "")));
    assert_eq!(parse_number("99999999999999999999999999999", usize::MAX), None);
    assert_eq!(to_number("18446744073709551615", usize::MAX), Some(usize::MAX));
    assert_eq!(to_number("", 5), Some(0));
}

#[test]
fn a_list_ends_before_a_separator_that_no_number_follows() {
    assert_eq!(parse_size_list("1 2  3"), Some((vec![1, 2, 3], "")));
    assert_eq!(parse_size_list("1 \n\t2 x"), Some((vec![1, 2], " x")));
    assert_eq!(parse_size_list("1 "), Some((vec![1], " ")));
    assert_eq!(parse_size_list("1,2"), Some((vec![1], ",2")));
    assert_eq!(parse_size_list(" 1"), None);
    assert_eq!(parse_size_list(""), None);
}

#[test]
fn words_and_blanks() {
    assert!(is_word("red", "red"));
    assert!(!is_word("reds", "red"));
    assert!(!is_word("re", "red"));
    assert!(is_word("", ""));
    for c in [' ', '\t', '\r', '\n'] {
        assert!(is_blank(c));
    }
    assert!(!is_blank('a') && !is_blank('\u{a0}') && !is_blank('\u{b}'));
}

#[test]
fn capped_sums_stop_at_the_largest_value() {
    assert_eq!(add_capped(Some(1), 2), Some(3));
    assert_eq!(add_capped(Some(u32::MAX - 1), 1), Some(u32::MAX));
    assert_eq!(add_capped(Some(u32::MAX), 1), None);
    assert_eq!(add_capped(Some(0), u64::MAX), None);
    assert_eq!(add_capped(None, 0), None);
    assert_eq!(sum_capped(Some(2), Some(3)), Some(5));
    assert_eq!(sum_capped(Some(2), None), None);
    assert_eq!(sum_capped(None, Some(3)), None);
    assert_eq!(sum_capped(Some(u32::MAX), Some(1)), None);
}
