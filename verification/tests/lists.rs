use poe_crafting::parsers::lists::{digit_of, parse_number, parse_pipe_list};
use poe_crafting::util::text::{ends_with, starts_with};

/// What std makes of the same text.
fn by_std(text: &str) -> Option<Vec<u32>> {
    text.trim_matches('|')
        .split('|')
        .filter(|s| !s.is_empty())
        .map(|s| s.parse::<u32>().ok())
        .collect()
}

#[test]
fn digits_stand_for_their_numbers() {
    assert_eq!(digit_of('0'), Some(0));
    assert_eq!(digit_of('7'), Some(7));
    assert_eq!(digit_of('9'), Some(9));
    assert_eq!(digit_of('a'), None);
    assert_eq!(digit_of('+'), None);
    assert_eq!(digit_of('٣'), None);
}

#[test]
fn a_number_is_digits_after_a_plus_or_without() {
    assert_eq!(parse_number("0"), Some(0));
    assert_eq!(parse_number("42"), Some(42));
    assert_eq!(parse_number("+42"), Some(42));
    assert_eq!(parse_number("007"), Some(7));
    assert_eq!(parse_number("4294967295"), Some(u32::MAX));
    assert_eq!(parse_number("4294967296"), None);
    assert_eq!(parse_number("99999999999999999999999"), None);
    assert_eq!(parse_number(""), None);
    assert_eq!(parse_number("+"), None);
    assert_eq!(parse_number("-1"), None);
    assert_eq!(parse_number("++1"), None);
    assert_eq!(parse_number("1+"), None);
    assert_eq!(parse_number("1 "), None);
    assert_eq!(parse_number("12a"), None);
}

#[test]
fn a_number_is_what_std_reads() {
    for text in ["0", "42", "+42", "007", "4294967295", "4294967296", "", "+", "-1", "-0", "1_0", " 1", "0x10"] {
        assert_eq!(parse_number(text), text.parse::<u32>().ok(), "{:?}", text);
    }
}

#[test]
fn numbers_are_read_between_bars() {
    assert_eq!(parse_pipe_list("|1|2|3|4|"), Ok(vec![1, 2, 3, 4]));
    assert_eq!(parse_pipe_list("1|2"), Ok(vec![1, 2]));
    assert_eq!(parse_pipe_list("|17|"), Ok(vec![17]));
    assert_eq!(parse_pipe_list("17"), Ok(vec![17]));
    assert_eq!(parse_pipe_list(""), Ok(vec![]));
    assert_eq!(parse_pipe_list("|"), Ok(vec![]));
    assert_eq!(parse_pipe_list("|||"), Ok(vec![]));
    assert_eq!(parse_pipe_list("||5|||6||"), Ok(vec![5, 6]));
}

#[test]
fn the_first_piece_that_is_no_number_is_told() {
    assert_eq!(parse_pipe_list("|1|x|3|y|"), Err("x".to_string()));
    assert_eq!(parse_pipe_list("|1| 2|"), Err(" 2".to_string()));
    assert_eq!(parse_pipe_list("4294967296"), Err("4294967296".to_string()));
    assert_eq!(parse_pipe_list("|-1|"), Err("-1".to_string()));
}

#[test]
fn lists_between_bars_are_what_std_reads() {
    for text in ["|1|2|3|4|", "", "|", "1", "||5|||6||", "|1|x|", "a", "|+3|", "|4294967296|", "12|0012|"] {
        assert_eq!(parse_pipe_list(text).ok(), by_std(text), "{:?}", text);
    }
}

#[test]
fn a_text_begins_and_ends_with_its_parts() {
    assert!(starts_with("Perfect Essence", "Perfect"));
    assert!(starts_with("Perfect", "Perfect"));
    assert!(starts_with("Perfect", ""));
    assert!(starts_with("", ""));
    assert!(!starts_with("Perfec", "Perfect"));
    assert!(!starts_with("A Perfect", "Perfect"));
    assert!(!starts_with("perfect", "Perfect"));
    assert!(ends_with("Essence of Horror", "Horror"));
    assert!(ends_with("Horror", "Horror"));
    assert!(ends_with("Horror", ""));
    assert!(!ends_with("Horrors", "Horror"));
    assert!(!ends_with("orror", "Horror"));
    assert!(ends_with("naïve café", "café"));
    assert!(!ends_with("naïve cafe", "café"));
    for (text, part) in [("abc", "ab"), ("abc", "bc"), ("abc", "abcd"), ("", "a"), ("ééé", "éé")] {
        assert_eq!(starts_with(text, part), text.starts_with(part));
        assert_eq!(ends_with(text, part), text.ends_with(part));
    }
}
