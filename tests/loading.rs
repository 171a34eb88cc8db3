use aocode21::common::ChallengeData;
use aocode21::text::{is_white, nonblank_lines_of, parse_i32, words_of};

fn data(text: &str) -> ChallengeData {
    ChallengeData::from_contents("input.txt".to_string(), text)
}

#[test]
fn blank_lines_are_dropped() {
    let d = data("199\n\n   \n200\r\n\t\n208");
    assert_eq!(d.lines(), &["199".to_string(), "200".to_string(), "208".to_string()][..]);
    assert_eq!(d.input_file(), "input.txt");
}

#[test]
fn blank_only_content_gives_empty_processing() {
    let d = data("\n  \n\r\n\t\t\n");
    assert!(d.lines().is_empty());
    let (values, errors) = d.process(|s: &String| s.parse::<i32>());
    assert!(values.is_empty());
    assert!(errors.is_empty());
}

#[test]
fn empty_content_gives_no_lines() {
    assert!(data("").lines().is_empty());
}

#[test]
fn processing_keeps_order_within_each_partition() {
    let d = data("1\nx\n2\ny\n3");
    let (values, errors) = d.process(|s: &String| s.parse::<i32>().map_err(|_| s.clone()));
    assert_eq!(values, vec![1, 2, 3]);
    assert_eq!(errors, vec!["x".to_string(), "y".to_string()]);
}

#[test]
fn lines_keep_inner_whitespace() {
    assert_eq!(nonblank_lines_of(" a b \nc\r\n"), vec![" a b ".to_string(), "c".to_string()]);
}

#[test]
fn words_split_on_any_whitespace() {
    assert_eq!(
        words_of("  forward\t 5  extra\u{A0}x "),
        vec!["forward".to_string(), "5".to_string(), "extra".to_string(), "x".to_string()]
    );
    assert!(words_of(" \t ").is_empty());
}

#[test]
fn decimal_parsing_follows_i32_literals() {
    assert_eq!(parse_i32("42"), Some(42));
    assert_eq!(parse_i32("+7"), Some(7));
    assert_eq!(parse_i32("-2147483648"), Some(i32::MIN));
    assert_eq!(parse_i32("2147483647"), Some(i32::MAX));
    assert_eq!(parse_i32("2147483648"), None);
    assert_eq!(parse_i32("-2147483649"), None);
    assert_eq!(parse_i32(""), None);
    assert_eq!(parse_i32("-"), None);
    assert_eq!(parse_i32("+-1"), None);
    assert_eq!(parse_i32("12a"), None);
    assert_eq!(parse_i32(" 1"), None);
    assert_eq!(parse_i32("0007"), Some(7));
}

#[test]
fn whitespace_is_the_unicode_property() {
    for c in [' ', '\t', '\n', '\r', '\u{0B}', '\u{0C}', '\u{85}', '\u{A0}', '\u{2003}', '\u{3000}'] {
        assert!(is_white(c), "{:?}", c);
        assert_eq!(is_white(c), c.is_whitespace());
    }
    for c in ['a', '0', '-', '\u{200B}', '\u{180E}', '\u{FEFF}'] {
        assert!(!is_white(c), "{:?}", c);
        assert_eq!(is_white(c), c.is_whitespace());
    }
}
