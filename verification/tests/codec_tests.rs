use kvlog::codec::{encode_line, parse_line, split_lines};
use kvlog::order::{compare_keys, KeyOrder};

#[test]
fn parse_one_delimiter() {
    let r = parse_line("alpha,one");
    assert_eq!(r, Some(("alpha".to_string(), "one".to_string())));
}

#[test]
fn parse_empty_fields() {
    assert_eq!(parse_line(","), Some((String::new(), String::new())));
    assert_eq!(parse_line("a,"), Some(("a".to_string(), String::new())));
    assert_eq!(parse_line(",b"), Some((String::new(), "b".to_string())));
}

#[test]
fn parse_no_delimiter_is_malformed() {
    assert_eq!(parse_line("nodelimiter"), None);
    assert_eq!(parse_line(""), None);
}

#[test]
fn parse_two_delimiters_is_malformed() {
    assert_eq!(parse_line("a,b,c"), None);
    assert_eq!(parse_line(",,"), None);
}

#[test]
fn encode_joins_with_comma() {
    assert_eq!(encode_line("alpha", "one").as_str(), "alpha,one");
    assert_eq!(encode_line("", "").as_str(), ",");
}

#[test]
fn encode_then_parse_round_trip() {
    let line = encode_line("key", "value");
    assert_eq!(
        parse_line(line.as_str()),
        Some(("key".to_string(), "value".to_string()))
    );
}

#[test]
fn split_empty_text() {
    let lines = split_lines("");
    assert!(lines.is_empty());
}

#[test]
fn split_trailing_break() {
    let lines = split_lines("a,1\nb,2\n");
    assert_eq!(lines, vec!["a,1".to_string(), "b,2".to_string()]);
}

#[test]
fn split_no_trailing_break() {
    let lines = split_lines("a,1\nb,2");
    assert_eq!(lines, vec!["a,1".to_string(), "b,2".to_string()]);
}

#[test]
fn split_drops_one_trailing_carriage_return_per_line() {
    let lines = split_lines("a,1\r\nb,2\r\n");
    assert_eq!(lines, vec!["a,1".to_string(), "b,2".to_string()]);
    assert_eq!(split_lines("x\r"), vec!["x".to_string()]);
    // a carriage return inside a line stays
    assert_eq!(
        split_lines("a\rb\nc"),
        vec!["a\rb".to_string(), "c".to_string()]
    );
}

#[test]
fn split_keeps_empty_lines() {
    let lines = split_lines("a\n\nb");
    assert_eq!(lines, vec!["a".to_string(), String::new(), "b".to_string()]);
}

#[test]
fn compare_orders_by_code_point() {
    assert_eq!(compare_keys("a", "b"), KeyOrder::Less);
    assert_eq!(compare_keys("b", "a"), KeyOrder::Greater);
    assert_eq!(compare_keys("same", "same"), KeyOrder::Equal);
    assert_eq!(compare_keys("", "a"), KeyOrder::Less);
    assert_eq!(compare_keys("ab", "abc"), KeyOrder::Less);
    // multi-byte characters compare by code point, after ascii
    assert_eq!(compare_keys("z", "\u{e9}"), KeyOrder::Less);
}
