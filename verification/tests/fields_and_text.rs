use linescan::fields::ScanLineResult;
use linescan::text::{index_key, split_lines, string_from, string_of, to_chars};

#[test]
fn get_of_absent_key_is_empty() {
    let result = ScanLineResult::new();
    assert_eq!(result.get("1"), String::new());
    assert_eq!(result.get(""), String::new());
}

#[test]
fn insert_then_get() {
    let mut result = ScanLineResult::new();
    result.insert("1".to_string(), "aaaa".to_string());
    result.insert("captured_name".to_string(), "xxxx".to_string());
    assert_eq!(result.get("1"), "aaaa");
    assert_eq!(result.get("captured_name"), "xxxx");
    assert_eq!(result.get("2"), "");
}

#[test]
fn insert_overwrites_the_same_key() {
    let mut result = ScanLineResult::new();
    result.insert("k".to_string(), "old".to_string());
    result.insert("other".to_string(), "kept".to_string());
    result.insert("k".to_string(), "new".to_string());
    assert_eq!(result.get("k"), "new");
    assert_eq!(result.get("other"), "kept");
}

#[test]
fn index_key_is_the_decimal_numeral() {
    assert_eq!(index_key(0), "0");
    assert_eq!(index_key(7), "7");
    assert_eq!(index_key(10), "10");
    assert_eq!(index_key(409), "409");
    assert_eq!(index_key(1234567890), "1234567890");
    assert_eq!(index_key(usize::MAX), usize::MAX.to_string());
}

#[test]
fn chars_and_strings_convert_both_ways() {
    let chars = to_chars("héllo");
    assert_eq!(chars, vec!['h', 'é', 'l', 'l', 'o']);
    assert_eq!(string_of(&chars), "héllo");
    assert_eq!(string_from(&chars, 1, 3), "él");
    assert_eq!(string_from(&chars, 2, 2), "");
}

#[test]
fn split_lines_divides_at_line_feeds() {
    assert_eq!(split_lines("a\nb\nc"), ["a", "b", "c"]);
    assert_eq!(split_lines("a\nb\n"), ["a", "b"]);
    assert_eq!(split_lines("a\n\nb"), ["a", "", "b"]);
    assert_eq!(split_lines("\n"), [""]);
    assert_eq!(split_lines("\n\n"), ["", ""]);
    assert_eq!(split_lines(""), Vec::<String>::new());
    assert_eq!(split_lines("one"), ["one"]);
}

#[test]
fn split_lines_drops_carriage_return_before_line_feed() {
    assert_eq!(split_lines("a\r\nb\r\n"), ["a", "b"]);
    assert_eq!(split_lines("a\r\r\nb"), ["a\r", "b"]);
    assert_eq!(split_lines("a\rb\nc\r"), ["a\rb", "c\r"]);
    assert_eq!(split_lines("\r\n"), [""]);
}

#[test]
fn split_lines_agrees_with_std() {
    for text in ["", "x", "x\n", "\nx", "a\r\nb", "a\n\r\n\n", "tail\r", "\r", "a\n\rb\n"] {
        let expected: Vec<String> = text.lines().map(|line| line.to_string()).collect();
        assert_eq!(split_lines(text), expected);
    }
}

#[test]
fn is_empty_until_a_field_is_written() {
    let mut result = ScanLineResult::new();
    assert!(result.is_empty());
    result.insert("0".to_string(), String::new());
    assert!(!result.is_empty());
    result.insert("0".to_string(), "x".to_string());
    assert!(!result.is_empty());
}
