use linescan::fields::ScanLineResult;
use linescan::formatter::{replace_in, Formatter};

fn fields(entries: &[(&str, &str)]) -> ScanLineResult {
    let mut result = ScanLineResult::new();
    for (key, value) in entries {
        result.insert(key.to_string(), value.to_string());
    }
    result
}

fn render(template: &str, entries: &[(&str, &str)]) -> String {
    let formatter = Formatter { format: template.to_string() };
    formatter.format(vec![fields(entries)])
}

fn keys(template: &str) -> Vec<String> {
    let formatter = Formatter { format: template.to_string() };
    formatter.targets().into_iter().map(|target| target.key).collect()
}

fn replaced(text: &str, pattern: &str, value: &str) -> String {
    let text: Vec<char> = text.chars().collect();
    let pattern: Vec<char> = pattern.chars().collect();
    let value: Vec<char> = value.chars().collect();
    replace_in(&text, &pattern, &value).into_iter().collect()
}

#[test]
fn test_scan_named_and_numbered_format() {
    let formatter = Formatter {
        format: "{1}: {some_name}, {non_existent_name}".to_string(),
    };
    let scan_line_results = vec![
        fields(&[("1", "hoge"), ("some_name", "fuga")]),
        fields(&[]),
        fields(&[("1", "hoge")]),
    ];
    let output = formatter.format(scan_line_results);
    let expected_output = "hoge: fuga, 
: , 
hoge: , "
        .to_string();
    assert_eq!(output, expected_output);
}

#[test]
fn format_named_and_numbered_fields() {
    let template = "{1}: {some_name}, {non_existent_name}";
    assert_eq!(render(template, &[("1", "hoge"), ("some_name", "fuga")]), "hoge: fuga, ");
}

#[test]
fn format_with_no_fields() {
    assert_eq!(render("{1}: {some_name}, {non_existent_name}", &[]), ": , ");
}

#[test]
fn format_of_no_lines_is_empty() {
    let formatter = Formatter { format: "{1}".to_string() };
    assert_eq!(formatter.format(Vec::new()), "");
}

#[test]
fn format_joins_lines_without_trailing_line_feed() {
    let formatter = Formatter { format: "<{0}>".to_string() };
    let output = formatter.format(vec![fields(&[("0", "a")]), fields(&[]), fields(&[("0", "c")])]);
    assert_eq!(output, "<a>\n<>\n<c>");
}

#[test]
fn format_plain_template_is_unchanged() {
    let formatter = Formatter { format: "no placeholders {} here }{".to_string() };
    let output = formatter.format(vec![fields(&[("1", "x")]), fields(&[]), fields(&[("", "y")])]);
    assert_eq!(
        output,
        "no placeholders {} here }{\nno placeholders {} here }{\nno placeholders {} here }{"
    );
}

#[test]
fn format_replaces_every_occurrence_of_a_key() {
    assert_eq!(render("{a}-{b}-{a}-{a}", &[("a", "1"), ("b", "22")]), "1-22-1-1");
}

#[test]
fn format_does_not_escape_values() {
    assert_eq!(render("{a}", &[("a", "$0 \\ {}")]), "$0 \\ {}");
    assert_eq!(render("{a.c}{abc}", &[("a.c", "x")]), "x");
}

#[test]
fn format_substitutes_keys_in_order_of_first_occurrence() {
    assert_eq!(render("{a}", &[("a", "{b}"), ("b", "x")]), "{b}");
    assert_eq!(render("{a}{b}", &[("a", "{b}"), ("b", "x")]), "xx");
    assert_eq!(render("{b}{a}", &[("a", "{b}"), ("b", "x")]), "x{b}");
}

#[test]
fn format_handles_text_beyond_ascii() {
    assert_eq!(render("«{名前}»", &[("名前", "値")]), "«値»");
}

#[test]
fn placeholder_keys_are_distinct_and_ordered() {
    assert_eq!(keys("{1}: {some_name}, {non_existent_name}"), ["1", "some_name", "non_existent_name"]);
    assert_eq!(keys("{b}{a}{b}{c}{a}"), ["b", "a", "c"]);
    assert_eq!(keys(""), Vec::<String>::new());
    assert_eq!(keys("plain"), Vec::<String>::new());
}

#[test]
fn placeholder_key_needs_one_character() {
    assert_eq!(keys("{}"), Vec::<String>::new());
    assert_eq!(keys("{}}"), Vec::<String>::new());
    assert_eq!(keys("{}{a}"), ["a"]);
    assert_eq!(keys("{ }"), [" "]);
}

#[test]
fn placeholder_key_ends_at_first_closing_brace() {
    assert_eq!(keys("{{a}"), ["{a"]);
    assert_eq!(keys("{a}}"), ["a"]);
    assert_eq!(keys("{a{b}c}"), ["a{b"]);
    assert_eq!(keys("{a"), Vec::<String>::new());
    assert_eq!(keys("a}"), Vec::<String>::new());
    assert_eq!(keys("{a\nb}"), ["a\nb"]);
}

#[test]
fn targets_hold_the_placeholder_of_their_key() {
    let formatter = Formatter { format: "{x} and {yz}".to_string() };
    let targets = formatter.targets();
    assert_eq!(targets.len(), 2);
    assert_eq!(targets[0].key, "x");
    assert_eq!(targets[0].pattern, vec!['{', 'x', '}']);
    assert_eq!(targets[1].key, "yz");
    assert_eq!(targets[1].pattern, vec!['{', 'y', 'z', '}']);
}

#[test]
fn render_with_substitutes_one_line() {
    let formatter = Formatter { format: "{1}+{2}".to_string() };
    let targets = formatter.targets();
    let line = formatter.render_with(&targets, &fields(&[("1", "a"), ("2", "b")]));
    assert_eq!(line, vec!['a', '+', 'b']);
}

#[test]
fn replace_in_replaces_from_the_left() {
    assert_eq!(replaced("aaa", "aa", "b"), "ba");
    assert_eq!(replaced("abcabc", "bc", ""), "aa");
    assert_eq!(replaced("abc", "abcd", "x"), "abc");
    assert_eq!(replaced("abc", "", "x"), "abc");
    assert_eq!(replaced("", "a", "x"), "");
    assert_eq!(replaced("xax", "a", "aa"), "xaax");
}

#[test]
fn format_with_brace_in_key_follows_key_order() {
    assert_eq!(keys("{a} {x{a}"), ["a", "x{a"]);
    assert_eq!(render("{a} {x{a}", &[("a", "1"), ("x{a", "2")]), "1 {x1");
    assert_eq!(render("{x{a} {a}", &[("a", "1"), ("x{a", "2")]), "2 1");
}

#[test]
fn format_without_braces_in_keys_and_values_replaces_each_placeholder() {
    let entries = [("a", "1}"), ("b", "a}"), ("c", "")];
    assert_eq!(render("{a}{b}{c}{a}", &entries), "1}a}1}");
    assert_eq!(render("{b}{a}{c}{b}", &entries), "a}1}a}");
    assert_eq!(render("} {a} }{}{b", &entries), "} 1} }{}{b");
    assert_eq!(render("}{a}{", &entries), "}1}{");
}
