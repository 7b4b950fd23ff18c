use linescan::config::{
    select_scanner, wanted, ConfigError, Extraction, SelectedScanner, DEFAULT_DELIMITER,
};
use linescan::formatter::Formatter;
use linescan::pipeline::process;
use linescan::scanner::Scanner;

fn some(text: &str) -> Option<String> {
    Some(text.to_string())
}

#[test]
fn pattern_and_delimiter_together_are_refused() {
    let result = select_scanner(&some("a"), &some("b"));
    assert!(matches!(result, Err(ConfigError::PatternAndDelimiter)));
    let refused = select_scanner(&some("("), &some("("));
    assert!(matches!(refused, Err(ConfigError::PatternAndDelimiter)));
    assert_eq!(refused.unwrap_err().message(), "Give pattern xor delimiter.");
}

#[test]
fn invalid_expression_is_refused() {
    let pattern = select_scanner(&some("foo(bar"), &None);
    assert!(matches!(pattern, Err(ConfigError::InvalidExpression(_))));
    let delimiter = select_scanner(&None, &some("[a"));
    assert!(matches!(delimiter, Err(ConfigError::InvalidExpression(_))));
    assert!(!delimiter.unwrap_err().message().is_empty());
}

#[test]
fn pattern_selects_the_pattern_scanner() {
    match select_scanner(&some(r"(\d+)"), &None) {
        Ok(SelectedScanner::Pattern(scanner)) => {
            assert_eq!(scanner.expression(), r"(\d+)");
            let results = scanner.scan("ab12".to_string());
            assert_eq!(results[0].get("1"), "12");
        }
        other => panic!("{:?}", other),
    }
}

#[test]
fn delimiter_selects_the_delimiter_scanner() {
    match select_scanner(&None, &some(":")) {
        Ok(SelectedScanner::Delimiter(scanner)) => {
            assert_eq!(scanner.expression(), ":");
            let results = scanner.scan("a:b".to_string());
            assert_eq!(results[0].get("2"), "b");
        }
        other => panic!("{:?}", other),
    }
}

#[test]
fn default_is_runs_of_whitespace() {
    assert_eq!(DEFAULT_DELIMITER, "\\s+");
    match select_scanner(&None, &None) {
        Ok(SelectedScanner::Delimiter(scanner)) => {
            assert_eq!(scanner.expression(), "\\s+");
            let results = scanner.scan("one  two\t three".to_string());
            assert_eq!(results[0].get("0"), "one  two\t three");
            assert_eq!(results[0].get("1"), "one");
            assert_eq!(results[0].get("2"), "two");
            assert_eq!(results[0].get("3"), "three");
            assert_eq!(results[0].get("4"), "");
        }
        other => panic!("{:?}", other),
    }
}

#[test]
fn selected_scanner_scans_as_its_kind() {
    let scanner = select_scanner(&some(r"(?P<n>\d+)"), &None).unwrap();
    let results = scanner.scan("x7\ny".to_string());
    assert_eq!(results.len(), 2);
    assert_eq!(results[0].get("n"), "7");
    assert_eq!(results[1].get("n"), "");
}

#[test]
fn process_scans_then_formats() {
    let scanner = select_scanner(&some(r"(?P<first>.+?)\.(?P<last>.+?)\s+age:(\d+)"), &None).unwrap();
    let formatter = Formatter { format: "{last}, {first} ({3})".to_string() };
    let input = "yusuke.sangenya age:25\nunmatched.line age:aaa\ntaro.tanaka   age:55\n";
    let output = process(&scanner, &formatter, input.to_string());
    assert_eq!(output, "sangenya, yusuke (25)\n,  ()\ntanaka, taro (55)");
}

#[test]
fn process_gives_one_output_line_per_input_line() {
    let scanner = select_scanner(&None, &None).unwrap();
    let formatter = Formatter { format: "{2}|{1}".to_string() };
    for input in ["", "a b", "a b\n", "a b\n\nc d\ne", "\n\n\n"] {
        let output = process(&scanner, &formatter, input.to_string());
        let lines = input.lines().count();
        let rendered = if lines == 0 { 0 } else { output.split('\n').count() };
        assert_eq!(rendered, lines);
    }
}

#[test]
fn process_twice_gives_the_same_output() {
    let scanner = select_scanner(&None, &some(",")).unwrap();
    let formatter = Formatter { format: "{3};{1};{0}".to_string() };
    let input = "a,b,c\n,,\nx";
    let first = process(&scanner, &formatter, input.to_string());
    let second = process(&scanner, &formatter, input.to_string());
    assert_eq!(first, second);
    assert_eq!(first, "c;a;a,b,c\n;;,,\n;x;x");
}

#[test]
fn wanted_refuses_pattern_and_delimiter_together() {
    assert!(matches!(wanted(&some("a"), &some("b")), Err(ConfigError::PatternAndDelimiter)));
    assert!(matches!(wanted(&some(""), &some("")), Err(ConfigError::PatternAndDelimiter)));
}

#[test]
fn wanted_names_the_use_and_the_expression() {
    let pattern = wanted(&some("(a"), &None).unwrap();
    assert_eq!(pattern, (Extraction::Pattern, "(a".to_string()));
    let delimiter = wanted(&None, &some(",+")).unwrap();
    assert_eq!(delimiter, (Extraction::Delimiter, ",+".to_string()));
    let default = wanted(&None, &None).unwrap();
    assert_eq!(default, (Extraction::Delimiter, "\\s+".to_string()));
}

#[test]
fn message_of_refused_expression_is_the_engine_text() {
    let refused = select_scanner(&some("foo(bar"), &None).unwrap_err();
    let expected = regex::Regex::new("foo(bar").unwrap_err().to_string();
    assert_eq!(refused.message(), expected);
    assert_ne!(refused.message(), "Give pattern xor delimiter.");
}
