use linescan::fields::ScanLineResult;
use linescan::scanner::{
    fields_of_match, fields_of_split, DelimiterScanner, PatternScanner, Scanner,
};
use regex::Regex;

#[test]
fn test_scan_named_and_unnamed_patterns() {
    let input = "yusuke.sangenya age:25
unmatched.line age:aaa
taro.tanaka   age:55"
        .to_string();
    let scanner = PatternScanner {
        pattern: Regex::new(r"(?P<first>.+?)\.(?P<last>.+?)\s+age:(\d+)").unwrap(),
    };
    let results = scanner.scan(input);

    assert_eq!(results[0].get("first"), String::from("yusuke"));
    assert_eq!(results[0].get("last"), String::from("sangenya"));
    assert_eq!(results[0].get("3"), String::from("25"));

    // unmatched line
    assert_eq!(results[1].get("1"), String::from(""));

    assert_eq!(results[2].get("first"), String::from("taro"));
    assert_eq!(results[2].get("last"), String::from("tanaka"));
    assert_eq!(results[2].get("3"), String::from("55"));
}

#[test]
fn main_test_scan_named_and_unnamed_patterns() {
    let input = "aaa,bbb,,ccc
a a a
xxx,,yyy,zzz
"
    .to_string();
    let scanner = DelimiterScanner {
        delimiter: Regex::new(r",+").unwrap(),
    };
    let results = scanner.scan(input);

    assert_eq!(results[0].get("1"), String::from("aaa"));
    assert_eq!(results[0].get("2"), String::from("bbb"));
    assert_eq!(results[0].get("3"), String::from("ccc"));

    assert_eq!(results[1].get("1"), String::from("a a a"));
    assert_eq!(results[1].get("2"), String::from(""));

    assert_eq!(results[2].get("1"), String::from("xxx"));
    assert_eq!(results[2].get("2"), String::from("yyy"));
    assert_eq!(results[2].get("3"), String::from("zzz"));
}

fn pattern(text: &str) -> PatternScanner {
    PatternScanner { pattern: Regex::new(text).unwrap() }
}

fn delimiter(text: &str) -> DelimiterScanner {
    DelimiterScanner { delimiter: Regex::new(text).unwrap() }
}

#[test]
fn pattern_scan_gives_one_result_per_line() {
    let results = pattern(r"\d+").scan("a1\n\nb22\nccc\n".to_string());
    assert_eq!(results.len(), 4);
    assert_eq!(results[0].get("0"), "1");
    assert_eq!(results[1].get("0"), "");
    assert_eq!(results[2].get("0"), "22");
    assert_eq!(results[3].get("0"), "");
}

#[test]
fn pattern_scan_of_empty_input_is_empty() {
    assert_eq!(pattern("x").scan(String::new()).len(), 0);
    assert_eq!(delimiter("x").scan(String::new()).len(), 0);
}

#[test]
fn pattern_unmatched_line_has_no_fields() {
    let results = pattern(r"(?P<word>[a-z]+)-(\d+)").scan("no match here".to_string());
    assert_eq!(results.len(), 1);
    for key in ["0", "1", "2", "word", "", "anything"] {
        assert_eq!(results[0].get(key), "");
    }
}

#[test]
fn pattern_named_group_same_by_name_and_index() {
    let scanner = pattern(r"(?P<key>\w+)=(?P<value>\w*)(;(?P<rest>.*))?");
    let results = scanner.scan("a=1\nbb=22;tail\nc=".to_string());
    let names = [("key", "1"), ("value", "2"), ("rest", "4")];
    for result in results.iter() {
        for (name, index) in names {
            assert_eq!(result.get(name), result.get(index));
        }
    }
    assert_eq!(results[0].get("key"), "a");
    assert_eq!(results[0].get("value"), "1");
    assert_eq!(results[0].get("rest"), "");
    assert_eq!(results[1].get("rest"), "tail");
    assert_eq!(results[1].get("3"), ";tail");
    assert_eq!(results[2].get("value"), "");
}

#[test]
fn pattern_uses_first_match_only() {
    let results = pattern(r"(\d)(\d)").scan("x12y34".to_string());
    assert_eq!(results[0].get("0"), "12");
    assert_eq!(results[0].get("1"), "1");
    assert_eq!(results[0].get("2"), "2");
    assert_eq!(results[0].get("3"), "");
}

#[test]
fn pattern_group_outside_the_match_writes_nothing() {
    let results = pattern(r"(?P<a>a)|(?P<b>b)").scan("b\na".to_string());
    assert_eq!(results[0].get("a"), "");
    assert_eq!(results[0].get("1"), "");
    assert_eq!(results[0].get("b"), "b");
    assert_eq!(results[0].get("2"), "b");
    assert_eq!(results[1].get("a"), "a");
    assert_eq!(results[1].get("2"), "");
}

#[test]
fn pattern_with_more_than_nine_groups_uses_decimal_keys() {
    let scanner = pattern(r"(a)(b)(c)(d)(e)(f)(g)(h)(i)(j)(k)(l)");
    let results = scanner.scan("abcdefghijkl".to_string());
    assert_eq!(results[0].get("9"), "i");
    assert_eq!(results[0].get("10"), "j");
    assert_eq!(results[0].get("11"), "k");
    assert_eq!(results[0].get("12"), "l");
    assert_eq!(results[0].get("13"), "");
}

#[test]
fn delimiter_field_zero_is_the_line() {
    let input = "aaa,bbb,,ccc\n\n,\nplain";
    let results = delimiter(",+").scan(input.to_string());
    let lines: Vec<&str> = vec!["aaa,bbb,,ccc", "", ",", "plain"];
    assert_eq!(results.len(), lines.len());
    for (result, line) in results.iter().zip(lines) {
        assert_eq!(result.get("0"), line);
    }
}

#[test]
fn delimiter_collapses_runs_under_plus() {
    let results = delimiter(",+").scan("aaa,bbb,,ccc".to_string());
    assert_eq!(results[0].get("1"), "aaa");
    assert_eq!(results[0].get("2"), "bbb");
    assert_eq!(results[0].get("3"), "ccc");
    assert_eq!(results[0].get("4"), "");
}

#[test]
fn delimiter_without_match_gives_one_field() {
    let results = delimiter(",+").scan("a a a".to_string());
    assert_eq!(results[0].get("0"), "a a a");
    assert_eq!(results[0].get("1"), "a a a");
    assert_eq!(results[0].get("2"), "");
}

#[test]
fn delimiter_keeps_empty_parts() {
    let results = delimiter(",").scan(",a,,b,".to_string());
    assert_eq!(results[0].get("1"), "");
    assert_eq!(results[0].get("2"), "a");
    assert_eq!(results[0].get("3"), "");
    assert_eq!(results[0].get("4"), "b");
    assert_eq!(results[0].get("5"), "");
    assert_eq!(results[0].get("6"), "");
}

#[test]
fn delimiter_empty_line_has_zero_and_one() {
    let results = delimiter(",").scan("\nx".to_string());
    assert_eq!(results.len(), 2);
    assert_eq!(results[0].get("0"), "");
    assert_eq!(results[0].get("1"), "");
    assert_eq!(results[0].get("2"), "");
}

#[test]
fn delimiter_never_writes_names() {
    let results = delimiter(r"(?P<sep>,)").scan("a,b".to_string());
    assert_eq!(results[0].get("sep"), "");
    assert_eq!(results[0].get("1"), "a");
    assert_eq!(results[0].get("2"), "b");
}

#[test]
fn fields_of_match_writes_names_and_positions() {
    let names = vec![None, Some("first".to_string()), None];
    let groups = Some(vec![Some("ab".to_string()), Some("a".to_string()), None]);
    let result: ScanLineResult = fields_of_match(&names, &groups);
    assert_eq!(result.get("0"), "ab");
    assert_eq!(result.get("1"), "a");
    assert_eq!(result.get("first"), "a");
    assert_eq!(result.get("2"), "");
    let none = fields_of_match(&names, &None);
    assert_eq!(none.get("0"), "");
    assert_eq!(none.get("first"), "");
}

#[test]
fn fields_of_match_later_write_wins() {
    let names = vec![None, Some("2".to_string()), None];
    let groups = Some(vec![
        Some("xyz".to_string()),
        Some("x".to_string()),
        Some("z".to_string()),
    ]);
    let result = fields_of_match(&names, &groups);
    assert_eq!(result.get("1"), "x");
    assert_eq!(result.get("2"), "z");
}

#[test]
fn fields_of_split_numbers_parts_from_one() {
    let parts = vec!["x".to_string(), "".to_string(), "y".to_string()];
    let result = fields_of_split("x,,y", &parts);
    assert_eq!(result.get("0"), "x,,y");
    assert_eq!(result.get("1"), "x");
    assert_eq!(result.get("2"), "");
    assert_eq!(result.get("3"), "y");
    assert_eq!(result.get("4"), "");
    let bare = fields_of_split("", &Vec::new());
    assert_eq!(bare.get("0"), "");
    assert_eq!(bare.get("1"), "");
}

#[test]
fn pattern_result_is_empty_exactly_where_nothing_matched() {
    let scanner = pattern(r"(?P<n>\d+)|(x)?y");
    let input = "ab12\nnothing\n\ny\nxy 7";
    let results = scanner.scan(input.to_string());
    let matched = [true, false, false, true, true];
    assert_eq!(results.len(), matched.len());
    for (result, line) in results.iter().zip(input.lines()) {
        assert_eq!(result.is_empty(), !scanner.pattern.is_match(line));
    }
    for (result, matched) in results.iter().zip(matched) {
        assert_eq!(result.is_empty(), !matched);
    }
}

#[test]
fn pattern_matched_line_holds_the_whole_match_under_zero() {
    let results = pattern(r"(\d*)").scan("abc\n12".to_string());
    assert!(!results[0].is_empty());
    assert_eq!(results[0].get("0"), "");
    assert_eq!(results[0].get("1"), "");
    assert_eq!(results[1].get("0"), "12");
    let whole = pattern(r"b+").scan("abbbc".to_string());
    assert_eq!(whole[0].get("0"), "bbb");
    assert_eq!(whole[0].get("1"), "");
}

#[test]
fn delimiter_result_is_never_empty() {
    let results = delimiter(",").scan("\n,\na".to_string());
    assert_eq!(results.len(), 3);
    for result in results.iter() {
        assert!(!result.is_empty());
    }
    assert_eq!(results[2].get("1"), "a");
}

#[test]
fn every_field_value_is_a_piece_of_its_line() {
    let input = "key=value; other\nab,cd,,ef\n\n  x  ";
    let by_pattern = pattern(r"(?P<k>\w+)(=(?P<v>\w+))?").scan(input.to_string());
    let by_delimiter = delimiter(r"[,;=]\s*").scan(input.to_string());
    let keys = ["0", "1", "2", "3", "4", "5", "k", "v"];
    for (index, line) in input.lines().enumerate() {
        for key in keys {
            assert!(line.contains(by_pattern[index].get(key).as_str()));
            assert!(line.contains(by_delimiter[index].get(key).as_str()));
        }
    }
    assert_eq!(by_pattern[0].get("v"), "value");
    assert_eq!(by_delimiter[0].get("3"), "other");
}
