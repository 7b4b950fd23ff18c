//! Choosing the scanner from what the caller supplied.

use crate::engine::{compile, error_text, regex_error_text, regex_source};
use crate::fields::ScanLineResult;
use crate::scanner::{DelimiterScanner, PatternScanner, Scanner};
use regex::Regex;
use vstd::prelude::*;

verus! {

/// The delimiter used where neither a pattern nor a delimiter is supplied: one or
/// more characters of whitespace.
pub const DEFAULT_DELIMITER: &'static str = "\\s+";

/// Why no scanner could be chosen.
#[derive(Debug)]
pub enum ConfigError {
    /// A pattern and a delimiter were both supplied.
    PatternAndDelimiter,
    /// The engine refused the expression; its error says why.
    InvalidExpression(regex::Error),
}

impl ConfigError {
    /// A text for the one who supplied the configuration: a fixed sentence where
    /// both a pattern and a delimiter were supplied, else the engine's own words.
    pub fn message(&self) -> (text: String)
        ensures
            text@ == match self {
                ConfigError::PatternAndDelimiter => "Give pattern xor delimiter."@,
                ConfigError::InvalidExpression(error) => regex_error_text(error),
            },
    {
        match self {
            ConfigError::PatternAndDelimiter => String::from_str("Give pattern xor delimiter."),
            ConfigError::InvalidExpression(error) => error_text(error),
        }
    }
}

/// The use that a scanner makes of its expression.
#[derive(Clone, Copy, Debug, PartialEq, Eq)]
pub enum Extraction {
    /// The capture groups of the expression give the fields.
    Pattern,
    /// The expression cuts the line into fields.
    Delimiter,
}

/// The scanner chosen for a run: one of the two kinds.
#[derive(Debug)]
pub enum SelectedScanner {
    Pattern(PatternScanner),
    Delimiter(DelimiterScanner),
}

impl Scanner for SelectedScanner {
    open spec fn line_fields(&self, line: Seq<char>) -> Map<Seq<char>, Seq<char>> {
        match self {
            SelectedScanner::Pattern(scanner) => scanner.line_fields(line),
            SelectedScanner::Delimiter(scanner) => scanner.line_fields(line),
        }
    }

    fn scan(&self, input: String) -> (results: Vec<ScanLineResult>) {
        match self {
            SelectedScanner::Pattern(scanner) => scanner.scan(input),
            SelectedScanner::Delimiter(scanner) => scanner.scan(input),
        }
    }
}

impl SelectedScanner {
    /// The compiled expression that the scanner works with.
    pub open spec fn expression(&self) -> &Regex {
        match self {
            SelectedScanner::Pattern(scanner) => &scanner.pattern,
            SelectedScanner::Delimiter(scanner) => &scanner.delimiter,
        }
    }

    /// The use that the scanner makes of its expression.
    pub open spec fn extraction(&self) -> Extraction {
        match self {
            SelectedScanner::Pattern(_) => Extraction::Pattern,
            SelectedScanner::Delimiter(_) => Extraction::Delimiter,
        }
    }
}

/// The scanner of the given kind for an expression that the engine compiled, or
/// the error for one that it refused.
pub fn scanner_from(extraction: Extraction, compiled: Result<Regex, regex::Error>) -> (result:
    Result<SelectedScanner, ConfigError>)
    ensures
        result == match compiled {
            Ok(re) => Ok::<SelectedScanner, ConfigError>(
                match extraction {
                    Extraction::Pattern => SelectedScanner::Pattern(
                        (PatternScanner { pattern: re }),
                    ),
                    Extraction::Delimiter => SelectedScanner::Delimiter(
                        (DelimiterScanner { delimiter: re }),
                    ),
                },
            ),
            Err(error) => Err(ConfigError::InvalidExpression(error)),
        },
{
    match compiled {
        Ok(re) => match extraction {
            Extraction::Pattern => Ok(SelectedScanner::Pattern(PatternScanner { pattern: re })),
            Extraction::Delimiter => Ok(
                SelectedScanner::Delimiter(DelimiterScanner { delimiter: re }),
            ),
        },
        Err(error) => Err(ConfigError::InvalidExpression(error)),
    }
}

/// The use that is asked for by supplying `pattern`, `delimiter`, or neither.
pub open spec fn wanted_extraction(pattern: Option<String>) -> Extraction {
    if pattern is Some {
        Extraction::Pattern
    } else {
        Extraction::Delimiter
    }
}

/// The expression that is asked for: the pattern, else the delimiter, else the
/// default delimiter.
pub open spec fn wanted_expression(pattern: Option<String>, delimiter: Option<String>) -> Seq<
    char,
> {
    match (pattern, delimiter) {
        (Some(p), _) => p@,
        (None, Some(d)) => d@,
        (None, None) => DEFAULT_DELIMITER@,
    }
}

/// What is asked of the engine by supplying `pattern`, `delimiter`, or neither:
/// the use to make of an expression, and the expression. Supplying both is an
/// error, and there is no other.
pub fn wanted(pattern: &Option<String>, delimiter: &Option<String>) -> (result: Result<
    (Extraction, String),
    ConfigError,
>)
    ensures
        result is Err <==> (pattern is Some && delimiter is Some),
        result is Err ==> result == Err::<(Extraction, String), ConfigError>(
            ConfigError::PatternAndDelimiter,
        ),
        result matches Ok(asked) ==> asked.0 == wanted_extraction(*pattern) && asked.1@
            == wanted_expression(*pattern, *delimiter),
{
    match (pattern, delimiter) {
        (Some(_), Some(_)) => Err(ConfigError::PatternAndDelimiter),
        (Some(p), None) => Ok((Extraction::Pattern, p.clone())),
        (None, Some(d)) => Ok((Extraction::Delimiter, d.clone())),
        (None, None) => Ok((Extraction::Delimiter, String::from_str(DEFAULT_DELIMITER))),
    }
}

/// Chooses the scanner before any input is read. Supplying both a pattern and a
/// delimiter is an error, and that error comes for no other reason. Otherwise
/// what `wanted` gives is handed to the engine: if the engine accepts the
/// expression, the scanner of the kind asked for is returned, built on that
/// expression; if not, the engine's error. Which expressions the engine accepts
/// is not said here: it weighs the compiled program in bytes of this machine,
/// so acceptance is no function of the expression alone. `scanner_from` says
/// what is returned for each answer of the engine.
pub fn select_scanner(pattern: &Option<String>, delimiter: &Option<String>) -> (result: Result<
    SelectedScanner,
    ConfigError,
>)
    ensures
        (pattern is Some && delimiter is Some) <==> result == Err::<SelectedScanner, ConfigError>(
            ConfigError::PatternAndDelimiter,
        ),
        result matches Ok(scanner) ==> {
            &&& scanner.extraction() == wanted_extraction(*pattern)
            &&& regex_source(scanner.expression()) == wanted_expression(*pattern, *delimiter)
        },
{
    match wanted(pattern, delimiter) {
        Ok(asked) => scanner_from(asked.0, compile(asked.1.as_str())),
        Err(error) => Err(error),
    }
}

} // verus!
