//! The regular-expression engine. Everything here is taken on trust from the
//! `regex` crate: Verus reads the contracts below and none of the bodies.

use crate::text::{is_piece_of, texts_of};
use regex::Regex;
use vstd::prelude::*;

verus! {

#[verifier::external_type_specification]
#[verifier::external_body]
pub struct ExRegex(regex::Regex);

#[verifier::external_type_specification]
#[verifier::external_body]
pub struct ExRegexError(regex::Error);

/// The pattern text that a compiled expression reports as its source.
pub uninterp spec fn regex_source(re: &Regex) -> Seq<char>;

/// The names of the capture groups of a compiled expression, by group index;
/// `None` stands for a group without a name.
pub uninterp spec fn regex_group_names(re: &Regex) -> Seq<Option<Seq<char>>>;

/// The first match of a compiled expression in `line`: for each group index the
/// text that the group captured, or `None` where the group took no part in the
/// match. `None` as a whole where the expression matches nowhere in `line`.
pub uninterp spec fn regex_first_match(re: &Regex, line: Seq<char>) -> Option<
    Seq<Option<Seq<char>>>,
>;

/// The parts into which a compiled expression, used as a delimiter, cuts `line`,
/// from left to right.
pub uninterp spec fn regex_split(re: &Regex, line: Seq<char>) -> Seq<Seq<char>>;

/// The words in which the engine says why it refused a pattern.
pub uninterp spec fn regex_error_text(error: &regex::Error) -> Seq<char>;

/// The texts of `items`, in order; `None` stays `None`.
pub open spec fn optional_texts(items: Seq<Option<String>>) -> Seq<Option<Seq<char>>> {
    items.map_values(
        |item: Option<String>|
            match item {
                Some(s) => Some(s@),
                None => None,
            },
    )
}

/// What the engine accepts as a group name: a text that is not empty and does
/// not begin with a decimal digit.
pub open spec fn is_group_name(name: Seq<char>) -> bool {
    name.len() > 0 && !('0' <= name[0] <= '9')
}

/// Every name among `names` is one that the engine accepts, and no two groups
/// have the same name.
pub open spec fn well_formed_names(names: Seq<Option<Seq<char>>>) -> bool {
    &&& forall|i: int|
        0 <= i < names.len() && (#[trigger] names[i]) is Some ==> is_group_name(names[i]->0)
    &&& forall|i: int, j: int|
        0 <= i < j < names.len() && (#[trigger] names[i]) is Some && (#[trigger] names[j]) is Some
            ==> names[i]->0 != names[j]->0
}

/// Compiles `pattern` with `regex::Regex::new`. Whether a pattern is accepted is
/// for the engine to say, and no function of the pattern alone: besides its
/// syntax the engine weighs the compiled program, in bytes as this machine lays
/// it out, against a size limit. So nothing is said here of when the result is
/// `Ok`. An accepted pattern reports `pattern` as its source.
#[verifier::external_body]
pub(crate) fn compile(pattern: &str) -> (result: Result<Regex, regex::Error>)
    ensures
        result matches Ok(re) ==> regex_source(&re) == pattern@,
{
    Regex::new(pattern)
}

/// The source text of a compiled expression, from `regex::Regex::as_str`.
#[verifier::external_body]
pub(crate) fn source_text(re: &Regex) -> (source: String)
    ensures
        source@ == regex_source(re),
{
    re.as_str().to_string()
}

/// The engine's own words for why it refused a pattern, from the `Display` impl
/// of `regex::Error`: they are given a name and nothing more is claimed of them.
#[verifier::external_body]
pub(crate) fn error_text(error: &regex::Error) -> (text: String)
    ensures
        text@ == regex_error_text(error),
{
    error.to_string()
}

/// The group names of a compiled expression, from `regex::Regex::capture_names`.
/// The first group stands for the whole match: it is always there and has no
/// name. The engine refuses a pattern in which two groups share a name, and a
/// name must begin with a letter or an underscore.
#[verifier::external_body]
pub(crate) fn group_names(re: &Regex) -> (names: Vec<Option<String>>)
    ensures
        optional_texts(names@) == regex_group_names(re),
        names@.len() >= 1,
        names@[0] is None,
        well_formed_names(optional_texts(names@)),
{
    re.capture_names().map(|name| name.map(|n| n.to_string())).collect()
}

/// The first match of the expression in `line`, from `regex::Regex::captures`,
/// with the text of every group as `regex::Captures::iter` hands them out. A
/// match has one entry for each group of the expression, and its first group,
/// the whole match, always took part. What a group captured is a piece of the
/// line.
#[verifier::external_body]
pub(crate) fn first_match(re: &Regex, line: &str) -> (found: Option<Vec<Option<String>>>)
    ensures
        match found {
            Some(groups) => {
                &&& regex_first_match(re, line@) == Some(optional_texts(groups@))
                &&& groups@.len() == regex_group_names(re).len()
                &&& groups@.len() >= 1
                &&& groups@[0] is Some
                &&& forall|i: int|
                    0 <= i < groups@.len() && (#[trigger] groups@[i]) is Some ==> is_piece_of(
                        groups@[i]->0@,
                        line@,
                    )
            },
            None => regex_first_match(re, line@) is None,
        },
{
    re.captures(line).map(|caps| caps.iter().map(|g| g.map(|m| m.as_str().to_string())).collect())
}

/// The parts of `line` between the matches of the expression, from
/// `regex::Regex::split`. There is always at least one part, and every part is
/// a piece of the line.
#[verifier::external_body]
pub(crate) fn split_line(re: &Regex, line: &str) -> (parts: Vec<String>)
    ensures
        texts_of(parts@) == regex_split(re, line@),
        parts@.len() >= 1,
        forall|i: int| 0 <= i < parts@.len() ==> is_piece_of((#[trigger] parts@[i])@, line@),
{
    re.split(line).map(|part| part.to_string()).collect()
}

} // verus!
