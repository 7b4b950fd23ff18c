//! The two ways of extracting fields from a line: by the capture groups of a
//! pattern, and by cutting the line at a delimiter.

use crate::engine::{
    first_match, group_names, is_group_name, optional_texts, regex_first_match,
    regex_group_names, regex_source, regex_split, source_text, split_line, well_formed_names,
};
use crate::fields::{lookup, ScanLineResult};
use crate::text::{
    decimal, index_key, is_piece_of, lemma_decimal_injective, lemma_decimal_starts_with_digit,
    lines_of, split_lines, texts_of,
};
use regex::Regex;
use vstd::prelude::*;

verus! {

/// The fields written by the first `n` groups of a match. A group that took part
/// in the match writes its text under its name, if it has one, and then under
/// the numeral of its index; a group that took no part writes nothing.
pub open spec fn capture_fields(
    names: Seq<Option<Seq<char>>>,
    groups: Seq<Option<Seq<char>>>,
    n: nat,
) -> Map<Seq<char>, Seq<char>>
    decreases n,
{
    if n == 0 {
        Map::empty()
    } else {
        let i = (n - 1) as nat;
        let before = capture_fields(names, groups, i);
        if i < groups.len() && groups[i as int] is Some {
            let text = groups[i as int]->0;
            let named = if i < names.len() && names[i as int] is Some {
                before.insert(names[i as int]->0, text)
            } else {
                before
            };
            named.insert(decimal(i), text)
        } else {
            before
        }
    }
}

/// The fields of a line, given the group names of the pattern and what the
/// pattern's first match in the line captured: none where there was no match.
pub open spec fn match_fields(
    names: Seq<Option<Seq<char>>>,
    found: Option<Seq<Option<Seq<char>>>>,
) -> Map<Seq<char>, Seq<char>> {
    match found {
        Some(groups) => capture_fields(names, groups, names.len()),
        None => Map::empty(),
    }
}

/// The fields written by a line and the first `n` of its parts: the whole line
/// under `0`, and the part at position `i` under the numeral of `i + 1`.
pub open spec fn part_fields(line: Seq<char>, parts: Seq<Seq<char>>, n: nat) -> Map<
    Seq<char>,
    Seq<char>,
>
    decreases n,
{
    if n == 0 {
        Map::empty().insert(decimal(0), line)
    } else {
        part_fields(line, parts, (n - 1) as nat).insert(decimal(n), parts[n - 1])
    }
}

/// The fields of a line that a delimiter cut into `parts`.
pub open spec fn split_fields(line: Seq<char>, parts: Seq<Seq<char>>) -> Map<
    Seq<char>,
    Seq<char>,
> {
    part_fields(line, parts, parts.len())
}

/// Builds the fields of one line from the group names of a pattern and from what
/// its first match in the line captured.
pub fn fields_of_match(names: &Vec<Option<String>>, found: &Option<Vec<Option<String>>>) -> (result:
    ScanLineResult)
    ensures
        result@ == match_fields(
            optional_texts(names@),
            match found {
                Some(groups) => Some(optional_texts(groups@)),
                None => None,
            },
        ),
{
    let mut result = ScanLineResult::new();
    if let Some(groups) = found {
        let mut i: usize = 0;
        while i < names.len()
            invariant
                i <= names@.len(),
                result@ == capture_fields(
                    optional_texts(names@),
                    optional_texts(groups@),
                    i as nat,
                ),
            decreases names@.len() - i,
        {
            if i < groups.len() {
                if let Some(text) = &groups[i] {
                    if let Some(name) = &names[i] {
                        result.insert(name.clone(), text.clone());
                    }
                    result.insert(index_key(i), text.clone());
                }
            }
            i += 1;
        }
    }
    result
}

/// Builds the fields of one line from the line and the parts into which a
/// delimiter cut it.
pub fn fields_of_split(line: &str, parts: &Vec<String>) -> (result: ScanLineResult)
    ensures
        result@ == split_fields(line@, texts_of(parts@)),
{
    let mut result = ScanLineResult::new();
    result.insert(index_key(0), String::from_str(line));
    let mut i: usize = 0;
    while i < parts.len()
        invariant
            i <= parts@.len(),
            result@ == part_fields(line@, texts_of(parts@), i as nat),
        decreases parts@.len() - i,
    {
        result.insert(index_key(i + 1), parts[i].clone());
        i += 1;
    }
    result
}

/// A way of turning each line of a text into fields.
pub trait Scanner {
    /// The fields that this scanner finds in `line`.
    spec fn line_fields(&self, line: Seq<char>) -> Map<Seq<char>, Seq<char>>;

    /// Scans `input` line by line: one result for each line, in the order of the
    /// lines, each holding the fields of its line.
    fn scan(&self, input: String) -> (results: Vec<ScanLineResult>)
        ensures
            results@.len() == lines_of(input@).len(),
            forall|i: int|
                0 <= i < results@.len() ==> (#[trigger] results@[i])@ == self.line_fields(
                    lines_of(input@)[i],
                ),
    ;
}

/// Extracts fields with the capture groups of a pattern, from the first match of
/// the pattern in each line.
#[derive(Debug)]
pub struct PatternScanner {
    pub pattern: Regex,
}

impl PatternScanner {
    /// The text of the pattern.
    pub fn expression(&self) -> (source: String)
        ensures
            source@ == regex_source(&self.pattern),
    {
        source_text(&self.pattern)
    }
}

impl Scanner for PatternScanner {
    open spec fn line_fields(&self, line: Seq<char>) -> Map<Seq<char>, Seq<char>> {
        match_fields(regex_group_names(&self.pattern), regex_first_match(&self.pattern, line))
    }

    fn scan(&self, input: String) -> (results: Vec<ScanLineResult>)
        ensures
            well_formed_names(regex_group_names(&self.pattern)),
            forall|i: int|
                0 <= i < results@.len() ==> whole_match_first(
                    regex_group_names(&self.pattern),
                    #[trigger] regex_first_match(&self.pattern, lines_of(input@)[i]),
                ),
            forall|i: int|
                0 <= i < results@.len() ==> ((#[trigger] results@[i])@ == Map::<
                    Seq<char>,
                    Seq<char>,
                >::empty() <==> regex_first_match(&self.pattern, lines_of(input@)[i]) is None),
            forall|i: int|
                0 <= i < results@.len() && regex_first_match(
                    &self.pattern,
                    lines_of(input@)[i],
                ) is Some ==> (#[trigger] results@[i])@.contains_key(seq!['0']),
            forall|i: int|
                0 <= i < results@.len() ==> values_from(
                    (#[trigger] results@[i])@,
                    lines_of(input@)[i],
                ),
    {
        let names = group_names(&self.pattern);
        let lines = split_lines(input.as_str());
        let mut results: Vec<ScanLineResult> = Vec::new();
        let mut i: usize = 0;
        while i < lines.len()
            invariant
                i <= lines@.len(),
                results@.len() == i,
                texts_of(lines@) == lines_of(input@),
                optional_texts(names@) == regex_group_names(&self.pattern),
                well_formed_names(regex_group_names(&self.pattern)),
                forall|j: int|
                    0 <= j < i ==> (#[trigger] results@[j])@ == self.line_fields(
                        lines_of(input@)[j],
                    ),
                forall|j: int|
                    0 <= j < i ==> whole_match_first(
                        regex_group_names(&self.pattern),
                        #[trigger] regex_first_match(&self.pattern, lines_of(input@)[j]),
                    ),
                forall|j: int|
                    0 <= j < i ==> values_from((#[trigger] results@[j])@, lines_of(input@)[j]),
            decreases lines@.len() - i,
        {
            let found = first_match(&self.pattern, lines[i].as_str());
            let result = fields_of_match(&names, &found);
            proof {
                let line = lines@[i as int]@;
                assert(texts_of(lines@)[i as int] == line);
                let matched = regex_first_match(&self.pattern, line);
                assert(captured_from(matched, line)) by {
                    if let Some(groups) = found {
                        let texts = optional_texts(groups@);
                        assert forall|k: int| #[trigger] took_part(texts, k) implies is_piece_of(
                            texts[k]->0,
                            line,
                        ) by {
                            assert(groups@[k] is Some);
                        }
                    }
                }
                lemma_match_values_from_line(regex_group_names(&self.pattern), matched, line);
            }
            results.push(result);
            i += 1;
        }
        proof {
            let names = regex_group_names(&self.pattern);
            assert forall|i: int| 0 <= i < results@.len() implies ((#[trigger] results@[i])@
                == Map::<Seq<char>, Seq<char>>::empty() <==> regex_first_match(
                &self.pattern,
                lines_of(input@)[i],
            ) is None) && (regex_first_match(&self.pattern, lines_of(input@)[i]) is Some
                ==> results@[i]@.contains_key(seq!['0'])) by {
                let found = regex_first_match(&self.pattern, lines_of(input@)[i]);
                assert(whole_match_first(names, found));
                lemma_matched_line_has_field_zero(names, found);
            }
        }
        results
    }
}

/// Extracts fields by cutting each line at every match of a delimiter.
#[derive(Debug)]
pub struct DelimiterScanner {
    pub delimiter: Regex,
}

impl DelimiterScanner {
    /// The text of the delimiter.
    pub fn expression(&self) -> (source: String)
        ensures
            source@ == regex_source(&self.delimiter),
    {
        source_text(&self.delimiter)
    }
}

impl Scanner for DelimiterScanner {
    open spec fn line_fields(&self, line: Seq<char>) -> Map<Seq<char>, Seq<char>> {
        split_fields(line, regex_split(&self.delimiter, line))
    }

    fn scan(&self, input: String) -> (results: Vec<ScanLineResult>)
        ensures
            forall|i: int|
                0 <= i < results@.len() ==> (#[trigger] regex_split(
                    &self.delimiter,
                    lines_of(input@)[i],
                )).len() >= 1,
            forall|i: int|
                0 <= i < results@.len() ==> (#[trigger] results@[i])@.contains_key(seq!['1'])
                    && results@[i]@[seq!['1']] == regex_split(
                    &self.delimiter,
                    lines_of(input@)[i],
                )[0],
            forall|i: int|
                0 <= i < results@.len() ==> values_from(
                    (#[trigger] results@[i])@,
                    lines_of(input@)[i],
                ),
    {
        let lines = split_lines(input.as_str());
        let mut results: Vec<ScanLineResult> = Vec::new();
        let mut i: usize = 0;
        while i < lines.len()
            invariant
                i <= lines@.len(),
                results@.len() == i,
                texts_of(lines@) == lines_of(input@),
                forall|j: int|
                    0 <= j < i ==> (#[trigger] results@[j])@ == self.line_fields(
                        lines_of(input@)[j],
                    ),
                forall|j: int|
                    0 <= j < i ==> (#[trigger] regex_split(
                        &self.delimiter,
                        lines_of(input@)[j],
                    )).len() >= 1,
                forall|j: int|
                    0 <= j < i ==> values_from((#[trigger] results@[j])@, lines_of(input@)[j]),
            decreases lines@.len() - i,
        {
            let parts = split_line(&self.delimiter, lines[i].as_str());
            let result = fields_of_split(lines[i].as_str(), &parts);
            proof {
                let line = lines@[i as int]@;
                assert(texts_of(lines@)[i as int] == line);
                assert forall|k: int| 0 <= k < texts_of(parts@).len() implies is_piece_of(
                    #[trigger] texts_of(parts@)[k],
                    line,
                ) by {
                    assert(is_piece_of(parts@[k]@, line));
                }
                lemma_split_values_from_line(line, texts_of(parts@));
            }
            results.push(result);
            i += 1;
        }
        proof {
            assert forall|i: int| 0 <= i < results@.len() implies (#[trigger] results@[i])@.contains_key(
                seq!['1'],
            ) && results@[i]@[seq!['1']] == regex_split(&self.delimiter, lines_of(input@)[i])[0] by {
                let line = lines_of(input@)[i];
                let parts = regex_split(&self.delimiter, line);
                assert(parts.len() >= 1);
                lemma_first_part_is_field_one(line, parts);
            }
        }
        results
    }
}

/// Group `i` took part in the match that captured `groups`.
pub open spec fn took_part(groups: Seq<Option<Seq<char>>>, i: int) -> bool {
    0 <= i < groups.len() && groups[i] is Some
}

/// Group `i` has a name among `names`.
pub open spec fn has_name(names: Seq<Option<Seq<char>>>, i: int) -> bool {
    0 <= i < names.len() && names[i] is Some
}

/// A group name is the numeral of no number.
pub proof fn lemma_name_is_no_numeral(name: Seq<char>, n: nat)
    requires
        is_group_name(name),
    ensures
        name != decimal(n),
{
    lemma_decimal_starts_with_digit(n);
}

/// What the first `n` groups of a match wrote, where the names are well formed:
/// each group that took part stands under the numeral of its index and, if it has
/// a name, under its name; and no key stands for anything else.
pub proof fn lemma_capture_fields(
    names: Seq<Option<Seq<char>>>,
    groups: Seq<Option<Seq<char>>>,
    n: nat,
)
    requires
        well_formed_names(names),
    ensures
        forall|i: int|
            0 <= i < n && #[trigger] took_part(groups, i) ==> {
                let fields = capture_fields(names, groups, n);
                &&& fields.contains_key(decimal(i as nat))
                &&& fields[decimal(i as nat)] == groups[i]->0
                &&& has_name(names, i) ==> fields.contains_key(names[i]->0) && fields[names[i]->0]
                    == groups[i]->0
            },
        forall|k: Seq<char>| #[trigger]
            capture_fields(names, groups, n).contains_key(k) ==> exists|i: int|
                0 <= i < n && #[trigger] took_part(groups, i) && (k == decimal(i as nat) || (
                has_name(names, i) && k == names[i]->0)),
    decreases n,
{
    if n > 0 {
        let last = (n - 1) as int;
        let before = capture_fields(names, groups, (n - 1) as nat);
        let fields = capture_fields(names, groups, n);
        lemma_capture_fields(names, groups, (n - 1) as nat);
        assert forall|i: int| 0 <= i < n && #[trigger] took_part(groups, i) implies {
            &&& fields.contains_key(decimal(i as nat))
            &&& fields[decimal(i as nat)] == groups[i]->0
            &&& has_name(names, i) ==> fields.contains_key(names[i]->0) && fields[names[i]->0]
                == groups[i]->0
        } by {
            if i < last && took_part(groups, last) {
                if decimal(i as nat) == decimal(last as nat) {
                    lemma_decimal_injective(i as nat, last as nat);
                }
                if has_name(names, last) {
                    lemma_name_is_no_numeral(names[last]->0, i as nat);
                }
                if has_name(names, i) {
                    lemma_name_is_no_numeral(names[i]->0, last as nat);
                }
            }
            if i == last && has_name(names, i) {
                lemma_name_is_no_numeral(names[i]->0, last as nat);
            }
        }
        assert forall|k: Seq<char>| #[trigger] fields.contains_key(k) implies exists|i: int|
            0 <= i < n && #[trigger] took_part(groups, i) && (k == decimal(i as nat) || (has_name(
                names,
                i,
            ) && k == names[i]->0)) by {
            if before.contains_key(k) {
                let i = choose|i: int|
                    0 <= i < n - 1 && #[trigger] took_part(groups, i) && (k == decimal(i as nat)
                        || (has_name(names, i) && k == names[i]->0));
                assert(0 <= i < n && took_part(groups, i));
            } else {
                assert(took_part(groups, last));
            }
        }
    }
}

/// What the engine holds of a match against a pattern with the group names
/// `names`: the match has one entry for each group, there is at least one group,
/// and the first group, which stands for the whole match, took part.
pub open spec fn whole_match_first(
    names: Seq<Option<Seq<char>>>,
    found: Option<Seq<Option<Seq<char>>>>,
) -> bool {
    found matches Some(groups) ==> groups.len() == names.len() && groups.len() >= 1
        && groups[0] is Some
}

/// Every group that took part in the match captured a piece of `line`.
pub open spec fn captured_from(found: Option<Seq<Option<Seq<char>>>>, line: Seq<char>) -> bool {
    found matches Some(groups) ==> forall|i: int| #[trigger]
        took_part(groups, i) ==> is_piece_of(groups[i]->0, line)
}

/// Every value among `fields` is a piece of `line`.
pub open spec fn values_from(fields: Map<Seq<char>, Seq<char>>, line: Seq<char>) -> bool {
    forall|key: Seq<char>| #[trigger] fields.contains_key(key) ==> is_piece_of(fields[key], line)
}

/// Every field that a match wrote holds the text of a group that took part.
pub proof fn lemma_capture_values(
    names: Seq<Option<Seq<char>>>,
    groups: Seq<Option<Seq<char>>>,
    n: nat,
)
    ensures
        forall|key: Seq<char>| #[trigger]
            capture_fields(names, groups, n).contains_key(key) ==> exists|i: int| #[trigger]
                took_part(groups, i) && capture_fields(names, groups, n)[key] == groups[i]->0,
    decreases n,
{
    if n > 0 {
        let last = (n - 1) as int;
        let before = capture_fields(names, groups, (n - 1) as nat);
        let fields = capture_fields(names, groups, n);
        lemma_capture_values(names, groups, (n - 1) as nat);
        assert forall|key: Seq<char>| #[trigger] fields.contains_key(key) implies exists|i: int| #[trigger]
            took_part(groups, i) && fields[key] == groups[i]->0 by {
            if took_part(groups, last) && fields[key] == groups[last]->0 {
            } else {
                assert(before.contains_key(key) && before[key] == fields[key]);
                let i = choose|i: int| #[trigger] took_part(groups, i) && before[key] == groups[i]->0;
                assert(took_part(groups, i) && fields[key] == groups[i]->0);
            }
        }
    }
}

/// The fields of a line hold nothing but captured text: where every group
/// captured a piece of the line, every field value is a piece of the line.
pub proof fn lemma_match_values_from_line(
    names: Seq<Option<Seq<char>>>,
    found: Option<Seq<Option<Seq<char>>>>,
    line: Seq<char>,
)
    requires
        captured_from(found, line),
    ensures
        values_from(match_fields(names, found), line),
{
    if let Some(groups) = found {
        lemma_capture_values(names, groups, names.len());
        let fields = match_fields(names, found);
        assert forall|key: Seq<char>| #[trigger] fields.contains_key(key) implies is_piece_of(
            fields[key],
            line,
        ) by {
            let i = choose|i: int| #[trigger] took_part(groups, i) && fields[key] == groups[i]->0;
            assert(took_part(groups, i));
        }
    }
}

/// The fields of a line cut by a delimiter hold the line and its parts: where
/// every part is a piece of the line, every field value is.
pub proof fn lemma_split_values_from_line(line: Seq<char>, parts: Seq<Seq<char>>)
    requires
        forall|i: int| 0 <= i < parts.len() ==> is_piece_of(#[trigger] parts[i], line),
    ensures
        values_from(split_fields(line, parts), line),
{
    let fields = split_fields(line, parts);
    lemma_part_fields(line, parts, parts.len());
    assert(line.subrange(0, line.len() as int) =~= line);
    assert(is_piece_of(line, line));
    assert forall|key: Seq<char>| #[trigger] fields.contains_key(key) implies is_piece_of(
        fields[key],
        line,
    ) by {
        let i = choose|i: int| 0 <= i <= parts.len() && #[trigger] is_numeral_of(key, i);
        if i == 0 {
        } else {
            assert(fields.contains_key(decimal(i as nat)));
            assert(is_piece_of(parts[i - 1], line));
        }
    }
}

/// A line has no fields if and only if the pattern matched nowhere in it; a line
/// in which it matched holds the whole match under `0`.
pub proof fn lemma_matched_line_has_field_zero(
    names: Seq<Option<Seq<char>>>,
    found: Option<Seq<Option<Seq<char>>>>,
)
    requires
        well_formed_names(names),
        whole_match_first(names, found),
    ensures
        match_fields(names, found) == Map::<Seq<char>, Seq<char>>::empty() <==> found is None,
        found matches Some(groups) ==> match_fields(names, found).contains_key(seq!['0'])
            && match_fields(names, found)[seq!['0']] == groups[0]->0,
{
    if let Some(groups) = found {
        lemma_capture_fields(names, groups, names.len());
        assert(took_part(groups, 0));
        assert(decimal(0) =~= seq!['0']);
        assert(match_fields(names, found).contains_key(decimal(0)));
    }
}

/// A line in which the pattern matches nowhere has no fields: every lookup gives
/// the empty text.
pub proof fn lemma_unmatched_line_has_no_fields(
    scanner: &PatternScanner,
    line: Seq<char>,
    key: Seq<char>,
)
    requires
        regex_first_match(&scanner.pattern, line) is None,
    ensures
        lookup(scanner.line_fields(line), key) == Seq::<char>::empty(),
{
}

/// The value of a named group is the same whether it is looked up by its name
/// or by the numeral of its index.
pub proof fn lemma_named_group_by_name_or_index(
    names: Seq<Option<Seq<char>>>,
    found: Option<Seq<Option<Seq<char>>>>,
    i: int,
)
    requires
        well_formed_names(names),
        has_name(names, i),
    ensures
        lookup(match_fields(names, found), names[i]->0) == lookup(
            match_fields(names, found),
            decimal(i as nat),
        ),
{
    if let Some(groups) = found {
        let fields = capture_fields(names, groups, names.len());
        lemma_capture_fields(names, groups, names.len());
        if took_part(groups, i) {
        } else {
            if fields.contains_key(names[i]->0) {
                let j = choose|j: int|
                    0 <= j < names.len() && #[trigger] took_part(groups, j) && (names[i]->0
                        == decimal(j as nat) || (has_name(names, j) && names[i]->0
                        == names[j]->0));
                lemma_name_is_no_numeral(names[i]->0, j as nat);
            }
            if fields.contains_key(decimal(i as nat)) {
                let j = choose|j: int|
                    0 <= j < names.len() && #[trigger] took_part(groups, j) && (decimal(i as nat)
                        == decimal(j as nat) || (has_name(names, j) && decimal(i as nat)
                        == names[j]->0));
                if decimal(i as nat) == decimal(j as nat) {
                    lemma_decimal_injective(i as nat, j as nat);
                } else {
                    lemma_name_is_no_numeral(names[j]->0, i as nat);
                }
            }
        }
    }
}

/// The same law for a scanner: on every line, a named group of its pattern has
/// one value under its name and under the numeral of its index.
pub proof fn lemma_scanner_named_group(scanner: &PatternScanner, line: Seq<char>, i: int)
    requires
        well_formed_names(regex_group_names(&scanner.pattern)),
        has_name(regex_group_names(&scanner.pattern), i),
    ensures
        lookup(scanner.line_fields(line), regex_group_names(&scanner.pattern)[i]->0) == lookup(
            scanner.line_fields(line),
            decimal(i as nat),
        ),
{
    lemma_named_group_by_name_or_index(
        regex_group_names(&scanner.pattern),
        regex_first_match(&scanner.pattern, line),
        i,
    );
}

/// `key` is the numeral of `i`.
pub open spec fn is_numeral_of(key: Seq<char>, i: int) -> bool {
    i >= 0 && key == decimal(i as nat)
}

/// What a line and the first `n` of its parts wrote: the line under `0`, each
/// part under the numeral of its position counted from one, and nothing under
/// any other key.
pub proof fn lemma_part_fields(line: Seq<char>, parts: Seq<Seq<char>>, n: nat)
    requires
        n <= parts.len(),
    ensures
        part_fields(line, parts, n).contains_key(decimal(0)),
        part_fields(line, parts, n)[decimal(0)] == line,
        forall|i: int|
            1 <= i <= n ==> part_fields(line, parts, n).contains_key(#[trigger] decimal(i as nat))
                && part_fields(line, parts, n)[decimal(i as nat)] == parts[i - 1],
        forall|k: Seq<char>| #[trigger]
            part_fields(line, parts, n).contains_key(k) ==> exists|i: int|
                0 <= i <= n && #[trigger] is_numeral_of(k, i),
    decreases n,
{
    let fields = part_fields(line, parts, n);
    if n > 0 {
        let before = part_fields(line, parts, (n - 1) as nat);
        lemma_part_fields(line, parts, (n - 1) as nat);
        if decimal(0) == decimal(n) {
            lemma_decimal_injective(0, n);
        }
        assert forall|i: int| 1 <= i <= n implies fields.contains_key(
            #[trigger] decimal(i as nat),
        ) && fields[decimal(i as nat)] == parts[i - 1] by {
            if i < n && decimal(i as nat) == decimal(n) {
                lemma_decimal_injective(i as nat, n);
            }
        }
        assert forall|k: Seq<char>| #[trigger] fields.contains_key(k) implies exists|i: int|
            0 <= i <= n && #[trigger] is_numeral_of(k, i) by {
            if before.contains_key(k) {
                let i = choose|i: int| 0 <= i <= n - 1 && #[trigger] is_numeral_of(k, i);
                assert(0 <= i <= n && is_numeral_of(k, i));
            } else {
                assert(is_numeral_of(k, n as int));
            }
        }
    } else {
        assert forall|k: Seq<char>| #[trigger] fields.contains_key(k) implies exists|i: int|
            0 <= i <= n && #[trigger] is_numeral_of(k, i) by {
            assert(is_numeral_of(k, 0));
        }
    }
}

/// The field `0` of a line cut by a delimiter is the line itself, whatever the
/// line and whatever its parts.
pub proof fn lemma_field_zero_is_line(scanner: &DelimiterScanner, line: Seq<char>)
    ensures
        lookup(scanner.line_fields(line), seq!['0']) == line,
{
    let parts = regex_split(&scanner.delimiter, line);
    lemma_part_fields(line, parts, parts.len());
    assert(decimal(0) =~= seq!['0']);
}

/// A line cut into at least one part holds its first part under `1`.
pub proof fn lemma_first_part_is_field_one(line: Seq<char>, parts: Seq<Seq<char>>)
    requires
        parts.len() >= 1,
    ensures
        split_fields(line, parts).contains_key(seq!['1']),
        split_fields(line, parts)[seq!['1']] == parts[0],
{
    lemma_part_fields(line, parts, parts.len());
    assert(decimal(1) =~= seq!['1']);
    assert(split_fields(line, parts).contains_key(decimal(1int as nat)));
}

/// The field at position `n` of a line cut by a delimiter, for `n` from one on,
/// is the part at `n - 1`, or empty where the line has fewer parts.
pub proof fn lemma_field_is_part(line: Seq<char>, parts: Seq<Seq<char>>, n: nat)
    requires
        n >= 1,
    ensures
        lookup(split_fields(line, parts), decimal(n)) == if n <= parts.len() {
            parts[n - 1]
        } else {
            Seq::<char>::empty()
        },
{
    let fields = split_fields(line, parts);
    lemma_part_fields(line, parts, parts.len());
    if n <= parts.len() {
        let i = n as int;
        assert(fields.contains_key(decimal(i as nat)));
    } else if fields.contains_key(decimal(n)) {
        let i = choose|i: int| 0 <= i <= parts.len() && #[trigger] is_numeral_of(decimal(n), i);
        lemma_decimal_injective(n, i as nat);
    }
}

} // verus!
