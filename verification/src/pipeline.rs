//! The whole run on a text that was read: scan, then format.

use crate::fields::field_maps;
use crate::formatter::{formatted, rendered_lines, Formatter};
use crate::scanner::Scanner;
use crate::text::lines_of;
use vstd::prelude::*;

verus! {

/// The fields that `scanner` finds in the lines of `input`, line by line.
pub open spec fn scanned<S: Scanner>(scanner: &S, input: Seq<char>) -> Seq<
    Map<Seq<char>, Seq<char>>,
> {
    lines_of(input).map_values(|line: Seq<char>| scanner.line_fields(line))
}

/// Scans `input` with `scanner` and renders every line through `formatter`. The
/// output has no line feed at its end.
pub fn process<S: Scanner>(scanner: &S, formatter: &Formatter, input: String) -> (output: String)
    ensures
        output@ == formatted(formatter.format@, scanned(scanner, input@)),
{
    let results = scanner.scan(input);
    assert(field_maps(results@) =~= scanned(scanner, input@));
    formatter.format(results)
}

/// The template is rendered once for each line of the input: as many renderings
/// are joined into the output as the input has lines.
pub proof fn lemma_one_rendering_per_line<S: Scanner>(
    scanner: &S,
    template: Seq<char>,
    input: Seq<char>,
)
    ensures
        rendered_lines(template, scanned(scanner, input)).len() == lines_of(input).len(),
{
}

/// Two runs with the same scanner and formatter on the same input give the same
/// output: whatever two calls of `process` return on equal arguments is equal.
pub proof fn lemma_same_run_same_output<S: Scanner>(
    scanner: &S,
    formatter: &Formatter,
    input: String,
    first: String,
    second: String,
)
    requires
        call_ensures(process::<S>, (scanner, formatter, input), first),
        call_ensures(process::<S>, (scanner, formatter, input), second),
    ensures
        first@ == second@,
{
}

} // verus!
