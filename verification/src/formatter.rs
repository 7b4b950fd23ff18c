//! Rendering of fields through a template with `{key}` placeholders.

use crate::fields::{field_maps, lookup, ScanLineResult};
use crate::text::{string_of, to_chars};
use vstd::prelude::*;

verus! {

/// The index of the first `}` of `template` at or after `from`, or the length of
/// `template` where there is none.
pub open spec fn closing_from(template: Seq<char>, from: int) -> int
    decreases template.len() - from,
{
    if from < 0 || from >= template.len() {
        template.len() as int
    } else if template[from] == '}' {
        from
    } else {
        closing_from(template, from + 1)
    }
}

/// The keys of the placeholders of `template` that begin at or after `from`, in
/// the order in which they stand. A placeholder is a `{`, then one or more
/// characters other than `}`, then a `}`; the characters between are its key.
/// Placeholders are read from left to right and do not overlap.
pub open spec fn keys_from(template: Seq<char>, from: int) -> Seq<Seq<char>>
    decreases template.len() - from,
{
    if from < 0 || from >= template.len() {
        Seq::empty()
    } else {
        let close = closing_from(template, from + 1);
        if template[from] == '{' && from + 1 < close < template.len() {
            seq![template.subrange(from + 1, close)] + keys_from(template, close + 1)
        } else {
            keys_from(template, from + 1)
        }
    }
}

/// `keys` without repetitions: each key stands once, where it first occurred.
pub open spec fn first_occurrences(keys: Seq<Seq<char>>) -> Seq<Seq<char>>
    decreases keys.len(),
{
    if keys.len() == 0 {
        Seq::empty()
    } else {
        let front = first_occurrences(keys.drop_last());
        if front.contains(keys.last()) {
            front
        } else {
            front.push(keys.last())
        }
    }
}

/// The distinct placeholder keys of `template`, in the order of their first
/// occurrence.
pub open spec fn placeholder_keys(template: Seq<char>) -> Seq<Seq<char>> {
    first_occurrences(keys_from(template, 0))
}

/// The placeholder that names `key`.
pub open spec fn placeholder(key: Seq<char>) -> Seq<char> {
    seq!['{'] + key + seq!['}']
}

/// `text` with every occurrence of `pattern` replaced by `value`. Occurrences are
/// found from left to right and do not overlap; an empty pattern occurs nowhere.
pub open spec fn replace_all(text: Seq<char>, pattern: Seq<char>, value: Seq<char>) -> Seq<char>
    decreases text.len(),
{
    if pattern.len() == 0 || text.len() < pattern.len() {
        text
    } else if text.take(pattern.len() as int) == pattern {
        value + replace_all(text.skip(pattern.len() as int), pattern, value)
    } else {
        seq![text[0]] + replace_all(text.skip(1), pattern, value)
    }
}

/// `line` after the placeholders of the first `n` of `keys` were replaced, one
/// key after the other, each by the value that `fields` holds for it.
pub open spec fn substitute(
    line: Seq<char>,
    keys: Seq<Seq<char>>,
    fields: Map<Seq<char>, Seq<char>>,
    n: nat,
) -> Seq<char>
    decreases n,
{
    if n == 0 {
        line
    } else {
        replace_all(
            substitute(line, keys, fields, (n - 1) as nat),
            placeholder(keys[n - 1]),
            lookup(fields, keys[n - 1]),
        )
    }
}

/// `template` rendered with `fields`.
pub open spec fn render(template: Seq<char>, fields: Map<Seq<char>, Seq<char>>) -> Seq<char> {
    let keys = placeholder_keys(template);
    substitute(template, keys, fields, keys.len())
}

/// `lines` joined by single line feeds, with none at the end.
pub open spec fn join_lines(lines: Seq<Seq<char>>) -> Seq<char>
    decreases lines.len(),
{
    if lines.len() == 0 {
        Seq::empty()
    } else if lines.len() == 1 {
        lines[0]
    } else {
        join_lines(lines.drop_last()) + seq!['\n'] + lines.last()
    }
}

/// `template` rendered with each of `all`, in order.
pub open spec fn rendered_lines(template: Seq<char>, all: Seq<Map<Seq<char>, Seq<char>>>) -> Seq<
    Seq<char>,
> {
    all.map_values(|fields: Map<Seq<char>, Seq<char>>| render(template, fields))
}

/// The output for a sequence of field mappings: `template` rendered with each of
/// them, the renderings joined by line feeds.
pub open spec fn formatted(template: Seq<char>, all: Seq<Map<Seq<char>, Seq<char>>>) -> Seq<char> {
    join_lines(rendered_lines(template, all))
}

/// The character sequences of `items`, in order.
pub open spec fn char_seqs(items: Seq<Vec<char>>) -> Seq<Seq<char>> {
    items.map_values(|v: Vec<char>| v@)
}

fn push_all(out: &mut Vec<char>, chars: &Vec<char>)
    ensures
        final(out)@ == old(out)@ + chars@,
{
    let mut i: usize = 0;
    while i < chars.len()
        invariant
            i <= chars@.len(),
            out@ =~= old(out)@ + chars@.take(i as int),
        decreases chars@.len() - i,
    {
        out.push(chars[i]);
        i += 1;
    }
    assert(chars@.take(chars@.len() as int) =~= chars@);
}

fn copy_range(chars: &Vec<char>, from: usize, to: usize) -> (copy: Vec<char>)
    requires
        from <= to <= chars@.len(),
    ensures
        copy@ == chars@.subrange(from as int, to as int),
{
    let mut copy: Vec<char> = Vec::new();
    let mut i: usize = from;
    while i < to
        invariant
            from <= i <= to <= chars@.len(),
            copy@ =~= chars@.subrange(from as int, i as int),
        decreases to - i,
    {
        copy.push(chars[i]);
        i += 1;
    }
    copy
}

fn same_chars(a: &Vec<char>, b: &Vec<char>) -> (same: bool)
    ensures
        same == (a@ == b@),
{
    if a.len() != b.len() {
        return false;
    }
    let mut i: usize = 0;
    while i < a.len()
        invariant
            i <= a@.len(),
            a@.len() == b@.len(),
            forall|j: int| 0 <= j < i ==> a@[j] == b@[j],
        decreases a@.len() - i,
    {
        if a[i] != b[i] {
            return false;
        }
        i += 1;
    }
    assert(a@ =~= b@);
    true
}

fn find_closing(template: &Vec<char>, from: usize) -> (close: usize)
    requires
        from <= template@.len(),
    ensures
        close == closing_from(template@, from as int),
        from <= close <= template@.len(),
{
    let mut i: usize = from;
    while i < template.len() && template[i] != '}'
        invariant
            from <= i <= template@.len(),
            closing_from(template@, i as int) == closing_from(template@, from as int),
        decreases template@.len() - i,
    {
        i += 1;
    }
    i
}

fn all_keys(template: &Vec<char>) -> (keys: Vec<Vec<char>>)
    ensures
        char_seqs(keys@) == keys_from(template@, 0),
{
    let mut keys: Vec<Vec<char>> = Vec::new();
    let mut i: usize = 0;
    assert(char_seqs(keys@) + keys_from(template@, 0) =~= keys_from(template@, 0));
    while i < template.len()
        invariant
            i <= template@.len(),
            char_seqs(keys@) + keys_from(template@, i as int) == keys_from(template@, 0),
        decreases template@.len() - i,
    {
        if template[i] == '{' {
            let close = find_closing(template, i + 1);
            if close >= template.len() {
                proof {
                    lemma_no_closing_no_keys(template@, i as int);
                }
                i = template.len();
            } else if i + 1 < close {
                let key = copy_range(template, i + 1, close);
                proof {
                    assert(char_seqs(keys@.push(key)) =~= char_seqs(keys@) + seq![key@]);
                    assert(char_seqs(keys@.push(key)) + keys_from(template@, close + 1)
                        =~= char_seqs(keys@) + keys_from(template@, i as int));
                }
                keys.push(key);
                i = close + 1;
            } else {
                i += 1;
            }
        } else {
            i += 1;
        }
    }
    assert(char_seqs(keys@) + keys_from(template@, i as int) =~= char_seqs(keys@));
    keys
}

fn holds(keys: &Vec<Vec<char>>, key: &Vec<char>) -> (found: bool)
    ensures
        found == char_seqs(keys@).contains(key@),
{
    let mut i: usize = 0;
    while i < keys.len()
        invariant
            i <= keys@.len(),
            forall|j: int| 0 <= j < i ==> char_seqs(keys@)[j] != key@,
        decreases keys@.len() - i,
    {
        if same_chars(&keys[i], key) {
            assert(char_seqs(keys@)[i as int] == key@);
            return true;
        }
        i += 1;
    }
    false
}

fn distinct(keys: Vec<Vec<char>>) -> (kept: Vec<Vec<char>>)
    ensures
        char_seqs(kept@) == first_occurrences(char_seqs(keys@)),
{
    let mut kept: Vec<Vec<char>> = Vec::new();
    let mut i: usize = 0;
    assert(char_seqs(keys@).take(0) =~= Seq::empty());
    assert(char_seqs(kept@) =~= Seq::empty());
    while i < keys.len()
        invariant
            i <= keys@.len(),
            char_seqs(kept@) == first_occurrences(char_seqs(keys@).take(i as int)),
        decreases keys@.len() - i,
    {
        let key = copy_range(&keys[i], 0, keys[i].len());
        proof {
            let all = char_seqs(keys@);
            assert(key@ =~= keys@[i as int]@);
            assert(all.take(i + 1).drop_last() =~= all.take(i as int));
            assert(all.take(i + 1).last() == key@);
            assert(char_seqs(kept@.push(key)) =~= char_seqs(kept@).push(key@));
        }
        if !holds(&kept, &key) {
            kept.push(key);
        }
        i += 1;
    }
    assert(char_seqs(keys@).take(keys@.len() as int) =~= char_seqs(keys@));
    kept
}

fn matches_at(text: &Vec<char>, at: usize, pattern: &Vec<char>) -> (hit: bool)
    requires
        at <= text@.len(),
    ensures
        hit == (pattern@.len() <= text@.len() - at && text@.skip(at as int).take(
            pattern@.len() as int,
        ) == pattern@),
{
    if pattern.len() > text.len() - at {
        return false;
    }
    let ghost window = text@.skip(at as int).take(pattern@.len() as int);
    let mut i: usize = 0;
    while i < pattern.len()
        invariant
            i <= pattern@.len(),
            at + pattern@.len() <= text@.len() <= usize::MAX,
            window == text@.skip(at as int).take(pattern@.len() as int),
            forall|j: int| 0 <= j < i ==> window[j] == pattern@[j],
        decreases pattern@.len() - i,
    {
        if text[at + i] != pattern[i] {
            assert(window[i as int] != pattern@[i as int]);
            return false;
        }
        i += 1;
    }
    assert(window =~= pattern@);
    true
}

/// Replaces every occurrence of `pattern` in `text` by `value`.
pub fn replace_in(text: &Vec<char>, pattern: &Vec<char>, value: &Vec<char>) -> (out: Vec<char>)
    ensures
        out@ == replace_all(text@, pattern@, value@),
{
    let mut out: Vec<char> = Vec::new();
    let mut i: usize = 0;
    assert(text@.skip(0) =~= text@);
    assert(out@ + replace_all(text@, pattern@, value@) =~= replace_all(text@, pattern@, value@));
    while i < text.len()
        invariant
            i <= text@.len(),
            out@ + replace_all(text@.skip(i as int), pattern@, value@) == replace_all(
                text@,
                pattern@,
                value@,
            ),
        decreases text@.len() - i,
    {
        let ghost rest = text@.skip(i as int);
        let ghost before = out@;
        if pattern.len() > 0 && matches_at(text, i, pattern) {
            push_all(&mut out, value);
            proof {
                assert(rest.skip(pattern@.len() as int) =~= text@.skip(i + pattern@.len()));
                assert(out@ + replace_all(text@.skip(i + pattern@.len()), pattern@, value@)
                    =~= before + replace_all(rest, pattern@, value@));
            }
            i += pattern.len();
        } else {
            out.push(text[i]);
            proof {
                assert(rest.skip(1) =~= text@.skip(i + 1));
                if pattern@.len() == 0 || rest.len() < pattern@.len() {
                    assert(replace_all(rest.skip(1), pattern@, value@) == rest.skip(1));
                    assert(seq![rest[0]] + rest.skip(1) =~= rest);
                }
                assert(out@ + replace_all(text@.skip(i + 1), pattern@, value@) =~= before
                    + replace_all(rest, pattern@, value@));
            }
            i += 1;
        }
    }
    assert(out@ + replace_all(text@.skip(i as int), pattern@, value@) =~= out@);
    out
}

/// One substitution target of a template: a placeholder key, and the text of
/// the placeholder that names it.
pub struct Target {
    pub key: String,
    pub pattern: Vec<char>,
}

impl Target {
    /// The pattern is the placeholder of the key.
    pub open spec fn well_formed(&self) -> bool {
        self.pattern@ == placeholder(self.key@)
    }
}

/// The keys of `targets`, in order.
pub open spec fn target_keys(targets: Seq<Target>) -> Seq<Seq<char>> {
    targets.map_values(|t: Target| t.key@)
}

/// A template, holding the text to print for each line with `{key}` placeholders
/// where the fields of the line go.
pub struct Formatter {
    pub format: String,
}

impl Formatter {
    /// The substitution targets of the template: one for each distinct
    /// placeholder key, in the order of first occurrence.
    pub fn targets(&self) -> (targets: Vec<Target>)
        ensures
            target_keys(targets@) == placeholder_keys(self.format@),
            forall|i: int| 0 <= i < targets@.len() ==> (#[trigger] targets@[i]).well_formed(),
    {
        let template = to_chars(self.format.as_str());
        let keys = distinct(all_keys(&template));
        let mut targets: Vec<Target> = Vec::new();
        let mut i: usize = 0;
        while i < keys.len()
            invariant
                i <= keys@.len(),
                target_keys(targets@) =~= char_seqs(keys@).take(i as int),
                forall|j: int| 0 <= j < targets@.len() ==> (#[trigger] targets@[j]).well_formed(),
            decreases keys@.len() - i,
        {
            let mut pattern: Vec<char> = Vec::new();
            pattern.push('{');
            push_all(&mut pattern, &keys[i]);
            pattern.push('}');
            let target = Target { key: string_of(&keys[i]), pattern };
            proof {
                assert(target.pattern@ =~= placeholder(target.key@));
                assert(target_keys(targets@.push(target)) =~= target_keys(targets@).push(
                    target.key@,
                ));
                assert(char_seqs(keys@).take(i + 1) =~= char_seqs(keys@).take(i as int).push(
                    keys@[i as int]@,
                ));
            }
            targets.push(target);
            i += 1;
        }
        assert(char_seqs(keys@).take(keys@.len() as int) =~= char_seqs(keys@));
        targets
    }

    /// Renders the template with the fields of one line, given the targets of
    /// the template.
    pub fn render_with(&self, targets: &Vec<Target>, result: &ScanLineResult) -> (line: Vec<char>)
        requires
            forall|i: int| 0 <= i < targets@.len() ==> (#[trigger] targets@[i]).well_formed(),
        ensures
            line@ == substitute(self.format@, target_keys(targets@), result@, targets@.len()),
    {
        let mut line = to_chars(self.format.as_str());
        let mut i: usize = 0;
        while i < targets.len()
            invariant
                i <= targets@.len(),
                forall|j: int| 0 <= j < targets@.len() ==> (#[trigger] targets@[j]).well_formed(),
                line@ == substitute(self.format@, target_keys(targets@), result@, i as nat),
            decreases targets@.len() - i,
        {
            let value = result.get(targets[i].key.as_str());
            let value_chars = to_chars(value.as_str());
            assert(target_keys(targets@)[i as int] == targets@[i as int].key@);
            line = replace_in(&line, &targets[i].pattern, &value_chars);
            i += 1;
        }
        line
    }

    /// Renders the template once for each of `scan_line_results`, in order, and
    /// joins the renderings by line feeds. For each line the distinct keys of the
    /// template are taken one after the other, in the order in which they first
    /// stand in it, and every occurrence of the key's placeholder in the text as
    /// it then is gets replaced by the value that the line holds for the key, or
    /// by nothing where the line holds none. Where no key and no value holds a
    /// `{`, that is each placeholder of the template replaced by its own value;
    /// where one does, a replacement can make or break a later placeholder.
    pub fn format(&self, scan_line_results: Vec<ScanLineResult>) -> (output: String)
        ensures
            output@ == formatted(self.format@, field_maps(scan_line_results@)),
    {
        let targets = self.targets();
        let ghost rendered = rendered_lines(self.format@, field_maps(scan_line_results@));
        let mut output: Vec<char> = Vec::new();
        let mut i: usize = 0;
        assert(rendered.take(0) =~= Seq::empty());
        while i < scan_line_results.len()
            invariant
                i <= scan_line_results@.len(),
                rendered == rendered_lines(self.format@, field_maps(scan_line_results@)),
                target_keys(targets@) == placeholder_keys(self.format@),
                forall|j: int| 0 <= j < targets@.len() ==> (#[trigger] targets@[j]).well_formed(),
                output@ == join_lines(rendered.take(i as int)),
            decreases scan_line_results@.len() - i,
        {
            let line = self.render_with(&targets, &scan_line_results[i]);
            let ghost before = output@;
            if i > 0 {
                output.push('\n');
            }
            push_all(&mut output, &line);
            proof {
                assert(rendered[i as int] == line@);
                assert(rendered.take(i + 1).drop_last() =~= rendered.take(i as int));
                assert(rendered.take(i + 1).last() == line@);
                if i == 0 {
                    assert(before =~= Seq::empty());
                    assert(output@ =~= line@);
                } else {
                    assert(output@ =~= before + seq!['\n'] + line@);
                }
            }
            i += 1;
        }
        assert(rendered.take(scan_line_results@.len() as int) =~= rendered);
        string_of(&output)
    }
}

/// Where no `}` stands after `from`, no placeholder begins at `from` or later.
pub proof fn lemma_no_closing_no_keys(template: Seq<char>, from: int)
    requires
        0 <= from,
        closing_from(template, from + 1) == template.len(),
    ensures
        keys_from(template, from) == Seq::<Seq<char>>::empty(),
    decreases template.len() - from,
{
    if from < template.len() {
        lemma_no_closing_no_keys(template, from + 1);
    }
}

/// Every key read from a template has at least one character and no `}`, and
/// its placeholder stands in the template.
pub proof fn lemma_keys_stand_in_template(template: Seq<char>, from: int)
    requires
        0 <= from,
    ensures
        forall|n: int|
            0 <= n < keys_from(template, from).len() ==> {
                let key = #[trigger] keys_from(template, from)[n];
                &&& key.len() > 0
                &&& !key.contains('}')
                &&& exists|at: int|
                    from <= at && at + key.len() + 2 <= template.len() && #[trigger] template.subrange(
                        at,
                        at + key.len() + 2,
                    ) == placeholder(key)
            },
    decreases template.len() - from,
{
    if from < template.len() {
        let close = closing_from(template, from + 1);
        let keys = keys_from(template, from);
        if template[from] == '{' && from + 1 < close < template.len() {
            let key = template.subrange(from + 1, close);
            let rest = keys_from(template, close + 1);
            lemma_closing_from(template, from + 1);
            lemma_keys_stand_in_template(template, close + 1);
            assert forall|n: int| 0 <= n < keys.len() implies {
                let key = #[trigger] keys[n];
                &&& key.len() > 0
                &&& !key.contains('}')
                &&& exists|at: int|
                    from <= at && at + key.len() + 2 <= template.len() && #[trigger] template.subrange(
                        at,
                        at + key.len() + 2,
                    ) == placeholder(key)
            } by {
                if n == 0 {
                    assert(keys[0] == key);
                    assert(template.subrange(from, from + key.len() + 2) =~= placeholder(key));
                } else {
                    assert(keys[n] == rest[n - 1]);
                    let k = rest[n - 1];
                    let at = choose|at: int|
                        close + 1 <= at && at + k.len() + 2 <= template.len()
                            && #[trigger] template.subrange(at, at + k.len() + 2) == placeholder(
                            k,
                        );
                    assert(from <= at);
                }
            }
        } else {
            let rest = keys_from(template, from + 1);
            lemma_keys_stand_in_template(template, from + 1);
            assert forall|n: int| 0 <= n < keys.len() implies {
                let key = #[trigger] keys[n];
                &&& key.len() > 0
                &&& !key.contains('}')
                &&& exists|at: int|
                    from <= at && at + key.len() + 2 <= template.len() && #[trigger] template.subrange(
                        at,
                        at + key.len() + 2,
                    ) == placeholder(key)
            } by {
                let k = rest[n];
                let at = choose|at: int|
                    from + 1 <= at && at + k.len() + 2 <= template.len()
                        && #[trigger] template.subrange(at, at + k.len() + 2) == placeholder(k);
                assert(from <= at);
            }
        }
    }
}

/// `closing_from` gives a position at or after `from` that holds a `}` or is the
/// end, with no `}` between `from` and it.
pub proof fn lemma_closing_from(template: Seq<char>, from: int)
    requires
        0 <= from <= template.len(),
    ensures
        from <= closing_from(template, from) <= template.len(),
        closing_from(template, from) < template.len() ==> template[closing_from(template, from)]
            == '}',
        forall|i: int| from <= i < closing_from(template, from) ==> template[i] != '}',
    decreases template.len() - from,
{
    if from < template.len() && template[from] != '}' {
        lemma_closing_from(template, from + 1);
    }
}

/// A template without a `{` has no placeholder.
pub proof fn lemma_no_brace_no_keys(template: Seq<char>, from: int)
    requires
        forall|i: int| 0 <= i < template.len() ==> template[i] != '{',
    ensures
        keys_from(template, from) == Seq::<Seq<char>>::empty(),
    decreases template.len() - from,
{
    if 0 <= from < template.len() {
        lemma_no_brace_no_keys(template, from + 1);
    }
}

/// A template without placeholders renders unchanged, whatever the fields.
pub proof fn lemma_plain_template_renders_unchanged(
    template: Seq<char>,
    fields: Map<Seq<char>, Seq<char>>,
)
    requires
        keys_from(template, 0).len() == 0,
    ensures
        render(template, fields) == template,
{
}

/// With a template without placeholders, the output is the template once for each
/// line.
pub proof fn lemma_plain_template_output(
    template: Seq<char>,
    all: Seq<Map<Seq<char>, Seq<char>>>,
)
    requires
        keys_from(template, 0).len() == 0,
    ensures
        rendered_lines(template, all) == Seq::new(all.len(), |i: int| template),
{
    assert forall|i: int| 0 <= i < all.len() implies rendered_lines(template, all)[i]
        == template by {
        lemma_plain_template_renders_unchanged(template, all[i]);
    }
    assert(rendered_lines(template, all) =~= Seq::new(all.len(), |i: int| template));
}

/// The keys kept by `first_occurrences` are those of `keys`, each once.
pub proof fn lemma_first_occurrences(keys: Seq<Seq<char>>)
    ensures
        first_occurrences(keys).no_duplicates(),
        forall|key: Seq<char>|
            #![trigger first_occurrences(keys).contains(key)]
            #![trigger keys.contains(key)]
            first_occurrences(keys).contains(key) <==> keys.contains(key),
    decreases keys.len(),
{
    if keys.len() > 0 {
        let front = keys.drop_last();
        let kept = first_occurrences(front);
        lemma_first_occurrences(front);
        assert forall|key: Seq<char>|
            #![trigger first_occurrences(keys).contains(key)]
            #![trigger keys.contains(key)]
            first_occurrences(keys).contains(key) <==> keys.contains(key) by {
            if keys.contains(key) {
                let i = choose|i: int| 0 <= i < keys.len() && keys[i] == key;
                if i < keys.len() - 1 {
                    assert(front[i] == key);
                    assert(front.contains(key));
                    assert(kept.contains(key));
                    let j = choose|j: int| 0 <= j < kept.len() && kept[j] == key;
                    assert(first_occurrences(keys)[j] == key);
                } else {
                    if kept.contains(key) {
                    } else {
                        assert(first_occurrences(keys)[kept.len() as int] == key);
                    }
                }
            }
            if first_occurrences(keys).contains(key) {
                let j = choose|j: int|
                    0 <= j < first_occurrences(keys).len() && first_occurrences(keys)[j] == key;
                if j < kept.len() {
                    assert(kept[j] == key);
                    assert(kept.contains(key));
                    assert(front.contains(key));
                    let i = choose|i: int| 0 <= i < front.len() && front[i] == key;
                    assert(keys[i] == key);
                } else {
                    assert(keys[keys.len() - 1] == key);
                }
            }
        }
    }
}

} // verus!
