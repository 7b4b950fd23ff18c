//! Rendering seen as one pass over the template: each placeholder replaced by
//! its own value. Where no key and no value holds a `{`, replacing key after key
//! gives the same text.

use crate::fields::lookup;
use crate::formatter::{
    closing_from, first_occurrences, keys_from, lemma_closing_from, lemma_first_occurrences,
    lemma_keys_stand_in_template, lemma_no_closing_no_keys, placeholder, placeholder_keys, render,
    replace_all, substitute,
};
use vstd::prelude::*;

verus! {

/// No `{` stands in `text`.
pub open spec fn no_opening(text: Seq<char>) -> bool {
    forall|i: int| 0 <= i < text.len() ==> text[i] != '{'
}

/// No `}` stands in `text`.
pub open spec fn no_closing(text: Seq<char>) -> bool {
    forall|i: int| 0 <= i < text.len() ==> text[i] != '}'
}

/// The template from `from` on, read from left to right, with each placeholder
/// whose key is in `done` replaced by the value that `fields` holds for the key,
/// and everything else kept.
pub open spec fn replaced_spans(
    template: Seq<char>,
    fields: Map<Seq<char>, Seq<char>>,
    done: Set<Seq<char>>,
    from: int,
) -> Seq<char>
    decreases template.len() - from,
{
    if from < 0 || from >= template.len() {
        Seq::empty()
    } else {
        let close = closing_from(template, from + 1);
        if template[from] == '{' && from + 1 < close < template.len() {
            let key = template.subrange(from + 1, close);
            let piece = if done.contains(key) {
                lookup(fields, key)
            } else {
                template.subrange(from, close + 1)
            };
            piece + replaced_spans(template, fields, done, close + 1)
        } else {
            seq![template[from]] + replaced_spans(template, fields, done, from + 1)
        }
    }
}

/// The template with each placeholder replaced by its own value, in one pass.
pub open spec fn render_spans(template: Seq<char>, fields: Map<Seq<char>, Seq<char>>) -> Seq<
    char,
> {
    replaced_spans(template, fields, Set::full(), 0)
}

/// Every key of a placeholder at or after `from` is free of `{`, and so is the
/// value of each such key that is in `done`.
pub open spec fn keys_plain(
    template: Seq<char>,
    fields: Map<Seq<char>, Seq<char>>,
    done: Set<Seq<char>>,
    from: int,
) -> bool {
    forall|n: int|
        0 <= n < keys_from(template, from).len() ==> {
            let key = #[trigger] keys_from(template, from)[n];
            &&& no_opening(key)
            &&& done.contains(key) ==> no_opening(lookup(fields, key))
        }
}

/// No `{` stands in a key of the template, nor in the value of one.
pub open spec fn plain_keys_and_values(
    template: Seq<char>,
    fields: Map<Seq<char>, Seq<char>>,
) -> bool {
    keys_plain(template, fields, Set::full(), 0)
}

proof fn lemma_keys_plain_later(
    template: Seq<char>,
    fields: Map<Seq<char>, Seq<char>>,
    done: Set<Seq<char>>,
    from: int,
)
    requires
        0 <= from < template.len(),
        keys_plain(template, fields, done, from),
    ensures
        ({
            let close = closing_from(template, from + 1);
            if template[from] == '{' && from + 1 < close < template.len() {
                let key = template.subrange(from + 1, close);
                &&& keys_plain(template, fields, done, close + 1)
                &&& no_opening(key)
                &&& done.contains(key) ==> no_opening(lookup(fields, key))
            } else {
                keys_plain(template, fields, done, from + 1)
            }
        }),
{
    let close = closing_from(template, from + 1);
    let keys = keys_from(template, from);
    if template[from] == '{' && from + 1 < close < template.len() {
        let rest = keys_from(template, close + 1);
        assert(keys[0] == template.subrange(from + 1, close));
        assert forall|n: int| 0 <= n < rest.len() implies {
            let key = #[trigger] rest[n];
            &&& no_opening(key)
            &&& done.contains(key) ==> no_opening(lookup(fields, key))
        } by {
            assert(keys[n + 1] == rest[n]);
        }
    }
}

/// Where no placeholder is marked as done, nothing is replaced.
proof fn lemma_nothing_done(template: Seq<char>, fields: Map<Seq<char>, Seq<char>>, from: int)
    requires
        0 <= from <= template.len(),
    ensures
        replaced_spans(template, fields, Set::empty(), from) == template.skip(from),
    decreases template.len() - from,
{
    if from < template.len() {
        let close = closing_from(template, from + 1);
        lemma_closing_from(template, from + 1);
        if template[from] == '{' && from + 1 < close < template.len() {
            lemma_nothing_done(template, fields, close + 1);
            assert(template.subrange(from, close + 1) + template.skip(close + 1) =~= template.skip(
                from,
            ));
        } else {
            lemma_nothing_done(template, fields, from + 1);
            assert(seq![template[from]] + template.skip(from + 1) =~= template.skip(from));
        }
    } else {
        assert(template.skip(from) =~= Seq::<char>::empty());
    }
}

/// Only the keys that stand in the template matter: two sets that agree on them
/// give the same text.
proof fn lemma_done_only_on_keys(
    template: Seq<char>,
    fields: Map<Seq<char>, Seq<char>>,
    one: Set<Seq<char>>,
    other: Set<Seq<char>>,
    from: int,
)
    requires
        0 <= from,
        forall|n: int|
            0 <= n < keys_from(template, from).len() ==> one.contains(
                #[trigger] keys_from(template, from)[n],
            ) == other.contains(keys_from(template, from)[n]),
    ensures
        replaced_spans(template, fields, one, from) == replaced_spans(
            template,
            fields,
            other,
            from,
        ),
    decreases template.len() - from,
{
    if from < template.len() {
        let close = closing_from(template, from + 1);
        let keys = keys_from(template, from);
        if template[from] == '{' && from + 1 < close < template.len() {
            let rest = keys_from(template, close + 1);
            assert(keys[0] == template.subrange(from + 1, close));
            assert forall|n: int| 0 <= n < rest.len() implies one.contains(#[trigger] rest[n])
                == other.contains(rest[n]) by {
                assert(keys[n + 1] == rest[n]);
            }
            lemma_done_only_on_keys(template, fields, one, other, close + 1);
        } else {
            lemma_done_only_on_keys(template, fields, one, other, from + 1);
        }
    }
}

/// Where the pattern does not stand at the start of a text, replacing keeps the
/// first character and goes on behind it.
proof fn lemma_replace_steps_over(text: Seq<char>, pattern: Seq<char>, value: Seq<char>)
    requires
        text.len() >= 1,
        !(pattern.len() > 0 && text.len() >= pattern.len() && text.take(pattern.len() as int)
            == pattern),
    ensures
        replace_all(text, pattern, value) == seq![text[0]] + replace_all(
            text.skip(1),
            pattern,
            value,
        ),
{
    if pattern.len() == 0 || text.len() < pattern.len() {
        assert(replace_all(text.skip(1), pattern, value) == text.skip(1));
        assert(seq![text[0]] + text.skip(1) =~= text);
    }
}

/// Replacing a pattern that begins with `{` leaves a prefix without `{` as it is.
proof fn lemma_replace_keeps_prefix(
    prefix: Seq<char>,
    rest: Seq<char>,
    pattern: Seq<char>,
    value: Seq<char>,
)
    requires
        pattern.len() > 0,
        pattern[0] == '{',
        no_opening(prefix),
    ensures
        replace_all(prefix + rest, pattern, value) == prefix + replace_all(rest, pattern, value),
    decreases prefix.len(),
{
    let text = prefix + rest;
    if prefix.len() == 0 {
        assert(text =~= rest);
        assert(prefix + replace_all(rest, pattern, value) =~= replace_all(rest, pattern, value));
    } else {
        assert(text[0] == prefix[0]);
        if text.len() >= pattern.len() {
            assert(text.take(pattern.len() as int)[0] == text[0]);
        }
        lemma_replace_steps_over(text, pattern, value);
        assert(text.skip(1) =~= prefix.skip(1) + rest);
        lemma_replace_keeps_prefix(prefix.skip(1), rest, pattern, value);
        assert(seq![text[0]] + (prefix.skip(1) + replace_all(rest, pattern, value)) =~= prefix
            + replace_all(rest, pattern, value));
    }
}

/// A text without `}` holds no occurrence of a pattern that ends in `}`.
proof fn lemma_replace_without_closing(text: Seq<char>, pattern: Seq<char>, value: Seq<char>)
    requires
        pattern.len() > 0,
        pattern.last() == '}',
        no_closing(text),
    ensures
        replace_all(text, pattern, value) == text,
    decreases text.len(),
{
    if text.len() >= pattern.len() {
        assert(text.take(pattern.len() as int)[pattern.len() - 1] == text[pattern.len() - 1]);
        lemma_replace_steps_over(text, pattern, value);
        lemma_replace_without_closing(text.skip(1), pattern, value);
        assert(seq![text[0]] + text.skip(1) =~= text);
    }
}

/// Where no `}` follows, nothing is a placeholder, whatever is marked as done.
proof fn lemma_all_kept(
    template: Seq<char>,
    fields: Map<Seq<char>, Seq<char>>,
    done: Set<Seq<char>>,
    from: int,
)
    requires
        0 <= from <= template.len(),
        closing_from(template, from + 1) >= template.len(),
    ensures
        replaced_spans(template, fields, done, from) == template.skip(from),
{
    if from < template.len() {
        lemma_closing_from(template, from + 1);
    }
    lemma_no_closing_no_keys(template, from);
    lemma_done_only_on_keys(template, fields, done, Set::empty(), from);
    lemma_nothing_done(template, fields, from);
}

/// The placeholder of one key does not stand at the start of a text that begins
/// with the placeholder of another.
proof fn lemma_other_placeholder(key: Seq<char>, other: Seq<char>, rest: Seq<char>)
    requires
        key != other,
        no_closing(key),
        no_closing(other),
    ensures
        !((placeholder(other) + rest).len() >= placeholder(key).len() && (placeholder(other)
            + rest).take(placeholder(key).len() as int) == placeholder(key)),
{
    let text = placeholder(other) + rest;
    let pattern = placeholder(key);
    if text.len() >= pattern.len() && text.take(pattern.len() as int) == pattern {
        if key.len() == other.len() {
            assert forall|i: int| 0 <= i < key.len() implies key[i] == other[i] by {
                assert(pattern[i + 1] == key[i]);
                assert(text.take(pattern.len() as int)[i + 1] == text[i + 1]);
                assert(text[i + 1] == other[i]);
            }
            assert(key =~= other);
        } else if key.len() < other.len() {
            let at = key.len() + 1;
            assert(pattern[at as int] == '}');
            assert(text.take(pattern.len() as int)[at as int] == text[at as int]);
            assert(text[at as int] == other[at - 1]);
        } else {
            let at = other.len() + 1;
            assert(text[at as int] == '}');
            assert(text.take(pattern.len() as int)[at as int] == text[at as int]);
            assert(pattern[at as int] == key[at - 1]);
        }
    }
}

/// Replacing the placeholder of `key` by its value, in a text in which the
/// placeholders of `done` were replaced already, replaces the placeholders of
/// `key` and nothing else.
proof fn lemma_replace_marks_done(
    template: Seq<char>,
    fields: Map<Seq<char>, Seq<char>>,
    done: Set<Seq<char>>,
    key: Seq<char>,
    from: int,
)
    requires
        0 <= from <= template.len(),
        key.len() > 0,
        no_closing(key),
        keys_plain(template, fields, done, from),
    ensures
        replace_all(
            replaced_spans(template, fields, done, from),
            placeholder(key),
            lookup(fields, key),
        ) == replaced_spans(template, fields, done.insert(key), from),
    decreases template.len() - from,
{
    let pattern = placeholder(key);
    let value = lookup(fields, key);
    let more = done.insert(key);
    let now = replaced_spans(template, fields, done, from);
    assert(pattern.len() == key.len() + 2);
    assert(pattern[0] == '{');
    assert(pattern.last() == '}');
    if from < template.len() {
        let close = closing_from(template, from + 1);
        lemma_closing_from(template, from + 1);
        lemma_keys_plain_later(template, fields, done, from);
        if template[from] == '{' && from + 1 < close < template.len() {
            let other = template.subrange(from + 1, close);
            let span = template.subrange(from, close + 1);
            let rest = replaced_spans(template, fields, done, close + 1);
            lemma_replace_marks_done(template, fields, done, key, close + 1);
            assert(span =~= placeholder(other));
            assert(no_closing(other));
            if done.contains(other) {
                lemma_replace_keeps_prefix(lookup(fields, other), rest, pattern, value);
            } else if other == key {
                assert((span + rest).take(pattern.len() as int) =~= pattern);
                assert((span + rest).skip(pattern.len() as int) =~= rest);
            } else {
                let text = span + rest;
                let inner = other + seq!['}'];
                lemma_other_placeholder(key, other, rest);
                lemma_replace_steps_over(text, pattern, value);
                assert(text.skip(1) =~= inner + rest);
                assert(no_opening(inner));
                lemma_replace_keeps_prefix(inner, rest, pattern, value);
                assert(seq![text[0]] + (inner + replace_all(rest, pattern, value)) =~= span
                    + replace_all(rest, pattern, value));
            }
        } else {
            let rest = replaced_spans(template, fields, done, from + 1);
            lemma_replace_marks_done(template, fields, done, key, from + 1);
            if template[from] != '{' {
                lemma_replace_keeps_prefix(seq![template[from]], rest, pattern, value);
            } else if close >= template.len() {
                lemma_all_kept(template, fields, done, from);
                lemma_all_kept(template, fields, more, from);
                assert(no_closing(template.skip(from)));
                lemma_replace_without_closing(template.skip(from), pattern, value);
            } else {
                assert(close == from + 1);
                assert(template[from + 1] == '}');
                assert(rest.len() >= 1 && rest[0] == '}') by {
                    assert(rest == seq![template[from + 1]] + replaced_spans(
                        template,
                        fields,
                        done,
                        from + 2,
                    ));
                }
                if now.len() >= pattern.len() {
                    assert(now.take(pattern.len() as int)[1] == now[1]);
                    assert(now[1] == rest[0]);
                    assert(pattern[1] == key[0]);
                }
                lemma_replace_steps_over(now, pattern, value);
                assert(now.skip(1) =~= rest);
            }
        }
    }
}

/// The keys among the first `n` of `keys`.
pub open spec fn first_keys(keys: Seq<Seq<char>>, n: int) -> Set<Seq<char>> {
    Set::new(|key: Seq<char>| keys.take(n).contains(key))
}

proof fn lemma_substitute_is_replaced_spans(
    template: Seq<char>,
    fields: Map<Seq<char>, Seq<char>>,
    n: nat,
)
    requires
        plain_keys_and_values(template, fields),
        n <= placeholder_keys(template).len(),
    ensures
        substitute(template, placeholder_keys(template), fields, n) == replaced_spans(
            template,
            fields,
            first_keys(placeholder_keys(template), n as int),
            0,
        ),
    decreases n,
{
    let keys = placeholder_keys(template);
    if n == 0 {
        assert(first_keys(keys, 0) =~= Set::<Seq<char>>::empty()) by {
            assert(keys.take(0) =~= Seq::<Seq<char>>::empty());
        }
        lemma_nothing_done(template, fields, 0);
        assert(template.skip(0) =~= template);
    } else {
        let key = keys[n - 1];
        let done = first_keys(keys, n - 1);
        lemma_substitute_is_replaced_spans(template, fields, (n - 1) as nat);
        lemma_first_occurrences(keys_from(template, 0));
        lemma_keys_stand_in_template(template, 0);
        assert(keys.contains(key));
        assert(keys_from(template, 0).contains(key));
        let at = choose|at: int|
            0 <= at < keys_from(template, 0).len() && keys_from(template, 0)[at] == key;
        assert(keys_from(template, 0)[at] == key);
        assert(key.len() > 0);
        assert(no_closing(key)) by {
            assert forall|i: int| 0 <= i < key.len() implies key[i] != '}' by {
                if key[i] == '}' {
                    assert(key.contains('}'));
                }
            }
        }
        lemma_replace_marks_done(template, fields, done, key, 0);
        assert(done.insert(key) =~= first_keys(keys, n as int)) by {
            let front = keys.take(n - 1);
            let upto = keys.take(n as int);
            assert(upto =~= front.push(key));
            assert forall|k: Seq<char>| done.insert(key).contains(k) <==> first_keys(
                keys,
                n as int,
            ).contains(k) by {
                if front.contains(k) {
                    let i = choose|i: int| 0 <= i < front.len() && front[i] == k;
                    assert(upto[i] == k);
                }
                if k == key {
                    assert(upto[n - 1] == k);
                }
                if upto.contains(k) {
                    let i = choose|i: int| 0 <= i < upto.len() && upto[i] == k;
                    if i < n - 1 {
                        assert(front[i] == k);
                    }
                }
            }
        }
    }
}

/// Where no key of the template and no value of such a key holds a `{`,
/// rendering replaces each placeholder by the value of its own key and keeps
/// everything else: the order in which the keys are taken makes no difference.
pub proof fn lemma_render_replaces_each_placeholder(
    template: Seq<char>,
    fields: Map<Seq<char>, Seq<char>>,
)
    requires
        plain_keys_and_values(template, fields),
    ensures
        render(template, fields) == render_spans(template, fields),
{
    let keys = placeholder_keys(template);
    let done = first_keys(keys, keys.len() as int);
    lemma_substitute_is_replaced_spans(template, fields, keys.len());
    lemma_first_occurrences(keys_from(template, 0));
    assert(keys.take(keys.len() as int) =~= keys);
    assert forall|n: int| 0 <= n < keys_from(template, 0).len() implies done.contains(
        #[trigger] keys_from(template, 0)[n],
    ) == Set::<Seq<char>>::full().contains(keys_from(template, 0)[n]) by {
        assert(keys_from(template, 0).contains(keys_from(template, 0)[n]));
    }
    lemma_done_only_on_keys(template, fields, done, Set::full(), 0);
}

} // verus!
