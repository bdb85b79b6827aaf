//! The query language: the steps that the text of a query stands for.

use crate::op;
use crate::op::{Entry, Matcher, Step};
use vstd::prelude::*;

verus! {

/// Whether a property name may hold `c`.
pub open spec fn is_name_char(c: char) -> bool {
    'a' <= c <= 'z' || 'A' <= c <= 'Z' || c == '_' || c == '-'
}

/// Whether `text` is a property name.
pub open spec fn is_name(text: Seq<char>) -> bool {
    text.len() > 0 && forall|i: int| 0 <= i < text.len() ==> is_name_char(#[trigger] text[i])
}

/// Where in a chunk a character stands.
#[derive(Clone, Copy)]
pub enum Lex {
    /// Outside a regex.
    Plain,
    /// Inside `/regex/`.
    InRegex,
    /// Behind a `\` in a regex.
    Escaped,
    /// Behind the `/` that closes a regex.
    RegexClosed,
    /// Behind the `^` that follows a regex.
    RegexKeys,
}

/// What a character does to the chunk that it stands in.
pub enum Move {
    /// It belongs to the chunk, and leaves it at `lex` with `depth` open braces.
    Stay { lex: Lex, depth: nat },
    /// It ends the chunk, and belongs to none.
    Dot,
    /// It ends the chunk, and starts the next.
    Bracket,
    /// It may not stand there.
    Reject,
}

/// What `c` does to a chunk. `fresh` says that it is the first character of the chunk, and `first`
/// that it is the first of the query.
pub open spec fn move_at(lex: Lex, depth: nat, fresh: bool, first: bool, c: char) -> Move {
    match lex {
        Lex::InRegex => if c == '\\' {
            Move::Stay { lex: Lex::Escaped, depth }
        } else if c == '/' {
            Move::Stay { lex: Lex::RegexClosed, depth }
        } else {
            Move::Stay { lex: Lex::InRegex, depth }
        },
        Lex::Escaped => Move::Stay { lex: Lex::InRegex, depth },
        Lex::Plain => if c == '{' {
            Move::Stay { lex: Lex::Plain, depth: depth + 1 }
        } else if depth > 0 {
            Move::Stay {
                lex: Lex::Plain,
                depth: if c == '}' {
                    (depth - 1) as nat
                } else {
                    depth
                },
            }
        } else if c == '.' {
            Move::Dot
        } else if c == '[' && !fresh {
            Move::Bracket
        } else if c == '[' && !first {
            Move::Reject
        } else if c == '/' && fresh {
            Move::Stay { lex: Lex::InRegex, depth }
        } else {
            Move::Stay { lex: Lex::Plain, depth }
        },
        Lex::RegexClosed => if c == '.' {
            Move::Dot
        } else if c == '[' && !fresh {
            Move::Bracket
        } else if c == '^' {
            Move::Stay { lex: Lex::RegexKeys, depth }
        } else {
            Move::Reject
        },
        Lex::RegexKeys => if c == '.' {
            Move::Dot
        } else if c == '[' && !fresh {
            Move::Bracket
        } else {
            Move::Reject
        },
    }
}

/// The chunks of `query` from position `start` on, of which the characters before `at` have left
/// the first chunk at `lex` with `depth` open braces. There are none where a character may not
/// stand, or a regex or a brace is left open.
pub open spec fn chunks_from(query: Seq<char>, start: int, at: int, lex: Lex, depth: nat) -> Option<
    Seq<Seq<char>>,
>
    decreases query.len() - at,
{
    if at >= query.len() {
        if depth > 0 || lex is InRegex || lex is Escaped {
            None
        } else {
            Some(seq![query.subrange(start, query.len() as int)])
        }
    } else {
        match move_at(lex, depth, at == start, at == 0, query[at]) {
            Move::Stay { lex, depth } => chunks_from(query, start, at + 1, lex, depth),
            Move::Dot => behind(
                query.subrange(start, at),
                chunks_from(query, at + 1, at + 1, Lex::Plain, depth),
            ),
            Move::Bracket => behind(
                query.subrange(start, at),
                chunks_from(query, at, at + 1, Lex::Plain, depth),
            ),
            Move::Reject => None,
        }
    }
}

/// `chunk` and the chunks behind it.
pub open spec fn behind(chunk: Seq<char>, chunks: Option<Seq<Seq<char>>>) -> Option<
    Seq<Seq<char>>,
> {
    match chunks {
        Some(chunks) => Some(seq![chunk] + chunks),
        None => None,
    }
}

/// The chunks of a query, which `.` separates, except inside `/regex/` and `{...}`. A `[` also
/// starts a new chunk, but may not follow a `.`.
pub open spec fn chunks(query: Seq<char>) -> Option<Seq<Seq<char>>> {
    chunks_from(query, 0, 0, Lex::Plain, 0)
}

/// The parts of `list` from position `start` on, of which the characters before `at` have left the
/// first part with `depth` open braces.
pub open spec fn parts_from(list: Seq<char>, start: int, at: int, depth: nat) -> Seq<Seq<char>>
    decreases list.len() - at,
{
    if at >= list.len() {
        seq![list.subrange(start, list.len() as int)]
    } else if list[at] == '{' {
        parts_from(list, start, at + 1, depth + 1)
    } else if list[at] == '}' {
        parts_from(
            list,
            start,
            at + 1,
            if depth > 0 {
                (depth - 1) as nat
            } else {
                0
            },
        )
    } else if list[at] == ',' && depth == 0 {
        seq![list.subrange(start, at)] + parts_from(list, at + 1, at + 1, depth)
    } else {
        parts_from(list, start, at + 1, depth)
    }
}

/// The parts of `list`, which the commas separate that are not inside a nested `{...}`.
pub open spec fn parts(list: Seq<char>) -> Seq<Seq<char>> {
    parts_from(list, 0, 0, 0)
}

/// Whether `text` starts with `open`, ends with `close`, and these are two characters.
pub open spec fn is_wrapped(text: Seq<char>, open: char, close: char) -> bool {
    text.len() >= 2 && text[0] == open && text[text.len() - 1] == close
}

/// `text` without its first and last character.
pub open spec fn unwrapped(text: Seq<char>) -> Seq<char> {
    text.subrange(1, text.len() - 1)
}

/// Whether `text` is a decimal number.
pub open spec fn is_number(text: Seq<char>) -> bool {
    text.len() > 0 && forall|i: int| 0 <= i < text.len() ==> '0' <= #[trigger] text[i] <= '9'
}

/// The value of a decimal number.
pub open spec fn number(text: Seq<char>) -> nat
    decreases text.len(),
{
    if text.len() == 0 {
        0
    } else {
        10 * number(text.drop_last()) + (text.last() as nat - '0' as nat) as nat
    }
}

/// What a chunk, or a part of one, can be read as.
pub enum Reading<T> {
    /// It is of another kind.
    Other,
    /// It is of this kind, and invalid.
    Invalid,
    /// It is of this kind, and valid.
    Valid(T),
}

/// A bound of a slice: nothing, or a number that may have a `-` before it and must fit in a
/// machine word.
pub open spec fn slice_bound(text: Seq<char>) -> Option<Option<int>> {
    if text.len() == 0 {
        Some(None)
    } else if is_number(text) && number(text) <= isize::MAX {
        Some(Some(number(text) as int))
    } else if text[0] == '-' && is_number(text.drop_first()) && -number(text.drop_first())
        >= isize::MIN {
        Some(Some(-number(text.drop_first())))
    } else {
        None
    }
}

/// The position of the first `c` in `text`, or the number of characters if there is none.
pub open spec fn position(text: Seq<char>, c: char) -> nat
    decreases text.len(),
{
    if text.len() == 0 || text[0] == c {
        0
    } else {
        1 + position(text.drop_first(), c)
    }
}

/// The slice between brackets: two bounds with a `:` between them.
pub open spec fn slice_step(text: Seq<char>) -> Option<Step> {
    let colon = position(text, ':') as int;
    if colon >= text.len() {
        None
    } else {
        match (slice_bound(text.take(colon)), slice_bound(text.skip(colon + 1))) {
            (Some(start), Some(stop)) => Some(Step::ArraySlice { start, stop }),
            _ => None,
        }
    }
}

/// The step of a chunk in brackets: `[]`, `[n]` or `[start:stop]`.
pub open spec fn array_step(chunk: Seq<char>) -> Option<Step> {
    if !is_wrapped(chunk, '[', ']') {
        None
    } else {
        let inside = unwrapped(chunk);
        if inside.len() == 0 {
            Some(Step::Array)
        } else if is_number(inside) {
            if number(inside) <= usize::MAX {
                Some(Step::ArrayIndex(number(inside)))
            } else {
                None
            }
        } else {
            slice_step(inside)
        }
    }
}

/// The keys that a chunk selects, without the `^` behind it: `*`, `/regex/`, or before a `^` also a
/// name.
pub open spec fn selector(text: Seq<char>, keys: bool) -> Reading<Matcher> {
    if text == seq!['*'] {
        Reading::Valid(Matcher::Any)
    } else if is_wrapped(text, '/', '/') {
        match op::regex_language(unwrapped(text)) {
            Some(texts) => Reading::Valid(Matcher::Regex { source: unwrapped(text), texts }),
            None => Reading::Invalid,
        }
    } else if keys && is_name(text) {
        Reading::Valid(Matcher::Contains(text))
    } else {
        Reading::Other
    }
}

/// The step of a chunk that selects properties by key: their values, or before a `^` their keys.
pub open spec fn selector_step(chunk: Seq<char>) -> Reading<Step> {
    if chunk.len() > 0 && chunk.last() == '^' {
        match selector(chunk.drop_last(), true) {
            Reading::Valid(matcher) => Reading::Valid(Step::PropertyKeys(matcher)),
            Reading::Invalid => Reading::Invalid,
            Reading::Other => Reading::Other,
        }
    } else {
        match selector(chunk, false) {
            Reading::Valid(matcher) => Reading::Valid(Step::PropertyValues(matcher)),
            Reading::Invalid => Reading::Invalid,
            Reading::Other => Reading::Other,
        }
    }
}

/// Whether `matcher`, where it is a regex that is a plain name, selects the keys that contain the
/// name, and where it is the regex `.*`, every key.
pub open spec fn is_literal(matcher: Matcher) -> bool {
    match matcher {
        Matcher::Regex { source, .. } => {
            &&& is_name(source) ==> forall|key: Seq<char>| #[trigger]
                op::matches_key(matcher, key) <==> op::matches_key(Matcher::Contains(source), key)
            &&& source == seq!['.', '*'] ==> forall|key: Seq<char>| #[trigger]
                op::matches_key(matcher, key) <==> op::matches_key(Matcher::Any, key)
        },
        _ => true,
    }
}

/// Whether [`is_literal`] holds of each selector in `step`, and in the steps that it holds. The
/// paths of a pick have none.
pub open spec fn is_literal_step(step: Step) -> bool
    decreases step,
{
    match step {
        Step::PropertyValues(matcher) => is_literal(matcher),
        Step::PropertyKeys(matcher) => is_literal(matcher),
        Step::PropertyMap(matcher, steps) => is_literal(matcher) && are_literal(steps),
        Step::Descend(inner) => is_literal_step(*inner),
        Step::DescendPaths(steps) => are_literal(steps),
        _ => true,
    }
}

/// Whether [`is_literal`] holds of each selector in `steps`.
pub open spec fn are_literal(steps: Seq<Step>) -> bool
    decreases steps,
{
    forall|i: int| 0 <= i < steps.len() ==> is_literal_step(#[trigger] steps[i])
}

/// The number of characters of the longest of `chunks`.
pub open spec fn longest(chunks: Seq<Seq<char>>) -> nat
    decreases chunks.len(),
{
    if chunks.len() == 0 {
        0
    } else {
        let rest = longest(chunks.drop_first());
        if chunks[0].len() > rest {
            chunks[0].len()
        } else {
            rest
        }
    }
}

/// The step of one chunk, if it is a valid one.
pub open spec fn chunk_step(chunk: Seq<char>) -> Option<Step>
    decreases chunk.len(), 0int, 0int,
{
    match selector_step(chunk) {
        Reading::Valid(step) => Some(step),
        Reading::Invalid => None,
        Reading::Other => if is_name(chunk) {
            Some(Step::Property(chunk))
        } else if is_wrapped(chunk, '{', '}') {
            match pick_entries(unwrapped(chunk)) {
                Some(entries) => Some(Step::PropertyPick(entries)),
                None => None,
            }
        } else {
            array_step(chunk)
        },
    }
}

/// Whether no two of `entries` have the same key.
pub open spec fn distinct_entries(entries: Seq<Entry>) -> bool {
    forall|i: int, j: int|
        0 <= i < j < entries.len() ==> #[trigger] entries[i].key != #[trigger] entries[j].key
}

/// The entries of a pick with `list` between its braces. No two may have the same key.
pub open spec fn pick_entries(list: Seq<char>) -> Option<Seq<Entry>>
    decreases list.len(), 3int, 0int,
{
    match parts_entries(list, parts(list).len()) {
        Some(entries) => if distinct_entries(entries) {
            Some(entries)
        } else {
            None
        },
        None => None,
    }
}

/// The entries of the first `count` parts of `list`.
pub open spec fn parts_entries(list: Seq<char>, count: nat) -> Option<Seq<Entry>>
    decreases list.len(), 2int, count,
{
    if count == 0 || count > parts(list).len() {
        Some(Seq::empty())
    } else {
        let part = parts(list)[count - 1];
        match (parts_entries(list, (count - 1) as nat), chunks(part)) {
            (Some(before), Some(chunks)) => {
                proof {
                    lemma_longest(part, chunks);
                    lemma_part_len(list, count - 1);
                }
                match path_entries(chunks) {
                    Some(entries) => Some(before + entries),
                    None => None,
                }
            },
            _ => None,
        }
    }
}

/// The entries of a path: a property name, and what follows it.
pub open spec fn path_entries(chunks: Seq<Seq<char>>) -> Option<Seq<Entry>>
    decreases longest(chunks), 1int, 2 * chunks.len(),
{
    if chunks.len() == 0 || !is_name(chunks[0]) {
        None
    } else {
        tail_entries(chunks[0], chunks.drop_first())
    }
}

/// The entries of a path whose property name is `name`, with `rest` behind it: array steps, and
/// then nothing, another path, or a `{...}`. A path gives one entry, keyed by its last name, except
/// one ending in `{...}`, which gives an entry for each entry in the braces.
pub open spec fn tail_entries(name: Seq<char>, rest: Seq<Seq<char>>) -> Option<Seq<Entry>>
    decreases longest(rest), 1int, 2 * rest.len() + 1,
{
    if rest.len() == 0 {
        Some(seq![Entry { key: name, name, steps: Seq::empty() }])
    } else if is_name(rest[0]) {
        match path_entries(rest) {
            Some(entries) => Some(under(name, entries)),
            None => None,
        }
    } else {
        match chunk_step(rest[0]) {
            Some(Step::PropertyPick(entries)) => if rest.len() == 1 {
                Some(under(name, entries))
            } else {
                None
            },
            Some(step) => if op::is_array(step) {
                match tail_entries(name, rest.drop_first()) {
                    Some(entries) => Some(after(step, entries)),
                    None => None,
                }
            } else {
                None
            },
            None => None,
        }
    }
}

/// `entries`, each read from the value of the property `name`.
pub open spec fn under(name: Seq<char>, entries: Seq<Entry>) -> Seq<Entry> {
    entries.map_values(
        |entry: Entry|
            Entry {
                key: entry.key,
                name,
                steps: seq![Step::Property(entry.name)] + entry.steps,
            },
    )
}

/// `entries`, with `step` before the steps of each.
pub open spec fn after(step: Step, entries: Seq<Entry>) -> Seq<Entry> {
    entries.map_values(
        |entry: Entry|
            Entry { key: entry.key, name: entry.name, steps: seq![step] + entry.steps },
    )
}

/// `entries`, with `steps` before the steps of each.
pub open spec fn after_all(steps: Seq<Step>, entries: Seq<Entry>) -> Seq<Entry> {
    entries.map_values(
        |entry: Entry|
            Entry { key: entry.key, name: entry.name, steps: steps + entry.steps },
    )
}

/// Whether a step takes keys.
pub open spec fn is_keys(step: Step) -> bool {
    match step {
        Step::Descend(inner) => *inner is PropertyKeys,
        _ => step is PropertyKeys,
    }
}

/// The step that maps the keys that `step` takes to what `steps` give.
pub open spec fn keys_to_map(step: Step, steps: Seq<Step>) -> Step {
    match step {
        Step::PropertyKeys(matcher) => Step::PropertyMap(matcher, steps),
        Step::Descend(inner) => Step::Descend(Box::new(keys_to_map_inner(*inner, steps))),
        _ => step,
    }
}

/// The step inside a `**` that maps the keys that `step` takes to what `steps` give.
pub open spec fn keys_to_map_inner(step: Step, steps: Seq<Step>) -> Step {
    match step {
        Step::PropertyKeys(matcher) => Step::PropertyMap(matcher, steps),
        _ => step,
    }
}

/// `steps` with the steps behind each keys step moved into it.
pub open spec fn nested(steps: Seq<Step>) -> Seq<Step>
    decreases steps.len(),
{
    if steps.len() == 0 {
        steps
    } else if is_keys(steps[0]) && steps.len() > 1 {
        seq![keys_to_map(steps[0], nested(steps.drop_first()))]
    } else {
        seq![steps[0]] + nested(steps.drop_first())
    }
}

/// Whether `steps` may follow `**^`: they must start with an object step, and a pick must be the
/// last of them.
pub open spec fn may_follow_paths(steps: Seq<Step>) -> bool {
    if steps.len() == 0 {
        true
    } else if steps[0] is PropertyPick {
        steps.len() == 1
    } else {
        op::is_object(steps[0])
    }
}

/// The steps of `chunks`, if they are valid.
pub open spec fn chunks_steps(chunks: Seq<Seq<char>>) -> Option<Seq<Step>>
    decreases chunks.len(), 1int,
{
    match flat_steps(chunks) {
        Some(steps) => Some(nested(steps)),
        None => None,
    }
}

/// The steps of `chunks` one behind the other. `**` takes the step behind it, which must be an
/// object step, and `**^` takes all the steps behind it.
pub open spec fn flat_steps(chunks: Seq<Seq<char>>) -> Option<Seq<Step>>
    decreases chunks.len(), 0int,
{
    if chunks.len() == 0 {
        Some(Seq::empty())
    } else if chunks[0] == "**"@ {
        if chunks.len() == 1 {
            None
        } else {
            match (chunk_step(chunks[1]), flat_steps(chunks.skip(2))) {
                (Some(step), Some(rest)) => if op::is_object(step) {
                    Some(seq![Step::Descend(Box::new(step))] + rest)
                } else {
                    None
                },
                _ => None,
            }
        }
    } else if chunks[0] == "**^"@ {
        match chunks_steps(chunks.drop_first()) {
            Some(steps) => if may_follow_paths(steps) {
                Some(seq![Step::DescendPaths(steps)])
            } else {
                None
            },
            None => None,
        }
    } else {
        match (chunk_step(chunks[0]), flat_steps(chunks.drop_first())) {
            (Some(step), Some(rest)) => Some(seq![step] + rest),
            _ => None,
        }
    }
}

/// The steps of a query, if it is a valid one. An empty query has no steps.
pub open spec fn query_steps(query: Seq<char>) -> Option<Seq<Step>> {
    if query.len() == 0 {
        Some(Seq::empty())
    } else {
        match chunks(query) {
            Some(chunks) => chunks_steps(chunks),
            None => None,
        }
    }
}

/// No chunk is longer than what it is a chunk of.
pub proof fn lemma_longest(query: Seq<char>, found: Seq<Seq<char>>)
    requires
        chunks(query) == Some(found),
    ensures
        longest(found) <= query.len(),
{
    lemma_longest_from(query, 0, 0, Lex::Plain, 0, found);
}

proof fn lemma_longest_from(
    query: Seq<char>,
    start: int,
    at: int,
    lex: Lex,
    depth: nat,
    found: Seq<Seq<char>>,
)
    requires
        0 <= start <= at <= query.len(),
        chunks_from(query, start, at, lex, depth) == Some(found),
    ensures
        longest(found) <= query.len(),
    decreases query.len() - at,
{
    if at >= query.len() {
        assert(longest(found.drop_first()) == 0);
    } else {
        match move_at(lex, depth, at == start, at == 0, query[at]) {
            Move::Stay { lex, depth } => {
                lemma_longest_from(query, start, at + 1, lex, depth, found);
            },
            Move::Dot => {
                let rest = chunks_from(query, at + 1, at + 1, Lex::Plain, depth)->Some_0;
                lemma_longest_from(query, at + 1, at + 1, Lex::Plain, depth, rest);
                assert(found.drop_first() =~= rest);
            },
            Move::Bracket => {
                let rest = chunks_from(query, at, at + 1, Lex::Plain, depth)->Some_0;
                lemma_longest_from(query, at, at + 1, Lex::Plain, depth, rest);
                assert(found.drop_first() =~= rest);
            },
            Move::Reject => {},
        }
    }
}

/// No chunk is longer than the longest.
pub(crate) proof fn lemma_longest_at(chunks: Seq<Seq<char>>, i: int)
    requires
        0 <= i < chunks.len(),
    ensures
        chunks[i].len() <= longest(chunks),
    decreases chunks.len(),
{
    if i > 0 {
        lemma_longest_at(chunks.drop_first(), i - 1);
    }
}

/// The longest of some chunks is no longer than the longest of all.
pub(crate) proof fn lemma_longest_skip(chunks: Seq<Seq<char>>, from: int)
    requires
        0 <= from <= chunks.len(),
    ensures
        longest(chunks.skip(from)) <= longest(chunks),
    decreases from,
{
    if from == 0 {
        assert(chunks.skip(0) =~= chunks);
    } else {
        lemma_longest_skip(chunks.drop_first(), from - 1);
        assert(chunks.drop_first().skip(from - 1) =~= chunks.skip(from));
    }
}

/// The first `c` in a text is at the only position with a `c` that has no `c` before it.
pub(crate) proof fn lemma_position_is(text: Seq<char>, c: char, at: int)
    requires
        0 <= at <= text.len(),
        at < text.len() ==> text[at] == c,
        forall|i: int| 0 <= i < at ==> #[trigger] text[i] != c,
    ensures
        position(text, c) == at,
    decreases at,
{
    if at > 0 {
        assert(text[0] != c);
        let rest = text.drop_first();
        assert forall|i: int| 0 <= i < at - 1 implies #[trigger] rest[i] != c by {
            assert(rest[i] == text[i + 1]);
        }
        lemma_position_is(rest, c, at - 1);
    }
}

/// `steps` without keys steps, but for the last, stay as they are.
pub(crate) proof fn lemma_nested_same(steps: Seq<Step>)
    requires
        forall|i: int| 0 <= i < steps.len() - 1 ==> !is_keys(#[trigger] steps[i]),
    ensures
        nested(steps) == steps,
    decreases steps.len(),
{
    if steps.len() > 0 {
        let rest = steps.drop_first();
        assert forall|i: int| 0 <= i < rest.len() - 1 implies !is_keys(#[trigger] rest[i]) by {
            assert(rest[i] == steps[i + 1]);
        }
        lemma_nested_same(rest);
        assert(steps.len() > 1 ==> !is_keys(steps[0]));
        assert(seq![steps[0]] + rest =~= steps);
    }
}

/// The first keys step takes the steps behind it.
pub(crate) proof fn lemma_nested_at(steps: Seq<Step>, at: int)
    requires
        0 <= at < steps.len() - 1,
        is_keys(steps[at]),
        forall|i: int| 0 <= i < at ==> !is_keys(#[trigger] steps[i]),
    ensures
        nested(steps) == steps.take(at).push(
            keys_to_map(steps[at], nested(steps.skip(at + 1))),
        ),
    decreases at,
{
    let mapped = keys_to_map(steps[at], nested(steps.skip(at + 1)));
    if at == 0 {
        assert(steps.skip(1) =~= steps.drop_first());
        assert(seq![mapped] =~= steps.take(0).push(mapped));
    } else {
        let rest = steps.drop_first();
        assert(!is_keys(steps[0]));
        assert forall|i: int| 0 <= i < at - 1 implies !is_keys(#[trigger] rest[i]) by {
            assert(rest[i] == steps[i + 1]);
        }
        lemma_nested_at(rest, at - 1);
        assert(rest.skip(at) =~= steps.skip(at + 1));
        assert(seq![steps[0]] + rest.take(at - 1).push(mapped) =~= steps.take(at).push(mapped));
    }
}

/// Nesting steps keeps them literal.
pub(crate) proof fn lemma_nested_literal(steps: Seq<Step>)
    requires
        are_literal(steps),
    ensures
        are_literal(nested(steps)),
    decreases steps.len(),
{
    if steps.len() > 0 {
        let rest = steps.drop_first();
        let more = nested(rest);
        let all = nested(steps);
        assert forall|i: int| 0 <= i < rest.len() implies is_literal_step(#[trigger] rest[i]) by {
            assert(rest[i] == steps[i + 1]);
        }
        lemma_nested_literal(rest);
        assert(is_literal_step(steps[0]));
        if is_keys(steps[0]) && steps.len() > 1 {
            let mapped = keys_to_map(steps[0], more);
            if let Step::Descend(inner) = steps[0] {
                assert(is_literal_step(*inner));
                assert(is_literal_step(keys_to_map_inner(*inner, more)));
            }
            assert(is_literal_step(mapped));
            assert(all =~= seq![mapped]);
        } else {
            assert forall|i: int| 0 <= i < all.len() implies is_literal_step(#[trigger] all[i]) by {
                if i > 0 {
                    assert(all[i] == more[i - 1]);
                }
            }
        }
    }
}

/// Nesting steps again changes nothing more.
pub(crate) proof fn lemma_nested_twice(steps: Seq<Step>)
    ensures
        nested(nested(steps)) == nested(steps),
{
    lemma_keys_last(steps);
    lemma_nested_same(nested(steps));
}

/// Where steps are nested, only the last takes keys.
proof fn lemma_keys_last(steps: Seq<Step>)
    ensures
        forall|i: int| 0 <= i < nested(steps).len() - 1 ==> !is_keys(#[trigger] nested(steps)[i]),
        steps.len() > 0 ==> nested(steps).len() > 0,
        steps.len() == 0 ==> nested(steps).len() == 0,
    decreases steps.len(),
{
    if steps.len() > 0 {
        let rest = steps.drop_first();
        let all = nested(steps);
        lemma_keys_last(rest);
        if !(is_keys(steps[0]) && steps.len() > 1) {
            assert forall|i: int| 0 <= i < all.len() - 1 implies !is_keys(#[trigger] all[i]) by {
                if i > 0 {
                    assert(all[i] == nested(rest)[i - 1]);
                }
            }
        }
    }
}

/// The entries of some parts of a list are the first of the entries of more of its parts.
pub(crate) proof fn lemma_parts_entries_prefix(list: Seq<char>, some: nat, more: nat)
    requires
        some <= more <= parts(list).len(),
        parts_entries(list, more) is Some,
    ensures
        parts_entries(list, some) is Some,
        parts_entries(list, some)->Some_0.is_prefix_of(parts_entries(list, more)->Some_0),
    decreases more,
{
    if some < more {
        lemma_parts_entries_prefix(list, some, (more - 1) as nat);
    }
}

/// Entries are not distinct where the first of them are not.
pub(crate) proof fn lemma_distinct_prefix(some: Seq<Entry>, more: Seq<Entry>)
    requires
        some.is_prefix_of(more),
        distinct_entries(more),
    ensures
        distinct_entries(some),
{
    assert forall|i: int, j: int| 0 <= i < j < some.len() implies #[trigger] some[i].key
        != #[trigger] some[j].key by {
        assert(some[i] == more[i] && some[j] == more[j]);
    }
}

/// No part of a list is longer than the list.
pub proof fn lemma_part_len(list: Seq<char>, i: int)
    requires
        0 <= i < parts(list).len(),
    ensures
        parts(list)[i].len() <= list.len(),
{
    lemma_part_len_from(list, 0, 0, 0, i);
}

proof fn lemma_part_len_from(list: Seq<char>, start: int, at: int, depth: nat, i: int)
    requires
        0 <= start <= at <= list.len(),
        0 <= i < parts_from(list, start, at, depth).len(),
    ensures
        parts_from(list, start, at, depth)[i].len() <= list.len(),
    decreases list.len() - at,
{
    if at < list.len() {
        if list[at] == '{' {
            lemma_part_len_from(list, start, at + 1, depth + 1, i);
        } else if list[at] == '}' {
            let less = if depth > 0 {
                (depth - 1) as nat
            } else {
                0
            };
            lemma_part_len_from(list, start, at + 1, less, i);
        } else if list[at] == ',' && depth == 0 {
            if i > 0 {
                lemma_part_len_from(list, at + 1, at + 1, depth, i - 1);
            }
        } else {
            lemma_part_len_from(list, start, at + 1, depth, i);
        }
    }
}

} // verus!
