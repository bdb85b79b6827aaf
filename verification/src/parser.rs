//! Turns query text into a list of [`Op`]s.

use crate::grammar;
use crate::grammar::{Lex, Move, Reading};
use crate::op;
use crate::op::{Entry, Matcher, Step};
use crate::text;
use vstd::prelude::*;
use vstd::string::StrSliceExecFns;

pub use crate::op::{Op, Pattern, PickEntry};

verus! {

/// The query text could not be parsed.
#[derive(Debug, PartialEq, Eq, Structural)]
pub enum ParseError {
    InvalidQuery,
}

impl ParseError {
    /// The message for a user.
    pub fn to_string(&self) -> (message: String)
        ensures
            message@ == "invalid query"@,
    {
        match self {
            ParseError::InvalidQuery => "invalid query".to_owned(),
        }
    }
}

/// What a list of texts stands for.
pub open spec fn texts(list: Seq<&str>) -> Seq<Seq<char>> {
    Seq::new(list.len(), |i: int| list[i]@)
}

/// Parses a query. An empty query has no steps. A query may not start with `.`: write `a.b`, not
/// `.a.b`. A regex that is a plain name, as in `/name/^`, selects the same keys as the name does in
/// `name^`, and `/.*/` the same keys as `*`.
pub fn parse(query: &str) -> (result: Result<Vec<Op>, ParseError>)
    ensures
        match result {
            Ok(ops) => grammar::query_steps(query@) == Some(op::steps_of(ops@))
                && grammar::are_literal(op::steps_of(ops@)),
            Err(_) => grammar::query_steps(query@) is None,
        },
{
    if query.is_empty() {
        let ops: Vec<Op> = Vec::new();
        assert(op::steps_of(ops@) =~= Seq::empty());
        return Ok(ops);
    }
    let chunks = split_chunks(query)?;
    parse_chunks(chunks.as_slice())
}

/// Parses the chunks of a query.
fn parse_chunks(chunks: &[&str]) -> (result: Result<Vec<Op>, ParseError>)
    ensures
        match result {
            Ok(ops) => grammar::chunks_steps(texts(chunks@)) == Some(op::steps_of(ops@))
                && grammar::are_literal(op::steps_of(ops@)),
            Err(_) => grammar::chunks_steps(texts(chunks@)) is None,
        },
    decreases chunks@.len(),
{
    let ghost all = texts(chunks@);
    let ghost expected = grammar::flat_steps(all);
    let mut ops: Vec<Op> = Vec::new();
    let mut at: usize = 0;
    proof {
        assert(all.skip(0) =~= all);
        if let Some(steps) = expected {
            assert(op::steps_of(ops@) + steps =~= steps);
        }
    }
    while at < chunks.len()
        invariant
            at <= chunks@.len(),
            all == texts(chunks@),
            expected == grammar::flat_steps(all),
            expected == with(op::steps_of(ops@), grammar::flat_steps(all.skip(at as int))),
            grammar::are_literal(op::steps_of(ops@)),
        decreases chunks@.len() - at,
    {
        let chunk = chunks[at];
        let ghost rest = all.skip(at as int);
        assert(rest[0] == chunk@);
        if text::same_text(chunk, "**") {
            // `**` must be followed by an object step, which it runs at every depth.
            if at + 1 >= chunks.len() {
                return Err(ParseError::InvalidQuery);
            }
            assert(rest[1] == chunks@[at + 1]@);
            assert(rest.skip(2) =~= all.skip(at + 2));
            let step = parse_chunk(chunks[at + 1])?;
            if !step.is_object_step() {
                return Err(ParseError::InvalidQuery);
            }
            let op = Op::Descend(Box::new(step));
            proof {
                lemma_push_op(ops@, op, grammar::flat_steps(all.skip(at + 2)));
                assert(grammar::is_literal_step(op@));
                lemma_push_literal(ops@, op);
            }
            ops.push(op);
            at = at + 2;
        } else if text::same_text(chunk, "**^") {
            // `**^` takes all the steps after it, which must start with an object step. A pick
            // builds the object for each path, so it must be last.
            let after = &chunks[at + 1..chunks.len()];
            assert(texts(after@) =~= rest.drop_first());
            let steps = parse_chunks(after)?;
            let valid = if steps.len() == 0 {
                true
            } else if matches!(steps[0], Op::PropertyPick(_)) {
                steps.len() == 1
            } else {
                steps[0].is_object_step()
            };
            proof {
                if steps.len() > 0 {
                    assert(op::steps_of(steps@)[0] == steps@[0]@);
                }
                assert(valid == grammar::may_follow_paths(op::steps_of(steps@)));
            }
            if !valid {
                return Err(ParseError::InvalidQuery);
            }
            let op = Op::DescendPaths(steps);
            proof {
                op::lemma_steps_push(ops@, op);
                assert(op::steps_of(ops@).push(op@) =~= op::steps_of(ops@) + seq![op@]);
                assert(expected == Some(op::steps_of(ops@).push(op@)));
                assert(grammar::is_literal_step(op@));
                lemma_push_literal(ops@, op);
            }
            ops.push(op);
            proof {
                grammar::lemma_nested_literal(op::steps_of(ops@));
            }
            return Ok(nest_after_keys(ops));
        } else {
            assert(rest.drop_first() =~= all.skip(at + 1));
            let op = parse_chunk(chunk)?;
            proof {
                lemma_push_op(ops@, op, grammar::flat_steps(all.skip(at + 1)));
                lemma_push_literal(ops@, op);
            }
            ops.push(op);
            at = at + 1;
        }
    }
    proof {
        assert(all.skip(all.len() as int) =~= Seq::empty());
        assert(op::steps_of(ops@) + Seq::empty() =~= op::steps_of(ops@));
        grammar::lemma_nested_literal(op::steps_of(ops@));
    }
    Ok(nest_after_keys(ops))
}

/// Moving one step from what is left to what is done.
proof fn lemma_push_op(done: Seq<Op>, op: Op, rest: Option<Seq<Step>>)
    ensures
        with(
            op::steps_of(done),
            match rest {
                Some(rest) => Some(seq![op@] + rest),
                None => None,
            },
        ) == with(op::steps_of(done.push(op)), rest),
{
    op::lemma_steps_push(done, op);
    if let Some(rest) = rest {
        assert(op::steps_of(done) + (seq![op@] + rest) =~= op::steps_of(done).push(op@) + rest);
    }
}

/// A literal step behind literal steps.
proof fn lemma_push_literal(done: Seq<Op>, op: Op)
    requires
        grammar::are_literal(op::steps_of(done)),
        grammar::is_literal_step(op@),
    ensures
        grammar::are_literal(op::steps_of(done.push(op))),
{
    let before = op::steps_of(done);
    let all = op::steps_of(done.push(op));
    op::lemma_steps_push(done, op);
    assert forall|i: int| 0 <= i < all.len() implies grammar::is_literal_step(
        #[trigger] all[i],
    ) by {
        if i < before.len() {
            assert(all[i] == before[i]);
        }
    }
}

/// `done` and what is behind it.
spec fn with<A>(done: Seq<A>, rest: Option<Seq<A>>) -> Option<Seq<A>> {
    match rest {
        Some(rest) => Some(done + rest),
        None => None,
    }
}

/// Splits a query on `.`, except inside `/regex/` chunks, where `\/` escapes a slash, and inside
/// `{...}`. A `[` also starts a new chunk, so `a[0]` is two chunks, but it may not follow a `.`:
/// `a.[0]` is an error.
pub fn split_chunks<'a>(query: &'a str) -> (result: Result<Vec<&'a str>, ParseError>)
    ensures
        match result {
            Ok(chunks) => grammar::chunks(query@) == Some(texts(chunks@)),
            Err(_) => grammar::chunks(query@) is None,
        },
{
    let chars = text::characters(query);
    let ghost expected = grammar::chunks(query@);
    let mut chunks: Vec<&'a str> = Vec::new();
    let mut start: usize = 0;
    let mut lex = Lex::Plain;
    // How many `{` are open.
    let mut depth: usize = 0;
    proof {
        let rest = grammar::chunks_from(query@, 0, 0, lex, 0);
        if let Some(rest) = rest {
            assert(texts(chunks@) + rest =~= rest);
        }
    }
    for at in 0..chars.len()
        invariant
            chars@ == query@,
            expected == grammar::chunks(query@),
            start <= at,
            depth <= at,
            expected == with(
                texts(chunks@),
                grammar::chunks_from(query@, start as int, at as int, lex, depth as nat),
            ),
    {
        let c = chars[at];
        let ghost step = grammar::move_at(lex, depth as nat, at == start, at == 0, c);
        let in_chunk = match lex {
            Lex::InRegex => {
                lex = if c == '\\' {
                    Lex::Escaped
                } else if c == '/' {
                    Lex::RegexClosed
                } else {
                    Lex::InRegex
                };
                true
            },
            Lex::Escaped => {
                lex = Lex::InRegex;
                true
            },
            Lex::Plain => if c == '{' {
                depth = depth + 1;
                true
            } else if depth > 0 {
                if c == '}' {
                    depth = depth - 1;
                }
                true
            } else {
                false
            },
            _ => false,
        };
        if in_chunk {
            assert(step == Move::Stay { lex, depth: depth as nat });
        } else if c == '.' {
            assert(step is Dot);
            let chunk = query.substring_char(start, at);
            proof {
                lemma_push_chunk(
                    chunks@,
                    chunk,
                    grammar::chunks_from(query@, at + 1, at + 1, Lex::Plain, depth as nat),
                );
            }
            chunks.push(chunk);
            start = at + 1;
            lex = Lex::Plain;
        } else if c == '[' && at > start {
            assert(step is Bracket);
            let chunk = query.substring_char(start, at);
            proof {
                lemma_push_chunk(
                    chunks@,
                    chunk,
                    grammar::chunks_from(query@, at as int, at + 1, Lex::Plain, depth as nat),
                );
            }
            chunks.push(chunk);
            start = at;
            lex = Lex::Plain;
        } else if c == '[' && at > 0 {
            assert(step is Reject);
            return Err(ParseError::InvalidQuery);
        } else {
            match lex {
                Lex::RegexClosed => {
                    // Nothing may follow a closing `/` except `^` and the next `.` or `[`.
                    if c != '^' {
                        assert(step is Reject);
                        return Err(ParseError::InvalidQuery);
                    }
                    lex = Lex::RegexKeys;
                },
                Lex::RegexKeys => {
                    assert(step is Reject);
                    return Err(ParseError::InvalidQuery);
                },
                _ => if c == '/' && at == start {
                    lex = Lex::InRegex;
                },
            }
            assert(step == Move::Stay { lex, depth: depth as nat });
        }
    }
    if depth > 0 || matches!(lex, Lex::InRegex | Lex::Escaped) {
        return Err(ParseError::InvalidQuery);
    }
    let chunk = query.substring_char(start, chars.len());
    assert(texts(chunks@.push(chunk)) =~= texts(chunks@) + seq![chunk@]);
    chunks.push(chunk);
    Ok(chunks)
}

/// Moving one chunk from what is left to what is done.
proof fn lemma_push_chunk(done: Seq<&str>, chunk: &str, rest: Option<Seq<Seq<char>>>)
    ensures
        with(texts(done), grammar::behind(chunk@, rest)) == with(texts(done.push(chunk)), rest),
{
    if let Some(rest) = rest {
        assert(texts(done) + (seq![chunk@] + rest) =~= texts(done.push(chunk)) + rest);
    }
}

/// Splits on the commas that are not inside a nested `{...}`.
pub fn split_top_level_commas<'a>(list: &'a str) -> (parts: Vec<&'a str>)
    ensures
        texts(parts@) == grammar::parts(list@),
{
    let chars = text::characters(list);
    let mut parts: Vec<&'a str> = Vec::new();
    let mut start: usize = 0;
    let mut depth: usize = 0;
    assert(texts(parts@) + grammar::parts_from(list@, 0, 0, 0) =~= grammar::parts(list@));
    for at in 0..chars.len()
        invariant
            chars@ == list@,
            start <= at,
            depth <= at,
            grammar::parts(list@) == texts(parts@) + grammar::parts_from(
                list@,
                start as int,
                at as int,
                depth as nat,
            ),
    {
        let c = chars[at];
        if c == '{' {
            depth = depth + 1;
        } else if c == '}' {
            if depth > 0 {
                depth = depth - 1;
            }
        } else if c == ',' && depth == 0 {
            let part = list.substring_char(start, at);
            proof {
                let rest = grammar::parts_from(list@, at + 1, at + 1, depth as nat);
                assert(texts(parts@) + (seq![part@] + rest) =~= texts(parts@.push(part)) + rest);
            }
            parts.push(part);
            start = at + 1;
        }
    }
    let part = list.substring_char(start, chars.len());
    assert(texts(parts@.push(part)) =~= texts(parts@) + seq![part@]);
    parts.push(part);
    parts
}

/// Whether `text` is a property name: letters, `_` and `-`, and at least one of them.
fn is_name(text: &str) -> (yes: bool)
    ensures
        yes == grammar::is_name(text@),
{
    let chars = text::characters(text);
    for i in 0..chars.len()
        invariant
            chars@ == text@,
            forall|j: int| 0 <= j < i ==> grammar::is_name_char(#[trigger] text@[j]),
    {
        let c = chars[i];
        if !(('a' <= c && c <= 'z') || ('A' <= c && c <= 'Z') || c == '_' || c == '-') {
            assert(!grammar::is_name_char(text@[i as int]));
            return false;
        }
    }
    chars.len() > 0
}

/// Whether the characters from `from` up to `to` are a decimal number.
fn is_number(chars: &Vec<char>, from: usize, to: usize) -> (yes: bool)
    requires
        from <= to <= chars@.len(),
    ensures
        yes == grammar::is_number(chars@.subrange(from as int, to as int)),
{
    let ghost text = chars@.subrange(from as int, to as int);
    for i in from..to
        invariant
            from <= to <= chars@.len(),
            text == chars@.subrange(from as int, to as int),
            forall|j: int| 0 <= j < i - from ==> '0' <= #[trigger] text[j] <= '9',
    {
        let c = chars[i];
        assert(text[i - from] == c);
        if c < '0' || c > '9' {
            return false;
        }
    }
    from < to
}

/// The number of a digit.
fn digit(c: char) -> (value: usize)
    requires
        '0' <= c <= '9',
    ensures
        value == c as nat - '0' as nat,
{
    (c as usize) - ('0' as usize)
}

/// A number is at least what its first digits make.
proof fn lemma_number_grows(text: Seq<char>, taken: int)
    requires
        0 <= taken <= text.len(),
    ensures
        grammar::number(text.take(taken)) <= grammar::number(text),
    decreases text.len(),
{
    if taken == text.len() {
        assert(text.take(taken) =~= text);
    } else {
        assert(text.drop_last().take(taken) =~= text.take(taken));
        lemma_number_grows(text.drop_last(), taken);
    }
}

/// The value of the decimal number from `from` up to `to`, if it fits.
fn number(chars: &Vec<char>, from: usize, to: usize) -> (value: Option<usize>)
    requires
        from <= to <= chars@.len(),
        grammar::is_number(chars@.subrange(from as int, to as int)),
    ensures
        ({
            let expected = grammar::number(chars@.subrange(from as int, to as int));
            match value {
                Some(value) => value == expected,
                None => expected > usize::MAX,
            }
        }),
{
    let ghost text = chars@.subrange(from as int, to as int);
    let mut value: usize = 0;
    assert(text.take(0) =~= Seq::empty());
    for i in from..to
        invariant
            from <= to <= chars@.len(),
            text == chars@.subrange(from as int, to as int),
            grammar::is_number(text),
            value == grammar::number(text.take(i - from)),
    {
        let ghost done = i - from;
        proof {
            assert(text[done] == chars@[i as int]);
            assert(text.take(done + 1).drop_last() =~= text.take(done));
            lemma_number_grows(text, done + 1);
        }
        let last = digit(chars[i]);
        match value.checked_mul(10) {
            Some(shifted) => match shifted.checked_add(last) {
                Some(sum) => {
                    value = sum;
                },
                None => return None,
            },
            None => return None,
        }
    }
    assert(text.take(text.len() as int) =~= text);
    Some(value)
}

/// The bound of a slice from `from` up to `to`.
fn parse_bound(chars: &Vec<char>, from: usize, to: usize) -> (result: Result<
    Option<isize>,
    ParseError,
>)
    requires
        from <= to <= chars@.len(),
    ensures
        match result {
            Ok(bound) => grammar::slice_bound(chars@.subrange(from as int, to as int)) == Some(
                op::bound(bound),
            ),
            Err(_) => grammar::slice_bound(chars@.subrange(from as int, to as int)) is None,
        },
{
    let ghost text = chars@.subrange(from as int, to as int);
    if from == to {
        return Ok(None);
    }
    assert(text[0] == chars@[from as int]);
    if is_number(chars, from, to) {
        return match number(chars, from, to) {
            Some(value) => if value <= isize::MAX as usize {
                Ok(Some(value as isize))
            } else {
                Err(ParseError::InvalidQuery)
            },
            None => Err(ParseError::InvalidQuery),
        };
    }
    assert(text.drop_first() =~= chars@.subrange(from + 1, to as int));
    if chars[from] == '-' && is_number(chars, from + 1, to) {
        return match number(chars, from + 1, to) {
            Some(value) => if value <= isize::MAX as usize {
                Ok(Some(-(value as isize)))
            } else if value == isize::MAX as usize + 1 {
                Ok(Some(isize::MIN))
            } else {
                Err(ParseError::InvalidQuery)
            },
            None => Err(ParseError::InvalidQuery),
        };
    }
    Err(ParseError::InvalidQuery)
}

/// Parses `[]`, `[n]` or `[start:stop]`.
fn parse_array_step(chunk: &str) -> (result: Result<Op, ParseError>)
    ensures
        match result {
            Ok(op) => grammar::array_step(chunk@) == Some(op@),
            Err(_) => grammar::array_step(chunk@) is None,
        },
{
    let chars = text::characters(chunk);
    let len = chars.len();
    if len < 2 || chars[0] != '[' || chars[len - 1] != ']' {
        return Err(ParseError::InvalidQuery);
    }
    let ghost inside = grammar::unwrapped(chunk@);
    if len == 2 {
        return Ok(Op::Array);
    }
    if is_number(&chars, 1, len - 1) {
        return match number(&chars, 1, len - 1) {
            Some(n) => Ok(Op::ArrayIndex(n)),
            None => Err(ParseError::InvalidQuery),
        };
    }
    let mut colon: usize = 1;
    while colon < len - 1 && chars[colon] != ':'
        invariant
            chars@ == chunk@,
            len == chars@.len(),
            1 <= colon <= len - 1,
            inside == grammar::unwrapped(chunk@),
            forall|i: int| 0 <= i < colon - 1 ==> #[trigger] inside[i] != ':',
        decreases len - colon,
    {
        assert(inside[colon - 1] == chars@[colon as int]);
        colon = colon + 1;
    }
    proof {
        if colon < len - 1 {
            assert(inside[colon - 1] == chars@[colon as int]);
        }
        grammar::lemma_position_is(inside, ':', colon - 1);
    }
    if colon == len - 1 {
        return Err(ParseError::InvalidQuery);
    }
    assert(inside.take(colon - 1) =~= chars@.subrange(1, colon as int));
    assert(inside.skip(colon as int) =~= chars@.subrange(colon + 1, len - 1));
    let start = parse_bound(&chars, 1, colon)?;
    let stop = parse_bound(&chars, colon + 1, len - 1)?;
    Ok(Op::ArraySlice { start, stop })
}

/// Parses `*` or `/regex/`, which select properties by key, followed by an optional `^` to take
/// their keys instead of their values, or `name^`. Returns `None` if `chunk` is some other kind of
/// step.
fn parse_selector(chunk: &str) -> (result: Result<Option<Op>, ParseError>)
    ensures
        match result {
            Ok(Some(op)) => grammar::selector_step(chunk@) == Reading::Valid(op@)
                && grammar::is_literal_step(op@),
            Ok(None) => grammar::selector_step(chunk@) == Reading::<Step>::Other,
            Err(_) => grammar::selector_step(chunk@) == Reading::<Step>::Invalid,
        },
{
    let chars = text::characters(chunk);
    let keys = chars.len() > 0 && chars[chars.len() - 1] == '^';
    let len = if keys {
        chars.len() - 1
    } else {
        chars.len()
    };
    let selector = chunk.substring_char(0, len);
    proof {
        if keys {
            assert(selector@ =~= chunk@.drop_last());
        } else {
            assert(selector@ =~= chunk@);
        }
        assert(seq!['*'][0] == '*');
    }
    let pattern = if len == 1 && chars[0] == '*' {
        assert(selector@ =~= seq!['*']);
        Pattern::Any
    } else if len >= 2 && chars[0] == '/' && chars[len - 1] == '/' {
        let source = selector.substring_char(1, len - 1);
        assert(source@ =~= grammar::unwrapped(selector@));
        assert(grammar::is_wrapped(selector@, '/', '/'));
        assert(selector@ != seq!['*']);
        parse_regex(source)?
    } else if keys && is_name(selector) {
        Pattern::Contains(selector.to_owned())
    } else {
        return Ok(None);
    };
    assert(grammar::selector(selector@, keys) == Reading::Valid(pattern@));
    let op = if keys {
        Op::PropertyKeys(pattern)
    } else {
        Op::PropertyValues(pattern)
    };
    Ok(Some(op))
}

/// Compiles the regex between two slashes. One that is a plain name selects the keys that contain
/// the name, and `.*` every key.
pub fn parse_regex(source: &str) -> (result: Result<Pattern, ParseError>)
    ensures
        match result {
            Ok(pattern) => {
                &&& op::regex_language(source@) matches Some(texts)
                &&& pattern@ == (Matcher::Regex { source: source@, texts })
                &&& grammar::is_literal(pattern@)
            },
            Err(_) => op::regex_language(source@) is None,
        },
{
    match op::regex_new(source) {
        Ok(regex) => Ok(Pattern::Regex(regex)),
        Err(_) => Err(ParseError::InvalidQuery),
    }
}

/// Parses one step of a query. What [`parse`] says of regexes holds of it.
pub fn parse_chunk(chunk: &str) -> (result: Result<Op, ParseError>)
    ensures
        match result {
            Ok(op) => grammar::chunk_step(chunk@) == Some(op@) && grammar::is_literal_step(op@),
            Err(_) => grammar::chunk_step(chunk@) is None,
        },
    decreases chunk@.len(), 0int, 0int,
{
    match parse_selector(chunk)? {
        Some(op) => return Ok(op),
        None => {},
    }
    if is_name(chunk) {
        return Ok(Op::Property(chunk.to_owned()));
    }
    let chars = text::characters(chunk);
    let len = chars.len();
    if len >= 2 && chars[0] == '{' && chars[len - 1] == '}' {
        let entries = parse_pick_list(chunk.substring_char(1, len - 1))?;
        return Ok(Op::PropertyPick(entries));
    }
    parse_array_step(chunk)
}

/// Parses the `a,b.c` inside `{a,b.c}`. Two entries may not have the same key.
fn parse_pick_list(list: &str) -> (result: Result<Vec<PickEntry>, ParseError>)
    ensures
        match result {
            Ok(entries) => grammar::pick_entries(list@) == Some(op::entries_of(entries@)),
            Err(_) => grammar::pick_entries(list@) is None,
        },
    decreases list@.len(), 3int, 0int,
{
    let parts = split_top_level_commas(list);
    let ghost count = parts@.len();
    let mut entries: Vec<PickEntry> = Vec::new();
    assert(op::entries_of(entries@) =~= Seq::empty());
    for i in 0..parts.len()
        invariant
            texts(parts@) == grammar::parts(list@),
            count == parts@.len(),
            grammar::parts_entries(list@, i as nat) == Some(op::entries_of(entries@)),
            grammar::distinct_entries(op::entries_of(entries@)),
    {
        let part = parts[i];
        let ghost before = op::entries_of(entries@);
        proof {
            assert(texts(parts@)[i as int] == part@);
            grammar::lemma_part_len(list@, i as int);
            if grammar::parts_entries(list@, count) is Some {
                grammar::lemma_parts_entries_prefix(list@, (i + 1) as nat, count);
            }
        }
        let chunks = split_chunks(part)?;
        proof {
            grammar::lemma_longest(part@, texts(chunks@));
        }
        let found = parse_pick_path(chunks.as_slice())?;
        let ghost new = op::entries_of(found@);
        assert(grammar::parts_entries(list@, (i + 1) as nat) == Some(before + new));
        assert(before + new.take(0) =~= before);
        for entry in iter: found.into_iter()
            invariant
                op::entries_of(iter.seq()) == new,
                op::entries_of(entries@) == before + new.take(iter.index() as int),
                grammar::distinct_entries(op::entries_of(entries@)),
                grammar::parts_entries(list@, count) is Some ==> (before + new).is_prefix_of(
                    grammar::parts_entries(list@, count)->Some_0,
                ),
                texts(parts@) == grammar::parts(list@),
                count == parts@.len(),
        {
            let ghost done = iter.index() as int;
            let ghost so_far = op::entries_of(entries@);
            assert(new[done] == entry@);
            assert(before + new.take(done + 1) =~= so_far.push(entry@));
            if has_entry(&entries, entry.key.as_str()) {
                proof {
                    let at = choose|j: int|
                        0 <= j < so_far.len() && (#[trigger] so_far[j]).key == entry.key@;
                    let last = so_far.len() as int;
                    assert(so_far[at].key == entry.key@);
                    assert((before + new)[at] == so_far[at]);
                    assert((before + new)[last] == entry@);
                    assert((before + new)[at].key == (before + new)[last].key);
                    assert(!grammar::distinct_entries(before + new));
                    if grammar::pick_entries(list@) is Some {
                        grammar::lemma_distinct_prefix(
                            before + new,
                            grammar::parts_entries(list@, count)->Some_0,
                        );
                    }
                }
                return Err(ParseError::InvalidQuery);
            }
            proof {
                op::lemma_entries_push(entries@, entry);
                assert forall|a: int, b: int| 0 <= a < b < so_far.push(
                    entry@,
                ).len() implies #[trigger] so_far.push(entry@)[a].key != #[trigger] so_far.push(
                    entry@,
                )[b].key by {
                    if b < so_far.len() {
                        assert(so_far[a].key != so_far[b].key);
                    } else {
                        assert(so_far[a].key != entry.key@);
                    }
                }
            }
            entries.push(entry);
        }
        assert(before + new.take(new.len() as int) =~= before + new);
    }
    Ok(entries)
}

/// Whether one of `entries` has `key`.
fn has_entry(entries: &Vec<PickEntry>, key: &str) -> (found: bool)
    ensures
        found == exists|j: int|
            0 <= j < entries@.len() && (#[trigger] op::entries_of(entries@)[j]).key == key@,
{
    let ghost all = op::entries_of(entries@);
    for i in 0..entries.len()
        invariant
            all == op::entries_of(entries@),
            forall|j: int| 0 <= j < i ==> (#[trigger] all[j]).key != key@,
    {
        if text::same_text(entries[i].key.as_str(), key) {
            assert(all[i as int].key == key@);
            return true;
        }
    }
    false
}

/// Parses one path of a pick, such as `age`, `hobbies[0]` or `last.name`. It starts with a property
/// name, which may be followed by array steps, and may end with another path or a `{...}`. A path
/// gives one entry, keyed by its last name, except one ending in `{...}`, which gives an entry for
/// each entry in the braces: `a.{b,c}` is `a.b,a.c`.
fn parse_pick_path(chunks: &[&str]) -> (result: Result<Vec<PickEntry>, ParseError>)
    ensures
        match result {
            Ok(entries) => grammar::path_entries(texts(chunks@)) == Some(op::entries_of(entries@)),
            Err(_) => grammar::path_entries(texts(chunks@)) is None,
        },
    decreases grammar::longest(texts(chunks@)), 1int, chunks@.len(),
{
    let ghost all = texts(chunks@);
    if chunks.len() == 0 || !is_name(chunks[0]) {
        return Err(ParseError::InvalidQuery);
    }
    let name = chunks[0];
    let ghost expected = grammar::path_entries(all);
    let mut steps: Vec<Op> = Vec::new();
    proof {
        assert(all.skip(1) =~= all.drop_first());
        assert(op::steps_of(steps@) =~= Seq::empty());
        if let Some(entries) = expected {
            lemma_after_none(entries);
        }
    }
    for i in 1..chunks.len()
        invariant
            1 <= i <= chunks@.len(),
            all == texts(chunks@),
            expected == grammar::path_entries(all),
            expected == after_steps(
                op::steps_of(steps@),
                grammar::tail_entries(name@, all.skip(i as int)),
            ),
    {
        let chunk = chunks[i];
        let ghost rest = all.skip(i as int);
        proof {
            assert(rest[0] == chunk@);
            assert(rest.drop_first() =~= all.skip(i + 1));
            grammar::lemma_longest_at(all, i as int);
            grammar::lemma_longest_skip(all, i as int);
        }
        if is_name(chunk) {
            let behind = &chunks[i..chunks.len()];
            assert(texts(behind@) =~= rest);
            let tail = parse_pick_path(behind)?;
            return Ok(under(name, steps, tail));
        }
        match parse_chunk(chunk)? {
            Op::PropertyPick(entries) => {
                if i + 1 < chunks.len() {
                    return Err(ParseError::InvalidQuery);
                }
                return Ok(under(name, steps, entries));
            },
            op => {
                if !op.is_array_step() {
                    return Err(ParseError::InvalidQuery);
                }
                proof {
                    op::lemma_steps_push(steps@, op);
                    if let Some(entries) = grammar::tail_entries(name@, all.skip(i + 1)) {
                        lemma_after_push(op::steps_of(steps@), op@, entries);
                    }
                }
                steps.push(op);
            },
        }
    }
    let entry = PickEntry { key: name.to_owned(), name: name.to_owned(), steps };
    let mut entries: Vec<PickEntry> = Vec::new();
    proof {
        op::lemma_entries_push(entries@, entry);
        assert(op::entries_of(entries@) =~= Seq::empty());
        let bare = Entry { key: name@, name: name@, steps: Seq::empty() };
        assert(op::steps_of(steps@) + bare.steps =~= op::steps_of(steps@));
        assert(grammar::after_all(op::steps_of(steps@), seq![bare]) =~= seq![entry@]);
        assert(Seq::empty().push(entry@) =~= seq![entry@]);
    }
    entries.push(entry);
    Ok(entries)
}

/// `entries`, if there are any, with `steps` before the steps of each.
spec fn after_steps(steps: Seq<Step>, entries: Option<Seq<Entry>>) -> Option<Seq<Entry>> {
    match entries {
        Some(entries) => Some(grammar::after_all(steps, entries)),
        None => None,
    }
}

/// No steps before the steps of entries change nothing.
proof fn lemma_after_none(entries: Seq<Entry>)
    ensures
        grammar::after_all(Seq::empty(), entries) == entries,
{
    assert forall|i: int| 0 <= i < entries.len() implies grammar::after_all(
        Seq::empty(),
        entries,
    )[i] == #[trigger] entries[i] by {
        assert(Seq::empty() + entries[i].steps =~= entries[i].steps);
    }
    assert(grammar::after_all(Seq::empty(), entries) =~= entries);
}

/// One step more before the steps of entries.
proof fn lemma_after_push(steps: Seq<Step>, step: Step, entries: Seq<Entry>)
    ensures
        grammar::after_all(steps.push(step), entries) == grammar::after_all(
            steps,
            grammar::after(step, entries),
        ),
{
    let left = grammar::after_all(steps.push(step), entries);
    let right = grammar::after_all(steps, grammar::after(step, entries));
    assert forall|i: int| 0 <= i < entries.len() implies #[trigger] left[i] == right[i] by {
        assert(steps.push(step) + entries[i].steps =~= steps + (seq![step] + entries[i].steps));
    }
    assert(left =~= right);
}

/// `tail`, each entry read from the value that `steps` give for the property `name`.
fn under(name: &str, steps: Vec<Op>, tail: Vec<PickEntry>) -> (entries: Vec<PickEntry>)
    ensures
        op::entries_of(entries@) == grammar::after_all(
            op::steps_of(steps@),
            grammar::under(name@, op::entries_of(tail@)),
        ),
{
    let ghost all = op::entries_of(tail@);
    let ghost before = op::steps_of(steps@);
    let ghost expected = grammar::after_all(before, grammar::under(name@, all));
    let mut entries: Vec<PickEntry> = Vec::new();
    for entry in iter: tail.into_iter()
        invariant
            op::entries_of(iter.seq()) == all,
            before == op::steps_of(steps@),
            expected == grammar::after_all(before, grammar::under(name@, all)),
            op::entries_of(entries@) == expected.take(iter.index() as int),
    {
        let ghost done = iter.index() as int;
        assert(all[done] == entry@);
        let PickEntry { key, name: inner, steps: more } = entry;
        let mut path = op::clone_ops(&steps);
        let mut more = more;
        let property = Op::Property(inner);
        let ghost tail_steps = op::steps_of(more@);
        proof {
            op::lemma_steps_push(path@, property);
        }
        path.push(property);
        proof {
            op::lemma_steps_add(path@, more@);
        }
        path.append(&mut more);
        assert(op::steps_of(path@) =~= before + (seq![Step::Property(inner@)] + tail_steps));
        let entry = PickEntry { key, name: name.to_owned(), steps: path };
        proof {
            op::lemma_entries_push(entries@, entry);
            assert(expected[done] == entry@);
        }
        entries.push(entry);
        assert(op::entries_of(entries@) =~= expected.take(done + 1));
    }
    assert(expected.take(expected.len() as int) =~= expected);
    entries
}

/// Replaces the first `*^`, `name^` or `/regex/^` that has steps after it with a
/// [`Op::PropertyMap`] holding those steps, and does the same within them. A keys step after `**`
/// is replaced inside its [`Op::Descend`].
fn nest_after_keys(ops: Vec<Op>) -> (nested: Vec<Op>)
    ensures
        op::steps_of(nested@) == grammar::nested(op::steps_of(ops@)),
        grammar::nested(op::steps_of(nested@)) == op::steps_of(nested@),
    decreases ops@.len(),
{
    let ghost steps = op::steps_of(ops@);
    proof {
        reveal_with_fuel(op::step_of, 2);
        grammar::lemma_nested_twice(steps);
    }
    let at = keys_position(&ops);
    if at >= ops.len() || at == ops.len() - 1 {
        proof {
            grammar::lemma_nested_same(steps);
        }
        return ops;
    }
    let mut nested = ops;
    let rest = nested.split_off(at + 1);
    assert(op::steps_of(rest@) =~= steps.skip(at + 1));
    let rest = nest_after_keys(rest);
    proof {
        grammar::lemma_nested_at(steps, at as int);
    }
    // After the split, the keys op is the last op.
    let keys = nested.pop();
    assert(op::steps_of(nested@) =~= steps.take(at as int));
    assert(steps[at as int] == keys->Some_0@);
    match keys {
        Some(Op::PropertyKeys(pattern)) => {
            let op = Op::PropertyMap(pattern, rest);
            proof {
                op::lemma_steps_push(nested@, op);
            }
            nested.push(op);
        },
        Some(Op::Descend(op)) => match *op {
            Op::PropertyKeys(pattern) => {
                let op = Op::Descend(Box::new(Op::PropertyMap(pattern, rest)));
                proof {
                    op::lemma_steps_push(nested@, op);
                }
                nested.push(op);
            },
            _ => {},
        },
        _ => {},
    }
    nested
}

/// The position of the first op that takes keys, or the number of ops if none does.
fn keys_position(ops: &Vec<Op>) -> (at: usize)
    ensures
        at <= ops@.len(),
        at < ops@.len() ==> grammar::is_keys(op::steps_of(ops@)[at as int]),
        forall|i: int| 0 <= i < at ==> !grammar::is_keys(#[trigger] op::steps_of(ops@)[i]),
{
    let ghost steps = op::steps_of(ops@);
    for i in 0..ops.len()
        invariant
            steps == op::steps_of(ops@),
            forall|j: int| 0 <= j < i ==> !grammar::is_keys(#[trigger] steps[j]),
    {
        proof {
            reveal_with_fuel(op::step_of, 2);
            assert(steps[i as int] == ops@[i as int]@);
        }
        let is_keys = match &ops[i] {
            Op::Descend(op) => matches!(**op, Op::PropertyKeys(_)),
            op => matches!(op, Op::PropertyKeys(_)),
        };
        if is_keys {
            return i;
        }
    }
    ops.len()
}

} // verus!
