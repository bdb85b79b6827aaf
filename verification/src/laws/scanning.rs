//! Laws of where a query and a list are taken apart, and where they are not.

use crate::grammar;
use crate::grammar::{Lex, Move};
use crate::laws::chunks;
use vstd::prelude::*;

verus! {

/// The number of braces that are open behind `text`. A `}` with no `{` to close counts for nothing.
pub open spec fn open_braces(text: Seq<char>) -> nat
    decreases text.len(),
{
    if text.len() == 0 {
        0
    } else {
        let before = open_braces(text.drop_last());
        if text.last() == '{' {
            before + 1
        } else if text.last() == '}' && before > 0 {
            (before - 1) as nat
        } else {
            before
        }
    }
}

/// A query that does not start with a regex is one chunk, if every `.` and every `[` behind its
/// first character is inside braces. It is invalid if a brace is left open.
pub proof fn nothing_else_separates_chunks(query: Seq<char>)
    requires
        query.len() > 0 ==> query[0] != '/',
        forall|i: int|
            0 <= i < query.len() && (#[trigger] query[i] == '.' || query[i] == '[' && i > 0)
                ==> open_braces(query.take(i)) > 0,
    ensures
        open_braces(query) == 0 ==> grammar::chunks(query) == Some(seq![query]),
        open_braces(query) > 0 ==> grammar::chunks(query) is None,
{
    assert(query.take(0) =~= Seq::empty());
    lemma_scan(query, 0);
}

proof fn lemma_scan(query: Seq<char>, at: int)
    requires
        0 <= at <= query.len(),
        query.len() > 0 ==> query[0] != '/',
        forall|i: int|
            0 <= i < query.len() && (#[trigger] query[i] == '.' || query[i] == '[' && i > 0)
                ==> open_braces(query.take(i)) > 0,
    ensures
        grammar::chunks_from(query, 0, at, Lex::Plain, open_braces(query.take(at))) == if open_braces(
            query,
        ) == 0 {
            Some(seq![query])
        } else {
            None
        },
    decreases query.len() - at,
{
    if at == query.len() {
        assert(query.take(at) =~= query);
        assert(query.subrange(0, query.len() as int) =~= query);
    } else {
        assert(query.take(at + 1).drop_last() =~= query.take(at));
        assert(query.take(at + 1).last() == query[at]);
        lemma_scan(query, at + 1);
    }
}

/// A `[` behind a chunk that is not empty starts the next chunk: the chunks of two queries of which
/// the second starts with a `[` are those of the one and then those of the other.
pub proof fn a_bracket_separates_chunks(left: Seq<char>, right: Seq<char>)
    requires
        grammar::chunks(left) is Some,
        grammar::chunks(left)->Some_0.last().len() > 0,
        right.len() > 0,
        right[0] == '[',
    ensures
        grammar::chunks(left + right) == match grammar::chunks(right) {
            Some(more) => Some(grammar::chunks(left)->Some_0 + more),
            None => None,
        },
{
    assert(left.len() > 0) by {
        if left.len() == 0 {
            assert(grammar::chunks(left) == Some(seq![left.subrange(0, 0)]));
        }
    }
    lemma_bracket(left, right, 0, 0, Lex::Plain, 0);
}

proof fn lemma_bracket(
    left: Seq<char>,
    right: Seq<char>,
    start: int,
    at: int,
    lex: Lex,
    depth: nat,
)
    requires
        0 <= start <= at <= left.len(),
        left.len() > 0,
        right.len() > 0,
        right[0] == '[',
        grammar::chunks_from(left, start, at, lex, depth) is Some,
        grammar::chunks_from(left, start, at, lex, depth)->Some_0.last().len() > 0,
    ensures
        grammar::chunks_from(left + right, start, at, lex, depth) == match grammar::chunks(right) {
            Some(more) => Some(grammar::chunks_from(left, start, at, lex, depth)->Some_0 + more),
            None => None,
        },
    decreases left.len() - at,
{
    let all = left + right;
    let found = grammar::chunks_from(left, start, at, lex, depth)->Some_0;
    assert(all.subrange(start, at) =~= left.subrange(start, at));
    if at >= left.len() {
        assert(all[at] == '[');
        chunks::lemma_shifted(left, right, 0, 1, Lex::Plain, 0);
        assert(grammar::chunks(right) == grammar::chunks_from(right, 0, 1, Lex::Plain, 0));
    } else {
        assert(all[at] == left[at]);
        match grammar::move_at(lex, depth, at == start, at == 0, left[at]) {
            Move::Stay { lex: next, depth: more } => {
                lemma_bracket(left, right, start, at + 1, next, more);
            },
            Move::Dot => {
                let rest = grammar::chunks_from(left, at + 1, at + 1, Lex::Plain, depth)->Some_0;
                chunks::lemma_some_chunk(left, at + 1, at + 1, Lex::Plain, depth);
                assert(found.last() == rest.last());
                lemma_bracket(left, right, at + 1, at + 1, Lex::Plain, depth);
                if let Some(more) = grammar::chunks(right) {
                    assert(seq![left.subrange(start, at)] + (rest + more) =~= found + more);
                }
            },
            Move::Bracket => {
                let rest = grammar::chunks_from(left, at, at + 1, Lex::Plain, depth)->Some_0;
                chunks::lemma_some_chunk(left, at, at + 1, Lex::Plain, depth);
                assert(found.last() == rest.last());
                lemma_bracket(left, right, at, at + 1, Lex::Plain, depth);
                if let Some(more) = grammar::chunks(right) {
                    assert(seq![left.subrange(start, at)] + (rest + more) =~= found + more);
                }
            },
            Move::Reject => {},
        }
    }
}

/// A regex that is left open is invalid.
pub proof fn an_open_regex_is_invalid(body: Seq<char>)
    requires
        chunks::is_regex_body(body, false),
    ensures
        grammar::chunks(seq!['/'] + body) is None,
        grammar::chunks(seq!['/'] + body + seq!['\\']) is None,
{
    let open = seq!['/'] + body;
    let escaped = seq!['/'] + body + seq!['\\'];
    assert(open[0] == '/');
    assert(escaped[0] == '/');
    assert(open.subrange(1, 1 + body.len() as int) =~= body);
    assert(escaped.subrange(1, 1 + body.len() as int) =~= body);
    lemma_body(open, 1, body, Lex::InRegex);
    lemma_body(escaped, 1, body, Lex::InRegex);
    let at = 1 + body.len() as int;
    assert(escaped[at] == '\\');
    assert(grammar::chunks_from(escaped, 0, at + 1, Lex::Escaped, 0) is None);
    assert(grammar::chunks_from(open, 0, 0, Lex::Plain, 0) == grammar::chunks_from(
        open,
        0,
        1,
        Lex::InRegex,
        0,
    ));
    assert(grammar::chunks_from(escaped, 0, 0, Lex::Plain, 0) == grammar::chunks_from(
        escaped,
        0,
        1,
        Lex::InRegex,
        0,
    ));
}

/// Behind a regex, and the `^` that may follow it, there may only be a `.` or a `[`.
pub proof fn nothing_else_may_follow_a_regex(body: Seq<char>, c: char, rest: Seq<char>)
    requires
        chunks::is_regex_body(body, false),
        c != '.' && c != '[',
    ensures
        c != '^' ==> grammar::chunks(seq!['/'] + body + seq!['/', c] + rest) is None,
        grammar::chunks(seq!['/'] + body + seq!['/', '^', c] + rest) is None,
{
    let values = seq!['/'] + body + seq!['/', c] + rest;
    let keys = seq!['/'] + body + seq!['/', '^', c] + rest;
    let at = 1 + body.len() as int;
    assert(values[0] == '/' && keys[0] == '/');
    assert(values.subrange(1, at) =~= body);
    assert(keys.subrange(1, at) =~= body);
    lemma_body(values, 1, body, Lex::InRegex);
    lemma_body(keys, 1, body, Lex::InRegex);
    assert(values[at] == '/' && values[at + 1] == c);
    assert(keys[at] == '/' && keys[at + 1] == '^' && keys[at + 2] == c);
    if c != '^' {
        assert(grammar::chunks_from(values, 0, at + 1, Lex::RegexClosed, 0) is None);
        assert(grammar::chunks_from(values, 0, at, Lex::InRegex, 0) is None);
        assert(grammar::chunks_from(values, 0, 1, Lex::InRegex, 0) is None);
    }
    assert(grammar::chunks_from(keys, 0, at + 2, Lex::RegexKeys, 0) is None);
    assert(grammar::chunks_from(keys, 0, at + 1, Lex::RegexClosed, 0) is None);
    assert(grammar::chunks_from(keys, 0, at, Lex::InRegex, 0) is None);
    assert(grammar::chunks_from(keys, 0, 1, Lex::InRegex, 0) is None);
}

/// The characters of a regex leave its chunk in the regex.
proof fn lemma_body(query: Seq<char>, at: int, body: Seq<char>, lex: Lex)
    requires
        0 < at,
        at + body.len() <= query.len(),
        query.subrange(at, at + body.len()) == body,
        lex is InRegex || lex is Escaped,
        chunks::is_regex_body(body, lex is Escaped),
    ensures
        grammar::chunks_from(query, 0, at, lex, 0) == grammar::chunks_from(
            query,
            0,
            at + body.len(),
            Lex::InRegex,
            0,
        ),
    decreases body.len(),
{
    if body.len() > 0 {
        assert(query[at] == query.subrange(at, at + body.len())[0]);
        assert(query.subrange(at + 1, at + body.len()) =~= body.drop_first());
        let next = if lex is InRegex && body[0] == '\\' {
            Lex::Escaped
        } else {
            Lex::InRegex
        };
        lemma_body(query, at + 1, body.drop_first(), next);
    }
}

/// A comma with no brace open before it separates the parts of a list.
pub proof fn a_comma_separates_parts(left: Seq<char>, right: Seq<char>)
    requires
        open_braces(left) == 0,
    ensures
        grammar::parts(left + seq![','] + right) == grammar::parts(left) + grammar::parts(right),
{
    let all = left + seq![','] + right;
    assert(left.take(0) =~= Seq::empty());
    lemma_comma(left, right, 0, 0);
}

proof fn lemma_comma(left: Seq<char>, right: Seq<char>, start: int, at: int)
    requires
        0 <= start <= at <= left.len(),
        open_braces(left) == 0,
    ensures
        grammar::parts_from(left + seq![','] + right, start, at, open_braces(left.take(at)))
            == grammar::parts_from(left, start, at, open_braces(left.take(at))) + grammar::parts(
            right,
        ),
    decreases left.len() - at,
{
    let all = left + seq![','] + right;
    let depth = open_braces(left.take(at));
    assert(all.subrange(start, at) =~= left.subrange(start, at));
    if at == left.len() {
        assert(left.take(at) =~= left);
        assert(all[at] == ',');
        lemma_parts_shifted(left + seq![','], right, 0, 0, 0);
    } else {
        assert(all[at] == left[at]);
        assert(left.take(at + 1).drop_last() =~= left.take(at));
        assert(left.take(at + 1).last() == left[at]);
        if left[at] == ',' && depth == 0 {
            lemma_comma(left, right, at + 1, at + 1);
            let more = grammar::parts_from(left, at + 1, at + 1, 0);
            let some = seq![left.subrange(start, at)];
            assert(some + (more + grammar::parts(right)) =~= (some + more) + grammar::parts(right));
        } else {
            lemma_comma(left, right, start, at + 1);
        }
    }
}

proof fn lemma_parts_shifted(
    left: Seq<char>,
    right: Seq<char>,
    start: int,
    at: int,
    depth: nat,
)
    requires
        0 <= start <= at <= right.len(),
    ensures
        grammar::parts_from(left + right, left.len() + start, left.len() + at, depth)
            == grammar::parts_from(right, start, at, depth),
    decreases right.len() - at,
{
    let all = left + right;
    let end = all.len() as int;
    if at == right.len() {
        assert(all.subrange(left.len() + start, end) =~= right.subrange(
            start,
            right.len() as int,
        ));
    } else {
        assert(all[left.len() + at] == right[at]);
        assert(all.subrange(left.len() + start, left.len() + at) =~= right.subrange(start, at));
        if right[at] == '{' {
            lemma_parts_shifted(left, right, start, at + 1, depth + 1);
        } else if right[at] == '}' {
            let less = if depth > 0 {
                (depth - 1) as nat
            } else {
                0
            };
            lemma_parts_shifted(left, right, start, at + 1, less);
        } else if right[at] == ',' && depth == 0 {
            lemma_parts_shifted(left, right, at + 1, at + 1, depth);
        } else {
            lemma_parts_shifted(left, right, start, at + 1, depth);
        }
    }
}

/// A list is one part, if every comma in it is inside braces.
pub proof fn nothing_else_separates_parts(list: Seq<char>)
    requires
        forall|i: int|
            0 <= i < list.len() && #[trigger] list[i] == ',' ==> open_braces(list.take(i)) > 0,
    ensures
        grammar::parts(list) == seq![list],
{
    assert(list.take(0) =~= Seq::empty());
    lemma_one_part(list, 0);
}

proof fn lemma_one_part(list: Seq<char>, at: int)
    requires
        0 <= at <= list.len(),
        forall|i: int|
            0 <= i < list.len() && #[trigger] list[i] == ',' ==> open_braces(list.take(i)) > 0,
    ensures
        grammar::parts_from(list, 0, at, open_braces(list.take(at))) == seq![list],
    decreases list.len() - at,
{
    if at == list.len() {
        assert(list.subrange(0, list.len() as int) =~= list);
    } else {
        assert(list.take(at + 1).drop_last() =~= list.take(at));
        assert(list.take(at + 1).last() == list[at]);
        lemma_one_part(list, at + 1);
    }
}

} // verus!
