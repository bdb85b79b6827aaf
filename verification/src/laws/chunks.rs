//! Laws of how a query is split into chunks.

use crate::grammar;
use crate::grammar::{Lex, Move};
use vstd::prelude::*;

verus! {

/// Whether `text` starts with a `[`.
pub open spec fn opens_bracket(text: Seq<char>) -> bool {
    text.len() > 0 && text[0] == '['
}

/// `chunks` written one behind the other, with a `.` before each but those that start with a `[`.
pub open spec fn glued(chunks: Seq<Seq<char>>) -> Seq<char>
    decreases chunks.len(),
{
    if chunks.len() == 0 {
        Seq::empty()
    } else if chunks.len() == 1 {
        chunks[0]
    } else if opens_bracket(chunks[1]) {
        chunks[0] + glued(chunks.drop_first())
    } else {
        chunks[0] + seq!['.'] + glued(chunks.drop_first())
    }
}

/// The chunks of a query make up the query: written one behind the other they give it back.
pub proof fn chunks_make_up_the_query(query: Seq<char>)
    requires
        grammar::chunks(query) is Some,
    ensures
        glued(grammar::chunks(query)->Some_0) == query,
{
    lemma_glued(query, 0, 0, Lex::Plain, 0);
    assert(query.subrange(0, query.len() as int) =~= query);
}

pub(crate) proof fn lemma_glued(query: Seq<char>, start: int, at: int, lex: Lex, depth: nat)
    requires
        0 <= start <= at <= query.len(),
        !(lex is Plain) ==> start < at && depth == 0,
        grammar::chunks_from(query, start, at, lex, depth) is Some,
    ensures
        ({
            let found = grammar::chunks_from(query, start, at, lex, depth)->Some_0;
            &&& found.len() > 0
            &&& found[0].len() >= at - start
            &&& found[0] == query.subrange(start, start + found[0].len())
            &&& start + found[0].len() <= query.len()
            &&& glued(found) == query.subrange(start, query.len() as int)
            &&& at == start && start > 0 && lex is Plain && depth == 0 ==> !opens_bracket(
                found[0],
            )
        }),
    decreases query.len() - at,
{
    let found = grammar::chunks_from(query, start, at, lex, depth)->Some_0;
    if at < query.len() {
        match grammar::move_at(lex, depth, at == start, at == 0, query[at]) {
            Move::Stay { lex: next, depth: more } => {
                lemma_glued(query, start, at + 1, next, more);
            },
            Move::Dot => {
                let rest = grammar::chunks_from(query, at + 1, at + 1, Lex::Plain, depth)->Some_0;
                lemma_glued(query, at + 1, at + 1, Lex::Plain, depth);
                assert(found.drop_first() =~= rest);
                assert(found[1] == rest[0]);
                assert(query.subrange(start, at) + seq!['.'] + query.subrange(
                    at + 1,
                    query.len() as int,
                ) =~= query.subrange(start, query.len() as int));
            },
            Move::Bracket => {
                let rest = grammar::chunks_from(query, at, at + 1, Lex::Plain, depth)->Some_0;
                lemma_glued(query, at, at + 1, Lex::Plain, depth);
                assert(found.drop_first() =~= rest);
                assert(found[1] == rest[0]);
                assert(rest[0][0] == query[at]);
                assert(query.subrange(start, at) + query.subrange(at, query.len() as int)
                    =~= query.subrange(start, query.len() as int));
            },
            Move::Reject => {},
        }
    }
}

/// Different queries have different chunks.
pub proof fn chunks_tell_queries_apart(left: Seq<char>, right: Seq<char>)
    requires
        grammar::chunks(left) is Some,
        grammar::chunks(left) == grammar::chunks(right),
    ensures
        left == right,
{
    chunks_make_up_the_query(left);
    chunks_make_up_the_query(right);
}

/// A name is one chunk.
pub proof fn a_name_is_one_chunk(name: Seq<char>)
    requires
        grammar::is_name(name),
    ensures
        grammar::chunks(name) == Some(seq![name]),
{
    lemma_plain(name, 0, 0);
    assert(name.subrange(0, name.len() as int) =~= name);
}

/// Whether `c` has no meaning for how a query is split, so that it does nothing but stand in its
/// chunk.
pub open spec fn is_plain(c: char) -> bool {
    c != '.' && c != '[' && c != '{' && c != '}' && c != '/'
}

pub(crate) proof fn lemma_plain(query: Seq<char>, start: int, at: int)
    requires
        0 <= start <= at <= query.len(),
        forall|i: int| at <= i < query.len() ==> is_plain(#[trigger] query[i]),
    ensures
        grammar::chunks_from(query, start, at, Lex::Plain, 0) == Some(
            seq![query.subrange(start, query.len() as int)],
        ),
    decreases query.len() - at,
{
    if at < query.len() {
        assert(is_plain(query[at]));
        lemma_plain(query, start, at + 1);
    }
}

/// The chunks of `right` are the same behind other text, but for a `[` at its start.
pub(crate) proof fn lemma_shifted(
    left: Seq<char>,
    right: Seq<char>,
    start: int,
    at: int,
    lex: Lex,
    depth: nat,
)
    requires
        0 <= start <= at <= right.len(),
        left.len() > 0,
        at == 0 ==> !opens_bracket(right) && lex is Plain && depth == 0,
    ensures
        grammar::chunks_from(left + right, left.len() + start, left.len() + at, lex, depth)
            == grammar::chunks_from(right, start, at, lex, depth),
    decreases right.len() - at,
{
    let all = left + right;
    let end = all.len() as int;
    if at >= right.len() {
        assert(all.subrange(left.len() + start, end) =~= right.subrange(
            start,
            right.len() as int,
        ));
    } else {
        assert(all[left.len() + at] == right[at]);
        assert(all.subrange(left.len() + start, left.len() + at) =~= right.subrange(start, at));
        match grammar::move_at(lex, depth, at == start, at == 0, right[at]) {
            Move::Stay { lex: next, depth: more } => {
                lemma_shifted(left, right, start, at + 1, next, more);
            },
            Move::Dot => {
                lemma_shifted(left, right, at + 1, at + 1, Lex::Plain, depth);
            },
            Move::Bracket => {
                lemma_shifted(left, right, at, at + 1, Lex::Plain, depth);
            },
            Move::Reject => {},
        }
    }
}

proof fn lemma_dotted(
    left: Seq<char>,
    right: Seq<char>,
    start: int,
    at: int,
    lex: Lex,
    depth: nat,
)
    requires
        0 <= start <= at <= left.len(),
        !opens_bracket(right),
        grammar::chunks_from(left, start, at, lex, depth) is Some,
    ensures
        grammar::chunks_from(left + seq!['.'] + right, start, at, lex, depth) == match
            grammar::chunks(right) {
            Some(more) => Some(grammar::chunks_from(left, start, at, lex, depth)->Some_0 + more),
            None => None,
        },
    decreases left.len() - at,
{
    let all = left + seq!['.'] + right;
    let found = grammar::chunks_from(left, start, at, lex, depth)->Some_0;
    if at >= left.len() {
        assert(all[at] == '.');
        assert(all =~= (left + seq!['.']) + right);
        lemma_shifted(left + seq!['.'], right, 0, 0, Lex::Plain, 0);
        assert(all.subrange(start, at) =~= left.subrange(start, at));
    } else {
        assert(all[at] == left[at]);
        assert(all.subrange(start, at) =~= left.subrange(start, at));
        match grammar::move_at(lex, depth, at == start, at == 0, left[at]) {
            Move::Stay { lex: next, depth: more } => {
                lemma_dotted(left, right, start, at + 1, next, more);
            },
            Move::Dot => {
                let rest = grammar::chunks_from(left, at + 1, at + 1, Lex::Plain, depth)->Some_0;
                lemma_dotted(left, right, at + 1, at + 1, Lex::Plain, depth);
                if let Some(more) = grammar::chunks(right) {
                    assert(seq![left.subrange(start, at)] + (rest + more) =~= found + more);
                }
            },
            Move::Bracket => {
                let rest = grammar::chunks_from(left, at, at + 1, Lex::Plain, depth)->Some_0;
                lemma_dotted(left, right, at, at + 1, Lex::Plain, depth);
                if let Some(more) = grammar::chunks(right) {
                    assert(seq![left.subrange(start, at)] + (rest + more) =~= found + more);
                }
            },
            Move::Reject => {},
        }
    }
}

/// A `.` separates chunks: the chunks of two queries with a `.` between them are those of the one
/// and then those of the other. The second may not start with a `[`.
pub proof fn a_dot_separates_chunks(left: Seq<char>, right: Seq<char>)
    requires
        grammar::chunks(left) is Some,
        !opens_bracket(right),
    ensures
        grammar::chunks(left + seq!['.'] + right) == match grammar::chunks(right) {
            Some(more) => Some(grammar::chunks(left)->Some_0 + more),
            None => None,
        },
{
    lemma_dotted(left, right, 0, 0, Lex::Plain, 0);
}

/// A `[` may not follow the `.` between two chunks.
pub proof fn a_bracket_may_not_follow_a_dot(left: Seq<char>, right: Seq<char>)
    requires
        grammar::chunks(left) is Some,
        opens_bracket(right),
    ensures
        grammar::chunks(left + seq!['.'] + right) is None,
{
    lemma_dot_bracket(left, right, 0, 0, Lex::Plain, 0);
}

proof fn lemma_dot_bracket(
    left: Seq<char>,
    right: Seq<char>,
    start: int,
    at: int,
    lex: Lex,
    depth: nat,
)
    requires
        0 <= start <= at <= left.len(),
        opens_bracket(right),
        grammar::chunks_from(left, start, at, lex, depth) is Some,
    ensures
        grammar::chunks_from(left + seq!['.'] + right, start, at, lex, depth) is None,
    decreases left.len() - at,
{
    let all = left + seq!['.'] + right;
    if at >= left.len() {
        assert(all[at] == '.');
        assert(all[at + 1] == '[');
        assert(grammar::chunks_from(all, at + 1, at + 1, Lex::Plain, depth) is None);
    } else {
        assert(all[at] == left[at]);
        match grammar::move_at(lex, depth, at == start, at == 0, left[at]) {
            Move::Stay { lex: next, depth: more } => {
                lemma_dot_bracket(left, right, start, at + 1, next, more);
            },
            Move::Dot => {
                lemma_dot_bracket(left, right, at + 1, at + 1, Lex::Plain, depth);
            },
            Move::Bracket => {
                lemma_dot_bracket(left, right, at, at + 1, Lex::Plain, depth);
            },
            Move::Reject => {},
        }
    }
}

/// A chunk in brackets with nothing in it but plain characters, such as `[0]`, is a chunk of its
/// own behind any other that is not empty. There is no `.` between them.
pub proof fn a_bracket_starts_a_chunk(left: Seq<char>, inside: Seq<char>)
    requires
        grammar::chunks(left) is Some,
        grammar::chunks(left)->Some_0.last().len() > 0,
        forall|i: int| 0 <= i < inside.len() ==> is_plain(#[trigger] inside[i]),
    ensures
        grammar::chunks(left + (seq!['['] + inside + seq![']'])) == Some(
            grammar::chunks(left)->Some_0.push(seq!['['] + inside + seq![']']),
        ),
{
    lemma_bracketed(left, seq!['['] + inside + seq![']'], 0, 0, Lex::Plain, 0);
}

proof fn lemma_bracketed(
    left: Seq<char>,
    bracket: Seq<char>,
    start: int,
    at: int,
    lex: Lex,
    depth: nat,
)
    requires
        0 <= start <= at <= left.len(),
        opens_bracket(bracket),
        forall|i: int| 0 < i < bracket.len() ==> is_plain(#[trigger] bracket[i]),
        grammar::chunks_from(left, start, at, lex, depth) is Some,
        grammar::chunks_from(left, start, at, lex, depth)->Some_0.last().len() > 0,
    ensures
        grammar::chunks_from(left + bracket, start, at, lex, depth) == Some(
            grammar::chunks_from(left, start, at, lex, depth)->Some_0.push(bracket),
        ),
    decreases left.len() - at,
{
    let all = left + bracket;
    let found = grammar::chunks_from(left, start, at, lex, depth)->Some_0;
    assert(all.subrange(start, at) =~= left.subrange(start, at));
    if at >= left.len() {
        assert(all[at] == '[');
        assert forall|i: int| at + 1 <= i < all.len() implies is_plain(#[trigger] all[i]) by {
            assert(all[i] == bracket[i - at]);
        }
        lemma_plain(all, at, at + 1);
        assert(all.subrange(at, all.len() as int) =~= bracket);
        assert(seq![left.subrange(start, at)] + seq![bracket] =~= found.push(bracket));
    } else {
        assert(all[at] == left[at]);
        match grammar::move_at(lex, depth, at == start, at == 0, left[at]) {
            Move::Stay { lex: next, depth: more } => {
                lemma_bracketed(left, bracket, start, at + 1, next, more);
            },
            Move::Dot => {
                let rest = grammar::chunks_from(left, at + 1, at + 1, Lex::Plain, depth)->Some_0;
                lemma_some_chunk(left, at + 1, at + 1, Lex::Plain, depth);
                assert(found.last() == rest.last());
                lemma_bracketed(left, bracket, at + 1, at + 1, Lex::Plain, depth);
                assert(seq![left.subrange(start, at)] + rest.push(bracket) =~= found.push(bracket));
            },
            Move::Bracket => {
                let rest = grammar::chunks_from(left, at, at + 1, Lex::Plain, depth)->Some_0;
                lemma_some_chunk(left, at, at + 1, Lex::Plain, depth);
                assert(found.last() == rest.last());
                lemma_bracketed(left, bracket, at, at + 1, Lex::Plain, depth);
                assert(seq![left.subrange(start, at)] + rest.push(bracket) =~= found.push(bracket));
            },
            Move::Reject => {},
        }
    }
}

/// There is a chunk in every query.
pub(crate) proof fn lemma_some_chunk(query: Seq<char>, start: int, at: int, lex: Lex, depth: nat)
    requires
        grammar::chunks_from(query, start, at, lex, depth) is Some,
    ensures
        grammar::chunks_from(query, start, at, lex, depth)->Some_0.len() > 0,
    decreases query.len() - at,
{
    if at < query.len() {
        match grammar::move_at(lex, depth, at == start, at == 0, query[at]) {
            Move::Stay { lex: next, depth: more } => {
                lemma_some_chunk(query, start, at + 1, next, more);
            },
            _ => {},
        }
    }
}

/// Whether every `/` in `body` has a `\` before it that is not itself behind a `\`, and no `\` is
/// left without a character behind it. `escaped` says that a `\` stands before `body`.
pub open spec fn is_regex_body(body: Seq<char>, escaped: bool) -> bool
    decreases body.len(),
{
    if body.len() == 0 {
        !escaped
    } else if escaped {
        is_regex_body(body.drop_first(), false)
    } else {
        body[0] != '/' && is_regex_body(body.drop_first(), body[0] == '\\')
    }
}

/// A regex between slashes is one chunk, whatever it holds, `.` and `[` and braces among it. A `/`
/// in it is written as `\/`.
pub proof fn a_regex_is_one_chunk(body: Seq<char>, keys: bool)
    requires
        is_regex_body(body, false),
    ensures
        ({
            let chunk = seq!['/'] + body + if keys {
                seq!['/', '^']
            } else {
                seq!['/']
            };
            grammar::chunks(chunk) == Some(seq![chunk])
        }),
{
    let end = if keys {
        seq!['/', '^']
    } else {
        seq!['/']
    };
    let chunk = seq!['/'] + body + end;
    assert(chunk[0] == '/');
    assert(chunk.skip(1) =~= body + end);
    lemma_regex(chunk, 1, body, end, Lex::InRegex);
    assert(grammar::chunks_from(chunk, 0, 1, Lex::InRegex, 0) == Some(seq![chunk]));
}

proof fn lemma_regex(chunk: Seq<char>, at: int, body: Seq<char>, end: Seq<char>, lex: Lex)
    requires
        0 < at <= chunk.len(),
        chunk.skip(at) == body + end,
        lex is InRegex || lex is Escaped,
        is_regex_body(body, lex is Escaped),
        end == seq!['/'] || end == seq!['/', '^'],
    ensures
        grammar::chunks_from(chunk, 0, at, lex, 0) == Some(seq![chunk]),
    decreases body.len(),
{
    assert(chunk.skip(at).len() == body.len() + end.len());
    assert(chunk.subrange(0, chunk.len() as int) =~= chunk);
    if body.len() == 0 {
        assert(chunk[at] == chunk.skip(at)[0]);
        assert(chunk[at] == '/');
        let closed = grammar::chunks_from(chunk, 0, at + 1, Lex::RegexClosed, 0);
        if end.len() == 2 {
            assert(chunk[at + 1] == chunk.skip(at)[1]);
            assert(chunk[at + 1] == '^');
            assert(grammar::chunks_from(chunk, 0, at + 2, Lex::RegexKeys, 0) == Some(seq![chunk]));
        }
        assert(closed == Some(seq![chunk]));
    } else {
        assert(chunk[at] == chunk.skip(at)[0]);
        assert(chunk[at] == body[0]);
        assert(chunk.skip(at + 1) =~= chunk.skip(at).drop_first());
        assert((body + end).drop_first() =~= body.drop_first() + end);
        let next = if lex is InRegex && body[0] == '\\' {
            Lex::Escaped
        } else {
            Lex::InRegex
        };
        lemma_regex(chunk, at + 1, body.drop_first(), end, next);
    }
}

} // verus!
