//! Laws of the text of a pick.

use crate::grammar;
use crate::grammar::Lex;
use crate::laws::chunks;
use crate::laws::reading;
use crate::laws::scanning;
use crate::laws::shape;
use crate::laws::syntax;
use crate::op;
use crate::op::{Entry, Step};
use crate::semantics;
use vstd::prelude::*;

verus! {

/// `parts` with a `,` between them.
pub open spec fn listed(parts: Seq<Seq<char>>) -> Seq<char>
    decreases parts.len(),
{
    if parts.len() == 0 {
        Seq::empty()
    } else if parts.len() == 1 {
        parts[0]
    } else {
        parts[0] + seq![','] + listed(parts.drop_first())
    }
}

/// Each of `parts` with `path` before it.
pub open spec fn paths_from(path: Seq<char>, parts: Seq<Seq<char>>) -> Seq<Seq<char>> {
    parts.map_values(|part: Seq<char>| path + seq!['.'] + part)
}

/// `list` in braces.
pub open spec fn braced(list: Seq<char>) -> Seq<char> {
    seq!['{'] + list + seq!['}']
}

/// Whether `text` is a valid entry in the list of a pick: a path.
pub open spec fn is_pick_path(text: Seq<char>) -> bool {
    part_entries(text) is Some
}

/// The entries of one part of the list of a pick.
pub open spec fn part_entries(part: Seq<char>) -> Option<Seq<Entry>> {
    match grammar::chunks(part) {
        Some(found) => grammar::path_entries(found),
        None => None,
    }
}

/// Whether a chunk is a name or an array step.
pub open spec fn is_plain_chunk(chunk: Seq<char>) -> bool {
    grammar::is_name(chunk) || grammar::array_step(chunk) is Some
}

/// Whether `text` is a path without braces: a name, and then names and array steps.
pub open spec fn is_plain_path(text: Seq<char>) -> bool {
    &&& grammar::chunks(text) matches Some(found)
    &&& found.len() > 0
    &&& grammar::is_name(found[0])
    &&& forall|i: int| 0 <= i < found.len() ==> is_plain_chunk(#[trigger] found[i])
}

/// How many braces are open behind `text`, with `depth` open before it, or nothing where it has a
/// comma that is not inside braces.
spec fn open_behind(text: Seq<char>, depth: nat) -> Option<nat>
    decreases text.len(),
{
    if text.len() == 0 {
        Some(depth)
    } else if text[0] == '{' {
        open_behind(text.drop_first(), depth + 1)
    } else if text[0] == '}' {
        open_behind(
            text.drop_first(),
            if depth > 0 {
                (depth - 1) as nat
            } else {
                0
            },
        )
    } else if text[0] == ',' && depth == 0 {
        None
    } else {
        open_behind(text.drop_first(), depth)
    }
}

proof fn lemma_open_add(left: Seq<char>, right: Seq<char>, depth: nat)
    ensures
        open_behind(left + right, depth) == match open_behind(left, depth) {
            Some(between) => open_behind(right, between),
            None => None,
        },
    decreases left.len(),
{
    let all = left + right;
    if left.len() == 0 {
        assert(all =~= right);
    } else {
        assert(all.drop_first() =~= left.drop_first() + right);
        if left[0] == '{' {
            lemma_open_add(left.drop_first(), right, depth + 1);
        } else if left[0] == '}' {
            lemma_open_add(
                left.drop_first(),
                right,
                if depth > 0 {
                    (depth - 1) as nat
                } else {
                    0
                },
            );
        } else if !(left[0] == ',' && depth == 0) {
            lemma_open_add(left.drop_first(), right, depth);
        }
    }
}

/// Going on to the end of a text without a comma that is not inside braces.
proof fn lemma_parts_skip(
    list: Seq<char>,
    start: int,
    at: int,
    part: Seq<char>,
    depth: nat,
)
    requires
        0 <= start <= at,
        at + part.len() <= list.len(),
        list.subrange(at, at + part.len()) == part,
        open_behind(part, depth) is Some,
    ensures
        grammar::parts_from(list, start, at, depth) == grammar::parts_from(
            list,
            start,
            at + part.len(),
            open_behind(part, depth)->Some_0,
        ),
    decreases part.len(),
{
    if part.len() > 0 {
        let rest = part.drop_first();
        assert(list[at] == list.subrange(at, at + part.len())[0]);
        assert(list.subrange(at + 1, at + 1 + rest.len()) =~= list.subrange(
            at,
            at + part.len(),
        ).drop_first());
        if part[0] == '{' {
            lemma_parts_skip(list, start, at + 1, rest, depth + 1);
        } else if part[0] == '}' {
            lemma_parts_skip(
                list,
                start,
                at + 1,
                rest,
                if depth > 0 {
                    (depth - 1) as nat
                } else {
                    0
                },
            );
        } else {
            lemma_parts_skip(list, start, at + 1, rest, depth);
        }
    }
}

/// Whether `parts` are what a list can be split into: no comma in them is outside braces, and no
/// brace is left open, but in the last.
spec fn can_be_parts(parts: Seq<Seq<char>>) -> bool {
    forall|i: int|
        0 <= i < parts.len() ==> open_behind(#[trigger] parts[i], 0) is Some && (i < parts.len() - 1
            ==> open_behind(parts[i], 0) == Some(0nat))
}

/// A list is split into its parts.
proof fn lemma_split(before: Seq<char>, parts: Seq<Seq<char>>)
    requires
        parts.len() > 0,
        can_be_parts(parts),
    ensures
        grammar::parts_from(
            before + listed(parts),
            before.len() as int,
            before.len() as int,
            0,
        ) == parts,
    decreases parts.len(),
{
    let list = before + listed(parts);
    let start = before.len() as int;
    let part = parts[0];
    let end = start + part.len();
    assert(open_behind(parts[0], 0) is Some);
    if parts.len() == 1 {
        assert(list.subrange(start, end) =~= part);
        lemma_parts_skip(list, start, start, part, 0);
        assert(list.subrange(start, list.len() as int) =~= part);
        assert(seq![part] =~= parts);
    } else {
        let rest = parts.drop_first();
        let more = before + part + seq![','];
        assert(list =~= more + listed(rest));
        assert(list.subrange(start, end) =~= part);
        lemma_parts_skip(list, start, start, part, 0);
        assert(list[end] == ',');
        assert forall|i: int| 0 <= i < rest.len() implies open_behind(#[trigger] rest[i], 0) is Some
            && (i < rest.len() - 1 ==> open_behind(rest[i], 0) == Some(0nat)) by {
            assert(rest[i] == parts[i + 1]);
        }
        lemma_split(more, rest);
        assert(seq![part] + rest =~= parts);
    }
}

/// The parts of a list are what a list can be split into, and make it up.
proof fn lemma_parts(list: Seq<char>, start: int, at: int, depth: nat)
    requires
        0 <= start <= at <= list.len(),
        open_behind(list.subrange(start, at), 0) == Some(depth),
    ensures
        grammar::parts_from(list, start, at, depth).len() > 0,
        can_be_parts(grammar::parts_from(list, start, at, depth)),
        listed(grammar::parts_from(list, start, at, depth)) == list.subrange(
            start,
            list.len() as int,
        ),
    decreases list.len() - at,
{
    let parts = grammar::parts_from(list, start, at, depth);
    let so_far = list.subrange(start, at);
    if at >= list.len() {
        assert(list.subrange(start, list.len() as int) =~= so_far);
    } else if list[at] == ',' && depth == 0 {
        let rest = grammar::parts_from(list, at + 1, at + 1, depth);
        assert(list.subrange(at + 1, at + 1) =~= Seq::empty());
        lemma_parts(list, at + 1, at + 1, depth);
        assert(parts.drop_first() =~= rest);
        assert(so_far + seq![','] + list.subrange(at + 1, list.len() as int) =~= list.subrange(
            start,
            list.len() as int,
        ));
        assert forall|i: int| 0 <= i < parts.len() implies open_behind(#[trigger] parts[i], 0)
            is Some && (i < parts.len() - 1 ==> open_behind(parts[i], 0) == Some(0nat)) by {
            if i > 0 {
                assert(parts[i] == rest[i - 1]);
            }
        }
    } else {
        let c = list[at];
        let next = if c == '{' {
            depth + 1
        } else if c == '}' {
            if depth > 0 {
                (depth - 1) as nat
            } else {
                0
            }
        } else {
            depth
        };
        assert(list.subrange(start, at + 1) =~= so_far + seq![c]);
        lemma_open_add(so_far, seq![c], 0);
        assert(seq![c].drop_first() =~= Seq::empty());
        assert(open_behind(Seq::empty(), next) == Some(next));
        assert(open_behind(seq![c], depth) == Some(next));
        lemma_parts(list, start, at + 1, next);
    }
}

/// How many braces are open behind `text`, with `depth` open before it, or nothing where it closes
/// more than are open.
spec fn closes(text: Seq<char>, depth: nat) -> Option<nat>
    decreases text.len(),
{
    if text.len() == 0 {
        Some(depth)
    } else if text[0] == '{' {
        closes(text.drop_first(), depth + 1)
    } else if text[0] == '}' {
        if depth == 0 {
            None
        } else {
            closes(text.drop_first(), (depth - 1) as nat)
        }
    } else {
        closes(text.drop_first(), depth)
    }
}

/// Whether each brace in `text` has its counterpart.
spec fn is_balanced(text: Seq<char>) -> bool {
    closes(text, 0) == Some(0nat)
}

proof fn lemma_closes_add(left: Seq<char>, right: Seq<char>, depth: nat)
    ensures
        closes(left + right, depth) == match closes(left, depth) {
            Some(between) => closes(right, between),
            None => None,
        },
    decreases left.len(),
{
    let all = left + right;
    if left.len() == 0 {
        assert(all =~= right);
    } else {
        assert(all.drop_first() =~= left.drop_first() + right);
        if left[0] == '{' {
            lemma_closes_add(left.drop_first(), right, depth + 1);
        } else if left[0] == '}' {
            if depth > 0 {
                lemma_closes_add(left.drop_first(), right, (depth - 1) as nat);
            }
        } else {
            lemma_closes_add(left.drop_first(), right, depth);
        }
    }
}

/// More open braces stay open.
proof fn lemma_closes_deeper(text: Seq<char>, depth: nat, more: nat)
    requires
        closes(text, depth) is Some,
    ensures
        closes(text, depth + more) == Some(closes(text, depth)->Some_0 + more),
    decreases text.len(),
{
    if text.len() > 0 {
        if text[0] == '{' {
            lemma_closes_deeper(text.drop_first(), depth + 1, more);
        } else if text[0] == '}' {
            lemma_closes_deeper(text.drop_first(), (depth - 1) as nat, more);
        } else {
            lemma_closes_deeper(text.drop_first(), depth, more);
        }
    }
}

/// Text without braces is balanced.
proof fn lemma_no_braces(text: Seq<char>, depth: nat)
    requires
        forall|i: int| 0 <= i < text.len() ==> #[trigger] text[i] != '{' && text[i] != '}',
    ensures
        closes(text, depth) == Some(depth),
    decreases text.len(),
{
    if text.len() > 0 {
        let rest = text.drop_first();
        assert(text[0] != '{' && text[0] != '}');
        assert forall|i: int| 0 <= i < rest.len() implies #[trigger] rest[i] != '{' && rest[i]
            != '}' by {
            assert(rest[i] == text[i + 1]);
        }
        lemma_no_braces(rest, depth);
    }
}

/// Balanced texts one behind the other are balanced.
proof fn lemma_balanced_add(left: Seq<char>, right: Seq<char>)
    requires
        is_balanced(left),
        is_balanced(right),
    ensures
        is_balanced(left + right),
{
    lemma_closes_add(left, right, 0);
}

proof fn lemma_balanced_chunk(chunk: Seq<char>)
    requires
        grammar::is_name(chunk) || (grammar::chunk_step(chunk) matches Some(step) && (op::is_array(
            step,
        ) || step is PropertyPick)),
    ensures
        is_balanced(chunk),
    decreases chunk.len(), 0int, 0int,
{
    if grammar::is_name(chunk) {
        assert forall|i: int| 0 <= i < chunk.len() implies #[trigger] chunk[i] != '{' && chunk[i]
            != '}' by {
            assert(grammar::is_name_char(chunk[i]));
        }
        lemma_no_braces(chunk, 0);
    } else {
        let step = grammar::chunk_step(chunk)->Some_0;
        assert(grammar::selector_step(chunk) is Other);
        let inside = grammar::unwrapped(chunk);
        if grammar::is_wrapped(chunk, '{', '}') {
            lemma_balanced_list(inside);
            assert(chunk =~= seq!['{'] + inside + seq!['}']);
            lemma_balanced_braces(inside);
        } else {
            assert(chunk =~= seq!['['] + inside + seq![']']);
            assert forall|i: int| 0 <= i < chunk.len() implies #[trigger] chunk[i] != '{'
                && chunk[i] != '}' by {
                if 0 < i < chunk.len() - 1 {
                    syntax::lemma_array_chars(inside, i - 1);
                    assert(chunk[i] == inside[i - 1]);
                }
            }
            lemma_no_braces(chunk, 0);
        }
    }
}

proof fn lemma_balanced_braces(inside: Seq<char>)
    requires
        is_balanced(inside),
    ensures
        is_balanced(seq!['{'] + inside + seq!['}']),
{
    let all = seq!['{'] + inside + seq!['}'];
    assert(all[0] == '{');
    assert(all.drop_first() =~= inside + seq!['}']);
    lemma_closes_deeper(inside, 0, 1);
    lemma_closes_add(inside, seq!['}'], 1);
    assert(seq!['}'].drop_first() =~= Seq::empty());
    assert(closes(Seq::empty(), 0) == Some(0nat));
    assert(closes(seq!['}'], 1) == Some(0nat));
}

proof fn lemma_balanced_list(list: Seq<char>)
    requires
        grammar::pick_entries(list) is Some,
    ensures
        is_balanced(list),
    decreases list.len(), 3int, 0int,
{
    let parts = grammar::parts(list);
    assert(list.subrange(0, 0) =~= Seq::empty());
    lemma_parts(list, 0, 0, 0);
    assert(list.subrange(0, list.len() as int) =~= list);
    assert forall|i: int| 0 <= i < parts.len() implies is_balanced(#[trigger] parts[i]) by {
        grammar::lemma_parts_entries_prefix(list, (i + 1) as nat, parts.len());
        assert(grammar::parts_entries(list, (i + 1) as nat) is Some);
        let found = grammar::chunks(parts[i])->Some_0;
        grammar::lemma_longest(parts[i], found);
        grammar::lemma_part_len(list, i);
        lemma_balanced_path(found);
        chunks::chunks_make_up_the_query(parts[i]);
    }
    lemma_balanced_listed(parts);
}

proof fn lemma_balanced_listed(parts: Seq<Seq<char>>)
    requires
        forall|i: int| 0 <= i < parts.len() ==> is_balanced(#[trigger] parts[i]),
    ensures
        is_balanced(listed(parts)),
    decreases parts.len(),
{
    if parts.len() == 1 {
        assert(is_balanced(parts[0]));
    } else if parts.len() > 1 {
        let rest = parts.drop_first();
        assert(is_balanced(parts[0]));
        assert forall|i: int| 0 <= i < rest.len() implies is_balanced(#[trigger] rest[i]) by {
            assert(rest[i] == parts[i + 1]);
        }
        lemma_balanced_listed(rest);
        lemma_no_braces(seq![','], 0);
        lemma_balanced_add(parts[0], seq![',']);
        lemma_balanced_add(parts[0] + seq![','], listed(rest));
    }
}

proof fn lemma_balanced_path(found: Seq<Seq<char>>)
    requires
        grammar::path_entries(found) is Some,
    ensures
        is_balanced(chunks::glued(found)),
    decreases grammar::longest(found), 1int, 2 * found.len(),
{
    lemma_balanced_chunk(found[0]);
    lemma_balanced_tail(found[0], found.drop_first());
    lemma_balanced_glued(found);
}

/// Balanced chunks make up balanced text.
proof fn lemma_balanced_glued(found: Seq<Seq<char>>)
    requires
        found.len() > 0,
        is_balanced(found[0]),
        is_balanced(chunks::glued(found.drop_first())),
    ensures
        is_balanced(chunks::glued(found)),
{
    let rest = chunks::glued(found.drop_first());
    lemma_no_braces(seq!['.'], 0);
    lemma_balanced_add(found[0], seq!['.']);
    lemma_balanced_add(found[0] + seq!['.'], rest);
    lemma_balanced_add(found[0], rest);
}

proof fn lemma_balanced_tail(name: Seq<char>, rest: Seq<Seq<char>>)
    requires
        grammar::tail_entries(name, rest) is Some,
    ensures
        is_balanced(chunks::glued(rest)),
    decreases grammar::longest(rest), 1int, 2 * rest.len() + 1,
{
    if rest.len() > 0 {
        grammar::lemma_longest_at(rest, 0);
        if grammar::is_name(rest[0]) {
            lemma_balanced_path(rest);
        } else {
            let step = grammar::chunk_step(rest[0])->Some_0;
            lemma_balanced_chunk(rest[0]);
            if step is PropertyPick {
                assert(rest.drop_first() =~= Seq::empty());
                assert(is_balanced(chunks::glued(rest.drop_first())));
            } else {
                lemma_balanced_tail(name, rest.drop_first());
            }
            lemma_balanced_glued(rest);
        }
    }
}

/// Going on inside braces to the end of a text that closes none of them.
proof fn lemma_chunks_inside(query: Seq<char>, start: int, at: int, text: Seq<char>, depth: nat)
    requires
        0 <= start <= at,
        at + text.len() <= query.len(),
        query.subrange(at, at + text.len()) == text,
        closes(text, depth) is Some,
    ensures
        grammar::chunks_from(query, start, at, Lex::Plain, depth + 1) == grammar::chunks_from(
            query,
            start,
            at + text.len(),
            Lex::Plain,
            closes(text, depth)->Some_0 + 1,
        ),
    decreases text.len(),
{
    if text.len() > 0 {
        let rest = text.drop_first();
        assert(query[at] == query.subrange(at, at + text.len())[0]);
        assert(query.subrange(at + 1, at + 1 + rest.len()) =~= query.subrange(
            at,
            at + text.len(),
        ).drop_first());
        if text[0] == '{' {
            lemma_chunks_inside(query, start, at + 1, rest, depth + 1);
        } else if text[0] == '}' {
            lemma_chunks_inside(query, start, at + 1, rest, (depth - 1) as nat);
        } else {
            lemma_chunks_inside(query, start, at + 1, rest, depth);
        }
    }
}

/// Balanced text in braces is one chunk.
proof fn lemma_braces_chunk(list: Seq<char>)
    requires
        is_balanced(list),
    ensures
        grammar::chunks(seq!['{'] + list + seq!['}']) == Some(
            seq![seq!['{'] + list + seq!['}']],
        ),
{
    let chunk = seq!['{'] + list + seq!['}'];
    let end = chunk.len() as int;
    assert(chunk[0] == '{');
    assert(chunk.subrange(1, list.len() as int + 1) =~= list);
    lemma_chunks_inside(chunk, 0, 1, list, 0);
    assert(chunk[end - 1] == '}');
    assert(chunk.subrange(0, end) =~= chunk);
    assert(grammar::chunks_from(chunk, 0, end, Lex::Plain, 0) == Some(seq![chunk]));
    assert(grammar::chunks_from(chunk, 0, end - 1, Lex::Plain, 1) == Some(seq![chunk]));
}

/// Text without commas and braces opens none.
proof fn lemma_no_commas(text: Seq<char>, depth: nat)
    requires
        forall|i: int|
            0 <= i < text.len() ==> #[trigger] text[i] != '{' && text[i] != '}' && text[i] != ',',
    ensures
        open_behind(text, depth) == Some(depth),
    decreases text.len(),
{
    if text.len() > 0 {
        let rest = text.drop_first();
        assert(text[0] != '{' && text[0] != '}' && text[0] != ',');
        assert forall|i: int| 0 <= i < rest.len() implies #[trigger] rest[i] != '{' && rest[i]
            != '}' && rest[i] != ',' by {
            assert(rest[i] == text[i + 1]);
        }
        lemma_no_commas(rest, depth);
    }
}

/// Inside braces, commas make no difference.
proof fn lemma_open_inside(text: Seq<char>, depth: nat)
    requires
        closes(text, depth) is Some,
    ensures
        open_behind(text, depth + 1) == Some(closes(text, depth)->Some_0 + 1),
    decreases text.len(),
{
    if text.len() > 0 {
        let rest = text.drop_first();
        if text[0] == '{' {
            lemma_open_inside(rest, depth + 1);
        } else if text[0] == '}' {
            lemma_open_inside(rest, (depth - 1) as nat);
        } else {
            lemma_open_inside(rest, depth);
        }
    }
}

/// Whether no comma in `text` is outside braces, and no brace is left open.
spec fn is_closed(text: Seq<char>) -> bool {
    open_behind(text, 0) == Some(0nat)
}

proof fn lemma_closed_add(left: Seq<char>, right: Seq<char>)
    requires
        is_closed(left),
        is_closed(right),
    ensures
        is_closed(left + right),
{
    lemma_open_add(left, right, 0);
}

proof fn lemma_closed_chunk(chunk: Seq<char>)
    requires
        grammar::is_name(chunk) || (grammar::chunk_step(chunk) matches Some(step) && (op::is_array(
            step,
        ) || step is PropertyPick)),
    ensures
        is_closed(chunk),
{
    if grammar::is_name(chunk) {
        assert forall|i: int| 0 <= i < chunk.len() implies #[trigger] chunk[i] != '{' && chunk[i]
            != '}' && chunk[i] != ',' by {
            assert(grammar::is_name_char(chunk[i]));
        }
        lemma_no_commas(chunk, 0);
    } else {
        assert(grammar::selector_step(chunk) is Other);
        let inside = grammar::unwrapped(chunk);
        if grammar::is_wrapped(chunk, '{', '}') {
            lemma_balanced_list(inside);
            assert(chunk.drop_first() =~= inside + seq!['}']);
            lemma_open_inside(inside, 0);
            lemma_open_add(inside, seq!['}'], 1);
            assert(seq!['}'].drop_first() =~= Seq::empty());
            assert(open_behind(Seq::empty(), 0) == Some(0nat));
            assert(open_behind(seq!['}'], 1) == Some(0nat));
        } else {
            assert(chunk =~= seq!['['] + inside + seq![']']);
            assert forall|i: int| 0 <= i < chunk.len() implies #[trigger] chunk[i] != '{'
                && chunk[i] != '}' && chunk[i] != ',' by {
                if 0 < i < chunk.len() - 1 {
                    syntax::lemma_array_chars(inside, i - 1);
                    assert(chunk[i] == inside[i - 1]);
                }
            }
            lemma_no_commas(chunk, 0);
        }
    }
}

proof fn lemma_closed_glued(found: Seq<Seq<char>>)
    requires
        found.len() > 0,
        is_closed(found[0]),
        is_closed(chunks::glued(found.drop_first())),
    ensures
        is_closed(chunks::glued(found)),
{
    let rest = chunks::glued(found.drop_first());
    lemma_no_commas(seq!['.'], 0);
    lemma_closed_add(found[0], seq!['.']);
    lemma_closed_add(found[0] + seq!['.'], rest);
    lemma_closed_add(found[0], rest);
}

proof fn lemma_closed_tail(name: Seq<char>, rest: Seq<Seq<char>>)
    requires
        grammar::tail_entries(name, rest) is Some,
    ensures
        is_closed(chunks::glued(rest)),
    decreases rest.len(),
{
    if rest.len() > 0 {
        lemma_closed_chunk(rest[0]);
        if grammar::is_name(rest[0]) {
            assert(grammar::path_entries(rest) is Some);
            lemma_closed_tail(rest[0], rest.drop_first());
        } else if grammar::chunk_step(rest[0])->Some_0 is PropertyPick {
            assert(rest.drop_first() =~= Seq::empty());
            assert(is_closed(chunks::glued(rest.drop_first())));
        } else {
            lemma_closed_tail(name, rest.drop_first());
        }
        lemma_closed_glued(rest);
    }
}

/// A valid path can stand in a list.
proof fn lemma_pick_path(part: Seq<char>)
    requires
        is_pick_path(part),
    ensures
        is_closed(part),
        is_balanced(part),
{
    let found = grammar::chunks(part)->Some_0;
    chunks::chunks_make_up_the_query(part);
    lemma_balanced_path(found);
    lemma_closed_chunk(found[0]);
    lemma_closed_tail(found[0], found.drop_first());
    lemma_closed_glued(found);
}

/// The entries of the parts of a list.
spec fn list_entries(parts: Seq<Seq<char>>) -> Option<Seq<Entry>>
    decreases parts.len(),
{
    if parts.len() == 0 {
        Some(Seq::empty())
    } else {
        match (list_entries(parts.drop_last()), part_entries(parts.last())) {
            (Some(before), Some(entries)) => Some(before + entries),
            _ => None,
        }
    }
}

proof fn lemma_list_entries(list: Seq<char>, parts: Seq<Seq<char>>, count: nat)
    requires
        grammar::parts(list) == parts,
        count <= parts.len(),
    ensures
        grammar::parts_entries(list, count) == list_entries(parts.take(count as int)),
    decreases count,
{
    let some = parts.take(count as int);
    if count > 0 {
        lemma_list_entries(list, parts, (count - 1) as nat);
        assert(some.drop_last() =~= parts.take(count - 1));
        assert(some.last() == parts[count - 1]);
    }
}

/// The entries of a pick are those of the parts of its list, if no two have the same key.
proof fn lemma_pick_entries(list: Seq<char>, parts: Seq<Seq<char>>)
    requires
        grammar::parts(list) == parts,
    ensures
        grammar::pick_entries(list) == match list_entries(parts) {
            Some(entries) => if grammar::distinct_entries(entries) {
                Some(entries)
            } else {
                None
            },
            None => None,
        },
{
    lemma_list_entries(list, parts, parts.len());
    assert(parts.take(parts.len() as int) =~= parts);
}

proof fn lemma_list_add(left: Seq<Seq<char>>, right: Seq<Seq<char>>)
    ensures
        list_entries(left + right) == match (list_entries(left), list_entries(right)) {
            (Some(before), Some(entries)) => Some(before + entries),
            _ => None,
        },
    decreases right.len(),
{
    let all = left + right;
    if right.len() == 0 {
        assert(all =~= left);
        if let Some(before) = list_entries(left) {
            assert(before + Seq::empty() =~= before);
        }
    } else {
        assert(all.drop_last() =~= left + right.drop_last());
        assert(all.last() == right.last());
        lemma_list_add(left, right.drop_last());
        if let (Some(before), Some(between), Some(entries)) = (
            list_entries(left),
            list_entries(right.drop_last()),
            part_entries(right.last()),
        ) {
            assert((before + between) + entries =~= before + (between + entries));
        }
    }
}

/// `entries`, each read from the value that a path gives: the property `name`, and the chunks
/// `rest` behind it.
spec fn through(name: Seq<char>, rest: Seq<Seq<char>>, entries: Seq<Entry>) -> Seq<Entry>
    decreases rest.len(),
{
    if rest.len() == 0 {
        grammar::under(name, entries)
    } else if grammar::is_name(rest[0]) {
        grammar::under(name, through(rest[0], rest.drop_first(), entries))
    } else {
        grammar::after(
            grammar::array_step(rest[0])->Some_0,
            through(name, rest.drop_first(), entries),
        )
    }
}

proof fn lemma_through_add(
    name: Seq<char>,
    rest: Seq<Seq<char>>,
    left: Seq<Entry>,
    right: Seq<Entry>,
)
    ensures
        through(name, rest, left + right) == through(name, rest, left) + through(
            name,
            rest,
            right,
        ),
        through(name, rest, Seq::empty()) == Seq::<Entry>::empty(),
    decreases rest.len(),
{
    let none = Seq::<Entry>::empty();
    if rest.len() == 0 {
        assert(grammar::under(name, left + right) =~= grammar::under(name, left) + grammar::under(
            name,
            right,
        ));
        assert(grammar::under(name, none) =~= none);
    } else {
        let behind = rest.drop_first();
        let step = grammar::array_step(rest[0])->Some_0;
        if grammar::is_name(rest[0]) {
            lemma_through_add(rest[0], behind, left, right);
            let lefts = through(rest[0], behind, left);
            let rights = through(rest[0], behind, right);
            assert(grammar::under(name, lefts + rights) =~= grammar::under(name, lefts)
                + grammar::under(name, rights));
            assert(grammar::under(name, none) =~= none);
        } else {
            lemma_through_add(name, behind, left, right);
            let lefts = through(name, behind, left);
            let rights = through(name, behind, right);
            assert(grammar::after(step, lefts + rights) =~= grammar::after(step, lefts)
                + grammar::after(step, rights));
            assert(grammar::after(step, none) =~= none);
        }
    }
}

/// Whether `more` gives `entries` behind any name.
spec fn leads_to(more: Seq<Seq<char>>, entries: Seq<Entry>) -> bool {
    forall|name: Seq<char>| #[trigger]
        grammar::tail_entries(name, more) == Some(grammar::under(name, entries))
}

/// A chunk in brackets is an array step.
proof fn lemma_array_chunk(chunk: Seq<char>)
    requires
        grammar::array_step(chunk) is Some,
    ensures
        grammar::chunk_step(chunk) == grammar::array_step(chunk),
        !grammar::is_name(chunk),
        op::is_array(grammar::array_step(chunk)->Some_0),
{
    assert(chunk[0] == '[');
    assert(chunk.last() == ']');
    assert(seq!['*'][0] == '*');
    assert(grammar::selector_step(chunk) is Other);
    assert(!grammar::is_name_char(chunk[0]));
}

proof fn lemma_through(
    name: Seq<char>,
    rest: Seq<Seq<char>>,
    more: Seq<Seq<char>>,
    entries: Seq<Entry>,
)
    requires
        forall|i: int| 0 <= i < rest.len() ==> is_plain_chunk(#[trigger] rest[i]),
        leads_to(more, entries),
    ensures
        grammar::tail_entries(name, rest + more) == Some(through(name, rest, entries)),
    decreases rest.len(),
{
    let all = rest + more;
    if rest.len() == 0 {
        assert(all =~= more);
        assert(grammar::tail_entries(name, more) == Some(grammar::under(name, entries)));
    } else {
        let behind = rest.drop_first();
        assert(all[0] == rest[0]);
        assert(all.drop_first() =~= behind + more);
        assert forall|i: int| 0 <= i < behind.len() implies is_plain_chunk(
            #[trigger] behind[i],
        ) by {
            assert(behind[i] == rest[i + 1]);
        }
        assert(is_plain_chunk(rest[0]));
        if grammar::is_name(rest[0]) {
            lemma_through(rest[0], behind, more, entries);
            assert(grammar::path_entries(all) == grammar::tail_entries(rest[0], behind + more));
        } else {
            lemma_array_chunk(rest[0]);
            lemma_through(name, behind, more, entries);
        }
    }
}

/// The entries of a part with a path before it.
proof fn lemma_part_behind(path: Seq<char>, part: Seq<char>, entries: Seq<Entry>)
    requires
        is_plain_path(path),
        !chunks::opens_bracket(part),
        grammar::chunks(part) is Some,
        leads_to(grammar::chunks(part)->Some_0, entries),
    ensures
        ({
            let found = grammar::chunks(path)->Some_0;
            part_entries(path + seq!['.'] + part) == Some(
                through(found[0], found.drop_first(), entries),
            )
        }),
{
    let found = grammar::chunks(path)->Some_0;
    let more = grammar::chunks(part)->Some_0;
    let rest = found.drop_first();
    chunks::a_dot_separates_chunks(path, part);
    assert forall|i: int| 0 <= i < rest.len() implies is_plain_chunk(#[trigger] rest[i]) by {
        assert(rest[i] == found[i + 1]);
    }
    lemma_through(found[0], rest, more, entries);
    assert((found + more)[0] == found[0]);
    assert((found + more).drop_first() =~= rest + more);
}

/// The entries of the parts of a list, each with a path before it.
proof fn lemma_list_behind(path: Seq<char>, parts: Seq<Seq<char>>)
    requires
        is_plain_path(path),
        list_entries(parts) is Some,
    ensures
        ({
            let found = grammar::chunks(path)->Some_0;
            list_entries(paths_from(path, parts)) == Some(
                through(found[0], found.drop_first(), list_entries(parts)->Some_0),
            )
        }),
    decreases parts.len(),
{
    let found = grammar::chunks(path)->Some_0;
    let paths = paths_from(path, parts);
    if parts.len() == 0 {
        lemma_through_add(found[0], found.drop_first(), Seq::empty(), Seq::empty());
    } else {
        let before = parts.drop_last();
        let part = parts.last();
        let more = grammar::chunks(part)->Some_0;
        let entries = part_entries(part)->Some_0;
        lemma_list_behind(path, before);
        assert(paths.drop_last() =~= paths_from(path, before));
        assert(paths.last() == path + seq!['.'] + part);
        chunks::lemma_glued(part, 0, 0, Lex::Plain, 0);
        assert(grammar::is_name(more[0]));
        assert(grammar::is_name_char(more[0][0]));
        assert(more[0][0] == part[0]);
        assert forall|name: Seq<char>| #[trigger]
            grammar::tail_entries(name, more) == Some(grammar::under(name, entries)) by {
            assert(grammar::path_entries(more) == Some(entries));
        }
        lemma_part_behind(path, part, entries);
        lemma_through_add(
            found[0],
            found.drop_first(),
            list_entries(before)->Some_0,
            entries,
        );
    }
}

/// A list in braces gives its entries behind any name.
proof fn lemma_braces(list: Seq<char>)
    requires
        grammar::pick_entries(list) is Some,
    ensures
        grammar::chunks(braced(list)) == Some(seq![braced(list)]),
        leads_to(seq![braced(list)], grammar::pick_entries(list)->Some_0),
{
    let entries = grammar::pick_entries(list)->Some_0;
    lemma_balanced_list(list);
    lemma_braces_chunk(list);
    lemma_braces_step(list);
    assert forall|name: Seq<char>| #[trigger]
        grammar::tail_entries(name, seq![braced(list)]) == Some(grammar::under(name, entries)) by {
        assert(seq![braced(list)][0] == braced(list));
        assert(!grammar::is_name(braced(list))) by {
            assert(braced(list)[0] == '{');
            assert(!grammar::is_name_char(braced(list)[0]));
        }
    }
}

/// The step of a list in braces.
proof fn lemma_braces_step(list: Seq<char>)
    ensures
        grammar::chunk_step(braced(list)) == match grammar::pick_entries(list) {
            Some(entries) => Some(Step::PropertyPick(entries)),
            None => None,
        },
{
    let braces = braced(list);
    assert(braces[0] == '{');
    assert(braces.last() == '}');
    assert(seq!['*'][0] == '*');
    assert(grammar::selector_step(braces) is Other);
    assert(!grammar::is_name_char(braces[0]));
    assert(grammar::unwrapped(braces) =~= list);
}

/// The steps of a pick are those of its entries.
proof fn lemma_same_pick(left: Seq<Seq<char>>, right: Seq<Seq<char>>)
    requires
        left.len() > 0,
        right.len() > 0,
        forall|i: int| 0 <= i < left.len() ==> is_pick_path(#[trigger] left[i]),
        forall|i: int| 0 <= i < right.len() ==> is_pick_path(#[trigger] right[i]),
        list_entries(left) == list_entries(right),
    ensures
        grammar::pick_entries(listed(left)) == grammar::pick_entries(listed(right)),
        grammar::query_steps(braced(listed(left))) == grammar::query_steps(
            braced(listed(right)),
        ),
{
    lemma_pick_parts(left);
    lemma_pick_parts(right);
    lemma_pick_entries(listed(left), left);
    lemma_pick_entries(listed(right), right);
    lemma_braces_step(listed(left));
    lemma_braces_step(listed(right));
    lemma_pick_query(listed(left));
    lemma_pick_query(listed(right));
}

/// Valid paths are the parts of the list that they make up.
proof fn lemma_pick_parts(parts: Seq<Seq<char>>)
    requires
        parts.len() > 0,
        forall|i: int| 0 <= i < parts.len() ==> is_pick_path(#[trigger] parts[i]),
    ensures
        grammar::parts(listed(parts)) == parts,
        is_balanced(listed(parts)),
{
    assert forall|i: int| 0 <= i < parts.len() implies is_balanced(#[trigger] parts[i]) && is_closed(
        parts[i],
    ) by {
        lemma_pick_path(parts[i]);
    }
    lemma_balanced_listed(parts);
    lemma_split(Seq::empty(), parts);
    assert(Seq::empty() + listed(parts) =~= listed(parts));
}

/// A query that is one pick.
proof fn lemma_pick_query(list: Seq<char>)
    requires
        is_balanced(list),
    ensures
        grammar::query_steps(braced(list)) == match grammar::chunk_step(braced(list)) {
            Some(step) => Some(seq![step]),
            None => None,
        },
{
    lemma_braces_chunk(list);
    match grammar::chunk_step(braced(list)) {
        Some(step) => {
            syntax::lemma_one_chunk(braced(list), step);
        },
        None => {
            reveal_strlit("**");
            reveal_strlit("**^");
            assert(braced(list)[0] == '{');
            assert(seq![braced(list)][0] == braced(list));
            assert(grammar::flat_steps(seq![braced(list)]) is None);
        },
    }
}

/// A path to a list in braces is a path to each entry of the list: where one entry of a pick is
/// `path.{a,b}`, the pick is the same as with `path.a,path.b` in its place. The path is a name, and
/// then names and array steps. Other entries may stand before and behind it.
pub proof fn braces_are_a_path_to_each_entry(
    before: Seq<Seq<char>>,
    path: Seq<char>,
    list: Seq<char>,
    behind: Seq<Seq<char>>,
)
    requires
        forall|i: int| 0 <= i < before.len() ==> is_pick_path(#[trigger] before[i]),
        forall|i: int| 0 <= i < behind.len() ==> is_pick_path(#[trigger] behind[i]),
        is_plain_path(path),
        grammar::pick_entries(list) is Some,
    ensures
        ({
            let braces = before + seq![path + seq!['.'] + braced(list)] + behind;
            let paths = before + paths_from(path, grammar::parts(list)) + behind;
            &&& grammar::pick_entries(listed(braces)) == grammar::pick_entries(listed(paths))
            &&& grammar::query_steps(braced(listed(braces))) == grammar::query_steps(
                braced(listed(paths)),
            )
        }),
{
    let parts = grammar::parts(list);
    let one = seq![path + seq!['.'] + braced(list)];
    let each = paths_from(path, parts);
    let braces = before + one + behind;
    let paths = before + each + behind;
    assert(list.subrange(0, 0) =~= Seq::empty());
    lemma_parts(list, 0, 0, 0);
    lemma_pick_entries(list, parts);
    lemma_list_behind(path, parts);
    lemma_braces(list);
    assert(!chunks::opens_bracket(braced(list))) by {
        assert(braced(list)[0] == '{');
    }
    lemma_part_behind(path, braced(list), grammar::pick_entries(list)->Some_0);
    let entries = part_entries(one[0])->Some_0;
    assert(one.drop_last() =~= Seq::empty());
    assert(one.last() == one[0]);
    assert(list_entries(Seq::empty()) == Some(Seq::<Entry>::empty()));
    assert(Seq::empty() + entries =~= entries);
    assert(list_entries(one) == list_entries(each));
    lemma_list_add(before + one, behind);
    lemma_list_add(before + each, behind);
    lemma_list_add(before, one);
    lemma_list_add(before, each);
    lemma_entries_valid(each);
    assert forall|i: int| 0 <= i < braces.len() implies is_pick_path(#[trigger] braces[i]) by {
        if i < before.len() {
            assert(braces[i] == before[i]);
        } else if i == before.len() {
            assert(braces[i] == one[0]);
        } else {
            assert(braces[i] == behind[i - before.len() - 1]);
        }
    }
    assert forall|i: int| 0 <= i < paths.len() implies is_pick_path(#[trigger] paths[i]) by {
        if i < before.len() {
            assert(paths[i] == before[i]);
        } else if i < before.len() + each.len() {
            assert(paths[i] == each[i - before.len()]);
        } else {
            assert(paths[i] == behind[i - before.len() - each.len()]);
        }
    }
    lemma_same_pick(braces, paths);
}

/// Where a list has entries, each of its parts is valid.
proof fn lemma_entries_valid(parts: Seq<Seq<char>>)
    requires
        list_entries(parts) is Some,
    ensures
        forall|i: int| 0 <= i < parts.len() ==> is_pick_path(#[trigger] parts[i]),
    decreases parts.len(),
{
    if parts.len() > 0 {
        let before = parts.drop_last();
        lemma_entries_valid(before);
        assert forall|i: int| 0 <= i < parts.len() implies is_pick_path(#[trigger] parts[i]) by {
            if i < before.len() {
                assert(parts[i] == before[i]);
            }
        }
    }
}

/// The list of a pick is valid if its only part is a path, and no two of its entries have the same
/// key. Then the entries of the list are those of the path.
pub proof fn a_list_of_one_part(part: Seq<char>)
    requires
        forall|i: int|
            0 <= i < part.len() && #[trigger] part[i] == ',' ==> scanning::open_braces(part.take(i))
                > 0,
    ensures
        match (grammar::pick_entries(part), part_entries(part)) {
            (Some(entries), Some(found)) => entries == found && forall|i: int, j: int|
                0 <= i < j < found.len() ==> (#[trigger] found[i]).key != (#[trigger] found[j]).key,
            (None, Some(found)) => exists|i: int, j: int|
                0 <= i < j < found.len() && (#[trigger] found[i]).key == (#[trigger] found[j]).key,
            (None, None) => true,
            (Some(_), None) => false,
        },
{
    scanning::nothing_else_separates_parts(part);
    lemma_pick_entries(part, seq![part]);
    assert(seq![part].drop_last() =~= Seq::empty());
    assert(seq![part].last() == part);
    assert(list_entries(Seq::empty()) == Some(Seq::<Entry>::empty()));
    if let Some(found) = part_entries(part) {
        assert(Seq::empty() + found =~= found);
        assert(list_entries(seq![part]) == Some(found));
    } else {
        assert(list_entries(seq![part]) is None);
    }
}

/// The entries of two lists with a comma between them are those of the one and then those of the
/// other. No key may occur in both.
pub proof fn a_list_goes_part_by_part(left: Seq<char>, right: Seq<char>)
    requires
        scanning::open_braces(left) == 0,
    ensures
        match (
            grammar::pick_entries(left + seq![','] + right),
            grammar::pick_entries(left),
            grammar::pick_entries(right),
        ) {
            (Some(all), Some(some), Some(more)) => all == some + more && forall|i: int, j: int|
                0 <= i < some.len() && 0 <= j < more.len() ==> (#[trigger] some[i]).key != (
                #[trigger] more[j]).key,
            (None, Some(some), Some(more)) => exists|i: int, j: int|
                0 <= i < some.len() && 0 <= j < more.len() && (#[trigger] some[i]).key == (
                #[trigger] more[j]).key,
            (all, _, _) => all is None,
        },
{
    let list = left + seq![','] + right;
    scanning::a_comma_separates_parts(left, right);
    lemma_pick_entries(left, grammar::parts(left));
    lemma_pick_entries(right, grammar::parts(right));
    lemma_pick_entries(list, grammar::parts(left) + grammar::parts(right));
    lemma_list_add(grammar::parts(left), grammar::parts(right));
    if let (Some(some), Some(more)) = (
        list_entries(grammar::parts(left)),
        list_entries(grammar::parts(right)),
    ) {
        lemma_distinct_add(some, more);
    }
}

proof fn lemma_distinct_add(some: Seq<Entry>, more: Seq<Entry>)
    ensures
        grammar::distinct_entries(some + more) <==> grammar::distinct_entries(some)
            && grammar::distinct_entries(more) && forall|i: int, j: int|
            0 <= i < some.len() && 0 <= j < more.len() ==> (#[trigger] some[i]).key != (
            #[trigger] more[j]).key,
{
    let all = some + more;
    if grammar::distinct_entries(all) {
        assert forall|i: int, j: int| 0 <= i < j < some.len() implies (#[trigger] some[i]).key != (
        #[trigger] some[j]).key by {
            assert(all[i].key != all[j].key);
        }
        assert forall|i: int, j: int| 0 <= i < j < more.len() implies (#[trigger] more[i]).key != (
        #[trigger] more[j]).key by {
            assert(all[some.len() + i].key != all[some.len() + j].key);
        }
        assert forall|i: int, j: int| 0 <= i < some.len() && 0 <= j < more.len() implies (
        #[trigger] some[i]).key != (#[trigger] more[j]).key by {
            assert(all[i].key != all[some.len() + j].key);
        }
    }
    if grammar::distinct_entries(some) && grammar::distinct_entries(more) && forall|i: int, j: int|
        0 <= i < some.len() && 0 <= j < more.len() ==> (#[trigger] some[i]).key != (
        #[trigger] more[j]).key {
        assert forall|i: int, j: int| 0 <= i < j < all.len() implies (#[trigger] all[i]).key != (
        #[trigger] all[j]).key by {
            if j < some.len() {
                assert(some[i].key != some[j].key);
            } else if i < some.len() {
                assert(some[i].key != more[j - some.len()].key);
            } else {
                assert(more[i - some.len()].key != more[j - some.len()].key);
            }
        }
    }
}

/// A path of names and array steps is read as it is in a query: its entry holds the first name, and
/// the steps of the query behind it. Its key is the last of its names.
pub proof fn a_path_is_read_as_in_a_query(path: Seq<char>)
    requires
        is_plain_path(path),
    ensures
        part_entries(path) matches Some(entries) && {
            &&& entries.len() == 1
            &&& grammar::query_steps(path) == Some(
                seq![Step::Property(entries[0].name)] + entries[0].steps,
            )
            &&& semantics::last_name(seq![Step::Property(entries[0].name)] + entries[0].steps)
                == Some(entries[0].key)
        },
{
    let found = grammar::chunks(path)->Some_0;
    let name = found[0];
    let rest = found.drop_first();
    assert forall|i: int| 0 <= i < rest.len() implies is_plain_chunk(#[trigger] rest[i]) by {
        assert(rest[i] == found[i + 1]);
    }
    lemma_plain_tail(name, rest);
    shape::lemma_path(found);
    let entry = grammar::path_entries(found)->Some_0[0];
    let steps = seq![Step::Property(name)] + entry.steps;
    lemma_name_chunk(name);
    assert(grammar::flat_steps(found) == Some(steps));
    assert forall|i: int| 0 <= i < steps.len() - 1 implies !grammar::is_keys(
        #[trigger] steps[i],
    ) by {
        if i > 0 {
            assert(steps[i] == entry.steps[i - 1]);
        }
    }
    grammar::lemma_nested_same(steps);
    assert(path.len() > 0) by {
        if path.len() == 0 {
            assert(grammar::chunks(path) == Some(seq![path.subrange(0, 0)]));
        }
    }
}

proof fn lemma_name_chunk(name: Seq<char>)
    requires
        grammar::is_name(name),
    ensures
        grammar::chunk_step(name) == Some(Step::Property(name)),
        name != "**"@,
        name != "**^"@,
{
    reveal_strlit("**");
    reveal_strlit("**^");
    assert(grammar::is_name_char(name[0]));
    assert(grammar::is_name_char(name[name.len() - 1]));
    assert("**"@[0] == '*' && "**^"@[0] == '*');
    assert(seq!['*'][0] == '*');
}

/// A path of names and array steps has one entry, whose steps are those of its chunks.
proof fn lemma_plain_tail(name: Seq<char>, rest: Seq<Seq<char>>)
    requires
        grammar::is_name(name),
        forall|i: int| 0 <= i < rest.len() ==> is_plain_chunk(#[trigger] rest[i]),
    ensures
        grammar::tail_entries(name, rest) matches Some(entries) && {
            &&& entries.len() == 1
            &&& entries[0].name == name
            &&& grammar::flat_steps(rest) == Some(entries[0].steps)
            &&& forall|i: int|
                0 <= i < entries[0].steps.len() ==> !grammar::is_keys(
                    #[trigger] entries[0].steps[i],
                )
        },
    decreases rest.len(),
{
    if rest.len() > 0 {
        let behind = rest.drop_first();
        assert forall|i: int| 0 <= i < behind.len() implies is_plain_chunk(
            #[trigger] behind[i],
        ) by {
            assert(behind[i] == rest[i + 1]);
        }
        assert(is_plain_chunk(rest[0]));
        let first = if grammar::is_name(rest[0]) {
            lemma_name_chunk(rest[0]);
            lemma_plain_tail(rest[0], behind);
            assert(grammar::path_entries(rest) == grammar::tail_entries(rest[0], behind));
            Step::Property(rest[0])
        } else {
            lemma_array_chunk(rest[0]);
            lemma_plain_tail(name, behind);
            reveal_strlit("**");
            reveal_strlit("**^");
            assert(rest[0][0] == '[' && "**"@[0] == '*' && "**^"@[0] == '*');
            grammar::array_step(rest[0])->Some_0
        };
        let more = grammar::flat_steps(behind)->Some_0;
        let steps = seq![first] + more;
        assert(grammar::flat_steps(rest) == Some(steps));
        assert(grammar::tail_entries(name, rest)->Some_0[0].steps =~= steps);
        assert forall|i: int| 0 <= i < steps.len() implies !grammar::is_keys(#[trigger] steps[i]) by {
            if i > 0 {
                assert(steps[i] == more[i - 1]);
            }
        }
    }
}

/// A path before braces comes before each entry in them: the entry keeps its key, and is read from
/// what the path gives.
pub proof fn a_path_comes_before_each_entry_in_braces(path: Seq<char>, list: Seq<char>)
    requires
        is_plain_path(path),
        grammar::pick_entries(list) is Some,
    ensures
        match (
            part_entries(path + seq!['.'] + (seq!['{'] + list + seq!['}'])),
            part_entries(path),
            grammar::pick_entries(list),
        ) {
            (Some(entries), Some(before), Some(inside)) => {
                &&& entries.len() == inside.len()
                &&& forall|i: int|
                    0 <= i < inside.len() ==> (#[trigger] entries[i]) == (Entry {
                        key: inside[i].key,
                        name: before[0].name,
                        steps: before[0].steps + (seq![Step::Property(inside[i].name)]
                            + inside[i].steps),
                    })
            },
            _ => false,
        },
{
    let found = grammar::chunks(path)->Some_0;
    let name = found[0];
    let rest = found.drop_first();
    let inside = grammar::pick_entries(list)->Some_0;
    assert forall|i: int| 0 <= i < rest.len() implies is_plain_chunk(#[trigger] rest[i]) by {
        assert(rest[i] == found[i + 1]);
    }
    lemma_plain_tail(name, rest);
    lemma_braces(list);
    assert(braced(list)[0] == '{');
    lemma_part_behind(path, braced(list), inside);
    lemma_through_at(name, rest, inside);
}

proof fn lemma_through_at(name: Seq<char>, rest: Seq<Seq<char>>, inside: Seq<Entry>)
    requires
        grammar::is_name(name),
        forall|i: int| 0 <= i < rest.len() ==> is_plain_chunk(#[trigger] rest[i]),
    ensures
        grammar::flat_steps(rest) matches Some(steps) && {
            &&& through(name, rest, inside).len() == inside.len()
            &&& forall|i: int|
                0 <= i < inside.len() ==> (#[trigger] through(name, rest, inside)[i]) == (Entry {
                    key: inside[i].key,
                    name,
                    steps: steps + (seq![Step::Property(inside[i].name)] + inside[i].steps),
                })
        },
    decreases rest.len(),
{
    lemma_plain_tail(name, rest);
    let steps = grammar::flat_steps(rest)->Some_0;
    let all = through(name, rest, inside);
    if rest.len() == 0 {
        assert(steps =~= Seq::empty());
        assert forall|i: int| 0 <= i < inside.len() implies (#[trigger] all[i]) == (Entry {
            key: inside[i].key,
            name,
            steps: steps + (seq![Step::Property(inside[i].name)] + inside[i].steps),
        }) by {
            let tail = seq![Step::Property(inside[i].name)] + inside[i].steps;
            assert(steps + tail =~= tail);
        }
    } else {
        let behind = rest.drop_first();
        assert forall|i: int| 0 <= i < behind.len() implies is_plain_chunk(
            #[trigger] behind[i],
        ) by {
            assert(behind[i] == rest[i + 1]);
        }
        assert(is_plain_chunk(rest[0]));
        let more = grammar::flat_steps(behind)->Some_0;
        let first = if grammar::is_name(rest[0]) {
            lemma_name_chunk(rest[0]);
            lemma_through_at(rest[0], behind, inside);
            Step::Property(rest[0])
        } else {
            lemma_array_chunk(rest[0]);
            lemma_through_at(name, behind, inside);
            reveal_strlit("**");
            reveal_strlit("**^");
            assert(rest[0][0] == '[' && "**"@[0] == '*' && "**^"@[0] == '*');
            grammar::array_step(rest[0])->Some_0
        };
        assert(steps == seq![first] + more);
        assert forall|i: int| 0 <= i < inside.len() implies (#[trigger] all[i]) == (Entry {
            key: inside[i].key,
            name,
            steps: steps + (seq![Step::Property(inside[i].name)] + inside[i].steps),
        }) by {
            let tail = seq![Step::Property(inside[i].name)] + inside[i].steps;
            if grammar::is_name(rest[0]) {
                assert(through(rest[0], behind, inside)[i].steps == more + tail);
            } else {
                assert(through(name, behind, inside)[i].steps == more + tail);
            }
            assert(seq![first] + (more + tail) =~= steps + tail);
        }
    }
}

/// A path of a pick starts with a name. Names and array steps follow it, and at the end there may be
/// a pick in braces.
pub proof fn what_a_path_can_be(part: Seq<char>)
    requires
        part_entries(part) is Some,
    ensures
        grammar::chunks(part) matches Some(found) && {
            &&& found.len() > 0
            &&& grammar::is_name(found[0])
            &&& forall|i: int| 0 <= i < found.len() - 1 ==> is_plain_chunk(#[trigger] found[i])
            &&& is_plain_chunk(found.last()) || grammar::chunk_step(found.last()) matches Some(
                Step::PropertyPick(_),
            )
        },
{
    let found = grammar::chunks(part)->Some_0;
    lemma_tail_chunks(found[0], found.drop_first());
    assert forall|i: int| 0 <= i < found.len() - 1 implies is_plain_chunk(#[trigger] found[i]) by {
        if i > 0 {
            assert(found[i] == found.drop_first()[i - 1]);
        }
    }
    if found.len() > 1 {
        assert(found.last() == found.drop_first().last());
    }
}

proof fn lemma_tail_chunks(name: Seq<char>, rest: Seq<Seq<char>>)
    requires
        grammar::tail_entries(name, rest) is Some,
    ensures
        forall|i: int| 0 <= i < rest.len() - 1 ==> is_plain_chunk(#[trigger] rest[i]),
        rest.len() > 0 ==> is_plain_chunk(rest.last()) || grammar::chunk_step(
            rest.last(),
        ) matches Some(Step::PropertyPick(_)),
    decreases rest.len(),
{
    if rest.len() > 0 {
        let behind = rest.drop_first();
        if grammar::is_name(rest[0]) {
            assert(grammar::path_entries(rest) == grammar::tail_entries(rest[0], behind));
            lemma_tail_chunks(rest[0], behind);
        } else {
            let step = grammar::chunk_step(rest[0])->Some_0;
            if !(step is PropertyPick) {
                reading::what_a_chunk_can_be(rest[0]);
                lemma_tail_chunks(name, behind);
                assert(is_plain_chunk(rest[0]));
            }
        }
        assert forall|i: int| 0 <= i < rest.len() - 1 implies is_plain_chunk(
            #[trigger] rest[i],
        ) by {
            if i > 0 {
                assert(rest[i] == behind[i - 1]);
            }
        }
        if rest.len() > 1 {
            assert(rest.last() == behind.last());
        }
    }
}

} // verus!
