//! Laws of the steps that a query can stand for.

use crate::grammar;
use crate::laws::syntax;
use crate::op;
use crate::op::{Entry, Step};
use crate::semantics;
use vstd::prelude::*;

verus! {

/// Whether `step` can stand in the path of a pick behind a name.
pub open spec fn is_path_step(step: Step) -> bool {
    match step {
        Step::Property(name) => grammar::is_name(name),
        _ => op::is_array(step) && is_sized(step),
    }
}

/// Whether the numbers in an array step fit in a machine word.
pub open spec fn is_sized(step: Step) -> bool {
    match step {
        Step::ArrayIndex(n) => n <= usize::MAX,
        Step::ArraySlice { start, stop } => {
            &&& start matches Some(at) ==> isize::MIN <= at <= isize::MAX
            &&& stop matches Some(at) ==> isize::MIN <= at <= isize::MAX
        },
        _ => true,
    }
}

/// Whether an entry of a pick is a path: names and array steps, under the last of the names.
pub open spec fn is_path(entry: Entry) -> bool {
    &&& grammar::is_name(entry.name)
    &&& grammar::is_name(entry.key)
    &&& forall|i: int| 0 <= i < entry.steps.len() ==> is_path_step(#[trigger] entry.steps[i])
    &&& semantics::last_name(seq![Step::Property(entry.name)] + entry.steps) == Some(entry.key)
}

/// Whether the entries of a pick are paths with different keys, and there is one at least.
pub open spec fn are_paths(entries: Seq<Entry>) -> bool {
    &&& entries.len() > 0
    &&& grammar::distinct_entries(entries)
    &&& forall|i: int| 0 <= i < entries.len() ==> is_path(#[trigger] entries[i])
}

/// Whether a query can hold `step`.
pub open spec fn is_possible(step: Step) -> bool
    decreases step,
{
    match step {
        Step::Property(name) => grammar::is_name(name),
        Step::PropertyPick(entries) => are_paths(entries),
        Step::PropertyMap(_, steps) => steps.len() > 0 && are_possible(steps),
        Step::Descend(inner) => op::is_object(*inner) && is_possible(*inner),
        Step::DescendPaths(steps) => grammar::may_follow_paths(steps) && are_possible(steps),
        _ => is_sized(step),
    }
}

/// Whether a query can stand for `steps`: a keys step, a step that holds the steps behind it, and
/// `**^` can only be the last.
pub open spec fn are_possible(steps: Seq<Step>) -> bool
    decreases steps,
{
    forall|i: int|
        0 <= i < steps.len() ==> is_possible(#[trigger] steps[i]) && (i < steps.len() - 1
            ==> !syntax::holds_the_rest(steps[i]) && !grammar::is_keys(steps[i]))
}

/// The steps of every valid query are well formed.
pub proof fn every_query_stands_for_possible_steps(query: Seq<char>)
    requires
        grammar::query_steps(query) is Some,
    ensures
        are_possible(grammar::query_steps(query)->Some_0),
{
    if query.len() > 0 {
        lemma_chunks(grammar::chunks(query)->Some_0);
    }
}

/// Whether `steps` are possible but for keys steps, which need not be the last.
spec fn are_possible_flat(steps: Seq<Step>) -> bool {
    forall|i: int|
        0 <= i < steps.len() ==> is_possible(#[trigger] steps[i]) && (i < steps.len() - 1
            ==> !syntax::holds_the_rest(steps[i]))
}

proof fn lemma_chunks(found: Seq<Seq<char>>)
    requires
        grammar::chunks_steps(found) is Some,
    ensures
        are_possible(grammar::chunks_steps(found)->Some_0),
    decreases found.len(), 1int,
{
    lemma_flat(found);
    lemma_nested(grammar::flat_steps(found)->Some_0);
}

proof fn lemma_flat(found: Seq<Seq<char>>)
    requires
        grammar::flat_steps(found) is Some,
    ensures
        are_possible_flat(grammar::flat_steps(found)->Some_0),
    decreases found.len(), 0int,
{
    let steps = grammar::flat_steps(found)->Some_0;
    reveal_strlit("**");
    reveal_strlit("**^");
    if found.len() > 0 {
        if found[0] == "**"@ {
            let rest = grammar::flat_steps(found.skip(2))->Some_0;
            lemma_chunk(found[1]);
            lemma_flat(found.skip(2));
            lemma_flat_push(steps[0], rest);
        } else if found[0] == "**^"@ {
            lemma_chunks(found.drop_first());
            let inner = grammar::chunks_steps(found.drop_first())->Some_0;
            assert(steps =~= seq![Step::DescendPaths(inner)]);
            assert(is_possible(steps[0]));
        } else {
            let rest = grammar::flat_steps(found.drop_first())->Some_0;
            lemma_chunk(found[0]);
            lemma_flat(found.drop_first());
            lemma_flat_push(steps[0], rest);
        }
    }
}

proof fn lemma_flat_push(first: Step, rest: Seq<Step>)
    requires
        is_possible(first),
        !syntax::holds_the_rest(first),
        are_possible_flat(rest),
    ensures
        are_possible_flat(seq![first] + rest),
{
    let all = seq![first] + rest;
    assert forall|i: int| 0 <= i < all.len() implies is_possible(#[trigger] all[i]) && (i < all.len()
        - 1 ==> !syntax::holds_the_rest(all[i])) by {
        if i > 0 {
            assert(all[i] == rest[i - 1]);
        }
    }
}

proof fn lemma_nested(flat: Seq<Step>)
    requires
        are_possible_flat(flat),
    ensures
        are_possible(grammar::nested(flat)),
        flat.len() > 0 ==> grammar::nested(flat).len() > 0,
    decreases flat.len(),
{
    if flat.len() > 0 {
        let rest = flat.drop_first();
        let more = grammar::nested(rest);
        let steps = grammar::nested(flat);
        assert forall|i: int| 0 <= i < rest.len() implies is_possible(#[trigger] rest[i]) && (i
            < rest.len() - 1 ==> !syntax::holds_the_rest(rest[i])) by {
            assert(rest[i] == flat[i + 1]);
        }
        lemma_nested(rest);
        assert(is_possible(flat[0]));
        if grammar::is_keys(flat[0]) && flat.len() > 1 {
            let mapped = grammar::keys_to_map(flat[0], more);
            assert(steps =~= seq![mapped]);
            match flat[0] {
                Step::Descend(inner) => {
                    assert(is_possible(grammar::keys_to_map_inner(*inner, more)));
                },
                _ => {},
            }
            assert(is_possible(mapped));
        } else {
            assert forall|i: int| 0 <= i < steps.len() implies is_possible(#[trigger] steps[i])
                && (i < steps.len() - 1 ==> !syntax::holds_the_rest(steps[i]) && !grammar::is_keys(
                steps[i],
            )) by {
                if i > 0 {
                    assert(steps[i] == more[i - 1]);
                } else if rest.len() == 0 {
                    assert(more.len() == 0);
                }
            }
        }
    }
}

/// The step of one chunk is possible, and holds no other steps.
proof fn lemma_chunk(chunk: Seq<char>)
    requires
        grammar::chunk_step(chunk) is Some,
    ensures
        is_possible(grammar::chunk_step(chunk)->Some_0),
        !syntax::holds_the_rest(grammar::chunk_step(chunk)->Some_0),
        !(grammar::chunk_step(chunk)->Some_0 is Descend),
    decreases chunk.len(), 0int, 0int,
{
    if grammar::selector_step(chunk) is Other && !grammar::is_name(chunk) && grammar::is_wrapped(
        chunk,
        '{',
        '}',
    ) {
        lemma_pick(grammar::unwrapped(chunk));
    }
}

proof fn lemma_pick(list: Seq<char>)
    requires
        grammar::pick_entries(list) is Some,
    ensures
        are_paths(grammar::pick_entries(list)->Some_0),
    decreases list.len(), 3int, 0int,
{
    lemma_some_part(list, 0, 0, 0);
    lemma_parts(list, grammar::parts(list).len());
}

proof fn lemma_some_part(list: Seq<char>, start: int, at: int, depth: nat)
    ensures
        grammar::parts_from(list, start, at, depth).len() > 0,
    decreases list.len() - at,
{
    if at < list.len() {
        if list[at] == '{' {
            lemma_some_part(list, start, at + 1, depth + 1);
        } else if list[at] == '}' {
            lemma_some_part(
                list,
                start,
                at + 1,
                if depth > 0 {
                    (depth - 1) as nat
                } else {
                    0
                },
            );
        } else if !(list[at] == ',' && depth == 0) {
            lemma_some_part(list, start, at + 1, depth);
        }
    }
}

proof fn lemma_parts(list: Seq<char>, count: nat)
    requires
        count <= grammar::parts(list).len(),
        grammar::parts_entries(list, count) is Some,
    ensures
        count > 0 ==> grammar::parts_entries(list, count)->Some_0.len() > 0,
        forall|i: int|
            0 <= i < grammar::parts_entries(list, count)->Some_0.len() ==> is_path(
                #[trigger] grammar::parts_entries(list, count)->Some_0[i],
            ),
    decreases list.len(), 2int, count,
{
    if count > 0 {
        let part = grammar::parts(list)[count - 1];
        let found = grammar::chunks(part)->Some_0;
        let all = grammar::parts_entries(list, count)->Some_0;
        let before = grammar::parts_entries(list, (count - 1) as nat)->Some_0;
        let entries = grammar::path_entries(found)->Some_0;
        grammar::lemma_longest(part, found);
        grammar::lemma_part_len(list, count - 1);
        lemma_parts(list, (count - 1) as nat);
        lemma_path(found);
        assert forall|i: int| 0 <= i < all.len() implies is_path(#[trigger] all[i]) by {
            if i < before.len() {
                assert(all[i] == before[i]);
            } else {
                assert(all[i] == entries[i - before.len()]);
            }
        }
    }
}

pub(crate) proof fn lemma_path(found: Seq<Seq<char>>)
    requires
        grammar::path_entries(found) is Some,
    ensures
        grammar::path_entries(found)->Some_0.len() > 0,
        forall|i: int|
            0 <= i < grammar::path_entries(found)->Some_0.len() ==> is_path(
                #[trigger] grammar::path_entries(found)->Some_0[i],
            ),
    decreases grammar::longest(found), 1int, 2 * found.len(),
{
    lemma_tail(found[0], found.drop_first());
}

proof fn lemma_tail(name: Seq<char>, rest: Seq<Seq<char>>)
    requires
        grammar::is_name(name),
        grammar::tail_entries(name, rest) is Some,
    ensures
        grammar::tail_entries(name, rest)->Some_0.len() > 0,
        forall|i: int|
            0 <= i < grammar::tail_entries(name, rest)->Some_0.len() ==> is_path(
                #[trigger] grammar::tail_entries(name, rest)->Some_0[i],
            ),
    decreases grammar::longest(rest), 1int, 2 * rest.len() + 1,
{
    if rest.len() == 0 {
        lemma_last_name(name, Seq::empty());
    } else if grammar::is_name(rest[0]) {
        lemma_path(rest);
        lemma_under(name, grammar::path_entries(rest)->Some_0);
    } else {
        let step = grammar::chunk_step(rest[0])->Some_0;
        if let Step::PropertyPick(entries) = step {
            grammar::lemma_longest_at(rest, 0);
            lemma_chunk(rest[0]);
            lemma_under(name, entries);
        } else {
            let entries = grammar::tail_entries(name, rest.drop_first())->Some_0;
            lemma_chunk(rest[0]);
            lemma_tail(name, rest.drop_first());
            lemma_after(step, entries);
        }
    }
}

/// A name with no name behind it is the last name.
proof fn lemma_last_name(name: Seq<char>, steps: Seq<Step>)
    ensures
        semantics::last_name(seq![Step::Property(name)] + steps) == match semantics::last_name(
            steps,
        ) {
            Some(last) => Some(last),
            None => Some(name),
        },
{
    let all = seq![Step::Property(name)] + steps;
    assert(all[0] == Step::Property(name));
    assert(all.drop_first() =~= steps);
}

proof fn lemma_under(name: Seq<char>, entries: Seq<Entry>)
    requires
        grammar::is_name(name),
        forall|i: int| 0 <= i < entries.len() ==> is_path(#[trigger] entries[i]),
    ensures
        forall|i: int|
            0 <= i < grammar::under(name, entries).len() ==> is_path(
                #[trigger] grammar::under(name, entries)[i],
            ),
{
    let all = grammar::under(name, entries);
    assert forall|i: int| 0 <= i < all.len() implies is_path(#[trigger] all[i]) by {
        let entry = entries[i];
        let steps = seq![Step::Property(entry.name)] + entry.steps;
        assert(is_path(entry));
        assert forall|j: int| 0 <= j < steps.len() implies is_path_step(#[trigger] steps[j]) by {
            if j > 0 {
                assert(steps[j] == entry.steps[j - 1]);
            }
        }
        lemma_last_name(name, steps);
    }
}

proof fn lemma_after(step: Step, entries: Seq<Entry>)
    requires
        op::is_array(step),
        is_possible(step),
        forall|i: int| 0 <= i < entries.len() ==> is_path(#[trigger] entries[i]),
    ensures
        forall|i: int|
            0 <= i < grammar::after(step, entries).len() ==> is_path(
                #[trigger] grammar::after(step, entries)[i],
            ),
{
    let all = grammar::after(step, entries);
    assert forall|i: int| 0 <= i < all.len() implies is_path(#[trigger] all[i]) by {
        let entry = entries[i];
        let steps = seq![step] + entry.steps;
        assert(is_path(entry));
        assert forall|j: int| 0 <= j < steps.len() implies is_path_step(#[trigger] steps[j]) by {
            if j > 0 {
                assert(steps[j] == entry.steps[j - 1]);
            }
        }
        assert(steps.drop_first() =~= entry.steps);
        lemma_last_name(entry.name, steps);
        lemma_last_name(entry.name, entry.steps);
    }
}

} // verus!
