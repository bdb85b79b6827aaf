//! Laws of the query language.

use crate::grammar;
use crate::grammar::Reading;
use crate::laws::chunks;
use crate::op;
use crate::op::{Matcher, Step};
use vstd::prelude::*;

verus! {

/// An empty chunk is not a step.
proof fn lemma_empty_chunk()
    ensures
        grammar::chunk_step(Seq::empty()) is None,
{
    let chunk = Seq::<char>::empty();
    assert(seq!['*'].len() == 1);
    assert(grammar::selector(chunk, false) is Other);
    assert(grammar::selector_step(chunk) is Other);
}

/// A query can't start with a `.`.
pub proof fn a_query_may_not_start_with_a_dot(query: Seq<char>)
    requires
        query.len() > 0,
        query[0] == '.',
    ensures
        grammar::query_steps(query) is None,
{
    if let Some(found) = grammar::chunks(query) {
        assert(query.subrange(0, 0) =~= Seq::empty());
        assert(found[0] == Seq::<char>::empty());
        reveal_strlit("**");
        reveal_strlit("**^");
        lemma_empty_chunk();
        assert(grammar::flat_steps(found) is None);
    }
}

/// A name is a query for the property of that name.
pub proof fn a_name_is_a_property(name: Seq<char>)
    requires
        grammar::is_name(name),
    ensures
        grammar::query_steps(name) == Some(seq![Step::Property(name)]),
{
    chunks::a_name_is_one_chunk(name);
    assert(grammar::is_name_char(name[0]));
    assert(grammar::is_name_char(name[name.len() - 1]));
    assert(grammar::selector(name, false) is Other) by {
        assert(seq!['*'][0] == '*');
    }
    assert(grammar::selector_step(name) is Other);
    assert(grammar::chunk_step(name) == Some(Step::Property(name)));
    lemma_one_chunk(name, Step::Property(name));
}

/// `name^` gives the keys that contain the name.
pub proof fn a_name_with_a_caret_selects_keys(name: Seq<char>)
    requires
        grammar::is_name(name),
    ensures
        grammar::query_steps(name.push('^')) == Some(
            seq![Step::PropertyKeys(Matcher::Contains(name))],
        ),
{
    let chunk = name.push('^');
    assert forall|i: int| 0 <= i < chunk.len() implies chunks::is_plain(#[trigger] chunk[i]) by {
        if i < name.len() {
            assert(grammar::is_name_char(name[i]));
        }
    }
    chunks::lemma_plain(chunk, 0, 0);
    assert(chunk.subrange(0, chunk.len() as int) =~= chunk);
    assert(chunk.drop_last() =~= name);
    assert(grammar::is_name_char(name[0]));
    assert(seq!['*'][0] == '*');
    assert(grammar::selector(name, true) == Reading::Valid(Matcher::Contains(name)));
    lemma_one_chunk(chunk, Step::PropertyKeys(Matcher::Contains(name)));
}

/// The steps of a query of one chunk.
pub(crate) proof fn lemma_one_chunk(chunk: Seq<char>, step: Step)
    requires
        grammar::chunk_step(chunk) == Some(step),
    ensures
        grammar::chunks_steps(seq![chunk]) == Some(seq![step]),
{
    lemma_not_a_step("**"@);
    lemma_not_a_step("**^"@);
    reveal_strlit("**");
    reveal_strlit("**^");
    assert(seq![chunk].drop_first() =~= Seq::empty());
    assert(grammar::flat_steps(Seq::empty()) == Some(Seq::<Step>::empty()));
    assert(seq![step] + Seq::empty() =~= seq![step]);
    assert(grammar::flat_steps(seq![chunk]) == Some(seq![step]));
    grammar::lemma_nested_same(seq![step]);
}

/// A chunk that starts with `**` is not a step on its own.
proof fn lemma_not_a_step(chunk: Seq<char>)
    requires
        chunk == "**"@ || chunk == "**^"@,
    ensures
        grammar::chunk_step(chunk) is None,
{
    reveal_strlit("**");
    reveal_strlit("**^");
    assert(chunk[0] == '*' && chunk[1] == '*');
    if chunk.last() == '^' {
        let text = chunk.drop_last();
        assert(text[1] == '*');
        assert(seq!['*'].len() == 1);
        assert(!grammar::is_name_char(text[0]));
        assert(grammar::selector(text, true) is Other);
    } else {
        assert(seq!['*'].len() == 1);
        assert(grammar::selector(chunk, false) is Other);
    }
    assert(grammar::selector_step(chunk) is Other);
    assert(!grammar::is_name_char(chunk[0]));
}

/// Steps of which only the last may take keys stay as they are when steps are nested.
pub proof fn steps_without_keys_are_not_nested(steps: Seq<Step>)
    requires
        forall|i: int| 0 <= i < steps.len() - 1 ==> !grammar::is_keys(#[trigger] steps[i]),
    ensures
        grammar::nested(steps) == steps,
{
    grammar::lemma_nested_same(steps);
}

/// The first step that takes keys and is not the last holds the steps behind it, nested in turn. The
/// steps before it stay as they are.
pub proof fn the_first_keys_step_holds_the_steps_behind_it(steps: Seq<Step>, at: int)
    requires
        0 <= at < steps.len() - 1,
        grammar::is_keys(steps[at]),
        forall|i: int| 0 <= i < at ==> !grammar::is_keys(#[trigger] steps[i]),
    ensures
        grammar::nested(steps) == steps.take(at).push(
            grammar::keys_to_map(steps[at], grammar::nested(steps.skip(at + 1))),
        ),
{
    grammar::lemma_nested_at(steps, at);
}

/// Nesting steps twice is nesting them once.
pub proof fn nesting_twice_is_nesting_once(steps: Seq<Step>)
    ensures
        grammar::nested(grammar::nested(steps)) == grammar::nested(steps),
{
    grammar::lemma_nested_twice(steps);
}

/// `/regex/` selects the values of the properties whose keys match the regex, and `/regex/^` their
/// keys. What is between the slashes is the regex as it stands.
pub proof fn a_regex_selects_matching_properties(body: Seq<char>)
    requires
        chunks::is_regex_body(body, false),
    ensures
        grammar::query_steps(seq!['/'] + body + seq!['/']) == match op::regex_language(body) {
            Some(texts) => Some(
                seq![Step::PropertyValues(Matcher::Regex { source: body, texts })],
            ),
            None => None,
        },
        grammar::query_steps(seq!['/'] + body + seq!['/', '^']) == match op::regex_language(body) {
            Some(texts) => Some(seq![Step::PropertyKeys(Matcher::Regex { source: body, texts })]),
            None => None,
        },
{
    let values = seq!['/'] + body + seq!['/'];
    let keys = seq!['/'] + body + seq!['/', '^'];
    chunks::a_regex_is_one_chunk(body, false);
    chunks::a_regex_is_one_chunk(body, true);
    assert(seq!['*'][0] == '*');
    assert(grammar::unwrapped(values) =~= body);
    assert(keys.drop_last() =~= values);
    assert(values.last() == '/');
    assert(keys.last() == '^');
    assert(values[0] == '/');
    reveal_strlit("**");
    reveal_strlit("**^");
    match op::regex_language(body) {
        Some(texts) => {
            let matcher = Matcher::Regex { source: body, texts };
            lemma_one_chunk(values, Step::PropertyValues(matcher));
            lemma_one_chunk(keys, Step::PropertyKeys(matcher));
        },
        None => {
            assert(grammar::selector_step(values) is Invalid);
            assert(grammar::selector_step(keys) is Invalid);
            assert(keys[0] == '/');
            assert(grammar::flat_steps(seq![values]) is None);
            assert(grammar::flat_steps(seq![keys]) is None);
        },
    }
}

/// Whether a step holds the steps behind it, so that it is the last: a keys step with steps behind
/// it, or `**^`.
pub open spec fn holds_the_rest(step: Step) -> bool {
    match step {
        Step::PropertyMap(_, _) => true,
        Step::DescendPaths(_) => true,
        Step::Descend(inner) => *inner is PropertyMap,
        _ => false,
    }
}

/// `right` behind `left`: inside the last of `left` if that takes keys or holds the steps behind
/// it.
pub open spec fn joined(left: Seq<Step>, right: Seq<Step>) -> Seq<Step>
    decreases left,
{
    if left.len() == 0 {
        right
    } else {
        match left.last() {
            Step::PropertyMap(matcher, steps) => left.drop_last().push(
                Step::PropertyMap(matcher, joined(steps, right)),
            ),
            Step::DescendPaths(steps) => left.drop_last().push(
                Step::DescendPaths(joined(steps, right)),
            ),
            Step::Descend(inner) => match *inner {
                Step::PropertyMap(matcher, steps) => left.drop_last().push(
                    Step::Descend(Box::new(Step::PropertyMap(matcher, joined(steps, right)))),
                ),
                Step::PropertyKeys(_) => left.drop_last().push(
                    grammar::keys_to_map(left.last(), right),
                ),
                _ => left + right,
            },
            Step::PropertyKeys(_) => left.drop_last().push(
                grammar::keys_to_map(left.last(), right),
            ),
            _ => left + right,
        }
    }
}

/// Whether `right` may stand behind `left`: it may, unless `left` ends in a `**^` that may not have
/// those steps.
pub open spec fn can_be_joined(left: Seq<Step>, right: Seq<Step>) -> bool
    decreases left,
{
    if left.len() == 0 {
        true
    } else {
        match left.last() {
            Step::PropertyMap(_, steps) => can_be_joined(steps, right),
            Step::DescendPaths(steps) => can_be_joined(steps, right) && grammar::may_follow_paths(
                joined(steps, right),
            ),
            Step::Descend(inner) => match *inner {
                Step::PropertyMap(_, steps) => can_be_joined(steps, right),
                _ => true,
            },
            _ => true,
        }
    }
}

/// Whether no step but a `**^` at the end holds others.
pub(crate) closed spec fn is_flat(steps: Seq<Step>) -> bool {
    forall|i: int|
        0 <= i < steps.len() ==> !holds_the_rest(#[trigger] steps[i]) || (i == steps.len() - 1
            && steps[i] is DescendPaths)
}

pub(crate) proof fn lemma_flat(found: Seq<Seq<char>>)
    requires
        grammar::flat_steps(found) is Some,
    ensures
        is_flat(grammar::flat_steps(found)->Some_0),
        found.len() > 0 ==> grammar::flat_steps(found)->Some_0.len() > 0,
    decreases found.len(),
{
    let steps = grammar::flat_steps(found)->Some_0;
    reveal_strlit("**");
    reveal_strlit("**^");
    if found.len() > 0 && found[0] != "**^"@ {
        let rest = if found[0] == "**"@ {
            found.skip(2)
        } else {
            found.drop_first()
        };
        let more = grammar::flat_steps(rest)->Some_0;
        lemma_flat(rest);
        if found[0] == "**"@ {
            lemma_object_step(found[1], grammar::chunk_step(found[1])->Some_0);
        } else {
            lemma_object_step(found[0], grammar::chunk_step(found[0])->Some_0);
        }
        assert(steps == seq![steps[0]] + more);
        assert forall|i: int| 0 <= i < steps.len() implies !holds_the_rest(#[trigger] steps[i]) || (i
            == steps.len() - 1 && steps[i] is DescendPaths) by {
            if i > 0 {
                assert(steps[i] == more[i - 1]);
            }
        }
    }
}

/// Nesting steps with others behind them.
proof fn lemma_nested_join(left: Seq<Step>, right: Seq<Step>)
    requires
        is_flat(left),
        left.len() > 0 ==> !(left.last() is DescendPaths),
        right.len() > 0,
    ensures
        grammar::nested(left + right) == joined(grammar::nested(left), grammar::nested(right)),
        can_be_joined(grammar::nested(left), grammar::nested(right)),
        left.len() > 0 ==> grammar::nested(left).len() > 0,
    decreases left.len(),
{
    let all = left + right;
    let more = grammar::nested(right);
    if left.len() == 0 {
        assert(all =~= right);
    } else {
        let first = left[0];
        let rest = left.drop_first();
        let inner = grammar::nested(rest);
        assert(all[0] == first);
        assert(all.drop_first() =~= rest + right);
        assert forall|i: int| 0 <= i < rest.len() implies !holds_the_rest(#[trigger] rest[i]) || (i
            == rest.len() - 1 && rest[i] is DescendPaths) by {
            assert(rest[i] == left[i + 1]);
        }
        assert(!holds_the_rest(left[0]));
        lemma_nested_join(rest, right);
        if grammar::is_keys(first) {
            lemma_join_keys(first, inner, more);
            if rest.len() == 0 {
                assert(rest =~= Seq::empty());
                assert(grammar::nested(left) =~= seq![first]);
                assert(rest + right =~= right);
            }
        } else {
            lemma_join_first(first, inner, more);
        }
    }
}

/// Steps behind a keys step go inside it.
proof fn lemma_join_keys(first: Step, inner: Seq<Step>, right: Seq<Step>)
    requires
        grammar::is_keys(first),
    ensures
        joined(seq![first], right) == seq![grammar::keys_to_map(first, right)],
        joined(seq![grammar::keys_to_map(first, inner)], right) == seq![
            grammar::keys_to_map(first, joined(inner, right)),
        ],
        can_be_joined(seq![first], right),
        can_be_joined(seq![grammar::keys_to_map(first, inner)], right) == can_be_joined(
            inner,
            right,
        ),
{
    let mapped = grammar::keys_to_map(first, inner);
    assert(seq![first].last() == first);
    assert(seq![first].drop_last() =~= Seq::empty());
    assert(seq![mapped].last() == mapped);
    assert(seq![mapped].drop_last() =~= Seq::empty());
    assert(joined(seq![first], right) =~= seq![grammar::keys_to_map(first, right)]);
    assert(joined(seq![mapped], right) =~= seq![grammar::keys_to_map(first, joined(inner, right))]);
}

/// Steps behind others do not change the first of them, if that takes no keys and holds no steps.
proof fn lemma_join_first(first: Step, rest: Seq<Step>, right: Seq<Step>)
    requires
        !grammar::is_keys(first),
        !holds_the_rest(first),
    ensures
        joined(seq![first] + rest, right) == seq![first] + joined(rest, right),
        can_be_joined(seq![first] + rest, right) == can_be_joined(rest, right),
{
    let all = seq![first] + rest;
    if rest.len() == 0 {
        assert(all =~= seq![first]);
        assert(all.last() == first);
        assert(joined(all, right) == all + right);
    } else {
        assert(all.last() == rest.last());
        assert(all.drop_last() =~= seq![first] + rest.drop_last());
        assert(joined(all, right) =~= seq![first] + joined(rest, right));
    }
}

/// Nesting steps that end in a `**^`, with others behind it.
proof fn lemma_nested_paths(left: Seq<Step>, inner: Seq<Step>, right: Seq<Step>)
    requires
        is_flat(left),
        left.len() > 0,
        left.last() == Step::DescendPaths(inner),
    ensures
        grammar::nested(left.drop_last().push(Step::DescendPaths(joined(inner, right)))) == joined(
            grammar::nested(left),
            right,
        ),
        can_be_joined(grammar::nested(left), right) == (can_be_joined(inner, right)
            && grammar::may_follow_paths(joined(inner, right))),
    decreases left.len(),
{
    let last = Step::DescendPaths(joined(inner, right));
    let all = left.drop_last().push(last);
    if left.len() == 1 {
        assert(left =~= seq![Step::DescendPaths(inner)]);
        assert(all =~= seq![last]);
        grammar::lemma_nested_same(left);
        grammar::lemma_nested_same(all);
    } else {
        let first = left[0];
        let rest = left.drop_first();
        assert(all[0] == first);
        assert(all.drop_first() =~= rest.drop_last().push(last));
        assert(rest.last() == left.last());
        assert forall|i: int| 0 <= i < rest.len() implies !holds_the_rest(#[trigger] rest[i]) || (i
            == rest.len() - 1 && rest[i] is DescendPaths) by {
            assert(rest[i] == left[i + 1]);
        }
        assert(!holds_the_rest(left[0]));
        lemma_nested_paths(rest, inner, right);
        if grammar::is_keys(first) {
            lemma_join_keys(first, grammar::nested(rest), right);
        } else {
            lemma_join_first(first, grammar::nested(rest), right);
        }
    }
}

/// The steps of chunks with others behind them.
proof fn lemma_chunks_join(left: Seq<Seq<char>>, right: Seq<Seq<char>>)
    requires
        right.len() > 0,
        grammar::chunks_steps(left) is Some,
    ensures
        grammar::chunks_steps(left + right) == match grammar::chunks_steps(right) {
            Some(more) => if can_be_joined(grammar::chunks_steps(left)->Some_0, more) {
                Some(joined(grammar::chunks_steps(left)->Some_0, more))
            } else {
                None
            },
            None => None,
        },
    decreases left.len(), 1int,
{
    let flat = grammar::flat_steps(left)->Some_0;
    lemma_flat(left);
    lemma_flat_join(left, right);
    if let Some(more) = grammar::flat_steps(right) {
        lemma_flat(right);
        if flat.len() > 0 && flat.last() is DescendPaths {
            lemma_nested_paths(flat, flat.last()->DescendPaths_0, grammar::nested(more));
        } else {
            lemma_nested_join(flat, more);
        }
    }
}

proof fn lemma_flat_join(left: Seq<Seq<char>>, right: Seq<Seq<char>>)
    requires
        right.len() > 0,
        grammar::flat_steps(left) is Some,
    ensures
        ({
            let flat = grammar::flat_steps(left)->Some_0;
            grammar::flat_steps(left + right) == match grammar::flat_steps(right) {
                Some(more) => if flat.len() > 0 && flat.last() is DescendPaths {
                    let inner = flat.last()->DescendPaths_0;
                    let steps = joined(inner, grammar::nested(more));
                    if can_be_joined(inner, grammar::nested(more)) && grammar::may_follow_paths(
                        steps,
                    ) {
                        Some(flat.drop_last().push(Step::DescendPaths(steps)))
                    } else {
                        None
                    }
                } else {
                    Some(flat + more)
                },
                None => None,
            }
        }),
    decreases left.len(), 0int,
{
    let all = left + right;
    let flat = grammar::flat_steps(left)->Some_0;
    reveal_strlit("**");
    reveal_strlit("**^");
    if left.len() == 0 {
        assert(all =~= right);
        if let Some(more) = grammar::flat_steps(right) {
            assert(flat + more =~= more);
        }
    } else {
        assert(all[0] == left[0]);
        if left[0] == "**^"@ {
            let rest = left.drop_first();
            assert(all.drop_first() =~= rest + right);
            assert(grammar::chunks_steps(rest) is Some);
            lemma_chunks_join(rest, right);
            let inner = grammar::chunks_steps(rest)->Some_0;
            assert(flat =~= seq![Step::DescendPaths(inner)]);
            assert(flat.drop_last() =~= Seq::empty());
            if let Some(more) = grammar::flat_steps(right) {
                let last = Step::DescendPaths(joined(inner, grammar::nested(more)));
                assert(flat.drop_last().push(last) =~= seq![last]);
            }
        } else {
            let rest = if left[0] == "**"@ {
                left.skip(2)
            } else {
                left.drop_first()
            };
            if left[0] == "**"@ {
                assert(all[1] == left[1]);
                assert(all.skip(2) =~= rest + right);
            } else {
                assert(all.drop_first() =~= rest + right);
            }
            let behind = grammar::flat_steps(rest)->Some_0;
            lemma_flat_join(rest, right);
            assert(flat == seq![flat[0]] + behind);
            assert(!(flat[0] is DescendPaths)) by {
                if left[0] != "**"@ {
                    lemma_object_step(left[0], flat[0]);
                }
            }
            if let Some(more) = grammar::flat_steps(right) {
                if behind.len() > 0 && behind.last() is DescendPaths {
                    let steps = joined(
                        behind.last()->DescendPaths_0,
                        grammar::nested(more),
                    );
                    assert(flat.last() == behind.last());
                    assert(seq![flat[0]] + behind.drop_last().push(Step::DescendPaths(steps))
                        =~= flat.drop_last().push(Step::DescendPaths(steps)));
                } else {
                    assert(flat.last() == if behind.len() > 0 {
                        behind.last()
                    } else {
                        flat[0]
                    });
                    assert(seq![flat[0]] + (behind + more) =~= flat + more);
                }
            }
        }
    }
}

/// A query is a list of steps separated by `.`: two queries with a `.` between them are the steps of
/// the one and then those of the other. A keys step, and `**^`, takes the steps behind it.
pub proof fn a_dot_joins_queries(left: Seq<char>, right: Seq<char>)
    requires
        left.len() > 0,
        right.len() > 0,
        !chunks::opens_bracket(right),
        grammar::query_steps(left) is Some,
    ensures
        grammar::query_steps(left + seq!['.'] + right) == match grammar::query_steps(right) {
            Some(more) => if can_be_joined(grammar::query_steps(left)->Some_0, more) {
                Some(joined(grammar::query_steps(left)->Some_0, more))
            } else {
                None
            },
            None => None,
        },
{
    chunks::a_dot_separates_chunks(left, right);
    if let Some(more) = grammar::chunks(right) {
        chunks::lemma_some_chunk(right, 0, 0, grammar::Lex::Plain, 0);
        lemma_chunks_join(grammar::chunks(left)->Some_0, more);
    }
}

/// An array step is written straight after the step before it, with no `.` between them.
pub proof fn an_array_step_follows_without_a_dot(left: Seq<char>, inside: Seq<char>)
    requires
        left.len() > 0,
        grammar::query_steps(left) is Some,
        grammar::array_step(seq!['['] + inside + seq![']']) is Some,
    ensures
        ({
            let steps = grammar::query_steps(left)->Some_0;
            let more = seq![grammar::array_step(seq!['['] + inside + seq![']'])->Some_0];
            grammar::query_steps(left + (seq!['['] + inside + seq![']'])) == if can_be_joined(
                steps,
                more,
            ) {
                Some(joined(steps, more))
            } else {
                None
            }
        }),
        grammar::query_steps(left + seq!['.'] + (seq!['['] + inside + seq![']'])) is None,
{
    let bracket = seq!['['] + inside + seq![']'];
    let step = grammar::array_step(bracket)->Some_0;
    let found = grammar::chunks(left)->Some_0;
    assert(bracket[0] == '[');
    assert(bracket.last() == ']');
    assert(grammar::unwrapped(bracket) =~= inside);
    chunks::a_bracket_may_not_follow_a_dot(left, bracket);
    chunks::lemma_some_chunk(left, 0, 0, grammar::Lex::Plain, 0);
    lemma_no_empty_chunk(found, found.len() - 1);
    assert forall|i: int| 0 <= i < inside.len() implies chunks::is_plain(#[trigger] inside[i]) by {
        lemma_array_chars(inside, i);
    }
    chunks::a_bracket_starts_a_chunk(left, inside);
    assert(found.push(bracket) =~= found + seq![bracket]);
    assert(seq!['*'][0] == '*');
    assert(grammar::selector_step(bracket) is Other);
    assert(!grammar::is_name_char(bracket[0]));
    assert(grammar::chunk_step(bracket) == Some(step));
    lemma_one_chunk(bracket, step);
    lemma_chunks_join(found, seq![bracket]);
}

/// Nothing may be missing between two dots, or at the end of a query: a query with an empty chunk,
/// such as `Tim..age`, is invalid.
pub proof fn no_chunk_of_a_query_is_empty(query: Seq<char>, i: int)
    requires
        query.len() > 0,
        grammar::query_steps(query) is Some,
        0 <= i < grammar::chunks(query)->Some_0.len(),
    ensures
        grammar::chunks(query)->Some_0[i].len() > 0,
{
    lemma_no_empty_chunk(grammar::chunks(query)->Some_0, i);
}

proof fn lemma_no_empty_chunk(found: Seq<Seq<char>>, i: int)
    requires
        0 <= i < found.len(),
        grammar::flat_steps(found) is Some,
    ensures
        found[i].len() > 0,
    decreases found.len(),
{
    reveal_strlit("**");
    reveal_strlit("**^");
    lemma_empty_chunk();
    if found[i].len() == 0 {
        assert(found[i] =~= Seq::empty());
        if found[0] == "**"@ {
            if i > 1 {
                lemma_no_empty_chunk(found.skip(2), i - 2);
            }
        } else if i > 0 {
            if found[0] == "**^"@ {
                assert(grammar::chunks_steps(found.drop_first()) is Some);
            }
            lemma_no_empty_chunk(found.drop_first(), i - 1);
        }
    }
}

/// What stands between the brackets of an array step: digits, `-` and `:`.
pub(crate) proof fn lemma_array_chars(inside: Seq<char>, i: int)
    requires
        0 <= i < inside.len(),
        grammar::array_step(seq!['['] + inside + seq![']']) is Some,
    ensures
        '0' <= inside[i] <= '9' || inside[i] == '-' || inside[i] == ':',
{
    let bracket = seq!['['] + inside + seq![']'];
    assert(bracket[0] == '[');
    assert(bracket.last() == ']');
    assert(grammar::unwrapped(bracket) =~= inside);
    if !grammar::is_number(inside) {
        let colon = grammar::position(inside, ':') as int;
        let start = inside.take(colon);
        let stop = inside.skip(colon + 1);
        if i < colon {
            assert(start[i] == inside[i]);
            lemma_bound_chars(start, i);
        } else if i > colon {
            assert(stop[i - colon - 1] == inside[i]);
            lemma_bound_chars(stop, i - colon - 1);
        } else {
            lemma_position(inside, ':');
        }
    }
}

proof fn lemma_bound_chars(text: Seq<char>, i: int)
    requires
        0 <= i < text.len(),
        grammar::slice_bound(text) is Some,
    ensures
        '0' <= text[i] <= '9' || text[i] == '-',
{
    if !grammar::is_number(text) && i > 0 {
        assert(text.drop_first()[i - 1] == text[i]);
    }
}

pub(crate) proof fn lemma_position(text: Seq<char>, c: char)
    requires
        grammar::position(text, c) < text.len(),
    ensures
        text[grammar::position(text, c) as int] == c,
    decreases text.len(),
{
    if text[0] != c {
        lemma_position(text.drop_first(), c);
    }
}

/// `**^` takes all the steps behind it, of which the first must be an object step, and a pick the
/// last.
pub proof fn prune_takes_all_the_steps_behind_it(right: Seq<char>)
    requires
        right.len() > 0,
        !chunks::opens_bracket(right),
    ensures
        grammar::query_steps("**^"@ + seq!['.'] + right) == match grammar::query_steps(right) {
            Some(steps) => if grammar::may_follow_paths(steps) {
                Some(seq![Step::DescendPaths(steps)])
            } else {
                None
            },
            None => None,
        },
        grammar::query_steps("**^"@) == Some(seq![Step::DescendPaths(Seq::empty())]),
{
    let left = "**^"@;
    reveal_strlit("**");
    reveal_strlit("**^");
    chunks::lemma_plain(left, 0, 0);
    assert(left.subrange(0, left.len() as int) =~= left);
    chunks::a_dot_separates_chunks(left, right);
    let alone = seq![left];
    assert(alone.drop_first() =~= Seq::empty());
    assert(grammar::flat_steps(alone.drop_first()) == Some(Seq::<Step>::empty()));
    assert(grammar::chunks_steps(alone.drop_first()) == Some(Seq::<Step>::empty()));
    grammar::lemma_nested_same(seq![Step::DescendPaths(Seq::empty())]);
    assert(grammar::flat_steps(alone) == Some(seq![Step::DescendPaths(Seq::empty())]));
    if let Some(more) = grammar::chunks(right) {
        let found = alone + more;
        assert(found[0] == left);
        assert(found.drop_first() =~= more);
        if let Some(steps) = grammar::chunks_steps(more) {
            grammar::lemma_nested_same(seq![Step::DescendPaths(steps)]);
        }
    }
}

/// `**` takes the first of the steps behind it, which must be an object step.
pub proof fn descend_takes_the_step_behind_it(right: Seq<char>)
    requires
        right.len() > 0,
        !chunks::opens_bracket(right),
    ensures
        grammar::query_steps("**"@ + seq!['.'] + right) == match grammar::query_steps(right) {
            Some(steps) => if op::is_object(steps[0]) {
                Some(seq![Step::Descend(Box::new(steps[0]))] + steps.drop_first())
            } else {
                None
            },
            None => None,
        },
        grammar::query_steps("**"@) is None,
{
    let left = "**"@;
    reveal_strlit("**");
    reveal_strlit("**^");
    chunks::lemma_plain(left, 0, 0);
    assert(left.subrange(0, left.len() as int) =~= left);
    chunks::a_dot_separates_chunks(left, right);
    assert(grammar::flat_steps(seq![left]) is None);
    if let Some(more) = grammar::chunks(right) {
        chunks::lemma_some_chunk(right, 0, 0, grammar::Lex::Plain, 0);
        lemma_descend_chunks(more);
        assert(seq![left] + more =~= seq!["**"@] + more);
    }
}

proof fn lemma_descend_chunks(more: Seq<Seq<char>>)
    requires
        more.len() > 0,
    ensures
        grammar::chunks_steps(seq!["**"@] + more) == match grammar::chunks_steps(more) {
            Some(steps) => if op::is_object(steps[0]) {
                Some(seq![Step::Descend(Box::new(steps[0]))] + steps.drop_first())
            } else {
                None
            },
            None => None,
        },
{
    let all = seq!["**"@] + more;
    let rest = more.drop_first();
    reveal_strlit("**");
    reveal_strlit("**^");
    assert(all[0] == "**"@);
    assert(all[1] == more[0]);
    assert(all.skip(2) =~= rest);
    if more[0] == "**"@ || more[0] == "**^"@ {
        lemma_not_a_step(more[0]);
        assert(grammar::flat_steps(all) is None);
        if let Some(flat) = grammar::flat_steps(more) {
            assert(flat[0] is Descend || flat[0] is DescendPaths);
            lemma_nested_first(flat);
        }
    } else if let (Some(step), Some(flat)) = (
        grammar::chunk_step(more[0]),
        grammar::flat_steps(rest),
    ) {
        let steps = seq![step] + flat;
        let inside = Step::Descend(Box::new(step));
        let found = seq![inside] + flat;
        assert(grammar::flat_steps(more) == Some(steps));
        assert(steps[0] == step);
        assert(steps.drop_first() =~= flat);
        assert(found[0] == inside);
        assert(found.drop_first() =~= flat);
        if op::is_object(step) {
            assert(grammar::flat_steps(all) == Some(found));
            if step is PropertyKeys && flat.len() > 0 {
                let mapped = grammar::keys_to_map(step, grammar::nested(flat));
                assert(grammar::nested(steps) =~= seq![mapped]);
                assert(grammar::nested(found) =~= seq![Step::Descend(Box::new(mapped))]);
                assert(grammar::nested(found) =~= seq![Step::Descend(Box::new(mapped))] + seq![
                    mapped,
                ].drop_first());
            } else {
                let nested = grammar::nested(steps);
                lemma_object_step(more[0], step);
                assert(nested == seq![step] + grammar::nested(flat));
                assert(nested.drop_first() =~= grammar::nested(flat));
                assert(grammar::nested(found) =~= seq![inside] + nested.drop_first());
            }
        } else {
            assert(grammar::flat_steps(all) is None);
            lemma_nested_first(steps);
            lemma_object_step(more[0], step);
        }
    } else {
        assert(grammar::flat_steps(all) is None);
    }
}

/// The first step keeps its kind when steps are nested.
proof fn lemma_nested_first(steps: Seq<Step>)
    requires
        steps.len() > 0,
    ensures
        grammar::nested(steps).len() > 0,
        op::is_object(grammar::nested(steps)[0]) == op::is_object(steps[0]),
{
}

/// One chunk holds no `**` and no steps behind it.
proof fn lemma_object_step(chunk: Seq<char>, step: Step)
    requires
        grammar::chunk_step(chunk) == Some(step),
    ensures
        op::is_object(step) || op::is_array(step),
        !holds_the_rest(step),
        !(step is Descend),
{
}

} // verus!
