//! Laws of what the chunks of a query are read as.

use crate::grammar;
use crate::laws::syntax;
use crate::op;
use crate::op::{Matcher, Step};
use crate::text;
use vstd::prelude::*;

verus! {

/// A name is made of letters, `_` and `-`, and is not empty.
pub proof fn what_a_name_is(text: Seq<char>)
    ensures
        grammar::is_name(text) <==> text.len() > 0 && forall|i: int|
            0 <= i < text.len() ==> {
                let c = #[trigger] text[i] as int;
                97 <= c <= 122 || 65 <= c <= 90 || c == 95 || c == 45
            },
{
    if grammar::is_name(text) {
        assert forall|i: int| 0 <= i < text.len() implies {
            let c = #[trigger] text[i] as int;
            97 <= c <= 122 || 65 <= c <= 90 || c == 95 || c == 45
        } by {
            assert(grammar::is_name_char(text[i]));
        }
    }
}

/// A number is made of digits, and is not empty.
pub proof fn what_a_number_is(text: Seq<char>)
    ensures
        grammar::is_number(text) <==> text.len() > 0 && forall|i: int|
            0 <= i < text.len() ==> 48 <= #[trigger] text[i] as int <= 57,
{
}

/// A digit behind a number counts for itself, and the number for ten times as much.
pub proof fn a_digit_makes_a_number_ten_times_as_large(text: Seq<char>, digit: nat)
    requires
        digit < 10,
    ensures
        grammar::number(Seq::empty()) == 0,
        grammar::number(text.push((48 + digit) as char)) == 10 * grammar::number(text) + digit,
{
    let all = text.push((48 + digit) as char);
    assert(all.drop_last() =~= text);
    assert(all.last() as nat == 48 + digit);
}

/// The digits of a number stand for the number.
pub proof fn digits_stand_for_their_number(n: nat)
    ensures
        grammar::is_number(text::decimal(n)),
        grammar::number(text::decimal(n)) == n,
        n > 0 ==> text::decimal(n)[0] != '0',
        n == 0 ==> text::decimal(n) == seq!['0'],
    decreases n,
{
    let digit = n % 10;
    a_digit_makes_a_number_ten_times_as_large(Seq::empty(), digit);
    if n < 10 {
        assert(text::decimal(n) =~= Seq::empty().push((48 + digit) as char));
    } else {
        digits_stand_for_their_number(n / 10);
        a_digit_makes_a_number_ten_times_as_large(text::decimal(n / 10), digit);
        assert(text::decimal(n) == text::decimal(n / 10).push((48 + digit) as char));
    }
}

/// `*` selects every property, and a regex between slashes those whose keys it matches. With a `^`
/// behind it, a chunk selects keys, and then a name selects too. A name alone is a property, braces
/// hold a pick, and brackets an array step.
pub proof fn what_chunks_stand_for(
    name: Seq<char>,
    body: Seq<char>,
    list: Seq<char>,
    inside: Seq<char>,
)
    requires
        grammar::is_name(name),
    ensures
        grammar::chunk_step(name) == Some(Step::Property(name)),
        grammar::chunk_step(name.push('^')) == Some(Step::PropertyKeys(Matcher::Contains(name))),
        grammar::chunk_step(seq!['*']) == Some(Step::PropertyValues(Matcher::Any)),
        grammar::chunk_step(seq!['*', '^']) == Some(Step::PropertyKeys(Matcher::Any)),
        grammar::chunk_step(seq!['/'] + body + seq!['/']) == match op::regex_language(body) {
            Some(texts) => Some(Step::PropertyValues(Matcher::Regex { source: body, texts })),
            None => None,
        },
        grammar::chunk_step(seq!['/'] + body + seq!['/', '^']) == match op::regex_language(body) {
            Some(texts) => Some(Step::PropertyKeys(Matcher::Regex { source: body, texts })),
            None => None,
        },
        grammar::chunk_step(seq!['{'] + list + seq!['}']) == match grammar::pick_entries(list) {
            Some(entries) => Some(Step::PropertyPick(entries)),
            None => None,
        },
        grammar::chunk_step(seq!['['] + inside + seq![']']) == grammar::array_step(
            seq!['['] + inside + seq![']'],
        ),
{
    lemma_name_chunks(name);
    lemma_selector_chunks(body);
    let braces = seq!['{'] + list + seq!['}'];
    assert(braces[0] == '{' && braces.last() == '}');
    assert(grammar::unwrapped(braces) =~= list);
    assert(!grammar::is_name_char(braces[0]));
    assert(!grammar::is_name(braces));
    assert(seq!['*'][0] == '*');
    let brackets = seq!['['] + inside + seq![']'];
    assert(brackets[0] == '[' && brackets.last() == ']');
    assert(!grammar::is_name_char(brackets[0]));
    assert(!grammar::is_name(brackets));
}

proof fn lemma_name_chunks(name: Seq<char>)
    requires
        grammar::is_name(name),
    ensures
        grammar::chunk_step(name) == Some(Step::Property(name)),
        grammar::chunk_step(name.push('^')) == Some(Step::PropertyKeys(Matcher::Contains(name))),
{
    assert(grammar::is_name_char(name[0]));
    assert(grammar::is_name_char(name[name.len() - 1]));
    assert(seq!['*'][0] == '*');
    let keys = name.push('^');
    assert(keys.drop_last() =~= name);
    assert(keys.last() == '^');
}

proof fn lemma_selector_chunks(body: Seq<char>)
    ensures
        grammar::chunk_step(seq!['*']) == Some(Step::PropertyValues(Matcher::Any)),
        grammar::chunk_step(seq!['*', '^']) == Some(Step::PropertyKeys(Matcher::Any)),
        grammar::chunk_step(seq!['/'] + body + seq!['/']) == match op::regex_language(body) {
            Some(texts) => Some(Step::PropertyValues(Matcher::Regex { source: body, texts })),
            None => None,
        },
        grammar::chunk_step(seq!['/'] + body + seq!['/', '^']) == match op::regex_language(body) {
            Some(texts) => Some(Step::PropertyKeys(Matcher::Regex { source: body, texts })),
            None => None,
        },
{
    assert(seq!['*'].last() == '*');
    assert(seq!['*', '^'].last() == '^');
    assert(seq!['*', '^'].drop_last() =~= seq!['*']);
    let values = seq!['/'] + body + seq!['/'];
    let keys = seq!['/'] + body + seq!['/', '^'];
    assert(values[0] == '/' && values.last() == '/');
    assert(grammar::unwrapped(values) =~= body);
    assert(seq!['*'][0] == '*');
    assert(keys.last() == '^');
    assert(keys.drop_last() =~= values);
}

/// A chunk that is read as a step is written as that step is: there is no other chunk for it.
pub proof fn what_a_chunk_can_be(chunk: Seq<char>)
    ensures
        match grammar::chunk_step(chunk) {
            Some(Step::Property(name)) => chunk == name && grammar::is_name(name),
            Some(Step::PropertyValues(Matcher::Any)) => chunk == seq!['*'],
            Some(Step::PropertyValues(Matcher::Regex { source, texts })) => chunk == seq!['/']
                + source + seq!['/'] && op::regex_language(source) == Some(texts),
            Some(Step::PropertyValues(Matcher::Contains(_))) => false,
            Some(Step::PropertyKeys(Matcher::Any)) => chunk == seq!['*', '^'],
            Some(Step::PropertyKeys(Matcher::Regex { source, texts })) => chunk == seq!['/']
                + source + seq!['/', '^'] && op::regex_language(source) == Some(texts),
            Some(Step::PropertyKeys(Matcher::Contains(name))) => chunk == name.push('^')
                && grammar::is_name(name),
            Some(Step::PropertyPick(entries)) => exists|list: Seq<char>|
                chunk == seq!['{'] + list + seq!['}'] && #[trigger] grammar::pick_entries(list)
                    == Some(entries),
            Some(Step::PropertyMap(_, _)) => false,
            Some(Step::Descend(_)) => false,
            Some(Step::DescendPaths(_)) => false,
            Some(step) => grammar::array_step(chunk) == Some(step),
            None => true,
        },
{
    if chunk.len() > 0 && chunk.last() == '^' {
        let text = chunk.drop_last();
        assert(chunk =~= text.push('^'));
        if text == seq!['*'] {
            assert(chunk =~= seq!['*', '^']);
        } else if grammar::is_wrapped(text, '/', '/') {
            assert(chunk =~= seq!['/'] + grammar::unwrapped(text) + seq!['/', '^']);
        }
    } else if grammar::is_wrapped(chunk, '/', '/') {
        assert(chunk =~= seq!['/'] + grammar::unwrapped(chunk) + seq!['/']);
    }
    if let Some(Step::PropertyPick(entries)) = grammar::chunk_step(chunk) {
        let list = grammar::unwrapped(chunk);
        assert(chunk =~= seq!['{'] + list + seq!['}']);
        assert(grammar::pick_entries(list) == Some(entries));
    }
    if let Some(step) = grammar::array_step(chunk) {
        assert(op::is_array(step));
    }
}

/// Where steps are literal, so are the steps inside them, and a regex that is a plain name selects
/// the keys that have the name in them. The regex `.*` selects every key.
pub proof fn what_literal_steps_select(
    steps: Seq<Step>,
    i: int,
    source: Seq<char>,
    texts: Set<Seq<char>>,
    inner: Seq<Step>,
    key: Seq<char>,
)
    requires
        grammar::are_literal(steps),
        0 <= i < steps.len(),
    ensures
        steps[i] == Step::PropertyMap(Matcher::Regex { source, texts }, inner)
            ==> grammar::are_literal(inner),
        steps[i] == Step::DescendPaths(inner) ==> grammar::are_literal(inner),
        steps[i] matches Step::Descend(step) ==> grammar::are_literal(seq![*step]),
        (steps[i] == Step::PropertyValues(Matcher::Regex { source, texts }) || steps[i]
            == Step::PropertyKeys(Matcher::Regex { source, texts }) || steps[i]
            == Step::PropertyMap(Matcher::Regex { source, texts }, inner)) && grammar::is_name(
            source,
        ) ==> (texts.contains(key) <==> text::contains(key, source)),
        (steps[i] == Step::PropertyValues(Matcher::Regex { source, texts }) || steps[i]
            == Step::PropertyKeys(Matcher::Regex { source, texts }) || steps[i]
            == Step::PropertyMap(Matcher::Regex { source, texts }, inner)) && source == seq![
            '.',
            '*',
        ] ==> texts.contains(key),
{
    let matcher = Matcher::Regex { source, texts };
    assert(grammar::is_literal_step(steps[i]));
    assert(op::matches_key(matcher, key) == texts.contains(key));
    if let Step::Descend(step) = steps[i] {
        assert(grammar::is_literal_step(*step));
        assert(seq![*step][0] == *step);
    }
}

/// `[]` stands for every element, and a number in brackets for the element there, if it fits in a
/// machine word.
pub proof fn what_brackets_stand_for(digits: Seq<char>)
    requires
        grammar::is_number(digits),
    ensures
        grammar::array_step(seq!['[', ']']) == Some(Step::Array),
        grammar::array_step(seq!['['] + digits + seq![']']) == if grammar::number(digits)
            <= usize::MAX {
            Some(Step::ArrayIndex(grammar::number(digits)))
        } else {
            None
        },
{
    let none = seq!['[', ']'];
    assert(grammar::unwrapped(none) =~= Seq::empty());
    let index = seq!['['] + digits + seq![']'];
    assert(index[0] == '[' && index[index.len() - 1] == ']');
    assert(grammar::unwrapped(index) =~= digits);
}

/// A bound of a slice is left out, or a number with or without a `-` before it that fits in a machine
/// word.
pub proof fn what_a_bound_is(text: Seq<char>, digits: Seq<char>)
    requires
        grammar::is_number(digits),
    ensures
        grammar::slice_bound(Seq::empty()) == Some(None::<int>),
        grammar::number(digits) <= isize::MAX ==> grammar::slice_bound(digits) == Some(
            Some(grammar::number(digits) as int),
        ),
        grammar::number(digits) > isize::MAX ==> grammar::slice_bound(digits) is None,
        -grammar::number(digits) >= isize::MIN ==> grammar::slice_bound(seq!['-'] + digits) == Some(
            Some(-grammar::number(digits)),
        ),
        -grammar::number(digits) < isize::MIN ==> grammar::slice_bound(seq!['-'] + digits) is None,
        grammar::slice_bound(text) is Some ==> text.len() == 0 || grammar::is_number(text) || (
        text[0] == '-' && grammar::is_number(text.skip(1))),
{
    let negative = seq!['-'] + digits;
    assert(negative[0] == '-');
    assert(negative.drop_first() =~= digits);
    assert(!grammar::is_number(negative));
    assert('0' <= digits[0] <= '9');
    if text.len() > 0 {
        assert(text.skip(1) =~= text.drop_first());
    }
}

/// Two bounds with a `:` between them, in brackets, are a slice.
pub proof fn what_a_slice_stands_for(first: Seq<char>, second: Seq<char>)
    requires
        forall|i: int| 0 <= i < first.len() ==> #[trigger] first[i] != ':',
    ensures
        grammar::array_step(seq!['['] + (first + seq![':'] + second) + seq![']']) == match (
            grammar::slice_bound(first),
            grammar::slice_bound(second),
        ) {
            (Some(start), Some(stop)) => Some(Step::ArraySlice { start, stop }),
            _ => None,
        },
{
    let inside = first + seq![':'] + second;
    let chunk = seq!['['] + inside + seq![']'];
    assert(chunk[0] == '[' && chunk[chunk.len() - 1] == ']');
    assert(grammar::unwrapped(chunk) =~= inside);
    let colon = first.len() as int;
    assert(inside[colon] == ':');
    assert(!grammar::is_number(inside));
    assert forall|i: int| 0 <= i < colon implies #[trigger] inside[i] != ':' by {
        assert(inside[i] == first[i]);
    }
    grammar::lemma_position_is(inside, ':', colon);
    assert(inside.take(colon) =~= first);
    assert(inside.skip(colon + 1) =~= second);
}

/// An array step is in brackets, and there is nothing in them, or a number, or two bounds with a `:`
/// between them.
pub proof fn what_an_array_step_can_be(chunk: Seq<char>)
    requires
        grammar::array_step(chunk) is Some,
    ensures
        exists|inside: Seq<char>|
            chunk == #[trigger] (seq!['['] + inside + seq![']']) && (inside.len() == 0
                || grammar::is_number(inside) || exists|colon: int|
                0 <= colon < inside.len() && #[trigger] inside[colon] == ':'
                    && grammar::slice_bound(inside.take(colon)) is Some && grammar::slice_bound(
                    inside.skip(colon + 1),
                ) is Some),
{
    let inside = grammar::unwrapped(chunk);
    assert(chunk =~= seq!['['] + inside + seq![']']);
    if inside.len() > 0 && !grammar::is_number(inside) {
        let colon = grammar::position(inside, ':') as int;
        syntax::lemma_position(inside, ':');
        assert(inside[colon] == ':');
    }
}

/// The steps of a query are the steps of its chunks, and an empty query has none.
pub proof fn a_query_is_read_by_its_chunks(query: Seq<char>)
    ensures
        query.len() == 0 ==> grammar::query_steps(query) == Some(Seq::<Step>::empty()),
        query.len() > 0 ==> grammar::query_steps(query) == match grammar::chunks(query) {
            Some(found) => grammar::chunks_steps(found),
            None => None,
        },
        grammar::chunks_steps(Seq::empty()) == Some(Seq::<Step>::empty()),
{
    assert(grammar::flat_steps(Seq::empty()) == Some(Seq::<Step>::empty()));
}

/// The step of a chunk comes before the steps of the chunks behind it, but a step that takes keys
/// holds them.
pub proof fn a_chunk_comes_before_the_chunks_behind_it(chunk: Seq<char>, rest: Seq<Seq<char>>)
    requires
        chunk != "**"@,
        chunk != "**^"@,
    ensures
        grammar::chunks_steps(seq![chunk] + rest) == match (
            grammar::chunk_step(chunk),
            grammar::chunks_steps(rest),
        ) {
            (Some(Step::PropertyKeys(matcher)), Some(steps)) => if rest.len() > 0 {
                Some(seq![Step::PropertyMap(matcher, steps)])
            } else {
                Some(seq![Step::PropertyKeys(matcher)])
            },
            (Some(step), Some(steps)) => Some(seq![step] + steps),
            _ => None,
        },
{
    let all = seq![chunk] + rest;
    assert(all[0] == chunk);
    assert(all.drop_first() =~= rest);
    what_a_chunk_can_be(chunk);
    if let (Some(step), Some(flat)) = (grammar::chunk_step(chunk), grammar::flat_steps(rest)) {
        syntax::lemma_flat(rest);
        let steps = seq![step] + flat;
        assert(steps[0] == step);
        assert(steps.drop_first() =~= flat);
        if rest.len() == 0 {
            assert(flat =~= Seq::empty());
            assert(grammar::nested(flat) =~= Seq::empty());
            assert(seq![step] + Seq::empty() =~= seq![step]);
        }
    }
}

/// `**` runs the object step behind it on every object. Anything else may not stand there, and a step
/// that takes keys holds the steps behind it there too.
pub proof fn descend_takes_the_chunk_behind_it(chunk: Seq<char>, rest: Seq<Seq<char>>)
    ensures
        grammar::chunks_steps(seq!["**"@]) is None,
        grammar::chunks_steps(seq!["**"@, chunk] + rest) == match (
            grammar::chunk_step(chunk),
            grammar::chunks_steps(rest),
        ) {
            (Some(Step::PropertyKeys(matcher)), Some(steps)) => if rest.len() > 0 {
                Some(seq![Step::Descend(Box::new(Step::PropertyMap(matcher, steps)))])
            } else {
                Some(seq![Step::Descend(Box::new(Step::PropertyKeys(matcher)))])
            },
            (Some(Step::Array), _) => None,
            (Some(Step::ArrayIndex(_)), _) => None,
            (Some(Step::ArraySlice { .. }), _) => None,
            (Some(step), Some(steps)) => Some(seq![Step::Descend(Box::new(step))] + steps),
            _ => None,
        },
{
    let all = seq!["**"@, chunk] + rest;
    let one = seq!["**"@];
    assert(one[0] == "**"@);
    assert(grammar::flat_steps(one) is None);
    assert(all[0] == "**"@);
    assert(all[1] == chunk);
    assert(all.skip(2) =~= rest);
    what_a_chunk_can_be(chunk);
    if let (Some(step), Some(flat)) = (grammar::chunk_step(chunk), grammar::flat_steps(rest)) {
        syntax::lemma_flat(rest);
        let first = Step::Descend(Box::new(step));
        let steps = seq![first] + flat;
        assert(steps[0] == first);
        assert(steps.drop_first() =~= flat);
        if op::is_object(step) {
            assert(grammar::flat_steps(all) == Some(steps));
        }
        if rest.len() == 0 {
            assert(flat =~= Seq::empty());
            assert(grammar::nested(flat) =~= Seq::empty());
            assert(seq![first] + Seq::empty() =~= seq![first]);
        }
    }
}

/// `**^` takes all the steps behind it. They must start with an object step, and a pick must be the
/// last of them.
pub proof fn prune_takes_the_chunks_behind_it(rest: Seq<Seq<char>>)
    ensures
        grammar::chunks_steps(seq!["**^"@] + rest) == match grammar::chunks_steps(rest) {
            Some(steps) => if steps.len() == 0 || steps[0] is Property || steps[0]
                is PropertyValues || steps[0] is PropertyKeys || steps[0] is PropertyMap || (
            steps[0] is PropertyPick && steps.len() == 1) {
                Some(seq![Step::DescendPaths(steps)])
            } else {
                None
            },
            None => None,
        },
{
    let all = seq!["**^"@] + rest;
    reveal_strlit("**");
    reveal_strlit("**^");
    assert("**"@.len() != "**^"@.len());
    assert(all[0] == "**^"@);
    assert(all.drop_first() =~= rest);
    if let Some(steps) = grammar::chunks_steps(rest) {
        if grammar::may_follow_paths(steps) {
            let paths = seq![Step::DescendPaths(steps)];
            assert(grammar::flat_steps(all) == Some(paths));
            grammar::lemma_nested_same(paths);
        }
    }
}

} // verus!
