//! Laws of the results that a query gives.

use crate::exec::ExecError;
use crate::grammar;
use crate::lemmas;
use crate::op;
use crate::op::{Entry, Matcher, Step};
use crate::semantics;
use crate::value;
use crate::value::Json;
use vstd::prelude::*;

verus! {

/// Whether one of `steps` can give several results for one value.
pub open spec fn any_fans_out(steps: Seq<Step>) -> bool {
    exists|i: int| 0 <= i < steps.len() && op::fans_out(#[trigger] steps[i])
}

/// Whether the results of the last of `steps` come after a fan-out.
pub open spec fn ends_after_fan_out(steps: Seq<Step>, fanned_out: bool) -> bool {
    steps.len() > 0 && (fanned_out || any_fans_out(steps.drop_last()) || steps.last() is Descend)
}

/// An empty query gives its input unchanged, and prints it as it is.
pub proof fn empty_query_gives_the_input(input: Json)
    ensures
        grammar::query_steps(Seq::empty()) == Some(Seq::<Step>::empty()),
        semantics::run(Seq::empty(), seq![input], false) == Ok::<Seq<Json>, ExecError>(
            seq![input],
        ),
        semantics::collected(Seq::empty(), seq![input]) == input,
{
}

/// A query that gives one result prints it on its own. One that gives several, or none, prints
/// them as an array, and so does one with a `[]` or a slice, however many results it gives.
pub proof fn only_a_single_result_prints_on_its_own(steps: Seq<Step>, results: Seq<Json>)
    ensures
        results.len() == 1 && !semantics::always_array(steps) ==> semantics::collected(
            steps,
            results,
        ) == results[0],
        results.len() != 1 || semantics::always_array(steps) ==> semantics::collected(
            steps,
            results,
        ) == Json::Array(results),
{
}

/// Running a query is running the first of its steps, and then the others on what those give. Where
/// the first end in a property after a fan-out, the others may not start with an array step, since
/// the property then keeps its arrays whole for it.
pub proof fn steps_run_in_turn(
    left: Seq<Step>,
    right: Seq<Step>,
    nodes: Seq<Json>,
    fanned_out: bool,
)
    requires
        right.len() > 0 && op::is_array(right[0]) && ends_after_fan_out(left, fanned_out)
            ==> !(semantics::inner_step(left.last()) is Property),
    ensures
        semantics::run(left + right, nodes, fanned_out) == match semantics::run(
            left,
            nodes,
            fanned_out,
        ) {
            Ok(between) => semantics::run(right, between, fanned_out || any_fans_out(left)),
            Err(error) => Err(error),
        },
    decreases left.len(),
{
    let all = left + right;
    if left.len() == 0 {
        assert(all =~= right);
    } else {
        let rest = left.drop_first();
        assert(all[0] == left[0]);
        assert(all.drop_first() =~= rest + right);
        match semantics::apply_all(left[0], nodes) {
            Ok(results) => {
                if left.len() > 1 {
                    assert(all[1] == left[1]);
                    assert(rest.last() == left.last());
                    assert(left.drop_last().drop_first() =~= rest.drop_last());
                    lemma_any_fans_out(left.drop_last());
                } else {
                    assert(left.last() == left[0]);
                    if right.len() > 0 {
                        assert(all[1] == right[0]);
                    }
                }
                assert(semantics::tidied(all, fanned_out, results) == semantics::tidied(
                    left,
                    fanned_out,
                    results,
                ));
                let fanned_out_next = fanned_out || op::fans_out(left[0]);
                steps_run_in_turn(
                    rest,
                    right,
                    semantics::tidied(left, fanned_out, results),
                    fanned_out_next,
                );
                lemma_any_fans_out(left);
            },
            Err(_) => {},
        }
    }
}

proof fn lemma_any_fans_out(steps: Seq<Step>)
    requires
        steps.len() > 0,
    ensures
        any_fans_out(steps) == (op::fans_out(steps[0]) || any_fans_out(steps.drop_first())),
{
    let rest = steps.drop_first();
    if any_fans_out(steps) {
        let i = choose|i: int| 0 <= i < steps.len() && op::fans_out(#[trigger] steps[i]);
        if i > 0 {
            assert(op::fans_out(rest[i - 1]));
        }
    }
    if any_fans_out(rest) {
        let i = choose|i: int| 0 <= i < rest.len() && op::fans_out(#[trigger] rest[i]);
        assert(op::fans_out(steps[i + 1]));
    }
}

/// Each step is applied to every value: what a query gives for some values and some more is what it
/// gives for the former and then what it gives for the latter. An error for any value fails the
/// whole query.
pub proof fn every_value_is_run_on_its_own(
    steps: Seq<Step>,
    some: Seq<Json>,
    more: Seq<Json>,
    fanned_out: bool,
)
    ensures
        match (
            semantics::run(steps, some, fanned_out),
            semantics::run(steps, more, fanned_out),
        ) {
            (Ok(left), Ok(right)) => semantics::run(steps, some + more, fanned_out) == Ok::<
                Seq<Json>,
                ExecError,
            >(left + right),
            _ => semantics::run(steps, some + more, fanned_out) is Err,
        },
    decreases steps.len(),
{
    if steps.len() > 0 {
        lemma_apply_all_add(steps[0], some, more);
        match (
            semantics::apply_all(steps[0], some),
            semantics::apply_all(steps[0], more),
        ) {
            (Ok(left), Ok(right)) => {
                lemma_tidied_add(steps, fanned_out, left, right);
                every_value_is_run_on_its_own(
                    steps.drop_first(),
                    semantics::tidied(steps, fanned_out, left),
                    semantics::tidied(steps, fanned_out, right),
                    fanned_out || op::fans_out(steps[0]),
                );
            },
            _ => {},
        }
    }
}

pub(crate) proof fn lemma_apply_all_add(step: Step, some: Seq<Json>, more: Seq<Json>)
    ensures
        match (semantics::apply_all(step, some), semantics::apply_all(step, more)) {
            (Ok(left), Ok(right)) => semantics::apply_all(step, some + more) == Ok::<
                Seq<Json>,
                ExecError,
            >(left + right),
            (Err(error), _) => semantics::apply_all(step, some + more) == Err::<
                Seq<Json>,
                ExecError,
            >(error),
            (Ok(_), Err(error)) => semantics::apply_all(step, some + more) == Err::<
                Seq<Json>,
                ExecError,
            >(error),
        },
    decreases more.len(),
{
    if more.len() == 0 {
        assert(some + more =~= some);
        if let Ok(left) = semantics::apply_all(step, some) {
            assert(left + Seq::empty() =~= left);
        }
    } else {
        let all = some + more;
        assert(all.drop_last() =~= some + more.drop_last());
        assert(all.last() == more.last());
        lemma_apply_all_add(step, some, more.drop_last());
        if let (Ok(left), Ok(right)) = (
            semantics::apply_all(step, some),
            semantics::apply_all(step, more.drop_last()),
        ) {
            if let Ok(results) = semantics::apply(step, more.last()) {
                assert((left + right) + results =~= left + (right + results));
            }
        }
    }
}

proof fn lemma_flattened_add(left: Seq<Json>, right: Seq<Json>)
    ensures
        semantics::flattened(left + right) == semantics::flattened(left) + semantics::flattened(
            right,
        ),
    decreases right.len(),
{
    if right.len() == 0 {
        assert(left + right =~= left);
        assert(semantics::flattened(left) + Seq::empty() =~= semantics::flattened(left));
    } else {
        let all = left + right;
        assert(all.drop_last() =~= left + right.drop_last());
        lemma_flattened_add(left, right.drop_last());
        let last = match right.last() {
            Json::Array(items) => items,
            other => seq![other],
        };
        assert((semantics::flattened(left) + semantics::flattened(right.drop_last())) + last
            =~= semantics::flattened(left) + (semantics::flattened(right.drop_last()) + last));
    }
}

pub(crate) proof fn lemma_tidied_add(
    steps: Seq<Step>,
    fanned_out: bool,
    left: Seq<Json>,
    right: Seq<Json>,
)
    ensures
        semantics::tidied(steps, fanned_out, left + right) == semantics::tidied(
            steps,
            fanned_out,
            left,
        ) + semantics::tidied(steps, fanned_out, right),
{
    broadcast use Seq::filter_distributes_over_add;

    lemma_flattened_add(left, right);
}

/// A missing link part-way along a path of names and indexes is no error: the path gives `null`.
pub proof fn a_path_from_null_gives_null(steps: Seq<Step>)
    requires
        forall|i: int|
            0 <= i < steps.len() ==> (#[trigger] steps[i] is Property || steps[i] is ArrayIndex),
    ensures
        semantics::run(steps, seq![Json::Null], false) == Ok::<Seq<Json>, ExecError>(
            seq![Json::Null],
        ),
    decreases steps.len(),
{
    if steps.len() > 0 {
        let rest = steps.drop_first();
        assert(steps[0] is Property || steps[0] is ArrayIndex);
        assert forall|i: int| 0 <= i < rest.len() implies (#[trigger] rest[i] is Property || rest[i]
            is ArrayIndex) by {
            assert(rest[i] == steps[i + 1]);
        }
        lemmas::lemma_apply_one(steps[0], Json::Null);
        a_path_from_null_gives_null(rest);
    }
}

/// A missing property is `null`, and so is a property of `null`.
pub proof fn a_missing_property_is_null(members: Seq<(Seq<char>, Json)>, name: Seq<char>)
    requires
        !value::has_key(members, name),
    ensures
        semantics::apply(Step::Property(name), Json::Object(members)) == Ok::<
            Seq<Json>,
            ExecError,
        >(seq![Json::Null]),
        semantics::apply(Step::Property(name), Json::Null) == Ok::<Seq<Json>, ExecError>(
            seq![Json::Null],
        ),
{
    value::lemma_key_index(members, name);
}

/// A pick builds an object with exactly the listed keys, in the order listed. Under each it holds
/// what the steps of the entry give for the value of its property.
pub proof fn a_pick_holds_the_listed_keys_in_order(
    entries: Seq<Entry>,
    members: Seq<(Seq<char>, Json)>,
)
    requires
        grammar::distinct_entries(entries),
        semantics::picked(entries, members) is Ok,
    ensures
        ({
            let built = semantics::picked(entries, members)->Ok_0;
            &&& built.len() == entries.len()
            &&& forall|i: int|
                0 <= i < entries.len() ==> {
                    let entry = #[trigger] entries[i];
                    let results = semantics::run(
                        entry.steps,
                        seq![semantics::property(members, entry.name)],
                        false,
                    );
                    &&& results is Ok
                    &&& built[i] == (entry.key, semantics::collected(entry.steps, results->Ok_0))
                }
        }),
    decreases entries.len(),
{
    if entries.len() > 0 {
        let before = entries.drop_last();
        let last = entries.last();
        assert(grammar::distinct_entries(before)) by {
            assert(before.is_prefix_of(entries));
            grammar::lemma_distinct_prefix(before, entries);
        }
        a_pick_holds_the_listed_keys_in_order(before, members);
        let done = semantics::picked(before, members)->Ok_0;
        if value::has_key(done, last.key) {
            let i = choose|i: int| 0 <= i < done.len() && (#[trigger] done[i]).0 == last.key;
            assert(before[i].key == done[i].0);
            assert(entries[i].key == entries[entries.len() - 1].key);
        }
        let results = semantics::run(
            last.steps,
            seq![semantics::property(members, last.name)],
            false,
        )->Ok_0;
        value::lemma_put_fresh(done, last.key, semantics::collected(last.steps, results));
        assert forall|i: int| 0 <= i < entries.len() implies {
            let entry = #[trigger] entries[i];
            let results = semantics::run(
                entry.steps,
                seq![semantics::property(members, entry.name)],
                false,
            );
            &&& results is Ok
            &&& semantics::picked(entries, members)->Ok_0[i] == (
                entry.key,
                semantics::collected(entry.steps, results->Ok_0),
            )
        } by {
            if i < before.len() {
                assert(before[i] == entries[i]);
            }
        }
    }
}

/// Picking from `null` is picking from an object without properties: what is listed by a path of
/// names and indexes is `null`.
pub proof fn a_pick_from_null_gives_nulls(entries: Seq<Entry>)
    requires
        grammar::distinct_entries(entries),
        forall|i: int, j: int|
            0 <= i < entries.len() && 0 <= j < entries[i].steps.len() ==> (
            #[trigger] entries[i].steps[j] is Property || entries[i].steps[j] is ArrayIndex),
    ensures
        semantics::apply(Step::PropertyPick(entries), Json::Null) == Ok::<Seq<Json>, ExecError>(
            seq![
                Json::Object(entries.map_values(|entry: Entry| (entry.key, Json::Null))),
            ],
        ),
    decreases entries.len(),
{
    let none = Seq::<(Seq<char>, Json)>::empty();
    lemma_pick_from_nothing(entries);
    a_pick_holds_the_listed_keys_in_order(entries, none);
    let built = semantics::picked(entries, none)->Ok_0;
    assert forall|i: int| 0 <= i < entries.len() implies #[trigger] built[i] == (
        entries[i].key,
        Json::Null,
    ) by {
        let entry = entries[i];
        assert forall|j: int| 0 <= j < entry.steps.len() implies (#[trigger] entry.steps[j]
            is Property || entry.steps[j] is ArrayIndex) by {
            assert(entries[i].steps[j] is Property || entries[i].steps[j] is ArrayIndex);
        }
        a_path_from_null_gives_null(entry.steps);
        assert(!semantics::always_array(entry.steps));
    }
    assert(built =~= entries.map_values(|entry: Entry| (entry.key, Json::Null)));
}

proof fn lemma_pick_from_nothing(entries: Seq<Entry>)
    requires
        forall|i: int, j: int|
            0 <= i < entries.len() && 0 <= j < entries[i].steps.len() ==> (
            #[trigger] entries[i].steps[j] is Property || entries[i].steps[j] is ArrayIndex),
    ensures
        semantics::picked(entries, Seq::empty()) is Ok,
    decreases entries.len(),
{
    if entries.len() > 0 {
        let before = entries.drop_last();
        let entry = entries.last();
        assert forall|i: int, j: int|
            0 <= i < before.len() && 0 <= j < before[i].steps.len() implies (
        #[trigger] before[i].steps[j] is Property || before[i].steps[j] is ArrayIndex) by {
            assert(entries[i].steps[j] is Property || entries[i].steps[j] is ArrayIndex);
        }
        lemma_pick_from_nothing(before);
        assert forall|j: int| 0 <= j < entry.steps.len() implies (#[trigger] entry.steps[j]
            is Property || entry.steps[j] is ArrayIndex) by {
            let last = entries.len() - 1;
            assert(entries[last].steps[j] is Property || entries[last].steps[j] is ArrayIndex);
        }
        a_path_from_null_gives_null(entry.steps);
    }
}

/// `*` gives the value of every property and `*^` every key, in the order of the document.
pub proof fn wildcards_give_everything_in_order(members: Seq<(Seq<char>, Json)>)
    ensures
        semantics::apply(Step::PropertyValues(Matcher::Any), Json::Object(members)) == Ok::<
            Seq<Json>,
            ExecError,
        >(semantics::values(members)),
        semantics::apply(Step::PropertyKeys(Matcher::Any), Json::Object(members)) == Ok::<
            Seq<Json>,
            ExecError,
        >(semantics::keys(members)),
{
    lemmas::lemma_filter_all(
        members,
        |member: (Seq<char>, Json)| op::matches_key(Matcher::Any, member.0),
    );
}

/// Steps that select the same keys give the same results, by whatever means they select them: `name^`
/// gives what `/name/^` gives.
pub proof fn selecting_the_same_keys_gives_the_same(
    left: Matcher,
    right: Matcher,
    steps: Seq<Step>,
    node: Json,
)
    requires
        forall|key: Seq<char>| #[trigger] op::matches_key(left, key) == op::matches_key(right, key),
    ensures
        selects_like(left, right, steps, node),
{
    if let Json::Object(members) = node {
        lemma_matching_same(left, right, members);
    }
}

/// `/name/` and `/name/^` select the keys that contain the name, as `name^` does, and `/.*/` and
/// `/.*/^` every key, as `*` and `*^` do. That their regexes are literal is what parsing gives.
pub proof fn literal_regexes_give_what_they_stand_for(
    source: Seq<char>,
    texts: Set<Seq<char>>,
    steps: Seq<Step>,
    node: Json,
)
    requires
        grammar::is_literal(Matcher::Regex { source, texts }),
    ensures
        grammar::is_name(source) ==> selects_like(
            Matcher::Regex { source, texts },
            Matcher::Contains(source),
            steps,
            node,
        ),
        source == seq!['.', '*'] ==> selects_like(
            Matcher::Regex { source, texts },
            Matcher::Any,
            steps,
            node,
        ),
{
    let matcher = Matcher::Regex { source, texts };
    if grammar::is_name(source) {
        selecting_the_same_keys_gives_the_same(matcher, Matcher::Contains(source), steps, node);
    }
    if source == seq!['.', '*'] {
        selecting_the_same_keys_gives_the_same(matcher, Matcher::Any, steps, node);
    }
}

/// Whether steps with `left` give for `node` what the same steps with `right` give.
pub open spec fn selects_like(left: Matcher, right: Matcher, steps: Seq<Step>, node: Json) -> bool {
    &&& semantics::apply(Step::PropertyValues(left), node) == semantics::apply(
        Step::PropertyValues(right),
        node,
    )
    &&& semantics::apply(Step::PropertyKeys(left), node) == semantics::apply(
        Step::PropertyKeys(right),
        node,
    )
    &&& semantics::apply(Step::PropertyMap(left, steps), node) == semantics::apply(
        Step::PropertyMap(right, steps),
        node,
    )
}

/// An object step gives the same, and fails in the same way, on an object and on what it reads of
/// the object. That has the keys that the step reads, in the order of the object.
pub proof fn a_step_needs_only_what_it_reads(step: Step, members: Seq<(Seq<char>, Json)>)
    requires
        op::is_object(step),
    ensures
        semantics::apply(step, Json::Object(semantics::read_by(step, members)))
            == semantics::apply(step, Json::Object(members)),
        semantics::given_before_error(step, Json::Object(semantics::read_by(step, members)))
            == semantics::given_before_error(step, Json::Object(members)),
        semantics::keys(semantics::read_by(step, members)) == semantics::keys(
            members.filter(|member: (Seq<char>, Json)| semantics::reads(step, member.0)),
        ),
{
    lemmas::lemma_read_by(step, members);
    assert(semantics::keys(semantics::read_by(step, members)) =~= semantics::keys(
        members.filter(|member: (Seq<char>, Json)| semantics::reads(step, member.0)),
    ));
}

/// A step that fails has given nothing, unless it is `**`, which has given what it found before.
pub proof fn only_descending_gives_something_before_it_fails(step: Step, node: Json)
    requires
        !(step is Descend),
    ensures
        semantics::given_before_error(step, node) == Seq::<Json>::empty(),
{
}

proof fn lemma_matching_same(left: Matcher, right: Matcher, members: Seq<(Seq<char>, Json)>)
    requires
        forall|key: Seq<char>| #[trigger] op::matches_key(left, key) == op::matches_key(right, key),
    ensures
        semantics::matching(left, members) == semantics::matching(right, members),
    decreases members.len(),
{
    if members.len() == 0 {
        reveal(Seq::filter);
    } else {
        let before = members.drop_last();
        let last = members.last();
        lemma_matching_same(left, right, before);
        assert(members =~= before.push(last));
        lemmas::lemma_matching_push(left, before, last);
        lemmas::lemma_matching_push(right, before, last);
        assert(op::matches_key(left, last.0) == op::matches_key(right, last.0));
    }
}

/// A keys step with steps after it gives one object for one object. It has exactly the keys that
/// match, in order, and under each what the steps give for the old value.
pub proof fn a_mapped_object_keeps_the_matching_keys(
    matcher: Matcher,
    steps: Seq<Step>,
    members: Seq<(Seq<char>, Json)>,
)
    ensures
        match semantics::apply(Step::PropertyMap(matcher, steps), Json::Object(members)) {
            Ok(results) => {
                let kept = semantics::matching(matcher, members);
                &&& results.len() == 1
                &&& results[0] matches Json::Object(built)
                &&& built.len() == kept.len()
                &&& forall|i: int|
                    0 <= i < kept.len() ==> {
                        let values = semantics::run(steps, seq![(#[trigger] kept[i]).1], false);
                        &&& values is Ok
                        &&& built[i] == (
                            kept[i].0,
                            semantics::mapped_value(steps, values->Ok_0),
                        )
                    }
            },
            Err(_) => true,
        },
{
    let kept = semantics::matching(matcher, members);
    if semantics::mapped(steps, kept) is Ok {
        lemma_mapped_pointwise(steps, kept);
    }
}

proof fn lemma_mapped_pointwise(steps: Seq<Step>, kept: Seq<(Seq<char>, Json)>)
    requires
        semantics::mapped(steps, kept) is Ok,
    ensures
        semantics::mapped(steps, kept)->Ok_0.len() == kept.len(),
        forall|i: int|
            0 <= i < kept.len() ==> {
                let values = semantics::run(steps, seq![(#[trigger] kept[i]).1], false);
                &&& values is Ok
                &&& semantics::mapped(steps, kept)->Ok_0[i] == (
                    kept[i].0,
                    semantics::mapped_value(steps, values->Ok_0),
                )
            },
    decreases kept.len(),
{
    if kept.len() > 0 {
        let before = kept.drop_last();
        lemma_mapped_pointwise(steps, before);
        assert forall|i: int| 0 <= i < kept.len() implies {
            let values = semantics::run(steps, seq![(#[trigger] kept[i]).1], false);
            &&& values is Ok
            &&& semantics::mapped(steps, kept)->Ok_0[i] == (
                kept[i].0,
                semantics::mapped_value(steps, values->Ok_0),
            )
        } by {
            if i < before.len() {
                assert(before[i] == kept[i]);
            }
        }
    }
}

/// Before any fan-out, nothing is left out or flattened: one step gives what it gives for each
/// value.
pub proof fn nothing_is_left_out_before_a_fan_out(step: Step, nodes: Seq<Json>)
    requires
        !(step is Descend),
    ensures
        semantics::run(seq![step], nodes, false) == semantics::apply_all(step, nodes),
{
    let steps = seq![step];
    if let Ok(results) = semantics::apply_all(step, nodes) {
        assert(steps.drop_first() =~= Seq::empty());
        assert(semantics::run(steps.drop_first(), results, op::fans_out(step)) == Ok::<
            Seq<Json>,
            ExecError,
        >(results));
    }
}

/// After a fan-out, no result is `null`, and no result of a step that builds objects is an empty
/// one.
pub proof fn nulls_are_left_out_after_a_fan_out(
    steps: Seq<Step>,
    nodes: Seq<Json>,
    fanned_out: bool,
)
    requires
        ends_after_fan_out(steps, fanned_out),
        semantics::run(steps, nodes, fanned_out) is Ok,
    ensures
        forall|i: int|
            0 <= i < semantics::run(steps, nodes, fanned_out)->Ok_0.len() ==> !(
            #[trigger] semantics::run(steps, nodes, fanned_out)->Ok_0[i] is Null),
        semantics::inner_step(steps.last()) is PropertyMap || semantics::inner_step(
            steps.last(),
        ) is DescendPaths ==> forall|i: int|
            0 <= i < semantics::run(steps, nodes, fanned_out)->Ok_0.len() ==> #[trigger]
            semantics::run(steps, nodes, fanned_out)->Ok_0[i] != Json::Object(Seq::empty()),
    decreases steps.len(),
{
    broadcast use Seq::lemma_filter_pred;

    let results = semantics::apply_all(steps[0], nodes)->Ok_0;
    let kept = semantics::tidied(steps, fanned_out, results);
    let rest = steps.drop_first();
    let fanned_out_next = fanned_out || op::fans_out(steps[0]);
    if steps.len() == 1 {
        assert(steps.drop_last() =~= Seq::empty());
        assert(steps.last() == steps[0]);
        assert(rest =~= Seq::empty());
        assert(semantics::run(rest, kept, fanned_out_next) == Ok::<Seq<Json>, ExecError>(kept));
        let spread = if semantics::flattens(steps) {
            semantics::flattened(results)
        } else {
            results
        };
        let some = semantics::non_null(spread);
        assert forall|i: int| 0 <= i < kept.len() implies !(#[trigger] kept[i] is Null) by {
            if kept == semantics::non_empty(some) {
                let keep = |result: Json| result != Json::Object(Seq::empty());
                assert(some.filter(keep).contains(kept[i]));
                some.lemma_filter_contains_rev(keep, kept[i]);
            } else {
                assert(some.contains(kept[i]));
            }
            let j = choose|j: int| 0 <= j < some.len() && some[j] == kept[i];
            assert(!(some[j] is Null));
        }
    } else {
        assert(rest.last() == steps.last());
        assert(steps.drop_last().drop_first() =~= rest.drop_last());
        lemma_any_fans_out(steps.drop_last());
        assert(ends_after_fan_out(rest, fanned_out_next));
        nulls_are_left_out_after_a_fan_out(rest, kept, fanned_out_next);
    }
}

/// After a fan-out, a property that holds an array gives its elements, so `*.name` gives what
/// `*.name[]` gives, wherever that is no error.
pub proof fn a_property_gives_elements_after_a_fan_out(
    before: Seq<Step>,
    name: Seq<char>,
    nodes: Seq<Json>,
)
    requires
        any_fans_out(before),
        semantics::run(before + seq![Step::Property(name), Step::Array], nodes, false) is Ok,
    ensures
        semantics::run(before + seq![Step::Property(name)], nodes, false) == semantics::run(
            before + seq![Step::Property(name), Step::Array],
            nodes,
            false,
        ),
{
    let whole = seq![Step::Property(name), Step::Array];
    let alone = seq![Step::Property(name)];
    steps_run_in_turn(before, whole, nodes, false);
    steps_run_in_turn(before, alone, nodes, false);
    let between = semantics::run(before, nodes, false)->Ok_0;
    let results = semantics::apply_all(Step::Property(name), between)->Ok_0;
    let kept = semantics::non_null(results);
    assert(whole[1] == Step::Array);
    assert(semantics::tidied(whole, true, results) == kept);
    assert(whole.drop_first() =~= seq![Step::Array]);
    let elements = semantics::apply_all(Step::Array, kept)->Ok_0;
    lemma_elements(kept);
    assert(seq![Step::Array].drop_first() =~= Seq::empty());
    assert(semantics::run(seq![Step::Array], kept, true) == Ok::<Seq<Json>, ExecError>(
        semantics::non_null(elements),
    )) by {
        assert(semantics::tidied(seq![Step::Array], true, elements) == semantics::non_null(
            elements,
        ));
        reveal_with_fuel(semantics::run, 2);
    }
    lemma_flattened_nulls(results);
    assert(alone.drop_first() =~= Seq::empty());
    assert(semantics::tidied(alone, true, results) == semantics::non_null(
        semantics::flattened(results),
    ));
    assert(semantics::run(alone, between, true) == Ok::<Seq<Json>, ExecError>(
        semantics::non_null(semantics::flattened(results)),
    )) by {
        reveal_with_fuel(semantics::run, 2);
    }
    assert(semantics::run(whole, between, true) == semantics::run(seq![Step::Array], kept, true));
}

/// The elements of arrays are what flattening gives for them.
proof fn lemma_elements(nodes: Seq<Json>)
    requires
        semantics::apply_all(Step::Array, nodes) is Ok,
        forall|i: int| 0 <= i < nodes.len() ==> !(#[trigger] nodes[i] is Null),
    ensures
        semantics::apply_all(Step::Array, nodes)->Ok_0 == semantics::flattened(nodes),
    decreases nodes.len(),
{
    if nodes.len() > 0 {
        let before = nodes.drop_last();
        assert forall|i: int| 0 <= i < before.len() implies !(#[trigger] before[i] is Null) by {
            assert(before[i] == nodes[i]);
        }
        lemma_elements(before);
        assert(!(nodes[nodes.len() - 1] is Null));
        assert(semantics::apply(Step::Array, nodes.last()) is Ok);
    }
}

/// It is the same to leave out `null` before flattening or after it, or both.
proof fn lemma_flattened_nulls(results: Seq<Json>)
    ensures
        semantics::non_null(semantics::flattened(semantics::non_null(results)))
            == semantics::non_null(semantics::flattened(results)),
        forall|i: int|
            0 <= i < semantics::non_null(results).len() ==> !(#[trigger] semantics::non_null(
                results,
            )[i] is Null),
    decreases results.len(),
{
    broadcast use Seq::filter_distributes_over_add;
    broadcast use Seq::lemma_filter_pred;

    let keep = |result: Json| result !is Null;
    if results.len() == 0 {
        reveal(Seq::filter);
        assert(semantics::non_null(results) =~= results);
    } else {
        let before = results.drop_last();
        let last = results.last();
        lemma_flattened_nulls(before);
        assert(results =~= before.push(last));
        lemmas::lemma_filter_push(before, last, keep);
        if last is Null {
            assert(seq![last] =~= Seq::empty().push(last));
            lemmas::lemma_filter_push(Seq::empty(), last, keep);
            assert(Seq::<Json>::empty().filter(keep) == Seq::<Json>::empty()) by {
                reveal(Seq::filter);
            }
            assert(semantics::non_null(semantics::flattened(before)) + Seq::empty()
                =~= semantics::non_null(semantics::flattened(before)));
        } else {
            let kept = semantics::non_null(before);
            assert(kept.push(last).drop_last() =~= kept);
        }
    }
}

} // verus!
