//! Laws of what steps give after a fan-out.

use crate::exec::ExecError;
use crate::laws::paths;
use crate::laws::results;
use crate::lemmas;
use crate::op;
use crate::op::Step;
use crate::semantics;
use crate::value::Json;
use vstd::prelude::*;

verus! {

/// Once a step has given several results, the steps after it work across all of them: after `*` and
/// `/regex/`, after the keys steps with no steps in them, after `**`, `[]` and a slice. After any
/// other step they start as before it. This holds of every step but a property whose arrays are kept
/// whole for the array step behind it.
pub proof fn these_steps_fan_out(
    step: Step,
    rest: Seq<Step>,
    nodes: Seq<Json>,
    fanned_out: bool,
)
    requires
        rest.len() > 0 && (rest[0] is Array || rest[0] is ArrayIndex || rest[0] is ArraySlice)
            ==> !(step is Property && fanned_out) && !(step is Descend && *step->Descend_0
            is Property),
    ensures
        semantics::run(seq![step] + rest, nodes, fanned_out) == match semantics::run(
            seq![step],
            nodes,
            fanned_out,
        ) {
            Ok(between) => semantics::run(
                rest,
                between,
                fanned_out || match step {
                    Step::PropertyValues(_) => true,
                    Step::PropertyKeys(_) => true,
                    Step::Descend(_) => true,
                    Step::Array => true,
                    Step::ArraySlice { .. } => true,
                    Step::Property(_) => false,
                    Step::PropertyPick(_) => false,
                    Step::PropertyMap(_, _) => false,
                    Step::DescendPaths(_) => false,
                    Step::ArrayIndex(_) => false,
                },
            ),
            Err(error) => Err(error),
        },
{
    let steps = seq![step];
    assert(steps[0] == step);
    assert(steps.drop_last() =~= Seq::empty());
    assert(!results::any_fans_out(Seq::empty()));
    assert(steps.last() == step);
    results::steps_run_in_turn(steps, rest, nodes, fanned_out);
    assert(results::any_fans_out(steps) == op::fans_out(step)) by {
        if op::fans_out(step) {
            assert(op::fans_out(steps[0]));
        }
    }
}

/// On several values, a step gives what it gives for each of them, one behind the other, or else the
/// error of the first on which it fails.
pub proof fn a_step_goes_value_by_value(step: Step, some: Seq<Json>, more: Seq<Json>, node: Json)
    ensures
        semantics::apply_all(step, Seq::empty()) == Ok::<Seq<Json>, ExecError>(Seq::empty()),
        semantics::apply_all(step, seq![node]) == semantics::apply(step, node),
        semantics::apply_all(step, some + more) == match (
            semantics::apply_all(step, some),
            semantics::apply_all(step, more),
        ) {
            (Ok(left), Ok(right)) => Ok(left + right),
            (Err(error), _) => Err(error),
            (_, Err(error)) => Err(error),
        },
{
    lemmas::lemma_apply_one(step, node);
    results::lemma_apply_all_add(step, some, more);
    assert(semantics::apply_all(step, Seq::empty()) == Ok::<Seq<Json>, ExecError>(Seq::empty()));
}

/// One step on its own, before any fan-out, gives for one value what it gives for it, and nothing is
/// left out.
pub proof fn a_step_on_one_value(step: Step, node: Json)
    requires
        !(step is Descend),
    ensures
        semantics::run(seq![step], seq![node], false) == semantics::apply(step, node),
{
    results::nothing_is_left_out_before_a_fan_out(step, seq![node]);
    lemmas::lemma_apply_one(step, node);
}

/// The error of a step on several values is the one for the first of the values on which it fails.
pub proof fn the_first_error_counts(
    step: Step,
    some: Seq<Json>,
    more: Seq<Json>,
    fanned_out: bool,
    error: ExecError,
)
    ensures
        semantics::run(seq![step], some, fanned_out) == Err::<Seq<Json>, ExecError>(error)
            ==> semantics::run(seq![step], some + more, fanned_out) == Err::<Seq<Json>, ExecError>(
            error,
        ),
        semantics::run(seq![step], some, fanned_out) is Ok && semantics::run(
            seq![step],
            more,
            fanned_out,
        ) == Err::<Seq<Json>, ExecError>(error) ==> semantics::run(
            seq![step],
            some + more,
            fanned_out,
        ) == Err::<Seq<Json>, ExecError>(error),
{
    results::lemma_apply_all_add(step, some, more);
    lemma_run_one_step(step, some, fanned_out);
    lemma_run_one_step(step, more, fanned_out);
    lemma_run_one_step(step, some + more, fanned_out);
}

/// Running one step.
proof fn lemma_run_one_step(step: Step, nodes: Seq<Json>, fanned_out: bool)
    ensures
        semantics::run(seq![step], nodes, fanned_out) == match semantics::apply_all(step, nodes) {
            Ok(results) => Ok(semantics::tidied(seq![step], fanned_out, results)),
            Err(error) => Err(error),
        },
{
    let steps = seq![step];
    assert(steps[0] == step);
    assert(steps.drop_first() =~= Seq::empty());
    if let Ok(results) = semantics::apply_all(step, nodes) {
        let kept = semantics::tidied(steps, fanned_out, results);
        assert(semantics::run(steps.drop_first(), kept, fanned_out || op::fans_out(step)) == Ok::<
            Seq<Json>,
            ExecError,
        >(kept));
    }
}

/// After a fan-out, every result of a step that is not `null` is there, as often and in the same
/// order as it would be before one, and no other.
pub proof fn only_nulls_are_left_out(step: Step, nodes: Seq<Json>, results: Seq<Json>)
    requires
        !(step is Property) && !(step is PropertyMap) && !(step is DescendPaths) && !(step
            is Descend),
        semantics::run(seq![step], nodes, false) == Ok::<Seq<Json>, ExecError>(results),
    ensures
        semantics::run(seq![step], nodes, true) == Ok::<Seq<Json>, ExecError>(
            results.filter(|result: Json| result != Json::Null),
        ),
{
    lemma_run_one_step(step, nodes, false);
    lemma_run_one_step(step, nodes, true);
    lemmas::lemma_filter_same(
        results,
        |result: Json| result !is Null,
        |result: Json| result != Json::Null,
    );
}

/// After a fan-out, a step that builds objects leaves out those that are empty, and no others.
pub proof fn only_empty_objects_are_left_out(step: Step, nodes: Seq<Json>, results: Seq<Json>)
    requires
        step is PropertyMap || step is DescendPaths,
        semantics::run(seq![step], nodes, false) == Ok::<Seq<Json>, ExecError>(results),
    ensures
        semantics::run(seq![step], nodes, true) == Ok::<Seq<Json>, ExecError>(
            results.filter(
                |result: Json| result != Json::Null && result != Json::Object(Seq::empty()),
            ),
        ),
{
    lemma_run_one_step(step, nodes, false);
    lemma_run_one_step(step, nodes, true);
    lemmas::lemma_filter_filter(
        results,
        |result: Json| result !is Null,
        |result: Json| result != Json::Object(Seq::empty()),
        |result: Json| result != Json::Null && result != Json::Object(Seq::empty()),
    );
}

/// After a fan-out, a property gives its value. It gives nothing where the value is `null`, and
/// where the value is an array the elements of the array that are not `null`, one level deep.
pub proof fn a_property_after_a_fan_out(name: Seq<char>, node: Json, value: Json)
    requires
        semantics::apply(Step::Property(name), node) == Ok::<Seq<Json>, ExecError>(seq![value]),
    ensures
        semantics::run(seq![Step::Property(name)], seq![node], true) == Ok::<Seq<Json>, ExecError>(
            match value {
                Json::Null => Seq::empty(),
                Json::Array(items) => items.filter(|item: Json| item != Json::Null),
                other => seq![other],
            },
        ),
{
    let step = Step::Property(name);
    let results = seq![value];
    lemma_run_one_step(step, seq![node], true);
    lemmas::lemma_apply_one(step, node);
    assert(results.drop_last() =~= Seq::empty());
    assert(results.last() == value);
    assert(semantics::flattened(Seq::empty()) == Seq::<Json>::empty());
    match value {
        Json::Array(items) => {
            assert(semantics::flattened(results) =~= items);
            lemmas::lemma_filter_same(
                items,
                |result: Json| result !is Null,
                |item: Json| item != Json::Null,
            );
        },
        other => {
            assert(semantics::flattened(results) =~= results);
            lemmas::lemma_filter_push(Seq::empty(), other, |result: Json| result !is Null);
            assert(Seq::empty().push(other) =~= results);
            assert(Seq::<Json>::empty().filter(|result: Json| result !is Null) =~= Seq::empty())
                by {
                reveal(Seq::filter);
            }
        },
    }
}

/// After a fan-out, where the values of a property are neither `null` nor arrays, the results are
/// exactly those values.
pub proof fn plain_properties_after_a_fan_out(
    name: Seq<char>,
    nodes: Seq<Json>,
    results: Seq<Json>,
)
    requires
        semantics::run(seq![Step::Property(name)], nodes, false) == Ok::<Seq<Json>, ExecError>(
            results,
        ),
        forall|i: int|
            0 <= i < results.len() ==> !(#[trigger] results[i] is Null) && !(results[i] is Array),
    ensures
        semantics::run(seq![Step::Property(name)], nodes, true) == Ok::<Seq<Json>, ExecError>(
            results,
        ),
{
    let step = Step::Property(name);
    lemma_run_one_step(step, nodes, false);
    lemma_run_one_step(step, nodes, true);
    lemma_flattened_plain(results);
    lemmas::lemma_filter_all(results, |result: Json| result !is Null);
}

proof fn lemma_flattened_plain(results: Seq<Json>)
    requires
        forall|i: int| 0 <= i < results.len() ==> !(#[trigger] results[i] is Array),
    ensures
        semantics::flattened(results) == results,
    decreases results.len(),
{
    if results.len() > 0 {
        let before = results.drop_last();
        assert forall|i: int| 0 <= i < before.len() implies !(#[trigger] before[i] is Array) by {
            assert(before[i] == results[i]);
        }
        lemma_flattened_plain(before);
        assert(!(results[results.len() - 1] is Array));
        assert(before + seq![results.last()] =~= results);
    } else {
        assert(results =~= Seq::empty());
    }
}

/// When an array step follows a property after a fan-out, the array is kept whole for it, and only
/// `null` is left out before it.
pub proof fn arrays_are_kept_whole_for_an_array_step(
    step: Step,
    rest: Seq<Step>,
    nodes: Seq<Json>,
    fanned_out: bool,
)
    requires
        step is Property && fanned_out || step is Descend && *step->Descend_0 is Property,
        rest.len() > 0,
        rest[0] is Array || rest[0] is ArrayIndex || rest[0] is ArraySlice,
    ensures
        semantics::run(seq![step] + rest, nodes, fanned_out) == match semantics::apply_all(
            step,
            nodes,
        ) {
            Ok(results) => semantics::run(
                rest,
                results.filter(|result: Json| result != Json::Null),
                true,
            ),
            Err(error) => Err(error),
        },
{
    let all = seq![step] + rest;
    assert(all[0] == step);
    assert(all[1] == rest[0]);
    assert(all.drop_first() =~= rest);
    assert(fanned_out || op::fans_out(step));
    if let Ok(results) = semantics::apply_all(step, nodes) {
        lemmas::lemma_filter_same(
            results,
            |result: Json| result !is Null,
            |result: Json| result != Json::Null,
        );
        assert(semantics::tidied(all, fanned_out, results) == semantics::non_null(results));
    }
}

/// `**` is a fan-out for the step inside it: on an object it gives what the step gives for the
/// object after a fan-out, and then what `**` gives for the value of each property. On an array it
/// gives what it gives for each element, and on anything else nothing. A step that does not work on
/// objects sees an empty object.
pub proof fn descending_is_a_fan_out(
    step: Step,
    members: Seq<(Seq<char>, Json)>,
    items: Seq<Json>,
    scalar: Json,
    fanned_out: bool,
)
    requires
        !(step is Descend),
        !(scalar is Object) && !(scalar is Array),
    ensures
        semantics::run(seq![Step::Descend(Box::new(step))], seq![Json::Object(members)], fanned_out)
            == match (
            semantics::run(
                seq![step],
                seq![
                    if step is Property || step is PropertyPick || step is PropertyValues || step
                        is PropertyKeys || step is PropertyMap {
                        Json::Object(members)
                    } else {
                        Json::Object(Seq::empty())
                    },
                ],
                true,
            ),
            semantics::run(
                seq![Step::Descend(Box::new(step))],
                members.map_values(|member: (Seq<char>, Json)| member.1),
                fanned_out,
            ),
        ) {
            (Ok(own), Ok(inner)) => Ok::<Seq<Json>, ExecError>(own + inner),
            (Err(error), _) => Err(error),
            (_, Err(error)) => Err(error),
        },
        semantics::run(seq![Step::Descend(Box::new(step))], seq![Json::Array(items)], fanned_out)
            == semantics::run(seq![Step::Descend(Box::new(step))], items, fanned_out),
        semantics::run(seq![Step::Descend(Box::new(step))], seq![scalar], fanned_out) == Ok::<
            Seq<Json>,
            ExecError,
        >(Seq::empty()),
        semantics::run(seq![Step::Descend(Box::new(step))], Seq::empty(), fanned_out) == Ok::<
            Seq<Json>,
            ExecError,
        >(Seq::empty()),
{
    let descend = Step::Descend(Box::new(step));
    let object = Json::Object(members);
    let array = Json::Array(items);
    let values = semantics::values(members);
    assert(values =~= members.map_values(|member: (Seq<char>, Json)| member.1));
    let own = if op::is_object(step) {
        paths::descending_an_object_gives_its_own_results_first(step, members);
        object
    } else {
        paths::descending_with_another_step(step, members);
        Json::Object(Seq::empty())
    };
    paths::descending_an_array_gives_the_results_of_its_elements(step, items);
    paths::descending_a_value_without_objects_gives_nothing(step, scalar);
    lemmas::lemma_apply_one(descend, object);
    lemmas::lemma_apply_one(descend, array);
    lemmas::lemma_apply_one(descend, scalar);
    lemmas::lemma_apply_one(step, own);
    lemma_run_one_step(descend, seq![object], fanned_out);
    lemma_run_one_step(descend, seq![array], fanned_out);
    lemma_run_one_step(descend, seq![scalar], fanned_out);
    lemma_run_one_step(descend, Seq::empty(), fanned_out);
    lemma_run_one_step(descend, values, fanned_out);
    lemma_run_one_step(descend, items, fanned_out);
    lemma_run_one_step(step, seq![own], true);
    assert(semantics::apply_all(descend, Seq::empty()) == Ok::<Seq<Json>, ExecError>(Seq::empty()));
    lemma_tidied_nothing(descend, fanned_out);
    if let (Ok(first), Ok(inner)) = (
        semantics::apply(step, own),
        semantics::apply_all(descend, values),
    ) {
        results::lemma_tidied_add(seq![descend], fanned_out, first, inner);
        assert(semantics::tidied(seq![descend], fanned_out, first) == semantics::tidied(
            seq![step],
            true,
            first,
        ));
    }
}

/// Of what `**` gives, only `null` is left out, unless the step inside it is a property or builds
/// objects.
pub proof fn descending_leaves_out_nulls(step: Step, nodes: Seq<Json>, fanned_out: bool)
    requires
        !(step is Property) && !(step is PropertyMap) && !(step is DescendPaths),
    ensures
        semantics::run(seq![Step::Descend(Box::new(step))], nodes, fanned_out) == match
            semantics::apply_all(Step::Descend(Box::new(step)), nodes) {
            Ok(results) => Ok(results.filter(|result: Json| result != Json::Null)),
            Err(error) => Err(error),
        },
{
    let descend = Step::Descend(Box::new(step));
    lemma_run_one_step(descend, nodes, fanned_out);
    if let Ok(results) = semantics::apply_all(descend, nodes) {
        lemmas::lemma_filter_same(
            results,
            |result: Json| result !is Null,
            |result: Json| result != Json::Null,
        );
    }
}

proof fn lemma_tidied_nothing(step: Step, fanned_out: bool)
    ensures
        semantics::tidied(seq![step], fanned_out, Seq::empty()) == Seq::<Json>::empty(),
{
    let none = Seq::<Json>::empty();
    assert(semantics::flattened(none) == none);
    assert(semantics::non_null(none) =~= none && semantics::non_empty(none) =~= none) by {
        reveal(Seq::filter);
    }
}

} // verus!
