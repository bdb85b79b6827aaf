//! Laws of the array steps, and of what each step can be applied to.

use crate::exec::ExecError;
use crate::op;
use crate::op::Step;
use crate::semantics;
use crate::value::Json;
use vstd::prelude::*;

verus! {

/// A slice lies inside the array, and never runs backwards.
pub proof fn a_slice_lies_in_the_array(len: nat, start: Option<int>, stop: Option<int>)
    ensures
        0 <= semantics::slice_start(len, start) <= semantics::slice_stop(len, start, stop) <= len,
{
}

/// A bound that is not negative counts from the start of an array, and a negative one from its end.
/// A bound past either end is moved to that end.
pub proof fn negative_bounds_count_from_the_end(len: nat, bound: int)
    ensures
        0 <= bound <= len ==> semantics::slice_bound(len, bound) == bound,
        bound > len ==> semantics::slice_bound(len, bound) == len,
        -len <= bound < 0 ==> semantics::slice_bound(len, bound) == len + bound,
        bound < -len ==> semantics::slice_bound(len, bound) == 0,
{
}

/// `[n]` gives the one element that `[n:n+1]` gives. Past the end, the index gives `null`, and the
/// slice gives nothing.
pub proof fn an_index_gives_the_element_of_a_slice(items: Seq<Json>, n: nat)
    ensures
        semantics::apply(
            Step::ArraySlice { start: Some(n as int), stop: Some(n as int + 1) },
            Json::Array(items),
        ) == Ok::<Seq<Json>, ExecError>(
            if n < items.len() {
                seq![items[n as int]]
            } else {
                Seq::empty()
            },
        ),
        semantics::apply(Step::ArrayIndex(n), Json::Array(items)) == Ok::<Seq<Json>, ExecError>(
            if n < items.len() {
                seq![items[n as int]]
            } else {
                seq![Json::Null]
            },
        ),
{
    let start = semantics::slice_start(items.len(), Some(n as int));
    let stop = semantics::slice_stop(items.len(), Some(n as int), Some(n as int + 1));
    if n < items.len() {
        assert(items.subrange(start, stop) =~= seq![items[n as int]]);
    } else {
        assert(items.subrange(start, stop) =~= Seq::empty());
    }
}

/// `[-1:]` gives the last element, or nothing if the array is empty.
pub proof fn the_last_slice_gives_the_last_element(items: Seq<Json>)
    ensures
        semantics::apply(Step::ArraySlice { start: Some(-1), stop: None }, Json::Array(items))
            == Ok::<Seq<Json>, ExecError>(
            if items.len() > 0 {
                seq![items.last()]
            } else {
                Seq::empty()
            },
        ),
{
    let start = semantics::slice_start(items.len(), Some(-1));
    let stop = semantics::slice_stop(items.len(), Some(-1), None);
    if items.len() > 0 {
        assert(items.subrange(start, stop) =~= seq![items.last()]);
    } else {
        assert(items.subrange(start, stop) =~= Seq::empty());
    }
}

/// A slice up to a bound and a slice from that bound together give every element once, in order.
pub proof fn two_slices_make_the_whole(items: Seq<Json>, bound: int)
    ensures
        match (
            semantics::apply(
                Step::ArraySlice { start: None, stop: Some(bound) },
                Json::Array(items),
            ),
            semantics::apply(
                Step::ArraySlice { start: Some(bound), stop: None },
                Json::Array(items),
            ),
        ) {
            (Ok(left), Ok(right)) => left + right == items,
            _ => false,
        },
{
    let at = semantics::slice_bound(items.len(), bound);
    assert(items.subrange(0, at) + items.subrange(at, items.len() as int) =~= items);
}

/// `[:]`, the slice without bounds.
pub open spec fn whole_slice() -> Step {
    Step::ArraySlice { start: None, stop: None }
}

/// `[:]` is the same as `[]`: steps with one give what the steps with the other give, and it is
/// printed, put under a key by a keys step, and found by `**^` in the same way. Only where there are
/// no results does a keys step put an empty array for the slice, and `null` for `[]`.
pub proof fn the_whole_slice_gives_every_element(
    left: Seq<Step>,
    right: Seq<Step>,
    nodes: Seq<Json>,
    fanned_out: bool,
    results: Seq<Json>,
)
    ensures
        semantics::run(left + seq![whole_slice()] + right, nodes, fanned_out) == semantics::run(
            left + seq![Step::Array] + right,
            nodes,
            fanned_out,
        ),
        semantics::collected(left + seq![whole_slice()] + right, results) == semantics::collected(
            left + seq![Step::Array] + right,
            results,
        ),
        results.len() > 0 ==> semantics::mapped_value(left + seq![whole_slice()] + right, results)
            == semantics::mapped_value(left + seq![Step::Array] + right, results),
        semantics::found_value(left + seq![whole_slice()] + right, results)
            == semantics::found_value(left + seq![Step::Array] + right, results),
    decreases left.len(),
{
    let sliced = left + seq![whole_slice()] + right;
    let whole = left + seq![Step::Array] + right;
    assert(sliced[left.len() as int] is ArraySlice);
    assert(whole[left.len() as int] is Array);
    assert(right.len() > 0 ==> sliced.last() == right.last() && whole.last() == right.last());
    lemma_whole_slice(nodes);
    if left.len() == 0 {
        assert(sliced[0] == whole_slice());
        assert(whole[0] == Step::Array);
        assert(sliced.drop_first() =~= right);
        assert(whole.drop_first() =~= right);
    } else {
        let rest = left.drop_first();
        assert(sliced[0] == left[0] && whole[0] == left[0]);
        assert(sliced.drop_first() =~= rest + seq![whole_slice()] + right);
        assert(whole.drop_first() =~= rest + seq![Step::Array] + right);
        if left.len() > 1 {
            assert(sliced[1] == left[1] && whole[1] == left[1]);
        } else {
            assert(sliced[1] == whole_slice() && whole[1] == Step::Array);
        }
        if let Ok(results) = semantics::apply_all(left[0], nodes) {
            assert(semantics::tidied(sliced, fanned_out, results) == semantics::tidied(
                whole,
                fanned_out,
                results,
            ));
            the_whole_slice_gives_every_element(
                rest,
                right,
                semantics::tidied(whole, fanned_out, results),
                fanned_out || op::fans_out(left[0]),
                results,
            );
        }
    }
}

proof fn lemma_whole_slice(nodes: Seq<Json>)
    ensures
        semantics::apply_all(whole_slice(), nodes) == semantics::apply_all(Step::Array, nodes),
    decreases nodes.len(),
{
    if nodes.len() > 0 {
        lemma_whole_slice(nodes.drop_last());
        let node = nodes.last();
        if let Json::Array(items) = node {
            assert(items.subrange(0, items.len() as int) =~= items);
        }
        assert(semantics::apply(whole_slice(), node) == semantics::apply(Step::Array, node));
    }
}

/// An object step fails with `not an object` on anything but an object and `null`, and an array
/// step with `not an array` on anything but an array and `null`.
pub proof fn a_step_on_the_wrong_value_is_an_error(step: Step, node: Json)
    requires
        !(node is Null),
    ensures
        op::is_object(step) && !(node is Object) ==> semantics::apply(step, node) == Err::<
            Seq<Json>,
            ExecError,
        >(ExecError::NotAnObject),
        op::is_array(step) && !(node is Array) ==> semantics::apply(step, node) == Err::<
            Seq<Json>,
            ExecError,
        >(ExecError::NotAnArray),
{
}

/// A property step, and a step that selects values or keys, never fails on an object, and an array
/// step never fails on an array.
pub proof fn a_step_on_the_right_value_succeeds(step: Step, node: Json)
    ensures
        (step is Property || step is PropertyValues || step is PropertyKeys) && node is Object
            ==> semantics::apply(step, node) is Ok,
        op::is_array(step) && node is Array ==> semantics::apply(step, node) is Ok,
{
}

/// On `null`, a property and an index give `null`, `[]` and a slice give nothing, `**` gives
/// nothing, and a step that selects properties by key fails.
pub proof fn what_steps_give_for_null(step: Step)
    ensures
        step is Property || step is ArrayIndex ==> semantics::apply(step, Json::Null) == Ok::<
            Seq<Json>,
            ExecError,
        >(seq![Json::Null]),
        step is Array || step is ArraySlice || step is Descend ==> semantics::apply(
            step,
            Json::Null,
        ) == Ok::<Seq<Json>, ExecError>(Seq::empty()),
        step is PropertyValues || step is PropertyKeys || step is PropertyMap ==> semantics::apply(
            step,
            Json::Null,
        ) == Err::<Seq<Json>, ExecError>(ExecError::NotAnObject),
{
    if let Step::Descend(inner) = step {
        let places = semantics::places(Json::Null, Seq::empty());
        assert(places.map_values(
            |place: semantics::Place| semantics::seen_by(*inner, place.object),
        ) =~= Seq::empty());
    }
}

/// `[]` gives every element of an array, in order.
pub proof fn brackets_give_every_element(items: Seq<Json>)
    ensures
        semantics::apply(Step::Array, Json::Array(items)) == Ok::<Seq<Json>, ExecError>(items),
{
}

/// A slice gives exactly the elements between its two bounds, in order. `from` and `to` are the
/// bounds counted from the start of the array, where a negative bound counts from the end, and moved
/// into the array. A bound that is left out is the start or the end.
pub proof fn a_slice_gives_the_elements_between_its_bounds(
    items: Seq<Json>,
    start: Option<int>,
    stop: Option<int>,
    from: int,
    to: int,
)
    requires
        start is None ==> from == 0,
        stop is None ==> to == items.len(),
        start matches Some(bound) ==> {
            &&& 0 <= bound <= items.len() ==> from == bound
            &&& bound > items.len() ==> from == items.len()
            &&& -items.len() <= bound < 0 ==> from == items.len() + bound
            &&& bound < -items.len() ==> from == 0
        },
        stop matches Some(bound) ==> {
            &&& 0 <= bound <= items.len() ==> to == bound
            &&& bound > items.len() ==> to == items.len()
            &&& -items.len() <= bound < 0 ==> to == items.len() + bound
            &&& bound < -items.len() ==> to == 0
        },
    ensures
        match semantics::apply(Step::ArraySlice { start, stop }, Json::Array(items)) {
            Ok(results) => {
                &&& from <= to ==> results.len() == to - from
                &&& from > to ==> results.len() == 0
                &&& forall|i: int|
                    from <= i < to ==> #[trigger] results[i - from] == items[i]
            },
            Err(_) => false,
        },
        semantics::slice_start(items.len(), start) == from,
        from <= to ==> semantics::slice_stop(items.len(), start, stop) == to,
        from > to ==> semantics::slice_stop(items.len(), start, stop) == from,
{
}

} // verus!
