//! Runs queries against JSON values.

use crate::lemmas;
use crate::op;
use crate::op::{Op, Pattern, PickEntry, Step};
use crate::semantics;
use crate::semantics::{Part, Place};
use crate::text;
use crate::value;
use crate::value::{Json, Object, JsonValue};
use std::ops::Range;
use vstd::prelude::*;
use vstd::string::StringExecFns;

verus! {

/// A query could not be applied to the input.
#[derive(Debug, PartialEq, Eq, Structural)]
pub enum ExecError {
    NotAnObject,
    NotAnArray,
}

/// The message for an error.
pub open spec fn message(error: ExecError) -> Seq<char> {
    match error {
        ExecError::NotAnObject => "not an object"@,
        ExecError::NotAnArray => "not an array"@,
    }
}

impl ExecError {
    /// The message for a user.
    pub fn to_string(&self) -> (message: String)
        ensures
            message@ == self::message(*self),
            *self is NotAnObject ==> message@ == "not an object"@,
            *self is NotAnArray ==> message@ == "not an array"@,
    {
        match self {
            ExecError::NotAnObject => "not an object".to_owned(),
            ExecError::NotAnArray => "not an array".to_owned(),
        }
    }
}

/// What the outcome of a query stands for.
pub open spec fn outcome(result: Result<Vec<JsonValue>, ExecError>) -> Result<
    Seq<Json>,
    ExecError,
> {
    match result {
        Ok(values) => Ok(value::jsons(values@)),
        Err(error) => Err(error),
    }
}

/// What the outcome of building an object stands for.
pub open spec fn object_outcome(result: Result<Object, ExecError>) -> Result<
    Seq<(Seq<char>, Json)>,
    ExecError,
> {
    match result {
        Ok(object) => Ok(object@),
        Err(error) => Err(error),
    }
}

/// That `result` and what was appended to `out` are the outcome of running `step` on `node`. What
/// was in `out` before stays there, also on an error.
pub open spec fn appended(
    before: Seq<JsonValue>,
    result: Result<(), ExecError>,
    after: Seq<JsonValue>,
    step: Step,
    node: Json,
) -> bool {
    match semantics::apply(step, node) {
        Ok(results) => result is Ok && value::jsons(after) == value::jsons(before) + results,
        Err(error) => result == Err::<(), ExecError>(error) && value::jsons(after) == value::jsons(
            before,
        ) + semantics::given_before_error(step, node),
    }
}

/// Range selected by a Python-style `[start:stop]` on a sequence of length `len`.
pub fn slice_range(len: usize, start: Option<isize>, stop: Option<isize>) -> (range: Range<usize>)
    ensures
        range.start == semantics::slice_start(len as nat, op::bound(start)),
        range.end == semantics::slice_stop(len as nat, op::bound(start), op::bound(stop)),
{
    let from = match start {
        Some(bound) => clamp(len, bound),
        None => 0,
    };
    let to = match stop {
        Some(bound) => clamp(len, bound),
        None => len,
    };
    if to < from {
        from..from
    } else {
        from..to
    }
}

/// Negative bounds count from the end; out-of-range bounds clamp, as in Python.
fn clamp(len: usize, bound: isize) -> (at: usize)
    ensures
        at == semantics::slice_bound(len as nat, bound as int),
{
    let n: i128 = len as i128;
    let at: i128 = if bound < 0 {
        bound as i128 + n
    } else {
        bound as i128
    };
    if at < 0 {
        0
    } else if at > n {
        len
    } else {
        at as usize
    }
}

/// The results `values` of running `ops` on one value, as a single value: the only result as it
/// is, and otherwise an array of them. A `[]` or a slice in `ops` always gives an array, even of
/// one element.
pub fn collect(ops: &[Op], values: Vec<JsonValue>) -> (value: JsonValue)
    ensures
        value@ == semantics::collected(op::steps_of(ops@), value::jsons(values@)),
{
    let mut values = values;
    if !always_array(ops) && values.len() == 1 {
        match values.pop() {
            Some(value) => value,
            None => JsonValue::Null,
        }
    } else {
        JsonValue::Array(values)
    }
}

/// Whether a slice is among `ops`.
fn has_slice(ops: &[Op]) -> (found: bool)
    ensures
        found == semantics::has_slice(op::steps_of(ops@)),
{
    let ghost steps = op::steps_of(ops@);
    for i in 0..ops.len()
        invariant
            steps == op::steps_of(ops@),
            forall|j: int| 0 <= j < i ==> !(#[trigger] steps[j] is ArraySlice),
    {
        if matches!(ops[i], Op::ArraySlice { .. }) {
            assert(steps[i as int] is ArraySlice);
            return true;
        }
    }
    false
}

/// Whether `ops` has a `[]` or a slice, which ask for array elements, so that their results are
/// always kept in an array.
fn always_array(ops: &[Op]) -> (found: bool)
    ensures
        found == semantics::always_array(op::steps_of(ops@)),
{
    let ghost steps = op::steps_of(ops@);
    for i in 0..ops.len()
        invariant
            steps == op::steps_of(ops@),
            forall|j: int|
                0 <= j < i ==> !(#[trigger] steps[j] is Array || steps[j] is ArraySlice),
    {
        if matches!(ops[i], Op::Array | Op::ArraySlice { .. }) {
            assert(steps[i as int] is Array || steps[i as int] is ArraySlice);
            return true;
        }
    }
    false
}

/// `values`, the results of `ops`, as one value, or `None` if they are nothing: no results,
/// `null`, or an empty object from a last step that builds one.
fn found_value(ops: &[Op], values: Vec<JsonValue>) -> (found: Option<JsonValue>)
    ensures
        match found {
            Some(value) => semantics::found_value(op::steps_of(ops@), value::jsons(values@))
                == Some(value@),
            None => semantics::found_value(op::steps_of(ops@), value::jsons(values@)) is None,
        },
{
    let builds_object = ops.len() > 0 && matches!(
        ops[ops.len() - 1],
        Op::PropertyMap(..) | Op::DescendPaths(_)
    );
    assert(builds_object == semantics::builds_object(op::steps_of(ops@)));
    if values.len() == 0 {
        return None;
    }
    if values.len() == 1 {
        match &values[0] {
            JsonValue::Null => return None,
            JsonValue::Object(object) => {
                if builds_object && object.is_empty() {
                    assert(object@ =~= Seq::<(Seq<char>, Json)>::empty());
                    return None;
                }
            },
            _ => {},
        }
    }
    Some(collect(ops, values))
}

/// The elements of an array, or else the value on its own.
fn elements_or_self(value: JsonValue) -> (elements: Vec<JsonValue>)
    ensures
        value::jsons(elements@) == match value@ {
            Json::Array(items) => items,
            other => seq![other],
        },
{
    match value {
        JsonValue::Array(items) => items,
        value => {
            let mut elements: Vec<JsonValue> = Vec::new();
            proof {
                value::lemma_jsons_push(elements@, value);
            }
            elements.push(value);
            assert(value::jsons(elements@) =~= seq![elements@[0]@]);
            elements
        },
    }
}

/// The elements of each array among `results`, and every other result as it is.
fn flatten(results: Vec<JsonValue>) -> (flat: Vec<JsonValue>)
    ensures
        value::jsons(flat@) == semantics::flattened(value::jsons(results@)),
{
    let ghost all = value::jsons(results@);
    let mut flat: Vec<JsonValue> = Vec::new();
    assert(value::jsons(flat@) =~= semantics::flattened(all.take(0)));
    for result in iter: results.into_iter()
        invariant
            value::jsons(iter.seq()) == all,
            value::jsons(flat@) == semantics::flattened(all.take(iter.index() as int)),
    {
        let ghost done = iter.index() as int;
        assert(all[done] == result@);
        assert(all.take(done + 1).drop_last() =~= all.take(done));
        let mut elements = elements_or_self(result);
        proof {
            value::lemma_jsons_add(flat@, elements@);
        }
        flat.append(&mut elements);
    }
    assert(all.take(all.len() as int) =~= all);
    flat
}

/// The results that are not `null`.
fn without_nulls(results: Vec<JsonValue>) -> (kept: Vec<JsonValue>)
    ensures
        value::jsons(kept@) == semantics::non_null(value::jsons(results@)),
{
    let ghost all = value::jsons(results@);
    let ghost keep = |result: Json| result !is Null;
    let mut kept: Vec<JsonValue> = Vec::new();
    proof {
        reveal(Seq::filter);
        assert(value::jsons(kept@) =~= all.take(0).filter(keep));
    }
    for result in iter: results.into_iter()
        invariant
            value::jsons(iter.seq()) == all,
            keep == (|result: Json| result !is Null),
            value::jsons(kept@) == all.take(iter.index() as int).filter(keep),
    {
        let ghost done = iter.index() as int;
        proof {
            assert(all[done] == result@);
            assert(all.take(done + 1) =~= all.take(done).push(all[done]));
            lemmas::lemma_filter_push(all.take(done), all[done], keep);
            value::lemma_jsons_push(kept@, result);
        }
        if !matches!(result, JsonValue::Null) {
            kept.push(result);
        }
    }
    assert(all.take(all.len() as int) =~= all);
    kept
}

/// The results that are not empty objects.
fn without_empty_objects(results: Vec<JsonValue>) -> (kept: Vec<JsonValue>)
    ensures
        value::jsons(kept@) == semantics::non_empty(value::jsons(results@)),
{
    let ghost all = value::jsons(results@);
    let ghost keep = |result: Json| result != Json::Object(Seq::empty());
    let mut kept: Vec<JsonValue> = Vec::new();
    proof {
        reveal(Seq::filter);
        assert(value::jsons(kept@) =~= all.take(0).filter(keep));
    }
    for result in iter: results.into_iter()
        invariant
            value::jsons(iter.seq()) == all,
            keep == (|result: Json| result != Json::Object(Seq::empty())),
            value::jsons(kept@) == all.take(iter.index() as int).filter(keep),
    {
        let ghost done = iter.index() as int;
        let empty = match &result {
            JsonValue::Object(object) => object.is_empty(),
            _ => false,
        };
        proof {
            assert(all[done] == result@);
            assert(all.take(done + 1) =~= all.take(done).push(all[done]));
            lemmas::lemma_filter_push(all.take(done), all[done], keep);
            value::lemma_jsons_push(kept@, result);
            if let Json::Object(members) = result@ {
                assert(members.len() == 0 ==> members =~= Seq::<(Seq<char>, Json)>::empty());
            }
        }
        if !empty {
            kept.push(result);
        }
    }
    assert(all.take(all.len() as int) =~= all);
    kept
}

/// Applies each op in turn to every value produced by the previous one.
///
/// Once a step has fanned out into several results, later steps leave out `null` results, and a
/// property that holds an array adds its elements instead, unless the next step is an array step.
/// So `*.hobbies` gives every hobby, like `*.hobbies[]`, while `*.hobbies[0]` gives each first
/// hobby. Steps after `*^`, `name^` or `/regex/^` also leave out the empty objects they build from
/// objects with no matching keys. `**` fans out, so the step it runs follows these rules too:
/// `**.name` leaves out the objects without `name`.
pub fn execute(ops: &[Op], input: Vec<JsonValue>) -> (result: Result<Vec<JsonValue>, ExecError>)
    ensures
        outcome(result) == semantics::run(op::steps_of(ops@), value::jsons(input@), false),
    decreases ops@, 3int,
{
    let ghost steps = op::steps_of(ops@);
    let ghost expected = semantics::run(steps, value::jsons(input@), false);
    let mut nodes = input;
    let mut fanned_out = false;
    assert(steps.skip(0) =~= steps);
    for i in 0..ops.len()
        invariant
            steps == op::steps_of(ops@),
            expected == semantics::run(steps, value::jsons(input@), false),
            expected == semantics::run(
                steps.skip(i as int),
                value::jsons(nodes@),
                fanned_out,
            ),
    {
        let ghost rest = steps.skip(i as int);
        let ghost all = value::jsons(nodes@);
        assert(rest[0] == ops@[i as int]@);
        assert(rest.drop_first() =~= steps.skip(i + 1));
        let mut out: Vec<JsonValue> = Vec::new();
        assert(semantics::apply_all(rest[0], all.take(0)) == Ok::<Seq<Json>, ExecError>(
            Seq::empty(),
        ));
        assert(value::jsons(out@) =~= Seq::<Json>::empty());
        for node in iter: nodes.into_iter()
            invariant
                i < ops.len(),
                steps == op::steps_of(ops@),
                rest == steps.skip(i as int),
                rest[0] == ops@[i as int]@,
                value::jsons(iter.seq()) == all,
                expected == semantics::run(steps, value::jsons(input@), false),
                expected == semantics::run(rest, all, fanned_out),
                semantics::apply_all(rest[0], all.take(iter.index() as int)) == Ok::<
                    Seq<Json>,
                    ExecError,
                >(value::jsons(out@)),
        {
            let ghost done = iter.index() as int;
            assert(all[done] == node@);
            proof {
                lemmas::lemma_apply_all_push(rest[0], all, done);
            }
            match apply(&ops[i], node, &mut out) {
                Ok(()) => {},
                Err(error) => {
                    proof {
                        lemmas::lemma_apply_all_error(rest[0], all, done + 1, error);
                    }
                    return Err(error);
                },
            }
        }
        assert(all.take(all.len() as int) =~= all);
        let ghost results = value::jsons(out@);
        let ghost fanned_out_before = fanned_out;
        // The step inside `**` runs after its fan-out.
        let (descends, step) = match &ops[i] {
            Op::Descend(step) => (true, &**step),
            step => (false, step),
        };
        assert(descends == (rest[0] is Descend));
        assert(step@ == semantics::inner_step(rest[0]));
        if fanned_out || descends {
            let before_array = i + 1 < ops.len() && ops[i + 1].is_array_step();
            assert(rest.len() > 1 ==> rest[1] == ops@[i + 1]@);
            if matches!(step, Op::Property(_)) && !before_array {
                out = flatten(out);
            }
            out = without_nulls(out);
            if matches!(step, Op::PropertyMap(..) | Op::DescendPaths(_)) {
                out = without_empty_objects(out);
            }
        }
        assert(value::jsons(out@) == semantics::tidied(rest, fanned_out_before, results));
        fanned_out = fanned_out || ops[i].fans_out();
        nodes = out;
    }
    assert(steps.skip(steps.len() as int) =~= Seq::empty());
    Ok(nodes)
}

/// Applies a single op to a single value, appending the results to `out`.
///
/// Takes `node` by value so that selected parts are moved out rather than cloned; each value is
/// used by exactly one step, and whatever isn't selected is dropped here.
fn apply(op: &Op, node: JsonValue, out: &mut Vec<JsonValue>) -> (result: Result<(), ExecError>)
    ensures
        appended(old(out)@, result, final(out)@, op@, node@),
        result is Err && !(op@ is Descend) ==> final(out)@ == old(out)@,
    decreases *op, 1int,
{
    match op {
        Op::Property(name) => match node {
            JsonValue::Object(object) => {
                let mut object = object;
                match object.remove(name.as_str()) {
                    Some(value) => push(out, value),
                    None => push(out, JsonValue::Null),
                }
            },
            // Looking up a single element of null yields null, as in jq.
            JsonValue::Null => push(out, JsonValue::Null),
            _ => return Err(ExecError::NotAnObject),
        },
        Op::PropertyPick(entries) => {
            let object = match node {
                JsonValue::Object(object) => object,
                // Every property of null is null, so picking from null gives all nulls, as in jq.
                JsonValue::Null => Object::new(),
                _ => return Err(ExecError::NotAnObject),
            };
            let picked = pick(entries.as_slice(), object)?;
            push(out, JsonValue::Object(picked));
        },
        Op::PropertyValues(pattern) => match node {
            JsonValue::Object(object) => select_values(pattern, object, out),
            _ => return Err(ExecError::NotAnObject),
        },
        Op::PropertyKeys(pattern) => match node {
            JsonValue::Object(object) => select_keys(pattern, object, out),
            _ => return Err(ExecError::NotAnObject),
        },
        Op::PropertyMap(pattern, ops) => match node {
            JsonValue::Object(object) => {
                let mapped = map_values(pattern, ops.as_slice(), object)?;
                push(out, JsonValue::Object(mapped));
            },
            _ => return Err(ExecError::NotAnObject),
        },
        Op::Descend(step) => return descend(&**step, &node, out),
        Op::DescendPaths(steps) => {
            let tree = descend_paths(steps.as_slice(), &node)?;
            push(out, tree);
        },
        Op::Array => match node {
            JsonValue::Array(array) => {
                let mut array = array;
                proof {
                    value::lemma_jsons_add(out@, array@);
                }
                out.append(&mut array);
            },
            // Every element of null, or a slice of it, is nothing, as for an empty array.
            JsonValue::Null => {},
            _ => return Err(ExecError::NotAnArray),
        },
        Op::ArrayIndex(n) => match node {
            JsonValue::Array(array) => {
                let mut array = array;
                if *n < array.len() {
                    let element = array.swap_remove(*n);
                    push(out, element);
                } else {
                    push(out, JsonValue::Null);
                }
            },
            JsonValue::Null => push(out, JsonValue::Null),
            _ => return Err(ExecError::NotAnArray),
        },
        Op::ArraySlice { start, stop } => match node {
            JsonValue::Array(array) => {
                let range = slice_range(array.len(), *start, *stop);
                let ghost all = array@;
                let mut array = array;
                let mut tail = array.split_off(range.start);
                tail.truncate(range.end - range.start);
                assert(value::jsons(tail@) =~= value::jsons(all).subrange(
                    range.start as int,
                    range.end as int,
                ));
                proof {
                    value::lemma_jsons_add(out@, tail@);
                }
                out.append(&mut tail);
            },
            JsonValue::Null => {},
            _ => return Err(ExecError::NotAnArray),
        },
    }
    Ok(())
}

/// Appends one result to `out`.
fn push(out: &mut Vec<JsonValue>, value: JsonValue)
    ensures
        value::jsons(final(out)@) == value::jsons(old(out)@) + seq![value@],
{
    proof {
        value::lemma_jsons_push(out@, value);
    }
    out.push(value);
    assert(value::jsons(old(out)@).push(value@) =~= value::jsons(old(out)@) + seq![value@]);
}

/// Appends the values of the properties of `object` whose keys match.
fn select_values(pattern: &Pattern, object: Object, out: &mut Vec<JsonValue>)
    ensures
        value::jsons(final(out)@) == value::jsons(old(out)@) + semantics::values(
            semantics::matching(pattern@, object@),
        ),
{
    let ghost all = object@;
    let ghost before = value::jsons(out@);
    let entries = object.into_entries();
    proof {
        reveal(Seq::filter);
        assert(value::jsons(out@) =~= before + semantics::values(
            semantics::matching(pattern@, all.take(0)),
        ));
    }
    for entry in iter: entries.into_iter()
        invariant
            value::members(iter.seq()) == all,
            value::jsons(out@) == before + semantics::values(
                semantics::matching(pattern@, all.take(iter.index() as int)),
            ),
    {
        let ghost done = iter.index() as int;
        let (key, value) = entry;
        proof {
            assert(all[done] == (key@, value@));
            assert(all.take(done + 1) =~= all.take(done).push(all[done]));
            lemmas::lemma_matching_push(pattern@, all.take(done), all[done]);
            lemmas::lemma_values_push(
                semantics::matching(pattern@, all.take(done)),
                all[done],
            );
        }
        if pattern.is_match(key.as_str()) {
            push(out, value);
            assert(value::jsons(out@) =~= before + semantics::values(
                semantics::matching(pattern@, all.take(done + 1)),
            ));
        }
    }
    assert(all.take(all.len() as int) =~= all);
}

/// Appends the keys of `object` that match.
fn select_keys(pattern: &Pattern, object: Object, out: &mut Vec<JsonValue>)
    ensures
        value::jsons(final(out)@) == value::jsons(old(out)@) + semantics::keys(
            semantics::matching(pattern@, object@),
        ),
{
    let ghost all = object@;
    let ghost before = value::jsons(out@);
    let entries = object.into_entries();
    proof {
        reveal(Seq::filter);
        assert(value::jsons(out@) =~= before + semantics::keys(
            semantics::matching(pattern@, all.take(0)),
        ));
    }
    for entry in iter: entries.into_iter()
        invariant
            value::members(iter.seq()) == all,
            value::jsons(out@) == before + semantics::keys(
                semantics::matching(pattern@, all.take(iter.index() as int)),
            ),
    {
        let ghost done = iter.index() as int;
        let (key, value) = entry;
        proof {
            assert(all[done] == (key@, value@));
            assert(all.take(done + 1) =~= all.take(done).push(all[done]));
            lemmas::lemma_matching_push(pattern@, all.take(done), all[done]);
            lemmas::lemma_keys_push(
                semantics::matching(pattern@, all.take(done)),
                all[done],
            );
        }
        if pattern.is_match(key.as_str()) {
            push(out, JsonValue::String(key));
            assert(value::jsons(out@) =~= before + semantics::keys(
                semantics::matching(pattern@, all.take(done + 1)),
            ));
        }
    }
    assert(all.take(all.len() as int) =~= all);
}

/// Builds an object with the keys of `object` that match, where each value is what running `ops`
/// on the old value gives.
fn map_values(pattern: &Pattern, ops: &[Op], object: Object) -> (result: Result<Object, ExecError>)
    ensures
        object_outcome(result) == semantics::mapped(
            op::steps_of(ops@),
            semantics::matching(pattern@, object@),
        ),
    decreases ops@, 4int,
{
    let ghost steps = op::steps_of(ops@);
    let ghost all = object@;
    let entries = object.into_entries();
    let mut mapped = Object::new();
    proof {
        reveal(Seq::filter);
        assert(semantics::matching(pattern@, all.take(0)) =~= Seq::empty());
    }
    for entry in iter: entries.into_iter()
        invariant
            steps == op::steps_of(ops@),
            all == object@,
            value::distinct_keys(all),
            value::members(iter.seq()) == all,
            semantics::mapped(steps, semantics::matching(pattern@, all.take(iter.index() as int)))
                == Ok::<Seq<(Seq<char>, Json)>, ExecError>(mapped@),
    {
        let ghost done = iter.index() as int;
        let ghost kept = semantics::matching(pattern@, all.take(done));
        let (key, value) = entry;
        proof {
            assert(all[done] == (key@, value@));
            assert(all.take(done + 1) =~= all.take(done).push(all[done]));
            lemmas::lemma_matching_push(pattern@, all.take(done), all[done]);
            assert(kept.push(all[done]).drop_last() =~= kept);
        }
        if pattern.is_match(key.as_str()) {
            let input = one(value);
            match execute(ops, input) {
                Ok(values) => {
                    // No results means nothing was found, like a missing property, except that a
                    // slice always gives an array.
                    let value = if values.len() == 0 && !has_slice(ops) {
                        JsonValue::Null
                    } else {
                        collect(ops, values)
                    };
                    proof {
                        lemmas::lemma_take_fresh(all, done);
                        if value::has_key(mapped@, key@) {
                            lemmas::lemma_mapped_keys(steps, kept, mapped@, key@);
                            lemmas::lemma_filter_keys(
                                all.take(done),
                                |member: (Seq<char>, Json)| op::matches_key(pattern@, member.0),
                                key@,
                            );
                        }
                    }
                    mapped.append(key, value);
                },
                Err(error) => {
                    proof {
                        lemmas::lemma_mapped_error(steps, pattern@, all, done + 1, error);
                    }
                    return Err(error);
                },
            }
        }
    }
    assert(all.take(all.len() as int) =~= all);
    Ok(mapped)
}

/// A list of one value.
fn one(value: JsonValue) -> (values: Vec<JsonValue>)
    ensures
        value::jsons(values@) == seq![value@],
{
    let mut values: Vec<JsonValue> = Vec::new();
    push(&mut values, value);
    assert(value::jsons(values@) =~= seq![value@]);
    values
}

/// Builds an object holding one property for each of `entries`, in that order: the result of
/// running the entry's steps on the value of its property in `object`, or on `null` if it is
/// missing. A value is moved out of `object` by the last entry that reads it, and cloned for the
/// others.
fn pick(entries: &[PickEntry], object: Object) -> (result: Result<Object, ExecError>)
    ensures
        object_outcome(result) == semantics::picked(op::entries_of(entries@), object@),
    decreases entries@, 4int,
{
    let ghost all = op::entries_of(entries@);
    let ghost members = object@;
    let mut rest = object;
    let mut picked = Object::new();
    for i in 0..entries.len()
        invariant
            all == op::entries_of(entries@),
            members == object@,
            forall|j: int|
                i <= j < all.len() ==> semantics::property(rest@, (#[trigger] all[j]).name)
                    == semantics::property(members, all[j].name),
            semantics::picked(all.take(i as int), members) == Ok::<
                Seq<(Seq<char>, Json)>,
                ExecError,
            >(picked@),
    {
        let entry = &entries[i];
        assert(all[i as int] == entry@);
        assert(all.take(i + 1).drop_last() =~= all.take(i as int));
        let ghost before = rest@;
        let value = if read_later(entries, i + 1, entry.name.as_str()) {
            match rest.get(entry.name.as_str()) {
                Some(value) => value.clone(),
                None => JsonValue::Null,
            }
        } else {
            match rest.remove(entry.name.as_str()) {
                Some(value) => value,
                None => JsonValue::Null,
            }
        };
        assert(value@ == semantics::property(members, all[i as int].name));
        proof {
            assert forall|j: int| i + 1 <= j < all.len() implies semantics::property(
                rest@,
                (#[trigger] all[j]).name,
            ) == semantics::property(members, all[j].name) by {
                if rest@ != before {
                    assert(all[j].name != entry.name@);
                    value::lemma_key_index(before, entry.name@);
                    value::lemma_remove_lookup(before, entry.name@, all[j].name);
                }
            }
        }
        let input = one(value);
        match execute(entry.steps.as_slice(), input) {
            Ok(values) => {
                picked.insert(entry.key.clone(), collect(entry.steps.as_slice(), values));
            },
            Err(error) => {
                proof {
                    lemmas::lemma_picked_error(all, members, i + 1, error);
                }
                return Err(error);
            },
        }
    }
    assert(all.take(all.len() as int) =~= all);
    Ok(picked)
}

/// Whether one of `entries`, from position `from` on, reads the property `name`.
fn read_later(entries: &[PickEntry], from: usize, name: &str) -> (found: bool)
    requires
        from <= entries@.len(),
    ensures
        found == exists|j: int|
            from <= j < entries@.len() && (#[trigger] entries@[j]).name@ == name@,
{
    for i in from..entries.len()
        invariant
            forall|j: int| from <= j < i ==> (#[trigger] entries@[j]).name@ != name@,
    {
        if text::same_text(entries[i].name.as_str(), name) {
            return true;
        }
    }
    false
}

/// Runs the object step `step` on every object in `node`, at any depth, in document order, with
/// each object before the ones inside it.
fn descend(step: &Op, node: &JsonValue, out: &mut Vec<JsonValue>) -> (result: Result<(), ExecError>)
    ensures
        appended(
            old(out)@,
            result,
            final(out)@,
            Step::Descend(Box::new(step@)),
            node@,
        ),
    decreases *step, 2int,
{
    let mut path: Vec<PathPart> = Vec::new();
    let mut visits: Vec<Visit> = Vec::new();
    walk(node, &mut path, &mut visits);
    let ghost all = places_of(visits@);
    let ghost seen = all.map_values(|place: Place| semantics::seen_by(step@, place.object));
    assert(parts_of(Seq::<PathPart>::empty()) =~= Seq::empty());
    assert(all =~= semantics::places(node@, Seq::empty()));
    let ghost before = out@;
    assert(value::jsons(before) =~= value::jsons(before) + Seq::empty());
    for i in 0..visits.len()
        invariant
            before == old(out)@,
            all == places_of(visits@),
            seen == all.map_values(|place: Place| semantics::seen_by(step@, place.object)),
            seen == semantics::places(node@, Seq::empty()).map_values(
                |place: Place| semantics::seen_by(step@, place.object),
            ),
            semantics::apply_all(step@, seen.take(i as int)) is Ok,
            value::jsons(out@) == value::jsons(before) + semantics::apply_all(
                step@,
                seen.take(i as int),
            )->Ok_0,
    {
        let ghost so_far = semantics::apply_all(step@, seen.take(i as int))->Ok_0;
        let object = visits[i].object;
        assert(seen[i as int] == semantics::seen_by(step@, object@));
        proof {
            lemmas::lemma_apply_all_push(step@, seen, i as int);
            lemmas::lemma_read_by(step@, object@);
        }
        match apply(step, read_by(step, object), out) {
            Ok(()) => {
                let ghost results = semantics::apply(step@, seen[i as int])->Ok_0;
                assert(value::jsons(out@) =~= value::jsons(before) + (so_far + results));
            },
            Err(error) => {
                proof {
                    lemmas::lemma_apply_all_error(step@, seen, i + 1, error);
                    lemmas::lemma_given_before_error(step@, seen, i as int);
                    let given = semantics::given_before_error(step@, seen[i as int]);
                    assert(value::jsons(out@) =~= value::jsons(before) + (so_far + given));
                }
                return Err(error);
            },
        }
    }
    assert(seen.take(seen.len() as int) =~= seen);
    Ok(())
}

/// One step of a path through a document: a key, or an array index.
#[derive(Clone, Copy)]
enum PathPart<'a> {
    Key(&'a str),
    Index(usize),
}

/// An object that a walk through a document has come to, and the path to it.
struct Visit<'a> {
    path: Vec<PathPart<'a>>,
    object: &'a Object,
}

/// What one step of a path stands for.
spec fn part_of(part: PathPart) -> Part {
    match part {
        PathPart::Key(key) => Part::Key(key@),
        PathPart::Index(index) => Part::Index(index as nat),
    }
}

/// What a path stands for.
spec fn parts_of(path: Seq<PathPart>) -> Seq<Part> {
    Seq::new(path.len(), |i: int| part_of(path[i]))
}

/// What the objects that a walk has come to stand for.
spec fn places_of(visits: Seq<Visit>) -> Seq<Place> {
    Seq::new(
        visits.len(),
        |i: int| Place { path: parts_of(visits[i].path@), object: visits[i].object@ },
    )
}

/// Appends every object in `node` and the path to it to `visits`, in document order, with each
/// object before the ones inside it. `path` holds the path to `node`, and is restored before
/// returning.
fn walk<'a>(node: &'a JsonValue, path: &mut Vec<PathPart<'a>>, visits: &mut Vec<Visit<'a>>)
    ensures
        final(path)@ == old(path)@,
        places_of(final(visits)@) == places_of(old(visits)@) + semantics::places(
            node@,
            parts_of(old(path)@),
        ),
    decreases *node,
{
    let ghost start = path@;
    let ghost parts = parts_of(path@);
    let ghost before = places_of(visits@);
    match node {
        JsonValue::Object(object) => {
            let ghost here = seq![Place { path: parts, object: object@ }];
            let visit = Visit { path: copy_path(path), object };
            visits.push(visit);
            assert(places_of(visits@) =~= before + here);
            let entries = object.entries();
            let ghost members = value::members(entries@);
            assert(decreases_to!(*node => node->Object_0));
            for i in 0..entries.len()
                invariant
                    start == old(path)@,
                    path@ == start,
                    parts == parts_of(start),
                    members == value::members(entries@),
                    decreases_to!(*node => *entries),
                    places_of(visits@) == before + here + semantics::places_in_members(
                        members.take(i as int),
                        parts,
                    ),
            {
                assert(members.take(i + 1).drop_last() =~= members.take(i as int));
                path.push(PathPart::Key(entries[i].0.as_str()));
                assert(parts_of(path@) =~= parts.push(Part::Key(members[i as int].0)));
                walk(&entries[i].1, path, visits);
                path.pop();
                assert(path@ =~= start);
                assert(places_of(visits@) =~= before + here + semantics::places_in_members(
                    members.take(i + 1),
                    parts,
                ));
            }
            assert(members.take(members.len() as int) =~= members);
            assert(places_of(visits@) =~= before + semantics::places(node@, parts));
        },
        JsonValue::Array(items) => {
            let ghost all = value::jsons(items@);
            assert(decreases_to!(*node => node->Array_0));
            assert(before =~= before + semantics::places_in_items(all.take(0), parts));
            for i in 0..items.len()
                invariant
                    start == old(path)@,
                    path@ == start,
                    parts == parts_of(start),
                    all == value::jsons(items@),
                    decreases_to!(*node => *items),
                    places_of(visits@) == before + semantics::places_in_items(
                        all.take(i as int),
                        parts,
                    ),
            {
                assert(all.take(i + 1).drop_last() =~= all.take(i as int));
                path.push(PathPart::Index(i));
                assert(parts_of(path@) =~= parts.push(Part::Index(i as nat)));
                walk(&items[i], path, visits);
                path.pop();
                assert(path@ =~= start);
                assert(places_of(visits@) =~= before + semantics::places_in_items(
                    all.take(i + 1),
                    parts,
                ));
            }
            assert(all.take(all.len() as int) =~= all);
        },
        _ => {
            assert(before =~= before + Seq::empty());
        },
    }
}

/// A copy of `path`.
fn copy_path<'a>(path: &Vec<PathPart<'a>>) -> (copy: Vec<PathPart<'a>>)
    ensures
        copy@ == path@,
{
    let mut copy: Vec<PathPart<'a>> = Vec::new();
    for i in 0..path.len()
        invariant
            copy@ == path@.take(i as int),
    {
        copy.push(path[i]);
        assert(copy@ =~= path@.take(i + 1));
    }
    assert(copy@ =~= path@);
    copy
}

/// A copy of `object` holding only the properties the object step `step` reads, so that running
/// the step on it clones only those, not the whole object.
fn read_by(step: &Op, object: &Object) -> (read: JsonValue)
    ensures
        read@ == Json::Object(semantics::read_by(step@, object@)),
{
    let entries = object.entries();
    let ghost all = value::members(entries@);
    let ghost keep = |member: (Seq<char>, Json)| semantics::reads(step@, member.0);
    let only_keys = matches!(step, Op::PropertyKeys(_));
    let mut read = Object::new();
    proof {
        reveal(Seq::filter);
        assert(semantics::read_by(step@, all.take(0)) =~= Seq::empty());
    }
    for i in 0..entries.len()
        invariant
            all == value::members(entries@),
            value::distinct_keys(all),
            keep == (|member: (Seq<char>, Json)| semantics::reads(step@, member.0)),
            only_keys == (step@ is PropertyKeys),
            read@ == semantics::read_by(step@, all.take(i as int)),
    {
        let ghost member = all[i as int];
        proof {
            assert(all.take(i + 1) =~= all.take(i as int).push(member));
            lemmas::lemma_filter_push(all.take(i as int), member, keep);
            lemmas::lemma_take_fresh(all, i as int);
            if value::has_key(read@, member.0) {
                lemmas::lemma_read_by_keys(step@, all.take(i as int), member.0);
            }
        }
        if reads(step, entries[i].0.as_str()) {
            // A keys step only needs the key.
            let value = if only_keys {
                JsonValue::Null
            } else {
                entries[i].1.clone()
            };
            read.append(entries[i].0.clone(), value);
        }
        assert(read@ =~= semantics::read_by(step@, all.take(i + 1)));
    }
    assert(all.take(all.len() as int) =~= all);
    JsonValue::Object(read)
}

/// Whether the object step `step` reads the property `key`.
fn reads(step: &Op, key: &str) -> (yes: bool)
    ensures
        yes == semantics::reads(step@, key@),
{
    match step {
        Op::Property(name) => text::same_text(name.as_str(), key),
        Op::PropertyPick(entries) => {
            let yes = read_later(entries.as_slice(), 0, key);
            proof {
                let all = op::entries_of(entries@);
                assert(forall|j: int|
                    0 <= j < all.len() ==> (#[trigger] all[j]).name == entries@[j].name@);
                if yes {
                    let j = choose|j: int|
                        0 <= j < entries@.len() && (#[trigger] entries@[j]).name@ == key@;
                    assert(all[j].name == key@);
                }
                assert(step@ == Step::PropertyPick(all));
                if semantics::reads(step@, key@) {
                    let j = choose|j: int| 0 <= j < all.len() && (#[trigger] all[j]).name == key@;
                    assert(entries@[j].name@ == key@);
                }
            }
            yes
        },
        Op::PropertyValues(pattern) => pattern.is_match(key),
        Op::PropertyKeys(pattern) => pattern.is_match(key),
        Op::PropertyMap(pattern, _) => pattern.is_match(key),
        _ => false,
    }
}

/// Runs `steps` on every object in `node`, at any depth, as [`descend`] does, and builds a copy of
/// `node` pruned down to what they find: each object where they find something holds it, and is
/// reached by the same keys as in `node`, with array elements under keys like `[0]`. With no
/// steps, gives every object, emptied.
fn descend_paths(steps: &[Op], node: &JsonValue) -> (result: Result<JsonValue, ExecError>)
    ensures
        match result {
            Ok(tree) => semantics::pruned(
                op::steps_of(steps@),
                semantics::places(node@, Seq::empty()),
            ) == Ok::<Json, ExecError>(tree@),
            Err(error) => semantics::pruned(
                op::steps_of(steps@),
                semantics::places(node@, Seq::empty()),
            ) == Err::<Json, ExecError>(error),
        },
    decreases steps@, 6int,
{
    let mut path: Vec<PathPart> = Vec::new();
    let mut visits: Vec<Visit> = Vec::new();
    walk(node, &mut path, &mut visits);
    let ghost all = places_of(visits@);
    assert(parts_of(Seq::<PathPart>::empty()) =~= Seq::empty());
    assert(all =~= semantics::places(node@, Seq::empty()));
    let mut tree = JsonValue::Object(Object::new());
    for i in 0..visits.len()
        invariant
            all == places_of(visits@),
            all == semantics::places(node@, Seq::empty()),
            semantics::pruned(op::steps_of(steps@), all.take(i as int)) == Ok::<Json, ExecError>(
                tree@,
            ),
    {
        let visit = &visits[i];
        assert(all[i as int] == Place { path: parts_of(visit.path@), object: visit.object@ });
        assert(all.take(i + 1).drop_last() =~= all.take(i as int));
        match found_in(steps, visit.object) {
            Ok(found) => {
                if steps.len() == 0 || !found.is_empty() {
                    assert(parts_of(visit.path@).skip(0) =~= parts_of(visit.path@));
                    tree = plant(tree, &visit.path, 0, found);
                }
            },
            Err(error) => {
                proof {
                    lemmas::lemma_pruned_error(op::steps_of(steps@), all, i + 1, error);
                }
                return Err(error);
            },
        }
    }
    assert(all.take(all.len() as int) =~= all);
    Ok(tree)
}

/// What `steps` find in `object`, keyed as it is in the tree [`descend_paths`] builds, or an empty
/// object if they find nothing:
///
/// - After `*`, `/regex/` or a keys step with no steps after it, each matching key, holding what
///   the rest of the steps give for its value.
/// - A pick, or a keys step with steps after it, gives an object already.
/// - Otherwise the steps start with names, and what they give is held under the last of those
///   names, as in a pick.
fn found_in(steps: &[Op], object: &Object) -> (result: Result<Object, ExecError>)
    ensures
        object_outcome(result) == semantics::found_in(op::steps_of(steps@), object@),
    decreases steps@, 5int,
{
    let ghost all = op::steps_of(steps@);
    let mut found = Object::new();
    if steps.len() == 0 {
        return Ok(found);
    }
    let first = &steps[0];
    assert(all[0] == first@);
    match first {
        Op::PropertyValues(pattern) | Op::PropertyKeys(pattern) => {
            let rest = &steps[1..steps.len()];
            assert(op::steps_of(rest@) =~= all.drop_first());
            found_in_values(pattern, rest, object)
        },
        Op::PropertyPick(_) | Op::PropertyMap(..) => {
            let mut out: Vec<JsonValue> = Vec::new();
            proof {
                lemmas::lemma_read_by(first@, object@);
                assert(value::jsons(out@) =~= Seq::<Json>::empty());
            }
            apply(first, read_by(first, object), &mut out)?;
            let ghost results = value::jsons(out@);
            assert(Seq::<Json>::empty() + results =~= results);
            match out.pop() {
                Some(JsonValue::Object(built)) => {
                    assert(results[0] == Json::Object(built@));
                    Ok(drop_null_members(built))
                },
                _ => {
                    assert(results[0] is Object);
                    Ok(found)
                },
            }
        },
        _ => {
            let input = one(read_by(first, object));
            proof {
                lemmas::lemma_read_by(first@, object@);
                lemmas::lemma_run_one(
                    all,
                    Json::Object(semantics::read_by(first@, object@)),
                    semantics::seen_by(first@, object@),
                    false,
                );
            }
            let values = execute(steps, input)?;
            let value = found_value(steps, values);
            match (last_name(steps), value) {
                (Some(key), Some(value)) => {
                    assert(!value::has_key(found@, key@));
                    found.append(key.clone(), value);
                    assert(found@ =~= seq![(key@, value@)]);
                },
                _ => {},
            }
            Ok(found)
        },
    }
}

/// What `ops` find in the values of the properties of `object` whose keys match, under those keys.
fn found_in_values(pattern: &Pattern, ops: &[Op], object: &Object) -> (result: Result<
    Object,
    ExecError,
>)
    ensures
        object_outcome(result) == semantics::found_in_values(
            op::steps_of(ops@),
            semantics::matching(pattern@, object@),
        ),
    decreases ops@, 4int,
{
    let ghost steps = op::steps_of(ops@);
    let entries = object.entries();
    let ghost all = value::members(entries@);
    let mut found = Object::new();
    proof {
        reveal(Seq::filter);
        assert(semantics::matching(pattern@, all.take(0)) =~= Seq::empty());
    }
    for i in 0..entries.len()
        invariant
            steps == op::steps_of(ops@),
            all == object@,
            all == value::members(entries@),
            value::distinct_keys(all),
            semantics::found_in_values(steps, semantics::matching(pattern@, all.take(i as int)))
                == Ok::<Seq<(Seq<char>, Json)>, ExecError>(found@),
    {
        let ghost kept = semantics::matching(pattern@, all.take(i as int));
        let ghost member = all[i as int];
        proof {
            assert(all.take(i + 1) =~= all.take(i as int).push(member));
            lemmas::lemma_matching_push(pattern@, all.take(i as int), member);
            assert(kept.push(member).drop_last() =~= kept);
        }
        if pattern.is_match(entries[i].0.as_str()) {
            let input = one(entries[i].1.clone());
            match execute(ops, input) {
                Ok(values) => match found_value(ops, values) {
                    Some(value) => {
                        proof {
                            lemmas::lemma_take_fresh(all, i as int);
                            if value::has_key(found@, member.0) {
                                lemmas::lemma_found_in_values_keys(steps, kept, found@, member.0);
                                lemmas::lemma_filter_keys(
                                    all.take(i as int),
                                    |member: (Seq<char>, Json)|
                                        op::matches_key(pattern@, member.0),
                                    member.0,
                                );
                            }
                        }
                        found.append(entries[i].0.clone(), value);
                    },
                    None => {},
                },
                Err(error) => {
                    proof {
                        lemmas::lemma_found_in_values_error(steps, pattern@, all, i + 1, error);
                    }
                    return Err(error);
                },
            }
        }
    }
    assert(all.take(all.len() as int) =~= all);
    Ok(found)
}

/// `object` without the properties that are `null`.
fn drop_null_members(object: Object) -> (kept: Object)
    ensures
        kept@ == semantics::without_nulls(object@),
{
    let ghost all = object@;
    let ghost keep = |member: (Seq<char>, Json)| member.1 !is Null;
    let entries = object.into_entries();
    let mut kept = Object::new();
    proof {
        reveal(Seq::filter);
        assert(semantics::without_nulls(all.take(0)) =~= Seq::empty());
    }
    for entry in iter: entries.into_iter()
        invariant
            value::distinct_keys(all),
            value::members(iter.seq()) == all,
            keep == (|member: (Seq<char>, Json)| member.1 !is Null),
            kept@ == semantics::without_nulls(all.take(iter.index() as int)),
    {
        let ghost done = iter.index() as int;
        let (key, value) = entry;
        proof {
            assert(all[done] == (key@, value@));
            assert(all.take(done + 1) =~= all.take(done).push(all[done]));
            lemmas::lemma_filter_push(all.take(done), all[done], keep);
            lemmas::lemma_take_fresh(all, done);
            if value::has_key(kept@, key@) {
                lemmas::lemma_filter_keys(all.take(done), keep, key@);
            }
        }
        if !matches!(value, JsonValue::Null) {
            kept.append(key, value);
        }
    }
    assert(all.take(all.len() as int) =~= all);
    kept
}

/// The last of the names that `steps` start with, which array steps may follow.
fn last_name(steps: &[Op]) -> (name: Option<&String>)
    ensures
        match name {
            Some(name) => semantics::last_name(op::steps_of(steps@)) == Some(name@),
            None => semantics::last_name(op::steps_of(steps@)) is None,
        },
{
    let ghost all = op::steps_of(steps@);
    let mut name: Option<&String> = None;
    assert(all.skip(0) =~= all);
    for i in 0..steps.len()
        invariant
            all == op::steps_of(steps@),
            semantics::last_name(all) == match semantics::last_name(all.skip(i as int)) {
                Some(later) => Some(later),
                None => match name {
                    Some(name) => Some(name@),
                    None => None,
                },
            },
    {
        let ghost rest = all.skip(i as int);
        assert(rest[0] == steps@[i as int]@);
        assert(rest.drop_first() =~= all.skip(i + 1));
        match &steps[i] {
            Op::Property(found) => {
                name = Some(found);
            },
            op => if !op.is_array_step() {
                return name;
            },
        }
    }
    name
}

/// Puts `found` into the object at `path` in `tree`, from position `from` of `path` on, where array
/// elements are under keys like `[0]`, creating the objects on the way. Where a value found earlier
/// is on the path, it is followed instead, and if that isn't possible, `found` is dropped: the
/// value already holds what is below it.
fn plant(tree: JsonValue, path: &Vec<PathPart>, from: usize, found: Object) -> (planted: JsonValue)
    requires
        from <= path@.len(),
    ensures
        planted@ == semantics::planted(tree@, parts_of(path@).skip(from as int), found@),
    decreases path@.len() - from,
{
    let ghost rest = parts_of(path@).skip(from as int);
    if from == path.len() {
        match tree {
            JsonValue::Object(object) => {
                let mut object = object;
                object.extend(found);
                JsonValue::Object(object)
            },
            other => other,
        }
    } else {
        assert(rest[0] == part_of(path@[from as int]));
        assert(rest.drop_first() =~= parts_of(path@).skip(from + 1));
        match (tree, path[from]) {
            (JsonValue::Array(items), PathPart::Index(index)) => {
                if index < items.len() {
                    let ghost all = items@;
                    let mut items = items;
                    let mut child = JsonValue::Null;
                    std::mem::swap(&mut child, &mut items[index]);
                    items.set(index, plant(child, path, from + 1, found));
                    assert(value::jsons(items@) =~= value::jsons(all).update(
                        index as int,
                        items@[index as int]@,
                    ));
                    JsonValue::Array(items)
                } else {
                    JsonValue::Array(items)
                }
            },
            (JsonValue::Object(object), part) => {
                let ghost members = object@;
                let mut object = object;
                let key = part_key(part);
                let child = match object.take(key.as_str()) {
                    Some(child) => child,
                    None => JsonValue::Object(Object::new()),
                };
                let child = plant(child, path, from + 1, found);
                proof {
                    lemmas::lemma_put_put(members, key@, Json::Null, child@);
                }
                object.insert(key, child);
                JsonValue::Object(object)
            },
            (other, _) => other,
        }
    }
}

/// The key that stands for one step of a path.
fn part_key(part: PathPart) -> (key: String)
    ensures
        key@ == semantics::part_key(part_of(part)),
{
    match part {
        PathPart::Key(key) => key.to_owned(),
        PathPart::Index(index) => {
            proof {
                reveal_strlit("[");
                reveal_strlit("]");
            }
            let key = "[".to_owned().concat(text::decimal_text(index).as_str()).concat("]");
            assert(key@ =~= seq!['['] + text::decimal(index as nat) + seq![']']);
            key
        },
    }
}

} // verus!
