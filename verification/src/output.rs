//! What is printed for a query.

use crate::exec;
use crate::exec::ExecError;
use crate::lemmas;
use crate::op;
use crate::op::Op;
use crate::semantics;
use crate::value;
use crate::value::{Json, Object, JsonValue};
use vstd::prelude::*;

verus! {

/// What is printed for the results of a query: a single result as it is, and none or several as an
/// array, without the keys whose values are `null` unless they are kept.
pub open spec fn printed(steps: Seq<op::Step>, results: Seq<Json>, keep_nulls: bool) -> Json {
    let collected = semantics::collected(steps, results);
    if keep_nulls {
        collected
    } else {
        semantics::stripped(collected)
    }
}

/// The value to print for `results`, the results of `ops`.
pub fn shown(ops: &[Op], results: Vec<JsonValue>, keep_nulls: bool) -> (value: JsonValue)
    ensures
        value@ == printed(op::steps_of(ops@), value::jsons(results@), keep_nulls),
{
    // A single result prints as it is, and none or several as a JSON array, except that a query
    // with a `[]` or a slice always prints an array.
    let mut value = exec::collect(ops, results);
    if !keep_nulls {
        remove_null_keys(&mut value);
    }
    value
}

/// Whether to color the output: unless it is piped or redirected, or if color is forced.
pub fn is_colored(forced: bool, terminal: bool) -> (colored: bool)
    ensures
        colored == (forced || terminal),
{
    forced || terminal
}

/// Runs `ops` on `document`, and gives the value to print.
pub fn answer(ops: &[Op], document: JsonValue, keep_nulls: bool) -> (result: Result<
    JsonValue,
    ExecError,
>)
    ensures
        match semantics::run(op::steps_of(ops@), seq![document@], false) {
            Ok(results) => result is Ok && result->Ok_0@ == printed(
                op::steps_of(ops@),
                results,
                keep_nulls,
            ),
            Err(error) => result == Err::<JsonValue, ExecError>(error),
        },
{
    let mut input: Vec<JsonValue> = Vec::new();
    input.push(document);
    assert(value::jsons(input@) =~= seq![document@]);
    let results = exec::execute(ops, input)?;
    Ok(shown(ops, results, keep_nulls))
}

/// Removes every object key whose value is `null`, at any depth. Nulls in arrays, and a `null`
/// result on its own, are kept.
pub fn remove_null_keys(value: &mut JsonValue)
    ensures
        final(value)@ == semantics::stripped(old(value)@),
{
    let mut taken = JsonValue::Null;
    std::mem::swap(&mut taken, value);
    *value = strip(taken);
}

/// `value` without the object keys, at any depth, whose values are `null`.
fn strip(value: JsonValue) -> (stripped: JsonValue)
    ensures
        stripped@ == semantics::stripped(value@),
    decreases value,
{
    match value {
        JsonValue::Object(object) => {
            let ghost all = object@;
            let entries = object.into_entries();
            let mut kept = Object::new();
            assert(decreases_to!(value => entries));
            for entry in iter: entries.into_iter()
                invariant
                    value::distinct_keys(all),
                    iter.seq() == entries@,
                    value::members(entries@) == all,
                    decreases_to!(value => entries),
                    kept@ == semantics::stripped_members(all.take(iter.index() as int)),
            {
                let ghost done = iter.index() as int;
                assert(decreases_to!(entries => entries@[done]));
                let (key, inner) = entry;
                proof {
                    assert(all[done] == (key@, inner@));
                    assert(all.take(done + 1).drop_last() =~= all.take(done));
                    lemmas::lemma_take_fresh(all, done);
                    if value::has_key(kept@, key@) {
                        lemmas::lemma_stripped_keys(all.take(done), key@);
                    }
                }
                if !matches!(inner, JsonValue::Null) {
                    kept.append(key, strip(inner));
                }
            }
            assert(all.take(all.len() as int) =~= all);
            JsonValue::Object(kept)
        },
        JsonValue::Array(items) => {
            let ghost all = value::jsons(items@);
            let ghost expected = semantics::stripped(value@)->Array_0;
            let mut kept: Vec<JsonValue> = Vec::new();
            for item in iter: items.into_iter()
                invariant
                    iter.seq() == items@,
                    value == JsonValue::Array(items),
                    all == value::jsons(items@),
                    semantics::stripped(value@) == Json::Array(expected),
                    value::jsons(kept@) == expected.take(iter.index() as int),
            {
                let ghost done = iter.index() as int;
                assert(all[done] == item@);
                let inner = strip(item);
                proof {
                    value::lemma_jsons_push(kept@, inner);
                }
                kept.push(inner);
                assert(value::jsons(kept@) =~= expected.take(done + 1));
            }
            assert(value::jsons(kept@) =~= expected);
            JsonValue::Array(kept)
        },
        other => other,
    }
}

} // verus!
