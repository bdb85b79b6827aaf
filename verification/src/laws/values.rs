//! Laws of values: comparing them, and what they stand for.

use crate::exec;
use crate::exec::ExecError;
use crate::op;
use crate::op::{Matcher, Op, Pattern, PickEntry, Step};
use crate::value;
use crate::value::{Json, JsonValue, Object};
use vstd::prelude::*;
use vstd::std_specs::cmp::PartialEqSpec;

verus! {

/// The order of the members of an object makes no difference to what it compares equal to.
pub proof fn order_makes_no_difference(
    members: Seq<(Seq<char>, Json)>,
    other: Seq<(Seq<char>, Json)>,
    reordered: Seq<(Seq<char>, Json)>,
)
    requires
        other.len() == reordered.len(),
        forall|key: Seq<char>| #[trigger]
            value::lookup(other, key) == value::lookup(reordered, key),
    ensures
        value::same_json(Json::Object(members), Json::Object(other)) == value::same_json(
            Json::Object(members),
            Json::Object(reordered),
        ),
{
    assert forall|i: int| 0 <= i < members.len() implies value::lookup(
        other,
        (#[trigger] members[i]).0,
    ) == value::lookup(reordered, members[i].0) by {}
    assert(value::same_members(members, other) == value::same_members(members, reordered));
}

/// Only values of one kind compare equal: `null` with itself, and booleans, numbers and strings that
/// are the same.
pub proof fn scalars_compare_by_what_they_hold(
    left: Json,
    right: Json,
    yes: bool,
    no: bool,
    number: serde_json::Number,
    other_number: serde_json::Number,
    text: Seq<char>,
    other_text: Seq<char>,
)
    ensures
        value::same_json(Json::Null, right) <==> right == Json::Null,
        value::same_json(left, Json::Null) <==> left == Json::Null,
        value::same_json(Json::Bool(yes), right) <==> right == Json::Bool(yes),
        value::same_json(left, Json::Bool(no)) <==> left == Json::Bool(no),
        value::same_json(Json::String(text), right) <==> right == Json::String(text),
        value::same_json(left, Json::String(other_text)) <==> left == Json::String(other_text),
        value::same_json(Json::Number(number), Json::Number(other_number))
            <==> value::numbers_equal(number, other_number),
        value::same_json(left, right) ==> (left is Number <==> right is Number),
        value::same_json(left, right) ==> (left is Array <==> right is Array),
        value::same_json(left, right) ==> (left is Object <==> right is Object),
{
}

/// Arrays compare equal where they are of one length and their elements compare equal, one by one.
pub proof fn arrays_compare_element_by_element(
    left: Seq<Json>,
    right: Seq<Json>,
    item: Json,
    other: Json,
)
    ensures
        left.len() != right.len() ==> !value::same_json(Json::Array(left), Json::Array(right)),
        value::same_json(Json::Array(Seq::empty()), Json::Array(Seq::empty())),
        value::same_json(Json::Array(left.push(item)), Json::Array(right.push(other))) <==> (
        value::same_json(Json::Array(left), Json::Array(right)) && value::same_json(item, other)),
{
    let lefts = left.push(item);
    let rights = right.push(other);
    if value::same_json(Json::Array(lefts), Json::Array(rights)) {
        assert forall|i: int| 0 <= i < left.len() implies value::same_json(
            #[trigger] left[i],
            right[i],
        ) by {
            assert(lefts[i] == left[i] && rights[i] == right[i]);
            assert(value::same_json(lefts[i], rights[i]));
        }
        assert(value::same_json(lefts[left.len() as int], rights[left.len() as int]));
    }
    if value::same_json(Json::Array(left), Json::Array(right)) && value::same_json(item, other) {
        assert forall|i: int| 0 <= i < lefts.len() implies value::same_json(
            #[trigger] lefts[i],
            rights[i],
        ) by {
            if i < left.len() {
                assert(value::same_json(left[i], right[i]));
            }
        }
    }
}

/// Objects compare equal where they have as many members and each member of the one has its key in
/// the other, with a value that compares equal.
pub proof fn objects_compare_key_by_key(
    left: Seq<(Seq<char>, Json)>,
    right: Seq<(Seq<char>, Json)>,
)
    requires
        forall|i: int, j: int|
            0 <= i < j < right.len() ==> (#[trigger] right[i]).0 != (#[trigger] right[j]).0,
    ensures
        value::same_json(Json::Object(left), Json::Object(right)) <==> (left.len() == right.len()
            && forall|i: int|
            0 <= i < left.len() ==> exists|j: int|
                0 <= j < right.len() && (#[trigger] right[j]).0 == (#[trigger] left[i]).0
                    && value::same_json(left[i].1, right[j].1)),
{
    if value::same_members(left, right) {
        assert forall|i: int| 0 <= i < left.len() implies exists|j: int|
            0 <= j < right.len() && (#[trigger] right[j]).0 == (#[trigger] left[i]).0
                && value::same_json(left[i].1, right[j].1) by {
            let j = value::key_index(right, left[i].0) as int;
            value::lemma_key_index(right, left[i].0);
            assert(right[j].0 == left[i].0);
        }
    }
    if left.len() == right.len() && forall|i: int|
        0 <= i < left.len() ==> exists|j: int|
            0 <= j < right.len() && (#[trigger] right[j]).0 == (#[trigger] left[i]).0
                && value::same_json(left[i].1, right[j].1) {
        assert forall|i: int| 0 <= i < left.len() implies match value::lookup(
            right,
            (#[trigger] left[i]).0,
        ) {
            Some(found) => value::same_json(left[i].1, found),
            None => false,
        } by {
            let j = choose|j: int|
                0 <= j < right.len() && (#[trigger] right[j]).0 == left[i].0 && value::same_json(
                    left[i].1,
                    right[j].1,
                );
            value::lemma_key_index_distinct(right, j);
        }
        assert(value::same_members(left, right));
    }
}

/// `==` compares values as above, and selectors by how they are written.
pub proof fn what_equality_means(
    left: JsonValue,
    right: JsonValue,
    object: Object,
    other: Object,
    pattern: Pattern,
    another: Pattern,
)
    ensures
        left.eq_spec(&right) <==> value::same_json(left@, right@),
        object.eq_spec(&other) <==> value::same_json(Json::Object(object@), Json::Object(other@)),
        pattern is Any ==> (pattern.eq_spec(&another) <==> another is Any),
        pattern matches Pattern::Contains(name) ==> (pattern.eq_spec(&another) <==> (
        another matches Pattern::Contains(text) && text@ == name@)),
        pattern matches Pattern::Regex(regex) ==> (pattern.eq_spec(&another) <==> (
        another matches Pattern::Regex(text) && op::regex_source(text) == op::regex_source(regex))),
{
}

/// A value stands for what it holds, and so do the members of an object and what a query gives.
pub proof fn what_values_stand_for(
    flag: bool,
    number: serde_json::Number,
    text: String,
    items: Vec<JsonValue>,
    i: int,
    object: Object,
    entries: Vec<(String, JsonValue)>,
    k: int,
    error: ExecError,
)
    requires
        0 <= i < items@.len(),
        0 <= k < entries@.len(),
    ensures
        (JsonValue::Null)@ == Json::Null,
        JsonValue::Bool(flag)@ == Json::Bool(flag),
        JsonValue::Number(number)@ == Json::Number(number),
        JsonValue::String(text)@ == Json::String(text@),
        JsonValue::Array(items)@ matches Json::Array(all) && all.len() == items@.len() && all[i]
            == items@[i]@,
        JsonValue::Object(object)@ == Json::Object(object@),
        value::members(entries@).len() == entries@.len(),
        value::members(entries@)[k] == (entries@[k].0@, entries@[k].1@),
        exec::outcome(Ok(items)) matches Ok(all) && all.len() == items@.len() && all[i]
            == items@[i]@,
        exec::outcome(Err(error)) == Err::<Seq<Json>, ExecError>(error),
{
}

/// A step of a query stands for what it holds.
pub proof fn what_steps_stand_for(
    name: String,
    entries: Vec<PickEntry>,
    i: int,
    regex: regex::Regex,
    pattern: Pattern,
    ops: Vec<Op>,
    k: int,
    inner: Op,
    n: usize,
    start: Option<isize>,
    stop: Option<isize>,
)
    requires
        0 <= i < entries@.len(),
        0 <= k < ops@.len(),
    ensures
        (Pattern::Any)@ == Matcher::Any,
        Pattern::Contains(name)@ == Matcher::Contains(name@),
        Pattern::Regex(regex)@ == (Matcher::Regex {
            source: op::regex_source(regex),
            texts: op::regex_texts(regex),
        }),
        Op::Property(name)@ == Step::Property(name@),
        Op::PropertyPick(entries)@ matches Step::PropertyPick(all) && all.len() == entries@.len()
            && all[i].key == entries@[i].key@ && all[i].name == entries@[i].name@
            && all[i].steps.len() == entries@[i].steps@.len() && forall|j: int|
            0 <= j < entries@[i].steps@.len() ==> all[i].steps[j]
                == #[trigger] entries@[i].steps@[j]@,
        Op::PropertyValues(pattern)@ == Step::PropertyValues(pattern@),
        Op::PropertyKeys(pattern)@ == Step::PropertyKeys(pattern@),
        Op::PropertyMap(pattern, ops)@ matches Step::PropertyMap(matcher, all) && matcher
            == pattern@ && all.len() == ops@.len() && all[k] == ops@[k]@,
        Op::Descend(Box::new(inner))@ == Step::Descend(Box::new(inner@)),
        Op::DescendPaths(ops)@ matches Step::DescendPaths(all) && all.len() == ops@.len() && all[k]
            == ops@[k]@,
        (Op::Array)@ == Step::Array,
        Op::ArrayIndex(n)@ == Step::ArrayIndex(n as nat),
        (Op::ArraySlice { start, stop })@ matches Step::ArraySlice { start: from, stop: to } && {
            &&& start is None ==> from is None
            &&& start matches Some(bound) ==> from == Some(bound as int)
            &&& stop is None ==> to is None
            &&& stop matches Some(bound) ==> to == Some(bound as int)
        },
{
    assert(op::entries_of(entries@)[i] == op::entry_of(entries@[i]));
    assert(op::steps_of(ops@)[k] == op::step_of(ops@[k]));
    assert forall|j: int| 0 <= j < entries@[i].steps@.len() implies op::steps_of(
        entries@[i].steps@,
    )[j] == #[trigger] entries@[i].steps@[j]@ by {
        assert(op::steps_of(entries@[i].steps@)[j] == op::step_of(entries@[i].steps@[j]));
    }
}

} // verus!
