//! What a query means: the results that its steps give for a value.

use crate::exec::ExecError;
use crate::op;
use crate::op::{Entry, Matcher, Step};
use crate::text;
use crate::value;
use crate::value::Json;
use vstd::prelude::*;

verus! {

/// One step of a path through a document: a key, or an array index.
pub enum Part {
    Key(Seq<char>),
    Index(nat),
}

/// An object in a document, and the path to it.
pub struct Place {
    pub path: Seq<Part>,
    pub object: Seq<(Seq<char>, Json)>,
}

/// Every object in `node`, at any depth, in document order, with each object before the ones
/// inside it. `path` is the path to `node`.
pub open spec fn places(node: Json, path: Seq<Part>) -> Seq<Place>
    decreases node,
{
    match node {
        Json::Object(members) => seq![Place { path, object: members }] + places_in_members(
            members,
            path,
        ),
        Json::Array(items) => places_in_items(items, path),
        _ => Seq::empty(),
    }
}

/// The objects in the values of `members`.
pub open spec fn places_in_members(members: Seq<(Seq<char>, Json)>, path: Seq<Part>) -> Seq<Place>
    decreases members,
{
    if members.len() == 0 {
        Seq::empty()
    } else {
        let last = members.last();
        places_in_members(members.drop_last(), path) + places(last.1, path.push(Part::Key(last.0)))
    }
}

/// The objects in the elements of an array.
pub open spec fn places_in_items(items: Seq<Json>, path: Seq<Part>) -> Seq<Place>
    decreases items,
{
    if items.len() == 0 {
        Seq::empty()
    } else {
        let index = (items.len() - 1) as nat;
        places_in_items(items.drop_last(), path) + places(
            items.last(),
            path.push(Part::Index(index)),
        )
    }
}

/// The members of an object whose keys match.
pub open spec fn matching(matcher: Matcher, members: Seq<(Seq<char>, Json)>) -> Seq<
    (Seq<char>, Json),
> {
    members.filter(|member: (Seq<char>, Json)| op::matches_key(matcher, member.0))
}

/// The values of `members`.
pub open spec fn values(members: Seq<(Seq<char>, Json)>) -> Seq<Json> {
    members.map_values(|member: (Seq<char>, Json)| member.1)
}

/// The keys of `members`, as strings.
pub open spec fn keys(members: Seq<(Seq<char>, Json)>) -> Seq<Json> {
    members.map_values(|member: (Seq<char>, Json)| Json::String(member.0))
}

/// The members whose values are not `null`.
pub open spec fn without_nulls(members: Seq<(Seq<char>, Json)>) -> Seq<(Seq<char>, Json)> {
    members.filter(|member: (Seq<char>, Json)| member.1 !is Null)
}

/// The value under `name`, or `null` if there is none.
pub open spec fn property(members: Seq<(Seq<char>, Json)>, name: Seq<char>) -> Json {
    match value::lookup(members, name) {
        Some(found) => found,
        None => Json::Null,
    }
}

/// Where a bound of a slice falls in an array of `len` elements: a negative bound counts from the
/// end, and a bound past either end is moved to that end.
pub open spec fn slice_bound(len: nat, bound: int) -> int {
    let at = if bound < 0 {
        bound + len
    } else {
        bound
    };
    if at < 0 {
        0
    } else if at > len {
        len as int
    } else {
        at
    }
}

/// Where a slice of an array of `len` elements starts.
pub open spec fn slice_start(len: nat, start: Option<int>) -> int {
    match start {
        Some(bound) => slice_bound(len, bound),
        None => 0,
    }
}

/// Where a slice of an array of `len` elements stops, which is never before it starts.
pub open spec fn slice_stop(len: nat, start: Option<int>, stop: Option<int>) -> int {
    let from = slice_start(len, start);
    let to = match stop {
        Some(bound) => slice_bound(len, bound),
        None => len as int,
    };
    if to < from {
        from
    } else {
        to
    }
}

/// Whether a slice is among `steps`.
pub open spec fn has_slice(steps: Seq<Step>) -> bool {
    exists|i: int| 0 <= i < steps.len() && #[trigger] steps[i] is ArraySlice
}

/// Whether a `[]` or a slice is among `steps`.
pub open spec fn always_array(steps: Seq<Step>) -> bool {
    exists|i: int|
        0 <= i < steps.len() && (#[trigger] steps[i] is Array || steps[i] is ArraySlice)
}

/// The results of `steps` as one value: the only result as it is, and otherwise an array of them.
/// A `[]` or a slice always gives an array.
pub open spec fn collected(steps: Seq<Step>, results: Seq<Json>) -> Json {
    if !always_array(steps) && results.len() == 1 {
        results[0]
    } else {
        Json::Array(results)
    }
}

/// The value that a key gets for the results of the steps after a keys step: `null` for no
/// results, except that a slice always gives an array.
pub open spec fn mapped_value(steps: Seq<Step>, results: Seq<Json>) -> Json {
    if results.len() == 0 && !has_slice(steps) {
        Json::Null
    } else {
        collected(steps, results)
    }
}

/// Whether the last of `steps` builds an object of its own.
pub open spec fn builds_object(steps: Seq<Step>) -> bool {
    steps.len() > 0 && (steps.last() is PropertyMap || steps.last() is DescendPaths)
}

/// The results of `steps` as one value, or nothing: no results, `null`, or an empty object from a
/// last step that builds one.
pub open spec fn found_value(steps: Seq<Step>, results: Seq<Json>) -> Option<Json> {
    if results.len() == 0 {
        None
    } else if results.len() == 1 && results[0] is Null {
        None
    } else if results.len() == 1 && results[0] == Json::Object(Seq::empty()) && builds_object(
        steps,
    ) {
        None
    } else {
        Some(collected(steps, results))
    }
}

/// The last of the names that `steps` start with, which array steps may follow.
pub open spec fn last_name(steps: Seq<Step>) -> Option<Seq<char>>
    decreases steps.len(),
{
    if steps.len() == 0 || !(steps[0] is Property || op::is_array(steps[0])) {
        None
    } else {
        match last_name(steps.drop_first()) {
            Some(name) => Some(name),
            None => match steps[0] {
                Step::Property(name) => Some(name),
                _ => None,
            },
        }
    }
}

/// The elements of each array among `results`, and every other result as it is.
pub open spec fn flattened(results: Seq<Json>) -> Seq<Json>
    decreases results.len(),
{
    if results.len() == 0 {
        Seq::empty()
    } else {
        flattened(results.drop_last()) + match results.last() {
            Json::Array(items) => items,
            other => seq![other],
        }
    }
}

/// The results that are not `null`.
pub open spec fn non_null(results: Seq<Json>) -> Seq<Json> {
    results.filter(|result: Json| result !is Null)
}

/// The results that are not empty objects.
pub open spec fn non_empty(results: Seq<Json>) -> Seq<Json> {
    results.filter(|result: Json| result != Json::Object(Seq::empty()))
}

/// The step that gives the results of `step`: the one inside `**`, or else `step` itself.
pub open spec fn inner_step(step: Step) -> Step {
    match step {
        Step::Descend(inner) => *inner,
        _ => step,
    }
}

/// Whether a property step gives the elements of an array instead of the array: it does unless the
/// step after it is an array step.
pub open spec fn flattens(steps: Seq<Step>) -> bool {
    inner_step(steps[0]) is Property && !(steps.len() > 1 && op::is_array(steps[1]))
}

/// What is kept of the results of the first of `steps`. Once a step has fanned out, as `**` does
/// before the step inside it, arrays that a property holds are flattened, and `null` and empty
/// objects built by the step are left out.
pub open spec fn tidied(steps: Seq<Step>, fanned_out: bool, results: Seq<Json>) -> Seq<Json> {
    if !fanned_out && !(steps[0] is Descend) {
        results
    } else {
        let spread = if flattens(steps) {
            flattened(results)
        } else {
            results
        };
        let kept = non_null(spread);
        if inner_step(steps[0]) is PropertyMap || inner_step(steps[0]) is DescendPaths {
            non_empty(kept)
        } else {
            kept
        }
    }
}

/// What of an object a step can see that runs inside a document: all of it for an object step, and
/// nothing for any other step.
pub open spec fn seen_by(step: Step, members: Seq<(Seq<char>, Json)>) -> Json {
    if op::is_object(step) {
        Json::Object(members)
    } else {
        Json::Object(Seq::empty())
    }
}

/// Whether an object step reads the property `key`.
pub open spec fn reads(step: Step, key: Seq<char>) -> bool {
    match step {
        Step::Property(name) => name == key,
        Step::PropertyPick(entries) => exists|i: int|
            0 <= i < entries.len() && (#[trigger] entries[i]).name == key,
        Step::PropertyValues(matcher) => op::matches_key(matcher, key),
        Step::PropertyKeys(matcher) => op::matches_key(matcher, key),
        Step::PropertyMap(matcher, _) => op::matches_key(matcher, key),
        _ => false,
    }
}

/// The members of an object that an object step reads. A keys step reads only their keys.
pub open spec fn read_by(step: Step, members: Seq<(Seq<char>, Json)>) -> Seq<(Seq<char>, Json)> {
    let read = members.filter(|member: (Seq<char>, Json)| reads(step, member.0));
    if step is PropertyKeys {
        read.map_values(|member: (Seq<char>, Json)| (member.0, Json::Null))
    } else {
        read
    }
}

/// The results of running `steps` in turn, each on every result of the one before it. `fanned_out`
/// says whether a step before them has fanned out.
pub open spec fn run(steps: Seq<Step>, nodes: Seq<Json>, fanned_out: bool) -> Result<
    Seq<Json>,
    ExecError,
>
    decreases steps, 3int, 0int,
{
    if steps.len() == 0 {
        Ok(nodes)
    } else {
        match apply_all(steps[0], nodes) {
            Ok(results) => run(
                steps.drop_first(),
                tidied(steps, fanned_out, results),
                fanned_out || op::fans_out(steps[0]),
            ),
            Err(error) => Err(error),
        }
    }
}

/// The results of running `step` on each of `nodes`, one behind the other, or the first error.
pub open spec fn apply_all(step: Step, nodes: Seq<Json>) -> Result<Seq<Json>, ExecError>
    decreases step, 2int, nodes.len(),
{
    if nodes.len() == 0 {
        Ok(Seq::empty())
    } else {
        match apply_all(step, nodes.drop_last()) {
            Ok(before) => match apply(step, nodes.last()) {
                Ok(results) => Ok(before + results),
                Err(error) => Err(error),
            },
            Err(error) => Err(error),
        }
    }
}

/// The results of running `step` on `node`.
pub open spec fn apply(step: Step, node: Json) -> Result<Seq<Json>, ExecError>
    decreases step, 1int, 0int,
{
    match step {
        Step::Property(name) => match node {
            Json::Object(members) => Ok(seq![property(members, name)]),
            Json::Null => Ok(seq![Json::Null]),
            _ => Err(ExecError::NotAnObject),
        },
        Step::PropertyPick(entries) => match node {
            Json::Object(members) => one_object(picked(entries, members)),
            Json::Null => one_object(picked(entries, Seq::empty())),
            _ => Err(ExecError::NotAnObject),
        },
        Step::PropertyValues(matcher) => match node {
            Json::Object(members) => Ok(values(matching(matcher, members))),
            _ => Err(ExecError::NotAnObject),
        },
        Step::PropertyKeys(matcher) => match node {
            Json::Object(members) => Ok(keys(matching(matcher, members))),
            _ => Err(ExecError::NotAnObject),
        },
        Step::PropertyMap(matcher, steps) => match node {
            Json::Object(members) => one_object(mapped(steps, matching(matcher, members))),
            _ => Err(ExecError::NotAnObject),
        },
        Step::Descend(inner) => apply_all(
            *inner,
            places(node, Seq::empty()).map_values(|place: Place| seen_by(*inner, place.object)),
        ),
        Step::DescendPaths(steps) => match pruned(steps, places(node, Seq::empty())) {
            Ok(tree) => Ok(seq![tree]),
            Err(error) => Err(error),
        },
        Step::Array => match node {
            Json::Array(items) => Ok(items),
            Json::Null => Ok(Seq::empty()),
            _ => Err(ExecError::NotAnArray),
        },
        Step::ArrayIndex(n) => match node {
            Json::Array(items) => Ok(
                seq![
                    if n < items.len() {
                        items[n as int]
                    } else {
                        Json::Null
                    },
                ],
            ),
            Json::Null => Ok(seq![Json::Null]),
            _ => Err(ExecError::NotAnArray),
        },
        Step::ArraySlice { start, stop } => match node {
            Json::Array(items) => Ok(
                items.subrange(
                    slice_start(items.len(), start),
                    slice_stop(items.len(), start, stop),
                ),
            ),
            Json::Null => Ok(Seq::empty()),
            _ => Err(ExecError::NotAnArray),
        },
    }
}

/// What `step` has given for `node` by the time it fails: what the step inside `**` gives for the
/// objects before the one it fails on, and nothing for any other step.
pub open spec fn given_before_error(step: Step, node: Json) -> Seq<Json>
    decreases step, 1int, 0int,
{
    match step {
        Step::Descend(inner) => all_given_before_error(
            *inner,
            places(node, Seq::empty()).map_values(|place: Place| seen_by(*inner, place.object)),
        ),
        _ => Seq::empty(),
    }
}

/// What `step` has given for `nodes`, one behind the other, by the time it fails on one of them.
pub open spec fn all_given_before_error(step: Step, nodes: Seq<Json>) -> Seq<Json>
    decreases step, 2int, nodes.len(),
{
    if nodes.len() == 0 {
        Seq::empty()
    } else {
        match apply_all(step, nodes.drop_last()) {
            Ok(before) => before + given_before_error(step, nodes.last()),
            Err(_) => all_given_before_error(step, nodes.drop_last()),
        }
    }
}

/// The one result of a step that builds an object.
pub open spec fn one_object(built: Result<Seq<(Seq<char>, Json)>, ExecError>) -> Result<
    Seq<Json>,
    ExecError,
> {
    match built {
        Ok(members) => Ok(seq![Json::Object(members)]),
        Err(error) => Err(error),
    }
}

/// A member for each of `entries`: what its steps give for the value of its property.
pub open spec fn picked(entries: Seq<Entry>, members: Seq<(Seq<char>, Json)>) -> Result<
    Seq<(Seq<char>, Json)>,
    ExecError,
>
    decreases entries, 4int, 0int,
{
    if entries.len() == 0 {
        Ok(Seq::empty())
    } else {
        let entry = entries.last();
        match picked(entries.drop_last(), members) {
            Ok(before) => match run(entry.steps, seq![property(members, entry.name)], false) {
                Ok(results) => Ok(value::put(before, entry.key, collected(entry.steps, results))),
                Err(error) => Err(error),
            },
            Err(error) => Err(error),
        }
    }
}

/// `members` with each value replaced by what `steps` give for it.
pub open spec fn mapped(steps: Seq<Step>, members: Seq<(Seq<char>, Json)>) -> Result<
    Seq<(Seq<char>, Json)>,
    ExecError,
>
    decreases steps, 4int, members.len(),
{
    if members.len() == 0 {
        Ok(Seq::empty())
    } else {
        let member = members.last();
        match mapped(steps, members.drop_last()) {
            Ok(before) => match run(steps, seq![member.1], false) {
                Ok(results) => Ok(before.push((member.0, mapped_value(steps, results)))),
                Err(error) => Err(error),
            },
            Err(error) => Err(error),
        }
    }
}

/// `members` with each value replaced by what `steps` find in it, without the members where they
/// find nothing.
pub open spec fn found_in_values(steps: Seq<Step>, members: Seq<(Seq<char>, Json)>) -> Result<
    Seq<(Seq<char>, Json)>,
    ExecError,
>
    decreases steps, 4int, members.len(),
{
    if members.len() == 0 {
        Ok(Seq::empty())
    } else {
        let member = members.last();
        match found_in_values(steps, members.drop_last()) {
            Ok(before) => match run(steps, seq![member.1], false) {
                Ok(results) => match found_value(steps, results) {
                    Some(found) => Ok(before.push((member.0, found))),
                    None => Ok(before),
                },
                Err(error) => Err(error),
            },
            Err(error) => Err(error),
        }
    }
}

/// What `steps` find in an object, under the keys that a pruned document holds it by:
///
/// - After a step that selects properties by key, each matching key, with what the other steps
///   find in its value.
/// - A pick, or a keys step with steps after it, builds an object already.
/// - Otherwise what the steps give is held under the last of the names that they start with.
pub open spec fn found_in(steps: Seq<Step>, members: Seq<(Seq<char>, Json)>) -> Result<
    Seq<(Seq<char>, Json)>,
    ExecError,
>
    decreases steps, 5int, 0int,
{
    if steps.len() == 0 {
        Ok(Seq::empty())
    } else {
        match steps[0] {
            Step::PropertyValues(matcher) => found_in_values(
                steps.drop_first(),
                matching(matcher, members),
            ),
            Step::PropertyKeys(matcher) => found_in_values(
                steps.drop_first(),
                matching(matcher, members),
            ),
            Step::PropertyPick(entries) => match picked(entries, members) {
                Ok(built) => Ok(without_nulls(built)),
                Err(error) => Err(error),
            },
            Step::PropertyMap(matcher, inner) => match mapped(inner, matching(matcher, members)) {
                Ok(built) => Ok(without_nulls(built)),
                Err(error) => Err(error),
            },
            first => match run(steps, seq![seen_by(first, members)], false) {
                Ok(results) => match (last_name(steps), found_value(steps, results)) {
                    (Some(name), Some(found)) => Ok(seq![(name, found)]),
                    _ => Ok(Seq::empty()),
                },
                Err(error) => Err(error),
            },
        }
    }
}

/// The document that holds what `steps` find in each of the objects at `places`, and nothing else.
/// Without steps, the document that holds each of the objects, emptied.
pub open spec fn pruned(steps: Seq<Step>, places: Seq<Place>) -> Result<Json, ExecError>
    decreases steps, 6int, places.len(),
{
    if places.len() == 0 {
        Ok(Json::Object(Seq::empty()))
    } else {
        let place = places.last();
        match pruned(steps, places.drop_last()) {
            Ok(tree) => match found_in(steps, place.object) {
                Ok(found) => if steps.len() == 0 || found.len() > 0 {
                    Ok(planted(tree, place.path, found))
                } else {
                    Ok(tree)
                },
                Err(error) => Err(error),
            },
            Err(error) => Err(error),
        }
    }
}

/// The key that stands for one step of a path: array elements are under keys like `[0]`.
pub open spec fn part_key(part: Part) -> Seq<char> {
    match part {
        Part::Key(key) => key,
        Part::Index(index) => seq!['['] + text::decimal(index) + seq![']'],
    }
}

/// `tree` with `found` put into the object at `path`, and with the objects on the way, where they
/// are missing. Where `tree` holds an array on the path, the path is followed into it. Where the
/// path leads through or to anything else, the tree stays as it is: the value there holds what is
/// below it already.
pub open spec fn planted(tree: Json, path: Seq<Part>, found: Seq<(Seq<char>, Json)>) -> Json
    decreases path.len(),
{
    if path.len() == 0 {
        match tree {
            Json::Object(members) => Json::Object(value::put_all(members, found)),
            _ => tree,
        }
    } else {
        match (tree, path[0]) {
            (Json::Array(items), Part::Index(index)) => if index < items.len() {
                Json::Array(
                    items.update(
                        index as int,
                        planted(items[index as int], path.drop_first(), found),
                    ),
                )
            } else {
                tree
            },
            (Json::Object(members), part) => {
                let child = match value::lookup(members, part_key(part)) {
                    Some(child) => child,
                    None => Json::Object(Seq::empty()),
                };
                Json::Object(
                    value::put(members, part_key(part), planted(child, path.drop_first(), found)),
                )
            },
            _ => tree,
        }
    }
}

/// `json` without the members, at any depth, whose values are `null`.
pub open spec fn stripped(json: Json) -> Json
    decreases json,
{
    match json {
        Json::Object(members) => Json::Object(stripped_members(members)),
        Json::Array(items) => Json::Array(
            Seq::new(
                items.len(),
                |i: int|
                    if 0 <= i < items.len() {
                        stripped(items[i])
                    } else {
                        Json::Null
                    },
            ),
        ),
        _ => json,
    }
}

/// `members` without those whose values are `null`, and with the others stripped.
pub open spec fn stripped_members(members: Seq<(Seq<char>, Json)>) -> Seq<(Seq<char>, Json)>
    decreases members,
{
    if members.len() == 0 {
        Seq::empty()
    } else {
        let before = stripped_members(members.drop_last());
        let last = members.last();
        if last.1 is Null {
            before
        } else {
            before.push((last.0, stripped(last.1)))
        }
    }
}

} // verus!
