//! Laws of what a pruned document keeps of each object, and where.

use crate::exec::ExecError;
use crate::laws::members;
use crate::lemmas;
use crate::op;
use crate::op::{Matcher, Step};
use crate::semantics;
use crate::semantics::{Part, Place};
use crate::text;
use crate::value;
use crate::value::Json;
use vstd::prelude::*;

verus! {

/// After a step that selects properties by key, each matching key is kept with what the other steps
/// find in its value, in order, and a key where they find nothing is left out. The error is that of
/// the first matching key for whose value the steps fail.
pub proof fn a_selection_finds_member_by_member(
    selection: Step,
    matcher: Matcher,
    rest: Seq<Step>,
    some: Seq<(Seq<char>, Json)>,
    more: Seq<(Seq<char>, Json)>,
    member: (Seq<char>, Json),
)
    requires
        selection == Step::PropertyValues(matcher) || selection == Step::PropertyKeys(matcher),
    ensures
        semantics::found_in(seq![selection] + rest, Seq::empty()) == Ok::<
            Seq<(Seq<char>, Json)>,
            ExecError,
        >(Seq::empty()),
        !op::matches_key(matcher, member.0) ==> semantics::found_in(
            seq![selection] + rest,
            seq![member],
        ) == Ok::<Seq<(Seq<char>, Json)>, ExecError>(Seq::empty()),
        op::matches_key(matcher, member.0) ==> semantics::found_in(
            seq![selection] + rest,
            seq![member],
        ) == match semantics::run(rest, seq![member.1], false) {
            Ok(results) => match semantics::found_value(rest, results) {
                Some(found) => Ok(seq![(member.0, found)]),
                None => Ok(Seq::empty()),
            },
            Err(error) => Err(error),
        },
        semantics::found_in(seq![selection] + rest, some + more) == match (
            semantics::found_in(seq![selection] + rest, some),
            semantics::found_in(seq![selection] + rest, more),
        ) {
            (Ok(left), Ok(right)) => Ok(left + right),
            (Err(error), _) => Err(error),
            (_, Err(error)) => Err(error),
        },
{
    let steps = seq![selection] + rest;
    assert(steps[0] == selection);
    assert(steps.drop_first() =~= rest);
    members::lemma_matching(matcher, some, more, member);
    lemma_found_in_values(
        rest,
        semantics::matching(matcher, some),
        semantics::matching(matcher, more),
        member,
    );
}

proof fn lemma_found_in_values(
    steps: Seq<Step>,
    some: Seq<(Seq<char>, Json)>,
    more: Seq<(Seq<char>, Json)>,
    member: (Seq<char>, Json),
)
    ensures
        semantics::found_in_values(steps, Seq::empty()) == Ok::<
            Seq<(Seq<char>, Json)>,
            ExecError,
        >(Seq::empty()),
        semantics::found_in_values(steps, seq![member]) == match semantics::run(
            steps,
            seq![member.1],
            false,
        ) {
            Ok(results) => match semantics::found_value(steps, results) {
                Some(found) => Ok(seq![(member.0, found)]),
                None => Ok(Seq::empty()),
            },
            Err(error) => Err(error),
        },
        semantics::found_in_values(steps, some + more) == match (
            semantics::found_in_values(steps, some),
            semantics::found_in_values(steps, more),
        ) {
            (Ok(left), Ok(right)) => Ok(left + right),
            (Err(error), _) => Err(error),
            (_, Err(error)) => Err(error),
        },
    decreases more.len(),
{
    let none = Seq::<(Seq<char>, Json)>::empty();
    assert(semantics::found_in_values(steps, none) == Ok::<Seq<(Seq<char>, Json)>, ExecError>(
        none,
    ));
    assert(seq![member].drop_last() =~= none);
    assert(seq![member].last() == member);
    if let Ok(results) = semantics::run(steps, seq![member.1], false) {
        if let Some(found) = semantics::found_value(steps, results) {
            assert(none.push((member.0, found)) =~= seq![(member.0, found)]);
        }
    }
    let all = some + more;
    if more.len() == 0 {
        assert(all =~= some);
        assert(more =~= none);
        if let Ok(left) = semantics::found_in_values(steps, some) {
            assert(left + none =~= left);
        }
    } else {
        let before = more.drop_last();
        lemma_found_in_values(steps, some, before, member);
        assert(all.drop_last() =~= some + before);
        assert(all.last() == more.last());
        if let (Ok(left), Ok(right)) = (
            semantics::found_in_values(steps, some),
            semantics::found_in_values(steps, more),
        ) {
            let done = semantics::found_in_values(steps, before)->Ok_0;
            if done.len() < right.len() {
                assert((left + done).push(right.last()) =~= left + right);
            } else {
                assert(done == right);
            }
        }
    }
}

/// Of the object that a pick, or a keys step with steps after it, builds from an object, the members
/// are kept that are not `null`, in order.
pub proof fn a_built_object_is_kept_without_nulls(
    step: Step,
    rest: Seq<Step>,
    members: Seq<(Seq<char>, Json)>,
)
    requires
        step is PropertyPick || step is PropertyMap,
    ensures
        semantics::found_in(seq![step] + rest, members) == match semantics::apply(
            step,
            Json::Object(members),
        ) {
            Ok(built) => Ok(
                built[0]->Object_0.filter(
                    |member: (Seq<char>, Json)| member.1 != Json::Null,
                ),
            ),
            Err(error) => Err(error),
        },
{
    let steps = seq![step] + rest;
    assert(steps[0] == step);
    if let Ok(built) = semantics::apply(step, Json::Object(members)) {
        lemmas::lemma_filter_same(
            built[0]->Object_0,
            |member: (Seq<char>, Json)| member.1 !is Null,
            |member: (Seq<char>, Json)| member.1 != Json::Null,
        );
    }
}

/// After a property, what the steps find in the object is kept under the last of the names that the
/// steps start with. Here those are the names among the first `count` steps, which are properties and
/// array steps, and `last` is where the last of the names stands.
pub proof fn a_path_is_kept_under_its_last_name(
    steps: Seq<Step>,
    count: int,
    last: int,
    members: Seq<(Seq<char>, Json)>,
)
    requires
        0 <= last < count <= steps.len(),
        steps[0] is Property,
        forall|i: int|
            0 <= i < count ==> (#[trigger] steps[i] is Property || steps[i] is Array || steps[i]
                is ArrayIndex || steps[i] is ArraySlice),
        count < steps.len() ==> !(steps[count] is Property || steps[count] is Array || steps[count]
            is ArrayIndex || steps[count] is ArraySlice),
        steps[last] is Property,
        forall|i: int| last < i < count ==> !(#[trigger] steps[i] is Property),
    ensures
        semantics::found_in(steps, members) == match semantics::run(
            steps,
            seq![Json::Object(members)],
            false,
        ) {
            Ok(results) => match semantics::found_value(steps, results) {
                Some(found) => Ok(seq![(steps[last]->Property_0, found)]),
                None => Ok(Seq::empty()),
            },
            Err(error) => Err(error),
        },
        semantics::last_name(steps) == Some(steps[last]->Property_0),
{
    lemma_last_name(steps, count, last);
}

proof fn lemma_last_name(steps: Seq<Step>, count: int, last: int)
    requires
        -1 <= last < count <= steps.len(),
        forall|i: int|
            0 <= i < count ==> (#[trigger] steps[i] is Property || steps[i] is Array || steps[i]
                is ArrayIndex || steps[i] is ArraySlice),
        count < steps.len() ==> !(steps[count] is Property || steps[count] is Array || steps[count]
            is ArrayIndex || steps[count] is ArraySlice),
        last >= 0 ==> steps[last] is Property,
        forall|i: int| last < i < count ==> !(#[trigger] steps[i] is Property),
    ensures
        semantics::last_name(steps) == if last >= 0 {
            Some(steps[last]->Property_0)
        } else {
            None::<Seq<char>>
        },
    decreases steps.len(),
{
    if count > 0 {
        let rest = steps.drop_first();
        assert forall|i: int| 0 <= i < count - 1 implies (#[trigger] rest[i] is Property || rest[i]
            is Array || rest[i] is ArrayIndex || rest[i] is ArraySlice) by {
            assert(rest[i] == steps[i + 1]);
        }
        let next = if last > 0 {
            last - 1
        } else {
            -1
        };
        assert forall|i: int| next < i < count - 1 implies !(#[trigger] rest[i] is Property) by {
            assert(rest[i] == steps[i + 1]);
        }
        lemma_last_name(rest, count - 1, next);
        assert(steps[0] is Property || op::is_array(steps[0]));
    }
}

/// A step that does not work on objects finds nothing in one, or fails as it does on an empty one.
pub proof fn other_steps_find_nothing(steps: Seq<Step>, members: Seq<(Seq<char>, Json)>)
    requires
        steps.len() > 0,
        steps[0] is Array || steps[0] is ArrayIndex || steps[0] is ArraySlice || steps[0] is Descend
            || steps[0] is DescendPaths,
    ensures
        semantics::found_in(steps, members) == match semantics::run(
            steps,
            seq![Json::Object(Seq::empty())],
            false,
        ) {
            Ok(_) => Ok(Seq::<(Seq<char>, Json)>::empty()),
            Err(error) => Err(error),
        },
{
    let empty = Json::Object(Seq::empty());
    if op::is_array(steps[0]) {
        lemmas::lemma_apply_one(steps[0], empty);
        assert(semantics::apply_all(steps[0], seq![empty]) is Err);
    } else {
        assert(semantics::last_name(steps) is None);
    }
}

/// Without steps, nothing is kept of an object.
pub proof fn without_steps_nothing_is_found(members: Seq<(Seq<char>, Json)>)
    ensures
        semantics::found_in(Seq::empty(), members) == Ok::<Seq<(Seq<char>, Json)>, ExecError>(
            Seq::empty(),
        ),
{
}

/// A pruned document starts empty, and takes what the steps find in each object of the document, at
/// the path to the object, in document order. An object in which they find nothing leaves no trace,
/// unless there are no steps.
pub proof fn what_is_found_is_planted_in_turn(
    steps: Seq<Step>,
    node: Json,
    places: Seq<Place>,
    place: Place,
)
    ensures
        semantics::apply(Step::DescendPaths(steps), node) == match semantics::pruned(
            steps,
            semantics::places(node, Seq::empty()),
        ) {
            Ok(tree) => Ok(seq![tree]),
            Err(error) => Err(error),
        },
        semantics::pruned(steps, Seq::empty()) == Ok::<Json, ExecError>(
            Json::Object(Seq::empty()),
        ),
        semantics::pruned(steps, places.push(place)) == match (
            semantics::pruned(steps, places),
            semantics::found_in(steps, place.object),
        ) {
            (Ok(tree), Ok(found)) => if steps == Seq::<Step>::empty() || found
                != Seq::<(Seq<char>, Json)>::empty() {
                Ok(semantics::planted(tree, place.path, found))
            } else {
                Ok(tree)
            },
            (Err(error), _) => Err(error),
            (_, Err(error)) => Err(error),
        },
{
    let all = places.push(place);
    assert(all.drop_last() =~= places);
    assert(all.last() == place);
    assert(semantics::pruned(steps, Seq::empty()) == Ok::<Json, ExecError>(
        Json::Object(Seq::empty()),
    ));
    if steps.len() == 0 {
        assert(steps =~= Seq::empty());
    }
    if let Ok(found) = semantics::found_in(steps, place.object) {
        if found.len() == 0 {
            assert(found =~= Seq::empty());
        }
    }
}

/// What is found is put into the object that the path ends at. Where it ends at anything else, that
/// stays as it is.
pub proof fn planting_at_the_end_of_a_path(
    members: Seq<(Seq<char>, Json)>,
    other: Json,
    found: Seq<(Seq<char>, Json)>,
)
    requires
        !(other is Object),
    ensures
        semantics::planted(Json::Object(members), Seq::empty(), found) == Json::Object(
            value::put_all(members, found),
        ),
        semantics::planted(other, Seq::empty(), found) == other,
{
}

/// On its way a path goes through the member under the key that stands for its first part, which is
/// added at the end where it is missing. The other members stay as they are.
pub proof fn planting_through_an_object(
    members: Seq<(Seq<char>, Json)>,
    part: Part,
    path: Seq<Part>,
    found: Seq<(Seq<char>, Json)>,
    other: Seq<char>,
)
    requires
        other != semantics::part_key(part),
    ensures
        semantics::planted(Json::Object(members), seq![part] + path, found) matches Json::Object(
            after,
        ) && {
            &&& value::lookup(after, semantics::part_key(part)) == Some(
                match value::lookup(members, semantics::part_key(part)) {
                    Some(child) => semantics::planted(child, path, found),
                    None => semantics::planted(Json::Object(Seq::empty()), path, found),
                },
            )
            &&& value::lookup(after, other) == value::lookup(members, other)
            &&& value::lookup(members, semantics::part_key(part)) is Some ==> after.len()
                == members.len()
            &&& value::lookup(members, semantics::part_key(part)) is None ==> after.len()
                == members.len() + 1
            &&& forall|i: int| 0 <= i < members.len() ==> (#[trigger] after[i]).0 == members[i].0
        },
{
    let whole = seq![part] + path;
    assert(whole[0] == part);
    assert(whole.drop_first() =~= path);
    let key = semantics::part_key(part);
    let child = match value::lookup(members, key) {
        Some(child) => child,
        None => Json::Object(Seq::empty()),
    };
    let grown = semantics::planted(child, path, found);
    value::lemma_put_lookup(members, key, grown, key);
    value::lemma_put_lookup(members, key, grown, other);
    value::lemma_key_index(members, key);
}

/// A path goes into an array by its index, and leaves the other elements as they are. Where the path
/// asks for a key of an array, or for an element that is not there, or for a part of anything that is
/// neither an array nor an object, nothing is changed.
pub proof fn planting_through_anything_else(
    items: Seq<Json>,
    index: nat,
    key: Seq<char>,
    scalar: Json,
    part: Part,
    path: Seq<Part>,
    found: Seq<(Seq<char>, Json)>,
)
    requires
        !(scalar is Object) && !(scalar is Array),
    ensures
        index < items.len() ==> semantics::planted(
            Json::Array(items),
            seq![Part::Index(index)] + path,
            found,
        ) == Json::Array(
            items.update(index as int, semantics::planted(items[index as int], path, found)),
        ),
        index >= items.len() ==> semantics::planted(
            Json::Array(items),
            seq![Part::Index(index)] + path,
            found,
        ) == Json::Array(items),
        semantics::planted(Json::Array(items), seq![Part::Key(key)] + path, found) == Json::Array(
            items,
        ),
        semantics::planted(scalar, seq![part] + path, found) == scalar,
{
    let by_index = seq![Part::Index(index)] + path;
    let by_key = seq![Part::Key(key)] + path;
    let whole = seq![part] + path;
    assert(by_index[0] == Part::Index(index) && by_key[0] == Part::Key(key) && whole[0] == part);
    assert(by_index.drop_first() =~= path);
}

/// A key stands for itself, and an index for its digits in square brackets.
pub proof fn what_stands_for_a_part(key: Seq<char>, index: nat)
    ensures
        semantics::part_key(Part::Key(key)) == key,
        semantics::part_key(Part::Index(index)) == seq!['['] + text::decimal(index) + seq![']'],
{
}

} // verus!
