//! Laws of `**` and `**^`, which look at every object in a value.

use crate::exec::ExecError;
use crate::laws::results;
use crate::lemmas;
use crate::op;
use crate::op::Step;
use crate::semantics;
use crate::semantics::{Part, Place};
use crate::value::Json;
use vstd::prelude::*;

verus! {

/// `places`, with `part` before each path.
pub open spec fn moved(part: Part, places: Seq<Place>) -> Seq<Place> {
    places.map_values(
        |place: Place| Place { path: seq![part] + place.path, object: place.object },
    )
}

/// What `step` can see of the objects at `places`.
spec fn seen(step: Step, places: Seq<Place>) -> Seq<Json> {
    places.map_values(|place: Place| semantics::seen_by(step, place.object))
}

/// The objects in a value are the same wherever the value stands, and their paths start with the
/// path to it.
proof fn lemma_places_moved(node: Json, part: Part, path: Seq<Part>)
    ensures
        semantics::places(node, seq![part] + path) == moved(part, semantics::places(node, path)),
    decreases node,
{
    match node {
        Json::Object(members) => {
            lemma_members_moved(members, part, path);
            let left = seq![Place { path: seq![part] + path, object: members }]
                + semantics::places_in_members(members, seq![part] + path);
            let right = seq![Place { path, object: members }] + semantics::places_in_members(
                members,
                path,
            );
            assert(left =~= moved(part, right));
        },
        Json::Array(items) => {
            lemma_items_moved(items, part, path);
        },
        _ => {
            assert(moved(part, Seq::empty()) =~= Seq::empty());
        },
    }
}

proof fn lemma_members_moved(members: Seq<(Seq<char>, Json)>, part: Part, path: Seq<Part>)
    ensures
        semantics::places_in_members(members, seq![part] + path) == moved(
            part,
            semantics::places_in_members(members, path),
        ),
    decreases members,
{
    if members.len() == 0 {
        assert(moved(part, Seq::empty()) =~= Seq::empty());
    } else {
        let before = members.drop_last();
        let last = members.last();
        lemma_members_moved(before, part, path);
        lemma_places_moved(last.1, part, path.push(Part::Key(last.0)));
        assert((seq![part] + path).push(Part::Key(last.0)) =~= seq![part] + path.push(
            Part::Key(last.0),
        ));
        assert(moved(
            part,
            semantics::places_in_members(before, path) + semantics::places(
                last.1,
                path.push(Part::Key(last.0)),
            ),
        ) =~= moved(part, semantics::places_in_members(before, path)) + moved(
            part,
            semantics::places(last.1, path.push(Part::Key(last.0))),
        ));
    }
}

proof fn lemma_items_moved(items: Seq<Json>, part: Part, path: Seq<Part>)
    ensures
        semantics::places_in_items(items, seq![part] + path) == moved(
            part,
            semantics::places_in_items(items, path),
        ),
    decreases items,
{
    if items.len() == 0 {
        assert(moved(part, Seq::empty()) =~= Seq::empty());
    } else {
        let before = items.drop_last();
        let index = Part::Index((items.len() - 1) as nat);
        lemma_items_moved(before, part, path);
        lemma_places_moved(items.last(), part, path.push(index));
        assert((seq![part] + path).push(index) =~= seq![part] + path.push(index));
        assert(moved(
            part,
            semantics::places_in_items(before, path) + semantics::places(
                items.last(),
                path.push(index),
            ),
        ) =~= moved(part, semantics::places_in_items(before, path)) + moved(
            part,
            semantics::places(items.last(), path.push(index)),
        ));
    }
}

/// The places in a value that stands right under `part`.
pub(crate) proof fn lemma_places_under(node: Json, part: Part)
    ensures
        semantics::places(node, Seq::empty().push(part)) == moved(
            part,
            semantics::places(node, Seq::empty()),
        ),
{
    lemma_places_moved(node, part, Seq::empty());
    assert(seq![part] + Seq::empty() =~= Seq::empty().push(part));
}

/// What `**` gives for one value is what the step inside it gives for the objects there.
proof fn lemma_descend(step: Step, node: Json)
    ensures
        semantics::apply(Step::Descend(Box::new(step)), node) == semantics::apply_all(
            step,
            seen(step, semantics::places(node, Seq::empty())),
        ),
{
    let places = semantics::places(node, Seq::empty());
    assert(places.map_values(|place: Place| semantics::seen_by(step, place.object)) =~= seen(
        step,
        places,
    ));
}

proof fn lemma_descend_members(step: Step, members: Seq<(Seq<char>, Json)>)
    ensures
        semantics::apply_all(step, seen(step, semantics::places_in_members(members, Seq::empty())))
            == semantics::apply_all(Step::Descend(Box::new(step)), semantics::values(members)),
    decreases members.len(),
{
    let places = semantics::places_in_members(members, Seq::empty());
    if members.len() == 0 {
        assert(seen(step, places) =~= Seq::empty());
        assert(semantics::values(members) =~= Seq::empty());
    } else {
        let before = members.drop_last();
        let last = members.last();
        lemma_descend_members(step, before);
        lemma_descend(step, last.1);
        lemma_places_under(last.1, Part::Key(last.0));
        let here = semantics::places_in_members(before, Seq::empty());
        let inside = semantics::places(last.1, Seq::empty());
        assert(seen(step, places) =~= seen(step, here) + seen(step, inside));
        results::lemma_apply_all_add(step, seen(step, here), seen(step, inside));
        assert(semantics::values(members).drop_last() =~= semantics::values(before));
    }
}

proof fn lemma_descend_items(step: Step, items: Seq<Json>)
    ensures
        semantics::apply_all(step, seen(step, semantics::places_in_items(items, Seq::empty())))
            == semantics::apply_all(Step::Descend(Box::new(step)), items),
    decreases items.len(),
{
    let places = semantics::places_in_items(items, Seq::empty());
    if items.len() == 0 {
        assert(seen(step, places) =~= Seq::empty());
    } else {
        let before = items.drop_last();
        lemma_descend_items(step, before);
        lemma_descend(step, items.last());
        lemma_places_under(items.last(), Part::Index((items.len() - 1) as nat));
        let here = semantics::places_in_items(before, Seq::empty());
        let inside = semantics::places(items.last(), Seq::empty());
        assert(seen(step, places) =~= seen(step, here) + seen(step, inside));
        results::lemma_apply_all_add(step, seen(step, here), seen(step, inside));
    }
}

/// On an object, `**` gives what its step gives for the object, and then what `**` gives for the
/// value of each property, in document order.
pub proof fn descending_an_object_gives_its_own_results_first(
    step: Step,
    members: Seq<(Seq<char>, Json)>,
)
    requires
        op::is_object(step),
    ensures
        semantics::apply(Step::Descend(Box::new(step)), Json::Object(members)) == match (
            semantics::apply(step, Json::Object(members)),
            semantics::apply_all(Step::Descend(Box::new(step)), semantics::values(members)),
        ) {
            (Ok(own), Ok(inner)) => Ok::<Seq<Json>, ExecError>(own + inner),
            (Err(error), _) => Err(error),
            (_, Err(error)) => Err(error),
        },
{
    let node = Json::Object(members);
    let inside = semantics::places_in_members(members, Seq::empty());
    lemma_descend(step, node);
    lemma_descend_members(step, members);
    assert(seen(step, semantics::places(node, Seq::empty())) =~= seq![node] + seen(step, inside));
    results::lemma_apply_all_add(step, seq![node], seen(step, inside));
    lemmas::lemma_apply_one(step, node);
}

/// On an array, `**` gives what it gives for each element, in order.
pub proof fn descending_an_array_gives_the_results_of_its_elements(step: Step, items: Seq<Json>)
    ensures
        semantics::apply(Step::Descend(Box::new(step)), Json::Array(items))
            == semantics::apply_all(Step::Descend(Box::new(step)), items),
{
    lemma_descend(step, Json::Array(items));
    lemma_descend_items(step, items);
}

/// `**` gives nothing for a value without objects: a scalar, `null`, or arrays of these.
pub proof fn descending_a_value_without_objects_gives_nothing(step: Step, node: Json)
    requires
        semantics::places(node, Seq::empty()).len() == 0,
    ensures
        semantics::apply(Step::Descend(Box::new(step)), node) == Ok::<Seq<Json>, ExecError>(
            Seq::empty(),
        ),
{
    lemma_descend(step, node);
}

/// A step that does not work on objects sees every object as an empty one. This is where it differs
/// from an object step: on an object, `**` gives what such a step gives for the empty object, and
/// then what `**` gives for the value of each property.
pub proof fn descending_with_another_step(step: Step, members: Seq<(Seq<char>, Json)>)
    requires
        step is Descend || step is DescendPaths || step is Array || step is ArrayIndex || step
            is ArraySlice,
    ensures
        semantics::apply(Step::Descend(Box::new(step)), Json::Object(members)) == match (
            semantics::apply(step, Json::Object(Seq::empty())),
            semantics::apply_all(
                Step::Descend(Box::new(step)),
                members.map_values(|member: (Seq<char>, Json)| member.1),
            ),
        ) {
            (Ok(own), Ok(inner)) => Ok::<Seq<Json>, ExecError>(own + inner),
            (Err(error), _) => Err(error),
            (_, Err(error)) => Err(error),
        },
{
    let node = Json::Object(members);
    let empty = Json::Object(Seq::empty());
    let inside = semantics::places_in_members(members, Seq::empty());
    lemma_descend(step, node);
    lemma_descend_members(step, members);
    assert(seen(step, semantics::places(node, Seq::empty())) =~= seq![empty] + seen(step, inside));
    results::lemma_apply_all_add(step, seq![empty], seen(step, inside));
    lemmas::lemma_apply_one(step, empty);
}

/// Where the objects in a value are: an object itself at the path to it, before the objects in its
/// values, which are one key further. The objects in an array are one index further. There are no
/// objects in anything else.
pub proof fn where_the_objects_are(
    members: Seq<(Seq<char>, Json)>,
    member: (Seq<char>, Json),
    items: Seq<Json>,
    item: Json,
    scalar: Json,
    path: Seq<Part>,
)
    requires
        !(scalar is Object) && !(scalar is Array),
    ensures
        semantics::places(scalar, path) == Seq::<Place>::empty(),
        semantics::places(Json::Array(Seq::empty()), path) == Seq::<Place>::empty(),
        semantics::places(Json::Array(items.push(item)), path) == semantics::places(
            Json::Array(items),
            path,
        ) + semantics::places(item, path.push(Part::Index(items.len()))),
        semantics::places(Json::Object(Seq::empty()), path) == seq![
            Place { path, object: Seq::empty() },
        ],
        semantics::places(Json::Object(members.push(member)), path).len() > 0,
        semantics::places(Json::Object(members.push(member)), path)[0] == (Place {
            path,
            object: members.push(member),
        }),
        semantics::places(Json::Object(members.push(member)), path).drop_first()
            == semantics::places(Json::Object(members), path).drop_first() + semantics::places(
            member.1,
            path.push(Part::Key(member.0)),
        ),
{
    let all = members.push(member);
    assert(all.drop_last() =~= members);
    assert(all.last() == member);
    let more = items.push(item);
    assert(more.drop_last() =~= items);
    assert(more.last() == item);
    assert(semantics::places_in_items(Seq::empty(), path) == Seq::<Place>::empty());
    assert(semantics::places_in_members(Seq::empty(), path) == Seq::<Place>::empty());
    assert(semantics::places_in_items(more, path) == semantics::places_in_items(items, path)
        + semantics::places(item, path.push(Part::Index(items.len()))));
    assert(semantics::places_in_members(all, path) == semantics::places_in_members(members, path)
        + semantics::places(member.1, path.push(Part::Key(member.0))));
    assert(semantics::places(Json::Object(all), path).drop_first()
        =~= semantics::places_in_members(all, path));
    assert(semantics::places(Json::Object(members), path).drop_first()
        =~= semantics::places_in_members(members, path));
    assert(semantics::places(Json::Object(Seq::empty()), path) =~= seq![
        Place { path, object: Seq::empty() },
    ]);
}

/// What a step has given for several values by the time it fails is what it gives for the values
/// before the first on which it fails, and then what it has given for that one.
pub proof fn what_is_given_before_an_error(
    step: Step,
    some: Seq<Json>,
    more: Seq<Json>,
    node: Json,
)
    ensures
        semantics::apply(step, node) is Err ==> semantics::all_given_before_error(step, seq![node])
            == semantics::given_before_error(step, node),
        semantics::apply_all(step, some) is Err ==> semantics::all_given_before_error(
            step,
            some + more,
        ) == semantics::all_given_before_error(step, some),
        semantics::apply_all(step, some) is Ok && semantics::apply_all(step, more) is Err
            ==> semantics::all_given_before_error(step, some + more) == semantics::apply_all(
            step,
            some,
        )->Ok_0 + semantics::all_given_before_error(step, more),
    decreases more.len(),
{
    assert(seq![node].drop_last() =~= Seq::empty());
    assert(seq![node].last() == node);
    assert(semantics::apply_all(step, Seq::empty()) == Ok::<Seq<Json>, ExecError>(Seq::empty()));
    assert(Seq::empty() + semantics::given_before_error(step, node)
        =~= semantics::given_before_error(step, node));
    let all = some + more;
    if more.len() == 0 {
        assert(all =~= some);
        assert(more =~= Seq::empty());
    } else {
        let before = more.drop_last();
        what_is_given_before_an_error(step, some, before, node);
        results::lemma_apply_all_add(step, some, before);
        assert(all.drop_last() =~= some + before);
        assert(all.last() == more.last());
        if let (Ok(left), Ok(right)) = (
            semantics::apply_all(step, some),
            semantics::apply_all(step, before),
        ) {
            let given = semantics::given_before_error(step, more.last());
            assert((left + right) + given =~= left + (right + given));
        }
    }
}

/// `**` has given what its step gives for the objects before the one on which the step fails: for an
/// object, what it gives for the object itself, and then what `**` has given for the values of its
/// properties. For an array, what `**` has given for its elements.
pub proof fn what_descending_has_given_before_an_error(
    step: Step,
    members: Seq<(Seq<char>, Json)>,
    items: Seq<Json>,
)
    requires
        op::is_object(step),
    ensures
        semantics::apply(step, Json::Object(members)) is Err ==> semantics::given_before_error(
            Step::Descend(Box::new(step)),
            Json::Object(members),
        ) == semantics::given_before_error(step, Json::Object(members)),
        semantics::apply(Step::Descend(Box::new(step)), Json::Object(members)) is Err
            && semantics::apply(step, Json::Object(members)) is Ok ==> semantics::given_before_error(
            Step::Descend(Box::new(step)),
            Json::Object(members),
        ) == semantics::apply(step, Json::Object(members))->Ok_0
            + semantics::all_given_before_error(
            Step::Descend(Box::new(step)),
            members.map_values(|member: (Seq<char>, Json)| member.1),
        ),
        semantics::apply(Step::Descend(Box::new(step)), Json::Array(items)) is Err
            ==> semantics::given_before_error(Step::Descend(Box::new(step)), Json::Array(items))
            == semantics::all_given_before_error(Step::Descend(Box::new(step)), items),
{
    let object = Json::Object(members);
    let array = Json::Array(items);
    let inside = semantics::places_in_members(members, Seq::empty());
    lemma_given(step, object);
    lemma_given(step, array);
    lemma_descend(step, object);
    lemma_descend(step, array);
    assert(seen(step, semantics::places(object, Seq::empty())) =~= seq![object] + seen(
        step,
        inside,
    ));
    lemmas::lemma_apply_one(step, object);
    results::lemma_apply_all_add(step, seq![object], seen(step, inside));
    what_is_given_before_an_error(step, seq![object], seen(step, inside), object);
    if semantics::apply_all(step, seen(step, inside)) is Err {
        lemma_given_members(step, members);
    }
    if semantics::apply(Step::Descend(Box::new(step)), array) is Err {
        lemma_given_items(step, items);
    }
}

proof fn lemma_given(step: Step, node: Json)
    ensures
        semantics::given_before_error(Step::Descend(Box::new(step)), node)
            == semantics::all_given_before_error(
            step,
            seen(step, semantics::places(node, Seq::empty())),
        ),
{
    let places = semantics::places(node, Seq::empty());
    assert(places.map_values(|place: Place| semantics::seen_by(step, place.object)) =~= seen(
        step,
        places,
    ));
}

proof fn lemma_given_members(step: Step, members: Seq<(Seq<char>, Json)>)
    requires
        semantics::apply_all(
            step,
            seen(step, semantics::places_in_members(members, Seq::empty())),
        ) is Err,
    ensures
        semantics::all_given_before_error(
            step,
            seen(step, semantics::places_in_members(members, Seq::empty())),
        ) == semantics::all_given_before_error(
            Step::Descend(Box::new(step)),
            semantics::values(members),
        ),
    decreases members.len(),
{
    let descend = Step::Descend(Box::new(step));
    let places = semantics::places_in_members(members, Seq::empty());
    if members.len() == 0 {
        assert(seen(step, places) =~= Seq::empty());
    } else {
        let before = members.drop_last();
        let last = members.last();
        let here = semantics::places_in_members(before, Seq::empty());
        let within = semantics::places(last.1, Seq::empty());
        lemma_descend_members(step, before);
        lemma_descend(step, last.1);
        lemma_given(step, last.1);
        lemma_places_under(last.1, Part::Key(last.0));
        assert(seen(step, places) =~= seen(step, here) + seen(step, within));
        results::lemma_apply_all_add(step, seen(step, here), seen(step, within));
        what_is_given_before_an_error(step, seen(step, here), seen(step, within), last.1);
        assert(semantics::values(members).drop_last() =~= semantics::values(before));
        assert(semantics::values(members).last() == last.1);
        if semantics::apply_all(step, seen(step, here)) is Err {
            lemma_given_members(step, before);
        }
        assert(semantics::all_given_before_error(descend, semantics::values(members)) == match
            semantics::apply_all(descend, semantics::values(before)) {
            Ok(given) => given + semantics::given_before_error(descend, last.1),
            Err(_) => semantics::all_given_before_error(descend, semantics::values(before)),
        });
    }
}

proof fn lemma_given_items(step: Step, items: Seq<Json>)
    requires
        semantics::apply_all(
            step,
            seen(step, semantics::places_in_items(items, Seq::empty())),
        ) is Err,
    ensures
        semantics::all_given_before_error(
            step,
            seen(step, semantics::places_in_items(items, Seq::empty())),
        ) == semantics::all_given_before_error(Step::Descend(Box::new(step)), items),
    decreases items.len(),
{
    let descend = Step::Descend(Box::new(step));
    let places = semantics::places_in_items(items, Seq::empty());
    if items.len() == 0 {
        assert(seen(step, places) =~= Seq::empty());
    } else {
        let before = items.drop_last();
        let last = items.last();
        let here = semantics::places_in_items(before, Seq::empty());
        let within = semantics::places(last, Seq::empty());
        lemma_descend_items(step, before);
        lemma_descend(step, last);
        lemma_given(step, last);
        lemma_places_under(last, Part::Index((items.len() - 1) as nat));
        assert(seen(step, places) =~= seen(step, here) + seen(step, within));
        results::lemma_apply_all_add(step, seen(step, here), seen(step, within));
        what_is_given_before_an_error(step, seen(step, here), seen(step, within), last);
        if semantics::apply_all(step, seen(step, here)) is Err {
            lemma_given_items(step, before);
        }
        assert(semantics::all_given_before_error(descend, items) == match semantics::apply_all(
            descend,
            before,
        ) {
            Ok(given) => given + semantics::given_before_error(descend, last),
            Err(_) => semantics::all_given_before_error(descend, before),
        });
    }
}

} // verus!
