//! Laws of `**^`, which prunes a value down to what the steps after it find.

use crate::exec::ExecError;
use crate::laws::paths;
use crate::lemmas;
use crate::op;
use crate::op::{Entry, Step};
use crate::semantics;
use crate::semantics::{Part, Place};
use crate::text;
use crate::value;
use crate::value::Json;
use vstd::prelude::*;

verus! {

/// Whether `steps` find something in the object at `place`. Without steps, every object counts.
pub open spec fn found_at(steps: Seq<Step>, place: Place) -> bool {
    steps.len() == 0 || (semantics::found_in(steps, place.object) matches Ok(found) && found.len()
        > 0)
}

/// Whether `steps` find something in one of the objects at `places`.
pub open spec fn found_among(steps: Seq<Step>, places: Seq<Place>) -> bool {
    exists|i: int| 0 <= i < places.len() && found_at(steps, #[trigger] places[i])
}

/// Whether `steps` find something in an object in `node`.
pub open spec fn finds(steps: Seq<Step>, node: Json) -> bool {
    found_among(steps, semantics::places(node, Seq::empty()))
}

/// `node` pruned down to what `steps` find in it.
pub open spec fn pruning(steps: Seq<Step>, node: Json) -> Json {
    semantics::apply(Step::DescendPaths(steps), node)->Ok_0[0]
}

/// The members in whose values `steps` find something, with their values pruned.
pub open spec fn pruned_members(steps: Seq<Step>, members: Seq<(Seq<char>, Json)>) -> Seq<
    (Seq<char>, Json),
> {
    members.filter(|member: (Seq<char>, Json)| finds(steps, member.1)).map_values(
        |member: (Seq<char>, Json)| (member.0, pruning(steps, member.1)),
    )
}

/// The elements of an array under the keys that stand for them: `[0]`, `[1]` and so on.
pub open spec fn numbered(items: Seq<Json>) -> Seq<(Seq<char>, Json)> {
    Seq::new(items.len(), |i: int| (semantics::part_key(Part::Index(i as nat)), items[i]))
}

/// What pruning makes of `tree` when it comes to the objects at `places`.
spec fn grown(steps: Seq<Step>, places: Seq<Place>, tree: Json) -> Result<Json, ExecError>
    decreases places.len(),
{
    if places.len() == 0 {
        Ok(tree)
    } else {
        let place = places.last();
        match grown(steps, places.drop_last(), tree) {
            Ok(tree) => match semantics::found_in(steps, place.object) {
                Ok(found) => if steps.len() == 0 || found.len() > 0 {
                    Ok(semantics::planted(tree, place.path, found))
                } else {
                    Ok(tree)
                },
                Err(error) => Err(error),
            },
            Err(error) => Err(error),
        }
    }
}

proof fn lemma_grown_from_nothing(steps: Seq<Step>, places: Seq<Place>)
    ensures
        semantics::pruned(steps, places) == grown(steps, places, Json::Object(Seq::empty())),
    decreases places.len(),
{
    if places.len() > 0 {
        lemma_grown_from_nothing(steps, places.drop_last());
    }
}

proof fn lemma_grown_add(steps: Seq<Step>, some: Seq<Place>, more: Seq<Place>, tree: Json)
    ensures
        grown(steps, some + more, tree) == match grown(steps, some, tree) {
            Ok(between) => grown(steps, more, between),
            Err(error) => Err(error),
        },
    decreases more.len(),
{
    let all = some + more;
    if more.len() == 0 {
        assert(all =~= some);
    } else {
        assert(all.drop_last() =~= some + more.drop_last());
        lemma_grown_add(steps, some, more.drop_last(), tree);
    }
}

/// Whether `steps` give no error for any of the objects at `places`.
spec fn no_error(steps: Seq<Step>, places: Seq<Place>) -> bool {
    forall|i: int|
        0 <= i < places.len() ==> semantics::found_in(steps, (#[trigger] places[i]).object) is Ok
}

proof fn lemma_grown_ok(steps: Seq<Step>, places: Seq<Place>, tree: Json)
    ensures
        grown(steps, places, tree) is Ok <==> no_error(steps, places),
    decreases places.len(),
{
    if places.len() > 0 {
        let before = places.drop_last();
        lemma_grown_ok(steps, before, tree);
        if no_error(steps, places) {
            assert forall|i: int| 0 <= i < before.len() implies semantics::found_in(
                steps,
                (#[trigger] before[i]).object,
            ) is Ok by {
                assert(before[i] == places[i]);
            }
            assert(semantics::found_in(steps, places[places.len() - 1].object) is Ok);
        }
        if grown(steps, places, tree) is Ok {
            assert forall|i: int| 0 <= i < places.len() implies semantics::found_in(
                steps,
                (#[trigger] places[i]).object,
            ) is Ok by {
                if i < before.len() {
                    assert(places[i] == before[i]);
                }
            }
        }
    }
}

proof fn lemma_found_among_push(steps: Seq<Step>, places: Seq<Place>)
    requires
        places.len() > 0,
    ensures
        found_among(steps, places) == (found_among(steps, places.drop_last()) || found_at(
            steps,
            places.last(),
        )),
{
    let before = places.drop_last();
    if found_among(steps, places) {
        let i = choose|i: int| 0 <= i < places.len() && found_at(steps, #[trigger] places[i]);
        if i < before.len() {
            assert(found_at(steps, before[i]));
        }
    }
    if found_among(steps, before) {
        let i = choose|i: int| 0 <= i < before.len() && found_at(steps, #[trigger] before[i]);
        assert(found_at(steps, places[i]));
    }
    if found_at(steps, places.last()) {
        assert(found_at(steps, places[places.len() - 1]));
    }
}

proof fn lemma_grown_nothing(steps: Seq<Step>, places: Seq<Place>, tree: Json)
    requires
        no_error(steps, places),
        !found_among(steps, places),
    ensures
        grown(steps, places, tree) == Ok::<Json, ExecError>(tree),
    decreases places.len(),
{
    if places.len() > 0 {
        let before = places.drop_last();
        lemma_grown_ok(steps, places, tree);
        lemma_grown_ok(steps, before, tree);
        lemma_found_among_push(steps, places);
        lemma_grown_nothing(steps, before, tree);
    }
}

/// What is found in the objects below one key, or one element, changes nothing but the value there.
#[verifier::rlimit(40)]
proof fn lemma_grown_under(
    steps: Seq<Step>,
    part: Part,
    places: Seq<Place>,
    members: Seq<(Seq<char>, Json)>,
)
    requires
        no_error(steps, places),
    ensures
        ({
            let key = semantics::part_key(part);
            let child = match value::lookup(members, key) {
                Some(child) => child,
                None => Json::Object(Seq::empty()),
            };
            grown(steps, paths::moved(part, places), Json::Object(members)) == Ok::<
                Json,
                ExecError,
            >(
                Json::Object(
                    if found_among(steps, places) {
                        value::put(members, key, grown(steps, places, child)->Ok_0)
                    } else {
                        members
                    },
                ),
            )
        }),
    decreases places.len(),
{
    let key = semantics::part_key(part);
    let child = match value::lookup(members, key) {
        Some(child) => child,
        None => Json::Object(Seq::empty()),
    };
    let all = paths::moved(part, places);
    if places.len() > 0 {
        let before = places.drop_last();
        let place = places.last();
        lemma_grown_ok(steps, places, child);
        lemma_grown_ok(steps, before, child);
        lemma_found_among_push(steps, places);
        lemma_grown_under(steps, part, before, members);
        assert(all.drop_last() =~= paths::moved(part, before));
        assert(all.last().path == seq![part] + place.path);
        assert((seq![part] + place.path).drop_first() =~= place.path);
        assert((seq![part] + place.path)[0] == part);
        let found = semantics::found_in(steps, place.object)->Ok_0;
        if found_among(steps, before) {
            let so_far = grown(steps, before, child)->Ok_0;
            value::lemma_put_lookup(members, key, so_far, key);
            lemmas::lemma_put_put(
                members,
                key,
                so_far,
                semantics::planted(so_far, place.path, found),
            );
        } else {
            lemma_grown_nothing(steps, before, child);
        }
    }
}

/// The places in each of `children`, under the part that leads to it.
spec fn places_under(children: Seq<(Part, Json)>) -> Seq<Place>
    decreases children.len(),
{
    if children.len() == 0 {
        Seq::empty()
    } else {
        let (part, child) = children.last();
        places_under(children.drop_last()) + paths::moved(
            part,
            semantics::places(child, Seq::empty()),
        )
    }
}

/// `children` under the keys that stand for their parts.
spec fn keyed(children: Seq<(Part, Json)>) -> Seq<(Seq<char>, Json)> {
    children.map_values(|child: (Part, Json)| (semantics::part_key(child.0), child.1))
}

proof fn lemma_no_error_moved(steps: Seq<Step>, part: Part, places: Seq<Place>)
    requires
        no_error(steps, paths::moved(part, places)),
    ensures
        no_error(steps, places),
{
    assert forall|i: int| 0 <= i < places.len() implies semantics::found_in(
        steps,
        (#[trigger] places[i]).object,
    ) is Ok by {
        assert(paths::moved(part, places)[i].object == places[i].object);
    }
}

/// The pruned members of an object that grows by one.
proof fn lemma_pruned_members_push(
    steps: Seq<Step>,
    members: Seq<(Seq<char>, Json)>,
    member: (Seq<char>, Json),
)
    ensures
        pruned_members(steps, members.push(member)) == if finds(steps, member.1) {
            pruned_members(steps, members).push((member.0, pruning(steps, member.1)))
        } else {
            pruned_members(steps, members)
        },
{
    lemmas::lemma_filter_push(
        members,
        member,
        |member: (Seq<char>, Json)| finds(steps, member.1),
    );
    assert(pruned_members(steps, members.push(member)) =~= if finds(steps, member.1) {
        pruned_members(steps, members).push((member.0, pruning(steps, member.1)))
    } else {
        pruned_members(steps, members)
    });
}

/// Pruning gives no key that is not there.
proof fn lemma_pruned_members_keys(
    steps: Seq<Step>,
    members: Seq<(Seq<char>, Json)>,
    key: Seq<char>,
)
    requires
        value::has_key(pruned_members(steps, members), key),
    ensures
        value::has_key(members, key),
{
    let keep = |member: (Seq<char>, Json)| finds(steps, member.1);
    let kept = members.filter(keep);
    let built = pruned_members(steps, members);
    let i = choose|i: int| 0 <= i < built.len() && (#[trigger] built[i]).0 == key;
    assert(kept[i].0 == key);
    lemmas::lemma_filter_keys(members, keep, key);
}

/// What is found below a key that is not there yet goes behind what is there.
proof fn lemma_grown_fresh(
    steps: Seq<Step>,
    part: Part,
    child: Json,
    members: Seq<(Seq<char>, Json)>,
)
    requires
        no_error(steps, semantics::places(child, Seq::empty())),
        finds(steps, child) ==> !value::has_key(members, semantics::part_key(part)),
    ensures
        grown(
            steps,
            paths::moved(part, semantics::places(child, Seq::empty())),
            Json::Object(members),
        ) == Ok::<Json, ExecError>(
            Json::Object(
                if finds(steps, child) {
                    members.push((semantics::part_key(part), pruning(steps, child)))
                } else {
                    members
                },
            ),
        ),
{
    let none = Json::Object(Seq::empty());
    let inside = semantics::places(child, Seq::empty());
    lemma_grown_under(steps, part, inside, members);
    if finds(steps, child) {
        lemma_grown_ok(steps, inside, none);
        lemma_grown_from_nothing(steps, inside);
        value::lemma_put_fresh(members, semantics::part_key(part), pruning(steps, child));
    }
}

#[verifier::rlimit(40)]
proof fn lemma_grown_children(
    steps: Seq<Step>,
    children: Seq<(Part, Json)>,
    found: Seq<(Seq<char>, Json)>,
)
    requires
        value::distinct_keys(keyed(children)),
        no_error(steps, places_under(children)),
        forall|i: int|
            0 <= i < children.len() && finds(steps, (#[trigger] children[i]).1)
                ==> !value::has_key(found, semantics::part_key(children[i].0)),
    ensures
        grown(steps, places_under(children), Json::Object(found)) == Ok::<Json, ExecError>(
            Json::Object(found + pruned_members(steps, keyed(children))),
        ),
    decreases children.len(),
{
    let all = keyed(children);
    let tree = Json::Object(found);
    if children.len() == 0 {
        reveal(Seq::filter);
        assert(all =~= Seq::empty());
        assert(found + pruned_members(steps, all) =~= found);
    } else {
        let before = children.drop_last();
        let (part, child) = children.last();
        let key = semantics::part_key(part);
        let inside = semantics::places(child, Seq::empty());
        lemma_grown_ok(steps, places_under(children), tree);
        lemma_grown_add(steps, places_under(before), paths::moved(part, inside), tree);
        lemma_grown_ok(steps, places_under(before), tree);
        assert(keyed(before) =~= all.drop_last());
        assert forall|i: int|
            0 <= i < before.len() && finds(steps, (#[trigger] before[i]).1) implies !value::has_key(
            found,
            semantics::part_key(before[i].0),
        ) by {
            assert(before[i] == children[i]);
        }
        assert(value::distinct_keys(keyed(before))) by {
            assert forall|i: int, j: int| 0 <= i < j < keyed(before).len() implies #[trigger] keyed(
                before,
            )[i].0 != #[trigger] keyed(before)[j].0 by {
                assert(keyed(before)[i] == all[i] && keyed(before)[j] == all[j]);
            }
        }
        lemma_grown_children(steps, before, found);
        let so_far = found + pruned_members(steps, keyed(before));
        lemma_grown_ok(steps, paths::moved(part, inside), Json::Object(so_far));
        lemma_no_error_moved(steps, part, inside);
        assert(finds(steps, child) ==> !value::has_key(so_far, key)) by {
            assert(children[children.len() - 1] == (part, child));
            if value::has_key(so_far, key) {
                lemma_pruned_key(steps, all, found);
            }
        }
        lemma_grown_fresh(steps, part, child, so_far);
        assert(pruned_members(steps, all) == if finds(steps, child) {
            pruned_members(steps, keyed(before)).push((key, pruning(steps, child)))
        } else {
            pruned_members(steps, keyed(before))
        }) by {
            lemma_pruned_members_push(steps, keyed(before), (key, child));
            assert(keyed(before).push((key, child)) =~= all);
        }
        if finds(steps, child) {
            assert(so_far.push((key, pruning(steps, child))) =~= found + pruned_members(
                steps,
                all,
            ));
        }
    }
}

/// The pruned members before one do not have its key.
proof fn lemma_pruned_key(
    steps: Seq<Step>,
    members: Seq<(Seq<char>, Json)>,
    found: Seq<(Seq<char>, Json)>,
)
    requires
        members.len() > 0,
        value::distinct_keys(members),
        value::has_key(found + pruned_members(steps, members.drop_last()), members.last().0),
    ensures
        value::has_key(found, members.last().0),
{
    let key = members.last().0;
    let all = found + pruned_members(steps, members.drop_last());
    let i = choose|i: int| 0 <= i < all.len() && (#[trigger] all[i]).0 == key;
    if i < found.len() {
        assert(found[i].0 == key);
    } else {
        assert(pruned_members(steps, members.drop_last())[i - found.len()].0 == key);
        lemma_pruned_members_keys(steps, members.drop_last(), key);
        lemma_drop_distinct(members);
    }
}

proof fn lemma_places_in_members(members: Seq<(Seq<char>, Json)>)
    ensures
        semantics::places_in_members(members, Seq::empty()) == places_under(
            children_of_object(members),
        ),
        keyed(children_of_object(members)) == members,
    decreases members.len(),
{
    let children = children_of_object(members);
    assert(keyed(children) =~= members);
    if members.len() > 0 {
        let before = members.drop_last();
        lemma_places_in_members(before);
        assert(children.drop_last() =~= children_of_object(before));
        paths::lemma_places_under(members.last().1, Part::Key(members.last().0));
    }
}

proof fn lemma_places_in_items(items: Seq<Json>)
    ensures
        semantics::places_in_items(items, Seq::empty()) == places_under(children_of_array(items)),
        keyed(children_of_array(items)) == numbered(items),
    decreases items.len(),
{
    let children = children_of_array(items);
    assert(keyed(children) =~= numbered(items));
    if items.len() > 0 {
        let before = items.drop_last();
        lemma_places_in_items(before);
        assert(children.drop_last() =~= children_of_array(before));
        paths::lemma_places_under(items.last(), Part::Index((items.len() - 1) as nat));
    }
}

/// The values in an object, under their keys.
spec fn children_of_object(members: Seq<(Seq<char>, Json)>) -> Seq<(Part, Json)> {
    members.map_values(|member: (Seq<char>, Json)| (Part::Key(member.0), member.1))
}

/// The values in an array, under their indexes.
spec fn children_of_array(items: Seq<Json>) -> Seq<(Part, Json)> {
    Seq::new(items.len(), |i: int| (Part::Index(i as nat), items[i]))
}

proof fn lemma_decimal(left: nat, right: nat)
    requires
        text::decimal(left) == text::decimal(right),
    ensures
        left == right,
    decreases left,
{
    let digits = text::decimal(left);
    assert(digits.last() as nat == 48 + left % 10);
    assert(digits.last() as nat == 48 + right % 10);
    lemma_decimal_len(left);
    lemma_decimal_len(right);
    if left >= 10 {
        assert(digits.drop_last() =~= text::decimal(left / 10));
        assert(digits.drop_last() =~= text::decimal(right / 10));
        lemma_decimal(left / 10, right / 10);
    }
}

proof fn lemma_decimal_len(n: nat)
    ensures
        text::decimal(n).len() > 0,
        text::decimal(n).len() > 1 <==> n >= 10,
{
    if n >= 10 {
        assert(text::decimal(n / 10).len() > 0);
    }
}

/// No two elements of an array have the same key.
proof fn lemma_numbered(items: Seq<Json>)
    ensures
        value::distinct_keys(numbered(items)),
{
    let all = numbered(items);
    assert forall|i: int, j: int| 0 <= i < j < all.len() implies #[trigger] all[i].0
        != #[trigger] all[j].0 by {
        if all[i].0 == all[j].0 {
            let left = text::decimal(i as nat);
            let right = text::decimal(j as nat);
            assert(left =~= all[i].0.subrange(1, all[i].0.len() - 1));
            assert(right =~= all[j].0.subrange(1, all[j].0.len() - 1));
            lemma_decimal(i as nat, j as nat);
        }
    }
}

proof fn lemma_put_all_distinct(found: Seq<(Seq<char>, Json)>)
    requires
        value::distinct_keys(found),
    ensures
        value::put_all(Seq::empty(), found) == found,
    decreases found.len(),
{
    if found.len() > 0 {
        let before = found.drop_last();
        let last = found.last();
        assert(value::distinct_keys(before)) by {
            assert forall|i: int, j: int| 0 <= i < j < before.len() implies #[trigger] before[i].0
                != #[trigger] before[j].0 by {
                assert(before[i] == found[i] && before[j] == found[j]);
            }
        }
        lemma_put_all_distinct(before);
        lemmas::lemma_take_fresh(found, found.len() - 1);
        assert(found.take(found.len() - 1) =~= before);
        value::lemma_put_fresh(before, last.0, last.1);
        assert(before.push(last) =~= found);
    }
}

/// Pruning an array is pruning an object that has its elements under the keys `[0]`, `[1]` and so
/// on: each element where the steps find something is there, pruned, and no other.
pub proof fn an_array_is_pruned_element_by_element(steps: Seq<Step>, items: Seq<Json>)
    requires
        semantics::apply(Step::DescendPaths(steps), Json::Array(items)) is Ok,
    ensures
        semantics::apply(Step::DescendPaths(steps), Json::Array(items)) == Ok::<
            Seq<Json>,
            ExecError,
        >(seq![Json::Object(pruned_members(steps, numbered(items)))]),
{
    let children = children_of_array(items);
    let places = semantics::places(Json::Array(items), Seq::empty());
    let none = Seq::<(Seq<char>, Json)>::empty();
    lemma_places_in_items(items);
    lemma_numbered(items);
    lemma_grown_from_nothing(steps, places);
    lemma_grown_ok(steps, places, Json::Object(none));
    lemma_grown_children(steps, children, none);
    assert(none + pruned_members(steps, numbered(items)) =~= pruned_members(
        steps,
        numbered(items),
    ));
}

/// Pruning an object gives what the steps find in the object itself, and then, under the key of
/// each value where they find something, that value, pruned. Nothing else is there. What is found
/// in the object must not be held under the key of such a value.
pub proof fn an_object_is_pruned_value_by_value(
    steps: Seq<Step>,
    members: Seq<(Seq<char>, Json)>,
)
    requires
        value::distinct_keys(members),
        semantics::apply(Step::DescendPaths(steps), Json::Object(members)) is Ok,
        forall|i: int|
            0 <= i < members.len() && finds(steps, (#[trigger] members[i]).1) ==> !value::has_key(
                semantics::found_in(steps, members)->Ok_0,
                members[i].0,
            ),
    ensures
        semantics::found_in(steps, members) is Ok,
        semantics::apply(Step::DescendPaths(steps), Json::Object(members)) == Ok::<
            Seq<Json>,
            ExecError,
        >(
            seq![
                Json::Object(
                    semantics::found_in(steps, members)->Ok_0 + pruned_members(steps, members),
                ),
            ],
        ),
{
    let children = children_of_object(members);
    lemma_places_in_members(members);
    lemma_object_grown(steps, members);
    let found = semantics::found_in(steps, members)->Ok_0;
    lemma_grown_ok(steps, places_under(children), Json::Object(found));
    assert forall|i: int|
        0 <= i < children.len() && finds(steps, (#[trigger] children[i]).1) implies !value::has_key(
        found,
        semantics::part_key(children[i].0),
    ) by {
        assert(finds(steps, members[i].1));
    }
    lemma_grown_children(steps, children, found);
}

/// Pruning an object starts with what the steps find in the object itself.
proof fn lemma_object_grown(steps: Seq<Step>, members: Seq<(Seq<char>, Json)>)
    requires
        value::distinct_keys(members),
        semantics::apply(Step::DescendPaths(steps), Json::Object(members)) is Ok,
    ensures
        semantics::found_in(steps, members) is Ok,
        grown(
            steps,
            semantics::places_in_members(members, Seq::empty()),
            Json::Object(semantics::found_in(steps, members)->Ok_0),
        ) == Ok::<Json, ExecError>(
            semantics::apply(Step::DescendPaths(steps), Json::Object(members))->Ok_0[0],
        ),
{
    let none = Seq::<(Seq<char>, Json)>::empty();
    let own = Place { path: Seq::empty(), object: members };
    let inside = semantics::places_in_members(members, Seq::empty());
    let places = semantics::places(Json::Object(members), Seq::empty());
    assert(places == seq![own] + inside);
    lemma_grown_from_nothing(steps, places);
    lemma_grown_add(steps, seq![own], inside, Json::Object(none));
    assert(seq![own].drop_last() =~= Seq::empty());
    assert(grown(steps, Seq::empty(), Json::Object(none)) == Ok::<Json, ExecError>(
        Json::Object(none),
    ));
    assert(seq![own].last() == own);
    let found = semantics::found_in(steps, members)->Ok_0;
    lemma_found_distinct(steps, members, found);
    lemma_put_all_distinct(found);
    assert(found.len() == 0 ==> found =~= none);
}

proof fn lemma_filter_distinct(
    members: Seq<(Seq<char>, Json)>,
    keep: spec_fn((Seq<char>, Json)) -> bool,
)
    requires
        value::distinct_keys(members),
    ensures
        value::distinct_keys(members.filter(keep)),
    decreases members.len(),
{
    reveal(Seq::filter);
    if members.len() > 0 {
        let before = members.drop_last();
        let last = members.last();
        lemma_drop_distinct(members);
        lemma_filter_distinct(before, keep);
        if value::has_key(before.filter(keep), last.0) {
            lemmas::lemma_filter_keys(before, keep, last.0);
        }
        lemma_push_distinct(before.filter(keep), last);
    }
}

proof fn lemma_drop_distinct(members: Seq<(Seq<char>, Json)>)
    requires
        members.len() > 0,
        value::distinct_keys(members),
    ensures
        value::distinct_keys(members.drop_last()),
        !value::has_key(members.drop_last(), members.last().0),
{
    let before = members.drop_last();
    lemmas::lemma_take_fresh(members, members.len() - 1);
    assert(members.take(members.len() - 1) =~= before);
    assert forall|i: int, j: int| 0 <= i < j < before.len() implies #[trigger] before[i].0
        != #[trigger] before[j].0 by {
        assert(before[i] == members[i] && before[j] == members[j]);
    }
}

proof fn lemma_push_distinct(members: Seq<(Seq<char>, Json)>, member: (Seq<char>, Json))
    requires
        value::distinct_keys(members),
    ensures
        value::has_key(members, member.0) || value::distinct_keys(members.push(member)),
{
    let more = members.push(member);
    if !value::has_key(members, member.0) {
        assert forall|i: int, j: int| 0 <= i < j < more.len() implies #[trigger] more[i].0
            != #[trigger] more[j].0 by {
            assert(more[i] == members[i]);
            if j < members.len() {
                assert(more[j] == members[j]);
            }
        }
    }
}

proof fn lemma_picked_distinct(entries: Seq<Entry>, members: Seq<(Seq<char>, Json)>)
    requires
        semantics::picked(entries, members) is Ok,
    ensures
        value::distinct_keys(semantics::picked(entries, members)->Ok_0),
    decreases entries.len(),
{
    if entries.len() > 0 {
        let entry = entries.last();
        lemma_picked_distinct(entries.drop_last(), members);
        value::lemma_put_distinct(
            semantics::picked(entries.drop_last(), members)->Ok_0,
            entry.key,
            semantics::collected(
                entry.steps,
                semantics::run(
                    entry.steps,
                    seq![semantics::property(members, entry.name)],
                    false,
                )->Ok_0,
            ),
        );
    }
}

proof fn lemma_mapped_distinct(steps: Seq<Step>, members: Seq<(Seq<char>, Json)>)
    requires
        value::distinct_keys(members),
        semantics::mapped(steps, members) is Ok,
    ensures
        value::distinct_keys(semantics::mapped(steps, members)->Ok_0),
    decreases members.len(),
{
    if members.len() > 0 {
        let before = members.drop_last();
        let key = members.last().0;
        lemma_drop_distinct(members);
        lemma_mapped_distinct(steps, before);
        let done = semantics::mapped(steps, before)->Ok_0;
        if value::has_key(done, key) {
            lemmas::lemma_mapped_keys(steps, before, done, key);
        }
        lemma_push_distinct(done, semantics::mapped(steps, members)->Ok_0.last());
    }
}

proof fn lemma_found_in_values_distinct(steps: Seq<Step>, members: Seq<(Seq<char>, Json)>)
    requires
        value::distinct_keys(members),
        semantics::found_in_values(steps, members) is Ok,
    ensures
        value::distinct_keys(semantics::found_in_values(steps, members)->Ok_0),
    decreases members.len(),
{
    if members.len() > 0 {
        let before = members.drop_last();
        let key = members.last().0;
        lemma_drop_distinct(members);
        lemma_found_in_values_distinct(steps, before);
        let done = semantics::found_in_values(steps, before)->Ok_0;
        if value::has_key(done, key) {
            lemmas::lemma_found_in_values_keys(steps, before, done, key);
        }
        lemma_push_distinct(done, semantics::found_in_values(steps, members)->Ok_0.last());
    }
}

/// What is found in an object has no key twice.
proof fn lemma_found_distinct(
    steps: Seq<Step>,
    members: Seq<(Seq<char>, Json)>,
    found: Seq<(Seq<char>, Json)>,
)
    requires
        value::distinct_keys(members),
        semantics::found_in(steps, members) == Ok::<Seq<(Seq<char>, Json)>, ExecError>(found),
    ensures
        value::distinct_keys(found),
{
    if steps.len() > 0 {
        match steps[0] {
            Step::PropertyValues(matcher) | Step::PropertyKeys(matcher) => {
                lemma_filter_distinct(
                    members,
                    |member: (Seq<char>, Json)| op::matches_key(matcher, member.0),
                );
                lemma_found_in_values_distinct(
                    steps.drop_first(),
                    semantics::matching(matcher, members),
                );
            },
            Step::PropertyPick(entries) => {
                lemma_picked_distinct(entries, members);
                lemma_filter_distinct(
                    semantics::picked(entries, members)->Ok_0,
                    |member: (Seq<char>, Json)| member.1 !is Null,
                );
            },
            Step::PropertyMap(matcher, inner) => {
                lemma_filter_distinct(
                    members,
                    |member: (Seq<char>, Json)| op::matches_key(matcher, member.0),
                );
                lemma_mapped_distinct(inner, semantics::matching(matcher, members));
                lemma_filter_distinct(
                    semantics::mapped(inner, semantics::matching(matcher, members))->Ok_0,
                    |member: (Seq<char>, Json)| member.1 !is Null,
                );
            },
            _ => {},
        }
    }
}

/// Without steps, `**^` gives the shape of its input: every object, emptied, under the keys that
/// lead to it. It never fails.
pub proof fn pruning_without_steps_gives_the_shape(
    members: Seq<(Seq<char>, Json)>,
    items: Seq<Json>,
)
    requires
        value::distinct_keys(members),
    ensures
        semantics::apply(Step::DescendPaths(Seq::empty()), Json::Object(members)) == Ok::<
            Seq<Json>,
            ExecError,
        >(seq![Json::Object(pruned_members(Seq::empty(), members))]),
        semantics::apply(Step::DescendPaths(Seq::empty()), Json::Array(items)) == Ok::<
            Seq<Json>,
            ExecError,
        >(seq![Json::Object(pruned_members(Seq::empty(), numbered(items)))]),
        forall|node: Json|
            #[trigger] finds(Seq::empty(), node) <==> semantics::places(node, Seq::empty()).len()
                > 0,
{
    let none = Seq::<Step>::empty();
    lemma_shape_ok(semantics::places(Json::Object(members), Seq::empty()));
    lemma_shape_ok(semantics::places(Json::Array(items), Seq::empty()));
    an_array_is_pruned_element_by_element(none, items);
    an_object_is_pruned_value_by_value(none, members);
    assert(semantics::found_in(none, members)->Ok_0 + pruned_members(none, members)
        =~= pruned_members(none, members));
    assert forall|node: Json| #[trigger] finds(none, node) <==> semantics::places(
        node,
        Seq::empty(),
    ).len() > 0 by {
        let places = semantics::places(node, Seq::empty());
        if places.len() > 0 {
            assert(found_at(none, places[0]));
        }
    }
}

proof fn lemma_shape_ok(places: Seq<Place>)
    ensures
        semantics::pruned(Seq::empty(), places) is Ok,
    decreases places.len(),
{
    if places.len() > 0 {
        lemma_shape_ok(places.drop_last());
        assert(semantics::found_in(Seq::empty(), places.last().object) is Ok);
    }
}

/// Whether no object in `node` has a key twice.
pub open spec fn has_distinct_keys(node: Json) -> bool {
    forall|i: int|
        0 <= i < semantics::places(node, Seq::empty()).len() ==> value::distinct_keys(
            (#[trigger] semantics::places(node, Seq::empty())[i]).object,
        )
}

/// Whether `step` takes properties of an object as they are: a name, or a selector with no steps
/// after it.
pub open spec fn is_selection(step: Step) -> bool {
    step is Property || step is PropertyValues || step is PropertyKeys
}

/// The members of an object that a selection takes, but for those that are `null`.
pub open spec fn selected(step: Step, members: Seq<(Seq<char>, Json)>) -> Seq<(Seq<char>, Json)> {
    match step {
        Step::Property(name) => match semantics::property(members, name) {
            Json::Null => Seq::empty(),
            found => seq![(name, found)],
        },
        Step::PropertyValues(matcher) | Step::PropertyKeys(matcher) => semantics::without_nulls(
            semantics::matching(matcher, members),
        ),
        _ => Seq::empty(),
    }
}

/// A selection finds what it takes.
proof fn lemma_found_selected(step: Step, members: Seq<(Seq<char>, Json)>)
    requires
        is_selection(step),
    ensures
        semantics::found_in(seq![step], members) == Ok::<Seq<(Seq<char>, Json)>, ExecError>(
            selected(step, members),
        ),
{
    let steps = seq![step];
    assert(steps.drop_first() =~= Seq::empty());
    match step {
        Step::Property(name) => {
            let node = Json::Object(members);
            let found = semantics::property(members, name);
            lemmas::lemma_apply_one(step, node);
            assert(semantics::apply(step, node) == Ok::<Seq<Json>, ExecError>(seq![found]));
            assert(semantics::run(steps.drop_first(), seq![found], false) == Ok::<
                Seq<Json>,
                ExecError,
            >(seq![found]));
            assert(semantics::run(steps, seq![node], false) == Ok::<Seq<Json>, ExecError>(
                seq![found],
            ));
            assert(semantics::last_name(steps.drop_first()) is None);
            assert(semantics::last_name(steps) == Some(name));
            assert(!semantics::builds_object(steps));
            assert(!semantics::always_array(steps));
        },
        Step::PropertyValues(matcher) | Step::PropertyKeys(matcher) => {
            lemma_found_in_values_alone(semantics::matching(matcher, members));
        },
        _ => {},
    }
}

/// Without steps, the values themselves are found, but for `null`.
proof fn lemma_found_in_values_alone(members: Seq<(Seq<char>, Json)>)
    ensures
        semantics::found_in_values(Seq::empty(), members) == Ok::<
            Seq<(Seq<char>, Json)>,
            ExecError,
        >(semantics::without_nulls(members)),
    decreases members.len(),
{
    if members.len() == 0 {
        reveal(Seq::filter);
        assert(semantics::without_nulls(members) =~= Seq::empty());
    } else {
        let before = members.drop_last();
        let last = members.last();
        lemma_found_in_values_alone(before);
        assert(members =~= before.push(last));
        lemmas::lemma_filter_push(before, last, |member: (Seq<char>, Json)| member.1 !is Null);
        assert(semantics::run(Seq::empty(), seq![last.1], false) == Ok::<Seq<Json>, ExecError>(
            seq![last.1],
        ));
        assert(!semantics::always_array(Seq::empty()));
    }
}

/// What a selection takes is in the object.
proof fn lemma_selected_is_there(step: Step, members: Seq<(Seq<char>, Json)>, i: int)
    requires
        is_selection(step),
        value::distinct_keys(members),
        0 <= i < selected(step, members).len(),
    ensures
        value::lookup(members, selected(step, members)[i].0) == Some(
            selected(step, members)[i].1,
        ),
{
    match step {
        Step::PropertyValues(matcher) | Step::PropertyKeys(matcher) => {
            let matches = |member: (Seq<char>, Json)| op::matches_key(matcher, member.0);
            let keep = |member: (Seq<char>, Json)| member.1 !is Null;
            let kept = semantics::matching(matcher, members);
            let member = selected(step, members)[i];
            assert(kept.filter(keep).contains(member));
            kept.lemma_filter_contains_rev(keep, member);
            members.lemma_filter_contains_rev(matches, member);
            let j = choose|j: int| 0 <= j < members.len() && members[j] == member;
            value::lemma_key_index_distinct(members, j);
        },
        _ => {},
    }
}

proof fn lemma_selection_ok(places: Seq<Place>, step: Step)
    requires
        is_selection(step),
    ensures
        no_error(seq![step], places),
{
    assert forall|i: int| 0 <= i < places.len() implies semantics::found_in(
        seq![step],
        (#[trigger] places[i]).object,
    ) is Ok by {
        lemma_found_selected(step, places[i].object);
    }
}

/// Putting in what is there already changes nothing.
proof fn lemma_put_all_same(members: Seq<(Seq<char>, Json)>, found: Seq<(Seq<char>, Json)>)
    requires
        forall|i: int|
            0 <= i < found.len() ==> value::lookup(members, (#[trigger] found[i]).0) == Some(
                found[i].1,
            ),
    ensures
        value::put_all(members, found) == members,
    decreases found.len(),
{
    if found.len() > 0 {
        let before = found.drop_last();
        let last = found[found.len() - 1];
        assert forall|i: int| 0 <= i < before.len() implies value::lookup(
            members,
            (#[trigger] before[i]).0,
        ) == Some(before[i].1) by {
            assert(before[i] == found[i]);
        }
        lemma_put_all_same(members, before);
        assert(value::lookup(members, last.0) == Some(last.1));
        lemma_put_same(members, last.0);
    }
}

/// What is found in one element of an array changes nothing but that element.
#[verifier::rlimit(40)]
proof fn lemma_grown_in_array(steps: Seq<Step>, i: nat, places: Seq<Place>, items: Seq<Json>)
    requires
        no_error(steps, places),
        i < items.len(),
    ensures
        grown(steps, paths::moved(Part::Index(i), places), Json::Array(items)) == Ok::<
            Json,
            ExecError,
        >(Json::Array(items.update(i as int, grown(steps, places, items[i as int])->Ok_0))),
    decreases places.len(),
{
    let all = paths::moved(Part::Index(i), places);
    if places.len() == 0 {
        assert(items.update(i as int, items[i as int]) =~= items);
    } else {
        let before = places.drop_last();
        let place = places.last();
        lemma_grown_ok(steps, places, items[i as int]);
        lemma_grown_ok(steps, before, items[i as int]);
        lemma_grown_in_array(steps, i, before, items);
        assert(all.drop_last() =~= paths::moved(Part::Index(i), before));
        assert(all.last() == Place {
            path: seq![Part::Index(i)] + place.path,
            object: place.object,
        });
        let so_far = grown(steps, before, items[i as int])->Ok_0;
        lemma_planted_in_array(
            items,
            i,
            so_far,
            place.path,
            semantics::found_in(steps, place.object)->Ok_0,
        );
    }
}

/// Planting in one element of an array changes nothing but that element.
proof fn lemma_planted_in_array(
    items: Seq<Json>,
    i: nat,
    item: Json,
    path: Seq<Part>,
    found: Seq<(Seq<char>, Json)>,
)
    requires
        i < items.len(),
    ensures
        semantics::planted(
            Json::Array(items.update(i as int, item)),
            seq![Part::Index(i)] + path,
            found,
        ) == Json::Array(items.update(i as int, semantics::planted(item, path, found))),
{
    let whole = seq![Part::Index(i)] + path;
    let next = semantics::planted(item, path, found);
    assert(whole.drop_first() =~= path);
    assert(whole[0] == Part::Index(i));
    assert(items.update(i as int, item).update(i as int, next) =~= items.update(i as int, next));
}

/// Putting the value under a key that is there already changes nothing.
proof fn lemma_put_same(members: Seq<(Seq<char>, Json)>, key: Seq<char>)
    requires
        value::lookup(members, key) is Some,
    ensures
        value::put(members, key, value::lookup(members, key)->Some_0) == members,
{
    value::lemma_key_index(members, key);
    assert(value::put(members, key, value::lookup(members, key)->Some_0) =~= members);
}

/// The values in an object or an array with distinct keys have distinct keys.
proof fn lemma_child_distinct(children: Seq<(Part, Json)>, before: Seq<Place>, i: int)
    requires
        0 <= i < children.len(),
        forall|j: int|
            0 <= j < (before + places_under(children)).len() ==> value::distinct_keys(
                (#[trigger] (before + places_under(children))[j]).object,
            ),
    ensures
        has_distinct_keys(children[i].1),
    decreases children.len(),
{
    let last = children.len() - 1;
    let all = before + places_under(children);
    let most = before + places_under(children.drop_last());
    if i == last {
        let places = semantics::places(children[i].1, Seq::empty());
        assert forall|j: int| 0 <= j < places.len() implies value::distinct_keys(
            (#[trigger] places[j]).object,
        ) by {
            assert(all[most.len() + j] == paths::moved(children[i].0, places)[j]);
        }
    } else {
        assert forall|j: int| 0 <= j < most.len() implies value::distinct_keys(
            (#[trigger] most[j]).object,
        ) by {
            assert(all[j] == most[j]);
        }
        lemma_child_distinct(children.drop_last(), before, i);
    }
}

/// A match holds the matches inside it already: pruning to a selection changes nothing of a value
/// that is there whole.
proof fn lemma_copy(node: Json, step: Step)
    requires
        is_selection(step),
        has_distinct_keys(node),
    ensures
        grown(seq![step], semantics::places(node, Seq::empty()), node) == Ok::<
            Json,
            ExecError,
        >(node),
    decreases node, 0int,
{
    let steps = seq![step];
    match node {
        Json::Object(members) => {
            let own = Place { path: Seq::empty(), object: members };
            let inside = semantics::places_in_members(members, Seq::empty());
            lemma_places_in_members(members);
            assert(semantics::places(node, Seq::empty()) == seq![own] + inside);
            assert(semantics::places(node, Seq::empty())[0] == own);
            lemma_grown_add(steps, seq![own], inside, node);
            assert(seq![own].drop_last() =~= Seq::empty());
            assert(grown(steps, Seq::empty(), node) == Ok::<Json, ExecError>(node));
            assert(seq![own].last() == own);
            lemma_found_selected(step, members);
            let found = selected(step, members);
            assert forall|i: int| 0 <= i < found.len() implies value::lookup(
                members,
                (#[trigger] found[i]).0,
            ) == Some(found[i].1) by {
                lemma_selected_is_there(step, members, i);
            }
            lemma_put_all_same(members, found);
            assert(grown(steps, seq![own], node) == Ok::<Json, ExecError>(node));
            lemma_copy_members(members, members.len(), step);
            assert(children_of_object(members).take(members.len() as int) =~= children_of_object(
                members,
            ));
        },
        Json::Array(items) => {
            lemma_places_in_items(items);
            lemma_copy_items(items, items.len(), step);
            assert(children_of_array(items).take(items.len() as int) =~= children_of_array(items));
        },
        _ => {},
    }
}

proof fn lemma_copy_members(members: Seq<(Seq<char>, Json)>, count: nat, step: Step)
    requires
        is_selection(step),
        has_distinct_keys(Json::Object(members)),
        count <= members.len(),
    ensures
        grown(
            seq![step],
            places_under(children_of_object(members).take(count as int)),
            Json::Object(members),
        ) == Ok::<Json, ExecError>(Json::Object(members)),
    decreases members, count,
{
    let steps = seq![step];
    let children = children_of_object(members);
    if count > 0 {
        let last = count - 1;
        let some = children.take(count as int);
        let (key, child) = members[last];
        let inside = semantics::places(child, Seq::empty());
        let own = Place { path: Seq::empty(), object: members };
        lemma_copy_members(members, last as nat, step);
        assert(some.drop_last() =~= children.take(last));
        assert(some.last() == (Part::Key(key), child));
        lemma_grown_add(
            steps,
            places_under(children.take(last)),
            paths::moved(Part::Key(key), inside),
            Json::Object(members),
        );
        lemma_selection_ok(inside, step);
        lemma_grown_under(steps, Part::Key(key), inside, members);
        lemma_places_in_members(members);
        assert(semantics::places(Json::Object(members), Seq::empty()) == seq![own] + places_under(
            children,
        ));
        lemma_child_distinct(children, seq![own], last);
        assert(semantics::places(Json::Object(members), Seq::empty())[0] == own);
        value::lemma_key_index_distinct(members, last);
        lemma_copy(child, step);
        lemma_put_same(members, key);
    }
}

proof fn lemma_copy_items(items: Seq<Json>, count: nat, step: Step)
    requires
        is_selection(step),
        has_distinct_keys(Json::Array(items)),
        count <= items.len(),
    ensures
        grown(
            seq![step],
            places_under(children_of_array(items).take(count as int)),
            Json::Array(items),
        ) == Ok::<Json, ExecError>(Json::Array(items)),
    decreases items, count,
{
    let steps = seq![step];
    let children = children_of_array(items);
    if count > 0 {
        let last = count - 1;
        let some = children.take(count as int);
        let inside = semantics::places(items[last], Seq::empty());
        lemma_copy_items(items, last as nat, step);
        assert(some.drop_last() =~= children.take(last));
        assert(some.last() == (Part::Index(last as nat), items[last]));
        lemma_grown_add(
            steps,
            places_under(children.take(last)),
            paths::moved(Part::Index(last as nat), inside),
            Json::Array(items),
        );
        lemma_selection_ok(inside, step);
        lemma_grown_in_array(steps, last as nat, inside, items);
        lemma_places_in_items(items);
        assert(Seq::<Place>::empty() + places_under(children) =~= semantics::places(
            Json::Array(items),
            Seq::empty(),
        ));
        lemma_child_distinct(children, Seq::empty(), last);
        lemma_copy(items[last], step);
        assert(items.update(last, items[last]) =~= items);
    }
}

/// Whether a member has none of the keys of `found`.
pub open spec fn is_other(found: Seq<(Seq<char>, Json)>) -> spec_fn((Seq<char>, Json)) -> bool {
    |member: (Seq<char>, Json)| !value::has_key(found, member.0)
}

/// The members of an object that have none of the keys of `found`.
pub open spec fn other_members(
    members: Seq<(Seq<char>, Json)>,
    found: Seq<(Seq<char>, Json)>,
) -> Seq<(Seq<char>, Json)> {
    members.filter(is_other(found))
}

/// `**^.name`, and `**^` before a selector, gives the properties of an object that are selected and
/// not `null`, each of them whole, and then every other value that holds such a property at any
/// depth, pruned in the same way. It never fails.
pub proof fn pruning_to_a_selection(members: Seq<(Seq<char>, Json)>, step: Step)
    requires
        is_selection(step),
        has_distinct_keys(Json::Object(members)),
    ensures
        semantics::apply(Step::DescendPaths(seq![step]), Json::Object(members)) == Ok::<
            Seq<Json>,
            ExecError,
        >(
            seq![
                Json::Object(
                    selected(step, members) + pruned_members(
                        seq![step],
                        other_members(members, selected(step, members)),
                    ),
                ),
            ],
        ),
{
    let steps = seq![step];
    let node = Json::Object(members);
    let places = semantics::places(node, Seq::empty());
    let children = children_of_object(members);
    assert(places[0] == Place { path: Seq::empty(), object: members });
    lemma_selection_ok(places, step);
    lemma_grown_from_nothing(steps, places);
    lemma_grown_ok(steps, places, Json::Object(Seq::empty()));
    lemma_object_grown(steps, members);
    lemma_found_selected(step, members);
    lemma_places_in_members(members);
    lemma_grown_others(members, members.len(), step);
    assert(children.take(members.len() as int) =~= children);
    assert(members.take(members.len() as int) =~= members);
}

#[verifier::rlimit(40)]
proof fn lemma_grown_others(members: Seq<(Seq<char>, Json)>, count: nat, step: Step)
    requires
        is_selection(step),
        has_distinct_keys(Json::Object(members)),
        count <= members.len(),
    ensures
        grown(
            seq![step],
            places_under(children_of_object(members).take(count as int)),
            Json::Object(selected(step, members)),
        ) == Ok::<Json, ExecError>(
            Json::Object(
                selected(step, members) + pruned_members(
                    seq![step],
                    other_members(members.take(count as int), selected(step, members)),
                ),
            ),
        ),
    decreases count,
{
    let steps = seq![step];
    let children = children_of_object(members);
    let own = selected(step, members);
    let others = other_members(members.take(count as int), own);
    if count == 0 {
        reveal(Seq::filter);
        assert(others =~= Seq::empty());
        assert(own + pruned_members(steps, others) =~= own);
    } else {
        let last = count - 1;
        let some = children.take(count as int);
        let (key, child) = members[last];
        let inside = semantics::places(child, Seq::empty());
        let here = Place { path: Seq::empty(), object: members };
        let others_before = other_members(members.take(last), own);
        let so_far = own + pruned_members(steps, others_before);
        lemma_grown_others(members, last as nat, step);
        assert(some.drop_last() =~= children.take(last));
        assert(some.last() == (Part::Key(key), child));
        lemma_grown_add(
            steps,
            places_under(children.take(last)),
            paths::moved(Part::Key(key), inside),
            Json::Object(own),
        );
        lemma_selection_ok(inside, step);
        lemma_places_in_members(members);
        assert(semantics::places(Json::Object(members), Seq::empty()) == seq![here] + places_under(
            children,
        ));
        lemma_child_distinct(children, seq![here], last);
        assert(semantics::places(Json::Object(members), Seq::empty())[0] == here);
        assert(others == if !value::has_key(own, key) {
            others_before.push((key, child))
        } else {
            others_before
        }) by {
            assert(members.take(count as int) =~= members.take(last).push((key, child)));
            lemmas::lemma_filter_push(members.take(last), (key, child), is_other(own));
        }
        if value::has_key(own, key) {
            lemma_own_lookup(members, step, pruned_members(steps, others_before), last);
            lemma_grown_own(step, so_far, key, child);
        } else {
            lemma_other_key(steps, members, last, own);
            lemma_grown_fresh(steps, Part::Key(key), child, so_far);
            lemma_pruned_members_push(steps, others_before, (key, child));
            if finds(steps, child) {
                assert(so_far.push((key, pruning(steps, child))) =~= own + pruned_members(
                    steps,
                    others,
                ));
            }
        }
    }
}

/// What is under the key of a match is the match.
proof fn lemma_own_lookup(
    members: Seq<(Seq<char>, Json)>,
    step: Step,
    more: Seq<(Seq<char>, Json)>,
    at: int,
)
    requires
        is_selection(step),
        value::distinct_keys(members),
        0 <= at < members.len(),
        value::has_key(selected(step, members), members[at].0),
    ensures
        value::lookup(selected(step, members) + more, members[at].0) == Some(members[at].1),
{
    let own = selected(step, members);
    let key = members[at].0;
    let i = value::key_index(own, key) as int;
    value::lemma_key_index(own, key);
    lemma_selected_is_there(step, members, i);
    value::lemma_key_index_distinct(members, at);
    assert forall|j: int| 0 <= j < i implies (#[trigger] (own + more)[j]).0 != key by {
        assert((own + more)[j] == own[j]);
    }
    value::lemma_key_index_is(own + more, key, i);
}

/// What is found below a match changes nothing of it.
proof fn lemma_grown_own(
    step: Step,
    members: Seq<(Seq<char>, Json)>,
    key: Seq<char>,
    child: Json,
)
    requires
        is_selection(step),
        value::lookup(members, key) == Some(child),
        has_distinct_keys(child),
    ensures
        grown(
            seq![step],
            paths::moved(Part::Key(key), semantics::places(child, Seq::empty())),
            Json::Object(members),
        ) == Ok::<Json, ExecError>(Json::Object(members)),
{
    let inside = semantics::places(child, Seq::empty());
    lemma_selection_ok(inside, step);
    lemma_grown_under(seq![step], Part::Key(key), inside, members);
    lemma_copy(child, step);
    lemma_put_same(members, key);
}

/// The members before one do not have its key.
proof fn lemma_other_key(
    steps: Seq<Step>,
    members: Seq<(Seq<char>, Json)>,
    at: int,
    own: Seq<(Seq<char>, Json)>,
)
    requires
        value::distinct_keys(members),
        0 <= at < members.len(),
        !value::has_key(own, members[at].0),
    ensures
        !value::has_key(
            own + pruned_members(steps, other_members(members.take(at), own)),
            members[at].0,
        ),
{
    let others = other_members(members.take(at), own);
    let all = own + pruned_members(steps, others);
    let key = members[at].0;
    if value::has_key(all, key) {
        let i = choose|i: int| 0 <= i < all.len() && (#[trigger] all[i]).0 == key;
        if i < own.len() {
            assert(own[i].0 == key);
        } else {
            assert(pruned_members(steps, others)[i - own.len()].0 == key);
            lemma_pruned_members_keys(steps, others, key);
            lemmas::lemma_filter_keys(members.take(at), is_other(own), key);
            lemmas::lemma_take_fresh(members, at);
        }
    }
}

/// Matches inside matches are kept, since the outer one holds the inner one: pruning an object to a
/// selection gives each property that it selects whole, with everything inside it.
pub proof fn a_match_is_kept_whole(members: Seq<(Seq<char>, Json)>, step: Step, i: int)
    requires
        is_selection(step),
        has_distinct_keys(Json::Object(members)),
        0 <= i < selected(step, members).len(),
    ensures
        ({
            let (key, found) = selected(step, members)[i];
            &&& value::lookup(members, key) == Some(found)
            &&& pruning(seq![step], Json::Object(members)) matches Json::Object(kept)
            &&& value::lookup(kept, key) == Some(found)
        }),
{
    let (key, found) = selected(step, members)[i];
    let places = semantics::places(Json::Object(members), Seq::empty());
    assert(places[0] == Place { path: Seq::empty(), object: members });
    pruning_to_a_selection(members, step);
    lemma_selected_is_there(step, members, i);
    let at = value::key_index(members, key) as int;
    value::lemma_key_index(members, key);
    lemma_own_lookup(
        members,
        step,
        pruned_members(seq![step], other_members(members, selected(step, members))),
        at,
    );
}

/// Pruning always gives one object.
pub proof fn pruning_gives_one_object(steps: Seq<Step>, node: Json)
    requires
        semantics::apply(Step::DescendPaths(steps), node) is Ok,
    ensures
        semantics::apply(Step::DescendPaths(steps), node)->Ok_0.len() == 1,
        pruning(steps, node) is Object,
        !finds(steps, node) ==> pruning(steps, node) == Json::Object(Seq::empty()),
{
    let places = semantics::places(node, Seq::empty());
    let none = Json::Object(Seq::empty());
    lemma_grown_from_nothing(steps, places);
    lemma_grown_ok(steps, places, none);
    lemma_grown_object(steps, places);
    if !finds(steps, node) {
        lemma_grown_nothing(steps, places, none);
    }
}

proof fn lemma_grown_object(steps: Seq<Step>, places: Seq<Place>)
    requires
        grown(steps, places, Json::Object(Seq::empty())) is Ok,
    ensures
        grown(steps, places, Json::Object(Seq::empty()))->Ok_0 is Object,
    decreases places.len(),
{
    if places.len() > 0 {
        lemma_grown_object(steps, places.drop_last());
    }
}

} // verus!
