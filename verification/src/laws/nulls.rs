//! Laws of leaving `null` out of what is printed.

use crate::lemmas;
use crate::output;
use crate::semantics;
use crate::semantics::{Part, Place};
use crate::op::Step;
use crate::value::Json;
use vstd::prelude::*;

verus! {

/// Whether the value of one of `members` is `null`.
pub open spec fn has_null(members: Seq<(Seq<char>, Json)>) -> bool {
    exists|i: int| 0 <= i < members.len() && (#[trigger] members[i]).1 is Null
}

/// Whether no object at `places` has a `null` among its values.
pub open spec fn no_nulls_at(places: Seq<Place>) -> bool {
    forall|i: int| 0 <= i < places.len() ==> !has_null((#[trigger] places[i]).object)
}

/// Whether no object in `node`, at any depth, has a `null` among its values.
pub open spec fn no_null_keys(node: Json) -> bool {
    no_nulls_at(semantics::places(node, Seq::empty()))
}

/// Leaving out the keys whose values are `null` leaves none of them, at any depth.
pub proof fn stripping_leaves_no_null_keys(node: Json)
    ensures
        no_null_keys(semantics::stripped(node)),
{
    lemma_stripped(node, Seq::empty());
}

proof fn lemma_stripped(node: Json, path: Seq<Part>)
    ensures
        no_nulls_at(semantics::places(semantics::stripped(node), path)),
    decreases node, 0int,
{
    match node {
        Json::Object(members) => {
            let kept = semantics::stripped_members(members);
            lemma_stripped_members(members, path);
            lemma_no_nulls_add(
                seq![Place { path, object: kept }],
                semantics::places_in_members(kept, path),
            );
        },
        Json::Array(items) => {
            let kept = semantics::stripped(node)->Array_0;
            lemma_stripped_items(items, items.len(), path);
            assert(kept.take(items.len() as int) =~= kept);
        },
        _ => {},
    }
}

proof fn lemma_no_nulls_add(left: Seq<Place>, right: Seq<Place>)
    requires
        no_nulls_at(left),
        no_nulls_at(right),
    ensures
        no_nulls_at(left + right),
{
    let all = left + right;
    assert forall|i: int| 0 <= i < all.len() implies !has_null((#[trigger] all[i]).object) by {
        if i < left.len() {
            assert(all[i] == left[i]);
        } else {
            assert(all[i] == right[i - left.len()]);
        }
    }
}

proof fn lemma_stripped_members(members: Seq<(Seq<char>, Json)>, path: Seq<Part>)
    ensures
        !has_null(semantics::stripped_members(members)),
        no_nulls_at(semantics::places_in_members(semantics::stripped_members(members), path)),
    decreases members, 1int,
{
    if members.len() > 0 {
        let before = members.drop_last();
        let last = members.last();
        let done = semantics::stripped_members(before);
        lemma_stripped_members(before, path);
        if !(last.1 is Null) {
            let member = (last.0, semantics::stripped(last.1));
            let kept = done.push(member);
            assert forall|i: int| 0 <= i < kept.len() implies !((#[trigger] kept[i]).1
                is Null) by {
                if i < done.len() {
                    assert(kept[i] == done[i]);
                }
            }
            assert(kept.drop_last() =~= done);
            lemma_stripped(last.1, path.push(Part::Key(last.0)));
            lemma_no_nulls_add(
                semantics::places_in_members(done, path),
                semantics::places(member.1, path.push(Part::Key(last.0))),
            );
        }
    }
}

proof fn lemma_stripped_items(items: Seq<Json>, count: nat, path: Seq<Part>)
    requires
        count <= items.len(),
    ensures
        no_nulls_at(
            semantics::places_in_items(
                semantics::stripped(Json::Array(items))->Array_0.take(count as int),
                path,
            ),
        ),
    decreases items, count,
{
    if count > 0 {
        let kept = semantics::stripped(Json::Array(items))->Array_0;
        let some = kept.take(count as int);
        let index = Part::Index((count - 1) as nat);
        lemma_stripped_items(items, (count - 1) as nat, path);
        lemma_stripped(items[count - 1], path.push(index));
        assert(some.drop_last() =~= kept.take(count - 1));
        assert(some.last() == semantics::stripped(items[count - 1]));
        lemma_no_nulls_add(
            semantics::places_in_items(some.drop_last(), path),
            semantics::places(some.last(), path.push(index)),
        );
    }
}

/// A value without such keys stays as it is.
pub proof fn stripping_changes_nothing_else(node: Json)
    requires
        no_null_keys(node),
    ensures
        semantics::stripped(node) == node,
{
    lemma_unchanged(node, Seq::empty());
}

proof fn lemma_unchanged(node: Json, path: Seq<Part>)
    requires
        no_nulls_at(semantics::places(node, path)),
    ensures
        semantics::stripped(node) == node,
    decreases node, 0int,
{
    match node {
        Json::Object(members) => {
            let places = semantics::places(node, path);
            let inside = semantics::places_in_members(members, path);
            assert(places[0].object == members);
            assert forall|i: int| 0 <= i < inside.len() implies !has_null(
                (#[trigger] inside[i]).object,
            ) by {
                assert(inside[i] == places[i + 1]);
            }
            lemma_unchanged_members(members, path);
        },
        Json::Array(items) => {
            assert(items.take(items.len() as int) =~= items);
            assert forall|i: int| 0 <= i < items.len() implies semantics::stripped(
                #[trigger] items[i],
            ) == items[i] by {
                lemma_unchanged_items(items, items.len(), i, path);
            }
            assert(semantics::stripped(node)->Array_0 =~= items);
        },
        _ => {},
    }
}

proof fn lemma_unchanged_members(members: Seq<(Seq<char>, Json)>, path: Seq<Part>)
    requires
        !has_null(members),
        no_nulls_at(semantics::places_in_members(members, path)),
    ensures
        semantics::stripped_members(members) == members,
    decreases members, 1int,
{
    if members.len() > 0 {
        let before = members.drop_last();
        let last = members.last();
        let all = semantics::places_in_members(members, path);
        let some = semantics::places_in_members(before, path);
        let inside = semantics::places(last.1, path.push(Part::Key(last.0)));
        assert(!(members[members.len() - 1].1 is Null));
        if has_null(before) {
            let i = choose|i: int| 0 <= i < before.len() && (#[trigger] before[i]).1 is Null;
            assert(members[i].1 is Null);
        }
        assert forall|i: int| 0 <= i < some.len() implies !has_null(
            (#[trigger] some[i]).object,
        ) by {
            assert(some[i] == all[i]);
        }
        assert forall|i: int| 0 <= i < inside.len() implies !has_null(
            (#[trigger] inside[i]).object,
        ) by {
            assert(inside[i] == all[some.len() + i]);
        }
        lemma_unchanged_members(before, path);
        lemma_unchanged(last.1, path.push(Part::Key(last.0)));
        assert(before.push(last) =~= members);
    }
}

proof fn lemma_unchanged_items(items: Seq<Json>, count: nat, i: int, path: Seq<Part>)
    requires
        0 <= i < count <= items.len(),
        no_nulls_at(semantics::places_in_items(items.take(count as int), path)),
    ensures
        semantics::stripped(items[i]) == items[i],
    decreases items, count,
{
    let some = items.take(count as int);
    let all = semantics::places_in_items(some, path);
    let before = semantics::places_in_items(some.drop_last(), path);
    let index = Part::Index((count - 1) as nat);
    assert(some.drop_last() =~= items.take(count - 1));
    if i == count - 1 {
        let inside = semantics::places(items[i], path.push(index));
        assert forall|j: int| 0 <= j < inside.len() implies !has_null(
            (#[trigger] inside[j]).object,
        ) by {
            assert(inside[j] == all[before.len() + j]);
        }
        lemma_unchanged(items[i], path.push(index));
    } else {
        assert forall|j: int| 0 <= j < before.len() implies !has_null(
            (#[trigger] before[j]).object,
        ) by {
            assert(before[j] == all[j]);
        }
        lemma_unchanged_items(items, (count - 1) as nat, i, path);
    }
}

/// Stripping a value again changes nothing more.
pub proof fn stripping_twice_is_stripping_once(node: Json)
    ensures
        semantics::stripped(semantics::stripped(node)) == semantics::stripped(node),
{
    stripping_leaves_no_null_keys(node);
    stripping_changes_nothing_else(semantics::stripped(node));
}

/// Of an object, the other keys stay, in their order, with their values stripped.
pub proof fn the_other_keys_stay_in_order(members: Seq<(Seq<char>, Json)>)
    ensures
        semantics::stripped(Json::Object(members)) == Json::Object(
            members.filter(|member: (Seq<char>, Json)| member.1 != Json::Null).map_values(
                |member: (Seq<char>, Json)| (member.0, semantics::stripped(member.1)),
            ),
        ),
{
    lemmas::lemma_filter_same(
        members,
        |member: (Seq<char>, Json)| member.1 !is Null,
        |member: (Seq<char>, Json)| member.1 != Json::Null,
    );
    let strip = |member: (Seq<char>, Json)| (member.0, semantics::stripped(member.1));
    lemma_stripped_is_filtered(members, strip);
}

proof fn lemma_stripped_is_filtered(
    members: Seq<(Seq<char>, Json)>,
    strip: spec_fn((Seq<char>, Json)) -> (Seq<char>, Json),
)
    requires
        forall|member: (Seq<char>, Json)| #[trigger]
            strip(member) == (member.0, semantics::stripped(member.1)),
    ensures
        semantics::stripped_members(members) == semantics::without_nulls(members).map_values(strip),
    decreases members.len(),
{
    let kept = semantics::without_nulls(members).map_values(strip);
    if members.len() == 0 {
        reveal(Seq::filter);
        assert(kept =~= Seq::empty());
    } else {
        let before = members.drop_last();
        let last = members.last();
        lemma_stripped_is_filtered(before, strip);
        assert(members =~= before.push(last));
        lemmas::lemma_filter_push(
            before,
            last,
            |member: (Seq<char>, Json)| member.1 !is Null,
        );
        assert(kept =~= semantics::stripped_members(members));
    }
}

/// Nulls in arrays, and a result that is itself `null`, are always printed.
pub proof fn nulls_in_arrays_stay(items: Seq<Json>, i: int)
    requires
        0 <= i < items.len(),
    ensures
        semantics::stripped(Json::Null) == Json::Null,
        semantics::stripped(Json::Array(items)) matches Json::Array(kept) && kept.len()
            == items.len() && kept[i] == semantics::stripped(items[i]),
{
}

/// Stripping leaves everything that is neither an object nor an array as it is.
pub proof fn scalars_are_not_stripped(scalar: Json)
    requires
        !(scalar is Object) && !(scalar is Array),
    ensures
        semantics::stripped(scalar) == scalar,
{
}

/// What is printed has no key whose value is `null`, unless these are to be kept. Then it is what
/// the query gives, unchanged.
pub proof fn only_kept_nulls_are_printed(steps: Seq<Step>, results: Seq<Json>)
    ensures
        no_null_keys(output::printed(steps, results, false)),
        output::printed(steps, results, true) == semantics::collected(steps, results),
{
    stripping_leaves_no_null_keys(semantics::collected(steps, results));
}

} // verus!
