//! Laws of how the results of steps are put together as one value.

use crate::exec::ExecError;
use crate::op::Step;
use crate::output;
use crate::semantics;
use crate::value::Json;
use vstd::prelude::*;

verus! {

/// Where no step is `[]` or a slice, a single result is printed as it is, and not inside an array.
pub proof fn a_single_result_is_not_put_in_an_array(steps: Seq<Step>, result: Json)
    requires
        forall|i: int|
            0 <= i < steps.len() ==> !(#[trigger] steps[i] is Array) && !(steps[i] is ArraySlice),
    ensures
        semantics::collected(steps, seq![result]) == result,
        output::printed(steps, seq![result], true) == result,
        output::printed(steps, seq![result], false) == semantics::stripped(result),
{
}

/// Several results, or none, are printed as an array of all of them, in order, whatever the steps.
pub proof fn several_results_are_put_in_an_array(steps: Seq<Step>, results: Seq<Json>)
    requires
        results.len() != 1,
    ensures
        semantics::collected(steps, results) == Json::Array(results),
        output::printed(steps, results, true) == Json::Array(results),
        output::printed(steps, results, false) == semantics::stripped(Json::Array(results)),
{
}

/// Where one of the steps is `[]` or a slice, the results are printed as an array, however many
/// there are.
pub proof fn elements_are_put_in_an_array(steps: Seq<Step>, i: int, results: Seq<Json>)
    requires
        0 <= i < steps.len(),
        steps[i] is Array || steps[i] is ArraySlice,
    ensures
        semantics::collected(steps, results) == Json::Array(results),
        output::printed(steps, results, true) == Json::Array(results),
        output::printed(steps, results, false) == semantics::stripped(Json::Array(results)),
{
}

/// In the object that a keys step with steps after it builds, a key whose value gives two or more
/// results holds the array of all of them, in order, whatever the steps.
pub proof fn a_mapped_key_holds_several_results(
    steps: Seq<Step>,
    members: Seq<(Seq<char>, Json)>,
    i: int,
    results: Seq<Json>,
)
    requires
        0 <= i < members.len(),
        semantics::mapped(steps, members) is Ok,
        semantics::run(steps, seq![members[i].1], false) == Ok::<Seq<Json>, ExecError>(results),
        results.len() >= 2,
    ensures
        semantics::mapped(steps, members)->Ok_0.len() == members.len(),
        semantics::mapped(steps, members)->Ok_0[i] == (members[i].0, Json::Array(results)),
{
    lemma_mapped(steps, members, i);
}

/// A key whose value gives one result holds that result, or with a `[]` or a slice among the steps
/// the array of it.
pub proof fn a_mapped_key_holds_one_result(
    steps: Seq<Step>,
    members: Seq<(Seq<char>, Json)>,
    i: int,
    result: Json,
)
    requires
        0 <= i < members.len(),
        semantics::mapped(steps, members) is Ok,
        semantics::run(steps, seq![members[i].1], false) == Ok::<Seq<Json>, ExecError>(seq![result]),
    ensures
        (forall|j: int|
            0 <= j < steps.len() ==> !(#[trigger] steps[j] is Array) && !(steps[j] is ArraySlice))
            ==> semantics::mapped(steps, members)->Ok_0[i] == (members[i].0, result),
        (exists|j: int|
            0 <= j < steps.len() && (#[trigger] steps[j] is Array || steps[j] is ArraySlice))
            ==> semantics::mapped(steps, members)->Ok_0[i] == (
            members[i].0,
            Json::Array(seq![result]),
        ),
{
    lemma_mapped(steps, members, i);
}

/// A key whose value gives no results holds `null`, or with a slice among the steps the empty array.
pub proof fn a_mapped_key_holds_no_results(
    steps: Seq<Step>,
    members: Seq<(Seq<char>, Json)>,
    i: int,
)
    requires
        0 <= i < members.len(),
        semantics::mapped(steps, members) is Ok,
        semantics::run(steps, seq![members[i].1], false) == Ok::<Seq<Json>, ExecError>(Seq::empty()),
    ensures
        (forall|j: int| 0 <= j < steps.len() ==> !(#[trigger] steps[j] is ArraySlice))
            ==> semantics::mapped(steps, members)->Ok_0[i] == (members[i].0, Json::Null),
        (exists|j: int| 0 <= j < steps.len() && #[trigger] steps[j] is ArraySlice)
            ==> semantics::mapped(steps, members)->Ok_0[i] == (
            members[i].0,
            Json::Array(Seq::empty()),
        ),
{
    lemma_mapped(steps, members, i);
}

proof fn lemma_mapped(steps: Seq<Step>, members: Seq<(Seq<char>, Json)>, i: int)
    requires
        0 <= i < members.len(),
        semantics::mapped(steps, members) is Ok,
    ensures
        semantics::mapped(steps, members)->Ok_0.len() == members.len(),
        semantics::run(steps, seq![members[i].1], false) is Ok,
        semantics::mapped(steps, members)->Ok_0[i] == (
            members[i].0,
            semantics::mapped_value(
                steps,
                semantics::run(steps, seq![members[i].1], false)->Ok_0,
            ),
        ),
    decreases members.len(),
{
    let before = members.drop_last();
    if before.len() > 0 {
        lemma_mapped(steps, before, if i < before.len() {
            i
        } else {
            0
        });
        if i < before.len() {
            assert(before[i] == members[i]);
        }
    } else {
        assert(semantics::mapped(steps, before)->Ok_0.len() == 0);
    }
}

/// A keys step with steps after it gives for an object one object, which holds what each member
/// with a matching key gives, in order: what it gives for some members and some more is what it
/// gives for the former and then what it gives for the latter. It fails where the steps fail on the
/// value under a matching key, with the first such error.
pub proof fn mapping_goes_member_by_member(
    steps: Seq<Step>,
    some: Seq<(Seq<char>, Json)>,
    more: Seq<(Seq<char>, Json)>,
    member: (Seq<char>, Json),
)
    ensures
        semantics::mapped(steps, some + more) == match (
            semantics::mapped(steps, some),
            semantics::mapped(steps, more),
        ) {
            (Ok(left), Ok(right)) => Ok(left + right),
            (Err(error), _) => Err(error),
            (_, Err(error)) => Err(error),
        },
        semantics::mapped(steps, Seq::empty()) == Ok::<Seq<(Seq<char>, Json)>, ExecError>(Seq::empty()),
        match semantics::run(steps, seq![member.1], false) {
            Ok(_) => semantics::mapped(steps, seq![member]) is Ok,
            Err(error) => semantics::mapped(steps, seq![member]) == Err::<
                Seq<(Seq<char>, Json)>,
                ExecError,
            >(error),
        },
    decreases more.len(),
{
    assert(seq![member].drop_last() =~= Seq::empty());
    assert(semantics::mapped(steps, Seq::empty()) == Ok::<Seq<(Seq<char>, Json)>, ExecError>(
        Seq::empty(),
    ));
    assert(seq![member].last() == member);
    let all = some + more;
    if more.len() == 0 {
        assert(all =~= some);
        if let Ok(left) = semantics::mapped(steps, some) {
            assert(left + Seq::empty() =~= left);
        }
    } else {
        let before = more.drop_last();
        mapping_goes_member_by_member(steps, some, before, member);
        assert(all.drop_last() =~= some + before);
        assert(all.last() == more.last());
        if let (Ok(left), Ok(right)) = (
            semantics::mapped(steps, some),
            semantics::mapped(steps, more),
        ) {
            let done = semantics::mapped(steps, before)->Ok_0;
            assert((left + done).push(right.last()) =~= left + right);
        }
    }
}

/// What counts as found: several results, or one that is not `null`, put together as for printing.
/// Nothing is found where there are no results, where the only one is `null`, or where it is an
/// empty object that the last step has built.
pub proof fn what_counts_as_found(steps: Seq<Step>, results: Seq<Json>, result: Json)
    ensures
        semantics::found_value(steps, Seq::empty()) is None,
        semantics::found_value(steps, seq![Json::Null]) is None,
        results.len() >= 2 ==> semantics::found_value(steps, results) == Some(
            Json::Array(results),
        ),
        steps.len() > 0 && (steps.last() is PropertyMap || steps.last() is DescendPaths)
            ==> semantics::found_value(steps, seq![Json::Object(Seq::empty())]) is None,
        !(steps.len() > 0 && (steps.last() is PropertyMap || steps.last() is DescendPaths))
            ==> semantics::found_value(steps, seq![Json::Object(Seq::empty())]) == Some(
            semantics::collected(steps, seq![Json::Object(Seq::empty())]),
        ),
        !(result is Null) && result != Json::Object(Seq::empty()) ==> semantics::found_value(
            steps,
            seq![result],
        ) == Some(semantics::collected(steps, seq![result])),
{
}

} // verus!
