//! Facts about the meaning of queries that the code that runs them rests on.

use crate::exec::ExecError;
use crate::op;
use crate::op::{Entry, Matcher, Step};
use crate::semantics;
use crate::semantics::Place;
use crate::value;
use crate::value::Json;
use vstd::prelude::*;

verus! {

/// Filtering a sequence that grows by one.
pub(crate) proof fn lemma_filter_push<A>(items: Seq<A>, item: A, keep: spec_fn(A) -> bool)
    ensures
        items.push(item).filter(keep) == if keep(item) {
            items.filter(keep).push(item)
        } else {
            items.filter(keep)
        },
{
    reveal(Seq::filter);
    assert(items.push(item).drop_last() =~= items);
}

/// Filtering by two predicates that agree gives the same.
pub(crate) proof fn lemma_filter_same<A>(
    items: Seq<A>,
    left: spec_fn(A) -> bool,
    right: spec_fn(A) -> bool,
)
    requires
        forall|item: A| #[trigger] left(item) == right(item),
    ensures
        items.filter(left) == items.filter(right),
    decreases items.len(),
{
    reveal(Seq::filter);
    if items.len() > 0 {
        lemma_filter_same(items.drop_last(), left, right);
        assert(left(items.last()) == right(items.last()));
    }
}

/// Filtering by one predicate and then by another is filtering by both.
pub(crate) proof fn lemma_filter_filter<A>(
    items: Seq<A>,
    first: spec_fn(A) -> bool,
    second: spec_fn(A) -> bool,
    both: spec_fn(A) -> bool,
)
    requires
        forall|item: A| #[trigger] both(item) == (first(item) && second(item)),
    ensures
        items.filter(first).filter(second) == items.filter(both),
    decreases items.len(),
{
    if items.len() == 0 {
        reveal(Seq::filter);
    } else {
        let before = items.drop_last();
        let last = items.last();
        assert(items =~= before.push(last));
        lemma_filter_filter(before, first, second, both);
        lemma_filter_push(before, last, first);
        lemma_filter_push(before, last, both);
        lemma_filter_push(before.filter(first), last, second);
        assert(both(last) == (first(last) && second(last)));
    }
}

/// Selecting members by key, when there is one member more.
pub(crate) proof fn lemma_matching_push(
    matcher: Matcher,
    members: Seq<(Seq<char>, Json)>,
    member: (Seq<char>, Json),
)
    ensures
        semantics::matching(matcher, members.push(member)) == if op::matches_key(
            matcher,
            member.0,
        ) {
            semantics::matching(matcher, members).push(member)
        } else {
            semantics::matching(matcher, members)
        },
{
    lemma_filter_push(
        members,
        member,
        |member: (Seq<char>, Json)| op::matches_key(matcher, member.0),
    );
}

/// The values of members, when there is one member more.
pub(crate) proof fn lemma_values_push(members: Seq<(Seq<char>, Json)>, member: (Seq<char>, Json))
    ensures
        semantics::values(members.push(member)) == semantics::values(members).push(member.1),
{
    assert(semantics::values(members.push(member)) =~= semantics::values(members).push(member.1));
}

/// The keys of members, when there is one member more.
pub(crate) proof fn lemma_keys_push(members: Seq<(Seq<char>, Json)>, member: (Seq<char>, Json))
    ensures
        semantics::keys(members.push(member)) == semantics::keys(members).push(
            Json::String(member.0),
        ),
{
    assert(semantics::keys(members.push(member)) =~= semantics::keys(members).push(
        Json::String(member.0),
    ));
}

/// A filtered object has no key that the object does not have.
pub(crate) proof fn lemma_filter_keys(
    members: Seq<(Seq<char>, Json)>,
    keep: spec_fn((Seq<char>, Json)) -> bool,
    key: Seq<char>,
)
    requires
        value::has_key(members.filter(keep), key),
    ensures
        value::has_key(members, key),
    decreases members.len(),
{
    reveal(Seq::filter);
    if members.len() > 0 {
        let before = members.drop_last();
        let kept = members.filter(keep);
        let at = choose|i: int| 0 <= i < kept.len() && (#[trigger] kept[i]).0 == key;
        if at < before.filter(keep).len() {
            assert(before.filter(keep)[at] == kept[at]);
            lemma_filter_keys(before, keep, key);
            let found = choose|i: int| 0 <= i < before.len() && (#[trigger] before[i]).0 == key;
            assert(members[found].0 == key);
        } else {
            assert(members[members.len() - 1].0 == key);
        }
    }
}

/// The members before one with distinct keys do not have its key.
pub(crate) proof fn lemma_take_fresh(members: Seq<(Seq<char>, Json)>, at: int)
    requires
        value::distinct_keys(members),
        0 <= at < members.len(),
    ensures
        !value::has_key(members.take(at), members[at].0),
{
    let before = members.take(at);
    if value::has_key(before, members[at].0) {
        let i = choose|i: int| 0 <= i < before.len() && (#[trigger] before[i]).0 == members[at].0;
        assert(members[i].0 == members[at].0);
    }
}

/// The first error stays the error however many values follow.
pub(crate) proof fn lemma_apply_all_error(step: Step, nodes: Seq<Json>, done: int, error: ExecError)
    requires
        0 <= done <= nodes.len(),
        semantics::apply_all(step, nodes.take(done)) == Err::<Seq<Json>, ExecError>(error),
    ensures
        semantics::apply_all(step, nodes) == Err::<Seq<Json>, ExecError>(error),
    decreases nodes.len(),
{
    if done == nodes.len() {
        assert(nodes.take(done) =~= nodes);
    } else {
        assert(nodes.drop_last().take(done) =~= nodes.take(done));
        lemma_apply_all_error(step, nodes.drop_last(), done, error);
    }
}

/// What was given before the first error stays the same however many values follow.
pub(crate) proof fn lemma_given_before_error(step: Step, nodes: Seq<Json>, at: int)
    requires
        0 <= at < nodes.len(),
        semantics::apply_all(step, nodes.take(at)) is Ok,
        semantics::apply(step, nodes[at]) is Err,
    ensures
        semantics::all_given_before_error(step, nodes) == semantics::apply_all(
            step,
            nodes.take(at),
        )->Ok_0 + semantics::given_before_error(step, nodes[at]),
    decreases nodes.len(),
{
    let before = nodes.drop_last();
    if at == before.len() {
        assert(before =~= nodes.take(at));
    } else {
        assert(before.take(at) =~= nodes.take(at));
        assert(before[at] == nodes[at]);
        lemma_given_before_error(step, before, at);
        lemma_apply_all_push(step, before, at);
        lemma_apply_all_error(
            step,
            before,
            at + 1,
            semantics::apply(step, nodes[at])->Err_0,
        );
    }
}

/// Running a step on one value more.
pub(crate) proof fn lemma_apply_all_push(step: Step, nodes: Seq<Json>, at: int)
    requires
        0 <= at < nodes.len(),
    ensures
        semantics::apply_all(step, nodes.take(at + 1)) == match semantics::apply_all(
            step,
            nodes.take(at),
        ) {
            Ok(before) => match semantics::apply(step, nodes[at]) {
                Ok(results) => Ok(before + results),
                Err(error) => Err(error),
            },
            Err(error) => Err(error),
        },
{
    assert(nodes.take(at + 1).drop_last() =~= nodes.take(at));
}

/// Looking up a key when there is one member more.
pub(crate) proof fn lemma_lookup_push(
    members: Seq<(Seq<char>, Json)>,
    member: (Seq<char>, Json),
    key: Seq<char>,
)
    ensures
        value::lookup(members.push(member), key) == match value::lookup(members, key) {
            Some(found) => Some(found),
            None => if member.0 == key {
                Some(member.1)
            } else {
                None
            },
        },
{
    let more = members.push(member);
    let at = value::key_index(members, key) as int;
    value::lemma_key_index(members, key);
    if at < members.len() || member.0 == key {
        value::lemma_key_index_is(more, key, at);
    } else {
        value::lemma_key_index_is(more, key, more.len() as int);
    }
}

/// Leaving out members by their keys does not change what is under a key that stays.
pub(crate) proof fn lemma_read_lookup(step: Step, members: Seq<(Seq<char>, Json)>, key: Seq<char>)
    requires
        semantics::reads(step, key),
    ensures
        value::lookup(
            members.filter(|member: (Seq<char>, Json)| semantics::reads(step, member.0)),
            key,
        ) == value::lookup(members, key),
    decreases members.len(),
{
    let keep = |member: (Seq<char>, Json)| semantics::reads(step, member.0);
    reveal(Seq::filter);
    if members.len() > 0 {
        let before = members.drop_last();
        let last = members.last();
        assert(members =~= before.push(last));
        lemma_read_lookup(step, before, key);
        lemma_lookup_push(before, last, key);
        lemma_filter_push(before, last, keep);
        lemma_lookup_push(before.filter(keep), last, key);
    }
}

/// Keeping what is all worth keeping changes nothing.
pub(crate) proof fn lemma_filter_all<A>(items: Seq<A>, keep: spec_fn(A) -> bool)
    requires
        forall|i: int| 0 <= i < items.len() ==> keep(#[trigger] items[i]),
    ensures
        items.filter(keep) == items,
    decreases items.len(),
{
    reveal(Seq::filter);
    if items.len() > 0 {
        let before = items.drop_last();
        assert forall|i: int| 0 <= i < before.len() implies keep(#[trigger] before[i]) by {
            assert(before[i] == items[i]);
        }
        lemma_filter_all(before, keep);
        assert(keep(items[items.len() - 1]));
        assert(before.push(items.last()) =~= items);
    }
}

/// A pick gives the same for two objects that hold the same under the names that it reads.
pub(crate) proof fn lemma_picked_same(
    entries: Seq<Entry>,
    left: Seq<(Seq<char>, Json)>,
    right: Seq<(Seq<char>, Json)>,
)
    requires
        forall|i: int|
            0 <= i < entries.len() ==> semantics::property(left, (#[trigger] entries[i]).name)
                == semantics::property(right, entries[i].name),
    ensures
        semantics::picked(entries, left) == semantics::picked(entries, right),
    decreases entries.len(),
{
    if entries.len() > 0 {
        let before = entries.drop_last();
        assert forall|i: int| 0 <= i < before.len() implies semantics::property(
            left,
            (#[trigger] before[i]).name,
        ) == semantics::property(right, before[i].name) by {
            assert(before[i] == entries[i]);
        }
        lemma_picked_same(before, left, right);
        assert(entries.last() == entries[entries.len() - 1]);
    }
}

/// An object step gives the same for an object and for what it reads of the object.
pub(crate) proof fn lemma_read_by(step: Step, members: Seq<(Seq<char>, Json)>)
    ensures
        semantics::apply(step, Json::Object(semantics::read_by(step, members)))
            == semantics::apply(step, semantics::seen_by(step, members)),
        semantics::given_before_error(step, Json::Object(semantics::read_by(step, members)))
            == semantics::given_before_error(step, semantics::seen_by(step, members)),
{
    broadcast use Seq::lemma_filter_pred;

    let keep = |member: (Seq<char>, Json)| semantics::reads(step, member.0);
    let read = members.filter(keep);
    match step {
        Step::Property(name) => {
            lemma_read_lookup(step, members, name);
        },
        Step::PropertyPick(entries) => {
            assert forall|i: int| 0 <= i < entries.len() implies semantics::property(
                read,
                (#[trigger] entries[i]).name,
            ) == semantics::property(members, entries[i].name) by {
                lemma_read_lookup(step, members, entries[i].name);
            }
            lemma_picked_same(entries, read, members);
        },
        Step::PropertyValues(matcher) => {
            lemma_read_matching(matcher, step, members);
        },
        Step::PropertyKeys(matcher) => {
            let nulled = semantics::read_by(step, members);
            lemma_read_matching(matcher, step, members);
            lemma_filter_all(
                nulled,
                |member: (Seq<char>, Json)| op::matches_key(matcher, member.0),
            );
            assert(semantics::keys(nulled) =~= semantics::keys(read));
        },
        Step::PropertyMap(matcher, steps) => {
            lemma_read_matching(matcher, step, members);
        },
        _ => {
            lemma_filter_none(members, keep);
        },
    }
}

/// What a step that selects members by key reads are the members that it selects.
proof fn lemma_read_matching(matcher: Matcher, step: Step, members: Seq<(Seq<char>, Json)>)
    requires
        forall|key: Seq<char>|
            #[trigger] semantics::reads(step, key) == op::matches_key(matcher, key),
    ensures
        members.filter(|member: (Seq<char>, Json)| semantics::reads(step, member.0))
            == semantics::matching(matcher, members),
        semantics::matching(matcher, semantics::matching(matcher, members))
            == semantics::matching(matcher, members),
        forall|i: int|
            0 <= i < semantics::matching(matcher, members).len() ==> op::matches_key(
                matcher,
                (#[trigger] semantics::matching(matcher, members)[i]).0,
            ),
{
    broadcast use Seq::lemma_filter_pred;

    let keep = |member: (Seq<char>, Json)| semantics::reads(step, member.0);
    let select = |member: (Seq<char>, Json)| op::matches_key(matcher, member.0);
    assert forall|member: (Seq<char>, Json)| #[trigger] keep(member) == select(member) by {
        assert(semantics::reads(step, member.0) == op::matches_key(matcher, member.0));
    }
    assert(keep =~= select);
    lemma_filter_all(members.filter(select), select);
}

/// Keeping what is none of it worth keeping leaves nothing.
proof fn lemma_filter_none<A>(items: Seq<A>, keep: spec_fn(A) -> bool)
    requires
        forall|item: A| !#[trigger] keep(item),
    ensures
        items.filter(keep) == Seq::<A>::empty(),
    decreases items.len(),
{
    reveal(Seq::filter);
    if items.len() > 0 {
        lemma_filter_none(items.drop_last(), keep);
    }
}

/// The first error of a pick stays its error however many entries follow.
pub(crate) proof fn lemma_picked_error(
    entries: Seq<Entry>,
    members: Seq<(Seq<char>, Json)>,
    done: int,
    error: ExecError,
)
    requires
        0 <= done <= entries.len(),
        semantics::picked(entries.take(done), members) == Err::<
            Seq<(Seq<char>, Json)>,
            ExecError,
        >(error),
    ensures
        semantics::picked(entries, members) == Err::<Seq<(Seq<char>, Json)>, ExecError>(error),
    decreases entries.len(),
{
    if done == entries.len() {
        assert(entries.take(done) =~= entries);
    } else {
        assert(entries.drop_last().take(done) =~= entries.take(done));
        lemma_picked_error(entries.drop_last(), members, done, error);
    }
}

/// The first error of mapping an object stays its error however many members follow.
pub(crate) proof fn lemma_mapped_error(
    steps: Seq<Step>,
    matcher: Matcher,
    members: Seq<(Seq<char>, Json)>,
    done: int,
    error: ExecError,
)
    requires
        0 <= done <= members.len(),
        semantics::mapped(steps, semantics::matching(matcher, members.take(done))) == Err::<
            Seq<(Seq<char>, Json)>,
            ExecError,
        >(error),
    ensures
        semantics::mapped(steps, semantics::matching(matcher, members)) == Err::<
            Seq<(Seq<char>, Json)>,
            ExecError,
        >(error),
    decreases members.len(),
{
    if done == members.len() {
        assert(members.take(done) =~= members);
    } else {
        let before = members.drop_last();
        assert(before.take(done) =~= members.take(done));
        lemma_mapped_error(steps, matcher, before, done, error);
        assert(members =~= before.push(members.last()));
        lemma_matching_push(matcher, before, members.last());
        let kept = semantics::matching(matcher, before);
        assert(kept.push(members.last()).drop_last() =~= kept);
    }
}

/// The first error of searching an object stays its error however many members follow.
pub(crate) proof fn lemma_found_in_values_error(
    steps: Seq<Step>,
    matcher: Matcher,
    members: Seq<(Seq<char>, Json)>,
    done: int,
    error: ExecError,
)
    requires
        0 <= done <= members.len(),
        semantics::found_in_values(steps, semantics::matching(matcher, members.take(done)))
            == Err::<Seq<(Seq<char>, Json)>, ExecError>(error),
    ensures
        semantics::found_in_values(steps, semantics::matching(matcher, members)) == Err::<
            Seq<(Seq<char>, Json)>,
            ExecError,
        >(error),
    decreases members.len(),
{
    if done == members.len() {
        assert(members.take(done) =~= members);
    } else {
        let before = members.drop_last();
        assert(before.take(done) =~= members.take(done));
        lemma_found_in_values_error(steps, matcher, before, done, error);
        assert(members =~= before.push(members.last()));
        lemma_matching_push(matcher, before, members.last());
        let kept = semantics::matching(matcher, before);
        assert(kept.push(members.last()).drop_last() =~= kept);
    }
}

/// Mapping an object gives no key that the object does not have.
pub(crate) proof fn lemma_mapped_keys(
    steps: Seq<Step>,
    members: Seq<(Seq<char>, Json)>,
    built: Seq<(Seq<char>, Json)>,
    key: Seq<char>,
)
    requires
        semantics::mapped(steps, members) == Ok::<Seq<(Seq<char>, Json)>, ExecError>(built),
        value::has_key(built, key),
    ensures
        value::has_key(members, key),
    decreases members.len(),
{
    let at = choose|i: int| 0 <= i < built.len() && (#[trigger] built[i]).0 == key;
    if members.len() > 0 {
        let before = members.drop_last();
        let done = semantics::mapped(steps, before)->Ok_0;
        if at < done.len() {
            assert(done[at] == built[at]);
            lemma_mapped_keys(steps, before, done, key);
            let found = choose|i: int| 0 <= i < before.len() && (#[trigger] before[i]).0 == key;
            assert(members[found].0 == key);
        } else {
            assert(members[members.len() - 1].0 == key);
        }
    }
}

/// Searching an object gives no key that the object does not have.
pub(crate) proof fn lemma_found_in_values_keys(
    steps: Seq<Step>,
    members: Seq<(Seq<char>, Json)>,
    built: Seq<(Seq<char>, Json)>,
    key: Seq<char>,
)
    requires
        semantics::found_in_values(steps, members) == Ok::<Seq<(Seq<char>, Json)>, ExecError>(
            built,
        ),
        value::has_key(built, key),
    ensures
        value::has_key(members, key),
    decreases members.len(),
{
    let at = choose|i: int| 0 <= i < built.len() && (#[trigger] built[i]).0 == key;
    if members.len() > 0 {
        let before = members.drop_last();
        let done = semantics::found_in_values(steps, before)->Ok_0;
        if at < done.len() {
            assert(done[at] == built[at]);
            lemma_found_in_values_keys(steps, before, done, key);
            let found = choose|i: int| 0 <= i < before.len() && (#[trigger] before[i]).0 == key;
            assert(members[found].0 == key);
        } else {
            assert(members[members.len() - 1].0 == key);
        }
    }
}

/// The first error of pruning a document stays its error however many objects follow.
pub(crate) proof fn lemma_pruned_error(
    steps: Seq<Step>,
    places: Seq<Place>,
    done: int,
    error: ExecError,
)
    requires
        0 <= done <= places.len(),
        semantics::pruned(steps, places.take(done)) == Err::<Json, ExecError>(error),
    ensures
        semantics::pruned(steps, places) == Err::<Json, ExecError>(error),
    decreases places.len(),
{
    if done == places.len() {
        assert(places.take(done) =~= places);
    } else {
        assert(places.drop_last().take(done) =~= places.take(done));
        lemma_pruned_error(steps, places.drop_last(), done, error);
    }
}

/// What a step reads of an object has no key that the object does not have.
pub(crate) proof fn lemma_read_by_keys(step: Step, members: Seq<(Seq<char>, Json)>, key: Seq<char>)
    requires
        value::has_key(semantics::read_by(step, members), key),
    ensures
        value::has_key(members, key),
{
    let keep = |member: (Seq<char>, Json)| semantics::reads(step, member.0);
    let read = semantics::read_by(step, members);
    let at = choose|i: int| 0 <= i < read.len() && (#[trigger] read[i]).0 == key;
    assert(members.filter(keep)[at].0 == key);
    lemma_filter_keys(members, keep, key);
}

/// Steps give the same for two values if the first of them does.
pub(crate) proof fn lemma_run_one(steps: Seq<Step>, left: Json, right: Json, fanned_out: bool)
    requires
        steps.len() > 0,
        semantics::apply(steps[0], left) == semantics::apply(steps[0], right),
    ensures
        semantics::run(steps, seq![left], fanned_out) == semantics::run(
            steps,
            seq![right],
            fanned_out,
        ),
{
    lemma_apply_one(steps[0], left);
    lemma_apply_one(steps[0], right);
}

/// Running a step on each of one value is running it on that value.
pub(crate) proof fn lemma_apply_one(step: Step, node: Json)
    ensures
        semantics::apply_all(step, seq![node]) == semantics::apply(step, node),
{
    let none = seq![node].drop_last();
    assert(none =~= Seq::empty());
    assert(semantics::apply_all(step, none) == Ok::<Seq<Json>, ExecError>(Seq::empty()));
    if let Ok(results) = semantics::apply(step, node) {
        assert(Seq::empty() + results =~= results);
    }
}

/// Of two values put under the same key, the second stays.
pub(crate) proof fn lemma_put_put(
    members: Seq<(Seq<char>, Json)>,
    key: Seq<char>,
    first: Json,
    second: Json,
)
    ensures
        value::put(value::put(members, key, first), key, second) == value::put(
            members,
            key,
            second,
        ),
{
    let once = value::put(members, key, first);
    let at = value::key_index(members, key) as int;
    value::lemma_key_index(members, key);
    value::lemma_key_index_is(once, key, at);
    assert(value::put(once, key, second) =~= value::put(members, key, second));
}

/// Stripping an object gives no key that the object does not have.
pub(crate) proof fn lemma_stripped_keys(members: Seq<(Seq<char>, Json)>, key: Seq<char>)
    requires
        value::has_key(semantics::stripped_members(members), key),
    ensures
        value::has_key(members, key),
    decreases members.len(),
{
    let kept = semantics::stripped_members(members);
    let at = choose|i: int| 0 <= i < kept.len() && (#[trigger] kept[i]).0 == key;
    if members.len() > 0 {
        let before = members.drop_last();
        let done = semantics::stripped_members(before);
        if at < done.len() {
            assert(done[at] == kept[at]);
            lemma_stripped_keys(before, key);
            let found = choose|i: int| 0 <= i < before.len() && (#[trigger] before[i]).0 == key;
            assert(members[found].0 == key);
        } else {
            assert(members[members.len() - 1].0 == key);
        }
    }
}

} // verus!
