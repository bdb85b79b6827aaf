//! Laws of the members of objects: finding them, putting them and selecting them.

use crate::exec::ExecError;
use crate::lemmas;
use crate::op;
use crate::op::{Entry, Matcher, Step};
use crate::semantics;
use crate::text;
use crate::value;
use crate::value::Json;
use vstd::prelude::*;

verus! {

/// A property step gives the value of the first member with its name.
pub proof fn a_property_is_the_value_under_its_name(members: Seq<(Seq<char>, Json)>, i: int)
    requires
        0 <= i < members.len(),
        forall|j: int| 0 <= j < i ==> (#[trigger] members[j]).0 != members[i].0,
    ensures
        value::key_index(members, members[i].0) == i,
        value::lookup(members, members[i].0) == Some(members[i].1),
        semantics::property(members, members[i].0) == members[i].1,
        semantics::apply(Step::Property(members[i].0), Json::Object(members)) == Ok::<
            Seq<Json>,
            ExecError,
        >(seq![members[i].1]),
{
    value::lemma_key_index_is(members, members[i].0, i);
}

/// Where no member has a name, a property step gives `null` for it.
pub proof fn there_is_nothing_under_other_names(members: Seq<(Seq<char>, Json)>, name: Seq<char>)
    requires
        forall|i: int| 0 <= i < members.len() ==> (#[trigger] members[i]).0 != name,
    ensures
        value::key_index(members, name) == members.len(),
        value::lookup(members, name) is None,
        semantics::property(members, name) == Json::Null,
        semantics::apply(Step::Property(name), Json::Object(members)) == Ok::<
            Seq<Json>,
            ExecError,
        >(seq![Json::Null]),
{
    value::lemma_key_index_is(members, name, members.len() as int);
}

/// Putting a value under a key that is there replaces the value in its place, and everything else
/// stays.
pub proof fn putting_replaces_a_value_in_its_place(
    members: Seq<(Seq<char>, Json)>,
    i: int,
    value: Json,
)
    requires
        0 <= i < members.len(),
        forall|j: int| 0 <= j < i ==> (#[trigger] members[j]).0 != members[i].0,
    ensures
        value::put(members, members[i].0, value) == members.update(i, (members[i].0, value)),
{
    value::lemma_key_index_is(members, members[i].0, i);
}

/// Putting a value under a new key adds it at the end.
pub proof fn putting_adds_a_new_key_at_the_end(
    members: Seq<(Seq<char>, Json)>,
    key: Seq<char>,
    value: Json,
)
    requires
        forall|i: int| 0 <= i < members.len() ==> (#[trigger] members[i]).0 != key,
    ensures
        value::put(members, key, value) == members.push((key, value)),
{
    value::lemma_key_index_is(members, key, members.len() as int);
}

/// Reading gives back what was put last under a key, and what was there under every other key.
pub proof fn reading_gives_what_was_put(
    members: Seq<(Seq<char>, Json)>,
    key: Seq<char>,
    value: Json,
    other: Seq<char>,
)
    requires
        other != key,
    ensures
        value::lookup(value::put(members, key, value), key) == Some(value),
        value::lookup(value::put(members, key, value), other) == value::lookup(members, other),
{
    value::lemma_put_lookup(members, key, value, key);
    value::lemma_put_lookup(members, key, value, other);
}

/// Putting several members puts them one after the other.
pub proof fn several_members_are_put_in_turn(
    members: Seq<(Seq<char>, Json)>,
    some: Seq<(Seq<char>, Json)>,
    more: Seq<(Seq<char>, Json)>,
    member: (Seq<char>, Json),
)
    ensures
        value::put_all(members, Seq::empty()) == members,
        value::put_all(members, seq![member]) == value::put(members, member.0, member.1),
        value::put_all(members, some + more) == value::put_all(value::put_all(members, some), more),
    decreases more.len(),
{
    assert(seq![member].drop_last() =~= Seq::empty());
    assert(value::put_all(members, Seq::empty()) == members);
    assert(seq![member].last() == member);
    let all = some + more;
    if more.len() == 0 {
        assert(all =~= some);
    } else {
        several_members_are_put_in_turn(members, some, more.drop_last(), member);
        assert(all.drop_last() =~= some + more.drop_last());
        assert(all.last() == more.last());
    }
}

/// `*` selects every key. A name selects the keys that have it anywhere in them, and no others. A
/// regex selects the keys in which it has a match.
pub proof fn what_selects_a_key(
    left: Seq<char>,
    name: Seq<char>,
    right: Seq<char>,
    key: Seq<char>,
    source: Seq<char>,
    texts: Set<Seq<char>>,
)
    ensures
        op::matches_key(Matcher::Any, key),
        op::matches_key(Matcher::Contains(name), left + name + right),
        op::matches_key(Matcher::Contains(name), key) ==> exists|before: Seq<char>, after: Seq<
            char,
        >| key == #[trigger] (before + name + after),
        op::matches_key(Matcher::Regex { source, texts }, key) <==> texts.contains(key),
{
    let whole = left + name + right;
    let at = left.len() as int;
    assert(whole.subrange(at, at + name.len()) =~= name);
    assert(text::contains(whole, name));
    if text::contains(key, name) {
        let at = choose|at: int|
            0 <= at <= key.len() - name.len() && #[trigger] key.subrange(at, at + name.len())
                == name;
        let before = key.take(at);
        let after = key.skip(at + name.len());
        let middle = key.subrange(at, at + name.len());
        assert(middle == name);
        assert(key =~= before + middle + after);
        assert(key == before + name + after);
    }
}

/// `*` and `/regex/` give the value of each member with a matching key, in order: for some members
/// and some more, what they give for the former and then what they give for the latter.
pub proof fn values_are_selected_member_by_member(
    matcher: Matcher,
    some: Seq<(Seq<char>, Json)>,
    more: Seq<(Seq<char>, Json)>,
    member: (Seq<char>, Json),
)
    ensures
        semantics::apply(Step::PropertyValues(matcher), Json::Object(Seq::empty())) == Ok::<
            Seq<Json>,
            ExecError,
        >(Seq::empty()),
        semantics::apply(Step::PropertyValues(matcher), Json::Object(seq![member])) == Ok::<
            Seq<Json>,
            ExecError,
        >(
            if op::matches_key(matcher, member.0) {
                seq![member.1]
            } else {
                Seq::empty()
            },
        ),
        match (
            semantics::apply(Step::PropertyValues(matcher), Json::Object(some)),
            semantics::apply(Step::PropertyValues(matcher), Json::Object(more)),
        ) {
            (Ok(left), Ok(right)) => semantics::apply(
                Step::PropertyValues(matcher),
                Json::Object(some + more),
            ) == Ok::<Seq<Json>, ExecError>(left + right),
            _ => false,
        },
{
    lemma_matching(matcher, some, more, member);
    let left = semantics::matching(matcher, some);
    let right = semantics::matching(matcher, more);
    assert(semantics::values(left + right) =~= semantics::values(left) + semantics::values(right));
    assert(semantics::values(Seq::empty()) =~= Seq::empty());
    assert(semantics::values(seq![member]) =~= seq![member.1]);
}

/// The keys steps give the key of each member with a matching key, as a string, in order.
pub proof fn keys_are_selected_member_by_member(
    matcher: Matcher,
    some: Seq<(Seq<char>, Json)>,
    more: Seq<(Seq<char>, Json)>,
    member: (Seq<char>, Json),
)
    ensures
        semantics::apply(Step::PropertyKeys(matcher), Json::Object(Seq::empty())) == Ok::<
            Seq<Json>,
            ExecError,
        >(Seq::empty()),
        semantics::apply(Step::PropertyKeys(matcher), Json::Object(seq![member])) == Ok::<
            Seq<Json>,
            ExecError,
        >(
            if op::matches_key(matcher, member.0) {
                seq![Json::String(member.0)]
            } else {
                Seq::empty()
            },
        ),
        match (
            semantics::apply(Step::PropertyKeys(matcher), Json::Object(some)),
            semantics::apply(Step::PropertyKeys(matcher), Json::Object(more)),
        ) {
            (Ok(left), Ok(right)) => semantics::apply(
                Step::PropertyKeys(matcher),
                Json::Object(some + more),
            ) == Ok::<Seq<Json>, ExecError>(left + right),
            _ => false,
        },
{
    lemma_matching(matcher, some, more, member);
    let left = semantics::matching(matcher, some);
    let right = semantics::matching(matcher, more);
    assert(semantics::keys(left + right) =~= semantics::keys(left) + semantics::keys(right));
    assert(semantics::keys(Seq::empty()) =~= Seq::empty());
    assert(semantics::keys(seq![member]) =~= seq![Json::String(member.0)]);
}

/// A keys step with steps after it builds one object. It holds what the members with matching keys
/// are mapped to, and nothing of the other members.
pub proof fn matching_members_are_mapped(
    matcher: Matcher,
    steps: Seq<Step>,
    members: Seq<(Seq<char>, Json)>,
)
    ensures
        semantics::apply(Step::PropertyMap(matcher, steps), Json::Object(members)) == match
            semantics::mapped(
            steps,
            members.filter(|member: (Seq<char>, Json)| op::matches_key(matcher, member.0)),
        ) {
            Ok(built) => Ok::<Seq<Json>, ExecError>(seq![Json::Object(built)]),
            Err(error) => Err(error),
        },
{
}

/// Selecting members by key goes member by member.
pub(crate) proof fn lemma_matching(
    matcher: Matcher,
    some: Seq<(Seq<char>, Json)>,
    more: Seq<(Seq<char>, Json)>,
    member: (Seq<char>, Json),
)
    ensures
        semantics::matching(matcher, Seq::empty()) == Seq::<(Seq<char>, Json)>::empty(),
        semantics::matching(matcher, seq![member]) == if op::matches_key(matcher, member.0) {
            seq![member]
        } else {
            Seq::empty()
        },
        semantics::matching(matcher, some + more) == semantics::matching(matcher, some)
            + semantics::matching(matcher, more),
    decreases more.len(),
{
    let none = Seq::<(Seq<char>, Json)>::empty();
    assert(semantics::matching(matcher, none) =~= none) by {
        reveal(Seq::filter);
    }
    lemmas::lemma_matching_push(matcher, none, member);
    assert(none.push(member) =~= seq![member]);
    if more.len() == 0 {
        assert(some + more =~= some);
        assert(more =~= none);
        assert(semantics::matching(matcher, some) + none =~= semantics::matching(matcher, some));
    } else {
        let before = more.drop_last();
        lemma_matching(matcher, some, before, member);
        lemmas::lemma_matching_push(matcher, before, more.last());
        lemmas::lemma_matching_push(matcher, some + before, more.last());
        assert(before.push(more.last()) =~= more);
        assert((some + before).push(more.last()) =~= some + more);
        assert(semantics::matching(matcher, some + more) =~= semantics::matching(matcher, some)
            + semantics::matching(matcher, more));
    }
}

/// A pick without entries gives the empty object. With one entry more, it puts one member more: the
/// entry's key, with what the entry's steps give for the value of its property, put together as for
/// printing. It fails where the steps of an entry fail, with the first such error.
pub proof fn a_pick_goes_entry_by_entry(
    entries: Seq<Entry>,
    entry: Entry,
    members: Seq<(Seq<char>, Json)>,
)
    ensures
        semantics::apply(Step::PropertyPick(Seq::empty()), Json::Object(members)) == Ok::<
            Seq<Json>,
            ExecError,
        >(seq![Json::Object(Seq::empty())]),
        semantics::apply(Step::PropertyPick(entries.push(entry)), Json::Object(members)) == match (
            semantics::apply(Step::PropertyPick(entries), Json::Object(members)),
            semantics::apply(Step::Property(entry.name), Json::Object(members)),
        ) {
            (Ok(before), Ok(found)) => match (before[0], semantics::run(entry.steps, found, false)) {
                (Json::Object(built), Ok(results)) => Ok::<Seq<Json>, ExecError>(
                    seq![
                        Json::Object(
                            value::put(
                                built,
                                entry.key,
                                semantics::collected(entry.steps, results),
                            ),
                        ),
                    ],
                ),
                (_, Err(error)) => Err(error),
                (_, Ok(results)) => Ok(results),
            },
            (Err(error), _) => Err(error),
            (_, Err(error)) => Err(error),
        },
        semantics::apply(Step::PropertyPick(entries), Json::Object(members)) matches Ok(built)
            ==> built.len() == 1 && built[0] is Object,
        semantics::apply(Step::PropertyPick(entries), Json::Null) == semantics::apply(
            Step::PropertyPick(entries),
            Json::Object(Seq::empty()),
        ),
{
    let all = entries.push(entry);
    assert(all.drop_last() =~= entries);
    assert(all.last() == entry);
    assert(semantics::picked(Seq::empty(), members) == Ok::<Seq<(Seq<char>, Json)>, ExecError>(
        Seq::empty(),
    ));
    assert(semantics::picked(all, members) == match semantics::picked(entries, members) {
        Ok(before) => match semantics::run(
            entry.steps,
            seq![semantics::property(members, entry.name)],
            false,
        ) {
            Ok(results) => Ok(
                value::put(before, entry.key, semantics::collected(entry.steps, results)),
            ),
            Err(error) => Err(error),
        },
        Err(error) => Err(error),
    });
}

} // verus!
