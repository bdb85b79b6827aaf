//! JSON values.

use crate::text;
use vstd::prelude::*;

verus! {

/// `serde_json::Number`: a JSON number, which no query looks inside.
#[verifier::external_type_specification]
#[verifier::external_body]
pub struct ExNumber(serde_json::Number);

/// `serde_json::Number::clone`: the copy is the number it was made from.
pub assume_specification[ <serde_json::Number as Clone>::clone ](
    source: &serde_json::Number,
) -> (copy: serde_json::Number)
    ensures
        copy == *source,
;

/// What a JSON value is, as mathematics: an object is the sequence of its members, in document
/// order.
pub enum Json {
    Null,
    Bool(bool),
    Number(serde_json::Number),
    String(Seq<char>),
    Array(Seq<Json>),
    Object(Seq<(Seq<char>, Json)>),
}

/// Whether two numbers compare equal.
pub uninterp spec fn numbers_equal(left: serde_json::Number, right: serde_json::Number) -> bool;

/// `serde_json::Number::eq`: whether two numbers compare equal, which the two numbers determine.
#[verifier::external_body]
fn same_number(left: &serde_json::Number, right: &serde_json::Number) -> (same: bool)
    ensures
        same == numbers_equal(*left, *right),
{
    left == right
}

/// A JSON value.
#[derive(Debug)]
pub enum JsonValue {
    Null,
    Bool(bool),
    Number(serde_json::Number),
    String(String),
    Array(Vec<JsonValue>),
    Object(Object),
}

/// A JSON object. Its members keep the order in which their keys were first inserted, and no key
/// occurs twice.
#[derive(Debug)]
pub struct Object {
    entries: Vec<(String, JsonValue)>,
}

/// The values that `values` stand for.
pub open spec fn jsons(values: Seq<JsonValue>) -> Seq<Json>
    decreases values,
{
    Seq::new(
        values.len(),
        |i: int|
            if 0 <= i < values.len() {
                values[i].view()
            } else {
                Json::Null
            },
    )
}

/// The members that `entries` stand for.
pub open spec fn members(entries: Seq<(String, JsonValue)>) -> Seq<(Seq<char>, Json)>
    decreases entries,
{
    Seq::new(
        entries.len(),
        |i: int|
            if 0 <= i < entries.len() {
                (entries[i].0@, entries[i].1.view())
            } else {
                (Seq::empty(), Json::Null)
            },
    )
}

impl View for JsonValue {
    type V = Json;

    open spec fn view(&self) -> Json
        decreases self,
    {
        match *self {
            JsonValue::Null => Json::Null,
            JsonValue::Bool(b) => Json::Bool(b),
            JsonValue::Number(n) => Json::Number(n),
            JsonValue::String(s) => Json::String(s@),
            JsonValue::Array(items) => Json::Array(jsons(items@)),
            JsonValue::Object(object) => Json::Object(object.view()),
        }
    }
}

impl View for Object {
    type V = Seq<(Seq<char>, Json)>;

    closed spec fn view(&self) -> Seq<(Seq<char>, Json)>
        decreases self,
    {
        members(self.entries@)
    }
}

/// No key occurs twice among `members`.
pub open spec fn distinct_keys(members: Seq<(Seq<char>, Json)>) -> bool {
    forall|i: int, j: int|
        0 <= i < j < members.len() ==> #[trigger] members[i].0 != #[trigger] members[j].0
}

/// The position of the first member under `key`, or the number of members if there is none.
pub open spec fn key_index(members: Seq<(Seq<char>, Json)>, key: Seq<char>) -> nat
    decreases members.len(),
{
    if members.len() == 0 || members[0].0 == key {
        0
    } else {
        1 + key_index(members.drop_first(), key)
    }
}

/// The value under `key`, if there is one.
pub open spec fn lookup(members: Seq<(Seq<char>, Json)>, key: Seq<char>) -> Option<Json> {
    let at = key_index(members, key);
    if at < members.len() {
        Some(members[at as int].1)
    } else {
        None
    }
}

/// `members` with `value` under `key`: in the place of the value that was there, or else at the
/// end.
pub open spec fn put(members: Seq<(Seq<char>, Json)>, key: Seq<char>, value: Json) -> Seq<
    (Seq<char>, Json),
> {
    let at = key_index(members, key);
    if at < members.len() {
        members.update(at as int, (key, value))
    } else {
        members.push((key, value))
    }
}

/// `members` with each of `more` put into it in turn.
pub open spec fn put_all(
    members: Seq<(Seq<char>, Json)>,
    more: Seq<(Seq<char>, Json)>,
) -> Seq<(Seq<char>, Json)>
    decreases more.len(),
{
    if more.len() == 0 {
        members
    } else {
        put(put_all(members, more.drop_last()), more.last().0, more.last().1)
    }
}

/// `key_index` is the only position with `key` that has no `key` before it.
pub(crate) proof fn lemma_key_index(members: Seq<(Seq<char>, Json)>, key: Seq<char>)
    ensures
        key_index(members, key) <= members.len(),
        key_index(members, key) < members.len() ==> members[key_index(members, key) as int].0
            == key,
        forall|i: int| 0 <= i < key_index(members, key) ==> (#[trigger] members[i]).0 != key,
    decreases members.len(),
{
    if members.len() != 0 && members[0].0 != key {
        let rest = members.drop_first();
        lemma_key_index(rest, key);
        assert forall|i: int| 0 <= i < key_index(members, key) implies (#[trigger] members[i]).0
            != key by {
            if i > 0 {
                assert(members[i] == rest[i - 1]);
            }
        }
    }
}

/// A position with `key` and no `key` before it is `key_index`.
pub(crate) proof fn lemma_key_index_is(members: Seq<(Seq<char>, Json)>, key: Seq<char>, at: int)
    requires
        0 <= at <= members.len(),
        at < members.len() ==> members[at].0 == key,
        forall|i: int| 0 <= i < at ==> (#[trigger] members[i]).0 != key,
    ensures
        key_index(members, key) == at,
{
    lemma_key_index(members, key);
}

/// Where keys are distinct, `key_index` finds the one member that has the key.
pub(crate) proof fn lemma_key_index_distinct(members: Seq<(Seq<char>, Json)>, at: int)
    requires
        distinct_keys(members),
        0 <= at < members.len(),
    ensures
        key_index(members, members[at].0) == at,
        lookup(members, members[at].0) == Some(members[at].1),
{
    lemma_key_index_is(members, members[at].0, at);
}

/// Putting a value under a key keeps keys distinct.
pub(crate) proof fn lemma_put_distinct(members: Seq<(Seq<char>, Json)>, key: Seq<char>, value: Json)
    requires
        distinct_keys(members),
    ensures
        distinct_keys(put(members, key, value)),
{
    lemma_key_index(members, key);
}

/// Reading after a put: the new value under its key, and what was there under every other key.
pub(crate) proof fn lemma_put_lookup(
    members: Seq<(Seq<char>, Json)>,
    key: Seq<char>,
    value: Json,
    other: Seq<char>,
)
    ensures
        lookup(put(members, key, value), other) == if other == key {
            Some(value)
        } else {
            lookup(members, other)
        },
{
    let after = put(members, key, value);
    let at = key_index(members, key) as int;
    let was = key_index(members, other) as int;
    lemma_key_index(members, key);
    lemma_key_index(members, other);
    if other == key {
        lemma_key_index_is(after, other, at);
    } else if was < members.len() {
        lemma_key_index_is(after, other, was);
    } else {
        lemma_key_index_is(after, other, after.len() as int);
    }
}

/// What `jsons` makes of a sequence of values that grows by one.
pub(crate) proof fn lemma_jsons_push(values: Seq<JsonValue>, value: JsonValue)
    ensures
        jsons(values.push(value)) == jsons(values).push(value@),
{
    assert(jsons(values.push(value)) =~= jsons(values).push(value@));
}

/// What `jsons` makes of two sequences of values, one behind the other.
pub(crate) proof fn lemma_jsons_add(left: Seq<JsonValue>, right: Seq<JsonValue>)
    ensures
        jsons(left + right) == jsons(left) + jsons(right),
{
    assert(jsons(left + right) =~= jsons(left) + jsons(right));
}

/// What `members` makes of a sequence of entries that grows by one.
pub(crate) proof fn lemma_members_push(
    entries: Seq<(String, JsonValue)>,
    entry: (String, JsonValue),
)
    ensures
        members(entries.push(entry)) == members(entries).push((entry.0@, entry.1@)),
{
    assert(members(entries.push(entry)) =~= members(entries).push((entry.0@, entry.1@)));
}

/// Whether a member has `key`.
pub open spec fn has_key(members: Seq<(Seq<char>, Json)>, key: Seq<char>) -> bool {
    exists|i: int| 0 <= i < members.len() && (#[trigger] members[i]).0 == key
}

/// A value under a key that is not there yet goes to the end.
pub(crate) proof fn lemma_put_fresh(members: Seq<(Seq<char>, Json)>, key: Seq<char>, value: Json)
    requires
        !has_key(members, key),
    ensures
        put(members, key, value) == members.push((key, value)),
        lookup(members, key) is None,
{
    lemma_key_index(members, key);
}

/// Taking out the value under one key leaves what is under the others.
pub(crate) proof fn lemma_remove_lookup(
    members: Seq<(Seq<char>, Json)>,
    key: Seq<char>,
    other: Seq<char>,
)
    requires
        has_key(members, key),
        other != key,
    ensures
        lookup(members.remove(key_index(members, key) as int), other) == lookup(members, other),
{
    let at = key_index(members, key) as int;
    let after = members.remove(at);
    let was = key_index(members, other) as int;
    lemma_key_index(members, key);
    lemma_key_index(members, other);
    let now = if was < at {
        was
    } else {
        was - 1
    };
    assert forall|i: int| 0 <= i < now implies (#[trigger] after[i]).0 != other by {
        if i < at {
            assert(after[i] == members[i]);
        } else {
            assert(after[i] == members[i + 1]);
        }
    }
    lemma_key_index_is(after, other, now);
}

impl Object {
    #[verifier::type_invariant]
    spec fn keys_are_distinct(self) -> bool {
        distinct_keys(members(self.entries@))
    }

    /// An object without members.
    pub fn new() -> (object: Object)
        ensures
            object@ == Seq::<(Seq<char>, Json)>::empty(),
    {
        let object = Object { entries: Vec::new() };
        assert(object@ =~= Seq::<(Seq<char>, Json)>::empty());
        object
    }

    /// The object whose members are `entries`, of which no two have the same key.
    pub fn from_distinct(entries: Vec<(String, JsonValue)>) -> (object: Object)
        requires
            distinct_keys(members(entries@)),
        ensures
            object@ == members(entries@),
    {
        Object { entries }
    }

    /// Whether the object has no members.
    pub fn is_empty(&self) -> (empty: bool)
        ensures
            empty == (self@.len() == 0),
    {
        self.entries.len() == 0
    }

    /// The members, in order.
    pub fn entries(&self) -> (entries: &Vec<(String, JsonValue)>)
        ensures
            members(entries@) == self@,
            distinct_keys(self@),
            decreases_to!(*self => *entries),
    {
        proof {
            use_type_invariant(self);
        }
        &self.entries
    }

    /// The members, in order, moved out.
    pub fn into_entries(self) -> (entries: Vec<(String, JsonValue)>)
        ensures
            members(entries@) == self@,
            distinct_keys(self@),
            decreases_to!(self => entries),
    {
        proof {
            use_type_invariant(&self);
        }
        self.entries
    }

    /// The position of `key`, or the number of members if no member has it.
    fn position(&self, key: &str) -> (at: usize)
        ensures
            at == key_index(self@, key@),
    {
        let mut at: usize = 0;
        while at < self.entries.len()
            invariant
                at <= self.entries.len(),
                forall|i: int| 0 <= i < at ==> (#[trigger] self@[i]).0 != key@,
            decreases self.entries.len() - at,
        {
            if text::same_text(self.entries[at].0.as_str(), key) {
                proof {
                    lemma_key_index_is(self@, key@, at as int);
                }
                return at;
            }
            at = at + 1;
        }
        proof {
            lemma_key_index_is(self@, key@, at as int);
        }
        at
    }

    /// The value under `key`, if there is one.
    pub fn get(&self, key: &str) -> (value: Option<&JsonValue>)
        ensures
            match value {
                Some(value) => lookup(self@, key@) == Some(value@),
                None => lookup(self@, key@) is None,
            },
    {
        let at = self.position(key);
        if at < self.entries.len() {
            Some(&self.entries[at].1)
        } else {
            None
        }
    }

    /// Puts `value` under `key`.
    pub fn insert(&mut self, key: String, value: JsonValue)
        ensures
            final(self)@ == put(old(self)@, key@, value@),
    {
        let at = self.position(key.as_str());
        let mut entries: Vec<(String, JsonValue)> = Vec::new();
        proof {
            use_type_invariant(&*self);
            lemma_put_distinct(self@, key@, value@);
        }
        std::mem::swap(&mut entries, &mut self.entries);
        if at < entries.len() {
            entries.set(at, (key, value));
        } else {
            entries.push((key, value));
        }
        assert(members(entries@) =~= put(old(self)@, key@, value@));
        self.entries = entries;
    }

    /// Puts `value` at the end, under a `key` that is not there yet.
    pub(crate) fn append(&mut self, key: String, value: JsonValue)
        requires
            !has_key(old(self)@, key@),
        ensures
            final(self)@ == old(self)@.push((key@, value@)),
    {
        let mut entries: Vec<(String, JsonValue)> = Vec::new();
        proof {
            use_type_invariant(&*self);
            lemma_put_distinct(self@, key@, value@);
            lemma_put_fresh(self@, key@, value@);
        }
        std::mem::swap(&mut entries, &mut self.entries);
        proof {
            lemma_members_push(entries@, (key, value));
        }
        entries.push((key, value));
        self.entries = entries;
    }

    /// Puts each of the members of `more` in turn.
    pub fn extend(&mut self, more: Object)
        ensures
            final(self)@ == put_all(old(self)@, more@),
    {
        let ghost start = self@;
        let ghost all = more@;
        let entries = more.into_entries();
        for entry in iter: entries.into_iter()
            invariant
                members(iter.seq()) == all,
                self@ == put_all(start, all.take(iter.index() as int)),
        {
            let ghost done = iter.index() as int;
            let (key, value) = entry;
            assert(all[done] == (key@, value@));
            assert(all.take(done + 1).drop_last() =~= all.take(done));
            self.insert(key, value);
        }
        assert(all.take(all.len() as int) =~= all);
    }

    /// Takes out the value under `key`, if there is one, and leaves `null` in its place.
    pub(crate) fn take(&mut self, key: &str) -> (value: Option<JsonValue>)
        ensures
            match value {
                Some(value) => lookup(old(self)@, key@) == Some(value@) && final(self)@ == put(
                    old(self)@,
                    key@,
                    Json::Null,
                ),
                None => lookup(old(self)@, key@) is None && final(self)@ == old(self)@,
            },
    {
        let at = self.position(key);
        if at >= self.entries.len() {
            return None;
        }
        let mut entries: Vec<(String, JsonValue)> = Vec::new();
        proof {
            use_type_invariant(&*self);
            lemma_put_distinct(self@, key@, Json::Null);
            lemma_key_index(self@, key@);
        }
        std::mem::swap(&mut entries, &mut self.entries);
        let mut value: JsonValue = JsonValue::Null;
        std::mem::swap(&mut value, &mut entries[at].1);
        assert(members(entries@) =~= put(old(self)@, key@, Json::Null));
        self.entries = entries;
        Some(value)
    }

    /// Takes out the value under `key`, if there is one.
    pub fn remove(&mut self, key: &str) -> (value: Option<JsonValue>)
        ensures
            match value {
                Some(value) => lookup(old(self)@, key@) == Some(value@) && final(self)@ == old(
                    self,
                )@.remove(key_index(old(self)@, key@) as int),
                None => lookup(old(self)@, key@) is None && final(self)@ == old(self)@,
            },
    {
        let at = self.position(key);
        if at >= self.entries.len() {
            return None;
        }
        let mut entries: Vec<(String, JsonValue)> = Vec::new();
        proof {
            use_type_invariant(&*self);
        }
        std::mem::swap(&mut entries, &mut self.entries);
        let (_, value) = entries.remove(at);
        assert(members(entries@) =~= old(self)@.remove(at as int));
        self.entries = entries;
        Some(value)
    }
}

/// Whether two values compare equal. The order of the members of an object makes no difference.
pub open spec fn same_json(left: Json, right: Json) -> bool
    decreases left,
{
    match (left, right) {
        (Json::Null, Json::Null) => true,
        (Json::Bool(a), Json::Bool(b)) => a == b,
        (Json::Number(a), Json::Number(b)) => numbers_equal(a, b),
        (Json::String(a), Json::String(b)) => a == b,
        (Json::Array(a), Json::Array(b)) => a.len() == b.len() && forall|i: int|
            0 <= i < a.len() ==> same_json(#[trigger] a[i], b[i]),
        (Json::Object(a), Json::Object(b)) => same_members(a, b),
        _ => false,
    }
}

/// Whether two objects have the same keys, with values under them that compare equal.
pub open spec fn same_members(
    left: Seq<(Seq<char>, Json)>,
    right: Seq<(Seq<char>, Json)>,
) -> bool
    decreases left,
{
    left.len() == right.len() && forall|i: int|
        0 <= i < left.len() ==> match lookup(right, (#[trigger] left[i]).0) {
            Some(value) => same_json(left[i].1, value),
            None => false,
        }
}

/// Whether two values compare equal.
fn same_value(left: &JsonValue, right: &JsonValue) -> (same: bool)
    ensures
        same == same_json(left@, right@),
    decreases *left, 0int,
{
    match (left, right) {
        (JsonValue::Null, JsonValue::Null) => true,
        (JsonValue::Bool(a), JsonValue::Bool(b)) => *a == *b,
        (JsonValue::Number(a), JsonValue::Number(b)) => same_number(a, b),
        (JsonValue::String(a), JsonValue::String(b)) => text::same_text(a.as_str(), b.as_str()),
        (JsonValue::Array(a), JsonValue::Array(b)) => {
            if a.len() != b.len() {
                return false;
            }
            let ghost lefts = jsons(a@);
            let ghost rights = jsons(b@);
            for i in 0..a.len()
                invariant
                    *left == JsonValue::Array(*a),
                    *right == JsonValue::Array(*b),
                    a@.len() == b@.len(),
                    lefts == jsons(a@),
                    rights == jsons(b@),
                    forall|j: int| 0 <= j < i ==> same_json(#[trigger] lefts[j], rights[j]),
            {
                assert(decreases_to!(*left => left->Array_0));
                assert(lefts[i as int] == a@[i as int]@);
                if !same_value(&a[i], &b[i]) {
                    return false;
                }
            }
            true
        },
        (JsonValue::Object(a), JsonValue::Object(b)) => same_object(a, b),
        _ => false,
    }
}

/// Whether two objects compare equal.
fn same_object(left: &Object, right: &Object) -> (same: bool)
    ensures
        same == same_members(left@, right@),
    decreases *left, 1int,
{
    let lefts = left.entries();
    if lefts.len() != right.entries().len() {
        return false;
    }
    let ghost all = members(lefts@);
    for i in 0..lefts.len()
        invariant
            all == members(lefts@),
            all == left@,
            all.len() == right@.len(),
            decreases_to!(*left => *lefts),
            forall|j: int|
                0 <= j < i ==> match lookup(right@, (#[trigger] all[j]).0) {
                    Some(value) => same_json(all[j].1, value),
                    None => false,
                },
    {
        assert(all[i as int] == (lefts@[i as int].0@, lefts@[i as int].1@));
        match right.get(lefts[i].0.as_str()) {
            Some(value) => {
                if !same_value(&lefts[i].1, value) {
                    return false;
                }
            },
            None => return false,
        }
    }
    true
}

/// Values compare without regard to the order of the members of objects.
impl PartialEq for JsonValue {
    fn eq(&self, other: &Self) -> (same: bool) {
        same_value(self, other)
    }
}

impl vstd::std_specs::cmp::PartialEqSpecImpl for JsonValue {
    open spec fn obeys_eq_spec() -> bool {
        true
    }

    open spec fn eq_spec(&self, other: &Self) -> bool {
        same_json(self@, other@)
    }
}

/// Objects compare without regard to the order of their members.
impl PartialEq for Object {
    fn eq(&self, other: &Self) -> (same: bool) {
        same_object(self, other)
    }
}

impl vstd::std_specs::cmp::PartialEqSpecImpl for Object {
    open spec fn obeys_eq_spec() -> bool {
        true
    }

    open spec fn eq_spec(&self, other: &Self) -> bool {
        same_members(self@, other@)
    }
}

impl Clone for JsonValue {
    fn clone(&self) -> (copy: JsonValue)
        ensures
            copy@ == self@,
        decreases self,
    {
        match self {
            JsonValue::Null => JsonValue::Null,
            JsonValue::Bool(b) => JsonValue::Bool(*b),
            JsonValue::Number(n) => JsonValue::Number(n.clone()),
            JsonValue::String(s) => JsonValue::String(s.clone()),
            JsonValue::Array(items) => {
                let mut copies: Vec<JsonValue> = Vec::new();
                for i in 0..items.len()
                    invariant
                        *self == JsonValue::Array(*items),
                        jsons(copies@) == jsons(items@).take(i as int),
                {
                    assert(decreases_to!(*self => self->Array_0));
                    let copy = items[i].clone();
                    proof {
                        lemma_jsons_push(copies@, copy);
                    }
                    copies.push(copy);
                    assert(jsons(copies@) =~= jsons(items@).take(i + 1));
                }
                assert(jsons(copies@) =~= jsons(items@));
                JsonValue::Array(copies)
            },
            JsonValue::Object(object) => JsonValue::Object(object.clone()),
        }
    }
}

impl Clone for Object {
    fn clone(&self) -> (copy: Object)
        ensures
            copy@ == self@,
        decreases self,
    {
        let mut copies: Vec<(String, JsonValue)> = Vec::new();
        for i in 0..self.entries.len()
            invariant
                members(copies@) == self@.take(i as int),
        {
            let copy = (self.entries[i].0.clone(), self.entries[i].1.clone());
            proof {
                lemma_members_push(copies@, copy);
            }
            copies.push(copy);
            assert(members(copies@) =~= self@.take(i + 1));
        }
        proof {
            use_type_invariant(self);
            assert(members(copies@) =~= self@);
        }
        Object { entries: copies }
    }
}

} // verus!
