//! The steps of a query.

use crate::grammar;
use crate::text;
use vstd::prelude::*;

verus! {

/// `regex::Regex`: a compiled regular expression.
#[verifier::external_type_specification]
#[verifier::external_body]
pub struct ExRegex(regex::Regex);

/// `regex::Error`: why a regular expression did not compile.
#[verifier::external_type_specification]
#[verifier::external_body]
pub struct ExRegexError(regex::Error);

/// The text that a regex was compiled from.
pub uninterp spec fn regex_source(regex: regex::Regex) -> Seq<char>;

/// The texts in which a regex has a match, anywhere in them.
pub uninterp spec fn regex_texts(regex: regex::Regex) -> Set<Seq<char>>;

/// The texts in which the regex that `source` compiles to has a match, or nothing where `source`
/// does not compile.
pub uninterp spec fn regex_language(source: Seq<char>) -> Option<Set<Seq<char>>>;

/// `regex::Regex::new`: compiles `source`. Whether that succeeds, and in which texts the regex then
/// has a match, is determined by `source`, which the regex keeps. A source made of letters, `_` and
/// `-` alone has no special characters, so that it matches where a text contains it. The source `.*`
/// has a match, if only an empty one, in every text.
#[verifier::external_body]
pub(crate) fn regex_new(source: &str) -> (compiled: Result<regex::Regex, regex::Error>)
    ensures
        match compiled {
            Ok(regex) => regex_source(regex) == source@ && regex_language(source@) == Some(
                regex_texts(regex),
            ),
            Err(_) => regex_language(source@) is None,
        },
        compiled matches Ok(regex) ==> (grammar::is_name(source@) ==> forall|text: Seq<char>|
            #[trigger] regex_texts(regex).contains(text) <==> text::contains(text, source@)),
        compiled matches Ok(regex) ==> (source@ == seq!['.', '*'] ==> forall|text: Seq<char>|
            #[trigger] regex_texts(regex).contains(text)),
{
    regex::Regex::new(source)
}

/// `regex::Regex::is_match`: whether the regex has a match anywhere in `text`.
#[verifier::external_body]
pub(crate) fn regex_is_match(regex: &regex::Regex, text: &str) -> (found: bool)
    ensures
        found == regex_texts(*regex).contains(text@),
{
    regex.is_match(text)
}

/// `regex::Regex::as_str`: the text that the regex was compiled from.
#[verifier::external_body]
pub(crate) fn regex_as_str(regex: &regex::Regex) -> (source: &str)
    ensures
        source@ == regex_source(*regex),
{
    regex.as_str()
}

/// `regex::Regex::clone`: the copy has the same source, and matches in the same texts.
pub assume_specification[ <regex::Regex as Clone>::clone ](source: &regex::Regex) -> (copy:
    regex::Regex)
    ensures
        regex_source(copy) == regex_source(*source),
        regex_texts(copy) == regex_texts(*source),
;

/// Which keys a step selects: what a [`Pattern`] stands for.
pub enum Matcher {
    /// Every key.
    Any,
    /// The keys that contain a name.
    Contains(Seq<char>),
    /// The keys in which a regex has a match.
    Regex { source: Seq<char>, texts: Set<Seq<char>> },
}

/// Selects the properties of an object by key.
#[derive(Debug)]
pub enum Pattern {
    /// Every key: `*`.
    Any,
    /// The keys that contain a name: `name^`. This matches the same keys as `/name/^`, without a
    /// regex.
    Contains(String),
    /// The keys a regex matches: `/regex/`.
    Regex(regex::Regex),
}

impl View for Pattern {
    type V = Matcher;

    open spec fn view(&self) -> Matcher {
        match *self {
            Pattern::Any => Matcher::Any,
            Pattern::Contains(name) => Matcher::Contains(name@),
            Pattern::Regex(regex) => Matcher::Regex {
                source: regex_source(regex),
                texts: regex_texts(regex),
            },
        }
    }
}

/// Whether `matcher` selects `key`.
pub open spec fn matches_key(matcher: Matcher, key: Seq<char>) -> bool {
    match matcher {
        Matcher::Any => true,
        Matcher::Contains(name) => text::contains(key, name),
        Matcher::Regex { source, texts } => texts.contains(key),
    }
}

impl Pattern {
    /// Whether this pattern selects `key`.
    pub fn is_match(&self, key: &str) -> (found: bool)
        ensures
            found == matches_key(self@, key@),
    {
        match self {
            Pattern::Any => true,
            Pattern::Contains(name) => text::contains_text(key, name.as_str()),
            Pattern::Regex(regex) => regex_is_match(regex, key),
        }
    }
}

/// Regexes compare equal when they have the same source.
impl PartialEq for Pattern {
    fn eq(&self, other: &Self) -> (same: bool) {
        match (self, other) {
            (Pattern::Any, Pattern::Any) => true,
            (Pattern::Contains(a), Pattern::Contains(b)) => text::same_text(a.as_str(), b.as_str()),
            (Pattern::Regex(a), Pattern::Regex(b)) => text::same_text(
                regex_as_str(a),
                regex_as_str(b),
            ),
            _ => false,
        }
    }
}

impl vstd::std_specs::cmp::PartialEqSpecImpl for Pattern {
    open spec fn obeys_eq_spec() -> bool {
        true
    }

    open spec fn eq_spec(&self, other: &Self) -> bool {
        match (self@, other@) {
            (Matcher::Any, Matcher::Any) => true,
            (Matcher::Contains(a), Matcher::Contains(b)) => a == b,
            (Matcher::Regex { source: a, .. }, Matcher::Regex { source: b, .. }) => a == b,
            _ => false,
        }
    }
}

/// A step of a query, as mathematics: what an [`Op`] stands for.
pub enum Step {
    Property(Seq<char>),
    PropertyPick(Seq<Entry>),
    PropertyValues(Matcher),
    PropertyKeys(Matcher),
    PropertyMap(Matcher, Seq<Step>),
    Descend(Box<Step>),
    DescendPaths(Seq<Step>),
    Array,
    ArrayIndex(nat),
    ArraySlice { start: Option<int>, stop: Option<int> },
}

/// One entry of a pick: what a [`PickEntry`] stands for.
pub struct Entry {
    pub key: Seq<char>,
    pub name: Seq<char>,
    pub steps: Seq<Step>,
}

/// Whether a step can give several results for one value.
pub open spec fn fans_out(step: Step) -> bool {
    ||| step is PropertyValues
    ||| step is PropertyKeys
    ||| step is Descend
    ||| step is Array
    ||| step is ArraySlice
}

/// Whether a step works on an object.
pub open spec fn is_object(step: Step) -> bool {
    ||| step is Property
    ||| step is PropertyPick
    ||| step is PropertyValues
    ||| step is PropertyKeys
    ||| step is PropertyMap
}

/// Whether a step works on an array.
pub open spec fn is_array(step: Step) -> bool {
    step is Array || step is ArrayIndex || step is ArraySlice
}

/// A step of a query.
#[derive(Debug, PartialEq)]
pub enum Op {
    // Object operations
    /// The value of a property: `name`.
    Property(String),
    /// A new object holding only the listed entries, in the order listed: `{a,b.c}`. See
    /// [`PickEntry`].
    PropertyPick(Vec<PickEntry>),
    /// The values of the properties whose keys match: `*` or `/regex/`.
    PropertyValues(Pattern),
    /// The keys that match: `*^`, `name^` or `/regex/^`.
    PropertyKeys(Pattern),
    /// `*^`, `name^` or `/regex/^` followed by more steps: a new object with the keys that match,
    /// where each value is the result of running the steps on the old value, shaped as described by
    /// `collect` in the exec module.
    PropertyMap(Pattern, Vec<Op>),
    /// An object step run on every object at any depth, outer objects before the ones inside them:
    /// `**` and the step after it, as in `**.name`.
    Descend(Box<Op>),
    /// `**^` and the steps after it: a copy of the value pruned down to what the steps find in the
    /// objects at any depth. With no steps, every object, emptied.
    DescendPaths(Vec<Op>),
    // Array operations
    /// Every element: `[]`.
    Array,
    /// The element at an index: `[n]`.
    ArrayIndex(usize),
    /// Every element in a range: `[start:stop]`.
    ArraySlice { start: Option<isize>, stop: Option<isize> },
}

impl Op {
    /// Whether this op can give several results for one value.
    pub fn fans_out(&self) -> (yes: bool)
        ensures
            yes == fans_out(self@),
    {
        matches!(
            self,
            Op::PropertyValues(_)
                | Op::PropertyKeys(_)
                | Op::Descend(_)
                | Op::Array
                | Op::ArraySlice { .. }
        )
    }

    /// Whether this op works on an object.
    pub fn is_object_step(&self) -> (yes: bool)
        ensures
            yes == is_object(self@),
    {
        matches!(
            self,
            Op::Property(_)
                | Op::PropertyPick(_)
                | Op::PropertyValues(_)
                | Op::PropertyKeys(_)
                | Op::PropertyMap(..)
        )
    }

    /// Whether this op works on an array.
    pub fn is_array_step(&self) -> (yes: bool)
        ensures
            yes == is_array(self@),
    {
        matches!(self, Op::Array | Op::ArrayIndex(_) | Op::ArraySlice { .. })
    }
}

/// One entry of a `{...}` pick: the property `name` to read, the `steps` run on its value, and the
/// `key` the result is stored under, which is the last name in the path. `hobbies[0]` reads
/// `hobbies` and runs `[0]` on it under the key `hobbies`, and `work.department` reads `work` and
/// runs `department` on it under the key `department`.
#[derive(Debug, PartialEq)]
pub struct PickEntry {
    pub key: String,
    pub name: String,
    pub steps: Vec<Op>,
}

/// The bound of a slice that `bound` stands for.
pub open spec fn bound(bound: Option<isize>) -> Option<int> {
    match bound {
        Some(i) => Some(i as int),
        None => None,
    }
}

/// The steps that `ops` stand for.
pub open spec fn steps_of(ops: Seq<Op>) -> Seq<Step>
    decreases ops,
{
    Seq::new(
        ops.len(),
        |i: int|
            if 0 <= i < ops.len() {
                step_of(ops[i])
            } else {
                Step::Array
            },
    )
}

/// The entries that `entries` stand for.
pub open spec fn entries_of(entries: Seq<PickEntry>) -> Seq<Entry>
    decreases entries,
{
    Seq::new(
        entries.len(),
        |i: int|
            if 0 <= i < entries.len() {
                entry_of(entries[i])
            } else {
                arbitrary()
            },
    )
}

/// The step that `op` stands for.
pub open spec fn step_of(op: Op) -> Step
    decreases op,
{
    match op {
        Op::Property(name) => Step::Property(name@),
        Op::PropertyPick(entries) => Step::PropertyPick(entries_of(entries@)),
        Op::PropertyValues(pattern) => Step::PropertyValues(pattern@),
        Op::PropertyKeys(pattern) => Step::PropertyKeys(pattern@),
        Op::PropertyMap(pattern, ops) => Step::PropertyMap(pattern@, steps_of(ops@)),
        Op::Descend(op) => Step::Descend(Box::new(step_of(*op))),
        Op::DescendPaths(ops) => Step::DescendPaths(steps_of(ops@)),
        Op::Array => Step::Array,
        Op::ArrayIndex(n) => Step::ArrayIndex(n as nat),
        Op::ArraySlice { start, stop } => Step::ArraySlice {
            start: bound(start),
            stop: bound(stop),
        },
    }
}

/// The entry that `entry` stands for.
pub open spec fn entry_of(entry: PickEntry) -> Entry
    decreases entry,
{
    Entry { key: entry.key@, name: entry.name@, steps: steps_of(entry.steps@) }
}

impl View for Op {
    type V = Step;

    open spec fn view(&self) -> Step {
        step_of(*self)
    }
}

impl View for PickEntry {
    type V = Entry;

    open spec fn view(&self) -> Entry {
        entry_of(*self)
    }
}

/// What `steps_of` makes of a sequence of ops that grows by one.
pub(crate) proof fn lemma_steps_push(ops: Seq<Op>, op: Op)
    ensures
        steps_of(ops.push(op)) == steps_of(ops).push(op@),
{
    assert(steps_of(ops.push(op)) =~= steps_of(ops).push(op@));
}

/// What `steps_of` makes of two sequences of ops, one behind the other.
pub(crate) proof fn lemma_steps_add(left: Seq<Op>, right: Seq<Op>)
    ensures
        steps_of(left + right) == steps_of(left) + steps_of(right),
{
    assert(steps_of(left + right) =~= steps_of(left) + steps_of(right));
}

/// What `entries_of` makes of a sequence of entries that grows by one.
pub(crate) proof fn lemma_entries_push(entries: Seq<PickEntry>, entry: PickEntry)
    ensures
        entries_of(entries.push(entry)) == entries_of(entries).push(entry@),
{
    assert(entries_of(entries.push(entry)) =~= entries_of(entries).push(entry@));
}

impl Clone for Pattern {
    fn clone(&self) -> (copy: Pattern)
        ensures
            copy@ == self@,
    {
        match self {
            Pattern::Any => Pattern::Any,
            Pattern::Contains(name) => Pattern::Contains(name.clone()),
            Pattern::Regex(regex) => Pattern::Regex(regex.clone()),
        }
    }
}

impl Clone for Op {
    fn clone(&self) -> (copy: Op)
        ensures
            copy@ == self@,
        decreases *self, 0int,
    {
        match self {
            Op::Property(name) => Op::Property(name.clone()),
            Op::PropertyPick(entries) => {
                let mut copies: Vec<PickEntry> = Vec::new();
                for i in 0..entries.len()
                    invariant
                        decreases_to!(*self => *entries),
                        entries_of(copies@) == entries_of(entries@).take(i as int),
                {
                    let copy = entries[i].clone();
                    proof {
                        lemma_entries_push(copies@, copy);
                    }
                    copies.push(copy);
                    assert(entries_of(copies@) =~= entries_of(entries@).take(i + 1));
                }
                assert(entries_of(copies@) =~= entries_of(entries@));
                Op::PropertyPick(copies)
            },
            Op::PropertyValues(pattern) => Op::PropertyValues(pattern.clone()),
            Op::PropertyKeys(pattern) => Op::PropertyKeys(pattern.clone()),
            Op::PropertyMap(pattern, ops) => Op::PropertyMap(pattern.clone(), clone_ops(ops)),
            Op::Descend(op) => Op::Descend(Box::new((**op).clone())),
            Op::DescendPaths(ops) => Op::DescendPaths(clone_ops(ops)),
            Op::Array => Op::Array,
            Op::ArrayIndex(n) => Op::ArrayIndex(*n),
            Op::ArraySlice { start, stop } => Op::ArraySlice { start: *start, stop: *stop },
        }
    }
}

impl Clone for PickEntry {
    fn clone(&self) -> (copy: PickEntry)
        ensures
            copy@ == self@,
        decreases *self, 0int,
    {
        PickEntry {
            key: self.key.clone(),
            name: self.name.clone(),
            steps: clone_ops(&self.steps),
        }
    }
}

/// A copy of `ops`.
pub(crate) fn clone_ops(ops: &Vec<Op>) -> (copies: Vec<Op>)
    ensures
        steps_of(copies@) == steps_of(ops@),
    decreases *ops, 1int,
{
    let mut copies: Vec<Op> = Vec::new();
    for i in 0..ops.len()
        invariant
            steps_of(copies@) == steps_of(ops@).take(i as int),
    {
        let copy = ops[i].clone();
        proof {
            lemma_steps_push(copies@, copy);
        }
        copies.push(copy);
        assert(steps_of(copies@) =~= steps_of(ops@).take(i + 1));
    }
    assert(steps_of(copies@) =~= steps_of(ops@));
    copies
}

} // verus!
