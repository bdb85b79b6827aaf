//! JSON text: what it stands for, and what a query gives for it.

use crate::exec;
use crate::exec::ExecError;
use crate::op;
use crate::op::Op;
use crate::output;
use crate::semantics;
use crate::value;
use crate::value::{Json, JsonValue, Object};
use vstd::prelude::*;

verus! {

/// `serde_json::Value`: a JSON value as `serde_json` holds it.
#[verifier::external_type_specification]
#[verifier::external_body]
pub struct ExDocument(serde_json::Value);

/// `serde_json::Error`: why a text is not JSON.
#[verifier::external_type_specification]
#[verifier::external_body]
pub struct ExJsonError(serde_json::Error);

/// What a value of `serde_json` holds.
pub uninterp spec fn document_json(document: serde_json::Value) -> Json;

/// The message of an error of `serde_json`.
pub uninterp spec fn error_message(error: serde_json::Error) -> Seq<char>;

/// The value that a text stands for, or where it is not JSON the message that says why.
pub uninterp spec fn text_json(text: Seq<char>) -> Result<Json, Seq<char>>;

/// `serde_json::from_str`: reads a text as JSON. Whether it is JSON, and which value it then stands
/// for, or else the message of the error, is determined by the text.
#[verifier::external_body]
fn read_document(text: &str) -> (document: Result<serde_json::Value, serde_json::Error>)
    ensures
        match document {
            Ok(document) => text_json(text@) == Ok::<Json, Seq<char>>(document_json(document)),
            Err(error) => text_json(text@) == Err::<Json, Seq<char>>(error_message(error)),
        },
{
    serde_json::from_str(text)
}

/// `serde_json::Error::to_string`: the message of an error.
#[verifier::external_body]
fn error_text(error: &serde_json::Error) -> (message: String)
    ensures
        message@ == error_message(*error),
{
    error.to_string()
}

/// One level of a value: what it is, with the values inside it as `serde_json` holds them.
enum Level {
    Null,
    Bool(bool),
    Number(serde_json::Number),
    String(String),
    Array(Vec<serde_json::Value>),
    Object(Vec<(String, serde_json::Value)>),
}

/// What the values inside a value hold.
spec fn documents_json(documents: Seq<serde_json::Value>) -> Seq<Json> {
    documents.map_values(|document: serde_json::Value| document_json(document))
}

/// What the members of an object hold.
spec fn members_json(members: Seq<(String, serde_json::Value)>) -> Seq<(Seq<char>, Json)> {
    members.map_values(
        |member: (String, serde_json::Value)| (member.0@, document_json(member.1)),
    )
}

/// The variants of `serde_json::Value`, and `serde_json::Map::into_iter`: takes a value apart. An
/// object gives its members in order, and none of its keys twice.
#[verifier::external_body]
fn open_document(document: serde_json::Value) -> (level: Level)
    ensures
        document_json(document) == match level {
            Level::Null => Json::Null,
            Level::Bool(b) => Json::Bool(b),
            Level::Number(n) => Json::Number(n),
            Level::String(s) => Json::String(s@),
            Level::Array(items) => Json::Array(documents_json(items@)),
            Level::Object(members) => Json::Object(members_json(members@)),
        },
        level matches Level::Object(members) ==> value::distinct_keys(members_json(members@)),
{
    match document {
        serde_json::Value::Null => Level::Null,
        serde_json::Value::Bool(b) => Level::Bool(b),
        serde_json::Value::Number(n) => Level::Number(n),
        serde_json::Value::String(s) => Level::String(s),
        serde_json::Value::Array(items) => Level::Array(items),
        serde_json::Value::Object(members) => Level::Object(members.into_iter().collect()),
    }
}

/// What `document` holds, as a value of this library.
pub fn from_document(document: serde_json::Value) -> (json: JsonValue)
    ensures
        json@ == document_json(document),
    decreases document_json(document),
{
    let ghost whole = document_json(document);
    match open_document(document) {
        Level::Null => JsonValue::Null,
        Level::Bool(b) => JsonValue::Bool(b),
        Level::Number(n) => JsonValue::Number(n),
        Level::String(s) => JsonValue::String(s),
        Level::Array(items) => {
            let ghost all = documents_json(items@);
            let mut values: Vec<JsonValue> = Vec::new();
            assert(value::jsons(values@) =~= all.take(0));
            for item in iter: items.into_iter()
                invariant
                    whole == document_json(document),
                    whole == Json::Array(all),
                    documents_json(iter.seq()) == all,
                    value::jsons(values@) == all.take(iter.index() as int),
            {
                let ghost done = iter.index() as int;
                assert(all[done] == document_json(item));
                assert(decreases_to!(whole => whole->Array_0));
                assert(decreases_to!(all => all[done]));
                let inner = from_document(item);
                proof {
                    value::lemma_jsons_push(values@, inner);
                }
                values.push(inner);
                assert(value::jsons(values@) =~= all.take(done + 1));
            }
            assert(all.take(all.len() as int) =~= all);
            JsonValue::Array(values)
        },
        Level::Object(members) => {
            let ghost all = members_json(members@);
            let mut entries: Vec<(String, JsonValue)> = Vec::new();
            assert(value::members(entries@) =~= all.take(0));
            for member in iter: members.into_iter()
                invariant
                    whole == document_json(document),
                    whole == Json::Object(all),
                    members_json(iter.seq()) == all,
                    value::members(entries@) == all.take(iter.index() as int),
            {
                let ghost done = iter.index() as int;
                let (key, item) = member;
                assert(all[done] == (key@, document_json(item)));
                assert(decreases_to!(whole => whole->Object_0));
                assert(decreases_to!(all => all[done]));
                assert(decreases_to!(all[done] => all[done].1));
                let entry = (key, from_document(item));
                proof {
                    value::lemma_members_push(entries@, entry);
                }
                entries.push(entry);
                assert(value::members(entries@) =~= all.take(done + 1));
            }
            assert(all.take(all.len() as int) =~= all);
            JsonValue::Object(Object::from_distinct(entries))
        },
    }
}

/// The value that `text` stands for, or the message that says why it is not JSON. The value replaces
/// the text, which is freed.
pub fn parse_text(text: String) -> (result: Result<JsonValue, String>)
    ensures
        match result {
            Ok(json) => text_json(text@) == Ok::<Json, Seq<char>>(json@),
            Err(message) => text_json(text@) == Err::<Json, Seq<char>>(message@),
        },
{
    match read_document(text.as_str()) {
        Ok(document) => Ok(from_document(document)),
        Err(error) => Err(error_text(&error)),
    }
}

/// A query gives no answer for a text.
#[derive(Debug)]
pub enum EvalError {
    /// The text is not JSON, for the reason given.
    InvalidJson(String),
    /// The query could not be applied to it.
    Exec(ExecError),
}

impl EvalError {
    /// The message for a user.
    pub fn to_string(&self) -> (message: String)
        ensures
            message@ == match self {
                EvalError::InvalidJson(reason) => reason@,
                EvalError::Exec(error) => exec::message(*error),
            },
    {
        match self {
            EvalError::InvalidJson(reason) => reason.clone(),
            EvalError::Exec(error) => error.to_string(),
        }
    }
}

/// The results of `ops` for the JSON in `text`.
pub fn eval(ops: &[Op], text: String) -> (result: Result<Vec<JsonValue>, EvalError>)
    ensures
        match text_json(text@) {
            Ok(json) => match semantics::run(op::steps_of(ops@), seq![json], false) {
                Ok(results) => result matches Ok(values) && value::jsons(values@) == results,
                Err(error) => result == Err::<Vec<JsonValue>, EvalError>(EvalError::Exec(error)),
            },
            Err(message) => result matches Err(EvalError::InvalidJson(reason)) && reason@
                == message,
        },
{
    let json = match parse_text(text) {
        Ok(json) => json,
        Err(message) => return Err(EvalError::InvalidJson(message)),
    };
    let mut input: Vec<JsonValue> = Vec::new();
    input.push(json);
    assert(value::jsons(input@) =~= seq![json@]);
    match exec::execute(ops, input) {
        Ok(values) => Ok(values),
        Err(error) => Err(EvalError::Exec(error)),
    }
}

/// The value to print for the JSON in `text`: what the query gives for it, as one value, without
/// the keys whose values are `null` unless they are kept.
pub fn respond(ops: &[Op], text: String, keep_nulls: bool) -> (result: Result<JsonValue, EvalError>)
    ensures
        match text_json(text@) {
            Ok(json) => match semantics::run(op::steps_of(ops@), seq![json], false) {
                Ok(results) => result matches Ok(value) && value@ == output::printed(
                    op::steps_of(ops@),
                    results,
                    keep_nulls,
                ),
                Err(error) => result == Err::<JsonValue, EvalError>(EvalError::Exec(error)),
            },
            Err(message) => result matches Err(EvalError::InvalidJson(reason)) && reason@
                == message,
        },
{
    match eval(ops, text) {
        Ok(results) => Ok(output::shown(ops, results, keep_nulls)),
        Err(error) => Err(error),
    }
}

} // verus!
