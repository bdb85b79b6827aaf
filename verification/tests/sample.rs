//! Queries on a sample document, and what each of them prints.

use jt::document::parse_text;
use jt::exec::ExecError;
use jt::output::answer;
use jt::parser::{parse, ParseError};
use jt::value::JsonValue;

const PEOPLE: &str = r#"{
  "Tim": { "age": 53 },
  "Fred": {
    "age": 50,
    "hobbies": ["bridge", "yodelling", "chess"]
  },
  "user_1": { "name": "ann" },
  "user_2": { "name": "bob" }
}"#;

/// The value that the JSON in `text` stands for.
fn json(text: &str) -> JsonValue {
    parse_text(text.to_owned()).unwrap()
}

fn to_serde(value: &JsonValue) -> serde_json::Value {
    match value {
        JsonValue::Null => serde_json::Value::Null,
        JsonValue::Bool(b) => serde_json::Value::Bool(*b),
        JsonValue::Number(n) => serde_json::Value::Number(n.clone()),
        JsonValue::String(s) => serde_json::Value::String(s.clone()),
        JsonValue::Array(items) => serde_json::Value::Array(items.iter().map(to_serde).collect()),
        JsonValue::Object(object) => serde_json::Value::Object(
            object
                .entries()
                .iter()
                .map(|(key, value)| (key.clone(), to_serde(value)))
                .collect(),
        ),
    }
}

/// `value` as compact JSON.
fn print(value: &JsonValue) -> String {
    to_serde(value).to_string()
}

/// What `q` prints for the JSON in `text`.
fn printed(q: &str, text: &str) -> String {
    print(&answer(&parse(q).unwrap(), json(text), false).unwrap())
}

/// What `q` prints for the JSON in `text` when null keys are kept.
fn printed_with_nulls(q: &str, text: &str) -> String {
    print(&answer(&parse(q).unwrap(), json(text), true).unwrap())
}

fn check(cases: &[(&str, &str)]) {
    for (q, expected) in cases {
        assert_eq!(printed(q, PEOPLE), *expected, "query {q:?}");
    }
}

#[test]
fn sample_properties() {
    check(&[
        (r"Tim", r#"{"age":53}"#),
        (r"Tim.age", r#"53"#),
        (r"Fred.hobbies", r#"["bridge","yodelling","chess"]"#),
        (r"nobody", r#"null"#),
        (r"nobody.age", r#"null"#),
        (r"Fred.hobbies[]", r#"["bridge","yodelling","chess"]"#),
        (r"Fred.age", r#"50"#),
    ]);
}

#[test]
fn sample_picks() {
    check(&[
        (r"Fred.{age,hobbies}", r#"{"age":50,"hobbies":["bridge","yodelling","chess"]}"#),
        (r"*.{age}", r#"[{"age":53},{"age":50},{},{}]"#),
        (r"{Tim,Fred}.Tim", r#"{"age":53}"#),
        (r"Fred.{age,hobbies[0]}", r#"{"age":50,"hobbies":"bridge"}"#),
        (r"Fred.{hobbies[1:]}", r#"{"hobbies":["yodelling","chess"]}"#),
        (r"{Tim.age,Fred.hobbies}", r#"{"age":53,"hobbies":["bridge","yodelling","chess"]}"#),
        (r"{Fred.{age,hobbies[0]}}", r#"{"age":50,"hobbies":"bridge"}"#),
    ]);
}

#[test]
fn sample_all_properties() {
    check(&[
        (r"*", r#"[{"age":53},{"age":50,"hobbies":["bridge","yodelling","chess"]},{"name":"ann"},{"name":"bob"}]"#),
        (r"*.age", r#"[53,50]"#),
        (r"*.hobbies", r#"["bridge","yodelling","chess"]"#),
        (r"*.hobbies[]", r#"["bridge","yodelling","chess"]"#),
        (r"*.hobbies[0]", r#""bridge""#),
        (r"*.hobbies[1:]", r#"["yodelling","chess"]"#),
        (r"*./^h/^[0]", r#"{"hobbies":"bridge"}"#),
    ]);
}

#[test]
fn sample_all_keys() {
    check(&[
        (r"*^", r#"["Tim","Fred","user_1","user_2"]"#),
        (r"Fred.*^", r#"["age","hobbies"]"#),
        (r"*.*^", r#"["age","age","hobbies","name","name"]"#),
        (r"*^.age", r#"{"Tim":53,"Fred":50}"#),
        (r"*^.*", r#"{"Tim":53,"Fred":[50,["bridge","yodelling","chess"]],"user_1":"ann","user_2":"bob"}"#),
        (r"*^.*^", r#"{"Tim":"age","Fred":["age","hobbies"],"user_1":"name","user_2":"name"}"#),
        (r"*^.hobbies[]", r#"{"Fred":["bridge","yodelling","chess"]}"#),
    ]);
}

#[test]
fn sample_regexes() {
    check(&[
        (r"/^user_/", r#"[{"name":"ann"},{"name":"bob"}]"#),
        (r"/^user_/.name", r#"["ann","bob"]"#),
        (r"/^(Tim|Fred)$/.age", r#"[53,50]"#),
        (r"/^user_/^", r#"["user_1","user_2"]"#),
        (r"/^user_/^.name", r#"{"user_1":"ann","user_2":"bob"}"#),
        (r"/^T/^.age", r#"{"Tim":53}"#),
        (r"/^(Tim|Fred)$/^.{age}", r#"{"Tim":{"age":53},"Fred":{"age":50}}"#),
    ]);
}

#[test]
fn sample_keys_containing_a_name() {
    check(&[
        (r"user^", r#"["user_1","user_2"]"#),
        (r"user^.name", r#"{"user_1":"ann","user_2":"bob"}"#),
        (r"red^.age", r#"{"Fred":50}"#),
    ]);
}

#[test]
fn sample_any_depth() {
    check(&[
        (r"**.age", r#"[53,50]"#),
        (r"**.name", r#"["ann","bob"]"#),
        (r"**.hobbies[0]", r#""bridge""#),
        (r"**.nam^", r#"["name","name"]"#),
        (r"Fred.**.age", r#"50"#),
    ]);
}

#[test]
fn sample_where_things_are() {
    check(&[
        (r"**^.age", r#"{"Tim":{"age":53},"Fred":{"age":50}}"#),
        (r"**^.hobbies[0]", r#"{"Fred":{"hobbies":"bridge"}}"#),
        (r"**^./^n/", r#"{"user_1":{"name":"ann"},"user_2":{"name":"bob"}}"#),
        (r"**^.{name,age}", r#"{"Tim":{"age":53},"Fred":{"age":50},"user_1":{"name":"ann"},"user_2":{"name":"bob"}}"#),
        (r"**^", r#"{"Tim":{},"Fred":{},"user_1":{},"user_2":{}}"#),
    ]);
}

#[test]
fn sample_array_steps() {
    check(&[
        (r"Fred.hobbies[0]", r#""bridge""#),
        (r"Fred.hobbies[5]", r#"null"#),
        (r"Fred.hobbies[:]", r#"["bridge","yodelling","chess"]"#),
        (r"Fred.hobbies[1:]", r#"["yodelling","chess"]"#),
        (r"Fred.hobbies[:-1]", r#"["bridge","yodelling"]"#),
        (r"Fred.hobbies[-1:]", r#"["chess"]"#),
        (r"*.hobbies[:1]", r#"["bridge"]"#),
        (r"/^T/^.hobbies[0:1]", r#"{"Tim":[]}"#),
    ]);
}

#[test]
fn sample_kept_nulls() {
    assert_eq!(
        printed_with_nulls("*^.age", PEOPLE),
        r#"{"Tim":53,"Fred":50,"user_1":null,"user_2":null}"#
    );
    assert_eq!(
        printed_with_nulls("", r#"{"a":1,"b":null}"#),
        r#"{"a":1,"b":null}"#
    );
    assert_eq!(printed("", r#"{"a":1,"b":null}"#), r#"{"a":1}"#);
    assert_eq!(
        printed_with_nulls("{last.name}", "null"),
        r#"{"name":null}"#
    );
    assert_eq!(printed("{last.name}", "null"), "{}");
}

#[test]
fn sample_slices_after_keys() {
    assert_eq!(
        printed("*^.hobbies[:1]", PEOPLE),
        r#"{"Tim":[],"Fred":["bridge"],"user_1":[],"user_2":[]}"#
    );
    assert_eq!(
        printed_with_nulls("*^.hobbies[]", PEOPLE),
        r#"{"Tim":null,"Fred":["bridge","yodelling","chess"],"user_1":null,"user_2":null}"#
    );
}

#[test]
fn sample_other_documents() {
    assert_eq!(printed("h[]", r#"{"h":["golf"]}"#), r#"["golf"]"#);
    assert_eq!(printed("h[0]", r#"{"h":["golf"]}"#), r#""golf""#);
    assert_eq!(printed("**.a", r#"{"a":{"a":1}}"#), r#"[{"a":1},1]"#);
    assert_eq!(
        printed("**^.w^.department", r#"{"work":{"department":"sales"}}"#),
        r#"{"work":"sales"}"#
    );
    assert_eq!(
        printed("**^.age", r#"{"age":40,"kid":{"age":5}}"#),
        r#"{"age":40,"kid":{"age":5}}"#
    );
    assert_eq!(
        printed("**^.a", r#"{"L":[{},{"a":1}]}"#),
        r#"{"L":{"[1]":{"a":1}}}"#
    );
    assert_eq!(
        printed("**^.work.**.department", r#"{"x":{"work":{"y":{"department":"a"}}}}"#),
        r#"{"x":{"work":"a"}}"#
    );
    assert_eq!(
        printed("**^.work.department", r#"{"x":{"work":{"department":"a"}}}"#),
        r#"{"x":{"department":"a"}}"#
    );
}

#[test]
fn sample_invalid_queries() {
    for q in [
        ".Tim",
        "Tim..age",
        "Fred.hobbies.[0]",
        "Tim[-1]",
        "/(/",
        "{Tim,Tim}",
        "{Tim.age,Fred.age}",
        "{hobbies[0],hobbies[1]}",
        "^",
        "**",
        "**[0]",
        "**.**",
    ] {
        assert_eq!(parse(q), Err(ParseError::InvalidQuery), "query {q:?}");
    }
    assert!(parse("{last,last.name}").is_ok());
}

#[test]
fn sample_errors() {
    for (q, error) in [
        ("Tim.age.x", ExecError::NotAnObject),
        ("Fred.hobbies.age", ExecError::NotAnObject),
        ("nobody.*", ExecError::NotAnObject),
        ("Tim[]", ExecError::NotAnArray),
        ("*^.age[]", ExecError::NotAnArray),
    ] {
        assert_eq!(
            answer(&parse(q).unwrap(), json(PEOPLE), false),
            Err(error),
            "query {q:?}"
        );
    }
}
