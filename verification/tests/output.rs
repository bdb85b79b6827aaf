//! What is printed for a query.

use jt::document::{eval, parse_text, respond, EvalError};
use jt::exec::{collect, ExecError};
use jt::output::{answer, is_colored, remove_null_keys, shown};
use jt::parser::parse;
use jt::value::JsonValue;

/// The value that the JSON in `text` stands for.
fn json(text: &str) -> JsonValue {
    parse_text(text.to_owned()).unwrap()
}

fn to_serde(value: &JsonValue) -> serde_json::Value {
    match value {
        JsonValue::Null => serde_json::Value::Null,
        JsonValue::Bool(b) => serde_json::Value::Bool(*b),
        JsonValue::Number(n) => serde_json::Value::Number(n.clone()),
        JsonValue::String(s) => serde_json::Value::String(s.clone()),
        JsonValue::Array(items) => serde_json::Value::Array(items.iter().map(to_serde).collect()),
        JsonValue::Object(object) => serde_json::Value::Object(
            object
                .entries()
                .iter()
                .map(|(key, value)| (key.clone(), to_serde(value)))
                .collect(),
        ),
    }
}

/// `value` as compact JSON.
fn print(value: &JsonValue) -> String {
    to_serde(value).to_string()
}

/// The results of `q` for the JSON in `text`, as compact JSON.
fn query(q: &str, text: &str) -> String {
    print(&JsonValue::Array(eval(&parse(q).unwrap(), text.to_owned()).unwrap()))
}

/// The value printed for `q`, before null keys are removed, as compact JSON.
fn output(q: &str, text: &str) -> String {
    let ops = parse(q).unwrap();
    print(&collect(&ops, eval(&ops, text.to_owned()).unwrap()))
}

#[test]
fn eval_empty_query_returns_input() {
    assert_eq!(query("", r#"{"a":1}"#), r#"[{"a":1}]"#);
}

#[test]
fn eval_rejects_invalid_json() {
    assert!(eval(&[], "{not json".to_owned()).is_err());
}

#[test]
fn output_empty_query_is_input_unwrapped() {
    assert_eq!(output("", r#"{"a":1}"#), r#"{"a":1}"#);
    assert_eq!(output("", "[1,2]"), "[1,2]");
    assert_eq!(output("", "7"), "7");
}

#[test]
fn output_single_result_unwrapped() {
    assert_eq!(output("a", r#"{"a":1}"#), "1");
    assert_eq!(output("a", r#"{"a":{"b":2}}"#), r#"{"b":2}"#);
    assert_eq!(output("a", r#"{"a":[1]}"#), "[1]");
}

#[test]
fn output_slice_as_array_even_with_one_result() {
    assert_eq!(output("*", r#"{"a":1}"#), "1");
    assert_eq!(output("[0:1]", "[1,2]"), "[1]");
}

#[test]
fn output_none_or_several_results_as_array() {
    assert_eq!(output("*", "{}"), "[]");
    assert_eq!(output("*", r#"{"a":1,"b":2}"#), "[1,2]");
}

#[test]
fn remove_null_keys_at_any_depth() {
    let mut value = json(r#"{"a":null,"b":{"c":null,"d":1},"e":[null,{"f":null}]}"#);
    remove_null_keys(&mut value);
    assert_eq!(print(&value), r#"{"b":{"d":1},"e":[null,{}]}"#);
}

#[test]
fn remove_null_keys_keeps_a_null_value() {
    let mut value = JsonValue::Null;
    remove_null_keys(&mut value);
    assert_eq!(value, JsonValue::Null);
}

#[test]
fn eval_tells_bad_text_from_a_bad_fit() {
    let ops = parse("a").unwrap();
    assert!(matches!(
        eval(&ops, "[1".to_owned()),
        Err(EvalError::InvalidJson(_))
    ));
    assert!(matches!(
        eval(&ops, "[1]".to_owned()),
        Err(EvalError::Exec(ExecError::NotAnObject))
    ));
    assert!(parse_text("1 2".to_owned()).is_err());
}

#[test]
fn errors_say_what_is_wrong() {
    let message = |q, text: &str| {
        respond(&parse(q).unwrap(), text.to_owned(), false)
            .unwrap_err()
            .to_string()
    };
    assert_eq!(message("a", "[1"), "EOF while parsing a list at line 1 column 2");
    assert_eq!(message("", "{not json"), "key must be a string at line 1 column 2");
    assert_eq!(message("a", "[1]"), "not an object");
    assert_eq!(message("[]", "{}"), "not an array");
    assert_eq!(
        parse_text("1 2".to_owned()),
        Err("trailing characters at line 1 column 3".to_owned())
    );
}

#[test]
fn texts_are_read_whole() {
    let text = r#"{"b":[null,true,-7,0.5,"\u00e9\n"],"a":{"c":{},"d":[[]]}}"#;
    assert_eq!(
        print(&json(text)),
        "{\"b\":[null,true,-7,0.5,\"é\\n\"],\"a\":{\"c\":{},\"d\":[[]]}}"
    );
    // The last of two values under the same key stays, in the place of the first.
    assert_eq!(print(&json(r#"{"x":1,"y":2,"x":3}"#)), r#"{"x":3,"y":2}"#);
}

#[test]
fn responses_are_what_is_printed() {
    let text = || r#"{"a":{"n":null,"m":1}}"#.to_owned();
    let ops = parse("*").unwrap();
    assert_eq!(print(&respond(&ops, text(), false).unwrap()), r#"{"m":1}"#);
    assert_eq!(
        print(&respond(&ops, text(), true).unwrap()),
        r#"{"n":null,"m":1}"#
    );
    assert_eq!(
        respond(&ops, text(), false).unwrap(),
        answer(&ops, json(&text()), false).unwrap()
    );
    assert!(matches!(
        respond(&ops, "3".to_owned(), false),
        Err(EvalError::Exec(ExecError::NotAnObject))
    ));
    assert!(matches!(
        respond(&ops, "".to_owned(), false),
        Err(EvalError::InvalidJson(_))
    ));
    let results = eval(&ops, text()).unwrap();
    assert_eq!(print(&shown(&ops, results, false)), r#"{"m":1}"#);
}

#[test]
fn output_is_colored_on_a_terminal_or_by_force() {
    assert!(is_colored(true, false) && is_colored(false, true) && is_colored(true, true));
    assert!(!is_colored(false, false));
}
