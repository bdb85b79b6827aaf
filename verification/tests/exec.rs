//! Running queries.

use jt::document::parse_text;
use jt::exec::{collect, execute, slice_range, ExecError};
use jt::parser::{parse, Op};
use jt::value::JsonValue;

/// The value that the JSON in `text` stands for.
fn json(text: &str) -> JsonValue {
    parse_text(text.to_owned()).unwrap()
}

fn to_serde(value: &JsonValue) -> serde_json::Value {
    match value {
        JsonValue::Null => serde_json::Value::Null,
        JsonValue::Bool(b) => serde_json::Value::Bool(*b),
        JsonValue::Number(n) => serde_json::Value::Number(n.clone()),
        JsonValue::String(s) => serde_json::Value::String(s.clone()),
        JsonValue::Array(items) => serde_json::Value::Array(items.iter().map(to_serde).collect()),
        JsonValue::Object(object) => serde_json::Value::Object(
            object
                .entries()
                .iter()
                .map(|(key, value)| (key.clone(), to_serde(value)))
                .collect(),
        ),
    }
}

/// `value` as compact JSON.
fn print(value: &JsonValue) -> String {
    to_serde(value).to_string()
}

fn prop(name: &str) -> Op {
    Op::Property(name.to_string())
}

fn exec(q: &str, input: JsonValue) -> Result<Vec<JsonValue>, ExecError> {
    execute(&parse(q).unwrap(), vec![input])
}

/// The results of `q` for the JSON in `text`, as compact JSON.
fn query(q: &str, text: &str) -> String {
    print(&JsonValue::Array(exec(q, json(text)).unwrap()))
}

#[test]
fn eval_property() {
    assert_eq!(query("a", r#"{"a":[1,2,3]}"#), "[[1,2,3]]");
}

#[test]
fn eval_nested_property() {
    assert_eq!(query("a.name", r#"{"a":{"name":"foo"}}"#), r#"["foo"]"#);
}

#[test]
fn eval_missing_property_is_null() {
    assert_eq!(query("nope.x", r#"{"a":1}"#), "[null]");
}

#[test]
fn eval_wildcard_then_property() {
    let text = r#"{"b":{"name":"bar"},"a":{"name":"foo"}}"#;
    assert_eq!(query("*.name", text), r#"["bar","foo"]"#);
}

#[test]
fn eval_array_then_wildcard() {
    let text = r#"[{"a":{"name":"foo"}},{"b":{"name":"bar"}}]"#;
    assert_eq!(query("[].*", text), r#"[{"name":"foo"},{"name":"bar"}]"#);
}

#[test]
fn eval_array_index_then_wildcard() {
    let text = r#"[{"a":{"name":"foo"}},{"b":{"name":"bar"}}]"#;
    assert_eq!(query("[1].*", text), r#"[{"name":"bar"}]"#);
}

#[test]
fn eval_property_on_scalar_errors() {
    assert!(exec("a.x", json(r#"{"a":1}"#)).is_err());
}

#[test]
fn eval_array_op_on_object_errors() {
    assert!(exec("[]", json(r#"{"a":1}"#)).is_err());
}

#[test]
fn execute_property_on_null_yields_null() {
    let input = json(r#"{"a": 1}"#);
    assert_eq!(
        execute(&[prop("nope"), prop("x")], vec![input]),
        Ok(vec![JsonValue::Null])
    );
}

#[test]
fn execute_property_on_scalar_errors() {
    let input = json(r#"{"a": 1}"#);
    assert_eq!(
        execute(&[prop("a"), prop("x")], vec![input]),
        Err(ExecError::NotAnObject)
    );
}

#[test]
fn execute_wildcard_preserves_document_order() {
    let input = json(r#"{"b": 1, "a": 2}"#);
    assert_eq!(
        execute(&parse("*").unwrap(), vec![input]),
        Ok(vec![json("1"), json("2")])
    );
}

#[test]
fn eval_slice_matches_python() {
    // Expected values produced by Python on [0, 1, 2, 3, 4].
    let cases = [
        ("[1:3]", "[1,2]"),
        ("[-2:]", "[3,4]"),
        ("[:-1]", "[0,1,2,3]"),
        ("[10:20]", "[]"),
        ("[-10:2]", "[0,1]"),
        ("[3:1]", "[]"),
        ("[-1:-3]", "[]"),
        ("[:]", "[0,1,2,3,4]"),
        ("[:10]", "[0,1,2,3,4]"),
    ];
    for (q, expected) in cases {
        assert_eq!(query(q, "[0,1,2,3,4]"), expected, "query {q:?}");
    }
}

#[test]
fn eval_slice_gives_each_element() {
    let text = r#"[{"n":"a"},{"n":"b"},{"n":"c"}]"#;
    assert_eq!(query("[1:].n", text), r#"["b","c"]"#);
    assert_eq!(query("[:].n", text), query("[].n", text));
}

#[test]
fn eval_slice_of_nested_arrays_keeps_them_whole() {
    assert_eq!(query("[:1]", "[[1,2],[3]]"), "[[1,2]]");
}

#[test]
fn eval_slice_on_null_is_empty() {
    assert_eq!(query("nope[1:2]", r#"{"a":1}"#), "[]");
}

#[test]
fn eval_slice_on_object_errors() {
    assert!(exec("[1:2]", json(r#"{"a":1}"#)).is_err());
}

#[test]
fn eval_regex_collects_matching_properties_in_order() {
    let text = r#"{"name":"x","age":1,"nickname":"y","id":2}"#;
    assert_eq!(query("/name/", text), r#"["x","y"]"#);
    assert_eq!(query("/^name$/", text), r#"["x"]"#);
    assert_eq!(query("/^(age|id)$/", text), "[1,2]");
    assert_eq!(query("/zzz/", text), "[]");
}

#[test]
fn eval_regex_then_property() {
    let text = r#"{"user_a":{"n":1},"user_b":{"n":2},"admin":{"n":3}}"#;
    assert_eq!(query("/^user_/.n", text), "[1,2]");
}

#[test]
fn eval_regex_on_non_object_errors() {
    for text in ["[1,2]", "null", "1"] {
        assert!(
            exec("/a/", json(text)).is_err(),
            "expected error for {text}"
        );
    }
}

#[test]
fn eval_pick_keeps_listed_properties_in_listed_order() {
    let text = r#"{"a":1,"b":{"n":2},"c":3}"#;
    assert_eq!(query("{c,a}", text), r#"[{"c":3,"a":1}]"#);
    assert_eq!(query("{b}", text), r#"[{"b":{"n":2}}]"#);
    assert_eq!(query("{a,nope}", text), r#"[{"a":1,"nope":null}]"#);
}

#[test]
fn eval_pick_from_each_object() {
    let text = r#"{"x":{"name":"foo","age":33,"h":[1]},"y":{"name":"bar","age":29,"h":[2]}}"#;
    assert_eq!(
        query("*.{name,age}", text),
        r#"[{"name":"foo","age":33},{"name":"bar","age":29}]"#
    );
}

#[test]
fn eval_pick_then_property() {
    let text = r#"{"a":1,"b":2}"#;
    assert_eq!(query("{b,a}.a", text), "[1]");
}

#[test]
fn eval_pick_paths_are_keyed_by_last_name() {
    let text = r#"{"age":50,"hobbies":["bridge","chess"],"last":{"name":"Smith","x":1},"y":2}"#;
    assert_eq!(
        query("{age,hobbies[0],last.name}", text),
        r#"[{"age":50,"hobbies":"bridge","name":"Smith"}]"#
    );
    assert_eq!(
        query("{hobbies[1:],last.{x,name}}", text),
        r#"[{"hobbies":["chess"],"x":1,"name":"Smith"}]"#
    );
    assert_eq!(
        query("{last.name,age,last.x,last}", text),
        r#"[{"name":"Smith","age":50,"x":1,"last":{"name":"Smith","x":1}}]"#
    );
}

#[test]
fn eval_pick_paths_through_arrays() {
    let text = r#"{"f":[{"n":"a","m":1},{"n":"b"}]}"#;
    assert_eq!(query("{f[].n}", text), r#"[{"n":["a","b"]}]"#);
    assert_eq!(query("{f[0].{n,m}}", text), r#"[{"n":"a","m":1}]"#);
}

#[test]
fn eval_pick_paths_on_missing_values() {
    let text = r#"{"age":8}"#;
    assert_eq!(
        query("{hobbies[0],last.name}", text),
        r#"[{"hobbies":null,"name":null}]"#
    );
    assert_eq!(
        exec("{age[0]}", json(r#"{"age": 8}"#)),
        Err(ExecError::NotAnArray)
    );
    assert_eq!(
        exec("{age.x}", json(r#"{"age": 8}"#)),
        Err(ExecError::NotAnObject)
    );
}

#[test]
fn eval_pick_paths_after_keys() {
    let text = r#"{"Tim":{"age":53,"hobbies":["chess"]},"Teddy":{"age":8}}"#;
    assert_eq!(
        query("/T.*/^.{age,hobbies[0]}", text),
        r#"[{"Tim":{"age":53,"hobbies":"chess"},"Teddy":{"age":8,"hobbies":null}}]"#
    );
}

#[test]
fn eval_pick_on_null_gives_nulls() {
    assert_eq!(query("nope.{a,b}", "{}"), r#"[{"a":null,"b":null}]"#);
}

#[test]
fn execute_pick_on_non_object_errors() {
    for input in [json(r#"[{"a": 1}]"#), json("1"), json(r#""s""#)] {
        assert_eq!(
            exec("{a,b}", input.clone()),
            Err(ExecError::NotAnObject),
            "on {input:?}"
        );
    }
}

#[test]
fn collect_unwraps_only_a_single_value_without_every_element_or_a_slice() {
    let ops = |q| parse(q).unwrap();
    assert_eq!(collect(&ops("a"), vec![json("[1]")]), json("[1]"));
    assert_eq!(collect(&ops("a"), vec![json("1")]), json("1"));
    assert_eq!(collect(&ops("*"), vec![json("1")]), json("1"));
    assert_eq!(collect(&ops("[]"), vec![]), json("[]"));
    assert_eq!(collect(&ops("*"), vec![json("1"), json("2")]), json("[1, 2]"));
    assert_eq!(collect(&ops("[:]"), vec![json("1")]), json("[1]"));
    assert_eq!(collect(&ops("[0:1].a"), vec![json("1")]), json("[1]"));
    assert_eq!(collect(&ops("[]"), vec![json("1")]), json("[1]"));
    assert_eq!(collect(&ops("a[].b"), vec![json("1")]), json("[1]"));
    assert_eq!(collect(&ops("a[0]"), vec![json("1")]), json("1"));
}

#[test]
fn slice_range_on_empty_sequence() {
    assert_eq!(slice_range(0, None, None), 0..0);
    assert_eq!(slice_range(0, Some(-1), Some(5)), 0..0);
}

#[test]
fn slice_range_never_runs_backwards() {
    assert_eq!(slice_range(5, Some(4), Some(1)), 4..4);
    assert_eq!(slice_range(5, Some(-1), Some(0)), 4..4);
}

#[test]
fn execute_array_iterates_elements() {
    assert_eq!(
        exec("[]", json(r#"[1, "x", null]"#)),
        Ok(vec![json("1"), json(r#""x""#), JsonValue::Null])
    );
    assert_eq!(exec("[]", json("[]")), Ok(vec![]));
}

#[test]
fn execute_array_index() {
    assert_eq!(exec("[1]", json("[10, 20, 30]")), Ok(vec![json("20")]));
    assert_eq!(exec("[3]", json("[10, 20, 30]")), Ok(vec![JsonValue::Null]));
    assert_eq!(exec("[0]", json("[]")), Ok(vec![JsonValue::Null]));
}

#[test]
fn execute_array_index_on_null_is_null() {
    assert_eq!(exec("nope[0]", json("{}")), Ok(vec![JsonValue::Null]));
}

#[test]
fn execute_slice_of_empty_array() {
    assert_eq!(exec("[1:3]", json("[]")), Ok(vec![]));
}

#[test]
fn execute_applies_op_to_every_node() {
    let input = json(r#"[{"n": 1}, {"n": 2}, {"n": 3}]"#);
    assert_eq!(exec("[].n", input), Ok(vec![json("1"), json("2"), json("3")]));
}

#[test]
fn eval_descend_finds_a_name_at_any_depth() {
    let text = r#"{"pat":1,"a":{"b":[{"pat":2},{"x":{"pat":{"pat":3}}}]},"c":{"pat":null}}"#;
    // Each object comes before the ones inside it, and nulls are left out.
    assert_eq!(query("**.pat", text), r#"[1,2,{"pat":3},3]"#);
    assert_eq!(query("**.nope", text), "[]");
    assert_eq!(query("a.**.pat", text), r#"[2,{"pat":3},3]"#);
    // As after `*`, a property step on a result that isn't an object fails.
    assert_eq!(
        exec("**.pat.pat", json(text)),
        Err(ExecError::NotAnObject)
    );
}

#[test]
fn eval_descend_follows_fan_out_rules() {
    let text = r#"{"a":{"h":[1,2]},"b":[{"h":[3]}]}"#;
    assert_eq!(query("**.h", text), "[1,2,3]");
    assert_eq!(query("**.h[0]", text), "[1,3]");
    assert_eq!(query("**.h[1:]", text), "[2]");
}

#[test]
fn eval_descend_with_other_object_steps() {
    let text = r#"{"user_1":{"name":"ann","pet":{"name":"rex","age":3}},"user_2":{"age":7}}"#;
    assert_eq!(
        query("**./^user_/", text),
        r#"[{"name":"ann","pet":{"name":"rex","age":3}},{"age":7}]"#
    );
    assert_eq!(
        query("**.*^", text),
        r#"["user_1","user_2","name","pet","name","age","age"]"#
    );
    // Objects with no matching key give no empty objects.
    assert_eq!(query("**.pe^.name", text), r#"[{"pet":"rex"}]"#);
    assert_eq!(
        query("**.{name,age}", text),
        r#"[{"name":null,"age":null},{"name":"ann","age":null},{"name":"rex","age":3},{"name":null,"age":7}]"#
    );
}

#[test]
fn eval_descend_paths_prunes_the_document() {
    let text = r#"{"d":0,"T":{"w":{"d":"acc"}},"L":[{"d":null},{"w":{"d":"fin"}}],"x":{}}"#;
    assert_eq!(
        query("**^.d", text),
        r#"[{"d":0,"T":{"w":{"d":"acc"}},"L":{"[1]":{"w":{"d":"fin"}}}}]"#
    );
    assert_eq!(query("L.**^.d", text), r#"[{"[1]":{"w":{"d":"fin"}}}]"#);
    assert_eq!(query("**^.nope", text), "[{}]");
}

#[test]
fn eval_descend_paths_keeps_matches_inside_matches() {
    let text = r#"{"Bob":{"age":40,"kid":{"age":5}},"a":{"a":{"a":1}}}"#;
    assert_eq!(
        query("**^.age", text),
        r#"[{"Bob":{"age":40,"kid":{"age":5}}}]"#
    );
    assert_eq!(query("**^.a", text), r#"[{"a":{"a":{"a":1}}}]"#);
    // A match inside an array found earlier is followed into the array.
    assert_eq!(query("**^.x", r#"{"x":[{"x":1}]}"#), r#"[{"x":[{"x":1}]}]"#);
}

#[test]
fn eval_descend_paths_keys_what_is_found() {
    let text = r#"{"T":{"w":{"d":"acc","e":1},"h":[1,2]},"N":{"h":[]}}"#;
    // Names: under the last name, as in a pick.
    assert_eq!(query("**^.w.d", text), r#"[{"T":{"d":"acc"}}]"#);
    assert_eq!(query("**^.h[0]", text), r#"[{"T":{"h":1}}]"#);
    // Steps after the first start afresh, as after `*^`.
    assert_eq!(query("**^.h", text), r#"[{"T":{"h":[1,2]},"N":{"h":[]}}]"#);
    // A slice that gives no results finds nothing.
    assert_eq!(query("**^.h[1:]", text), r#"[{"T":{"h":[2]}}]"#);
    // Selectors: under each matching key.
    assert_eq!(
        query("**^./^[de]$/", text),
        r#"[{"T":{"w":{"d":"acc","e":1}}}]"#
    );
    assert_eq!(query("**^.w^.d", text), r#"[{"T":{"w":"acc"}}]"#);
    // Picks: their own keys, leaving out what they don't find.
    assert_eq!(
        query("**^.{d,h[0]}", text),
        r#"[{"T":{"h":1,"w":{"d":"acc"}}}]"#
    );
}

#[test]
fn eval_descend_paths_keeps_every_element_in_an_array() {
    let text = r#"{"T":{"h":["a"]},"F":{"h":["b","c"]},"N":{"h":[]}}"#;
    assert_eq!(
        query("**^.h[]", text),
        r#"[{"T":{"h":["a"]},"F":{"h":["b","c"]}}]"#
    );
    assert_eq!(
        query("**^.h[0]", text),
        r#"[{"T":{"h":"a"},"F":{"h":"b"}}]"#
    );
}

#[test]
fn eval_descend_paths_nest() {
    let text = r#"{"T":{"w":{"x":{"d":1}}},"L":{"w":{"d":2}},"N":{"d":3}}"#;
    assert_eq!(query("**^.w.**.d", text), r#"[{"T":{"w":1},"L":{"w":2}}]"#);
    assert_eq!(
        query("**^.w.**^.d", text),
        r#"[{"T":{"w":{"x":{"d":1}}},"L":{"w":{"d":2}}}]"#
    );
    // Data that is an empty object is still found.
    assert_eq!(
        query("**^.e", r#"{"e":{},"a":{"e":{}}}"#),
        r#"[{"e":{},"a":{"e":{}}}]"#
    );
}

#[test]
fn eval_descend_paths_alone_gives_every_object_emptied() {
    let text = r#"{"a":{"b":[{"c":{}},1]},"d":2}"#;
    assert_eq!(query("**^", text), r#"[{"a":{"b":{"[0]":{"c":{}}}}}]"#);
    assert_eq!(
        query("**^", "[{},[{}]]"),
        r#"[{"[0]":{},"[1]":{"[0]":{}}}]"#
    );
    assert_eq!(query("**^", "1"), "[{}]");
}

#[test]
fn eval_descend_paths_after_fan_out_drops_empty_objects() {
    assert_eq!(
        query("[].**^.a", r#"[{"a":1},{"b":2},{"c":{"a":3}}]"#),
        r#"[{"a":1},{"c":{"a":3}}]"#
    );
}

#[test]
fn eval_descend_on_scalars_gives_nothing() {
    assert_eq!(query("**.a", "1"), "[]");
    assert_eq!(query("**.a", "[1,[2]]"), "[]");
    assert_eq!(query("[].**.a", r#"[{"a":1},2,[{"a":3}]]"#), "[1,3]");
}

#[test]
fn eval_property_map_gives_null_for_no_results() {
    let text = r#"{"Fred":{"h":[]},"Teddy":{"work":{"d":"acc"},"h":[1]}}"#;
    assert_eq!(query("*^.**.d", text), r#"[{"Fred":null,"Teddy":"acc"}]"#);
    assert_eq!(query("*^.h[]", text), r#"[{"Fred":null,"Teddy":[1]}]"#);
    // A slice still gives an array.
    assert_eq!(query("*^.h[1:]", text), r#"[{"Fred":[],"Teddy":[]}]"#);
}

#[test]
fn eval_property_map_after_fan_out_drops_empty_objects() {
    let text = r#"[{"a":{"name":"foo"}},{"b":{"name":"bar"}},{"b":{}}]"#;
    assert_eq!(query("[]./b/^.name", text), r#"[{"b":"bar"},{"b":null}]"#);
    assert_eq!(query("[]./x/^.name", text), "[]");
    // Empty objects in the data are kept.
    assert_eq!(query("[].b", text), r#"[{"name":"bar"},{}]"#);
    // Before a fan-out, the one object is kept even when empty.
    assert_eq!(query("/x/^.name", r#"{"a":1}"#), "[{}]");
}

#[test]
fn eval_property_after_fan_out_drops_nulls() {
    let text = r#"{"a":{"n":1},"b":{},"c":{"n":null},"d":{"n":2}}"#;
    assert_eq!(query("*.n", text), "[1,2]");
    assert_eq!(query("[].n", r#"[{"n":1},{"m":2}]"#), "[1]");
}

#[test]
fn eval_property_after_fan_out_flattens_arrays() {
    let text = r#"{"Tim":{},"Fred":{"h":["a","b"]},"Ann":{"h":["c",null]}}"#;
    assert_eq!(query("*.h", text), r#"["a","b","c"]"#);
    assert_eq!(query("*.h[]", text), query("*.h", text));
    assert_eq!(query("*.h[0]", text), r#"["a","c"]"#);
    assert_eq!(query("*.h[1:]", text), r#"["b"]"#);
    // A value that isn't an array is kept as it is, but `[]` needs an array.
    let text = r#"{"Fred":{"h":["a"]},"Bob":{"h":"d"}}"#;
    assert_eq!(query("*.h", text), r#"["a","d"]"#);
    assert_eq!(
        exec("*.h[]", json(text)),
        Err(ExecError::NotAnArray)
    );
}

#[test]
fn eval_flattens_one_level_then_keeps_going() {
    let text = r#"{"x":{"f":[{"n":1},{"n":2}]},"y":{"f":[[3]]}}"#;
    assert_eq!(query("*.f", text), r#"[{"n":1},{"n":2},[3]]"#);
    assert_eq!(query("/x/.f.n", text), "[1,2]");
}

#[test]
fn eval_property_without_fan_out_is_unchanged() {
    let text = r#"{"h":["a","b"],"n":null}"#;
    assert_eq!(query("h", text), r#"[["a","b"]]"#);
    assert_eq!(query("n", text), "[null]");
    assert_eq!(query("nope", text), "[null]");
}

#[test]
fn eval_steps_after_keys_start_without_fan_out() {
    let text = r#"{"Tim":{},"Fred":{"h":["a","b"]}}"#;
    assert_eq!(query("*^.h", text), r#"[{"Tim":null,"Fred":["a","b"]}]"#);
    assert_eq!(query("*^.h[]", text), r#"[{"Tim":null,"Fred":["a","b"]}]"#);
    assert_eq!(
        query("*^.{h}", text),
        r#"[{"Tim":{"h":null},"Fred":{"h":["a","b"]}}]"#
    );
}

#[test]
fn execute_empty_ops_returns_input() {
    assert_eq!(
        execute(&[], vec![json("1"), json("2")]),
        Ok(vec![json("1"), json("2")])
    );
}

#[test]
fn execute_error_in_any_node_fails_whole_query() {
    assert_eq!(
        exec("[].n", json(r#"[{"n": 1}, 2]"#)),
        Err(ExecError::NotAnObject)
    );
}

#[test]
fn execute_array_ops_on_object_are_not_an_array() {
    for q in ["[]", "[0]", "[1:2]"] {
        assert_eq!(
            exec(q, json(r#"{"a": 1}"#)),
            Err(ExecError::NotAnArray),
            "query {q:?}"
        );
    }
}

#[test]
fn execute_array_ops_on_scalar_are_not_an_array() {
    for q in ["[]", "[0]", "[1:2]"] {
        for input in [json("1"), json(r#""s""#), json("true")] {
            assert_eq!(
                exec(q, input.clone()),
                Err(ExecError::NotAnArray),
                "query {q:?} on {input:?}"
            );
        }
    }
}

#[test]
fn execute_object_ops_on_scalar_are_not_an_object() {
    for q in ["a", "*", "/a/"] {
        for input in [json("1"), json(r#""s""#), json("false")] {
            assert_eq!(
                exec(q, input.clone()),
                Err(ExecError::NotAnObject),
                "query {q:?} on {input:?}"
            );
        }
    }
}

#[test]
fn execute_iteration_ops_on_null() {
    assert_eq!(exec("x[]", json("{}")), Ok(vec![]));
    assert_eq!(exec("x.*", json("{}")), Err(ExecError::NotAnObject));
    assert_eq!(exec("x./a/", json("{}")), Err(ExecError::NotAnObject));
}

#[test]
fn execute_object_ops_on_array_are_not_an_object() {
    for q in ["a", "*", "/a/"] {
        assert_eq!(
            exec(q, json(r#"[{"a": 1}]"#)),
            Err(ExecError::NotAnObject),
            "query {q:?}"
        );
    }
}

#[test]
fn eval_wildcard_is_regex_matching_everything() {
    let text = r#"{"b":{"n":1},"a":{"n":2},"":{"n":3}}"#;
    for (wildcard, regex) in [("*", "/.*/"), ("*^", "/.*/^"), ("*^.n", "/.*/^.n")] {
        assert_eq!(
            query(wildcard, text),
            query(regex, text),
            "{wildcard} vs {regex}"
        );
    }
}

#[test]
fn eval_name_keys_match_like_regex_keys() {
    let text = r#"{"Tim":{"age":53},"Timothy":{"age":20},"Fred":{"age":50}}"#;
    assert_eq!(query("Tim^", text), r#"["Tim","Timothy"]"#);
    assert_eq!(query("Tim^.age", text), r#"[{"Tim":53,"Timothy":20}]"#);
    for (name, regex) in [
        ("Tim^", "/Tim/^"),
        ("Tim^.age", "/Tim/^.age"),
        ("zz^", "/zz/^"),
    ] {
        assert_eq!(query(name, text), query(regex, text), "{name} vs {regex}");
    }
}

#[test]
fn eval_keys_in_document_order() {
    assert_eq!(query("*^", r#"{"b":1,"a":2,"c":3}"#), r#"["b","a","c"]"#);
    assert_eq!(query("*^", "{}"), "[]");
}

#[test]
fn eval_keys_of_each_object() {
    let text = r#"{"x":{"a":1,"b":2},"y":{"c":3}}"#;
    assert_eq!(query("*.*^", text), r#"["a","b","c"]"#);
}

#[test]
fn eval_steps_after_keys_build_one_object() {
    let text = r#"{"Tim":{"age":53},"Fred":{"age":50,"hobbies":["a","b"]}}"#;
    assert_eq!(query("*^.age", text), r#"[{"Tim":53,"Fred":50}]"#);
    assert_eq!(
        query("*^.{age}", text),
        r#"[{"Tim":{"age":53},"Fred":{"age":50}}]"#
    );
    assert_eq!(
        query(
            "*^.hobbies[]",
            r#"{"Fred":{"hobbies":["a","b"]},"Ann":{"hobbies":[]}}"#
        ),
        r#"[{"Fred":["a","b"],"Ann":null}]"#
    );
    assert_eq!(
        query("*^.hobbies[]", r#"{"Fred":{"hobbies":["a"]}}"#),
        r#"[{"Fred":["a"]}]"#
    );
}

#[test]
fn eval_steps_after_keys_build_one_object_per_input() {
    let text = r#"{"x":{"a":{"n":1},"b":{"n":2}},"y":{"c":{"n":3}}}"#;
    assert_eq!(query("*.*^.n", text), r#"[{"a":1,"b":2},{"c":3}]"#);
}

#[test]
fn eval_nested_keys() {
    let text = r#"{"x":{"a":1,"b":2},"y":{"c":3},"z":{}}"#;
    assert_eq!(
        query("*^.*^", text),
        r#"[{"x":["a","b"],"y":"c","z":null}]"#
    );
}

#[test]
fn execute_steps_after_keys_propagate_errors() {
    assert_eq!(exec("*^.a", json(r#"{"x": 1}"#)), Err(ExecError::NotAnObject));
    assert_eq!(exec("*^.a", json("[1]")), Err(ExecError::NotAnObject));
}

#[test]
fn eval_regex_keys_lists_matching_keys() {
    let text = r#"{"Tim":{"age":53},"Fred":{"age":50},"Tom":{}}"#;
    assert_eq!(query("/^T/^", text), r#"["Tim","Tom"]"#);
    assert_eq!(query("/zzz/^", text), "[]");
}

#[test]
fn eval_steps_after_regex_keys_build_object_of_matching_keys() {
    let text = r#"{"Tim":{"name":"t","age":53},"Fred":{"name":"f"},"Tom":{"name":"o"}}"#;
    assert_eq!(query("/T.*/^.name", text), r#"[{"Tim":"t","Tom":"o"}]"#);
    assert_eq!(query("/^Tim$/^.{age}", text), r#"[{"Tim":{"age":53}}]"#);
    assert_eq!(query("/zzz/^.name", text), "[{}]");
}

#[test]
fn eval_first_hobby_of_matching_keys() {
    let text = r#"{"Tim":{"hobbies":["chess","golf"]},"Teddy":{"hobbies":[]},"Tom":{},"Fred":{"hobbies":["bridge"]}}"#;
    assert_eq!(
        query("/T.*/^.hobbies[0]", text),
        r#"[{"Tim":"chess","Teddy":null,"Tom":null}]"#
    );
}

#[test]
fn eval_slice_after_keys_is_always_an_array() {
    let text = r#"{"Tim":{"hobbies":["chess","golf"]},"Teddy":{"hobbies":["kites"]},"Tom":{}}"#;
    assert_eq!(
        query("/T.*/^.hobbies[0:1]", text),
        r#"[{"Tim":["chess"],"Teddy":["kites"],"Tom":[]}]"#
    );
    assert_eq!(
        query("/T.*/^.hobbies[:]", text),
        r#"[{"Tim":["chess","golf"],"Teddy":["kites"],"Tom":[]}]"#
    );
}

#[test]
fn eval_nested_regex_keys() {
    let text = r#"{"x1":{"a1":1,"b":2},"y":{"a2":3}}"#;
    assert_eq!(query("/x/^./a/^", text), r#"[{"x1":"a1"}]"#);
}

#[test]
fn execute_regex_keys_on_non_object_is_not_an_object() {
    for q in ["/a/^", "/a/^.b"] {
        assert_eq!(
            exec(q, json("[1]")),
            Err(ExecError::NotAnObject),
            "query {q:?}"
        );
    }
}

#[test]
fn execute_keys_on_non_object_is_not_an_object() {
    for input in [json("[1]"), json("null"), json("1"), json(r#""s""#)] {
        assert_eq!(
            exec("*^", input.clone()),
            Err(ExecError::NotAnObject),
            "on {input:?}"
        );
    }
}

#[test]
fn exec_error_display() {
    assert_eq!(ExecError::NotAnObject.to_string(), "not an object");
    assert_eq!(ExecError::NotAnArray.to_string(), "not an array");
}
