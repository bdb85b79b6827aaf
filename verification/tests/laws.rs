//! What holds of every query, on concrete values.

use jt::document::parse_text;
use jt::exec::{collect, execute, slice_range, ExecError};
use jt::output::{answer, remove_null_keys};
use jt::parser::{parse, parse_chunk, parse_regex, split_chunks, split_top_level_commas, Op, Pattern};
use jt::text::{characters, decimal_text};
use jt::value::{Object, JsonValue};
use regex::Regex;

/// The value that the JSON in `text` stands for.
fn json(text: &str) -> JsonValue {
    parse_text(text.to_owned()).unwrap()
}

fn to_serde(value: &JsonValue) -> serde_json::Value {
    match value {
        JsonValue::Null => serde_json::Value::Null,
        JsonValue::Bool(b) => serde_json::Value::Bool(*b),
        JsonValue::Number(n) => serde_json::Value::Number(n.clone()),
        JsonValue::String(s) => serde_json::Value::String(s.clone()),
        JsonValue::Array(items) => serde_json::Value::Array(items.iter().map(to_serde).collect()),
        JsonValue::Object(object) => serde_json::Value::Object(
            object
                .entries()
                .iter()
                .map(|(key, value)| (key.clone(), to_serde(value)))
                .collect(),
        ),
    }
}

/// `value` as compact JSON.
fn print(value: &JsonValue) -> String {
    to_serde(value).to_string()
}

fn run(q: &str, text: &str) -> Result<Vec<JsonValue>, ExecError> {
    execute(&parse(q).unwrap(), vec![json(text)])
}

/// The results of `q` for the JSON in `text`, as compact JSON.
fn query(q: &str, text: &str) -> String {
    print(&JsonValue::Array(run(q, text).unwrap()))
}

fn prop(name: &str) -> Op {
    Op::Property(name.to_string())
}

#[test]
fn law_steps_run_in_turn() {
    let text = r#"{"a":{"x":{"n":1},"y":{"n":[2,3]}}}"#;
    let between = run("a", text).unwrap();
    assert_eq!(
        execute(&parse("*.n").unwrap(), between),
        run("a.*.n", text)
    );
    // A property after a fan-out keeps its arrays whole for an array step.
    assert_eq!(query("a.*.n[1]", r#"{"a":{"y":{"n":[2,3]}}}"#), "[3]");
    assert_eq!(query("a.*.n", text), "[1,2,3]");
}

#[test]
fn law_every_value_is_run_on_its_own() {
    let ops = parse("n").unwrap();
    let one = || json(r#"{"n":1}"#);
    let two = || json(r#"{"n":null}"#);
    assert_eq!(
        execute(&ops, vec![one(), two()]),
        Ok(vec![json("1"), JsonValue::Null])
    );
    assert_eq!(
        execute(&ops, vec![one(), json("7"), two()]),
        Err(ExecError::NotAnObject)
    );
}

#[test]
fn law_a_path_from_null_gives_null() {
    assert_eq!(query("a.b[3].c", "null"), "[null]");
    assert_eq!(query("a.b[3].c", r#"{"a":{"b":[]}}"#), "[null]");
}

#[test]
fn law_picks_keep_the_order_of_the_list() {
    let text = r#"{"a":1,"b":{"c":[2,3]},"d":4}"#;
    assert_eq!(query("{d,b.c[1],a}", text), r#"[{"d":4,"c":3,"a":1}]"#);
    // One property is read by several entries.
    assert_eq!(
        query("{b.c,b,b.e}", text),
        r#"[{"c":[2,3],"b":{"c":[2,3]},"e":null}]"#
    );
    assert_eq!(query("{a,b.c}", "null"), r#"[{"a":null,"c":null}]"#);
}

#[test]
fn law_wildcards_give_everything_in_order() {
    let text = r#"{"z":1,"a":null,"m":[2]}"#;
    assert_eq!(query("*", text), "[1,null,[2]]");
    assert_eq!(query("*^", text), r#"["z","a","m"]"#);
}

#[test]
fn law_mapped_objects_keep_the_matching_keys() {
    let text = r#"{"b1":{"n":[]},"x":7,"b2":{"n":[5]},"b0":{}}"#;
    assert_eq!(query("b^.n[]", text), r#"[{"b1":null,"b2":[5],"b0":null}]"#);
    assert_eq!(query("b^.n[:]", text), r#"[{"b1":[],"b2":[5],"b0":[]}]"#);
    assert_eq!(query("/^b/^.n", text), r#"[{"b1":[],"b2":[5],"b0":null}]"#);
}

#[test]
fn law_nothing_is_left_out_before_a_fan_out() {
    assert_eq!(query("n", r#"{"n":null}"#), "[null]");
    assert_eq!(query("n", r#"{"n":[1,null]}"#), "[[1,null]]");
    assert_eq!(query("/x/^.n", r#"{"n":1}"#), "[{}]");
}

#[test]
fn law_nulls_are_left_out_after_a_fan_out() {
    let text = r#"[{"n":null},{"n":{"x1":{"y":2}}},{"n":[null,{}]}]"#;
    assert_eq!(query("[].n", text), r#"[{"x1":{"y":2}},{}]"#);
    assert_eq!(query("[].n.x^.y", text), r#"[{"x1":2}]"#);
    assert_eq!(query("[].n.**^.y", text), r#"[{"x1":{"y":2}}]"#);
}

#[test]
fn law_properties_give_elements_after_a_fan_out() {
    let text = r#"{"a":{"h":[1,[2]]},"b":{"h":[null,3]},"c":{}}"#;
    assert_eq!(query("*.h", text), "[1,[2],3]");
    assert_eq!(query("*.h[]", text), query("*.h", text));
    // A value that isn't an array is given as it is, but has no elements.
    assert_eq!(query("*.h", r#"{"a":{"h":1}}"#), "[1]");
    assert_eq!(run("*.h[]", r#"{"a":{"h":1}}"#), Err(ExecError::NotAnArray));
}

#[test]
fn law_descending_gives_own_results_first() {
    let text = r#"{"a":{"n":1,"b":[{"n":2},[{"n":3}]]},"n":4}"#;
    assert_eq!(query("**.n", text), "[4,1,2,3]");
    assert_eq!(query("**.{n}", "[1,null,[]]"), "[]");
    assert_eq!(
        query("**.*", r#"{"a":{"b":1},"c":2}"#),
        r#"[{"b":1},2,1]"#
    );
}

#[test]
fn law_arrays_are_pruned_element_by_element() {
    let text = r#"[{"x":1},{"y":2},[{"x":3}],{"z":{"x":[4]}}]"#;
    assert_eq!(
        query("**^.x", text),
        r#"[{"[0]":{"x":1},"[2]":{"[0]":{"x":3}},"[3]":{"z":{"x":[4]}}}]"#
    );
    let many = format!("[{}{{\"x\":9}}]", "1,".repeat(12));
    assert_eq!(query("**^.x", &many), r#"[{"[12]":{"x":9}}]"#);
}

#[test]
fn law_objects_are_pruned_value_by_value() {
    // What is found in the object itself comes before what is found in its values.
    let text = r#"{"p":{"q":{"k":1}},"w":{"k":2},"k":3,"n":{"k":null}}"#;
    assert_eq!(
        query("**^.k", text),
        r#"[{"k":3,"p":{"q":{"k":1}},"w":{"k":2}}]"#
    );
    assert_eq!(
        query("**^./^k/", text),
        r#"[{"k":3,"p":{"q":{"k":1}},"w":{"k":2}}]"#
    );
}

#[test]
fn law_matches_are_kept_whole() {
    let text = r#"{"x":{"y":[{"x":{"x":1,"z":2}}],"w":null}}"#;
    assert_eq!(query("**^.x", text), format!("[{text}]"));
    assert_eq!(query("**^.*", text), format!("[{text}]"));
    assert_eq!(
        query("**^.*", r#"{"a":null,"b":{"c":null,"d":[{"e":1}]}}"#),
        r#"[{"b":{"c":null,"d":[{"e":1}]}}]"#
    );
    assert_eq!(query("**^./[xy]/^", text), format!("[{text}]"));
}

#[test]
fn law_values_found_earlier_are_not_overwritten() {
    // The number found under `b` is on the path to the `b` inside the object that was there.
    let text = r#"{"b":{"a":{"b":1}},"a":{"b":5}}"#;
    assert_eq!(query("**^.a.b", text), r#"[{"b":5}]"#);
    // An array found earlier is followed as far as it goes.
    let text = r#"{"b":[7,{"a":{"b":8}}],"a":{"b":[0]}}"#;
    assert_eq!(query("**^.a.b", text), r#"[{"b":[0]}]"#);
}

#[test]
fn law_pruning_without_steps_gives_the_shape() {
    assert_eq!(
        query("**^", r#"{"a":[1,{"b":{}}],"c":"s","d":{}}"#),
        r#"[{"a":{"[1]":{"b":{}}},"d":{}}]"#
    );
    assert_eq!(query("**^", "null"), "[{}]");
    assert_eq!(query("**^.a", "[[],1]"), "[{}]");
}

#[test]
fn law_slices_lie_in_the_array() {
    for start in [None, Some(isize::MIN), Some(-2), Some(0), Some(2), Some(isize::MAX)] {
        for stop in [None, Some(isize::MIN), Some(-1), Some(1), Some(isize::MAX)] {
            for len in [0usize, 1, 3] {
                let range = slice_range(len, start, stop);
                assert!(range.start <= range.end && range.end <= len);
            }
        }
    }
    assert_eq!(slice_range(5, Some(-2), None), 3..5);
    assert_eq!(slice_range(5, Some(1), Some(-1)), 1..4);
    assert_eq!(slice_range(5, Some(-9), Some(9)), 0..5);
}

#[test]
fn law_an_index_gives_the_element_of_a_slice() {
    assert_eq!(query("[1]", "[4,5,6]"), "[5]");
    assert_eq!(query("[1:2]", "[4,5,6]"), "[5]");
    assert_eq!(query("[3]", "[4,5,6]"), "[null]");
    assert_eq!(query("[3:4]", "[4,5,6]"), "[]");
    assert_eq!(query("[-1:]", "[4,5,6]"), "[6]");
    assert_eq!(query("[-1:]", "[]"), "[]");
}

#[test]
fn law_two_slices_make_the_whole() {
    for bound in ["-7", "-1", "0", "2", "9"] {
        let left = run(&format!("[:{bound}]"), "[1,2,3]").unwrap();
        let right = run(&format!("[{bound}:]"), "[1,2,3]").unwrap();
        let mut all = left;
        all.extend(right);
        assert_eq!(print(&JsonValue::Array(all)), "[1,2,3]", "bound {bound}");
    }
}

#[test]
fn law_the_whole_slice_gives_every_element() {
    let text = r#"{"h":[{"n":[1,2]},{"n":3}]}"#;
    for (slice, every) in [("h[:]", "h[]"), ("h[:].n", "h[].n"), ("*[:].n[0:0]", "*[].n[0:0]")] {
        assert_eq!(run(slice, text), run(every, text));
    }
    assert_eq!(query("h[:].n", text), "[1,2,3]");
}

#[test]
fn law_steps_on_null() {
    assert_eq!(query("a", "null"), "[null]");
    assert_eq!(query("[0]", "null"), "[null]");
    assert_eq!(query("[]", "null"), "[]");
    assert_eq!(query("[1:]", "null"), "[]");
    assert_eq!(query("**.a", "null"), "[]");
    for q in ["*", "*^", "/a/", "/a/^", "a^", "*^.a"] {
        assert_eq!(run(q, "null"), Err(ExecError::NotAnObject), "query {q:?}");
    }
}

#[test]
fn law_stripping_twice_is_stripping_once() {
    let mut value = json(r#"[{"a":null,"b":[null,{"c":null,"d":{"e":null}}]},null]"#);
    remove_null_keys(&mut value);
    let once = value.clone();
    assert_eq!(print(&once), r#"[{"b":[null,{"d":{}}]},null]"#);
    remove_null_keys(&mut value);
    assert_eq!(value, once);
}

#[test]
fn law_other_keys_stay_in_order() {
    let mut value = json(r#"{"z":1,"y":null,"x":2,"w":{"v":null}}"#);
    remove_null_keys(&mut value);
    assert_eq!(print(&value), r#"{"z":1,"x":2,"w":{}}"#);
}

#[test]
fn law_chunks_make_up_the_query() {
    for q in ["a[0].b", "/x.y/^[1:].{a.b,c}", "[][0]", "a..b", "a.", ""] {
        let chunks = split_chunks(q).unwrap();
        let mut glued = chunks[0].to_owned();
        for chunk in &chunks[1..] {
            if !chunk.starts_with('[') {
                glued.push('.');
            }
            glued.push_str(chunk);
        }
        assert_eq!(glued, q);
    }
}

#[test]
fn law_a_dot_joins_queries() {
    for (left, right) in [("a", "b"), ("a[0]", "*"), ("/x.y/", "{b}.c"), ("**.a", "b^")] {
        let mut joined = parse(left).unwrap();
        joined.extend(parse(right).unwrap());
        assert_eq!(parse(&format!("{left}.{right}")), Ok(joined));
    }
    // A keys step takes the steps behind it.
    assert_eq!(
        parse("x.a^.b"),
        Ok(vec![
            prop("x"),
            Op::PropertyMap(Pattern::Contains("a".to_owned()), vec![prop("b")])
        ])
    );
    assert_eq!(
        parse("**.*^.a.b"),
        Ok(vec![Op::Descend(Box::new(Op::PropertyMap(
            Pattern::Any,
            vec![prop("a"), prop("b")]
        )))])
    );
    assert_eq!(
        parse("x.**^.a[0]"),
        Ok(vec![
            prop("x"),
            Op::DescendPaths(vec![prop("a"), Op::ArrayIndex(0)])
        ])
    );
    assert!(parse("**^.{a}").is_ok() && parse("**^.{a}.b").is_err());
}

#[test]
fn law_prune_and_descend_take_the_steps_behind_them() {
    let steps = parse("a.**.b").unwrap();
    assert_eq!(parse("**^.a.**.b"), Ok(vec![Op::DescendPaths(steps)]));
    assert_eq!(
        parse("**.a^.b"),
        Ok(vec![Op::Descend(Box::new(Op::PropertyMap(
            Pattern::Contains("a".to_owned()),
            vec![prop("b")]
        )))])
    );
    assert!(parse("**^.*.x").is_ok());
    assert!(parse("**^.[0]").is_err());
}

#[test]
fn law_array_steps_follow_without_a_dot() {
    assert_eq!(
        parse("a[7][-3:]"),
        Ok(vec![
            prop("a"),
            Op::ArrayIndex(7),
            Op::ArraySlice {
                start: Some(-3),
                stop: None
            }
        ])
    );
    assert!(parse("a.[7]").is_err());
    assert_eq!(
        parse("a^[7]"),
        Ok(vec![Op::PropertyMap(
            Pattern::Contains("a".to_owned()),
            vec![Op::ArrayIndex(7)]
        )])
    );
}

#[test]
fn law_numbers_must_fit() {
    let largest = isize::MAX;
    let smallest = isize::MIN;
    assert_eq!(
        parse(&format!("[{smallest}:{largest}]")),
        Ok(vec![Op::ArraySlice {
            start: Some(smallest),
            stop: Some(largest)
        }])
    );
    assert!(parse(&format!("[:{}0]", isize::MAX)).is_err());
    assert!(parse("[:9223372036854775808]").is_err());
    assert!(parse("[-9223372036854775809:]").is_err());
    assert_eq!(
        parse(&format!("[{}]", usize::MAX)),
        Ok(vec![Op::ArrayIndex(usize::MAX)])
    );
    assert_eq!(parse("[007]"), Ok(vec![Op::ArrayIndex(7)]));
}

#[test]
fn law_braces_are_a_path_to_each_entry() {
    for (braces, paths) in [
        ("{a.{b,c}}", "{a.b,a.c}"),
        ("{a.{b.{c,d[0]},e}}", "{a.b.{c,d[0]},a.e}"),
        ("{a.{b}}", "{a.b}"),
        ("{x,a.{b,c},y[0]}", "{x,a.b,a.c,y[0]}"),
        ("{a[0].b[1:].{c,d.e}}", "{a[0].b[1:].c,a[0].b[1:].d.e}"),
        ("{p.q.{r},s.{t,u}}", "{p.q.r,s.t,s.u}"),
    ] {
        assert!(parse(braces).is_ok());
        assert_eq!(parse(braces), parse(paths));
    }
    assert_eq!(split_top_level_commas("b.{c,d},e"), vec!["b.{c,d}", "e"]);
    assert_eq!(split_top_level_commas(""), vec![""]);
    assert_eq!(split_top_level_commas("},a"), vec!["}", "a"]);
}

#[test]
fn law_names_match_like_their_regexes() {
    for name in ["im", "T", "-", "a_b"] {
        let contains = match parse_chunk(&format!("{name}^")) {
            Ok(Op::PropertyKeys(pattern)) => pattern,
            other => panic!("{other:?}"),
        };
        let regex = match parse_chunk(&format!("/{name}/^")) {
            Ok(Op::PropertyKeys(pattern)) => pattern,
            other => panic!("{other:?}"),
        };
        assert_ne!(contains, regex);
        for key in ["Tim", "im", "Tom", "", "a-b", "xa_by", "é"] {
            assert_eq!(contains.is_match(key), regex.is_match(key), "{name} {key}");
        }
    }
}

#[test]
fn texts_are_compared_by_their_characters() {
    let contains = |name: &str, key: &str| Pattern::Contains(name.to_owned()).is_match(key);
    assert!(contains("", "") && contains("", "é") && contains("é", "xéy") && contains("ab", "aab"));
    assert!(contains("aab", "aaab") && contains("xy", "xy"));
    assert!(!contains("a", "") && !contains("ab", "a") && !contains("ba", "ab"));
    assert!(!contains("e", "é") && !contains("É", "é"));
    assert_eq!(json(r#"{"é":1,"e":2}"#), json(r#"{"e":2,"é":1}"#));
    assert_eq!(query("e", r#"{"é":1,"ee":2,"e":3,"":4}"#), "[3]");
    assert_ne!(json(r#""é""#), json(r#""è""#));
}

#[test]
fn patterns_keep_what_they_match_when_copied() {
    let pattern = Pattern::Regex(Regex::new("^a+$").unwrap());
    let copy = pattern.clone();
    assert_eq!(copy, pattern);
    assert!(copy.is_match("aa") && !copy.is_match("ab"));
    let contains = Pattern::Contains("b".to_owned());
    assert_eq!(contains.clone(), contains);
    assert_ne!(contains, Pattern::Contains("c".to_owned()));
    assert_eq!(Pattern::Any.clone(), Pattern::Any);
    let ops = parse("**.{a,b[0]}.*^.**^./x/[1:].c").unwrap();
    assert_eq!(ops.clone(), ops);
}

#[test]
fn objects_keep_the_order_of_their_keys() {
    let mut object = Object::new();
    assert!(object.is_empty());
    object.insert("b".to_owned(), json("1"));
    object.insert("a".to_owned(), json("2"));
    object.insert("b".to_owned(), json("3"));
    assert_eq!(print(&JsonValue::Object(object.clone())), r#"{"b":3,"a":2}"#);
    assert_eq!(object.get("a"), Some(&json("2")));
    assert_eq!(object.get("c"), None);
    let mut more = Object::new();
    more.insert("c".to_owned(), json("4"));
    more.insert("a".to_owned(), json("5"));
    object.extend(more);
    assert_eq!(print(&JsonValue::Object(object.clone())), r#"{"b":3,"a":5,"c":4}"#);
    assert_eq!(object.remove("b"), Some(json("3")));
    assert_eq!(object.remove("b"), None);
    assert_eq!(object.get("a"), Some(&json("5")));
    assert_eq!(object.into_entries().len(), 2);
    let object = Object::from_distinct(vec![("x".to_owned(), JsonValue::Null)]);
    assert_eq!(print(&JsonValue::Object(object)), r#"{"x":null}"#);
}

#[test]
fn law_order_makes_no_difference_to_equality() {
    assert_eq!(json(r#"{"a":1,"b":[2]}"#), json(r#"{"b":[2],"a":1}"#));
    assert_eq!(json(r#"[{"x":{"a":1,"b":2}}]"#), json(r#"[{"x":{"b":2,"a":1}}]"#));
    for (left, right) in [
        (r#"{"a":1}"#, r#"{"a":2}"#),
        (r#"{"a":1}"#, r#"{"b":1}"#),
        (r#"{"a":1}"#, r#"{"a":1,"b":2}"#),
        ("[1,2]", "[2,1]"),
        ("[1]", "[1,1]"),
        ("null", "false"),
        (r#""a""#, r#""b""#),
        ("1", "1.0"),
        ("true", "false"),
    ] {
        assert_ne!(json(left), json(right));
    }
    assert_eq!(json("0.0"), json("-0.0"));
    let mut left = Object::new();
    left.insert("p".to_owned(), json("1"));
    let mut right = left.clone();
    assert_eq!(left, right);
    right.insert("p".to_owned(), json("2"));
    assert_ne!(left, right);
}

#[test]
fn law_a_step_needs_only_what_it_reads() {
    let text = r#"{"x":{"keep":1,"drop":"s"},"y":[{"keep":[2]}]}"#;
    assert_eq!(query("**.keep", text), "[1,2]");
    assert_eq!(query("**.kee^", text), r#"["keep","keep"]"#);
    // What is not read makes no errors, and what is read makes them.
    assert_eq!(query("**.kee^.z", r#"{"keep":{"z":1},"drop":2}"#), r#"[{"keep":1}]"#);
    assert_eq!(
        run("**.kee^.z", r#"{"keep":2,"drop":{"z":1}}"#),
        Err(ExecError::NotAnObject)
    );
}

#[test]
fn law_nesting_twice_is_nesting_once() {
    let steps = parse("a.*^.b.c^.d").unwrap();
    assert_eq!(
        steps,
        vec![
            prop("a"),
            Op::PropertyMap(
                Pattern::Any,
                vec![
                    prop("b"),
                    Op::PropertyMap(Pattern::Contains("c".to_owned()), vec![prop("d")])
                ]
            )
        ]
    );
}

#[test]
fn law_the_regex_for_anything_matches_every_key() {
    let pattern = parse_regex(".*").unwrap();
    for key in ["", "a", "\n", "é.ü", "a\nb"] {
        assert!(pattern.is_match(key), "key {key:?}");
    }
    let text = "{\"\":1,\"a\\nb\":2}";
    assert_eq!(query("/.*/", text), query("*", text));
    assert_eq!(query("/.*/^", text), query("*^", text));
    assert!(parse_regex("(").is_err());
    assert!(parse_regex("a+").unwrap().is_match("baab"));
    assert!(!parse_regex("^a+$").unwrap().is_match("baab"));
}

#[test]
fn numbers_are_carried_through() {
    let text = r#"{"a":-1.5,"b":18446744073709551615}"#;
    let document = json(text);
    assert_eq!(document.clone(), document);
    assert_eq!(query("{b,a}", text), r#"[{"b":18446744073709551615,"a":-1.5}]"#);
    assert_eq!(query("**^.a", r#"{"x":{"a":0.25}}"#), r#"[{"x":{"a":0.25}}]"#);
}

#[test]
fn digits_and_characters() {
    assert_eq!(decimal_text(0), "0");
    assert_eq!(decimal_text(907), "907");
    assert_eq!(decimal_text(usize::MAX), format!("{}", usize::MAX));
    assert_eq!(characters("aé{"), vec!['a', 'é', '{']);
}

#[test]
fn answers_are_shaped_for_printing() {
    let ops = parse("*.n").unwrap();
    let document = || json(r#"{"a":{"n":{"x":null}},"b":{}}"#);
    assert_eq!(answer(&ops, document(), false), Ok(json("{}")));
    assert_eq!(answer(&ops, document(), true), Ok(json(r#"{"x":null}"#)));
    assert_eq!(collect(&ops, vec![]), json("[]"));
    assert_eq!(answer(&ops, json("3"), true), Err(ExecError::NotAnObject));
}
