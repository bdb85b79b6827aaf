//! Parsing queries.

use jt::parser::{
    parse, parse_chunk, split_chunks, Op, ParseError, Pattern, PickEntry,
};
use regex::Regex;

fn prop(name: &str) -> Op {
    Op::Property(name.to_string())
}

fn re(pattern: &str) -> Op {
    Op::PropertyValues(Pattern::Regex(Regex::new(pattern).unwrap()))
}

#[test]
fn parse_single_property() {
    assert_eq!(parse("Tim"), Ok(vec![prop("Tim")]));
}

#[test]
fn parse_nested_properties() {
    assert_eq!(parse("Tim.age"), Ok(vec![prop("Tim"), prop("age")]));
}

#[test]
fn parse_wildcard() {
    assert_eq!(parse("*"), Ok(vec![Op::PropertyValues(Pattern::Any)]));
}

#[test]
fn parse_wildcard_then_property() {
    assert_eq!(
        parse("*.age"),
        Ok(vec![Op::PropertyValues(Pattern::Any), prop("age")])
    );
}

#[test]
fn parse_rejects_leading_dot() {
    for q in [
        ".", "..", ".Tim", ".Tim.age", ".[0]", ".*", ".*^", "./a/", ".{a}",
    ] {
        assert!(parse(q).is_err(), "expected error for {q:?}");
    }
}

#[test]
fn parse_property_with_underscore_and_hyphen() {
    assert_eq!(
        parse("first_name.last-name"),
        Ok(vec![prop("first_name"), prop("last-name")])
    );
}

#[test]
fn parse_empty_query_yields_no_ops() {
    assert_eq!(parse(""), Ok(vec![]));
}

#[test]
fn parse_chunk_wildcard() {
    assert_eq!(parse_chunk("*"), Ok(Op::PropertyValues(Pattern::Any)));
}

#[test]
fn parse_selectors() {
    let regex = |s| Pattern::Regex(Regex::new(s).unwrap());
    assert_eq!(parse("*^"), Ok(vec![Op::PropertyKeys(Pattern::Any)]));
    assert_eq!(parse("/a/"), Ok(vec![Op::PropertyValues(regex("a"))]));
    assert_eq!(parse("/a/^"), Ok(vec![Op::PropertyKeys(regex("a"))]));
    assert_eq!(parse("/a^/"), Ok(vec![Op::PropertyValues(regex("a^"))]));
    assert_eq!(parse("//^"), Ok(vec![Op::PropertyKeys(regex(""))]));
    let contains = |s: &str| Pattern::Contains(s.to_owned());
    assert_eq!(parse("Tim^"), Ok(vec![Op::PropertyKeys(contains("Tim"))]));
    assert_eq!(
        parse("a.first_name-x^.age"),
        Ok(vec![
            prop("a"),
            Op::PropertyMap(contains("first_name-x"), vec![prop("age")])
        ])
    );
}

#[test]
fn pattern_contains_matches_like_regex_of_name() {
    let contains = Pattern::Contains("im".to_owned());
    let regex = Pattern::Regex(Regex::new("im").unwrap());
    for key in ["Tim", "im", "Timothy", "Tom", "", "IM", "i-m"] {
        assert_eq!(contains.is_match(key), regex.is_match(key), "key {key:?}");
    }
}

#[test]
fn pattern_any_matches_every_key() {
    for key in ["", "a", "é", "a.b"] {
        assert!(Pattern::Any.is_match(key), "key {key:?}");
    }
    assert_ne!(Pattern::Any, Pattern::Regex(Regex::new("").unwrap()));
    assert_ne!(Pattern::Any, Pattern::Contains(String::new()));
}

#[test]
fn parse_chunk_property() {
    assert_eq!(parse_chunk("age"), Ok(prop("age")));
}

#[test]
fn parse_chunk_rejects_invalid() {
    for chunk in ["", "1", "a1", "a b", "**", "age^^", "^age", "a1^"] {
        assert!(parse_chunk(chunk).is_err(), "expected error for {chunk:?}");
    }
}

#[test]
fn parse_rejects_invalid_chunk() {
    assert!(parse("foo.$$.bar").is_err());
    assert!(parse("foo..bar").is_err());
}

#[test]
fn parse_slice() {
    assert_eq!(
        parse("[1:-2]"),
        Ok(vec![Op::ArraySlice {
            start: Some(1),
            stop: Some(-2)
        }])
    );
    assert_eq!(
        parse("[:]"),
        Ok(vec![Op::ArraySlice {
            start: None,
            stop: None
        }])
    );
}

#[test]
fn parse_slice_rejects_invalid() {
    for q in ["[::2]", "[1:2:1]", "[1:2:3:4]", "[a:b]", "[1-:2]"] {
        assert!(parse(q).is_err(), "expected error for {q:?}");
    }
}

#[test]
fn parse_regex() {
    assert_eq!(parse("/^a/"), Ok(vec![re("^a")]));
    assert_eq!(parse("/^a/.b"), Ok(vec![re("^a"), prop("b")]));
    assert_eq!(parse("x.//"), Ok(vec![prop("x"), re("")]));
}

#[test]
fn parse_regex_keeps_dots_and_escaped_slashes() {
    assert_eq!(parse("/a.b/.c"), Ok(vec![re("a.b"), prop("c")]));
    assert_eq!(parse(r"/a\/b/"), Ok(vec![re(r"a\/b")]));
    assert_eq!(parse(r"/a\\/.b"), Ok(vec![re(r"a\\"), prop("b")]));
}

#[test]
fn parse_regex_rejects_invalid() {
    for q in ["/abc", "/a/b", "/a/b/", "a/b/", "/(/", r"/a\/"] {
        assert!(parse(q).is_err(), "expected error for {q:?}");
    }
}

#[test]
fn split_chunks_on_dots() {
    assert_eq!(split_chunks("a.b.c"), Ok(vec!["a", "b", "c"]));
    assert_eq!(split_chunks("a"), Ok(vec!["a"]));
    assert_eq!(split_chunks("a..b"), Ok(vec!["a", "", "b"]));
}

#[test]
fn split_chunks_keeps_regex_whole() {
    assert_eq!(split_chunks("a./x.y/.b"), Ok(vec!["a", "/x.y/", "b"]));
    assert_eq!(split_chunks(r"/x\/.y/"), Ok(vec![r"/x\/.y/"]));
    assert_eq!(split_chunks(r"/x\./"), Ok(vec![r"/x\./"]));
}

#[test]
fn split_chunks_slash_mid_chunk_is_not_a_regex() {
    // Only a `/` at the start of a chunk opens a regex.
    assert_eq!(split_chunks("a/b.c"), Ok(vec!["a/b", "c"]));
}

#[test]
fn split_chunks_on_brackets() {
    assert_eq!(split_chunks("a[0]"), Ok(vec!["a", "[0]"]));
    assert_eq!(
        split_chunks("a[0][1:].b"),
        Ok(vec!["a", "[0]", "[1:]", "b"])
    );
    assert_eq!(split_chunks("[][0]"), Ok(vec!["[]", "[0]"]));
    assert_eq!(split_chunks("/a/[0]"), Ok(vec!["/a/", "[0]"]));
    assert_eq!(split_chunks("/a/^[0]"), Ok(vec!["/a/^", "[0]"]));
    // Inside a regex, `[` is a character class.
    assert_eq!(split_chunks("/[ab]/"), Ok(vec!["/[ab]/"]));
}

#[test]
fn parse_array_steps_without_dot() {
    assert_eq!(parse("a[0]"), Ok(vec![prop("a"), Op::ArrayIndex(0)]));
    assert_eq!(parse("a[].b"), Ok(vec![prop("a"), Op::Array, prop("b")]));
    assert_eq!(parse("[0]"), Ok(vec![Op::ArrayIndex(0)]));
    for q in ["a[", "a[0", "a[0]b", "a[x]", "a..[0]"] {
        assert!(parse(q).is_err(), "expected error for {q:?}");
    }
}

#[test]
fn split_chunks_rejects_dot_before_bracket() {
    for q in ["a.[0]", "a.[]", "a[0].[1]", "/a/.[0]", "*^.[0]"] {
        assert!(split_chunks(q).is_err(), "expected error for {q:?}");
    }
}

#[test]
fn split_chunks_handles_non_ascii() {
    assert_eq!(split_chunks("/é.ü/.ñ"), Ok(vec!["/é.ü/", "ñ"]));
}

#[test]
fn split_chunks_rejects_unterminated_or_trailing_regex() {
    for q in ["/", "/a", r"/a\/", "a./b", "/a/b", "/a//"] {
        assert!(split_chunks(q).is_err(), "expected error for {q:?}");
    }
}

#[test]
fn parse_array_ops() {
    assert_eq!(parse("[]"), Ok(vec![Op::Array]));
    assert_eq!(parse("[0]"), Ok(vec![Op::ArrayIndex(0)]));
    assert_eq!(
        parse("a[12].b"),
        Ok(vec![prop("a"), Op::ArrayIndex(12), prop("b")])
    );
}

#[test]
fn parse_array_index_rejects_invalid() {
    for q in [
        "[-1]",
        "[a]",
        "[1",
        "1]",
        "[ 1]",
        "[99999999999999999999999]",
    ] {
        assert!(parse(q).is_err(), "expected error for {q:?}");
    }
}

#[test]
fn pattern_equality_compares_source() {
    let p = |s| Pattern::Regex(Regex::new(s).unwrap());
    assert_eq!(p("^a+$"), p("^a+$"));
    assert_ne!(p("a"), p("b"));
    // Equivalent regexes with different source are not equal.
    assert_ne!(p("a+"), p("aa*"));
}

#[test]
fn parse_pick() {
    let props = |names: &[&str]| pick(names.iter().map(|n| (*n, *n, vec![])).collect());
    assert_eq!(parse("a.{b,c}"), Ok(vec![prop("a"), props(&["b", "c"])]));
    assert_eq!(parse("{b}"), Ok(vec![props(&["b"])]));
    assert_eq!(
        parse("{first_name,last-name}.x"),
        Ok(vec![props(&["first_name", "last-name"]), prop("x")])
    );
}

/// A pick of `(key, name, steps)` entries.
fn pick(entries: Vec<(&str, &str, Vec<Op>)>) -> Op {
    Op::PropertyPick(
        entries
            .into_iter()
            .map(|(key, name, steps)| PickEntry {
                key: key.to_string(),
                name: name.to_string(),
                steps,
            })
            .collect(),
    )
}

#[test]
fn parse_pick_paths_are_keyed_by_last_name() {
    assert_eq!(
        parse("{age,hobbies[0]}"),
        Ok(vec![pick(vec![
            ("age", "age", vec![]),
            ("hobbies", "hobbies", vec![Op::ArrayIndex(0)])
        ])])
    );
    assert_eq!(
        parse("a.{age,last.name}.b"),
        Ok(vec![
            prop("a"),
            pick(vec![
                ("age", "age", vec![]),
                ("name", "last", vec![prop("name")])
            ]),
            prop("b")
        ])
    );
    assert_eq!(
        parse("{f[0].n[]}"),
        Ok(vec![pick(vec![(
            "n",
            "f",
            vec![Op::ArrayIndex(0), prop("n"), Op::Array]
        )])])
    );
    assert_eq!(
        parse("{a.b.c}"),
        Ok(vec![pick(vec![("c", "a", vec![prop("b"), prop("c")])])])
    );
}

#[test]
fn parse_pick_paths_ending_in_braces() {
    assert_eq!(parse("{a.{b,c}}"), parse("{a.b,a.c}"));
    assert_eq!(parse("{a.{b,c.d},x,a.c.{e}}"), parse("{a.b,a.c.d,x,a.c.e}"));
    assert_eq!(
        parse("{a[1:].{b}}"),
        Ok(vec![pick(vec![(
            "b",
            "a",
            vec![
                Op::ArraySlice {
                    start: Some(1),
                    stop: None
                },
                prop("b")
            ]
        )])])
    );
}

#[test]
fn parse_pick_allows_shared_names_with_different_keys() {
    for q in ["{a.b,a}", "{a,a.b}", "{a[0],a.b}", "{a.b,a.c}"] {
        assert!(parse(q).is_ok(), "expected ok for {q:?}");
    }
}

#[test]
fn parse_pick_rejects_invalid_paths() {
    for q in [
        "{a.b,a.b}",
        "{a[0],a[1]}",
        "{a.b,c.b}",
        "{b,a.b}",
        "{a.{b,c},c}",
        "{[0]}",
        "{a.[0]}",
        "{a.*}",
        "{a.^}",
        "{a./b/}",
        "{a.{b}.c}",
        "{a.{b}[0]}",
        "{a..b}",
        "{a.}",
        "{.a}",
        "{a.{b}",
        "{a}}",
    ] {
        assert!(parse(q).is_err(), "expected error for {q:?}");
    }
}

#[test]
fn split_chunks_keeps_braces_whole() {
    assert_eq!(
        split_chunks("a.{b.c,d[0]}.e"),
        Ok(vec!["a", "{b.c,d[0]}", "e"])
    );
    assert_eq!(split_chunks("{a.{b.c}}[0]"), Ok(vec!["{a.{b.c}}", "[0]"]));
}

#[test]
fn parse_pick_rejects_invalid() {
    for q in [
        "{}", "{a,}", "{,a}", "{a b}", "{a, b}", "{a,a}", "{a", "a}", "{a}b", "{1}",
    ] {
        assert!(parse(q).is_err(), "expected error for {q:?}");
    }
}

#[test]
fn parse_keys() {
    assert_eq!(parse("*^"), Ok(vec![Op::PropertyKeys(Pattern::Any)]));
    for q in ["^", "a.^", "^.a", "*.^", "*^^", "^*"] {
        assert!(parse(q).is_err(), "expected error for {q:?}");
    }
    assert_eq!(
        parse("a.*^"),
        Ok(vec![prop("a"), Op::PropertyKeys(Pattern::Any)])
    );
    assert!(parse("^^").is_err());
}

#[test]
fn parse_steps_after_keys_nest_in_a_property_map() {
    assert_eq!(
        parse("*^.a"),
        Ok(vec![Op::PropertyMap(Pattern::Any, vec![prop("a")])])
    );
    assert_eq!(
        parse("*.*^.a[]"),
        Ok(vec![
            Op::PropertyValues(Pattern::Any),
            Op::PropertyMap(Pattern::Any, vec![prop("a"), Op::Array])
        ])
    );
}

#[test]
fn parse_nested_keys() {
    assert_eq!(
        parse("*^.*^"),
        Ok(vec![Op::PropertyMap(
            Pattern::Any,
            vec![Op::PropertyKeys(Pattern::Any)]
        )])
    );
    assert_eq!(
        parse("*^.a.*^.b"),
        Ok(vec![Op::PropertyMap(
            Pattern::Any,
            vec![prop("a"), Op::PropertyMap(Pattern::Any, vec![prop("b")])]
        )])
    );
}

#[test]
fn parse_regex_keys() {
    let keys = |pattern: &str| Op::PropertyKeys(Pattern::Regex(Regex::new(pattern).unwrap()));
    assert_eq!(parse("/T.*/^"), Ok(vec![keys("T.*")]));
    assert_eq!(parse("a./x\\//^"), Ok(vec![prop("a"), keys(r"x\/")]));
    assert_eq!(
        parse("/T.*/^.name"),
        Ok(vec![Op::PropertyMap(
            Pattern::Regex(Regex::new("T.*").unwrap()),
            vec![prop("name")]
        )])
    );
}

#[test]
fn parse_regex_keys_rejects_invalid() {
    for q in ["/a/^^", "/a/^b", "/a/^/", "/(/^", "/^"] {
        assert!(parse(q).is_err(), "expected error for {q:?}");
    }
}

#[test]
fn parse_descend() {
    let descend = |op| Op::Descend(Box::new(op));
    assert_eq!(parse("**.a"), Ok(vec![descend(prop("a"))]));
    assert_eq!(
        parse("x.**.a.b"),
        Ok(vec![prop("x"), descend(prop("a")), prop("b")])
    );
    assert_eq!(parse("**./^a/"), Ok(vec![descend(re("^a"))]));
    assert_eq!(
        parse("**.*^"),
        Ok(vec![descend(Op::PropertyKeys(Pattern::Any))])
    );
    assert_eq!(
        parse("**.a^.b"),
        Ok(vec![descend(Op::PropertyMap(
            Pattern::Contains("a".to_owned()),
            vec![prop("b")]
        ))])
    );
    assert_eq!(
        parse("*^.**.a"),
        Ok(vec![Op::PropertyMap(
            Pattern::Any,
            vec![descend(prop("a"))]
        )])
    );
    assert!(
        matches!(&parse("**.{a,b}").unwrap()[..], [Op::Descend(op)] if matches!(**op, Op::PropertyPick(_)))
    );
}

#[test]
fn parse_descend_paths() {
    assert_eq!(parse("**^"), Ok(vec![Op::DescendPaths(vec![])]));
    assert_eq!(
        parse("x.**^.a.b"),
        Ok(vec![
            prop("x"),
            Op::DescendPaths(vec![prop("a"), prop("b")])
        ])
    );
    assert_eq!(
        parse("**^.a^.b"),
        Ok(vec![Op::DescendPaths(vec![Op::PropertyMap(
            Pattern::Contains("a".to_owned()),
            vec![prop("b")]
        )])])
    );
    assert_eq!(
        parse("*^.**^.a"),
        Ok(vec![Op::PropertyMap(
            Pattern::Any,
            vec![Op::DescendPaths(vec![prop("a")])]
        )])
    );
    for q in [
        "**^[0]",
        "**^.[0]",
        "**^.**.a",
        "**^.**^",
        "**^^",
        "{**^.a}",
        "**^.a.$",
        "**^.{a}.a",
        "**^.{a}[0]",
    ] {
        assert!(parse(q).is_err(), "expected error for {q:?}");
    }
}

#[test]
fn parse_descend_rejects_invalid() {
    for q in [
        "**", "a.**", "**.**.a", "**[0]", "**.[0]", "**a", "a**", "***", "{**.a}", "{a.**.b}",
        "**.$",
    ] {
        assert!(parse(q).is_err(), "expected error for {q:?}");
    }
}

#[test]
fn parse_error_display() {
    assert_eq!(ParseError::InvalidQuery.to_string(), "invalid query");
}
