# jt

A small command-line tool for pulling values out of JSON, in the spirit of `jq`, on top of a library
that is verified with [Verus](https://github.com/verus-lang/verus).

```sh
jt [-C|--color] [--keep-nulls] <query> [file]
```

`jt` reads JSON from `file`, or from stdin if no file is given, runs the query, and pretty-prints the
result. A query that gives one result prints it on its own. A query that gives several, or none,
prints them as a JSON array. A query with `[]` or a slice always prints an array. Keys whose values
are `null` are left out, unless `--keep-nulls` is passed.

## Queries

A query is a list of steps separated by `.`, such as `Tim.age`. Each step is applied to every value
produced by the step before it.

| Step | Applies to | Result |
|---|---|---|
| `name` | object | the value of property `name` |
| `{a,b.c}` | object | a new object with only the listed properties |
| `*` | object | every property value |
| `*^` | object | every property key |
| `/regex/` | object | every property value whose key matches `regex` |
| `/regex/^` | object | every property key that matches `regex` |
| `name^` | object | every property key that contains `name` |
| `**.step` | anything | `step` run on every object at any depth |
| `**^.step` | anything | the input pruned down to what `step` finds at any depth |
| `[]` | array | every element |
| `[n]` | array | the element at index `n` |
| `[start:stop]` | array | every element in a range, like a Python slice |

Steps after a keys step (`*^`, `/regex/^` or `name^`) give a new object with those keys. Once a step
has given several results, later steps leave out `null`, and a property that holds an array gives
its elements. An empty query prints the input unchanged.

## Layout

- `src/grammar.rs` says which steps the text of a query stands for, and `src/parser.rs` is proved to
  give just those.
- `src/semantics.rs` says what steps give for a value, and `src/exec.rs` and `src/output.rs` are
  proved to give just that.
- `src/document.rs` goes from JSON text to the value to print.
- `src/op.rs`, `src/value.rs` and `src/text.rs` hold the steps, the JSON values and what is needed of
  text. What is taken on trust of the `regex` crate stands in `src/op.rs`, and what is of the
  `serde_json` crate in `src/value.rs` and `src/document.rs`, each with a contract that says what.
- `src/laws/` holds what follows for every query.
- `app/` reads the command line and the file, and prints the answer.
