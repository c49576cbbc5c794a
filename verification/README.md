# yaml_config_doctor

A dependency-free library that parses the subset of YAML that configuration
files use (block and flow mappings and sequences, scalars, comments), lints
the source text (duplicate keys, tabs, trailing whitespace, long lines),
renders the diagnostics for a person or as JSON, and checks a parsed tree
against a schema. The library is verified with Verus; two small wrappers,
around `String::push` and the `Debug` text of a `char`, are trusted.

## Layout

- `src/text.rs`: characters, whitespace, line splitting (as `str::lines`),
  decimal rendering.
- `src/scalar.rs`: comments, `key: value` splitting, quoting, and the typing
  of plain scalars (bool, null, `i64`, float text, string).
- `src/flow.rs`: the flow-collection parser (`{...}`, `[...]`) and its
  specification.
- `src/parser.rs`: the value tree, diagnostics, and the block parser with
  its specification `parse_spec`.
- `src/mapping.rs`: a block mapping's entries are its lines at its
  indentation, in order, with one warning per repeated key.
- `src/dups.rs`: the parser warns of exactly the keys that occur twice in
  one mapping of the tree it returns.
- `src/lint.rs`, `src/sort.rs`, `src/lib.rs`: text-level checks, the stable
  ordering of diagnostics by line, and `load`.
- `src/report.rs`: human and JSON output; a JSON string literal reads back
  as the text it was written from.
- `src/schema.rs`: schema validation with `$`-rooted paths.
- `app/lib.rs`: `Display`/`Error` impls and an `f64` view of values, which
  the verified crate cannot hold. A float stays in the library as the text
  it was parsed from.
