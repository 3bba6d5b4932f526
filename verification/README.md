# dq-core

A verified library for documents in JSON, YAML, TOML, JSON Lines, HCL, INI,
`.env`, CSV, TSV, Dockerfile, ignore lists, Markdown, frontmatter and XML: a
common value tree, JSON Pointer, and edits that change a value in its source
without touching the bytes around it.

The library is written in [Verus](https://github.com/verus-lang/verus): every
function states what it returns for which inputs, and the statements are
proved.

## Layout

- `src/value.rs`, `src/pointer.rs`, `src/resolve.rs`, `src/tree_edit.rs`: the
  value tree, pointers into it, and changes to it.
- `src/document.rs`, `src/spans.rs`, `src/ir.rs`, `src/edit_ops.rs`: documents
  with their source, where values stand in it, and edits.
- `src/parsers/`: one module for each format, with the modules that read and
  write for it. Modules named after nodes, events, records or lines hold the
  calls into other crates.
- `src/*_laws.rs`: what holds of several functions together.
- `src/parsers/*_spelling.rs`, `src/parsers/xml_round_trip.rs`,
  `src/parsers/xml_collected.rs`: which values a format writes so that reading
  gives them back, and the proofs.
- `app/`: ordinary Rust around the library: atomic file replacement, `serde`
  forms, and warnings.
- `tests/`: scenarios.

Setting a value replaces what stands in the source. A key that is missing is not
put in: the answer is `MissingKey`, and the document stays as it was, as after
every edit that is refused. The same answer is given where a YAML alias stands.

Objects keep their entries in a vector of their own, `ValueMap`, in the order of
insertion: a value tree is a recursive type, and Verus takes no recursion through
the type of another crate's map. Each of its operations is stated by a short
spec function and proved. Where entries are not trees, as in the span and
provenance maps, the map is an `IndexMap`.

Floating-point numbers are held by the text that Rust prints for them, so that
the library needs no floating-point arithmetic.
