# insta — snapshot testing with a verified core

Snapshot tests assert values against stored reference values (snapshots),
kept in `.snap` files next to the tests or inline in the source.  This crate
holds the logic of such a library as Verus-verified Rust: every function in
`src/` carries a `requires`/`ensures` contract over mathematical models
(`Seq`, `Map`, views of the data types), and the laws of the library are
stated and proved as proof functions.

## Layout

- `src/` — the verified library
  - `content/` — the value model (`Content` and its view), JSON and YAML
    rendering, YAML reading (through `yaml-rust`), the ordering used to sort maps, an insertion-ordered map
  - `redaction.rs` — selectors, their parser, and redaction of values
  - `filters.rs` — regex filters and ANSI stripping (through the `regex`
    and `strip-ansi-escapes` crates)
  - `serialization.rs` — sorting, redacting and rendering a value
  - `settings.rs` — the settings of assertions
  - `snapshot.rs` — snapshot contents, inline literals and their reading
  - `snapfile.rs` — the layout of `.snap` files and snapshot metadata
  - `pending.rs` — records of inline snapshots waiting for review
  - `runtime.rs` — naming, file placement, duplicates, the comparison of
    snapshots, and the decision of an assertion (pass, fail, how to update)
  - `diff.rs` — the line diff of two snapshots as it is printed (through
    the `similar` crate)
  - `globbing.rs` — which files a glob assertion runs for (through the
    `globset` crate)
  - `env.rs` — the tool configuration from config file and environment
  - `paths.rs`, `text.rs`, `output.rs`, `tokenstream.rs`, `utils.rs` —
    paths as components, text primitives, printing helpers
- `app/` — ordinary Rust around the library: the assertion macros, file and
  environment access, serde conversion, terminal output, the directory walk
  of globs
- `tests/` — the test suite, run against the compiled library
