# stelegen

Stele compiles one JSON i18n catalog into typed accessor code (TypeScript,
Swift, a locale store, React bindings, or a compiled node package), checks a
catalog across its locales, and exchanges translations as CSV or XLIFF.

This crate is the library, written in Verus: every function states its result
in a contract over mathematical models (`Seq`, `Map`-like association lists,
the `JsonV` model of a JSON tree) and Verus proves the code against it.

## Layout

- `src/text.rs`, `src/assoc.rs`, `src/json.rs` — strings, sorted association
  lists and the JSON tree, with their models.
- `src/placeholder.rs` — `{{name}}` placeholders: extraction and normalization.
- `src/plural.rs` — baked CLDR plural tables, checked against ICU4X.
- `src/model.rs` — locale directories: layout, deep merge, loading.
- `src/ir.rs` — the language-neutral IR and its construction.
- `src/check.rs` — cross-locale validation (`stele check`).
- `src/exchange.rs`, `src/csvio.rs` — export and import of translations.
- `src/emit/` — the TypeScript, Swift, store, React and package emitters.
- `src/config.rs`, `src/commands.rs` — configuration defaults and the
  decisions of each command.
- `src/roundtrip.rs`, `src/import_shape.rs` — laws that span functions: the
  XLIFF round trip, that an import keeps the canonical catalog's shape, and
  the library's part of the CSV round trip (framing and columns; that the
  `csv` crate's reader gives back what its writer wrote is taken as a premise,
  not proved).
- `app/` — the `stele` command line: arguments, files, terminal output, and
  serde copies of the library types.
- `tests/` — tests of the library on concrete values.

Calls into outside crates (ICU4X, heck, csv, regex-syntax) and the few std
functions that Verus does not specify stand behind small trusted wrappers,
each with a doc comment that says what its contract claims.
