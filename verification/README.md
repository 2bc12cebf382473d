# rusty_database

A small relational database: a SQL executor over a pluggable storage
engine, an in-memory table store, and a B-tree of integer keys, verified
with Verus.

## Layout

- `src/text.rs`: decimal rendering and parsing of integers, string building.
- `src/bplus_tree.rs`: the B-tree of non-negative `i32` keys; its view is
  the set of keys, and its layout (the keys of each node) is what
  `print_tree` prints and what each insertion changes.
- `src/storage_engine_interface.rs`: values, rows, schemas, conditions and
  the `StorageEngine` trait, whose operations are described by model
  functions over the engine's tables.
- `src/storage.rs`: `SimpleStorageEngine`, the in-memory engine, with the
  laws that relate its operations.
- `src/error.rs`, `src/formatter.rs`: execution errors and the text of
  result tables.
- `src/sql_ast.rs`, `src/sql_parser.rs`: the part of a parsed statement
  that the executor reads, and the bridge to `sqlparser`, which is handed
  only texts within a nesting budget (it recurses without a limit of its
  own) and without the keywords `GRANTED BY` (after which it may panic).
- `src/handler.rs`: execution of single statements.
- `src/script.rs`: splitting a script into statements and running them.
- `app/`: the command-line program, which runs a script file against the
  tables kept in `data.json`.
