# agent_knowledge — project identity core

A code repository carries a small manifest, `.agent-knowledge.toml`, that
names an immutable project id. The project's records live in a directory
named after that id inside a separate memory repository.

This crate is written in Verus. Everything under `src/` is verified, except
two trusted wrappers in `src/text.rs` whose contracts Verus takes on trust:
`push_char` (calls `String::push`) and `str_from_utf8` (calls
`std::str::from_utf8`). The modules:

- `timestamp` — the Gregorian calendar, day numbers since 1970-01-01,
  formatting and validating `YYYY-MM-DDTHH:MM:SSZ`;
- `uuid` — canonical lowercase version-4 UUID text;
- `manifest` — the manifest text format, reading it back line by line, and
  the checks on the manifest file;
- `lifecycle` — `initialize` and `start` as machines that decide each
  filesystem action and take back what the caller found;
- `records` — which entries of a project's directory are records, sorted;
- `identity`, `error`, `text` — the id and project handles, errors, and
  character-level helpers.

`app/` performs the filesystem actions on real paths (`initialize`, `start`,
`search` over `std::fs`). `tests/` runs the scenarios against an in-memory
filesystem.
