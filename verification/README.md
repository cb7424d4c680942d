# histoire

`histoire` runs recursive `git blame` over the lines a branch changed (or over
one `path:line` target) and writes the resulting lineage graph to SQLite.

The crate is verified with Verus.

- `src/` is the library, every function proved against its contract:
  - `cli` — parsing `path:line` / `path:start-end` targets;
  - `dates` — calendar dates, the cutoff dates, commit time stamps;
  - `db` — the rows of the database and its schema;
  - `git_ops` — what the library makes of repository data: commit metadata,
    diff deltas and hunks (with their added-line ranges), clipped blame spans;
  - `scan` — the walk: `scan::plan` holds its pure decisions, and
    `scan::scanner::Scanner` is a state machine that says which commit, diff
    or blame run it needs next, takes it, and produces every row;
  - `skill` — the SKILL.md document;
  - `text` — numerals, UTF-8 and string building.
- `app/` is the program around it: command-line parsing, reading the
  repository with `git2`, answering the scanner, and writing SQLite with
  `rusqlite`.
- `tests/` exercises the library on concrete values.
