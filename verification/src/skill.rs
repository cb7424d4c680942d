//! The SKILL.md document that explains how to query the lineage database.
use vstd::prelude::*;

use crate::db::SCHEMA_SQL;
use crate::text::{chars_of, string_of};

verus! {

/// Raw skill markdown with a `{{SCHEMA_DDL}}` placeholder.
pub const SKILL_TEMPLATE: &'static str = r#"---
name: histoire
description: Use the SQLite database produced by `histoire scan` or `histoire trace` to recover historical context — who wrote the lines changed on a branch, or the full lineage behind a specific file:line target.
---

# histoire

`histoire` is a CLI that runs recursive `git blame` and writes the resulting lineage graph to a SQLite database. It has two seed modes:

- **`scan`** — seed from the diff between `HEAD` and a base ref (default `origin/main`). Use when reviewing a PR or branch.
- **`trace`** — seed from a single `path:line(-end)` target at `HEAD`. Use when investigating one specific region of code.

Both modes share the same recursion machinery and the same database schema.

## Use this skill when

- The user asks you to review the changes on the current branch and you want to know what the new code replaced (`scan`).
- The user points at a specific file and line and asks how it got that way (`trace path:line`).
- The user asks who last touched a line, what the previous version looked like, or why a function evolved a certain way.
- You are generating code in a region with non-trivial history and want to avoid undoing earlier intent (e.g. a fix, a workaround, a deliberate API choice).

## Running it

`histoire` must run inside a Git working tree.

```sh
# scan — seed from the merge_base..HEAD diff.
# Defaults: base = origin/main, db = <git-dir>/histoire.sqlite, depth = 5, since = six months ago.
histoire scan

# Explicit base ref (e.g. on a repo where the default branch is master):
histoire scan origin/master

# Tune depth, since, rename threshold:
histoire scan origin/main --max-depth 8 --since 2024-01-01 --rename-threshold 40

# trace — seed from one path:line target at HEAD.
# Defaults: depth = 20, since = twelve months ago.
histoire trace src/main.rs:300
histoire trace src/main.rs:300-320          # line range
histoire trace src/main.rs:300 --max-depth 40 --since 2023-01-01
```

Each run drops and recreates the database, so it always reflects the most recent invocation. Re-run `histoire scan` / `histoire trace` before you query if anything has changed.

If `scan`'s base ref does not exist (e.g. you ran the default `origin/main` on a `master`-only repo), `histoire` warns and writes an empty scan rather than failing. Re-run with the correct base ref.

## Where the database lives

Default path: `<git-dir>/histoire.sqlite` — usually `.git/histoire.sqlite` in a normal worktree. Override with `histoire scan --db <path>`.

Inspect with the `sqlite3` CLI:

```sh
sqlite3 .git/histoire.sqlite ".schema"
sqlite3 .git/histoire.sqlite "SELECT * FROM scans;"
```

## Conceptual model

- A **scan** records one run: base ref, base SHA, merge base, HEAD, max depth, since-date. (For `trace` runs the `base_ref` column is set to `trace:<path>:<start>-<end>` and the base/merge-base SHAs both equal HEAD.)
- The **seed** is the set of starting line-ranges:
  - `scan` mode: every added line-range in the `merge_base..HEAD` diff.
  - `trace` mode: a single range from the `path:line(-end)` target.
- Each seed becomes a depth-0 `blame_requests` row.
- Processing a request runs `git blame` clipped to its range and produces one or more `blame_spans`, each attributed to a single ancestor `blamed_commit_sha`.
- For each span, `histoire` either terminates (`root_commit`, `older_than_since`, `max_depth`, `introduced_here`, `binary_skipped`) or creates a depth-N+1 request against each parent of the blamed commit. The relationship is recorded in `lineage_edges`.
- `file_events` and `diff_hunks` record every delta discovered while walking, including **rename** and **copy** events detected with aggressive similarity matching (default threshold 50; tune with `--rename-threshold`).

## Schema

```sql
{{SCHEMA_DDL}}
```

## Anchor every query on the latest scan

Histoire keeps only the most recent scan (the DB is dropped per run), but the `scan_id` column is everywhere — anchor queries with:

```sql
WHERE scan_id = (SELECT MAX(id) FROM scans)
```

## Useful queries

### Files touched by the current branch
```sql
SELECT DISTINCT path
FROM seed_ranges
WHERE scan_id = (SELECT MAX(id) FROM scans)
ORDER BY path;
```

### Added line-ranges for a specific file
```sql
SELECT start_line, end_line
FROM seed_ranges
WHERE scan_id = (SELECT MAX(id) FROM scans)
  AND path = :path
ORDER BY start_line;
```

### Authors most responsible for the changed lines
```sql
SELECT c.sha,
       c.author_name,
       c.committed_at,
       SUBSTR(c.message, 1, 80) AS title,
       COUNT(bs.id) AS spans
FROM blame_spans bs
JOIN blame_requests br ON br.id = bs.request_id
JOIN commits c
  ON c.repository_id = bs.repository_id
 AND c.sha = bs.blamed_commit_sha
WHERE br.scan_id = (SELECT MAX(id) FROM scans)
GROUP BY c.sha
ORDER BY spans DESC
LIMIT 20;
```

### Lineage of a specific changed range (walk backward)
```sql
-- 1. Find the seed request covering the range:
SELECT id, commit_sha, start_line, end_line
FROM blame_requests
WHERE scan_id = (SELECT MAX(id) FROM scans)
  AND path = :path
  AND start_line <= :line
  AND end_line  >= :line
  AND reason = 'seed';

-- 2. From that request id, walk lineage_edges:
SELECT le.edge_type,
       bs.blamed_commit_sha,
       bs.final_path,
       bs.final_start_line,
       bs.line_count,
       bs.origin_path,
       bs.origin_start_line,
       le.parent_sha,
       le.parent_position,
       le.next_request_id
FROM lineage_edges le
JOIN blame_spans bs ON bs.id = le.to_span_id
WHERE le.from_request_id = :request_id
ORDER BY bs.final_start_line, le.parent_position;
```

Recurse on `next_request_id` to walk further back through history. Edges where `edge_type != 'recurse_to_parent'` are terminals (history ends or the cutoff was hit).

### Patch text for a specific change
```sql
-- All hunks for the seed of a path:
SELECT dh.id, dh.new_start, dh.new_lines, dh.patch_text
FROM seed_ranges sr
JOIN diff_hunks dh ON dh.id = sr.diff_hunk_id
WHERE sr.scan_id = (SELECT MAX(id) FROM scans)
  AND sr.path = :path
ORDER BY dh.new_start;

-- Patch text for an arbitrary hunk id:
SELECT patch_text FROM diff_hunks WHERE id = :hunk_id;
```

### Renames and copies discovered on the branch
```sql
SELECT commit_sha, parent_sha, event_type, old_path, new_path
FROM file_events
WHERE event_type IN ('renamed', 'copied')
ORDER BY commit_sha;
```

### Commits discovered during the scan (with parent links)
```sql
SELECT c.sha,
       SUBSTR(c.message, 1, 60) AS title,
       c.author_name,
       c.committed_at,
       GROUP_CONCAT(cp.parent_sha, ',') AS parents
FROM commits c
LEFT JOIN commit_parents cp
  ON cp.repository_id = c.repository_id
 AND cp.commit_sha = c.sha
GROUP BY c.sha
ORDER BY c.committed_at DESC;
```

## Tips when reviewing or generating code

- `blame_spans` carry both `final_*` (where the line is now, in the request's commit/path) and `origin_*` (where the line lives at the blamed commit, after walking renames). Use `origin_path` to fetch the file from `git show <blamed_commit_sha>:<origin_path>` if you need full context.
- `lineage_edges.edge_type` distinguishes terminal vs recursive edges. Only `recurse_to_parent` has a non-null `next_request_id`.
- Merge commits produce multiple edges per span (one per parent). Disambiguate with `parent_position`.
- The most useful join for "show me everything about a changed file" is `seed_ranges → blame_requests → blame_spans → lineage_edges → commits`.
- If a scan looks empty or stale (e.g. `seed_ranges` count is 0 but the branch obviously has changes), the base ref probably did not resolve. Re-run with the correct one: `histoire scan origin/<branch>`.
- To tell a `scan` database apart from a `trace` database, look at `scans.base_ref` — `trace` runs prefix it with `trace:` and set `base_sha = merge_base_sha = head_sha`.
"#;

/// The placeholder in [`SKILL_TEMPLATE`] that the schema replaces.
pub const SCHEMA_PLACEHOLDER: &'static str = "{{SCHEMA_DDL}}";

/// Whether `c` has the Unicode `White_Space` property, as
/// `char::is_whitespace` reports.
pub open spec fn is_unicode_whitespace(c: char) -> bool {
    ||| '\u{9}' <= c && c <= '\u{d}'
    ||| c == ' '
    ||| c == '\u{85}'
    ||| c == '\u{a0}'
    ||| c == '\u{1680}'
    ||| '\u{2000}' <= c && c <= '\u{200a}'
    ||| c == '\u{2028}'
    ||| c == '\u{2029}'
    ||| c == '\u{202f}'
    ||| c == '\u{205f}'
    ||| c == '\u{3000}'
}

pub fn is_whitespace(c: char) -> (ws: bool)
    ensures
        ws == is_unicode_whitespace(c),
{
    ('\u{9}' <= c && c <= '\u{d}') || c == ' ' || c == '\u{85}' || c == '\u{a0}' || c
        == '\u{1680}' || ('\u{2000}' <= c && c <= '\u{200a}') || c == '\u{2028}' || c
        == '\u{2029}' || c == '\u{202f}' || c == '\u{205f}' || c == '\u{3000}'
}

/// `s[a..b]` is `s` without its leading and trailing whitespace.
pub open spec fn trim_bounds(s: Seq<char>, a: int, b: int) -> bool {
    &&& 0 <= a <= b <= s.len()
    &&& forall|i: int| 0 <= i < a ==> is_unicode_whitespace(#[trigger] s[i])
    &&& forall|i: int| b <= i < s.len() ==> is_unicode_whitespace(#[trigger] s[i])
    &&& a < s.len() ==> !is_unicode_whitespace(s[a]) && a < b && !is_unicode_whitespace(s[b - 1])
    &&& a == s.len() ==> b == s.len()
}

/// `s` without leading and trailing whitespace, as `str::trim` gives it.
pub open spec fn spec_trim(s: Seq<char>) -> Seq<char> {
    let (a, b) = choose|a: int, b: int| trim_bounds(s, a, b);
    s.subrange(a, b)
}

proof fn lemma_trim_bounds_unique(s: Seq<char>, a: int, b: int)
    requires
        trim_bounds(s, a, b),
    ensures
        spec_trim(s) == s.subrange(a, b),
{
    let (a2, b2) = choose|a2: int, b2: int| trim_bounds(s, a2, b2);
    assert(trim_bounds(s, a2, b2));
    if a2 < a {
        assert(is_unicode_whitespace(s[a2]));
    } else if a < a2 {
        assert(is_unicode_whitespace(s[a]));
    }
    if a < s.len() {
        if b2 < b {
            assert(is_unicode_whitespace(s[b - 1]));
        } else if b < b2 {
            assert(is_unicode_whitespace(s[b2 - 1]));
        }
    }
}

/// Copies `cs` without its leading and trailing whitespace.
pub fn trim_chars(cs: &Vec<char>) -> (out: Vec<char>)
    ensures
        out@ == spec_trim(cs@),
{
    let n = cs.len();
    let mut a: usize = 0;
    while a < n && is_whitespace(cs[a])
        invariant
            a <= n,
            n == cs@.len(),
            forall|i: int| 0 <= i < a ==> is_unicode_whitespace(#[trigger] cs@[i]),
        decreases n - a,
    {
        a = a + 1;
    }
    let mut b: usize = n;
    while b > a && is_whitespace(cs[b - 1])
        invariant
            a <= b <= n,
            n == cs@.len(),
            forall|i: int| b <= i < n ==> is_unicode_whitespace(#[trigger] cs@[i]),
        decreases b,
    {
        b = b - 1;
    }
    proof {
        if a < n {
            assert(!is_unicode_whitespace(cs@[a as int]));
            if b == a {
                assert(is_unicode_whitespace(cs@[a as int]));
            }
        }
        assert(trim_bounds(cs@, a as int, b as int));
        lemma_trim_bounds_unique(cs@, a as int, b as int);
    }
    let mut out: Vec<char> = Vec::new();
    for i in a..b
        invariant
            a <= b <= n,
            n == cs@.len(),
            out@ == cs@.subrange(a as int, i as int),
    {
        out.push(cs[i]);
        assert(cs@.subrange(a as int, i + 1) =~= cs@.subrange(a as int, i as int).push(cs@[i as int]));
    }
    out
}

/// `s` with every occurrence of `pattern` replaced by `replacement`,
/// scanning left to right without overlaps, as `str::replace` does for a
/// pattern that is not empty (an empty pattern leaves `s` as it is here).
pub open spec fn spec_replace(s: Seq<char>, pattern: Seq<char>, replacement: Seq<char>) -> Seq<char>
    decreases s.len(),
{
    if pattern.len() == 0 || s.len() == 0 {
        s
    } else if pattern.len() <= s.len() && s.take(pattern.len() as int) == pattern {
        replacement + spec_replace(s.skip(pattern.len() as int), pattern, replacement)
    } else {
        seq![s[0]] + spec_replace(s.drop_first(), pattern, replacement)
    }
}

/// Whether `pattern` occurs in `s` at position `i`.
fn matches_at(s: &Vec<char>, i: usize, pattern: &Vec<char>) -> (found: bool)
    requires
        i <= s@.len(),
    ensures
        found == (i + pattern@.len() <= s@.len() && s@.subrange(i as int, i + pattern@.len())
            == pattern@),
{
    let n = s.len();
    let m = pattern.len();
    if m > n - i {
        return false;
    }
    for k in 0..m
        invariant
            i + m <= n,
            n == s@.len(),
            m == pattern@.len(),
            forall|j: int| 0 <= j < k ==> s@[i + j] == pattern@[j],
    {
        if s[i + k] != pattern[k] {
            assert(s@.subrange(i as int, i + m)[k as int] != pattern@[k as int]);
            return false;
        }
    }
    assert(s@.subrange(i as int, i + m) =~= pattern@);
    true
}

/// Replaces every occurrence of `pattern` (which is not empty) in `s`.
pub fn replace_chars(s: &Vec<char>, pattern: &Vec<char>, replacement: &Vec<char>) -> (out: Vec<
    char,
>)
    requires
        pattern@.len() > 0,
    ensures
        out@ == spec_replace(s@, pattern@, replacement@),
{
    let n = s.len();
    let m = pattern.len();
    let mut out: Vec<char> = Vec::new();
    let mut i: usize = 0;
    assert(s@.skip(0) =~= s@);
    assert(out@ + spec_replace(s@.skip(0), pattern@, replacement@) =~= spec_replace(s@, pattern@, replacement@));
    while i < n
        invariant
            i <= n,
            n == s@.len(),
            m == pattern@.len(),
            m > 0,
            out@ + spec_replace(s@.skip(i as int), pattern@, replacement@) == spec_replace(
                s@,
                pattern@,
                replacement@,
            ),
        decreases n - i,
    {
        let ghost rest = s@.skip(i as int);
        let ghost before = out@;
        if matches_at(s, i, pattern) {
            proof {
                assert(rest.take(m as int) =~= s@.subrange(i as int, i + m));
                assert(rest.skip(m as int) =~= s@.skip(i + m));
            }
            let r = replacement.len();
            for k in 0..r
                invariant
                    r == replacement@.len(),
                    out@ == before + replacement@.take(k as int),
            {
                out.push(replacement[k]);
                assert(replacement@.take(k + 1) =~= replacement@.take(k as int).push(
                    replacement@[k as int],
                ));
            }
            assert(replacement@.take(r as int) =~= replacement@);
            assert(out@ + spec_replace(s@.skip(i + m), pattern@, replacement@) =~= before
                + spec_replace(rest, pattern@, replacement@));
            i = i + m;
        } else {
            proof {
                if m <= rest.len() {
                    assert(rest.take(m as int) =~= s@.subrange(i as int, i + m));
                }
                assert(rest.drop_first() =~= s@.skip(i + 1));
                assert(rest[0] == s@[i as int]);
            }
            out.push(s[i]);
            assert(out@ + spec_replace(s@.skip(i + 1), pattern@, replacement@) =~= before
                + spec_replace(rest, pattern@, replacement@));
            i = i + 1;
        }
    }
    assert(s@.skip(n as int) =~= Seq::<char>::empty());
    assert(out@ + spec_replace(s@.skip(n as int), pattern@, replacement@) =~= out@);
    out
}

/// The skill document: the template with the placeholder replaced by the
/// schema DDL, trimmed.
pub fn render() -> (out: String)
    ensures
        out@ == spec_replace(SKILL_TEMPLATE@, SCHEMA_PLACEHOLDER@, spec_trim(SCHEMA_SQL@)),
{
    let template = chars_of(SKILL_TEMPLATE);
    let placeholder = chars_of(SCHEMA_PLACEHOLDER);
    let schema = chars_of(SCHEMA_SQL);
    proof {
        reveal_strlit("{{SCHEMA_DDL}}");
    }
    let trimmed = trim_chars(&schema);
    let body = replace_chars(&template, &placeholder, &trimmed);
    string_of(&body, 0, body.len())
}

} // verus!
