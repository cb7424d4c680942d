//! Row types of the lineage database and the text tags stored in it.
//!
//! Every table row carries its own `id`; the scanner hands ids out from 1
//! upwards per table, as SQLite would for its rowids.
use vstd::prelude::*;

verus! {

/// Reasons a `blame_requests` row was created.
#[derive(Debug, Clone, Copy, PartialEq, Eq, Structural)]
pub enum BlameReason {
    Seed,
    ParentRecurse,
}

impl BlameReason {
    /// The text stored in `blame_requests.reason`.
    pub open spec fn spec_text(self) -> Seq<char> {
        match self {
            BlameReason::Seed => "seed"@,
            BlameReason::ParentRecurse => "parent_recurse"@,
        }
    }

    pub fn as_str(self) -> (s: &'static str)
        ensures
            s@ == self.spec_text(),
    {
        match self {
            BlameReason::Seed => "seed",
            BlameReason::ParentRecurse => "parent_recurse",
        }
    }
}

/// Discriminator for `file_events.event_type`.
#[derive(Debug, Clone, Copy, PartialEq, Eq, Structural)]
pub enum FileEventType {
    Added,
    Modified,
    Renamed,
    Copied,
    Deleted,
    BinarySkipped,
}

impl FileEventType {
    /// The text stored in `file_events.event_type`.
    pub open spec fn spec_text(self) -> Seq<char> {
        match self {
            FileEventType::Added => "added"@,
            FileEventType::Modified => "modified"@,
            FileEventType::Renamed => "renamed"@,
            FileEventType::Copied => "copied"@,
            FileEventType::Deleted => "deleted"@,
            FileEventType::BinarySkipped => "binary_skipped"@,
        }
    }

    pub fn as_str(self) -> (s: &'static str)
        ensures
            s@ == self.spec_text(),
    {
        match self {
            FileEventType::Added => "added",
            FileEventType::Modified => "modified",
            FileEventType::Renamed => "renamed",
            FileEventType::Copied => "copied",
            FileEventType::Deleted => "deleted",
            FileEventType::BinarySkipped => "binary_skipped",
        }
    }
}

/// Discriminator for `lineage_edges.edge_type`. Only `RecurseToParent`
/// has a non-null `next_request_id`; all others are terminals.
#[derive(Debug, Clone, Copy, PartialEq, Eq, Structural)]
pub enum LineageEdgeType {
    RecurseToParent,
    IntroducedHere,
    RootCommit,
    OlderThanSince,
    MaxDepth,
    BinarySkipped,
}

impl LineageEdgeType {
    /// The text stored in `lineage_edges.edge_type`.
    pub open spec fn spec_text(self) -> Seq<char> {
        match self {
            LineageEdgeType::RecurseToParent => "recurse_to_parent"@,
            LineageEdgeType::IntroducedHere => "introduced_here"@,
            LineageEdgeType::RootCommit => "root_commit"@,
            LineageEdgeType::OlderThanSince => "older_than_since"@,
            LineageEdgeType::MaxDepth => "max_depth"@,
            LineageEdgeType::BinarySkipped => "binary_skipped"@,
        }
    }

    pub fn as_str(self) -> (s: &'static str)
        ensures
            s@ == self.spec_text(),
    {
        match self {
            LineageEdgeType::RecurseToParent => "recurse_to_parent",
            LineageEdgeType::IntroducedHere => "introduced_here",
            LineageEdgeType::RootCommit => "root_commit",
            LineageEdgeType::OlderThanSince => "older_than_since",
            LineageEdgeType::MaxDepth => "max_depth",
            LineageEdgeType::BinarySkipped => "binary_skipped",
        }
    }
}

/// Value of the `parent_position` column for `file_events` / `diff_hunks`.
/// `Seed` is the merge-base→HEAD diff that initiates the scan (NULL on disk);
/// `Index(n)` is the n-th parent of a commit visited during recursion.
#[derive(Debug, Clone, Copy, PartialEq, Eq, Hash, Structural)]
pub enum ParentPos {
    Seed,
    Index(u32),
}

impl ParentPos {
    /// The column value: NULL for the seed diff, the parent index otherwise.
    pub open spec fn spec_sql(self) -> Option<i64> {
        match self {
            ParentPos::Seed => None,
            ParentPos::Index(index) => Some(index as i64),
        }
    }

    pub fn to_sql(self) -> (value: Option<i64>)
        ensures
            value == self.spec_sql(),
    {
        match self {
            ParentPos::Seed => None,
            ParentPos::Index(index) => Some(index as i64),
        }
    }
}

impl From<ParentPos> for Option<i64> {
    fn from(position: ParentPos) -> (value: Option<i64>) {
        position.to_sql()
    }
}

impl vstd::std_specs::convert::FromSpecImpl<ParentPos> for Option<i64> {
    open spec fn obeys_from_spec() -> bool {
        true
    }

    open spec fn from_spec(position: ParentPos) -> Option<i64> {
        position.spec_sql()
    }
}

/// A `repositories` row.
#[derive(Debug)]
pub struct Repository {
    pub id: i64,
    pub worktree_path: String,
    pub git_dir_path: String,
    pub remote_url: Option<String>,
}

/// A `scans` row. It is written once the scan has finished, so its status
/// is always `complete`.
#[derive(Debug)]
pub struct Scan {
    pub id: i64,
    pub repository_id: i64,
    pub base_ref: String,
    pub base_sha: String,
    pub merge_base_sha: String,
    pub head_sha: String,
    pub max_depth: u32,
    pub since_date: String,
}

/// A `commits` row.
#[derive(Debug)]
pub struct Commit {
    pub repository_id: i64,
    pub sha: String,
    pub tree_sha: Option<String>,
    pub author_name: Option<String>,
    pub author_email: Option<String>,
    pub authored_at: Option<String>,
    pub committer_name: Option<String>,
    pub committer_email: Option<String>,
    pub committed_at: Option<String>,
    pub message: String,
}

/// A `commit_parents` row.
#[derive(Debug)]
pub struct CommitParent {
    pub repository_id: i64,
    pub commit_sha: String,
    pub parent_sha: String,
    pub parent_position: i64,
}

/// A `file_events` row.
#[derive(Debug)]
pub struct FileEvent {
    pub id: i64,
    pub repository_id: i64,
    pub commit_sha: String,
    pub parent_sha: String,
    pub parent_position: ParentPos,
    pub event_type: FileEventType,
    pub old_path: Option<String>,
    pub new_path: Option<String>,
    pub old_blob_sha: Option<String>,
    pub new_blob_sha: Option<String>,
}

/// A `diff_hunks` row.
#[derive(Debug)]
pub struct DiffHunk {
    pub id: i64,
    pub repository_id: i64,
    pub file_event_id: i64,
    pub commit_sha: String,
    pub parent_sha: String,
    pub parent_position: ParentPos,
    pub old_path: Option<String>,
    pub new_path: Option<String>,
    pub old_start: i64,
    pub old_lines: i64,
    pub new_start: i64,
    pub new_lines: i64,
    pub patch_text: String,
}

/// A `seed_ranges` row.
#[derive(Debug)]
pub struct SeedRange {
    pub id: i64,
    pub scan_id: i64,
    pub commit_sha: String,
    pub path: String,
    pub start_line: i64,
    pub end_line: i64,
    pub diff_hunk_id: Option<i64>,
}

/// A `blame_requests` row. Saved after the scan, so its status is always
/// `complete`.
#[derive(Debug)]
pub struct BlameRequest {
    pub id: i64,
    pub scan_id: i64,
    pub commit_sha: String,
    pub path: String,
    pub start_line: i64,
    pub end_line: i64,
    pub depth: u32,
    pub reason: BlameReason,
}

/// A `blame_spans` row.
#[derive(Debug)]
pub struct BlameSpan {
    pub id: i64,
    pub request_id: i64,
    pub repository_id: i64,
    pub blamed_commit_sha: String,
    pub final_commit_sha: String,
    pub final_path: String,
    pub final_start_line: i64,
    pub origin_path: Option<String>,
    pub origin_start_line: Option<i64>,
    pub line_count: i64,
    pub boundary: bool,
    pub diff_hunk_id: Option<i64>,
}

/// A `lineage_edges` row.
#[derive(Debug)]
pub struct LineageEdge {
    pub id: i64,
    pub scan_id: i64,
    pub from_request_id: i64,
    pub to_span_id: i64,
    pub parent_sha: Option<String>,
    /// The parent index of the blamed commit this edge crosses through.
    /// `None` only for terminal edges that don't involve a parent (e.g. `RootCommit`).
    pub parent_position: Option<i64>,
    pub next_request_id: Option<i64>,
    pub edge_type: LineageEdgeType,
}

/// The DDL of the lineage database.
pub const SCHEMA_SQL: &'static str = r#"
create table if not exists repositories (
  id integer primary key,
  worktree_path text not null,
  git_dir_path text not null,
  remote_url text,
  created_at text not null default current_timestamp,
  unique (git_dir_path)
);

create table if not exists scans (
  id integer primary key,
  repository_id integer not null references repositories(id),
  base_ref text not null,
  base_sha text not null,
  merge_base_sha text not null,
  head_sha text not null,
  max_depth integer not null,
  since_date text not null,
  rename_policy text not null default 'aggressive',
  status text not null default 'running',
  started_at text not null default current_timestamp,
  finished_at text
);

create table if not exists commits (
  repository_id integer not null references repositories(id),
  sha text not null,
  tree_sha text,
  author_name text,
  author_email text,
  authored_at text,
  committer_name text,
  committer_email text,
  committed_at text,
  message text not null,
  primary key (repository_id, sha)
);

create table if not exists commit_parents (
  repository_id integer not null references repositories(id),
  commit_sha text not null,
  parent_sha text not null,
  parent_position integer not null,
  primary key (repository_id, commit_sha, parent_position),
  foreign key (repository_id, commit_sha) references commits(repository_id, sha)
);

create table if not exists files (
  id integer primary key,
  repository_id integer not null references repositories(id),
  first_seen_commit_sha text,
  first_seen_path text,
  created_at text not null default current_timestamp
);

create table if not exists file_versions (
  id integer primary key,
  repository_id integer not null references repositories(id),
  file_id integer references files(id),
  commit_sha text not null,
  path text not null,
  blob_sha text,
  byte_size integer,
  line_count integer,
  is_binary integer not null default 0,
  unique (repository_id, commit_sha, path)
);

create table if not exists file_events (
  id integer primary key,
  repository_id integer not null references repositories(id),
  file_id integer references files(id),
  commit_sha text not null,
  parent_sha text,
  parent_position integer,
  event_type text not null check (
    event_type in ('added', 'modified', 'renamed', 'copied', 'deleted', 'binary_skipped')
  ),
  old_path text,
  new_path text,
  old_blob_sha text,
  new_blob_sha text,
  created_at text not null default current_timestamp
);

create table if not exists diff_hunks (
  id integer primary key,
  repository_id integer not null references repositories(id),
  file_event_id integer references file_events(id),
  commit_sha text not null,
  parent_sha text,
  parent_position integer,
  old_path text,
  new_path text,
  old_start integer,
  old_lines integer,
  new_start integer,
  new_lines integer,
  patch_text text not null
);

create table if not exists seed_ranges (
  id integer primary key,
  scan_id integer not null references scans(id),
  commit_sha text not null,
  path text not null,
  start_line integer not null,
  end_line integer not null,
  diff_hunk_id integer references diff_hunks(id)
);

create table if not exists blame_requests (
  id integer primary key,
  scan_id integer not null references scans(id),
  commit_sha text not null,
  path text not null,
  start_line integer not null,
  end_line integer not null,
  depth integer not null,
  reason text not null check (
    reason in ('seed', 'parent_recurse')
  ),
  status text not null default 'queued',
  created_at text not null default current_timestamp,
  unique (scan_id, commit_sha, path, start_line, end_line)
);

create table if not exists blame_spans (
  id integer primary key,
  request_id integer not null references blame_requests(id),
  repository_id integer not null references repositories(id),
  blamed_commit_sha text not null,
  final_commit_sha text not null,
  final_path text not null,
  final_start_line integer not null,
  origin_path text,
  origin_start_line integer,
  line_count integer not null,
  boundary integer not null default 0,
  diff_hunk_id integer references diff_hunks(id)
);

create table if not exists lineage_edges (
  id integer primary key,
  scan_id integer not null references scans(id),
  from_request_id integer not null references blame_requests(id),
  to_span_id integer not null references blame_spans(id),
  parent_sha text,
  parent_position integer,
  next_request_id integer references blame_requests(id),
  edge_type text not null check (
    edge_type in (
      'recurse_to_parent',
      'introduced_here',
      'root_commit',
      'older_than_since',
      'max_depth',
      'binary_skipped'
    )
  )
);

create index if not exists idx_scans_repo_head on scans(repository_id, head_sha);
create index if not exists idx_scans_repo_base on scans(repository_id, base_ref, head_sha);

create index if not exists idx_commit_parents_parent
  on commit_parents(repository_id, parent_sha);

create index if not exists idx_file_versions_lookup
  on file_versions(repository_id, commit_sha, path);

create index if not exists idx_file_events_commit
  on file_events(repository_id, commit_sha);

create index if not exists idx_file_events_file
  on file_events(repository_id, file_id, commit_sha);

create index if not exists idx_diff_hunks_commit_path
  on diff_hunks(repository_id, commit_sha, new_path, new_start, new_lines);

create index if not exists idx_diff_hunks_parent_path
  on diff_hunks(repository_id, parent_sha, old_path, old_start, old_lines);

create index if not exists idx_seed_ranges_scan_path
  on seed_ranges(scan_id, path, start_line, end_line);

create index if not exists idx_blame_requests_queue
  on blame_requests(scan_id, status, depth);

create index if not exists idx_blame_requests_range
  on blame_requests(scan_id, commit_sha, path, start_line, end_line);

create index if not exists idx_blame_spans_blamed_commit
  on blame_spans(repository_id, blamed_commit_sha);

create index if not exists idx_blame_spans_final_range
  on blame_spans(request_id, final_path, final_start_line, line_count);

create index if not exists idx_lineage_edges_from
  on lineage_edges(scan_id, from_request_id);

create index if not exists idx_lineage_edges_to
  on lineage_edges(scan_id, to_span_id);

create index if not exists idx_lineage_edges_next
  on lineage_edges(scan_id, next_request_id);
"#;

} // verus!
