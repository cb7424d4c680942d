//! Walk every line that the current branch added back through history.
//!
//! The walk is held by a [`scanner::Scanner`], a state machine that says
//! which piece of repository data it needs next (a commit, a diff, a blame
//! run) and takes that data back; the caller reads the repository. The rows
//! it produces make up a [`ScanResult`], which the caller writes out.
pub mod plan;
pub mod scanner;

use vstd::prelude::*;

use crate::db::{
    BlameRequest, BlameSpan, Commit, CommitParent, DiffHunk, FileEvent, LineageEdge,
    LineageEdgeType, Repository, Scan, SeedRange,
};
use crate::cli::TraceTarget;
use crate::dates::{date_text, CalendarDate};
use crate::git_ops::{clone_opt_string, DiffFileEvent};
use crate::text::{decimal, decimal_text, push_char};

verus! {

/// Every row one scan produces.
pub struct ScanResult {
    pub repository: Repository,
    pub scan: Scan,
    pub commits: Vec<Commit>,
    pub commit_parents: Vec<CommitParent>,
    pub file_events: Vec<FileEvent>,
    pub diff_hunks: Vec<DiffHunk>,
    pub seed_ranges: Vec<SeedRange>,
    pub blame_requests: Vec<BlameRequest>,
    pub blame_spans: Vec<BlameSpan>,
    pub lineage_edges: Vec<LineageEdge>,
}

/// Counts reported at the end of a scan.
#[derive(Debug)]
pub struct ScanSummary {
    pub seed_files: i64,
    pub seed_ranges: i64,
    pub requests_processed: i64,
    pub commits_discovered: i64,
    pub terminal_spans: i64,
}

/// One delta of a diff after its rows were written, with the ids of the
/// `diff_hunks` rows of its hunks (in the same order; none for a binary
/// delta).
pub struct PersistedEvent {
    pub info: DiffFileEvent,
    pub hunk_ids: Vec<i64>,
}

/// A diff after its `file_events` and `diff_hunks` rows were written.
pub struct PersistedDiff {
    pub events: Vec<PersistedEvent>,
}

/// What to do for one `(span, parent)` pair: end the span's lineage with a
/// terminal edge, or follow it into a range of the parent.
pub enum RecurseAction {
    Terminal { span_id: i64, edge_type: LineageEdgeType },
    Recurse { span_id: i64, parent_path: String, parent_start: i64, parent_end: i64 },
}

/// The distinct paths of a list of seed ranges.
pub open spec fn seed_paths(rows: Seq<SeedRange>) -> Set<Seq<char>> {
    rows.map_values(|r: SeedRange| r.path@).to_set()
}

/// Whether an edge ends a lineage.
pub open spec fn is_terminal_edge() -> spec_fn(LineageEdge) -> bool {
    |e: LineageEdge| e.edge_type != LineageEdgeType::RecurseToParent
}

impl ScanResult {
    /// The counts of a finished scan: distinct seeded files, seed ranges,
    /// requests (each one is processed before the scan ends), commits, and
    /// edges that end a lineage.
    pub fn summary(&self) -> (summary: ScanSummary)
        ensures
            summary.seed_files == #[verifier::truncate] (seed_paths(self.seed_ranges@).len() as i64),
            summary.seed_ranges == #[verifier::truncate] (self.seed_ranges@.len() as i64),
            summary.requests_processed == #[verifier::truncate] (self.blame_requests@.len() as i64),
            summary.commits_discovered == #[verifier::truncate] (self.commits@.len() as i64),
            summary.terminal_spans == #[verifier::truncate] (self.lineage_edges@.filter(is_terminal_edge()).len() as i64),
    {
        let rows = &self.seed_ranges;
        let ghost paths = rows@.map_values(|r: SeedRange| r.path@);
        let mut distinct: Vec<String> = Vec::new();
        let n = rows.len();
        for i in 0..n
            invariant
                n == rows@.len(),
                paths == rows@.map_values(|r: SeedRange| r.path@),
                distinct@.map_values(|d: String| d@).no_duplicates(),
                distinct@.map_values(|d: String| d@).to_set() == paths.take(i as int).to_set(),
        {
            let path = &rows[i].path;
            let mut seen = false;
            let m = distinct.len();
            for g in 0..m
                invariant
                    m == distinct@.len(),
                    seen ==> exists|h: int| 0 <= h < m && (#[trigger] distinct@[h])@ == path@,
                    !seen ==> forall|h: int| 0 <= h < g ==> (#[trigger] distinct@[h])@ != path@,
            {
                if !seen && distinct[g].eq(path) {
                    seen = true;
                }
            }
            let ghost before = distinct@.map_values(|d: String| d@);
            proof {
                assert(paths.take(i + 1) =~= paths.take(i as int).push(path@));
                assert(paths[i as int] == path@);
            }
            if !seen {
                distinct.push(path.clone());
                proof {
                    let after = distinct@.map_values(|d: String| d@);
                    assert(after =~= before.push(path@));
                    assert(!before.contains(path@)) by {
                        if before.contains(path@) {
                            let h = choose|h: int| 0 <= h < before.len() && before[h] == path@;
                            assert(distinct@[h]@ == path@);
                        }
                    }
                    broadcast use vstd::seq_lib::group_seq_properties;
                    assert(paths.take(i + 1) =~= paths.take(i as int).push(path@));
                    assert(after.to_set() =~= paths.take(i + 1).to_set()) by {
                        assert forall|x: Seq<char>| after.to_set().contains(x) <==> paths.take(
                            i + 1,
                        ).to_set().contains(x) by {
                            assert(before.to_set().contains(x) == paths.take(i as int).to_set().contains(x));
                        }
                    }
                    assert forall|x: int, y: int| 0 <= x < after.len() && 0 <= y < after.len() && x != y implies after[x] != after[y] by {
                        if x < before.len() && y < before.len() {
                        } else if x == before.len() {
                            assert(before.contains(after[y]));
                        } else {
                            assert(before.contains(after[x]));
                        }
                    }
                }
            } else {
                proof {
                    let h = choose|h: int| 0 <= h < m && (#[trigger] distinct@[h])@ == path@;
                    assert(before[h] == path@);
                    assert(before.to_set().contains(path@));
                    broadcast use vstd::seq_lib::group_seq_properties;
                    assert(paths.take(i + 1) =~= paths.take(i as int).push(path@));
                    assert(before.to_set() =~= paths.take(i + 1).to_set()) by {
                        assert forall|x: Seq<char>| before.to_set().contains(x) <==> paths.take(
                            i + 1,
                        ).to_set().contains(x) by {
                            assert(before.to_set().contains(x) == paths.take(i as int).to_set().contains(x));
                        }
                    }
                }
            }
        }
        proof {
            assert(paths.take(n as int) =~= paths);
            distinct@.map_values(|d: String| d@).unique_seq_to_set();
        }
        let seed_files = #[verifier::truncate] (distinct.len() as i64);

        let edges = &self.lineage_edges;
        let ne = edges.len();
        let mut terminal: usize = 0;
        for i in 0..ne
            invariant
                ne == edges@.len(),
                terminal == edges@.take(i as int).filter(is_terminal_edge()).len(),
                terminal <= i,
        {
            proof {
                assert(edges@.take(i + 1) =~= edges@.take(i as int).push(edges@[i as int]));
                edges@.take(i as int).lemma_filter_push(edges@[i as int], is_terminal_edge());
            }
            if edges[i].edge_type != LineageEdgeType::RecurseToParent {
                terminal = terminal + 1;
            }
        }
        assert(edges@.take(ne as int) =~= edges@);
        ScanSummary {
            seed_files,
            seed_ranges: #[verifier::truncate] (self.seed_ranges.len() as i64),
            requests_processed: #[verifier::truncate] (self.blame_requests.len() as i64),
            commits_discovered: #[verifier::truncate] (self.commits.len() as i64),
            terminal_spans: #[verifier::truncate] (terminal as i64),
        }
    }
}

/// The `repositories` and `scans` rows of a scan. Where the base ref did
/// not resolve (`base` is `None`), the scan is recorded against HEAD itself,
/// which makes it empty.
pub fn scan_rows(
    worktree_path: String,
    git_dir_path: String,
    remote_url: Option<String>,
    base_ref: String,
    head_sha: String,
    base: Option<(String, String)>,
    max_depth: u32,
    since: &CalendarDate,
) -> (rows: (Repository, Scan))
    ensures
        rows.0 == (Repository { id: 1, worktree_path, git_dir_path, remote_url }),
        rows.1.id == 1,
        rows.1.repository_id == 1,
        rows.1.base_ref == base_ref,
        rows.1.base_sha == (match base {
            Some((base_sha, _)) => base_sha,
            None => head_sha,
        }),
        rows.1.merge_base_sha == (match base {
            Some((_, merge_base_sha)) => merge_base_sha,
            None => head_sha,
        }),
        rows.1.head_sha == head_sha,
        rows.1.max_depth == max_depth,
        rows.1.since_date@ == date_text(since.spec_year(), since.spec_month(), since.spec_day()),
{
    let (base_sha, merge_base_sha) = match base {
        Some(pair) => pair,
        None => (head_sha.clone(), head_sha.clone()),
    };
    let repository = Repository { id: 1, worktree_path, git_dir_path, remote_url };
    let scan = Scan {
        id: 1,
        repository_id: repository.id,
        base_ref,
        base_sha,
        merge_base_sha,
        head_sha,
        max_depth,
        since_date: since.to_text(),
    };
    (repository, scan)
}

/// The `base_ref` a trace is recorded under: `trace:<path>:<start>-<end>`.
pub open spec fn trace_ref(target: TraceTarget) -> Seq<char> {
    seq!['t', 'r', 'a', 'c', 'e', ':'] + target.path@ + seq![':'] + decimal(
        target.start_line as nat,
    ) + seq!['-'] + decimal(target.end_line as nat)
}

/// The `repositories` and `scans` rows of a trace of one target at HEAD:
/// the base ref names the target, and the base and merge-base are HEAD
/// itself.
pub fn trace_rows(
    worktree_path: String,
    git_dir_path: String,
    remote_url: Option<String>,
    target: &TraceTarget,
    head_sha: String,
    max_depth: u32,
    since: &CalendarDate,
) -> (rows: (Repository, Scan))
    ensures
        rows.0 == (Repository { id: 1, worktree_path, git_dir_path, remote_url }),
        rows.1.id == 1,
        rows.1.repository_id == 1,
        rows.1.base_ref@ == trace_ref(*target),
        rows.1.base_sha == head_sha,
        rows.1.merge_base_sha == head_sha,
        rows.1.head_sha == head_sha,
        rows.1.max_depth == max_depth,
        rows.1.since_date@ == date_text(since.spec_year(), since.spec_month(), since.spec_day()),
{
    let mut base_ref = "trace:".to_owned();
    proof {
        reveal_strlit("trace:");
    }
    base_ref.append(target.path.as_str());
    push_char(&mut base_ref, ':');
    base_ref.append(decimal_text(target.start_line).as_str());
    push_char(&mut base_ref, '-');
    base_ref.append(decimal_text(target.end_line).as_str());
    assert(base_ref@ =~= trace_ref(*target));
    let repository = Repository { id: 1, worktree_path, git_dir_path, remote_url };
    let scan = Scan {
        id: 1,
        repository_id: repository.id,
        base_ref,
        base_sha: head_sha.clone(),
        merge_base_sha: head_sha.clone(),
        head_sha,
        max_depth,
        since_date: since.to_text(),
    };
    (repository, scan)
}

} // verus!
