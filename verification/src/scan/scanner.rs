//! The scanner: a state machine that walks every added line of a branch
//! ([`Scanner::new`]), or one target range ([`Scanner::new_trace`]), back
//! through history and records the walk as database rows.
//!
//! It never reads the repository itself. [`Scanner::need`] says which piece
//! of repository data the walk needs next; the caller reads it and hands it
//! back with [`Scanner::supply_commit`], [`Scanner::supply_diff`] or
//! [`Scanner::supply_blame`]. Between those calls the scanner does all the
//! planning and bookkeeping of the walk on its own.
use std::collections::VecDeque;
use vstd::prelude::*;

use crate::cli::TraceTarget;
use crate::dates::CalendarDate;
use crate::db::{
    BlameReason, BlameRequest, BlameSpan as SpanRow, Commit, CommitParent, DiffHunk, FileEvent,
    FileEventType, LineageEdge, LineageEdgeType, ParentPos, Repository, Scan, SeedRange,
};
use crate::git_ops::{clone_opt_string, BlameSpan, CommitInfo, DiffFileEvent, DiffHunkInfo};

use super::plan::{
    classify_terminal, effective_event_type, hunk_action, hunk_actions, plan_all,
    plan_parent_recursion, span_plan, span_plan_fits, spec_classify_terminal,
    spec_effective_event_type, spec_parent_side_path, first_event_with_new_path, any_overlap,
    overlaps_hunk,
};
use super::{PersistedDiff, PersistedEvent, RecurseAction, ScanResult};

verus! {

/// Per-table id allocator, starting at 1 to match SQLite rowid semantics.
pub struct IdCounter(i64);

impl IdCounter {
    pub closed spec fn value(self) -> i64 {
        self.0
    }

    pub fn new() -> (counter: Self)
        ensures
            counter.value() == 1,
    {
        IdCounter(1)
    }

    /// Whether another id can be handed out without overflowing.
    pub fn has_room(&self) -> (room: bool)
        ensures
            room == (self.value() < i64::MAX),
    {
        self.0 < i64::MAX
    }

    pub fn allocate(&mut self) -> (id: i64)
        requires
            old(self).value() < i64::MAX,
        ensures
            id == old(self).value(),
            final(self).value() == id + 1,
    {
        let id = self.0;
        self.0 = self.0 + 1;
        id
    }
}

/// Law of the id counter: a counter fresh from `new`, then allocated from
/// again and again, hands out 1, 2, 3, ... in order, and so never the same
/// id twice. `counters[i]` is the counter before the `i`-th allocation and
/// `ids[i]` what that allocation returned; each step is what `new` and
/// `alloc` state.
pub proof fn lemma_ids_in_order(counters: Seq<IdCounter>, ids: Seq<i64>)
    requires
        counters.len() == ids.len() + 1,
        counters[0].value() == 1,
        forall|i: int|
            0 <= i < ids.len() ==> #[trigger] ids[i] == counters[i].value() && counters[i
                + 1].value() == ids[i] + 1,
    ensures
        forall|i: int| 0 <= i < ids.len() ==> #[trigger] ids[i] == i + 1,
        forall|i: int, j: int| 0 <= i < j < ids.len() ==> #[trigger] ids[i] != #[trigger] ids[j],
        counters.last().value() == ids.len() + 1,
    decreases ids.len(),
{
    if ids.len() > 0 {
        let n = ids.len() - 1;
        lemma_ids_in_order(counters.drop_last(), ids.drop_last());
        assert forall|i: int| 0 <= i < ids.len() implies #[trigger] ids[i] == i + 1 by {
            if i < n {
                assert(ids.drop_last()[i] == ids[i]);
            } else {
                assert(counters.drop_last().last() == counters[n]);
            }
        }
        assert(ids[n] == n + 1);
        assert(counters.last() == counters[n + 1]);
    }
}

/// One id allocator per table that has ids.
pub struct NextIds {
    pub file_event: IdCounter,
    pub diff_hunk: IdCounter,
    pub seed_range: IdCounter,
    pub blame_request: IdCounter,
    pub blame_span: IdCounter,
    pub lineage_edge: IdCounter,
}

impl NextIds {
    pub fn new() -> (ids: Self)
        ensures
            ids.file_event.value() == 1,
            ids.diff_hunk.value() == 1,
            ids.seed_range.value() == 1,
            ids.blame_request.value() == 1,
            ids.blame_span.value() == 1,
            ids.lineage_edge.value() == 1,
    {
        NextIds {
            file_event: IdCounter::new(),
            diff_hunk: IdCounter::new(),
            seed_range: IdCounter::new(),
            blame_request: IdCounter::new(),
            blame_span: IdCounter::new(),
            lineage_edge: IdCounter::new(),
        }
    }
}

/// The blame spans of one request that one commit is blamed for.
pub struct SpanGroup {
    pub blamed_sha: String,
    pub spans: Vec<(i64, BlameSpan)>,
}

/// A diff already computed, by commit and parent slot.
pub struct CachedDiff {
    pub commit_sha: String,
    pub position: ParentPos,
    pub diff: PersistedDiff,
}

/// Where the walk stands.
#[derive(Debug, Clone, Copy, PartialEq, Eq, Structural)]
pub enum Stage {
    /// Waiting for the metadata of HEAD.
    SeedCommit,
    /// Waiting for the diff merge-base → HEAD.
    SeedDiff,
    /// Waiting for the blame run of the current request.
    Blame,
    /// Waiting for the metadata of the current group's blamed commit.
    Commit,
    /// Waiting for the diff of the current group's blamed commit against
    /// its current parent.
    Diff,
    /// Every request was processed.
    Finished,
    /// A table ran out of ids; the walk stopped.
    Exhausted,
}

/// What the walk needs next from the repository.
pub enum Need {
    /// The metadata of a commit.
    Commit { sha: String },
    /// The diff `parent_sha → commit_sha`.
    Diff { commit_sha: String, parent_sha: String },
    /// A blame run of `path` at `commit_sha`, limited to the given lines.
    Blame { commit_sha: String, path: String, start_line: u32, end_line: u32 },
    /// Nothing: the walk is complete.
    Finished,
    /// Nothing: the walk stopped because a table ran out of ids.
    Exhausted,
}

/// A blame span's line arithmetic stays within `u32`: its origin range ends
/// after line 0 and before `u32::MAX`.
pub open spec fn span_fits(span: BlameSpan) -> bool {
    span.origin_start_line matches Some(start) ==> 1 <= start + span.line_count <= u32::MAX
}

/// A hunk's line arithmetic stays within `u32` on both sides.
pub open spec fn hunk_fits(hunk: DiffHunkInfo) -> bool {
    &&& hunk.new_start + hunk.new_lines <= u32::MAX
    &&& hunk.old_start + hunk.old_lines <= u32::MAX
}

pub open spec fn event_fits(event: DiffFileEvent) -> bool {
    forall|k: int| 0 <= k < event.hunks@.len() ==> hunk_fits(#[trigger] event.hunks@[k])
}

pub open spec fn persisted_fits(events: Seq<PersistedEvent>) -> bool {
    forall|i: int| 0 <= i < events.len() ==> event_fits(#[trigger] events[i].info)
}

/// Planning a span that fits against a diff whose hunks fit never leaves
/// `u32`.
proof fn lemma_span_plan_fits(span: BlameSpan, events: Seq<PersistedEvent>)
    requires
        span_fits(span),
        persisted_fits(events),
    ensures
        span_plan_fits(span, events),
{
    match (span.origin_path, span.origin_start_line) {
        (Some(origin_path), Some(origin_start)) => {
            match first_event_with_new_path(events, origin_path@) {
                Some(i) => {
                    lemma_first_event_in_range(events, origin_path@);
                    assert(event_fits(events[i].info));
                },
                None => {},
            }
        },
        _ => {},
    }
}

proof fn lemma_first_event_in_range(events: Seq<PersistedEvent>, path: Seq<char>)
    ensures
        first_event_with_new_path(events, path) matches Some(i) ==> 0 <= i < events.len(),
    decreases events.len(),
{
    if events.len() > 0 {
        lemma_first_event_in_range(events.drop_first(), path);
    }
}

/// The key a request is deduplicated by (the SQL unique constraint).
pub open spec fn request_key(r: BlameRequest) -> (Seq<char>, Seq<char>, i64, i64) {
    (r.commit_sha@, r.path@, r.start_line, r.end_line)
}

/// An action a plan may hold: its span is one of the planned spans, a
/// terminal never recurses, and a followed range lies within `u32` lines.
pub open spec fn action_ok(action: RecurseAction, spans: Seq<(i64, BlameSpan)>) -> bool {
    match action {
        RecurseAction::Terminal { span_id, edge_type } => {
            &&& exists|k: int| 0 <= k < spans.len() && (#[trigger] spans[k]).0 == span_id
            &&& is_parent_terminal_edge(edge_type)
        },
        RecurseAction::Recurse { span_id, parent_start, parent_end, .. } => {
            &&& exists|k: int| 0 <= k < spans.len() && (#[trigger] spans[k]).0 == span_id
            &&& 0 <= parent_start <= u32::MAX
            &&& 0 <= parent_end <= u32::MAX
        },
    }
}

proof fn lemma_hunk_actions_ok(
    span_id: i64,
    parent_path: String,
    origin_start: u32,
    origin_end_excl: int,
    hunks: Seq<DiffHunkInfo>,
    spans: Seq<(i64, BlameSpan)>,
    k: int,
)
    requires
        0 <= k < spans.len(),
        spans[k].0 == span_id,
        forall|j: int| 0 <= j < hunks.len() ==> hunk_fits(#[trigger] hunks[j]),
    ensures
        forall|i: int|
            0 <= i < hunk_actions(span_id, parent_path, origin_start, origin_end_excl, hunks).len()
                ==> action_ok(
                #[trigger] hunk_actions(span_id, parent_path, origin_start, origin_end_excl, hunks)[i],
                spans,
            ),
    decreases hunks.len(),
{
    if hunks.len() > 0 {
        let prev = hunks.drop_last();
        lemma_hunk_actions_ok(span_id, parent_path, origin_start, origin_end_excl, prev, spans, k);
        let all = hunk_actions(span_id, parent_path, origin_start, origin_end_excl, hunks);
        let before = hunk_actions(span_id, parent_path, origin_start, origin_end_excl, prev);
        let last = hunk_action(span_id, parent_path, origin_start, origin_end_excl, hunks.last());
        assert(hunk_fits(hunks[hunks.len() - 1]));
        assert forall|i: int| 0 <= i < all.len() implies action_ok(#[trigger] all[i], spans) by {
            if i < before.len() {
                assert(all[i] == before[i]);
            } else {
                assert(all[i] == last[i - before.len()]);
            }
        }
    }
}

/// Every action of a plan is one the scanner can write.
proof fn lemma_plan_all_ok(spans: Seq<(i64, BlameSpan)>, events: Seq<PersistedEvent>, n: int)
    requires
        0 <= n <= spans.len(),
        forall|j: int| 0 <= j < spans.len() ==> span_fits(#[trigger] spans[j].1),
        persisted_fits(events),
    ensures
        forall|i: int|
            0 <= i < plan_all(spans.take(n), events).len() ==> action_ok(
                #[trigger] plan_all(spans.take(n), events)[i],
                spans,
            ),
    decreases n,
{
    if n > 0 {
        lemma_plan_all_ok(spans, events, n - 1);
        let pre = spans.take(n);
        assert(pre.drop_last() =~= spans.take(n - 1));
        assert(pre.last() == spans[n - 1]);
        let all = plan_all(pre, events);
        let before = plan_all(spans.take(n - 1), events);
        let (span_id, span) = spans[n - 1];
        let last = span_plan(span_id, span, events);
        assert(span_fits(spans[n - 1].1));
        lemma_span_plan_fits(span, events);
        assert forall|i: int| 0 <= i < last.len() implies action_ok(#[trigger] last[i], spans) by {
            match (span.origin_path, span.origin_start_line) {
                (Some(origin_path), Some(origin_start)) => {
                    let origin_end_excl = origin_start + span.line_count;
                    match first_event_with_new_path(events, origin_path@) {
                        Some(e) => {
                            lemma_first_event_in_range(events, origin_path@);
                            let event = events[e].info;
                            assert(event_fits(events[e].info));
                            if !event.is_binary {
                                match spec_parent_side_path(event) {
                                    Some(pp) => {
                                        if any_overlap(origin_start, origin_end_excl, event.hunks@) {
                                            assert forall|j: int|
                                                0 <= j < event.hunks@.len() implies hunk_fits(
                                                #[trigger] event.hunks@[j],
                                            ) by {}
                                            lemma_hunk_actions_ok(
                                                span_id,
                                                pp,
                                                origin_start,
                                                origin_end_excl,
                                                event.hunks@,
                                                spans,
                                                n - 1,
                                            );
                                        }
                                    },
                                    None => {},
                                }
                            }
                        },
                        None => {},
                    }
                },
                _ => {},
            }
        }
        assert forall|i: int| 0 <= i < all.len() implies action_ok(#[trigger] all[i], spans) by {
            if i < before.len() {
                assert(all[i] == before[i]);
            } else {
                assert(all[i] == last[i - before.len()]);
            }
        }
    }
}


// ---------------------------------------------------------------------------
// Table invariants

spec fn request_row_ok(r: BlameRequest, scan_id: i64, max_depth: u32) -> bool {
    &&& r.scan_id == scan_id
    &&& r.depth <= max_depth
    &&& 0 <= r.start_line <= u32::MAX
    &&& 0 <= r.end_line <= u32::MAX
}

/// The requests have ids `1..`, distinct keys and well-formed rows, and the
/// queue holds the ids of the last requests, in order.
spec fn requests_table_ok(
    reqs: Seq<BlameRequest>,
    queue: Seq<i64>,
    counter: IdCounter,
    scan_id: i64,
    max_depth: u32,
) -> bool {
    &&& forall|i: int| 0 <= i < reqs.len() ==> #[trigger] reqs[i].id == i + 1
    &&& counter.value() == reqs.len() + 1
    &&& forall|i: int, j: int|
        0 <= i < j < reqs.len() ==> request_key(#[trigger] reqs[i]) != request_key(#[trigger] reqs[j])
    &&& forall|i: int| 0 <= i < reqs.len() ==> request_row_ok(#[trigger] reqs[i], scan_id, max_depth)
    &&& queue.len() <= reqs.len()
    &&& forall|k: int| 0 <= k < queue.len() ==> #[trigger] queue[k] == reqs.len() - queue.len() + k + 1
}

/// The edge types that end a lineage at the blamed commit itself, before
/// any of its parents is looked at.
pub open spec fn is_cutoff_edge(edge_type: LineageEdgeType) -> bool {
    ||| edge_type == LineageEdgeType::RootCommit
    ||| edge_type == LineageEdgeType::OlderThanSince
    ||| edge_type == LineageEdgeType::MaxDepth
}

/// The edge types a plan against one parent's diff may end a lineage with.
pub open spec fn is_parent_terminal_edge(edge_type: LineageEdgeType) -> bool {
    ||| edge_type == LineageEdgeType::IntroducedHere
    ||| edge_type == LineageEdgeType::BinarySkipped
}

spec fn edge_row_ok(e: LineageEdge, scan_id: i64, nreq: int, nspan: int) -> bool {
    &&& e.scan_id == scan_id
    &&& 1 <= e.from_request_id <= nreq
    &&& 1 <= e.to_span_id <= nspan
    &&& (e.next_request_id is Some <==> e.edge_type == LineageEdgeType::RecurseToParent)
    &&& e.next_request_id matches Some(n) ==> 1 <= n <= nreq
    &&& (e.parent_sha is None <==> e.parent_position is None)
    &&& (e.parent_position is None <==> is_cutoff_edge(e.edge_type))
    &&& e.parent_position matches Some(p) ==> 0 <= p <= u32::MAX
}

// ---------------------------------------------------------------------------
// The lineage graph: what accounts for an edge (every edge is justified), and
// what it takes for a span to be followed (once the walk is finished, every
// span is)

/// The blame span a `blame_spans` row was written from.
pub open spec fn span_of_row(row: SpanRow) -> BlameSpan {
    BlameSpan {
        blamed_commit_sha: row.blamed_commit_sha,
        final_start_line: row.final_start_line as u32,
        line_count: row.line_count as u32,
        origin_path: row.origin_path,
        origin_start_line: match row.origin_start_line {
            Some(line) => Some(line as u32),
            None => None,
        },
        boundary: row.boundary,
    }
}

/// The span an action is about.
pub open spec fn action_span_id(action: RecurseAction) -> i64 {
    match action {
        RecurseAction::Terminal { span_id, .. } => span_id,
        RecurseAction::Recurse { span_id, .. } => span_id,
    }
}

/// The edge carries one of the actions of its span's plan against the
/// diff of a parent.
pub open spec fn planned_edge(
    edge: LineageEdge,
    span: SpanRow,
    reqs: Seq<BlameRequest>,
    parent_sha: Seq<char>,
    position: ParentPos,
    events: Seq<PersistedEvent>,
) -> bool {
    let plan = span_plan(edge.to_span_id, span_of_row(span), events);
    exists|m: int|
        0 <= m < plan.len() && parent_edge_matches(
            edge,
            #[trigger] plan[m],
            edge.from_request_id,
            parent_sha,
            position,
            reqs,
        )
}

/// The edge crosses into parent `q` of the commit `info`: it names that
/// parent, and it carries an action of its span's plan against the diff
/// recorded for the commit and that parent.
pub open spec fn parent_justifies(
    edge: LineageEdge,
    span: SpanRow,
    reqs: Seq<BlameRequest>,
    info: CommitInfo,
    diffs: Seq<CachedDiff>,
    q: int,
) -> bool {
    let parent_sha = info.parents@[q]@;
    let position = ParentPos::Index(q as u32);
    &&& opt_seq(edge.parent_sha) == Some(parent_sha)
    &&& exists|d: int|
        0 <= d < diffs.len() && (#[trigger] diffs[d]).commit_sha@ == info.sha@ && diffs[d].position
            == position && planned_edge(edge, span, reqs, parent_sha, position, diffs[d].diff.events@)
}

/// How the metadata of a blamed commit accounts for an edge leaving one of
/// its spans: an edge that names no parent carries the cutoff the commit
/// hits for the request; any other edge crosses into one of the commit's
/// parents (the commit then hits no cutoff) as that parent's diff plans.
pub open spec fn commit_justifies(
    edge: LineageEdge,
    span: SpanRow,
    reqs: Seq<BlameRequest>,
    info: CommitInfo,
    diffs: Seq<CachedDiff>,
    max_depth: u32,
    since: CalendarDate,
) -> bool {
    let cutoff = spec_classify_terminal(
        reqs[edge.from_request_id - 1].depth,
        info.parents@.len(),
        info.committed_naive,
        max_depth,
        since,
    );
    match edge.parent_position {
        None => cutoff == Some(edge.edge_type),
        Some(p) => {
            &&& cutoff is None
            &&& exists|q: int|
                0 <= q < info.parents@.len() && (q as u32) as i64 == p && #[trigger] parent_justifies(
                    edge,
                    span,
                    reqs,
                    info,
                    diffs,
                    q,
                )
        },
    }
}

/// An edge is accounted for: it leaves a span of the request it comes
/// from, and the recorded metadata of that span's blamed commit justifies
/// it.
pub open spec fn edge_justified(
    edge: LineageEdge,
    spans: Seq<SpanRow>,
    reqs: Seq<BlameRequest>,
    commits: Seq<CommitInfo>,
    diffs: Seq<CachedDiff>,
    max_depth: u32,
    since: CalendarDate,
) -> bool {
    let span = spans[edge.to_span_id - 1];
    &&& span.request_id == edge.from_request_id
    &&& exists|c: int|
        0 <= c < commits.len() && (#[trigger] commits[c]).sha@ == span.blamed_commit_sha@
            && commit_justifies(edge, span, reqs, commits[c], diffs, max_depth, since)
}

/// Every edge is accounted for.
pub open spec fn edges_justified(
    edges: Seq<LineageEdge>,
    spans: Seq<SpanRow>,
    reqs: Seq<BlameRequest>,
    commits: Seq<CommitInfo>,
    diffs: Seq<CachedDiff>,
    max_depth: u32,
    since: CalendarDate,
) -> bool {
    forall|i: int|
        0 <= i < edges.len() ==> edge_justified(
            #[trigger] edges[i],
            spans,
            reqs,
            commits,
            diffs,
            max_depth,
            since,
        )
}

/// Some edge ends the lineage of span `span_id` of request `request_id`
/// with the cutoff `edge_type`.
pub open spec fn has_cutoff_edge(
    edges: Seq<LineageEdge>,
    span_id: i64,
    request_id: i64,
    edge_type: LineageEdgeType,
) -> bool {
    exists|i: int|
        0 <= i < edges.len() && (#[trigger] edges[i]).to_span_id == span_id
            && edges[i].from_request_id == request_id && edges[i].parent_position is None
            && edges[i].edge_type == edge_type
}

/// Some edge carries `action` from request `request_id` across into the
/// parent `parent_sha`.
pub open spec fn has_planned_edge(
    edges: Seq<LineageEdge>,
    action: RecurseAction,
    request_id: i64,
    parent_sha: Seq<char>,
    position: ParentPos,
    reqs: Seq<BlameRequest>,
) -> bool {
    exists|i: int|
        0 <= i < edges.len() && parent_edge_matches(
            #[trigger] edges[i],
            action,
            request_id,
            parent_sha,
            position,
            reqs,
        )
}

/// Span `span_id` is followed into parent `q` of the commit `info`: the
/// diff against that parent was recorded, and every action of the span's
/// plan against it is carried by an edge.
pub open spec fn parent_followed(
    edges: Seq<LineageEdge>,
    span_id: i64,
    span: SpanRow,
    reqs: Seq<BlameRequest>,
    info: CommitInfo,
    diffs: Seq<CachedDiff>,
    q: int,
) -> bool {
    let position = ParentPos::Index(q as u32);
    exists|d: int|
        0 <= d < diffs.len() && (#[trigger] diffs[d]).commit_sha@ == info.sha@ && diffs[d].position
            == position && forall|m: int|
            0 <= m < span_plan(span_id, span_of_row(span), diffs[d].diff.events@).len()
                ==> has_planned_edge(
                edges,
                #[trigger] span_plan(span_id, span_of_row(span), diffs[d].diff.events@)[m],
                span.request_id,
                info.parents@[q]@,
                position,
                reqs,
            )
}

/// The span's lineage ends with the cutoff its blamed commit `info` hits
/// for the span's request, or, where it hits none, the span is followed
/// into every parent of the commit.
pub open spec fn commit_followed(
    edges: Seq<LineageEdge>,
    span_id: i64,
    span: SpanRow,
    reqs: Seq<BlameRequest>,
    info: CommitInfo,
    diffs: Seq<CachedDiff>,
    max_depth: u32,
    since: CalendarDate,
) -> bool {
    match spec_classify_terminal(
        reqs[span.request_id - 1].depth,
        info.parents@.len(),
        info.committed_naive,
        max_depth,
        since,
    ) {
        Some(edge_type) => has_cutoff_edge(edges, span_id, span.request_id, edge_type),
        None => forall|q: int|
            0 <= q < info.parents@.len() ==> #[trigger] parent_followed(
                edges,
                span_id,
                span,
                reqs,
                info,
                diffs,
                q,
            ),
    }
}

/// A span is followed: the metadata of its blamed commit was recorded, and
/// the span's lineage goes on from that commit as the commit requires.
pub open spec fn span_followed(
    edges: Seq<LineageEdge>,
    span_id: i64,
    span: SpanRow,
    reqs: Seq<BlameRequest>,
    commits: Seq<CommitInfo>,
    diffs: Seq<CachedDiff>,
    max_depth: u32,
    since: CalendarDate,
) -> bool {
    exists|c: int|
        0 <= c < commits.len() && (#[trigger] commits[c]).sha@ == span.blamed_commit_sha@
            && commit_followed(edges, span_id, span, reqs, commits[c], diffs, max_depth, since)
}

/// Growing the tables keeps an edge that carries an action.
proof fn lemma_planned_edge_grow(
    edges0: Seq<LineageEdge>,
    edges1: Seq<LineageEdge>,
    action: RecurseAction,
    request_id: i64,
    parent_sha: Seq<char>,
    position: ParentPos,
    reqs0: Seq<BlameRequest>,
    reqs1: Seq<BlameRequest>,
)
    requires
        has_planned_edge(edges0, action, request_id, parent_sha, position, reqs0),
        extends(edges1, edges0),
        extends(reqs1, reqs0),
    ensures
        has_planned_edge(edges1, action, request_id, parent_sha, position, reqs1),
{
    let i = choose|i: int|
        0 <= i < edges0.len() && parent_edge_matches(
            #[trigger] edges0[i],
            action,
            request_id,
            parent_sha,
            position,
            reqs0,
        );
    assert(edges1[i] == edges0[i]);
    match action {
        RecurseAction::Recurse { .. } => {
            let n = edges0[i].next_request_id->0;
            assert(reqs1[n - 1] == reqs0[n - 1]);
        },
        _ => {},
    }
    assert(parent_edge_matches(edges1[i], action, request_id, parent_sha, position, reqs1));
}

/// Growing the tables keeps a span followed into a parent.
proof fn lemma_parent_followed_grow(
    edges0: Seq<LineageEdge>,
    edges1: Seq<LineageEdge>,
    span_id: i64,
    span: SpanRow,
    reqs0: Seq<BlameRequest>,
    reqs1: Seq<BlameRequest>,
    info: CommitInfo,
    diffs0: Seq<CachedDiff>,
    diffs1: Seq<CachedDiff>,
    q: int,
)
    requires
        parent_followed(edges0, span_id, span, reqs0, info, diffs0, q),
        extends(edges1, edges0),
        extends(reqs1, reqs0),
        extends(diffs1, diffs0),
    ensures
        parent_followed(edges1, span_id, span, reqs1, info, diffs1, q),
{
    let position = ParentPos::Index(q as u32);
    let d = choose|d: int|
        0 <= d < diffs0.len() && (#[trigger] diffs0[d]).commit_sha@ == info.sha@ && diffs0[d].position
            == position && forall|m: int|
            0 <= m < span_plan(span_id, span_of_row(span), diffs0[d].diff.events@).len()
                ==> has_planned_edge(
                edges0,
                #[trigger] span_plan(span_id, span_of_row(span), diffs0[d].diff.events@)[m],
                span.request_id,
                info.parents@[q]@,
                position,
                reqs0,
            );
    assert(diffs1[d] == diffs0[d]);
    let plan = span_plan(span_id, span_of_row(span), diffs0[d].diff.events@);
    assert forall|m: int| 0 <= m < plan.len() implies has_planned_edge(
        edges1,
        #[trigger] plan[m],
        span.request_id,
        info.parents@[q]@,
        position,
        reqs1,
    ) by {
        lemma_planned_edge_grow(
            edges0,
            edges1,
            plan[m],
            span.request_id,
            info.parents@[q]@,
            position,
            reqs0,
            reqs1,
        );
    }
}

/// Growing the tables keeps a span followed.
proof fn lemma_span_followed_grow(
    edges0: Seq<LineageEdge>,
    edges1: Seq<LineageEdge>,
    span_id: i64,
    span: SpanRow,
    reqs0: Seq<BlameRequest>,
    reqs1: Seq<BlameRequest>,
    commits0: Seq<CommitInfo>,
    commits1: Seq<CommitInfo>,
    diffs0: Seq<CachedDiff>,
    diffs1: Seq<CachedDiff>,
    max_depth: u32,
    since: CalendarDate,
)
    requires
        span_followed(edges0, span_id, span, reqs0, commits0, diffs0, max_depth, since),
        1 <= span.request_id <= reqs0.len(),
        extends(edges1, edges0),
        extends(reqs1, reqs0),
        extends(commits1, commits0),
        extends(diffs1, diffs0),
    ensures
        span_followed(edges1, span_id, span, reqs1, commits1, diffs1, max_depth, since),
{
    let c = choose|c: int|
        0 <= c < commits0.len() && (#[trigger] commits0[c]).sha@ == span.blamed_commit_sha@
            && commit_followed(edges0, span_id, span, reqs0, commits0[c], diffs0, max_depth, since);
    let info = commits0[c];
    assert(commits1[c] == info);
    assert(reqs1[span.request_id - 1] == reqs0[span.request_id - 1]);
    match spec_classify_terminal(
        reqs0[span.request_id - 1].depth,
        info.parents@.len(),
        info.committed_naive,
        max_depth,
        since,
    ) {
        Some(edge_type) => {
            let i = choose|i: int|
                0 <= i < edges0.len() && (#[trigger] edges0[i]).to_span_id == span_id
                    && edges0[i].from_request_id == span.request_id && edges0[i].parent_position
                    is None && edges0[i].edge_type == edge_type;
            assert(edges1[i] == edges0[i]);
        },
        None => {
            assert forall|q: int| 0 <= q < info.parents@.len() implies #[trigger] parent_followed(
                edges1,
                span_id,
                span,
                reqs1,
                info,
                diffs1,
                q,
            ) by {
                lemma_parent_followed_grow(
                    edges0,
                    edges1,
                    span_id,
                    span,
                    reqs0,
                    reqs1,
                    info,
                    diffs0,
                    diffs1,
                    q,
                );
            }
        },
    }
    assert(commit_followed(edges1, span_id, span, reqs1, commits1[c], diffs1, max_depth, since));
}

/// Each action of each span's plan appears in the plan of all the spans.
proof fn lemma_plan_all_covers(spans: Seq<(i64, BlameSpan)>, events: Seq<PersistedEvent>, j: int, m: int)
    requires
        0 <= j < spans.len(),
        0 <= m < span_plan(spans[j].0, spans[j].1, events).len(),
    ensures
        exists|k: int|
            0 <= k < plan_all(spans, events).len() && #[trigger] plan_all(spans, events)[k]
                == span_plan(spans[j].0, spans[j].1, events)[m],
    decreases spans.len(),
{
    let prev = spans.drop_last();
    let before = plan_all(prev, events);
    if j == spans.len() - 1 {
        let k = before.len() + m;
        assert(spans.last() == spans[j]);
        assert(plan_all(spans, events)[k] == span_plan(spans[j].0, spans[j].1, events)[m]);
    } else {
        assert(prev[j] == spans[j]);
        lemma_plan_all_covers(prev, events, j, m);
        let k = choose|k: int|
            0 <= k < before.len() && #[trigger] plan_all(prev, events)[k] == span_plan(
                prev[j].0,
                prev[j].1,
                events,
            )[m];
        assert(plan_all(spans, events)[k] == before[k]);
    }
}

/// The cutoff edges written for a group's spans follow each of them.
proof fn lemma_cutoff_followed(
    old_edges: Seq<LineageEdge>,
    new_edges: Seq<LineageEdge>,
    spans: Seq<SpanRow>,
    reqs: Seq<BlameRequest>,
    commits: Seq<CommitInfo>,
    diffs: Seq<CachedDiff>,
    max_depth: u32,
    since: CalendarDate,
    group: Seq<(i64, BlameSpan)>,
    c: int,
    scan_id: i64,
    from_request_id: i64,
    edge_type: LineageEdgeType,
)
    requires
        new_edges.len() == old_edges.len() + group.len(),
        forall|k: int|
            0 <= k < group.len() ==> #[trigger] new_edges[old_edges.len() + k] == (LineageEdge {
                id: (old_edges.len() + k + 1) as i64,
                scan_id,
                from_request_id,
                to_span_id: group[k].0,
                parent_sha: None,
                parent_position: None,
                next_request_id: None,
                edge_type,
            }),
        forall|k: int|
            0 <= k < group.len() ==> spans[(#[trigger] group[k]).0 - 1].request_id == from_request_id
                && spans[group[k].0 - 1].blamed_commit_sha@ == commits[c].sha@,
        0 <= c < commits.len(),
        spec_classify_terminal(
            reqs[from_request_id - 1].depth,
            commits[c].parents@.len(),
            commits[c].committed_naive,
            max_depth,
            since,
        ) == Some(edge_type),
    ensures
        forall|k: int|
            0 <= k < group.len() ==> span_followed(
                new_edges,
                (#[trigger] group[k]).0,
                spans[group[k].0 - 1],
                reqs,
                commits,
                diffs,
                max_depth,
                since,
            ),
{
    assert forall|k: int| 0 <= k < group.len() implies span_followed(
        new_edges,
        (#[trigger] group[k]).0,
        spans[group[k].0 - 1],
        reqs,
        commits,
        diffs,
        max_depth,
        since,
    ) by {
        let i = old_edges.len() + k;
        let e = new_edges[i];
        assert(e.to_span_id == group[k].0);
        assert(has_cutoff_edge(new_edges, group[k].0, from_request_id, edge_type));
        assert(commit_followed(
            new_edges,
            group[k].0,
            spans[group[k].0 - 1],
            reqs,
            commits[c],
            diffs,
            max_depth,
            since,
        ));
    }
}

/// The edges written from a plan against parent `q` follow each span of
/// the group into that parent.
proof fn lemma_parent_followed_written(
    old_edges: Seq<LineageEdge>,
    new_edges: Seq<LineageEdge>,
    spans: Seq<SpanRow>,
    reqs: Seq<BlameRequest>,
    info: CommitInfo,
    diffs: Seq<CachedDiff>,
    group: Seq<(i64, BlameSpan)>,
    actions: Seq<RecurseAction>,
    q: int,
    d: int,
    from_request_id: i64,
)
    requires
        new_edges.len() == old_edges.len() + actions.len(),
        forall|k: int|
            0 <= k < actions.len() ==> parent_edge_matches(
                #[trigger] new_edges[old_edges.len() + k],
                actions[k],
                from_request_id,
                info.parents@[q]@,
                ParentPos::Index(q as u32),
                reqs,
            ),
        actions == plan_all(group, diffs[d].diff.events@),
        forall|k: int|
            0 <= k < group.len() ==> {
                let row = spans[(#[trigger] group[k]).0 - 1];
                &&& row.request_id == from_request_id
                &&& span_of_row(row) == group[k].1
            },
        0 <= d < diffs.len(),
        diffs[d].commit_sha@ == info.sha@,
        diffs[d].position == ParentPos::Index(q as u32),
    ensures
        forall|k: int|
            0 <= k < group.len() ==> parent_followed(
                new_edges,
                (#[trigger] group[k]).0,
                spans[group[k].0 - 1],
                reqs,
                info,
                diffs,
                q,
            ),
{
    let events = diffs[d].diff.events@;
    let position = ParentPos::Index(q as u32);
    assert forall|k: int| 0 <= k < group.len() implies parent_followed(
        new_edges,
        (#[trigger] group[k]).0,
        spans[group[k].0 - 1],
        reqs,
        info,
        diffs,
        q,
    ) by {
        let row = spans[group[k].0 - 1];
        let plan = span_plan(group[k].0, span_of_row(row), events);
        assert(plan == span_plan(group[k].0, group[k].1, events));
        assert forall|m: int| 0 <= m < plan.len() implies has_planned_edge(
            new_edges,
            #[trigger] plan[m],
            row.request_id,
            info.parents@[q]@,
            position,
            reqs,
        ) by {
            lemma_plan_all_covers(group, events, k, m);
            let k2 = choose|k2: int|
                0 <= k2 < plan_all(group, events).len() && #[trigger] plan_all(group, events)[k2]
                    == span_plan(group[k].0, group[k].1, events)[m];
            let _ = new_edges[old_edges.len() + k2];
            assert(parent_edge_matches(
                new_edges[old_edges.len() + k2],
                actions[k2],
                from_request_id,
                info.parents@[q]@,
                position,
                reqs,
            ));
        }
    }
}

/// Growing the request and diff tables keeps a justification.
proof fn lemma_justifies_grow(
    edge: LineageEdge,
    span: SpanRow,
    reqs0: Seq<BlameRequest>,
    reqs1: Seq<BlameRequest>,
    info: CommitInfo,
    diffs0: Seq<CachedDiff>,
    diffs1: Seq<CachedDiff>,
    max_depth: u32,
    since: CalendarDate,
)
    requires
        commit_justifies(edge, span, reqs0, info, diffs0, max_depth, since),
        1 <= edge.from_request_id <= reqs0.len(),
        extends(reqs1, reqs0),
        extends(diffs1, diffs0),
    ensures
        commit_justifies(edge, span, reqs1, info, diffs1, max_depth, since),
{
    assert(reqs1[edge.from_request_id - 1] == reqs0[edge.from_request_id - 1]);
    match edge.parent_position {
        None => {},
        Some(p) => {
            let q = choose|q: int|
                0 <= q < info.parents@.len() && (q as u32) as i64 == p && #[trigger] parent_justifies(
                    edge,
                    span,
                    reqs0,
                    info,
                    diffs0,
                    q,
                );
            let parent_sha = info.parents@[q]@;
            let position = ParentPos::Index(q as u32);
            let d = choose|d: int|
                0 <= d < diffs0.len() && (#[trigger] diffs0[d]).commit_sha@ == info.sha@
                    && diffs0[d].position == position && planned_edge(
                    edge,
                    span,
                    reqs0,
                    parent_sha,
                    position,
                    diffs0[d].diff.events@,
                );
            assert(diffs1[d] == diffs0[d]);
            let plan = span_plan(edge.to_span_id, span_of_row(span), diffs0[d].diff.events@);
            let m = choose|m: int|
                0 <= m < plan.len() && parent_edge_matches(
                    edge,
                    #[trigger] plan[m],
                    edge.from_request_id,
                    parent_sha,
                    position,
                    reqs0,
                );
            match plan[m] {
                RecurseAction::Recurse { .. } => {
                    let n = edge.next_request_id->0;
                    assert(reqs1[n - 1] == reqs0[n - 1]);
                },
                _ => {},
            }
            assert(parent_edge_matches(
                edge,
                plan[m],
                edge.from_request_id,
                parent_sha,
                position,
                reqs1,
            ));
            assert(planned_edge(edge, span, reqs1, parent_sha, position, diffs1[d].diff.events@));
            assert(parent_justifies(edge, span, reqs1, info, diffs1, q));
        },
    }
}

/// Growing the tables an edge refers to keeps it accounted for.
proof fn lemma_justified_grow(
    edges: Seq<LineageEdge>,
    spans0: Seq<SpanRow>,
    reqs0: Seq<BlameRequest>,
    commits0: Seq<CommitInfo>,
    diffs0: Seq<CachedDiff>,
    spans1: Seq<SpanRow>,
    reqs1: Seq<BlameRequest>,
    commits1: Seq<CommitInfo>,
    diffs1: Seq<CachedDiff>,
    max_depth: u32,
    since: CalendarDate,
)
    requires
        forall|i: int|
            0 <= i < edges.len() ==> 1 <= (#[trigger] edges[i]).to_span_id <= spans0.len() && 1
                <= edges[i].from_request_id <= reqs0.len(),
        edges_justified(edges, spans0, reqs0, commits0, diffs0, max_depth, since),
        extends(spans1, spans0),
        extends(reqs1, reqs0),
        extends(commits1, commits0),
        extends(diffs1, diffs0),
    ensures
        edges_justified(edges, spans1, reqs1, commits1, diffs1, max_depth, since),
{
    assert forall|i: int| 0 <= i < edges.len() implies edge_justified(
        #[trigger] edges[i],
        spans1,
        reqs1,
        commits1,
        diffs1,
        max_depth,
        since,
    ) by {
        let e = edges[i];
        assert(edge_justified(e, spans0, reqs0, commits0, diffs0, max_depth, since));
        let span = spans0[e.to_span_id - 1];
        assert(spans1[e.to_span_id - 1] == span);
        let c = choose|c: int|
            0 <= c < commits0.len() && (#[trigger] commits0[c]).sha@ == span.blamed_commit_sha@
                && commit_justifies(e, span, reqs0, commits0[c], diffs0, max_depth, since);
        assert(commits1[c] == commits0[c]);
        lemma_justifies_grow(e, span, reqs0, reqs1, commits0[c], diffs0, diffs1, max_depth, since);
    }
}

proof fn lemma_hunk_actions_ids(
    span_id: i64,
    parent_path: String,
    origin_start: u32,
    origin_end_excl: int,
    hunks: Seq<DiffHunkInfo>,
)
    ensures
        forall|m: int|
            0 <= m < hunk_actions(span_id, parent_path, origin_start, origin_end_excl, hunks).len()
                ==> action_span_id(
                #[trigger] hunk_actions(span_id, parent_path, origin_start, origin_end_excl, hunks)[m],
            ) == span_id,
    decreases hunks.len(),
{
    if hunks.len() > 0 {
        let prev = hunks.drop_last();
        lemma_hunk_actions_ids(span_id, parent_path, origin_start, origin_end_excl, prev);
        let all = hunk_actions(span_id, parent_path, origin_start, origin_end_excl, hunks);
        let before = hunk_actions(span_id, parent_path, origin_start, origin_end_excl, prev);
        let last = hunk_action(span_id, parent_path, origin_start, origin_end_excl, hunks.last());
        assert forall|m: int| 0 <= m < all.len() implies action_span_id(#[trigger] all[m])
            == span_id by {
            if m < before.len() {
                assert(all[m] == before[m]);
            } else {
                assert(all[m] == last[m - before.len()]);
            }
        }
    }
}

/// Every action of a span's plan is about that span.
proof fn lemma_span_plan_ids(span_id: i64, span: BlameSpan, events: Seq<PersistedEvent>)
    ensures
        forall|m: int|
            0 <= m < span_plan(span_id, span, events).len() ==> action_span_id(
                #[trigger] span_plan(span_id, span, events)[m],
            ) == span_id,
{
    match (span.origin_path, span.origin_start_line) {
        (Some(origin_path), Some(origin_start)) => {
            let origin_end_excl = origin_start + span.line_count;
            match first_event_with_new_path(events, origin_path@) {
                Some(i) => {
                    let event = events[i].info;
                    match spec_parent_side_path(event) {
                        Some(parent_path) => {
                            lemma_hunk_actions_ids(
                                span_id,
                                parent_path,
                                origin_start,
                                origin_end_excl,
                                event.hunks@,
                            );
                        },
                        None => {},
                    }
                },
                None => {},
            }
        },
        _ => {},
    }
}

/// Every action of a plan comes from the plan of one of its spans.
proof fn lemma_plan_all_member(spans: Seq<(i64, BlameSpan)>, events: Seq<PersistedEvent>, k: int)
    requires
        0 <= k < plan_all(spans, events).len(),
    ensures
        exists|j: int, m: int|
            0 <= j < spans.len() && 0 <= m < span_plan(spans[j].0, spans[j].1, events).len()
                && plan_all(spans, events)[k] == #[trigger] span_plan(
                spans[j].0,
                spans[j].1,
                events,
            )[m],
    decreases spans.len(),
{
    let prev = spans.drop_last();
    let before = plan_all(prev, events);
    let last = span_plan(spans.last().0, spans.last().1, events);
    if k < before.len() {
        lemma_plan_all_member(prev, events, k);
        let (j, m) = choose|j: int, m: int|
            0 <= j < prev.len() && 0 <= m < span_plan(prev[j].0, prev[j].1, events).len()
                && plan_all(prev, events)[k] == #[trigger] span_plan(prev[j].0, prev[j].1, events)[m];
        assert(prev[j] == spans[j]);
        assert(plan_all(spans, events)[k] == before[k]);
        assert(plan_all(spans, events)[k] == span_plan(spans[j].0, spans[j].1, events)[m]);
    } else {
        let j = spans.len() - 1;
        let m = k - before.len();
        assert(spans[j] == spans.last());
        assert(plan_all(spans, events)[k] == last[m]);
        assert(plan_all(spans, events)[k] == span_plan(spans[j].0, spans[j].1, events)[m]);
    }
}

/// Cutoff edges written for a group's spans are accounted for by the
/// cutoff that the group's blamed commit hits.
proof fn lemma_cutoff_edges_justified(
    old_edges: Seq<LineageEdge>,
    new_edges: Seq<LineageEdge>,
    spans: Seq<SpanRow>,
    reqs: Seq<BlameRequest>,
    commits: Seq<CommitInfo>,
    diffs: Seq<CachedDiff>,
    max_depth: u32,
    since: CalendarDate,
    group: Seq<(i64, BlameSpan)>,
    c: int,
    scan_id: i64,
    from_request_id: i64,
    edge_type: LineageEdgeType,
)
    requires
        edges_justified(old_edges, spans, reqs, commits, diffs, max_depth, since),
        extends(new_edges, old_edges),
        new_edges.len() <= old_edges.len() + group.len(),
        forall|k: int|
            0 <= k < new_edges.len() - old_edges.len() ==> #[trigger] new_edges[old_edges.len() + k]
                == (LineageEdge {
                id: (old_edges.len() + k + 1) as i64,
                scan_id,
                from_request_id,
                to_span_id: group[k].0,
                parent_sha: None,
                parent_position: None,
                next_request_id: None,
                edge_type,
            }),
        forall|k: int|
            0 <= k < group.len() ==> spans[(#[trigger] group[k]).0 - 1].request_id == from_request_id
                && spans[group[k].0 - 1].blamed_commit_sha@ == commits[c].sha@,
        0 <= c < commits.len(),
        spec_classify_terminal(
            reqs[from_request_id - 1].depth,
            commits[c].parents@.len(),
            commits[c].committed_naive,
            max_depth,
            since,
        ) == Some(edge_type),
    ensures
        edges_justified(new_edges, spans, reqs, commits, diffs, max_depth, since),
{
    assert forall|i: int| 0 <= i < new_edges.len() implies edge_justified(
        #[trigger] new_edges[i],
        spans,
        reqs,
        commits,
        diffs,
        max_depth,
        since,
    ) by {
        if i < old_edges.len() {
            assert(new_edges[i] == old_edges[i]);
        } else {
            let k = i - old_edges.len();
            assert(new_edges[old_edges.len() + k] == new_edges[i]);
            let _ = group[k];
            assert(commits[c].sha@ == spans[new_edges[i].to_span_id - 1].blamed_commit_sha@);
        }
    }
}

/// Edges written from a plan against one parent of a group's blamed commit
/// are accounted for by that parent and its diff.
proof fn lemma_parent_edges_justified(
    old_edges: Seq<LineageEdge>,
    new_edges: Seq<LineageEdge>,
    spans: Seq<SpanRow>,
    reqs: Seq<BlameRequest>,
    commits: Seq<CommitInfo>,
    diffs: Seq<CachedDiff>,
    max_depth: u32,
    since: CalendarDate,
    group: Seq<(i64, BlameSpan)>,
    actions: Seq<RecurseAction>,
    c: int,
    q: int,
    d: int,
    from_request_id: i64,
)
    requires
        edges_justified(old_edges, spans, reqs, commits, diffs, max_depth, since),
        extends(new_edges, old_edges),
        new_edges.len() <= old_edges.len() + actions.len(),
        forall|k: int|
            0 <= k < new_edges.len() - old_edges.len() ==> parent_edge_matches(
                #[trigger] new_edges[old_edges.len() + k],
                actions[k],
                from_request_id,
                commits[c].parents@[q]@,
                ParentPos::Index(q as u32),
                reqs,
            ),
        actions == plan_all(group, diffs[d].diff.events@),
        forall|k: int|
            0 <= k < group.len() ==> {
                let row = spans[(#[trigger] group[k]).0 - 1];
                &&& row.request_id == from_request_id
                &&& row.blamed_commit_sha@ == commits[c].sha@
                &&& span_of_row(row) == group[k].1
            },
        0 <= c < commits.len(),
        0 <= q < commits[c].parents@.len(),
        0 <= d < diffs.len(),
        diffs[d].commit_sha@ == commits[c].sha@,
        diffs[d].position == ParentPos::Index(q as u32),
        spec_classify_terminal(
            reqs[from_request_id - 1].depth,
            commits[c].parents@.len(),
            commits[c].committed_naive,
            max_depth,
            since,
        ) is None,
    ensures
        edges_justified(new_edges, spans, reqs, commits, diffs, max_depth, since),
{
    let events = diffs[d].diff.events@;
    let position = ParentPos::Index(q as u32);
    let parent_sha = commits[c].parents@[q]@;
    assert forall|i: int| 0 <= i < new_edges.len() implies edge_justified(
        #[trigger] new_edges[i],
        spans,
        reqs,
        commits,
        diffs,
        max_depth,
        since,
    ) by {
        if i < old_edges.len() {
            assert(new_edges[i] == old_edges[i]);
        } else {
            let k = i - old_edges.len();
            let e = new_edges[i];
            assert(new_edges[old_edges.len() + k] == e);
            assert(parent_edge_matches(e, actions[k], from_request_id, parent_sha, position, reqs));
            lemma_plan_all_member(group, events, k);
            let (j, m) = choose|j: int, m: int|
                0 <= j < group.len() && 0 <= m < span_plan(group[j].0, group[j].1, events).len()
                    && plan_all(group, events)[k] == #[trigger] span_plan(
                    group[j].0,
                    group[j].1,
                    events,
                )[m];
            lemma_span_plan_ids(group[j].0, group[j].1, events);
            assert(action_span_id(span_plan(group[j].0, group[j].1, events)[m]) == group[j].0);
            assert(e.to_span_id == group[j].0);
            let row = spans[e.to_span_id - 1];
            let _ = group[j];
            assert(span_of_row(row) == group[j].1);
            assert(planned_edge(e, row, reqs, parent_sha, position, events));
            assert(parent_justifies(e, row, reqs, commits[c], diffs, q));
            assert(commit_justifies(e, row, reqs, commits[c], diffs, max_depth, since));
        }
    }
}

// ---------------------------------------------------------------------------
// Table invariants, continued

spec fn edges_table_ok(
    edges: Seq<LineageEdge>,
    counter: IdCounter,
    scan_id: i64,
    nreq: int,
    nspan: int,
) -> bool {
    &&& forall|i: int| 0 <= i < edges.len() ==> #[trigger] edges[i].id == i + 1
    &&& counter.value() == edges.len() + 1
    &&& forall|i: int| 0 <= i < edges.len() ==> edge_row_ok(#[trigger] edges[i], scan_id, nreq, nspan)
}

/// `new` extends `old`: it starts with every element of `old`.
pub open spec fn extends<T>(new: Seq<T>, old: Seq<T>) -> bool {
    &&& old.len() <= new.len()
    &&& forall|i: int| 0 <= i < old.len() ==> new[i] == old[i]
}

// ---------------------------------------------------------------------------
// Writing rows

/// The index of the request with the given key.
fn find_request(
    reqs: &Vec<BlameRequest>,
    commit_sha: &String,
    path: &String,
    start_line: i64,
    end_line: i64,
) -> (found: Option<usize>)
    ensures
        match found {
            Some(j) => j < reqs@.len() && request_key(reqs@[j as int]) == (
                commit_sha@,
                path@,
                start_line,
                end_line,
            ),
            None => forall|j: int|
                0 <= j < reqs@.len() ==> request_key(#[trigger] reqs@[j]) != (
                    commit_sha@,
                    path@,
                    start_line,
                    end_line,
                ),
        },
{
    let n = reqs.len();
    for j in 0..n
        invariant
            n == reqs@.len(),
            forall|k: int|
                0 <= k < j ==> request_key(#[trigger] reqs@[k]) != (
                    commit_sha@,
                    path@,
                    start_line,
                    end_line,
                ),
    {
        let r = &reqs[j];
        if r.start_line == start_line && r.end_line == end_line && r.commit_sha.eq(commit_sha)
            && r.path.eq(path) {
            return Some(j);
        }
    }
    None
}

/// Insert (or look up) a blame request. Returns its id, whether new or
/// already enqueued. New requests are pushed onto the work queue. `None`
/// only where a new request would need an id past `i64::MAX`.
fn enqueue_request(
    reqs: &mut Vec<BlameRequest>,
    queue: &mut VecDeque<i64>,
    counter: &mut IdCounter,
    scan_id: i64,
    max_depth: u32,
    commit_sha: String,
    path: String,
    start_line: i64,
    end_line: i64,
    depth: u32,
    reason: BlameReason,
) -> (id: Option<i64>)
    requires
        requests_table_ok(old(reqs)@, old(queue)@, *old(counter), scan_id, max_depth),
        0 <= start_line <= u32::MAX,
        0 <= end_line <= u32::MAX,
        depth <= max_depth,
    ensures
        requests_table_ok(final(reqs)@, final(queue)@, *final(counter), scan_id, max_depth),
        extends(final(reqs)@, old(reqs)@),
        extends(final(queue)@, old(queue)@),
        final(reqs)@.len() <= old(reqs)@.len() + 1,
        final(queue)@.len() - old(queue)@.len() == final(reqs)@.len() - old(reqs)@.len(),
        id matches Some(i) ==> 1 <= i <= final(reqs)@.len() && request_key(
            final(reqs)@[i - 1],
        ) == (commit_sha@, path@, start_line, end_line),
        id matches Some(i) ==> (i > old(reqs)@.len() ==> final(reqs)@[i - 1].depth == depth
            && final(reqs)@[i - 1].reason == reason),
        forall|j: int|
            0 <= j < old(reqs)@.len() && request_key(#[trigger] old(reqs)@[j]) == (
                commit_sha@,
                path@,
                start_line,
                end_line,
            ) ==> id == Some((j + 1) as i64) && final(reqs)@ == old(reqs)@,
        id is None ==> final(reqs)@ == old(reqs)@ && final(queue)@ == old(queue)@,
        id is None <==> (old(counter).value() == i64::MAX && forall|j: int|
            0 <= j < old(reqs)@.len() ==> request_key(#[trigger] old(reqs)@[j]) != (
                commit_sha@,
                path@,
                start_line,
                end_line,
            )),
{
    match find_request(reqs, &commit_sha, &path, start_line, end_line) {
        Some(j) => {
            proof {
                assert forall|k: int|
                    0 <= k < reqs@.len() && request_key(#[trigger] reqs@[k]) == (
                        commit_sha@,
                        path@,
                        start_line,
                        end_line,
                    ) implies k == j by {
                    if k < j {
                        assert(request_key(reqs@[k]) != request_key(reqs@[j as int]));
                    } else if k > j {
                        assert(request_key(reqs@[j as int]) != request_key(reqs@[k]));
                    }
                }
            }
            return Some(reqs[j].id);
        },
        None => {},
    }
    if !counter.has_room() {
        return None;
    }
    let id = counter.allocate();
    let ghost old_reqs = reqs@;
    let ghost old_queue = queue@;
    queue.push_back(id);
    reqs.push(
        BlameRequest { id, scan_id, commit_sha, path, start_line, end_line, depth, reason },
    );
    proof {
        let n = reqs@.len();
        assert forall|i: int, j: int| 0 <= i < j < n implies request_key(#[trigger] reqs@[i])
            != request_key(#[trigger] reqs@[j]) by {
            if j == n - 1 {
                assert(reqs@[i] == old_reqs[i]);
            } else {
                assert(reqs@[i] == old_reqs[i]);
                assert(reqs@[j] == old_reqs[j]);
            }
        }
        assert forall|k: int| 0 <= k < queue@.len() implies #[trigger] queue@[k] == reqs@.len()
            - queue@.len() + k + 1 by {
            if k < old_queue.len() {
                assert(queue@[k] == old_queue[k]);
            }
        }
        assert forall|i: int| 0 <= i < n implies request_row_ok(#[trigger] reqs@[i], scan_id, max_depth) by {
            if i < n - 1 {
                assert(reqs@[i] == old_reqs[i]);
            }
        }
    }
    Some(id)
}

/// Appends a terminal edge for every span of a blamed commit.
fn write_terminal_for_all(
    edges: &mut Vec<LineageEdge>,
    counter: &mut IdCounter,
    scan_id: i64,
    nreq: Ghost<int>,
    nspan: Ghost<int>,
    from_request_id: i64,
    spans: &[(i64, BlameSpan)],
    edge_type: LineageEdgeType,
) -> (complete: bool)
    requires
        edges_table_ok(old(edges)@, *old(counter), scan_id, nreq@, nspan@),
        1 <= from_request_id <= nreq@,
        forall|k: int| 0 <= k < spans@.len() ==> 1 <= (#[trigger] spans@[k]).0 <= nspan@,
        is_cutoff_edge(edge_type),
    ensures
        edges_table_ok(final(edges)@, *final(counter), scan_id, nreq@, nspan@),
        extends(final(edges)@, old(edges)@),
        final(edges)@.len() <= old(edges)@.len() + spans@.len(),
        complete == (old(counter).value() + spans@.len() <= i64::MAX),
        complete == (final(edges)@.len() == old(edges)@.len() + spans@.len()),
        !complete ==> final(counter).value() == i64::MAX,
        forall|k: int|
            0 <= k < final(edges)@.len() - old(edges)@.len() ==> #[trigger] final(edges)@[old(
                edges,
            )@.len() + k] == (LineageEdge {
                id: (old(edges)@.len() + k + 1) as i64,
                scan_id,
                from_request_id,
                to_span_id: spans@[k].0,
                parent_sha: None,
                parent_position: None,
                next_request_id: None,
                edge_type,
            }),
        complete ==> final(edges)@ == old(edges)@ + Seq::new(
            spans@.len(),
            |k: int|
                LineageEdge {
                    id: (old(edges)@.len() + k + 1) as i64,
                    scan_id,
                    from_request_id,
                    to_span_id: spans@[k].0,
                    parent_sha: None,
                    parent_position: None,
                    next_request_id: None,
                    edge_type,
                },
        ),
{
    let ghost start = edges@;
    let n = spans.len();
    for k in 0..n
        invariant
            n == spans@.len(),
            edges_table_ok(edges@, *counter, scan_id, nreq@, nspan@),
            1 <= from_request_id <= nreq@,
            forall|j: int| 0 <= j < spans@.len() ==> 1 <= (#[trigger] spans@[j]).0 <= nspan@,
            is_cutoff_edge(edge_type),
            extends(edges@, start),
            start == old(edges)@,
            old(counter).value() == start.len() + 1,
            edges@ == start + Seq::new(
                k as nat,
                |j: int|
                    LineageEdge {
                        id: (start.len() + j + 1) as i64,
                        scan_id,
                        from_request_id,
                        to_span_id: spans@[j].0,
                        parent_sha: None,
                        parent_position: None,
                        next_request_id: None,
                        edge_type,
                    },
            ),
    {
        if !counter.has_room() {
            return false;
        }
        let id = counter.allocate();
        let ghost before = edges@;
        edges.push(
            LineageEdge {
                id,
                scan_id,
                from_request_id,
                to_span_id: spans[k].0,
                parent_sha: None,
                parent_position: None,
                next_request_id: None,
                edge_type,
            },
        );
        proof {
            assert forall|i: int| 0 <= i < edges@.len() implies edge_row_ok(
                #[trigger] edges@[i],
                scan_id,
                nreq@,
                nspan@,
            ) by {
                if i < before.len() {
                    assert(edges@[i] == before[i]);
                }
            }
            assert forall|i: int| 0 <= i < edges@.len() implies #[trigger] edges@[i].id == i + 1 by {
                if i < before.len() {
                    assert(edges@[i] == before[i]);
                }
            }
        }
        assert(edges@ =~= start + Seq::new(
            (k + 1) as nat,
            |j: int|
                LineageEdge {
                    id: (start.len() + j + 1) as i64,
                    scan_id,
                    from_request_id,
                    to_span_id: spans@[j].0,
                    parent_sha: None,
                    parent_position: None,
                    next_request_id: None,
                    edge_type,
                },
        ));
    }
    true
}

/// The edge written for one action against one parent: it starts at the
/// request being processed, crosses into `parent_sha` at `position`, and
/// either ends the span's lineage or points at the request that follows it.
pub open spec fn parent_edge_matches(
    edge: LineageEdge,
    action: RecurseAction,
    from_request_id: i64,
    parent_sha: Seq<char>,
    position: ParentPos,
    reqs: Seq<BlameRequest>,
) -> bool {
    &&& edge.from_request_id == from_request_id
    &&& opt_seq(edge.parent_sha) == Some(parent_sha)
    &&& edge.parent_position == position.spec_sql()
    &&& match action {
        RecurseAction::Terminal { span_id, edge_type } => {
            &&& edge.to_span_id == span_id
            &&& edge.edge_type == edge_type
            &&& edge.next_request_id is None
        },
        RecurseAction::Recurse { span_id, parent_path, parent_start, parent_end } => {
            &&& edge.to_span_id == span_id
            &&& edge.edge_type == LineageEdgeType::RecurseToParent
            &&& edge.next_request_id matches Some(n) && 1 <= n <= reqs.len() && request_key(
                reqs[n - 1],
            ) == (parent_sha, parent_path@, parent_start, parent_end)
        },
    }
}

pub open spec fn opt_seq(o: Option<String>) -> Option<Seq<char>> {
    match o {
        Some(s) => Some(s@),
        None => None,
    }
}

spec fn action_fits(action: RecurseAction, nspan: int) -> bool {
    match action {
        RecurseAction::Terminal { span_id, edge_type } => {
            &&& 1 <= span_id <= nspan
            &&& is_parent_terminal_edge(edge_type)
        },
        RecurseAction::Recurse { span_id, parent_start, parent_end, .. } => {
            &&& 1 <= span_id <= nspan
            &&& 0 <= parent_start <= u32::MAX
            &&& 0 <= parent_end <= u32::MAX
        },
    }
}

/// Edges appended after `edges_before` that all leave `from_request_id`
/// extend a run of such edges that starts at position `start`.
proof fn lemma_new_edges_from(
    start: int,
    edges_before: Seq<LineageEdge>,
    edges: Seq<LineageEdge>,
    from_request_id: i64,
)
    requires
        0 <= start <= edges_before.len(),
        forall|i: int|
            start <= i < edges_before.len() ==> (#[trigger] edges_before[i]).from_request_id
                == from_request_id,
        extends(edges, edges_before),
        forall|k: int|
            0 <= k < edges.len() - edges_before.len() ==> (#[trigger] edges[edges_before.len()
                + k]).from_request_id == from_request_id,
    ensures
        forall|i: int| start <= i < edges.len() ==> (#[trigger] edges[i]).from_request_id == from_request_id,
{
    assert forall|i: int| start <= i < edges.len() implies (#[trigger] edges[i]).from_request_id
        == from_request_id by {
        if i < edges_before.len() {
            assert(edges[i] == edges_before[i]);
        } else {
            let k = i - edges_before.len();
            assert(edges[edges_before.len() + k] == edges[i]);
        }
    }
}

/// Requests appended after `reqs_before`, one level below the request with
/// index `current`, extend a run of such requests that starts where `reqs0`
/// ends.
proof fn lemma_new_requests_below(
    reqs0: Seq<BlameRequest>,
    reqs_before: Seq<BlameRequest>,
    reqs: Seq<BlameRequest>,
    current: int,
)
    requires
        0 <= current < reqs0.len(),
        extends(reqs_before, reqs0),
        extends(reqs, reqs_before),
        forall|j: int|
            reqs0.len() <= j < reqs_before.len() ==> (#[trigger] reqs_before[j]).depth
                == reqs0[current].depth + 1 && reqs_before[j].reason == BlameReason::ParentRecurse,
        forall|j: int|
            reqs_before.len() <= j < reqs.len() ==> (#[trigger] reqs[j]).depth
                == reqs_before[current].depth + 1 && reqs[j].reason == BlameReason::ParentRecurse,
    ensures
        forall|j: int|
            reqs0.len() <= j < reqs.len() ==> (#[trigger] reqs[j]).depth == reqs0[current].depth + 1
                && reqs[j].reason == BlameReason::ParentRecurse,
{
    assert(reqs_before[current] == reqs0[current]);
    assert forall|j: int| reqs0.len() <= j < reqs.len() implies (#[trigger] reqs[j]).depth
        == reqs0[current].depth + 1 && reqs[j].reason == BlameReason::ParentRecurse by {
        if j < reqs_before.len() {
            assert(reqs[j] == reqs_before[j]);
        }
    }
}

/// Some edge at position `from` or later links on to the request with
/// index `j`.
pub open spec fn links_to(edges: Seq<LineageEdge>, from: int, j: int) -> bool {
    exists|k: int|
        from <= k < edges.len() && (#[trigger] edges[k]).next_request_id == Some((j + 1) as i64)
}

/// Where the request with index `j` comes from: a seed's request is at
/// depth 0; a request made to follow spans into a parent is one level
/// below a request with an edge that links on to it.
pub open spec fn request_sourced(reqs: Seq<BlameRequest>, edges: Seq<LineageEdge>, j: int) -> bool {
    let r = reqs[j];
    match r.reason {
        BlameReason::Seed => r.depth == 0,
        BlameReason::ParentRecurse => exists|i: int|
            0 <= i < edges.len() && (#[trigger] edges[i]).next_request_id == Some((j + 1) as i64)
                && 1 <= edges[i].from_request_id <= reqs.len() && reqs[edges[i].from_request_id
                - 1].depth + 1 == r.depth,
    }
}

/// Every request is accounted for.
pub open spec fn requests_sourced(reqs: Seq<BlameRequest>, edges: Seq<LineageEdge>) -> bool {
    forall|j: int| 0 <= j < reqs.len() ==> #[trigger] request_sourced(reqs, edges, j)
}

/// Growing the tables keeps every request accounted for.
proof fn lemma_sourced_grow(
    reqs0: Seq<BlameRequest>,
    reqs1: Seq<BlameRequest>,
    edges0: Seq<LineageEdge>,
    edges1: Seq<LineageEdge>,
)
    requires
        requests_sourced(reqs0, edges0),
        extends(reqs1, reqs0),
        extends(edges1, edges0),
    ensures
        forall|j: int| 0 <= j < reqs0.len() ==> #[trigger] request_sourced(reqs1, edges1, j),
{
    assert forall|j: int| 0 <= j < reqs0.len() implies #[trigger] request_sourced(
        reqs1,
        edges1,
        j,
    ) by {
        assert(request_sourced(reqs0, edges0, j));
        assert(reqs1[j] == reqs0[j]);
        match reqs0[j].reason {
            BlameReason::Seed => {},
            BlameReason::ParentRecurse => {
                let i = choose|i: int|
                    0 <= i < edges0.len() && (#[trigger] edges0[i]).next_request_id == Some(
                        (j + 1) as i64,
                    ) && 1 <= edges0[i].from_request_id <= reqs0.len() && reqs0[edges0[i].from_request_id
                        - 1].depth + 1 == reqs0[j].depth;
                assert(edges1[i] == edges0[i]);
                assert(reqs1[edges0[i].from_request_id - 1] == reqs0[edges0[i].from_request_id - 1]);
            },
        }
    }
}

/// Applies the planned actions for one parent: terminal actions become
/// terminal edges; recursing actions enqueue (or find) the request for the
/// parent's range and link to it.
fn write_parent_actions(
    edges: &mut Vec<LineageEdge>,
    edge_counter: &mut IdCounter,
    reqs: &mut Vec<BlameRequest>,
    queue: &mut VecDeque<i64>,
    req_counter: &mut IdCounter,
    scan_id: i64,
    max_depth: u32,
    nspan: Ghost<int>,
    from_request_id: i64,
    depth: u32,
    parent_sha: &String,
    position: ParentPos,
    actions: Vec<RecurseAction>,
) -> (complete: bool)
    requires
        requests_table_ok(old(reqs)@, old(queue)@, *old(req_counter), scan_id, max_depth),
        edges_table_ok(old(edges)@, *old(edge_counter), scan_id, old(reqs)@.len() as int, nspan@),
        1 <= from_request_id <= old(reqs)@.len(),
        depth < max_depth,
        position is Index,
        forall|k: int| 0 <= k < actions@.len() ==> action_fits(#[trigger] actions@[k], nspan@),
    ensures
        requests_table_ok(final(reqs)@, final(queue)@, *final(req_counter), scan_id, max_depth),
        edges_table_ok(
            final(edges)@,
            *final(edge_counter),
            scan_id,
            final(reqs)@.len() as int,
            nspan@,
        ),
        extends(final(edges)@, old(edges)@),
        extends(final(reqs)@, old(reqs)@),
        extends(final(queue)@, old(queue)@),
        final(queue)@.len() - old(queue)@.len() == final(reqs)@.len() - old(reqs)@.len(),
        forall|i: int|
            old(reqs)@.len() <= i < final(reqs)@.len() ==> (#[trigger] final(reqs)@[i]).depth
                == depth + 1 && final(reqs)@[i].reason == BlameReason::ParentRecurse,
        complete == (final(edges)@.len() == old(edges)@.len() + actions@.len()),
        final(edges)@.len() <= old(edges)@.len() + actions@.len(),
        final(reqs)@.len() <= old(reqs)@.len() + actions@.len(),
        !complete ==> final(edge_counter).value() == i64::MAX || final(req_counter).value()
            == i64::MAX,
        old(edge_counter).value() + actions@.len() <= i64::MAX && old(req_counter).value()
            + actions@.len() <= i64::MAX ==> complete,
        forall|k: int|
            0 <= k < final(edges)@.len() - old(edges)@.len() ==> parent_edge_matches(
                #[trigger] final(edges)@[old(edges)@.len() + k],
                actions@[k],
                from_request_id,
                parent_sha@,
                position,
                final(reqs)@,
            ),
        complete ==> forall|j: int|
            old(reqs)@.len() <= j < final(reqs)@.len() ==> #[trigger] links_to(
                final(edges)@,
                old(edges)@.len() as int,
                j,
            ),
{
    let ghost all = actions@;
    let ghost start_edges = edges@;
    let ghost start_reqs = reqs@;
    let ghost start_queue = queue@;
    let parent_position = position.to_sql();
    for action in it: actions
        invariant
            it.seq() == all,
            start_edges == old(edges)@,
            start_reqs == old(reqs)@,
            start_queue == old(queue)@,
            old(edge_counter).value() == start_edges.len() + 1,
            old(req_counter).value() == start_reqs.len() + 1,
            reqs@.len() <= start_reqs.len() + it.index(),
            it.index() <= all.len(),
            parent_position == position.spec_sql(),
            position is Index,
            requests_table_ok(reqs@, queue@, *req_counter, scan_id, max_depth),
            edges_table_ok(edges@, *edge_counter, scan_id, reqs@.len() as int, nspan@),
            extends(edges@, start_edges),
            extends(reqs@, start_reqs),
            extends(queue@, start_queue),
            queue@.len() - start_queue.len() == reqs@.len() - start_reqs.len(),
            1 <= from_request_id <= start_reqs.len(),
            depth < max_depth,
            forall|k: int| 0 <= k < all.len() ==> action_fits(#[trigger] all[k], nspan@),
            forall|i: int|
                start_reqs.len() <= i < reqs@.len() ==> (#[trigger] reqs@[i]).depth == depth + 1
                    && reqs@[i].reason == BlameReason::ParentRecurse,
            edges@.len() == start_edges.len() + it.index(),
            forall|j: int|
                start_reqs.len() <= j < reqs@.len() ==> #[trigger] links_to(
                    edges@,
                    start_edges.len() as int,
                    j,
                ),
            forall|k: int|
                0 <= k < it.index() ==> parent_edge_matches(
                    #[trigger] edges@[start_edges.len() + k],
                    all[k],
                    from_request_id,
                    parent_sha@,
                    position,
                    reqs@,
                ),
    {
        let ghost k = it.index() as int;
        let ghost before_edges = edges@;
        let ghost before_reqs = reqs@;
        assert(action == all[k]);
        assert(action_fits(all[k], nspan@));
        match action {
            RecurseAction::Terminal { span_id, edge_type } => {
                if !edge_counter.has_room() {
                    return false;
                }
                let id = edge_counter.allocate();
                edges.push(
                    LineageEdge {
                        id,
                        scan_id,
                        from_request_id,
                        to_span_id: span_id,
                        parent_sha: Some(parent_sha.clone()),
                        parent_position,
                        next_request_id: None,
                        edge_type,
                    },
                );
            },
            RecurseAction::Recurse { span_id, parent_path, parent_start, parent_end } => {
                let ghost path_view = parent_path@;
                let next = enqueue_request(
                    reqs,
                    queue,
                    req_counter,
                    scan_id,
                    max_depth,
                    parent_sha.clone(),
                    parent_path,
                    parent_start,
                    parent_end,
                    depth + 1,
                    BlameReason::ParentRecurse,
                );
                let next_id = match next {
                    Some(n) => n,
                    None => {
                        proof {
                            assert forall|i: int| 0 <= i < edges@.len() implies edge_row_ok(
                                #[trigger] edges@[i],
                                scan_id,
                                reqs@.len() as int,
                                nspan@,
                            ) by {}
                        }
                        return false;
                    },
                };
                if !edge_counter.has_room() {
                    proof {
                        assert forall|i: int| 0 <= i < edges@.len() implies edge_row_ok(
                            #[trigger] edges@[i],
                            scan_id,
                            reqs@.len() as int,
                            nspan@,
                        ) by {}
                    }
                    return false;
                }
                let id = edge_counter.allocate();
                edges.push(
                    LineageEdge {
                        id,
                        scan_id,
                        from_request_id,
                        to_span_id: span_id,
                        parent_sha: Some(parent_sha.clone()),
                        parent_position,
                        next_request_id: Some(next_id),
                        edge_type: LineageEdgeType::RecurseToParent,
                    },
                );
            },
        }
        proof {
            assert forall|i: int| 0 <= i < edges@.len() implies edge_row_ok(
                #[trigger] edges@[i],
                scan_id,
                reqs@.len() as int,
                nspan@,
            ) by {
                if i < before_edges.len() {
                    assert(edges@[i] == before_edges[i]);
                }
            }
            assert forall|i: int| 0 <= i < edges@.len() implies #[trigger] edges@[i].id == i + 1 by {
                if i < before_edges.len() {
                    assert(edges@[i] == before_edges[i]);
                }
            }
            assert forall|j: int| 0 <= j < k + 1 implies parent_edge_matches(
                #[trigger] edges@[start_edges.len() + j],
                all[j],
                from_request_id,
                parent_sha@,
                position,
                reqs@,
            ) by {
                if j < k {
                    assert(edges@[start_edges.len() + j] == before_edges[start_edges.len() + j]);
                    assert(parent_edge_matches(
                        before_edges[start_edges.len() + j],
                        all[j],
                        from_request_id,
                        parent_sha@,
                        position,
                        before_reqs,
                    ));
                    match all[j] {
                        RecurseAction::Recurse { .. } => {
                            let n = before_edges[start_edges.len() + j].next_request_id->0;
                            assert(reqs@[n - 1] == before_reqs[n - 1]);
                        },
                        _ => {},
                    }
                }
            }
            assert forall|i: int| start_reqs.len() <= i < reqs@.len() implies (
            #[trigger] reqs@[i]).depth == depth + 1 && reqs@[i].reason
                == BlameReason::ParentRecurse by {
                if i < before_reqs.len() {
                    assert(reqs@[i] == before_reqs[i]);
                }
            }
            assert forall|j: int| start_reqs.len() <= j < reqs@.len() implies #[trigger] links_to(
                edges@,
                start_edges.len() as int,
                j,
            ) by {
                if j < before_reqs.len() {
                    assert(links_to(before_edges, start_edges.len() as int, j));
                    let k2 = choose|k2: int|
                        start_edges.len() <= k2 < before_edges.len() && (
                        #[trigger] before_edges[k2]).next_request_id == Some((j + 1) as i64);
                    assert(edges@[k2] == before_edges[k2]);
                } else {
                    assert(edges@[start_edges.len() + k].next_request_id == Some((j + 1) as i64));
                }
            }
        }
    }
    true
}

/// The `commits` row of a commit.
pub open spec fn commit_row(info: CommitInfo, repository_id: i64) -> Commit {
    Commit {
        repository_id,
        sha: info.sha,
        tree_sha: Some(info.tree_sha),
        author_name: info.author_name,
        author_email: info.author_email,
        authored_at: info.authored_at,
        committer_name: info.committer_name,
        committer_email: info.committer_email,
        committed_at: info.committed_at,
        message: info.message,
    }
}

/// The `commit_parents` rows of a commit, one per parent in order.
pub open spec fn commit_parent_rows(info: CommitInfo, repository_id: i64) -> Seq<CommitParent> {
    Seq::new(
        info.parents@.len(),
        |i: int|
            CommitParent {
                repository_id,
                commit_sha: info.sha,
                parent_sha: info.parents@[i],
                parent_position: i as i64,
            },
    )
}

/// The `commit_parents` rows of a list of commits, in order.
pub open spec fn parent_rows_of(commits: Seq<CommitInfo>, repository_id: i64) -> Seq<CommitParent>
    decreases commits.len(),
{
    if commits.len() == 0 {
        Seq::empty()
    } else {
        parent_rows_of(commits.drop_last(), repository_id) + commit_parent_rows(
            commits.last(),
            repository_id,
        )
    }
}

/// The `commits` and `commit_parents` rows are those of the given commits.
#[verifier::opaque]
pub open spec fn commit_rows_match(
    rows: Seq<Commit>,
    parents: Seq<CommitParent>,
    commits: Seq<CommitInfo>,
    repository_id: i64,
) -> bool {
    &&& rows == commits.map_values(|info: CommitInfo| commit_row(info, repository_id))
    &&& parents == parent_rows_of(commits, repository_id)
}

/// The `commits` rows follow the recorded metadata one for one, and no
/// commit is recorded twice.
pub open spec fn commits_table_ok(rows: Seq<Commit>, cache: Seq<CommitInfo>) -> bool {
    &&& rows.len() == cache.len()
    &&& forall|i: int| 0 <= i < rows.len() ==> (#[trigger] rows[i]).sha@ == cache[i].sha@
    &&& forall|i: int, j: int|
        0 <= i < j < cache.len() ==> (#[trigger] cache[i]).sha@ != (#[trigger] cache[j]).sha@
}

/// The index of the cached metadata of a commit.
fn find_commit(cache: &Vec<CommitInfo>, sha: &String) -> (found: Option<usize>)
    ensures
        match found {
            Some(c) => c < cache@.len() && cache@[c as int].sha@ == sha@,
            None => forall|c: int| 0 <= c < cache@.len() ==> (#[trigger] cache@[c]).sha@ != sha@,
        },
{
    let n = cache.len();
    for c in 0..n
        invariant
            n == cache@.len(),
            forall|j: int| 0 <= j < c ==> (#[trigger] cache@[j]).sha@ != sha@,
    {
        if cache[c].sha.eq(sha) {
            return Some(c);
        }
    }
    None
}

/// Whether the metadata of the commit `sha` is among those recorded.
pub open spec fn commit_cached(cache: Seq<CommitInfo>, sha: Seq<char>) -> bool {
    exists|c: int| 0 <= c < cache.len() && (#[trigger] cache[c]).sha@ == sha
}

/// The `commits` rows, `commit_parents` rows and recorded metadata after
/// storing the commit `info`: unchanged where it was recorded already, else
/// each grown by what the commit gives.
pub open spec fn after_store(
    commits: Seq<Commit>,
    parent_rows: Seq<CommitParent>,
    cache: Seq<CommitInfo>,
    repository_id: i64,
    info: CommitInfo,
) -> (Seq<Commit>, Seq<CommitParent>, Seq<CommitInfo>) {
    if commit_cached(cache, info.sha@) {
        (commits, parent_rows, cache)
    } else {
        (
            commits.push(commit_row(info, repository_id)),
            parent_rows + commit_parent_rows(info, repository_id),
            cache.push(info),
        )
    }
}

/// Law of storing commits: storing the same commit a second time adds
/// nothing.
pub proof fn lemma_store_commit_twice(
    commits: Seq<Commit>,
    parent_rows: Seq<CommitParent>,
    cache: Seq<CommitInfo>,
    repository_id: i64,
    info: CommitInfo,
)
    ensures
        ({
            let once = after_store(commits, parent_rows, cache, repository_id, info);
            after_store(once.0, once.1, once.2, repository_id, info) == once
        }),
{
    let once = after_store(commits, parent_rows, cache, repository_id, info);
    if !commit_cached(cache, info.sha@) {
        assert(once.2[cache.len() as int] == info);
        assert(commit_cached(once.2, info.sha@));
    }
}

/// Law of the rows of a newly stored commit: one `commits` row that carries
/// the commit's own metadata field for field (its hash, tree, author name,
/// email and time, committer name, email and time, message, under the
/// given repository), and one `commit_parents` row per parent, in the order
/// of the parents, each naming the commit, that parent and its position.
pub proof fn lemma_stored_commit_rows(
    commits: Seq<Commit>,
    parent_rows: Seq<CommitParent>,
    cache: Seq<CommitInfo>,
    repository_id: i64,
    info: CommitInfo,
)
    requires
        !commit_cached(cache, info.sha@),
    ensures
        ({
            let (rows, parents, _) = after_store(commits, parent_rows, cache, repository_id, info);
            let row = rows.last();
            &&& rows.len() == commits.len() + 1
            &&& row.repository_id == repository_id
            &&& row.sha == info.sha
            &&& row.tree_sha == Some(info.tree_sha)
            &&& row.author_name == info.author_name
            &&& row.author_email == info.author_email
            &&& row.authored_at == info.authored_at
            &&& row.committer_name == info.committer_name
            &&& row.committer_email == info.committer_email
            &&& row.committed_at == info.committed_at
            &&& row.message == info.message
            &&& parents.len() == parent_rows.len() + info.parents@.len()
            &&& forall|k: int|
                0 <= k < info.parents@.len() ==> {
                    let p = #[trigger] parents[parent_rows.len() + k];
                    &&& p.repository_id == repository_id
                    &&& p.commit_sha == info.sha
                    &&& p.parent_sha == info.parents@[k]
                    &&& p.parent_position == k as i64
                }
        }),
{
    let out = after_store(commits, parent_rows, cache, repository_id, info);
    let added = commit_parent_rows(info, repository_id);
    assert(out.0 == commits.push(commit_row(info, repository_id)));
    assert(out.1 == parent_rows + added);
    assert forall|k: int| 0 <= k < info.parents@.len() implies #[trigger] out.1[parent_rows.len()
        + k] == added[k] by {}
}

/// Append a `commits` row (and its `commit_parents` rows) for a commit,
/// unless its metadata was already recorded on a previous visit.
pub fn store_commit(
    commits: &mut Vec<Commit>,
    parent_rows: &mut Vec<CommitParent>,
    cache: &mut Vec<CommitInfo>,
    repository_id: i64,
    info: CommitInfo,
)
    requires
        commits_table_ok(old(commits)@, old(cache)@),
    ensures
        commits_table_ok(final(commits)@, final(cache)@),
        (exists|c: int| 0 <= c < old(cache)@.len() && (#[trigger] old(cache)@[c]).sha@ == info.sha@)
            ==> final(commits)@ == old(commits)@ && final(parent_rows)@ == old(parent_rows)@
            && final(cache)@ == old(cache)@,
        !(exists|c: int| 0 <= c < old(cache)@.len() && (#[trigger] old(cache)@[c]).sha@ == info.sha@)
            ==> final(commits)@ == old(commits)@.push(commit_row(info, repository_id))
            && final(parent_rows)@ == old(parent_rows)@ + commit_parent_rows(info, repository_id)
            && final(cache)@ == old(cache)@.push(info),
        (final(commits)@, final(parent_rows)@, final(cache)@) == after_store(
            old(commits)@,
            old(parent_rows)@,
            old(cache)@,
            repository_id,
            info,
        ),
{
    match find_commit(cache, &info.sha) {
        Some(_) => return ,
        None => {},
    }
    commits.push(
        Commit {
            repository_id,
            sha: info.sha.clone(),
            tree_sha: Some(info.tree_sha.clone()),
            author_name: clone_opt_string(&info.author_name),
            author_email: clone_opt_string(&info.author_email),
            authored_at: clone_opt_string(&info.authored_at),
            committer_name: clone_opt_string(&info.committer_name),
            committer_email: clone_opt_string(&info.committer_email),
            committed_at: clone_opt_string(&info.committed_at),
            message: info.message.clone(),
        },
    );
    let ghost start = parent_rows@;
    let n = info.parents.len();
    for idx in 0..n
        invariant
            n == info.parents@.len(),
            parent_rows@ == start + commit_parent_rows(info, repository_id).take(idx as int),
    {
        parent_rows.push(
            CommitParent {
                repository_id,
                commit_sha: info.sha.clone(),
                parent_sha: info.parents[idx].clone(),
                parent_position: idx as i64,
            },
        );
        assert(parent_rows@ =~= start + commit_parent_rows(info, repository_id).take(idx + 1));
    }
    assert(commit_parent_rows(info, repository_id).take(n as int) =~= commit_parent_rows(
        info,
        repository_id,
    ));
    let ghost old_cache = cache@;
    cache.push(info);
    proof {
        let m = cache@.len();
        assert forall|i: int, j: int| 0 <= i < j < m implies (#[trigger] cache@[i]).sha@ != (
        #[trigger] cache@[j]).sha@ by {
            assert(cache@[i] == old_cache[i]);
            if j < m - 1 {
                assert(cache@[j] == old_cache[j]);
            }
        }
    }
}

/// The `file_events` row of one delta.
pub open spec fn file_event_row(
    event: DiffFileEvent,
    id: i64,
    repository_id: i64,
    commit_sha: String,
    parent_sha: String,
    position: ParentPos,
    include_binary: bool,
) -> FileEvent {
    FileEvent {
        id,
        repository_id,
        commit_sha,
        parent_sha,
        parent_position: position,
        event_type: spec_effective_event_type(event, include_binary),
        old_path: event.old_path,
        new_path: event.new_path,
        old_blob_sha: event.old_blob_sha,
        new_blob_sha: event.new_blob_sha,
    }
}

/// The `diff_hunks` row of one hunk of a delta.
pub open spec fn diff_hunk_row(
    hunk: DiffHunkInfo,
    event: DiffFileEvent,
    id: i64,
    file_event_id: i64,
    repository_id: i64,
    commit_sha: String,
    parent_sha: String,
    position: ParentPos,
) -> DiffHunk {
    DiffHunk {
        id,
        repository_id,
        file_event_id,
        commit_sha,
        parent_sha,
        parent_position: position,
        old_path: event.old_path,
        new_path: event.new_path,
        old_start: hunk.old_start as i64,
        old_lines: hunk.old_lines as i64,
        new_start: hunk.new_start as i64,
        new_lines: hunk.new_lines as i64,
        patch_text: hunk.patch_text,
    }
}

/// The `diff_hunks` rows of one delta whose `file_events` row has id
/// `file_event_id`, numbered from `first_id`: one per hunk, none where the
/// delta is recorded as binary.
pub open spec fn event_hunk_rows(
    event: DiffFileEvent,
    file_event_id: i64,
    first_id: int,
    repository_id: i64,
    commit_sha: String,
    parent_sha: String,
    position: ParentPos,
    include_binary: bool,
) -> Seq<DiffHunk> {
    if spec_effective_event_type(event, include_binary) == FileEventType::BinarySkipped {
        Seq::empty()
    } else {
        Seq::new(
            event.hunks@.len(),
            |k: int|
                diff_hunk_row(
                    event.hunks@[k],
                    event,
                    (first_id + k) as i64,
                    file_event_id,
                    repository_id,
                    commit_sha,
                    parent_sha,
                    position,
                ),
        )
    }
}

/// The `diff_hunks` rows of a diff, in delta order: the first delta's
/// `file_events` row has id `first_event_id`, and the hunk rows are
/// numbered from `first_hunk_id`.
pub open spec fn diff_hunk_rows(
    events: Seq<DiffFileEvent>,
    first_event_id: int,
    first_hunk_id: int,
    repository_id: i64,
    commit_sha: String,
    parent_sha: String,
    position: ParentPos,
    include_binary: bool,
) -> Seq<DiffHunk>
    decreases events.len(),
{
    if events.len() == 0 {
        Seq::empty()
    } else {
        let before = diff_hunk_rows(
            events.drop_last(),
            first_event_id,
            first_hunk_id,
            repository_id,
            commit_sha,
            parent_sha,
            position,
            include_binary,
        );
        before + event_hunk_rows(
            events.last(),
            (first_event_id + events.len() - 1) as i64,
            first_hunk_id + before.len(),
            repository_id,
            commit_sha,
            parent_sha,
            position,
            include_binary,
        )
    }
}

spec fn ids_fe(rows: Seq<FileEvent>, counter: IdCounter) -> bool {
    &&& forall|i: int| 0 <= i < rows.len() ==> #[trigger] rows[i].id == i + 1
    &&& counter.value() == rows.len() + 1
}

spec fn ids_dh(rows: Seq<DiffHunk>, counter: IdCounter) -> bool {
    &&& forall|i: int| 0 <= i < rows.len() ==> #[trigger] rows[i].id == i + 1
    &&& counter.value() == rows.len() + 1
}

/// How a persisted delta relates to its rows: the delta itself is kept,
/// and its hunks (unless the delta is recorded as binary) point at their
/// `diff_hunks` rows.
pub open spec fn persisted_event_matches(
    persisted: PersistedEvent,
    event: DiffFileEvent,
    file_event_id: i64,
    hunks: Seq<DiffHunk>,
    repository_id: i64,
    commit_sha: String,
    parent_sha: String,
    position: ParentPos,
    include_binary: bool,
) -> bool {
    &&& persisted.info == event
    &&& persisted.hunk_ids@.len() == (if spec_effective_event_type(event, include_binary)
        == FileEventType::BinarySkipped {
        0
    } else {
        event.hunks@.len()
    })
    &&& forall|k: int|
        0 <= k < persisted.hunk_ids@.len() ==> {
            let id = #[trigger] persisted.hunk_ids@[k];
            &&& 1 <= id <= hunks.len()
            &&& hunks[id - 1] == diff_hunk_row(
                event.hunks@[k],
                event,
                id,
                file_event_id,
                repository_id,
                commit_sha,
                parent_sha,
                position,
            )
        }
}

/// A diff with more deltas has at least as many `diff_hunks` rows.
proof fn lemma_hunk_rows_grow(
    events: Seq<DiffFileEvent>,
    j: int,
    m: int,
    first_event_id: int,
    first_hunk_id: int,
    repository_id: i64,
    commit_sha: String,
    parent_sha: String,
    position: ParentPos,
    include_binary: bool,
)
    requires
        0 <= j <= m <= events.len(),
    ensures
        diff_hunk_rows(
            events.take(j),
            first_event_id,
            first_hunk_id,
            repository_id,
            commit_sha,
            parent_sha,
            position,
            include_binary,
        ).len() <= diff_hunk_rows(
            events.take(m),
            first_event_id,
            first_hunk_id,
            repository_id,
            commit_sha,
            parent_sha,
            position,
            include_binary,
        ).len(),
    decreases m - j,
{
    if j < m {
        lemma_hunk_rows_grow(
            events,
            j,
            m - 1,
            first_event_id,
            first_hunk_id,
            repository_id,
            commit_sha,
            parent_sha,
            position,
            include_binary,
        );
        assert(events.take(m).drop_last() =~= events.take(m - 1));
    }
}

/// Compute the rows of one diff: a `file_events` row per delta and a
/// `diff_hunks` row per hunk of each delta not recorded as binary. Returns
/// the deltas alongside their hunk ids; `None` only where a table ran out
/// of ids.
fn populate_diff(
    file_events: &mut Vec<FileEvent>,
    fe_counter: &mut IdCounter,
    diff_hunks: &mut Vec<DiffHunk>,
    dh_counter: &mut IdCounter,
    repository_id: i64,
    commit_sha: &String,
    parent_sha: &String,
    position: ParentPos,
    include_binary: bool,
    events: Vec<DiffFileEvent>,
) -> (persisted: Option<PersistedDiff>)
    requires
        ids_fe(old(file_events)@, *old(fe_counter)),
        ids_dh(old(diff_hunks)@, *old(dh_counter)),
    ensures
        ids_fe(final(file_events)@, *final(fe_counter)),
        ids_dh(final(diff_hunks)@, *final(dh_counter)),
        extends(final(file_events)@, old(file_events)@),
        extends(final(diff_hunks)@, old(diff_hunks)@),
        persisted is Some <==> (old(fe_counter).value() + events@.len() <= i64::MAX && old(
            dh_counter,
        ).value() + diff_hunk_rows(
            events@,
            old(file_events)@.len() + 1int,
            old(diff_hunks)@.len() + 1int,
            repository_id,
            *commit_sha,
            *parent_sha,
            position,
            include_binary,
        ).len() <= i64::MAX),
        persisted is None ==> final(fe_counter).value() == i64::MAX || final(dh_counter).value()
            == i64::MAX,
        persisted matches Some(p) ==> {
            &&& p.events@.len() == events@.len()
            &&& final(diff_hunks)@ == old(diff_hunks)@ + diff_hunk_rows(
                events@,
                old(file_events)@.len() + 1int,
                old(diff_hunks)@.len() + 1int,
                repository_id,
                *commit_sha,
                *parent_sha,
                position,
                include_binary,
            )
            &&& final(file_events)@ == old(file_events)@ + Seq::new(
                events@.len(),
                |i: int|
                    file_event_row(
                        events@[i],
                        (old(file_events)@.len() + i + 1) as i64,
                        repository_id,
                        *commit_sha,
                        *parent_sha,
                        position,
                        include_binary,
                    ),
            )
            &&& forall|i: int|
                0 <= i < events@.len() ==> persisted_event_matches(
                    #[trigger] p.events@[i],
                    events@[i],
                    (old(file_events)@.len() + i + 1) as i64,
                    final(diff_hunks)@,
                    repository_id,
                    *commit_sha,
                    *parent_sha,
                    position,
                    include_binary,
                )
        },
{
    let ghost all = events@;
    let ghost fe_start = file_events@;
    let ghost dh_start = diff_hunks@;
    let mut persisted_events: Vec<PersistedEvent> = Vec::new();
    for event in it: events
        invariant
            it.seq() == all,
            fe_start == old(file_events)@,
            dh_start == old(diff_hunks)@,
            old(fe_counter).value() == fe_start.len() + 1,
            old(dh_counter).value() == dh_start.len() + 1,
            ids_fe(file_events@, *fe_counter),
            ids_dh(diff_hunks@, *dh_counter),
            extends(diff_hunks@, dh_start),
            diff_hunks@ == dh_start + diff_hunk_rows(
                all.take(it.index() as int),
                fe_start.len() + 1int,
                dh_start.len() + 1int,
                repository_id,
                *commit_sha,
                *parent_sha,
                position,
                include_binary,
            ),
            persisted_events@.len() == it.index(),
            file_events@ == fe_start + Seq::new(
                it.index() as nat,
                |i: int|
                    file_event_row(
                        all[i],
                        (fe_start.len() + i + 1) as i64,
                        repository_id,
                        *commit_sha,
                        *parent_sha,
                        position,
                        include_binary,
                    ),
            ),
            forall|i: int|
                0 <= i < it.index() ==> persisted_event_matches(
                    #[trigger] persisted_events@[i],
                    all[i],
                    (fe_start.len() + i + 1) as i64,
                    diff_hunks@,
                    repository_id,
                    *commit_sha,
                    *parent_sha,
                    position,
                    include_binary,
                ),
    {
        let ghost k = it.index() as int;
        assert(event == all[k]);
        let event_type = effective_event_type(&event, include_binary);
        if !fe_counter.has_room() {
            return None;
        }
        let file_event_id = fe_counter.allocate();
        file_events.push(
            FileEvent {
                id: file_event_id,
                repository_id,
                commit_sha: commit_sha.clone(),
                parent_sha: parent_sha.clone(),
                parent_position: position,
                event_type,
                old_path: clone_opt_string(&event.old_path),
                new_path: clone_opt_string(&event.new_path),
                old_blob_sha: clone_opt_string(&event.old_blob_sha),
                new_blob_sha: clone_opt_string(&event.new_blob_sha),
            },
        );
        assert(extends(file_events@, fe_start));
        assert(file_events@ =~= fe_start + Seq::new(
            (k + 1) as nat,
            |i: int|
                file_event_row(
                    all[i],
                    (fe_start.len() + i + 1) as i64,
                    repository_id,
                    *commit_sha,
                    *parent_sha,
                    position,
                    include_binary,
                ),
        ));
        let ghost dh_before = diff_hunks@;
        let ghost fe_now = file_events@;
        let ghost pe_now = persisted_events@;
        let mut hunk_ids: Vec<i64> = Vec::new();
        if event_type != FileEventType::BinarySkipped {
            let n = event.hunks.len();
            for h in 0..n
                invariant
                    n == event.hunks@.len(),
                    ids_dh(diff_hunks@, *dh_counter),
                    extends(diff_hunks@, dh_before),
                    extends(dh_before, dh_start),
                    dh_start == old(diff_hunks)@,
                    old(dh_counter).value() == dh_start.len() + 1,
                    it.seq() == all,
                    events@ == all,
                    0 <= k < all.len(),
                    event == all[k],
                    event_type == spec_effective_event_type(event, include_binary),
                    event_type != FileEventType::BinarySkipped,
                    file_event_id == fe_start.len() + k + 1,
                    dh_before == dh_start + diff_hunk_rows(
                        all.take(k),
                        fe_start.len() + 1int,
                        dh_start.len() + 1int,
                        repository_id,
                        *commit_sha,
                        *parent_sha,
                        position,
                        include_binary,
                    ),
                    fe_start == old(file_events)@,
                    file_events@ == fe_now,
                    persisted_events@ == pe_now,
                    extends(fe_now, fe_start),
                    ids_fe(file_events@, *fe_counter),
                    hunk_ids@.len() == h,
                    diff_hunks@ == dh_before + Seq::new(
                        h as nat,
                        |j: int|
                            diff_hunk_row(
                                event.hunks@[j],
                                event,
                                (dh_before.len() + j + 1) as i64,
                                file_event_id,
                                repository_id,
                                *commit_sha,
                                *parent_sha,
                                position,
                            ),
                    ),
                    forall|j: int|
                        0 <= j < h ==> {
                            let id = #[trigger] hunk_ids@[j];
                            &&& 1 <= id <= diff_hunks@.len()
                            &&& diff_hunks@[id - 1] == diff_hunk_row(
                                event.hunks@[j],
                                event,
                                id,
                                file_event_id,
                                repository_id,
                                *commit_sha,
                                *parent_sha,
                                position,
                            )
                        },
            {
                let hunk = &event.hunks[h];
                if !dh_counter.has_room() {
                    proof {
                        assert(all.take(k + 1).drop_last() =~= all.take(k));
                        assert(all.take(k + 1).last() == all[k]);
                        assert(all.take(all.len() as int) =~= all);
                        let rows_k = diff_hunk_rows(
                            all.take(k),
                            fe_start.len() + 1int,
                            dh_start.len() + 1int,
                            repository_id,
                            *commit_sha,
                            *parent_sha,
                            position,
                            include_binary,
                        );
                        let rows_k1 = diff_hunk_rows(
                            all.take(k + 1),
                            fe_start.len() + 1int,
                            dh_start.len() + 1int,
                            repository_id,
                            *commit_sha,
                            *parent_sha,
                            position,
                            include_binary,
                        );
                        let own = event_hunk_rows(
                            all[k],
                            (fe_start.len() + 1int + k) as i64,
                            dh_start.len() + 1int + rows_k.len(),
                            repository_id,
                            *commit_sha,
                            *parent_sha,
                            position,
                            include_binary,
                        );
                        assert(own.len() == event.hunks@.len());
                        assert(rows_k1 == rows_k + own);
                        assert(dh_counter.value() == dh_start.len() + rows_k.len() + h + 1);
                        lemma_hunk_rows_grow(
                            all,
                            k + 1,
                            all.len() as int,
                            fe_start.len() + 1int,
                            dh_start.len() + 1int,
                            repository_id,
                            *commit_sha,
                            *parent_sha,
                            position,
                            include_binary,
                        );
                    }
                    return None;
                }
                let diff_hunk_id = dh_counter.allocate();
                let ghost rows_before = diff_hunks@;
                diff_hunks.push(
                    DiffHunk {
                        id: diff_hunk_id,
                        repository_id,
                        file_event_id,
                        commit_sha: commit_sha.clone(),
                        parent_sha: parent_sha.clone(),
                        parent_position: position,
                        old_path: clone_opt_string(&event.old_path),
                        new_path: clone_opt_string(&event.new_path),
                        old_start: hunk.old_start as i64,
                        old_lines: hunk.old_lines as i64,
                        new_start: hunk.new_start as i64,
                        new_lines: hunk.new_lines as i64,
                        patch_text: hunk.patch_text.clone(),
                    },
                );
                hunk_ids.push(diff_hunk_id);
                proof {
                    assert forall|i: int| 0 <= i < diff_hunks@.len() implies #[trigger] diff_hunks@[i].id
                        == i + 1 by {
                        if i < rows_before.len() {
                            assert(diff_hunks@[i] == rows_before[i]);
                        }
                    }
                    assert(diff_hunks@ =~= dh_before + Seq::new(
                        (h + 1) as nat,
                        |j: int|
                            diff_hunk_row(
                                event.hunks@[j],
                                event,
                                (dh_before.len() + j + 1) as i64,
                                file_event_id,
                                repository_id,
                                *commit_sha,
                                *parent_sha,
                                position,
                            ),
                    ));
                    assert forall|j: int| 0 <= j < h + 1 implies {
                        let id = #[trigger] hunk_ids@[j];
                        &&& 1 <= id <= diff_hunks@.len()
                        &&& diff_hunks@[id - 1] == diff_hunk_row(
                            event.hunks@[j],
                            event,
                            id,
                            file_event_id,
                            repository_id,
                            *commit_sha,
                            *parent_sha,
                            position,
                        )
                    } by {
                        if j < h {
                            assert(diff_hunks@[hunk_ids@[j] - 1] == rows_before[hunk_ids@[j] - 1]);
                        }
                    }
                }
            }
        }
        proof {
            let pre = all.take(k);
            let rows_pre = diff_hunk_rows(
                pre,
                fe_start.len() + 1int,
                dh_start.len() + 1int,
                repository_id,
                *commit_sha,
                *parent_sha,
                position,
                include_binary,
            );
            assert(all.take(k + 1).drop_last() =~= pre);
            assert(all.take(k + 1).last() == all[k]);
            assert(dh_before.len() == dh_start.len() + rows_pre.len());
            assert(file_event_id == fe_start.len() + k + 1);
            assert(diff_hunks@ =~= dh_start + diff_hunk_rows(
                all.take(k + 1),
                fe_start.len() + 1int,
                dh_start.len() + 1int,
                repository_id,
                *commit_sha,
                *parent_sha,
                position,
                include_binary,
            ));
        }
        let ghost pe_before = persisted_events@;
        persisted_events.push(PersistedEvent { info: event, hunk_ids });
        proof {
            assert forall|i: int| 0 <= i < k + 1 implies persisted_event_matches(
                #[trigger] persisted_events@[i],
                all[i],
                (fe_start.len() + i + 1) as i64,
                diff_hunks@,
                repository_id,
                *commit_sha,
                *parent_sha,
                position,
                include_binary,
            ) by {
                if i < k {
                    let pe = persisted_events@[i];
                    assert(pe == pe_before[i]);
                    assert forall|j: int| 0 <= j < pe.hunk_ids@.len() implies diff_hunks@[
                        #[trigger] pe.hunk_ids@[j] - 1] == dh_before[pe.hunk_ids@[j] - 1] by {}
                }
            }
        }
    }
    assert(all.take(all.len() as int) =~= all);
    Some(PersistedDiff { events: persisted_events })
}

/// The `blame_spans` row of one span of a request.
pub open spec fn span_row(
    span: BlameSpan,
    id: i64,
    request_id: i64,
    repository_id: i64,
    final_commit_sha: String,
    final_path: String,
) -> SpanRow {
    SpanRow {
        id,
        request_id,
        repository_id,
        blamed_commit_sha: span.blamed_commit_sha,
        final_commit_sha,
        final_path,
        final_start_line: span.final_start_line as i64,
        origin_path: span.origin_path,
        origin_start_line: match span.origin_start_line {
            Some(line) => Some(line as i64),
            None => None,
        },
        line_count: span.line_count as i64,
        boundary: span.boundary,
        diff_hunk_id: None,
    }
}

spec fn ids_spans(rows: Seq<SpanRow>, counter: IdCounter) -> bool {
    &&& forall|i: int| 0 <= i < rows.len() ==> #[trigger] rows[i].id == i + 1
    &&& counter.value() == rows.len() + 1
}

/// Append a `blame_spans` row per span of a request, returning the spans
/// with their ids; `None` only where the table ran out of ids.
fn persist_blame_spans(
    rows: &mut Vec<SpanRow>,
    counter: &mut IdCounter,
    request_id: i64,
    repository_id: i64,
    final_commit_sha: &String,
    final_path: &String,
    spans: Vec<BlameSpan>,
) -> (pending: Option<Vec<(i64, BlameSpan)>>)
    requires
        ids_spans(old(rows)@, *old(counter)),
    ensures
        ids_spans(final(rows)@, *final(counter)),
        extends(final(rows)@, old(rows)@),
        final(rows)@.len() <= old(rows)@.len() + spans@.len(),
        pending is Some <==> old(counter).value() + spans@.len() <= i64::MAX,
        pending is None ==> final(counter).value() == i64::MAX,
        final(rows)@ == old(rows)@ + Seq::new(
            (final(rows)@.len() - old(rows)@.len()) as nat,
            |k: int|
                span_row(
                    spans@[k],
                    (old(rows)@.len() + k + 1) as i64,
                    request_id,
                    repository_id,
                    *final_commit_sha,
                    *final_path,
                ),
        ),
        pending matches Some(p) ==> {
            &&& final(rows)@ == old(rows)@ + Seq::new(
                spans@.len(),
                |k: int|
                    span_row(
                        spans@[k],
                        (old(rows)@.len() + k + 1) as i64,
                        request_id,
                        repository_id,
                        *final_commit_sha,
                        *final_path,
                    ),
            )
            &&& p@ == Seq::new(
                spans@.len(),
                |k: int| ((old(rows)@.len() + k + 1) as i64, spans@[k]),
            )
        },
{
    let ghost all = spans@;
    let ghost start = rows@;
    let mut pending: Vec<(i64, BlameSpan)> = Vec::new();
    for span in it: spans
        invariant
            it.seq() == all,
            start == old(rows)@,
            old(counter).value() == start.len() + 1,
            ids_spans(rows@, *counter),
            extends(rows@, start),
            rows@ == start + Seq::new(
                it.index() as nat,
                |k: int|
                    span_row(
                        all[k],
                        (start.len() + k + 1) as i64,
                        request_id,
                        repository_id,
                        *final_commit_sha,
                        *final_path,
                    ),
            ),
            pending@ == Seq::new(
                it.index() as nat,
                |k: int| ((start.len() + k + 1) as i64, all[k]),
            ),
    {
        let ghost k = it.index() as int;
        assert(span == all[k]);
        if !counter.has_room() {
            return None;
        }
        let span_id = counter.allocate();
        let ghost before = rows@;
        let origin_start_line = match span.origin_start_line {
            Some(line) => Some(line as i64),
            None => None,
        };
        rows.push(
            SpanRow {
                id: span_id,
                request_id,
                repository_id,
                blamed_commit_sha: span.blamed_commit_sha.clone(),
                final_commit_sha: final_commit_sha.clone(),
                final_path: final_path.clone(),
                final_start_line: span.final_start_line as i64,
                origin_path: clone_opt_string(&span.origin_path),
                origin_start_line,
                line_count: span.line_count as i64,
                boundary: span.boundary,
                diff_hunk_id: None,
            },
        );
        pending.push((span_id, span));
        proof {
            assert forall|i: int| 0 <= i < rows@.len() implies #[trigger] rows@[i].id == i + 1 by {
                if i < before.len() {
                    assert(rows@[i] == before[i]);
                }
            }
            assert(rows@ =~= start + Seq::new(
                (k + 1) as nat,
                |j: int|
                    span_row(
                        all[j],
                        (start.len() + j + 1) as i64,
                        request_id,
                        repository_id,
                        *final_commit_sha,
                        *final_path,
                    ),
            ));
            assert(pending@ =~= Seq::new(
                (k + 1) as nat,
                |j: int| ((start.len() + j + 1) as i64, all[j]),
            ));
        }
    }
    Some(pending)
}

/// Whether a span was blamed on the commit `sha`.
pub open spec fn blamed_on(sha: Seq<char>) -> spec_fn((i64, BlameSpan)) -> bool {
    |pair: (i64, BlameSpan)| pair.1.blamed_commit_sha@ == sha
}

/// A copy of a blame span.
fn clone_span(span: &BlameSpan) -> (copy: BlameSpan)
    ensures
        copy == *span,
{
    BlameSpan {
        blamed_commit_sha: span.blamed_commit_sha.clone(),
        final_start_line: span.final_start_line,
        line_count: span.line_count,
        origin_path: clone_opt_string(&span.origin_path),
        origin_start_line: span.origin_start_line,
        boundary: span.boundary,
    }
}

/// Whether `sha` is one of `shas`.
pub open spec fn sha_listed(shas: Seq<String>, sha: Seq<char>) -> bool {
    exists|g: int| 0 <= g < shas.len() && (#[trigger] shas[g])@ == sha
}

/// Whether `sha` is the blamed commit of one of `groups`.
pub open spec fn has_group(groups: Seq<SpanGroup>, sha: Seq<char>) -> bool {
    exists|g: int| 0 <= g < groups.len() && (#[trigger] groups[g]).blamed_sha@ == sha
}

/// Groups spans by blamed commit, the commits in order of first appearance
/// and each group's spans in the order given.
fn group_by_commit(pending: &Vec<(i64, BlameSpan)>) -> (groups: Vec<SpanGroup>)
    ensures
        forall|g: int|
            0 <= g < groups@.len() ==> (#[trigger] groups@[g]).spans@ == pending@.filter(
                blamed_on(groups@[g].blamed_sha@),
            ),
        forall|g: int, h: int|
            0 <= g < h < groups@.len() ==> (#[trigger] groups@[g]).blamed_sha@ != (
            #[trigger] groups@[h]).blamed_sha@,
        forall|j: int|
            0 <= j < pending@.len() ==> has_group(groups@, (#[trigger] pending@[j]).1.blamed_commit_sha@),
{
    let n = pending.len();
    let mut shas: Vec<String> = Vec::new();
    for j in 0..n
        invariant
            n == pending@.len(),
            forall|g: int, h: int| 0 <= g < h < shas@.len() ==> (#[trigger] shas@[g])@ != (
            #[trigger] shas@[h])@,
            forall|i: int|
                0 <= i < j ==> sha_listed(shas@, (#[trigger] pending@[i]).1.blamed_commit_sha@),
    {
        let sha = &pending[j].1.blamed_commit_sha;
        let mut seen = false;
        let m = shas.len();
        for g in 0..m
            invariant
                m == shas@.len(),
                seen ==> sha_listed(shas@, sha@),
                !seen ==> forall|h: int| 0 <= h < g ==> (#[trigger] shas@[h])@ != sha@,
        {
            if !seen && shas[g].eq(sha) {
                seen = true;
            }
        }
        if !seen {
            let ghost before = shas@;
            shas.push(sha.clone());
            proof {
                assert(shas@[before.len() as int]@ == sha@);
                assert forall|g: int, h: int| 0 <= g < h < shas@.len() implies (#[trigger] shas@[g])@
                    != (#[trigger] shas@[h])@ by {
                    assert(shas@[g] == before[g]);
                    if h < before.len() {
                        assert(shas@[h] == before[h]);
                    }
                }
                assert forall|i: int| 0 <= i < j + 1 implies sha_listed(
                    shas@,
                    (#[trigger] pending@[i]).1.blamed_commit_sha@,
                ) by {
                    if i < j {
                        assert(sha_listed(before, pending@[i].1.blamed_commit_sha@));
                        let g = choose|g: int|
                            0 <= g < before.len() && (#[trigger] before[g])@
                                == pending@[i].1.blamed_commit_sha@;
                        assert(shas@[g] == before[g]);
                    }
                }
            }
        }
    }
    let mut groups: Vec<SpanGroup> = Vec::new();
    let m = shas.len();
    for g in 0..m
        invariant
            n == pending@.len(),
            m == shas@.len(),
            groups@.len() == g,
            forall|i: int| 0 <= i < g ==> (#[trigger] groups@[i]).blamed_sha@ == shas@[i]@,
            forall|i: int|
                0 <= i < g ==> (#[trigger] groups@[i]).spans@ == pending@.filter(
                    blamed_on(groups@[i].blamed_sha@),
                ),
    {
        let sha = &shas[g];
        let mut members: Vec<(i64, BlameSpan)> = Vec::new();
        for j in 0..n
            invariant
                n == pending@.len(),
                members@ == pending@.take(j as int).filter(blamed_on(sha@)),
        {
            proof {
                assert(pending@.take(j + 1) =~= pending@.take(j as int).push(pending@[j as int]));
                pending@.take(j as int).lemma_filter_push(pending@[j as int], blamed_on(sha@));
            }
            if pending[j].1.blamed_commit_sha.eq(sha) {
                members.push((pending[j].0, clone_span(&pending[j].1)));
            }
            assert(members@ =~= pending@.take(j + 1).filter(blamed_on(sha@)));
        }
        assert(pending@.take(n as int) =~= pending@);
        groups.push(SpanGroup { blamed_sha: sha.clone(), spans: members });
    }
    proof {
        assert forall|j: int| 0 <= j < pending@.len() implies has_group(
            groups@,
            (#[trigger] pending@[j]).1.blamed_commit_sha@,
        ) by {
            assert(sha_listed(shas@, pending@[j].1.blamed_commit_sha@));
            let g = choose|g: int|
                0 <= g < shas@.len() && (#[trigger] shas@[g])@ == pending@[j].1.blamed_commit_sha@;
            assert(groups@[g].blamed_sha@ == shas@[g]@);
        }
    }
    groups
}

/// A seed: the path, first and last added line, and the diff hunk it came
/// from.
pub type Seed = (String, u32, u32, i64);

/// The seeds of one hunk: one per added range.
pub open spec fn range_seeds(path: String, ranges: Seq<(u32, u32)>, hunk_id: i64) -> Seq<Seed> {
    Seq::new(ranges.len(), |r: int| (path, ranges[r].0, ranges[r].1, hunk_id))
}

/// The seeds of the first `n` hunks of a delta, each hunk paired with its
/// `diff_hunks` id.
pub open spec fn hunk_seeds(path: String, hunks: Seq<DiffHunkInfo>, ids: Seq<i64>, n: int) -> Seq<
    Seed,
>
    decreases n,
{
    if n <= 0 {
        Seq::empty()
    } else {
        hunk_seeds(path, hunks, ids, n - 1) + range_seeds(
            path,
            hunks[n - 1].added_ranges@,
            ids[n - 1],
        )
    }
}

/// The seeds of one delta of the seed diff: none where the delta has no
/// new-side path (a deletion) or no recorded hunks (a binary file).
pub open spec fn event_seeds(event: PersistedEvent) -> Seq<Seed> {
    match event.info.new_path {
        None => Seq::empty(),
        Some(path) => hunk_seeds(
            path,
            event.info.hunks@,
            event.hunk_ids@,
            if event.info.hunks@.len() <= event.hunk_ids@.len() {
                event.info.hunks@.len() as int
            } else {
                event.hunk_ids@.len() as int
            },
        ),
    }
}

/// Every added line-range of the seed diff, in order.
pub open spec fn diff_seeds(events: Seq<PersistedEvent>) -> Seq<Seed>
    decreases events.len(),
{
    if events.len() == 0 {
        Seq::empty()
    } else {
        diff_seeds(events.drop_last()) + event_seeds(events.last())
    }
}

/// The `seed_ranges` rows of a list of seeds, with ids from 1.
pub open spec fn seed_rows_of(seeds: Seq<Seed>, scan_id: i64, head_sha: String) -> Seq<SeedRange> {
    Seq::new(
        seeds.len(),
        |i: int|
            SeedRange {
                id: (i + 1) as i64,
                scan_id,
                commit_sha: head_sha,
                path: seeds[i].0,
                start_line: seeds[i].1 as i64,
                end_line: seeds[i].2 as i64,
                diff_hunk_id: Some(seeds[i].3),
            },
    )
}

/// Some request has the key of this seed.
pub open spec fn seed_requested(reqs: Seq<BlameRequest>, head_sha: Seq<char>, seed: Seed) -> bool {
    exists|j: int|
        0 <= j < reqs.len() && request_key(#[trigger] reqs[j]) == (
            head_sha,
            seed.0@,
            seed.1 as i64,
            seed.2 as i64,
        )
}

/// The key a seed is requested under.
pub open spec fn seed_key(head_sha: Seq<char>, seed: Seed) -> (Seq<char>, Seq<char>, i64, i64) {
    (head_sha, seed.0@, seed.1 as i64, seed.2 as i64)
}

/// The keys of a list of seeds, each once, in the order of first
/// appearance.
pub open spec fn distinct_seed_keys(head_sha: Seq<char>, seeds: Seq<Seed>) -> Seq<
    (Seq<char>, Seq<char>, i64, i64),
>
    decreases seeds.len(),
{
    if seeds.len() == 0 {
        Seq::empty()
    } else {
        let before = distinct_seed_keys(head_sha, seeds.drop_last());
        let key = seed_key(head_sha, seeds.last());
        if before.contains(key) {
            before
        } else {
            before.push(key)
        }
    }
}

/// The keys of a list of requests, in order.
pub open spec fn request_keys(reqs: Seq<BlameRequest>) -> Seq<(Seq<char>, Seq<char>, i64, i64)> {
    reqs.map_values(|r: BlameRequest| request_key(r))
}

/// Requesting one more seed: the request table gains its key unless some
/// request already has it.
proof fn lemma_seed_enqueued(
    reqs0: Seq<BlameRequest>,
    reqs1: Seq<BlameRequest>,
    head_sha: Seq<char>,
    acc: Seq<Seed>,
    seed: Seed,
    id: i64,
)
    requires
        request_keys(reqs0) == distinct_seed_keys(head_sha, acc),
        extends(reqs1, reqs0),
        reqs1.len() <= reqs0.len() + 1,
        1 <= id <= reqs1.len(),
        request_key(reqs1[id - 1]) == seed_key(head_sha, seed),
        forall|j: int|
            0 <= j < reqs0.len() && request_key(#[trigger] reqs0[j]) == seed_key(head_sha, seed)
                ==> reqs1 == reqs0,
    ensures
        request_keys(reqs1) == distinct_seed_keys(head_sha, acc.push(seed)),
{
    let key = seed_key(head_sha, seed);
    let before = distinct_seed_keys(head_sha, acc);
    assert(acc.push(seed).drop_last() =~= acc);
    assert(acc.push(seed).last() == seed);
    if before.contains(key) {
        let j = choose|j: int| 0 <= j < before.len() && before[j] == key;
        assert(request_keys(reqs0)[j] == request_key(reqs0[j]));
        assert(reqs1 == reqs0);
    } else {
        if id - 1 < reqs0.len() {
            assert(reqs1[id - 1] == reqs0[id - 1]);
            assert(request_keys(reqs0)[id - 1] == key);
            assert(false);
        }
        assert(reqs1 =~= reqs0.push(reqs1[id - 1]));
        assert(request_keys(reqs1) =~= request_keys(reqs0).push(key));
    }
}

spec fn all_seed_requests(reqs: Seq<BlameRequest>) -> bool {
    forall|j: int|
        0 <= j < reqs.len() ==> (#[trigger] reqs[j]).depth == 0 && reqs[j].reason == BlameReason::Seed
}

/// Records a seed range for every added line-range of the seed diff and a
/// depth-0 request for each (one request per distinct range).
fn seed_requests(
    seed_rows: &mut Vec<SeedRange>,
    seed_counter: &mut IdCounter,
    reqs: &mut Vec<BlameRequest>,
    queue: &mut VecDeque<i64>,
    req_counter: &mut IdCounter,
    scan_id: i64,
    max_depth: u32,
    head_sha: &String,
    persisted: &PersistedDiff,
) -> (complete: bool)
    requires
        old(seed_rows)@.len() == 0,
        old(seed_counter).value() == 1,
        old(reqs)@.len() == 0,
        requests_table_ok(old(reqs)@, old(queue)@, *old(req_counter), scan_id, max_depth),
    ensures
        requests_table_ok(final(reqs)@, final(queue)@, *final(req_counter), scan_id, max_depth),
        all_seed_requests(final(reqs)@),
        final(seed_counter).value() == final(seed_rows)@.len() + 1,
        !complete ==> final(seed_counter).value() == i64::MAX || final(req_counter).value()
            == i64::MAX,
        exists|seeds: Seq<Seed>|
            {
                &&& final(seed_rows)@ == seed_rows_of(seeds, scan_id, *head_sha)
                &&& forall|i: int|
                    0 <= i < seeds.len() ==> seed_requested(final(reqs)@, head_sha@, #[trigger] seeds[i])
                &&& complete ==> seeds == diff_seeds(persisted.events@)
                &&& request_keys(final(reqs)@) == distinct_seed_keys(head_sha@, seeds)
            },
{
    let ghost mut acc: Seq<Seed> = Seq::empty();
    assert(request_keys(reqs@) =~= distinct_seed_keys(head_sha@, acc));
    let ne = persisted.events.len();
    assert(seed_rows@ =~= seed_rows_of(acc, scan_id, *head_sha));
    for e in 0..ne
        invariant
            ne == persisted.events@.len(),
            requests_table_ok(reqs@, queue@, *req_counter, scan_id, max_depth),
            all_seed_requests(reqs@),
            request_keys(reqs@) == distinct_seed_keys(head_sha@, acc),
            seed_counter.value() == seed_rows@.len() + 1,
            seed_rows@ == seed_rows_of(acc, scan_id, *head_sha),
            forall|i: int| 0 <= i < acc.len() ==> seed_requested(reqs@, head_sha@, #[trigger] acc[i]),
            acc == diff_seeds(persisted.events@.take(e as int)),
    {
        let event = &persisted.events[e];
        proof {
            assert(persisted.events@.take(e + 1).drop_last() =~= persisted.events@.take(e as int));
            assert(persisted.events@.take(e + 1).last() == *event);
        }
        let ghost acc_event = acc;
        match &event.info.new_path {
            None => {},
            Some(new_path) => {
                let nh = if event.info.hunks.len() <= event.hunk_ids.len() {
                    event.info.hunks.len()
                } else {
                    event.hunk_ids.len()
                };
                for h in 0..nh
                    invariant
                        nh <= event.info.hunks@.len(),
                        nh <= event.hunk_ids@.len(),
                        requests_table_ok(reqs@, queue@, *req_counter, scan_id, max_depth),
                        all_seed_requests(reqs@),
            request_keys(reqs@) == distinct_seed_keys(head_sha@, acc),
                        seed_counter.value() == seed_rows@.len() + 1,
                        seed_rows@ == seed_rows_of(acc, scan_id, *head_sha),
                        forall|i: int|
                            0 <= i < acc.len() ==> seed_requested(reqs@, head_sha@, #[trigger] acc[i]),
                        acc == acc_event + hunk_seeds(
                            *new_path,
                            event.info.hunks@,
                            event.hunk_ids@,
                            h as int,
                        ),
                {
                    let hunk = &event.info.hunks[h];
                    let hunk_id = event.hunk_ids[h];
                    let ghost acc_hunk = acc;
                    let nr = hunk.added_ranges.len();
                    for r in 0..nr
                        invariant
                            nr == hunk.added_ranges@.len(),
                            requests_table_ok(reqs@, queue@, *req_counter, scan_id, max_depth),
                            all_seed_requests(reqs@),
            request_keys(reqs@) == distinct_seed_keys(head_sha@, acc),
                            seed_counter.value() == seed_rows@.len() + 1,
                            seed_rows@ == seed_rows_of(acc, scan_id, *head_sha),
                            forall|i: int|
                                0 <= i < acc.len() ==> seed_requested(
                                    reqs@,
                                    head_sha@,
                                    #[trigger] acc[i],
                                ),
                            acc == acc_hunk + range_seeds(
                                *new_path,
                                hunk.added_ranges@,
                                hunk_id,
                            ).take(r as int),
                    {
                        let (start, end) = hunk.added_ranges[r];
                        if !seed_counter.has_room() {
                            return false;
                        }
                        let ghost seed: Seed = (*new_path, start, end, hunk_id);
                        let ghost reqs_before = reqs@;
                        let requested = enqueue_request(
                            reqs,
                            queue,
                            req_counter,
                            scan_id,
                            max_depth,
                            head_sha.clone(),
                            new_path.clone(),
                            start as i64,
                            end as i64,
                            0,
                            BlameReason::Seed,
                        );
                        if requested.is_none() {
                            return false;
                        }
                        let seed_range_id = seed_counter.allocate();
                        seed_rows.push(
                            SeedRange {
                                id: seed_range_id,
                                scan_id,
                                commit_sha: head_sha.clone(),
                                path: new_path.clone(),
                                start_line: start as i64,
                                end_line: end as i64,
                                diff_hunk_id: Some(hunk_id),
                            },
                        );
                        proof {
                            let acc_before = acc;
                            lemma_seed_enqueued(
                                reqs_before,
                                reqs@,
                                head_sha@,
                                acc_before,
                                seed,
                                requested->0,
                            );
                            acc = acc.push(seed);
                            assert(seed_rows@ =~= seed_rows_of(acc, scan_id, *head_sha));
                            assert(acc =~= acc_hunk + range_seeds(
                                *new_path,
                                hunk.added_ranges@,
                                hunk_id,
                            ).take(r + 1));
                            assert forall|j: int| 0 <= j < reqs@.len() implies (
                            #[trigger] reqs@[j]).depth == 0 && reqs@[j].reason
                                == BlameReason::Seed by {
                                if j < reqs_before.len() {
                                    assert(reqs@[j] == reqs_before[j]);
                                }
                            }
                            assert forall|i: int| 0 <= i < acc.len() implies seed_requested(
                                reqs@,
                                head_sha@,
                                #[trigger] acc[i],
                            ) by {
                                if i < acc_before.len() {
                                    assert(acc[i] == acc_before[i]);
                                    let j = choose|j: int|
                                        0 <= j < reqs_before.len() && request_key(
                                            #[trigger] reqs_before[j],
                                        ) == (
                                            head_sha@,
                                            acc_before[i].0@,
                                            acc_before[i].1 as i64,
                                            acc_before[i].2 as i64,
                                        );
                                    assert(reqs@[j] == reqs_before[j]);
                                } else {
                                    let n = requested->0;
                                    assert(request_key(reqs@[n - 1]) == (
                                        head_sha@,
                                        seed.0@,
                                        seed.1 as i64,
                                        seed.2 as i64,
                                    ));
                                }
                            }
                        }
                    }
                    proof {
                        assert(range_seeds(*new_path, hunk.added_ranges@, hunk_id).take(nr as int)
                            =~= range_seeds(*new_path, hunk.added_ranges@, hunk_id));
                        assert(acc =~= acc_event + hunk_seeds(
                            *new_path,
                            event.info.hunks@,
                            event.hunk_ids@,
                            h + 1,
                        ));
                    }
                }
            },
        }
        assert(acc == diff_seeds(persisted.events@.take(e + 1)));
    }
    assert(persisted.events@.take(ne as int) =~= persisted.events@);
    true
}

/// The walk over a branch's added lines, with every row it has produced.
pub struct Scanner {
    max_depth: u32,
    since: CalendarDate,
    include_binary: bool,
    head_sha: String,
    merge_base_sha: String,
    commit_cache: Vec<CommitInfo>,
    diff_cache: Vec<CachedDiff>,
    queue: VecDeque<i64>,
    next_id: NextIds,
    result: ScanResult,
    stage: Stage,
    current: usize,
    groups: Vec<SpanGroup>,
    group: usize,
    parent: usize,
}

/// Every element of a filtered sequence comes from the sequence.
proof fn lemma_filter_members<A>(s: Seq<A>, pred: spec_fn(A) -> bool)
    ensures
        forall|i: int| 0 <= i < s.filter(pred).len() ==> s.contains(#[trigger] s.filter(pred)[i]),
    decreases s.len(),
{
    reveal(Seq::filter);
    if s.len() > 0 {
        let rest = s.drop_last();
        lemma_filter_members(rest, pred);
        let out = s.filter(pred);
        let sub = rest.filter(pred);
        assert forall|i: int| 0 <= i < out.len() implies s.contains(#[trigger] out[i]) by {
            if i < sub.len() {
                assert(out[i] == sub[i]);
                assert(rest.contains(sub[i]));
                let j = choose|j: int| 0 <= j < rest.len() && rest[j] == sub[i];
                assert(s[j] == rest[j]);
            } else {
                assert(out[i] == s.last());
                assert(s[s.len() - 1] == s.last());
            }
        }
    }
}

/// The index of a cached diff by commit and parent slot.
fn find_diff(cache: &Vec<CachedDiff>, sha: &String, position: ParentPos) -> (found: Option<usize>)
    ensures
        match found {
            Some(d) => d < cache@.len() && cache@[d as int].commit_sha@ == sha@ && cache@[d as int].position
                == position,
            None => forall|d: int|
                0 <= d < cache@.len() ==> !((#[trigger] cache@[d]).commit_sha@ == sha@
                    && cache@[d].position == position),
        },
{
    let n = cache.len();
    for d in 0..n
        invariant
            n == cache@.len(),
            forall|j: int|
                0 <= j < d ==> !((#[trigger] cache@[j]).commit_sha@ == sha@ && cache@[j].position
                    == position),
    {
        if cache[d].position == position && cache[d].commit_sha.eq(sha) {
            return Some(d);
        }
    }
    None
}

/// The index of the recorded metadata of the commit `sha`.
pub open spec fn commit_position(cache: Seq<CommitInfo>, sha: Seq<char>) -> int {
    choose|c: int| 0 <= c < cache.len() && cache[c].sha@ == sha
}

/// Whether the diff of the commit `sha` against the parent slot `position`
/// is among those recorded.
pub open spec fn diff_cached(diffs: Seq<CachedDiff>, sha: Seq<char>, position: ParentPos) -> bool {
    exists|d: int|
        0 <= d < diffs.len() && (#[trigger] diffs[d]).commit_sha@ == sha && diffs[d].position
            == position
}

/// The index of the recorded diff of the commit `sha` against the parent
/// slot `position`.
pub open spec fn diff_position(diffs: Seq<CachedDiff>, sha: Seq<char>, position: ParentPos) -> int {
    choose|d: int|
        0 <= d < diffs.len() && (#[trigger] diffs[d]).commit_sha@ == sha && diffs[d].position
            == position
}

/// The edges that end the lineage of each span of a group with a cutoff,
/// span by span: each an action, with no parent.
pub open spec fn cutoff_items(
    spans: Seq<(i64, BlameSpan)>,
    edge_type: LineageEdgeType,
) -> Seq<(RecurseAction, Option<(Seq<char>, ParentPos)>)> {
    Seq::new(
        spans.len(),
        |k: int| (RecurseAction::Terminal { span_id: spans[k].0, edge_type }, None),
    )
}

/// The edges that carry planned actions across into one parent, in the
/// order planned.
pub open spec fn parent_items(
    actions: Seq<RecurseAction>,
    parent_sha: Seq<char>,
    position: ParentPos,
) -> Seq<(RecurseAction, Option<(Seq<char>, ParentPos)>)> {
    Seq::new(actions.len(), |k: int| (actions[k], Some((parent_sha, position))))
}

/// The edge leaves request `from_request_id` carrying the planned `item`:
/// a cutoff that names no parent, or an action across into the parent the
/// item names.
pub open spec fn edge_carries(
    edge: LineageEdge,
    item: (RecurseAction, Option<(Seq<char>, ParentPos)>),
    from_request_id: i64,
    reqs: Seq<BlameRequest>,
) -> bool {
    match item.1 {
        None => match item.0 {
            RecurseAction::Terminal { span_id, edge_type } => {
                &&& edge.from_request_id == from_request_id
                &&& edge.to_span_id == span_id
                &&& edge.edge_type == edge_type
                &&& edge.parent_sha is None
                &&& edge.parent_position is None
                &&& edge.next_request_id is None
            },
            RecurseAction::Recurse { .. } => false,
        },
        Some((parent_sha, position)) => parent_edge_matches(
            edge,
            item.0,
            from_request_id,
            parent_sha,
            position,
            reqs,
        ),
    }
}

/// The planned edges depend only on the groups, the recorded metadata and
/// diffs, the request and the walk's settings.
proof fn lemma_planned_same(a: Scanner, b: Scanner, req: int, g: int, p: int)
    requires
        a.spec_groups() == b.spec_groups(),
        a.spec_commits() == b.spec_commits(),
        a.spec_diffs() == b.spec_diffs(),
        a.spec_max_depth() == b.spec_max_depth(),
        a.spec_since() == b.spec_since(),
        a.spec_result().blame_requests@[req] == b.spec_result().blame_requests@[req],
    ensures
        a.planned_from(req, g, p) == b.planned_from(req, g, p),
    decreases a.spec_groups().len() - g, a.group_parent_count(g) - p,
{
    let groups = a.spec_groups();
    let commits = a.spec_commits();
    if 0 <= g < groups.len() && 0 <= p && commit_cached(commits, groups[g].blamed_sha@) {
        let info = commits[commit_position(commits, groups[g].blamed_sha@)];
        match spec_classify_terminal(
            a.spec_result().blame_requests@[req].depth,
            info.parents@.len(),
            info.committed_naive,
            a.spec_max_depth(),
            a.spec_since(),
        ) {
            Some(_) => {
                lemma_planned_same(a, b, req, g + 1, 0);
            },
            None => {
                if p >= info.parents@.len() {
                    lemma_planned_same(a, b, req, g + 1, 0);
                } else {
                    lemma_planned_same(a, b, req, g, p + 1);
                }
            },
        }
    }
}

/// The groups split the spans of a blame run by blamed commit: each group
/// holds, in order, the spans blamed on its commit; no two groups share a
/// commit; every span has its group.
pub open spec fn groups_split(groups: Seq<SpanGroup>, pending: Seq<(i64, BlameSpan)>) -> bool {
    &&& forall|g: int|
        0 <= g < groups.len() ==> (#[trigger] groups[g]).spans@ == pending.filter(
            blamed_on(groups[g].blamed_sha@),
        )
    &&& forall|g: int, h: int|
        0 <= g < h < groups.len() ==> (#[trigger] groups[g]).blamed_sha@ != (
        #[trigger] groups[h]).blamed_sha@
    &&& forall|j: int| 0 <= j < pending.len() ==> has_group(groups, (#[trigger] pending[j]).1.blamed_commit_sha@)
}

/// The edges appended to `old` leave request `from_request_id` carrying
/// `items`, one edge per item, in order.
pub open spec fn edges_carry(
    edges: Seq<LineageEdge>,
    old: Seq<LineageEdge>,
    items: Seq<(RecurseAction, Option<(Seq<char>, ParentPos)>)>,
    from_request_id: i64,
    reqs: Seq<BlameRequest>,
) -> bool {
    &&& edges.len() == old.len() + items.len()
    &&& forall|k: int|
        0 <= k < items.len() ==> edge_carries(
            #[trigger] edges[old.len() + k],
            items[k],
            from_request_id,
            reqs,
        )
}

/// Growing the tables keeps the edges that carry planned items.
proof fn lemma_carried_grow(
    edges0: Seq<LineageEdge>,
    edges1: Seq<LineageEdge>,
    reqs0: Seq<BlameRequest>,
    reqs1: Seq<BlameRequest>,
    e0: int,
    items: Seq<(RecurseAction, Option<(Seq<char>, ParentPos)>)>,
    from_request_id: i64,
)
    requires
        0 <= e0,
        e0 + items.len() <= edges0.len(),
        extends(edges1, edges0),
        extends(reqs1, reqs0),
        forall|k: int|
            0 <= k < items.len() ==> edge_carries(
                #[trigger] edges0[e0 + k],
                items[k],
                from_request_id,
                reqs0,
            ),
    ensures
        forall|k: int|
            0 <= k < items.len() ==> edge_carries(
                #[trigger] edges1[e0 + k],
                items[k],
                from_request_id,
                reqs1,
            ),
{
    assert forall|k: int| 0 <= k < items.len() implies edge_carries(
        #[trigger] edges1[e0 + k],
        items[k],
        from_request_id,
        reqs1,
    ) by {
        assert(edges1[e0 + k] == edges0[e0 + k]);
        assert(edge_carries(edges0[e0 + k], items[k], from_request_id, reqs0));
        match items[k].1 {
            Some(_) => match items[k].0 {
                RecurseAction::Recurse { .. } => {
                    let n = edges0[e0 + k].next_request_id->0;
                    assert(reqs1[n - 1] == reqs0[n - 1]);
                },
                _ => {},
            },
            None => {},
        }
    }
}

/// Edges that carry `acc`, followed by edges that carry `items`, carry
/// `acc + items`.
proof fn lemma_carried_append(
    edges: Seq<LineageEdge>,
    reqs: Seq<BlameRequest>,
    e0: int,
    acc: Seq<(RecurseAction, Option<(Seq<char>, ParentPos)>)>,
    items: Seq<(RecurseAction, Option<(Seq<char>, ParentPos)>)>,
    from_request_id: i64,
)
    requires
        forall|k: int|
            0 <= k < acc.len() ==> edge_carries(
                #[trigger] edges[e0 + k],
                acc[k],
                from_request_id,
                reqs,
            ),
        forall|k: int|
            0 <= k < items.len() ==> edge_carries(
                #[trigger] edges[e0 + acc.len() + k],
                items[k],
                from_request_id,
                reqs,
            ),
    ensures
        forall|k: int|
            0 <= k < (acc + items).len() ==> edge_carries(
                #[trigger] edges[e0 + k],
                (acc + items)[k],
                from_request_id,
                reqs,
            ),
{
    assert forall|k: int| 0 <= k < (acc + items).len() implies edge_carries(
        #[trigger] edges[e0 + k],
        (acc + items)[k],
        from_request_id,
        reqs,
    ) by {
        if k >= acc.len() {
            let j = k - acc.len();
            assert(edges[e0 + acc.len() + j] == edges[e0 + k]);
            assert(edge_carries(edges[e0 + acc.len() + j], items[j], from_request_id, reqs));
        }
    }
}

/// `a` comes strictly before `b` in lexicographic order.
pub open spec fn position_before(a: (int, int, int, int, int), b: (int, int, int, int, int)) -> bool {
    ||| a.0 < b.0
    ||| a.0 == b.0 && a.1 < b.1
    ||| a.0 == b.0 && a.1 == b.1 && a.2 < b.2
    ||| a.0 == b.0 && a.1 == b.1 && a.2 == b.2 && a.3 < b.3
    ||| a.0 == b.0 && a.1 == b.1 && a.2 == b.2 && a.3 == b.3 && a.4 < b.4
}

/// The base in which a walk position is read as one number: one more than
/// the largest value any part of a position takes.
pub open spec fn position_base() -> int {
    usize::MAX as int + 3
}

/// A walk position read as one number, its parts as digits in base
/// `position_base()`, the first part the most significant.
pub open spec fn position_rank(p: (int, int, int, int, int)) -> int {
    let b = position_base();
    (((p.0 * b + p.1) * b + p.2) * b + p.3) * b + p.4
}

/// One more digit after a smaller number gives a smaller number.
proof fn lemma_digit_after_less(x: int, y: int, u: int, v: int, b: int)
    requires
        x < y,
        0 <= u < b,
        0 <= v < b,
    ensures
        x * b + u < y * b + v,
{
    assert(x * b + b <= y * b) by (nonlinear_arith)
        requires
            x < y,
            0 < b,
    ;
}

/// Law of the walk's progress: a walk position that comes strictly after
/// another has a greater rank, and every rank lies between 0 and
/// `position_base()` to the fifth power. Every supply call moves the walk
/// strictly forward, so its rank climbs with each call and the walk ends
/// after finitely many of them.
pub proof fn lemma_walk_progress(before: Scanner, after: Scanner)
    requires
        position_before(before.walk_position(), after.walk_position()),
    ensures
        0 <= position_rank(before.walk_position()) < position_rank(after.walk_position()),
        position_rank(after.walk_position()) < position_base() * position_base()
            * position_base() * position_base() * position_base(),
{
    let b = position_base();
    let p = before.walk_position();
    let q = after.walk_position();
    assert(0 <= p.0 < b && 0 <= p.1 < b && 0 <= p.2 < b && 0 <= p.3 < b && 0 <= p.4 < b);
    assert(0 <= q.0 < b && 0 <= q.1 < b && 0 <= q.2 < b && 0 <= q.3 < b && 0 <= q.4 < b);
    let p1 = p.0 * b + p.1;
    let p2 = p1 * b + p.2;
    let p3 = p2 * b + p.3;
    let q1 = q.0 * b + q.1;
    let q2 = q1 * b + q.2;
    let q3 = q2 * b + q.3;
    if p.0 < q.0 {
        lemma_digit_after_less(p.0, q.0, p.1, q.1, b);
    } else if p.1 < q.1 {
        assert(p.0 == q.0);
    }
    if p1 < q1 {
        lemma_digit_after_less(p1, q1, p.2, q.2, b);
    } else if p.2 < q.2 {
        assert(p1 == q1);
    }
    if p2 < q2 {
        lemma_digit_after_less(p2, q2, p.3, q.3, b);
    } else if p.3 < q.3 {
        assert(p2 == q2);
    }
    if p3 < q3 {
        lemma_digit_after_less(p3, q3, p.4, q.4, b);
    } else {
        assert(p3 == q3);
    }
    assert(0 <= p1 && 0 <= p2 && 0 <= p3 && 0 <= p3 * b + p.4) by (nonlinear_arith)
        requires
            p1 == p.0 * b + p.1,
            p2 == p1 * b + p.2,
            p3 == p2 * b + p.3,
            0 <= p.0,
            0 <= p.1,
            0 <= p.2,
            0 <= p.3,
            0 <= p.4,
            0 < b,
    ;
    assert(q1 < b * b) by (nonlinear_arith)
        requires
            q1 == q.0 * b + q.1,
            0 <= q.0 < b,
            0 <= q.1 < b,
    {
        assert(q.0 * b + q.1 < q.0 * b + b);
        assert(q.0 * b + b == (q.0 + 1) * b);
        assert((q.0 + 1) * b <= b * b);
    }
    lemma_digit_after_less(q1, b * b, q.2, 0, b);
    lemma_digit_after_less(q2, b * b * b, q.3, 0, b);
    lemma_digit_after_less(q3, b * b * b * b, q.4, 0, b);
}

/// Some table that numbers its rows has handed out its last id: it holds
/// `i64::MAX - 1` rows, so the next row would need an id past `i64::MAX`.
pub open spec fn ids_run_out(r: ScanResult) -> bool {
    let last = i64::MAX - 1;
    ||| r.file_events@.len() == last
    ||| r.diff_hunks@.len() == last
    ||| r.seed_ranges@.len() == last
    ||| r.blame_requests@.len() == last
    ||| r.blame_spans@.len() == last
    ||| r.lineage_edges@.len() == last
}

impl Scanner {
    // ------------------------------------------------------------------
    // The model

    pub closed spec fn spec_result(self) -> ScanResult {
        self.result
    }

    pub closed spec fn spec_stage(self) -> Stage {
        self.stage
    }

    pub closed spec fn spec_max_depth(self) -> u32 {
        self.max_depth
    }

    pub closed spec fn spec_include_binary(self) -> bool {
        self.include_binary
    }

    /// The index of the request being processed.
    pub closed spec fn spec_current(self) -> usize {
        self.current
    }

    /// The index of the parent whose diff is being used.
    pub closed spec fn spec_parent(self) -> usize {
        self.parent
    }

    /// The index of the group of spans, by blamed commit, being followed.
    pub closed spec fn spec_group(self) -> usize {
        self.group
    }

    /// The spans of the request being processed, grouped by blamed commit.
    pub closed spec fn spec_groups(self) -> Seq<SpanGroup> {
        self.groups@
    }

    /// How many parents the recorded metadata of group `g`'s blamed commit
    /// lists (0 where it is not recorded).
    pub open spec fn group_parent_count(self, g: int) -> int {
        let sha = self.spec_groups()[g].blamed_sha@;
        if commit_cached(self.spec_commits(), sha) {
            self.spec_commits()[commit_position(self.spec_commits(), sha)].parents@.len() as int
        } else {
            0
        }
    }

    /// The edges the walk writes for request index `req`, in order, from
    /// group `g` and parent slot `p` on, as far as the recorded metadata and
    /// diffs reach: group by group, the cutoff edges of every span where the
    /// blamed commit hits a cutoff, else parent by parent the actions
    /// planned for the group's spans against that parent's diff. It stops
    /// at the first commit or diff not yet recorded.
    pub open spec fn planned_from(self, req: int, g: int, p: int) -> Seq<
        (RecurseAction, Option<(Seq<char>, ParentPos)>),
    >
        decreases self.spec_groups().len() - g, self.group_parent_count(g) - p,
    {
        let groups = self.spec_groups();
        let commits = self.spec_commits();
        if 0 <= g < groups.len() && 0 <= p && commit_cached(commits, groups[g].blamed_sha@) {
            let group = groups[g];
            let info = commits[commit_position(commits, group.blamed_sha@)];
            match spec_classify_terminal(
                self.spec_result().blame_requests@[req].depth,
                info.parents@.len(),
                info.committed_naive,
                self.spec_max_depth(),
                self.spec_since(),
            ) {
                Some(edge_type) => cutoff_items(group.spans@, edge_type) + self.planned_from(
                    req,
                    g + 1,
                    0,
                ),
                None => if p >= info.parents@.len() {
                    self.planned_from(req, g + 1, 0)
                } else {
                    let position = ParentPos::Index(p as u32);
                    let diffs = self.spec_diffs();
                    if diff_cached(diffs, group.blamed_sha@, position) {
                        parent_items(
                            plan_all(
                                group.spans@,
                                diffs[diff_position(
                                    diffs,
                                    group.blamed_sha@,
                                    position,
                                )].diff.events@,
                            ),
                            info.parents@[p]@,
                            position,
                        ) + self.planned_from(req, g, p + 1)
                    } else {
                        Seq::empty()
                    }
                },
            }
        } else {
            Seq::empty()
        }
    }

    /// How far the walk has come, compared in lexicographic order: which
    /// request it is on (the seed steps before any, the end after all), then
    /// within a request the blame run before the groups, the group, the
    /// group's commit before its diffs, and the parent.
    pub open spec fn walk_position(self) -> (int, int, int, int, int) {
        let c = self.spec_current() as int + 1;
        match self.spec_stage() {
            Stage::SeedCommit => (0, 0, 0, 0, 0),
            Stage::SeedDiff => (0, 1, 0, 0, 0),
            Stage::Blame => (c, 0, 0, 0, 0),
            Stage::Commit => (c, 1, self.spec_group() as int, 0, 0),
            Stage::Diff => (c, 1, self.spec_group() as int, 1, self.spec_parent() as int),
            Stage::Finished | Stage::Exhausted => (usize::MAX as int + 2, 0, 0, 0, 0),
        }
    }

    /// The ids of the requests still waiting to be processed, in order.
    pub closed spec fn spec_queue(self) -> Seq<i64> {
        self.queue@
    }

    /// The metadata of every commit supplied so far, in the order supplied.
    pub closed spec fn spec_commits(self) -> Seq<CommitInfo> {
        self.commit_cache@
    }

    /// Every diff supplied so far, by commit and parent slot, in the order
    /// supplied.
    pub closed spec fn spec_diffs(self) -> Seq<CachedDiff> {
        self.diff_cache@
    }

    /// The cutoff date: blamed commits committed before it end their lineage.
    pub closed spec fn spec_since(self) -> CalendarDate {
        self.since
    }

    closed spec fn ids_ok(self) -> bool {
        let r = self.result;
        &&& ids_fe(r.file_events@, self.next_id.file_event)
        &&& ids_dh(r.diff_hunks@, self.next_id.diff_hunk)
        &&& ids_spans(r.blame_spans@, self.next_id.blame_span)
        &&& forall|i: int| 0 <= i < r.seed_ranges@.len() ==> #[trigger] r.seed_ranges@[i].id == i + 1
        &&& self.next_id.seed_range.value() == r.seed_ranges@.len() + 1
    }

    closed spec fn spans_ok(self) -> bool {
        let reqs = self.result.blame_requests@;
        let spans = self.result.blame_spans@;
        forall|i: int|
            0 <= i < spans.len() ==> {
                let s = #[trigger] spans[i];
                &&& 1 <= s.request_id <= reqs.len()
                &&& s.final_commit_sha@ == reqs[s.request_id - 1].commit_sha@
                &&& s.final_path@ == reqs[s.request_id - 1].path@
                &&& s.repository_id == self.result.repository.id
            }
    }

    closed spec fn diffs_ok(self) -> bool {
        let cache = self.diff_cache@;
        &&& forall|i: int, j: int|
            0 <= i < j < cache.len() ==> !((#[trigger] cache[i]).commit_sha@ == (
            #[trigger] cache[j]).commit_sha@ && cache[i].position == cache[j].position)
        &&& forall|i: int| 0 <= i < cache.len() ==> persisted_fits((#[trigger] cache[i]).diff.events@)
    }

    closed spec fn seeds_ok(self) -> bool {
        let reqs = self.result.blame_requests@;
        forall|i: int|
            0 <= i < self.result.seed_ranges@.len() ==> {
                let s = #[trigger] self.result.seed_ranges@[i];
                exists|j: int|
                    0 <= j < reqs.len() && request_key(#[trigger] reqs[j]) == (
                        s.commit_sha@,
                        s.path@,
                        s.start_line,
                        s.end_line,
                    ) && reqs[j].depth == 0
            }
    }

    closed spec fn groups_ok(self) -> bool {
        forall|g: int, k: int|
            0 <= g < self.groups@.len() && 0 <= k < self.groups@[g].spans@.len() ==> {
                let (id, span) = #[trigger] self.groups@[g].spans@[k];
                &&& 1 <= id <= self.result.blame_spans@.len()
                &&& span_fits(span)
            }
    }

    closed spec fn commit_index(self, sha: Seq<char>) -> int {
        commit_position(self.commit_cache@, sha)
    }

    closed spec fn is_cached_commit(self, sha: Seq<char>) -> bool {
        exists|c: int| 0 <= c < self.commit_cache@.len() && self.commit_cache@[c].sha@ == sha
    }

    /// Everything but where the walk stands.
    closed spec fn core_ok(self) -> bool {
        let r = self.result;
        let nreq = r.blame_requests@.len() as int;
        let nspan = r.blame_spans@.len() as int;
        &&& requests_table_ok(
            r.blame_requests@,
            self.queue@,
            self.next_id.blame_request,
            r.scan.id,
            self.max_depth,
        )
        &&& edges_table_ok(r.lineage_edges@, self.next_id.lineage_edge, r.scan.id, nreq, nspan)
        &&& self.ids_ok()
        &&& self.spans_ok()
        &&& commits_table_ok(r.commits@, self.commit_cache@)
        &&& commit_rows_match(
            r.commits@,
            r.commit_parents@,
            self.commit_cache@,
            r.repository.id,
        )
        &&& self.diffs_ok()
        &&& self.seeds_ok()
        &&& self.groups_ok()
        &&& edges_justified(
            r.lineage_edges@,
            r.blame_spans@,
            r.blame_requests@,
            self.commit_cache@,
            self.diff_cache@,
            self.max_depth,
            self.since,
        )
        &&& self.followed_ok()
    }

    /// Whether span `i` is followed as far as the walk goes.
    closed spec fn is_followed(self, i: int) -> bool {
        span_followed(
            self.result.lineage_edges@,
            (i + 1) as i64,
            self.result.blame_spans@[i],
            self.result.blame_requests@,
            self.commit_cache@,
            self.diff_cache@,
            self.max_depth,
            self.since,
        )
    }

    /// Spans belong to requests up to the current one, and the spans of
    /// the requests before it are followed.
    closed spec fn followed_ok(self) -> bool {
        let spans = self.result.blame_spans@;
        &&& forall|i: int| 0 <= i < spans.len() ==> (#[trigger] spans[i]).request_id <= self.current + 1
        &&& forall|i: int|
            0 <= i < spans.len() && (#[trigger] spans[i]).request_id <= self.current
                ==> self.is_followed(i)
    }

    /// The groups before the current one are followed; the spans of the
    /// current group are followed into the parents before the current one;
    /// every span of the current request is in a group.
    closed spec fn groups_progress(self) -> bool {
        let spans = self.result.blame_spans@;
        let groups = self.groups@;
        &&& forall|g: int, k: int|
            0 <= g < self.group && 0 <= k < groups[g].spans@.len() ==> self.is_followed(
                (#[trigger] groups[g].spans@[k]).0 - 1,
            )
        &&& self.group < groups.len() && self.parent > 0 ==> exists|c: int|
            0 <= c < self.commit_cache@.len() && (#[trigger] self.commit_cache@[c]).sha@
                == groups[self.group as int].blamed_sha@ && forall|k: int, q: int|
                0 <= k < groups[self.group as int].spans@.len() && 0 <= q < self.parent
                    ==> #[trigger] parent_followed(
                    self.result.lineage_edges@,
                    groups[self.group as int].spans@[k].0,
                    spans[groups[self.group as int].spans@[k].0 - 1],
                    self.result.blame_requests@,
                    self.commit_cache@[c],
                    self.diff_cache@,
                    q,
                )
        &&& forall|i: int|
            0 <= i < spans.len() && (#[trigger] spans[i]).request_id == self.current + 1
                ==> exists|g: int, k: int|
                0 <= g < groups.len() && 0 <= k < groups[g].spans@.len() && (
                #[trigger] groups[g].spans@[k]).0 == i + 1
    }

    /// Every request is accounted for.
    closed spec fn sourced_ok(self) -> bool {
        requests_sourced(self.result.blame_requests@, self.result.lineage_edges@)
    }

    /// The spans of the groups are rows of the request being processed,
    /// blamed on their group's commit.
    closed spec fn groups_current(self) -> bool {
        forall|g: int, k: int|
            0 <= g < self.groups@.len() && 0 <= k < self.groups@[g].spans@.len() ==> {
                let id = (#[trigger] self.groups@[g].spans@[k]).0;
                &&& self.result.blame_spans@[id - 1].request_id == self.current + 1
                &&& self.result.blame_spans@[id - 1].blamed_commit_sha@
                    == self.groups@[g].blamed_sha@
                &&& span_of_row(self.result.blame_spans@[id - 1]) == self.groups@[g].spans@[k].1
            }
    }

    /// A request is being processed: it is the one taken off the queue last.
    closed spec fn processing_ok(self) -> bool {
        let nreq = self.result.blame_requests@.len();
        &&& self.core_ok()
        &&& self.current < nreq
        &&& self.current + 1 + self.queue@.len() == nreq
        &&& self.group <= self.groups@.len()
        &&& self.groups_current()
        &&& self.groups_progress()
        &&& self.sourced_ok()
    }

    closed spec fn work_ok(self) -> bool {
        let nreq = self.result.blame_requests@.len();
        match self.stage {
            Stage::SeedCommit | Stage::SeedDiff => {
                &&& nreq == 0
                &&& self.result.seed_ranges@.len() == 0
                &&& self.commit_cache@.len() == (if self.stage == Stage::SeedCommit {
                    0int
                } else {
                    1int
                })
                &&& self.diff_cache@.len() == 0
            },
            Stage::Blame => {
                &&& self.current < nreq
                &&& self.current + 1 + self.queue@.len() == nreq
                &&& self.sourced_ok()
                &&& forall|i: int|
                    0 <= i < self.result.blame_spans@.len()
                        ==> (#[trigger] self.result.blame_spans@[i]).request_id <= self.current
            },
            Stage::Commit => {
                &&& self.processing_ok()
                &&& self.group < self.groups@.len()
                &&& !self.is_cached_commit(self.groups@[self.group as int].blamed_sha@)
            },
            Stage::Diff => {
                &&& self.processing_ok()
                &&& self.group < self.groups@.len()
                &&& self.is_cached_commit(self.groups@[self.group as int].blamed_sha@)
                &&& self.parent < self.commit_cache@[self.commit_index(
                    self.groups@[self.group as int].blamed_sha@,
                )].parents@.len()
                &&& forall|d: int|
                    0 <= d < self.diff_cache@.len() ==> !((#[trigger] self.diff_cache@[d]).commit_sha@
                        == self.groups@[self.group as int].blamed_sha@ && self.diff_cache@[d].position
                        == ParentPos::Index(self.parent as u32))
            },
            Stage::Finished => {
                &&& self.queue@.len() == 0
                &&& self.sourced_ok()
                &&& forall|i: int| 0 <= i < self.result.blame_spans@.len() ==> #[trigger] self.is_followed(i)
            },
            Stage::Exhausted => true,
        }
    }

    /// The scanner's invariant.
    pub closed spec fn wf(self) -> bool {
        &&& self.core_ok()
        &&& self.work_ok()
    }

    /// The walk's settings are the ones it was made with.
    pub open spec fn settings_kept(self, old: Scanner) -> bool {
        &&& self.spec_max_depth() == old.spec_max_depth()
        &&& self.spec_since() == old.spec_since()
        &&& self.spec_include_binary() == old.spec_include_binary()
    }

    /// The edges and requests added since `old` all come from the request
    /// that was current then: each edge leaves it, and each request is one
    /// level below it, made to follow its spans into a parent.
    pub open spec fn walk_appended(self, old: Scanner) -> bool {
        let r = self.spec_result();
        let o = old.spec_result();
        let current = old.spec_current() as int;
        &&& forall|i: int|
            o.lineage_edges@.len() <= i < r.lineage_edges@.len() ==> (
            #[trigger] r.lineage_edges@[i]).from_request_id == current + 1
        &&& forall|j: int|
            o.blame_requests@.len() <= j < r.blame_requests@.len() ==> (
            #[trigger] r.blame_requests@[j]).depth == o.blame_requests@[current].depth + 1
                && r.blame_requests@[j].reason == BlameReason::ParentRecurse
    }

    /// Every table keeps the rows it had.
    pub open spec fn rows_kept(self, old: Scanner) -> bool {
        let r = self.spec_result();
        let o = old.spec_result();
        &&& extends(r.commits@, o.commits@)
        &&& extends(r.commit_parents@, o.commit_parents@)
        &&& extends(r.file_events@, o.file_events@)
        &&& extends(r.diff_hunks@, o.diff_hunks@)
        &&& extends(r.seed_ranges@, o.seed_ranges@)
        &&& extends(r.blame_requests@, o.blame_requests@)
        &&& extends(r.blame_spans@, o.blame_spans@)
        &&& extends(r.lineage_edges@, o.lineage_edges@)
        &&& r.repository == o.repository
        &&& r.scan == o.scan
    }

    /// What the walk needs next.
    pub closed spec fn spec_need(self) -> Need {
        match self.stage {
            Stage::SeedCommit => Need::Commit { sha: self.head_sha },
            Stage::SeedDiff => Need::Diff {
                commit_sha: self.head_sha,
                parent_sha: self.merge_base_sha,
            },
            Stage::Blame => {
                let r = self.result.blame_requests@[self.current as int];
                Need::Blame {
                    commit_sha: r.commit_sha,
                    path: r.path,
                    start_line: r.start_line as u32,
                    end_line: r.end_line as u32,
                }
            },
            Stage::Commit => Need::Commit { sha: self.groups@[self.group as int].blamed_sha },
            Stage::Diff => {
                let sha = self.groups@[self.group as int].blamed_sha;
                Need::Diff {
                    commit_sha: sha,
                    parent_sha: self.commit_cache@[self.commit_index(sha@)].parents@[self.parent as int],
                }
            },
            Stage::Finished => Need::Finished,
            Stage::Exhausted => Need::Exhausted,
        }
    }
}

impl Scanner {
    /// A scanner for a scan from `merge_base_sha` to `head_sha`. Where the
    /// two are the same commit there is nothing to seed and the walk is
    /// complete at once.
    pub fn new(
        repository: Repository,
        scan: Scan,
        since: CalendarDate,
        max_depth: u32,
        include_binary: bool,
        merge_base_sha: String,
        head_sha: String,
    ) -> (scanner: Scanner)
        ensures
            scanner.wf(),
            scanner.spec_result().repository == repository,
            scanner.spec_result().scan == scan,
            scanner.spec_max_depth() == max_depth,
            scanner.spec_since() == since,
            scanner.spec_include_binary() == include_binary,
            scanner.spec_commits().len() == 0,
            scanner.spec_diffs().len() == 0,
            scanner.spec_result().commits@.len() == 0,
            scanner.spec_result().commit_parents@.len() == 0,
            scanner.spec_result().file_events@.len() == 0,
            scanner.spec_result().diff_hunks@.len() == 0,
            scanner.spec_result().seed_ranges@.len() == 0,
            scanner.spec_result().blame_requests@.len() == 0,
            scanner.spec_result().blame_spans@.len() == 0,
            scanner.spec_result().lineage_edges@.len() == 0,
            scanner.spec_stage() == (if merge_base_sha@ == head_sha@ {
                Stage::Finished
            } else {
                Stage::SeedCommit
            }),
    {
        proof {
            reveal(commit_rows_match);
            assert(Seq::<CommitInfo>::empty().map_values(
                |info: CommitInfo| commit_row(info, repository.id),
            ) =~= Seq::<Commit>::empty());
        }
        let stage = if merge_base_sha.eq(&head_sha) {
            Stage::Finished
        } else {
            Stage::SeedCommit
        };
        Scanner {
            max_depth,
            since,
            include_binary,
            head_sha,
            merge_base_sha,
            commit_cache: Vec::new(),
            diff_cache: Vec::new(),
            queue: VecDeque::new(),
            next_id: NextIds::new(),
            result: ScanResult {
                repository,
                scan,
                commits: Vec::new(),
                commit_parents: Vec::new(),
                file_events: Vec::new(),
                diff_hunks: Vec::new(),
                seed_ranges: Vec::new(),
                blame_requests: Vec::new(),
                blame_spans: Vec::new(),
                lineage_edges: Vec::new(),
            },
            stage,
            current: 0,
            groups: Vec::new(),
            group: 0,
            parent: 0,
        }
    }

    /// A scanner for a trace of one target at HEAD: the target is the only
    /// seed, recorded as a seed range and a depth-0 request, and the walk
    /// starts with the blame run of that request.
    pub fn new_trace(
        repository: Repository,
        scan: Scan,
        since: CalendarDate,
        max_depth: u32,
        include_binary: bool,
        head_sha: String,
        target: &TraceTarget,
    ) -> (scanner: Scanner)
        ensures
            scanner.wf(),
            scanner.spec_result().repository == repository,
            scanner.spec_result().scan == scan,
            scanner.spec_max_depth() == max_depth,
            scanner.spec_since() == since,
            scanner.spec_include_binary() == include_binary,
            scanner.spec_commits().len() == 0,
            scanner.spec_diffs().len() == 0,
            scanner.spec_result().commits@.len() == 0,
            scanner.spec_result().commit_parents@.len() == 0,
            scanner.spec_result().file_events@.len() == 0,
            scanner.spec_result().diff_hunks@.len() == 0,
            scanner.spec_result().seed_ranges@ == seq![
                SeedRange {
                    id: 1,
                    scan_id: scan.id,
                    commit_sha: head_sha,
                    path: target.path,
                    start_line: target.start_line as i64,
                    end_line: target.end_line as i64,
                    diff_hunk_id: None,
                },
            ],
            scanner.spec_result().blame_requests@ == seq![
                BlameRequest {
                    id: 1,
                    scan_id: scan.id,
                    commit_sha: head_sha,
                    path: target.path,
                    start_line: target.start_line as i64,
                    end_line: target.end_line as i64,
                    depth: 0,
                    reason: BlameReason::Seed,
                },
            ],
            scanner.spec_result().blame_spans@.len() == 0,
            scanner.spec_result().lineage_edges@.len() == 0,
            scanner.spec_stage() == Stage::Blame,
            scanner.spec_need() == (Need::Blame {
                commit_sha: head_sha,
                path: target.path,
                start_line: target.start_line,
                end_line: target.end_line,
            }),
    {
        let scan_id = scan.id;
        proof {
            reveal(commit_rows_match);
            assert(Seq::<CommitInfo>::empty().map_values(
                |info: CommitInfo| commit_row(info, repository.id),
            ) =~= Seq::<Commit>::empty());
        }
        let request = BlameRequest {
            id: 1,
            scan_id,
            commit_sha: head_sha.clone(),
            path: target.path.clone(),
            start_line: target.start_line as i64,
            end_line: target.end_line as i64,
            depth: 0,
            reason: BlameReason::Seed,
        };
        let seed = SeedRange {
            id: 1,
            scan_id,
            commit_sha: head_sha.clone(),
            path: target.path.clone(),
            start_line: target.start_line as i64,
            end_line: target.end_line as i64,
            diff_hunk_id: None,
        };
        let mut next_id = NextIds::new();
        next_id.seed_range.allocate();
        next_id.blame_request.allocate();
        let mut seed_ranges: Vec<SeedRange> = Vec::new();
        seed_ranges.push(seed);
        let mut blame_requests: Vec<BlameRequest> = Vec::new();
        blame_requests.push(request);
        let scanner = Scanner {
            max_depth,
            since,
            include_binary,
            merge_base_sha: head_sha.clone(),
            head_sha,
            commit_cache: Vec::new(),
            diff_cache: Vec::new(),
            queue: VecDeque::new(),
            next_id,
            result: ScanResult {
                repository,
                scan,
                commits: Vec::new(),
                commit_parents: Vec::new(),
                file_events: Vec::new(),
                diff_hunks: Vec::new(),
                seed_ranges,
                blame_requests,
                blame_spans: Vec::new(),
                lineage_edges: Vec::new(),
            },
            stage: Stage::Blame,
            current: 0,
            groups: Vec::new(),
            group: 0,
            parent: 0,
        };
        proof {
            let r = scanner.result;
            assert(request_row_ok(r.blame_requests@[0], scan_id, max_depth));
            assert(request_key(r.blame_requests@[0]) == (
                r.seed_ranges@[0].commit_sha@,
                r.seed_ranges@[0].path@,
                r.seed_ranges@[0].start_line,
                r.seed_ranges@[0].end_line,
            ));
        }
        scanner
    }

    /// Where the walk stands.
    pub fn stage(&self) -> (stage: Stage)
        ensures
            stage == self.spec_stage(),
    {
        self.stage
    }

    /// The rows produced so far.
    pub fn result(&self) -> (result: &ScanResult)
        ensures
            *result == self.spec_result(),
    {
        &self.result
    }

    /// Every row of the walk.
    pub fn into_result(self) -> (result: ScanResult)
        ensures
            result == self.spec_result(),
    {
        self.result
    }

    proof fn lemma_commit_index(self, c: int)
        requires
            commits_table_ok(self.result.commits@, self.commit_cache@),
            0 <= c < self.commit_cache@.len(),
        ensures
            self.is_cached_commit(self.commit_cache@[c].sha@),
            self.commit_index(self.commit_cache@[c].sha@) == c,
    {
        let sha = self.commit_cache@[c].sha@;
        assert(self.is_cached_commit(sha));
        let d = self.commit_index(sha);
        if d < c {
            assert(self.commit_cache@[d].sha@ != self.commit_cache@[c].sha@);
        } else if d > c {
            assert(self.commit_cache@[c].sha@ != self.commit_cache@[d].sha@);
        }
    }

    /// What the walk needs next from the repository.
    pub fn need(&self) -> (need: Need)
        requires
            self.wf(),
        ensures
            need == self.spec_need(),
    {
        match self.stage {
            Stage::SeedCommit => Need::Commit { sha: self.head_sha.clone() },
            Stage::SeedDiff => Need::Diff {
                commit_sha: self.head_sha.clone(),
                parent_sha: self.merge_base_sha.clone(),
            },
            Stage::Blame => {
                let r = &self.result.blame_requests[self.current];
                proof {
                    assert(request_row_ok(
                        self.result.blame_requests@[self.current as int],
                        self.result.scan.id,
                        self.max_depth,
                    ));
                }
                Need::Blame {
                    commit_sha: r.commit_sha.clone(),
                    path: r.path.clone(),
                    start_line: r.start_line as u32,
                    end_line: r.end_line as u32,
                }
            },
            Stage::Commit => Need::Commit { sha: self.groups[self.group].blamed_sha.clone() },
            Stage::Diff => {
                let sha = &self.groups[self.group].blamed_sha;
                let c = match find_commit(&self.commit_cache, sha) {
                    Some(c) => c,
                    None => {
                        proof {
                            let c = self.commit_index(sha@);
                            assert(self.commit_cache@[c].sha@ == sha@);
                        }
                        return Need::Exhausted;
                    },
                };
                proof {
                    self.lemma_commit_index(c as int);
                }
                Need::Diff {
                    commit_sha: sha.clone(),
                    parent_sha: self.commit_cache[c].parents[self.parent].clone(),
                }
            },
            Stage::Finished => Need::Finished,
            Stage::Exhausted => Need::Exhausted,
        }
    }

    /// Takes the next request off the queue, or finishes the walk.
    fn pick_next(&mut self)
        requires
            old(self).core_ok(),
            old(self).sourced_ok(),
            forall|i: int|
                0 <= i < old(self).result.blame_spans@.len() ==> #[trigger] old(self).is_followed(i),
            forall|i: int|
                0 <= i < old(self).result.blame_spans@.len() ==> (
                #[trigger] old(self).result.blame_spans@[i]).request_id
                    <= old(self).result.blame_requests@.len() - old(self).queue@.len(),
        ensures
            final(self).wf(),
            final(self).stage == Stage::Blame || final(self).stage == Stage::Finished,
            final(self).stage == Stage::Blame ==> final(self).current
                == old(self).result.blame_requests@.len() - old(self).queue@.len(),
            final(self).groups == old(self).groups,
            final(self).result == old(self).result,
            final(self).commit_cache == old(self).commit_cache,
            final(self).diff_cache == old(self).diff_cache,
            final(self).max_depth == old(self).max_depth,
            final(self).since == old(self).since,
            final(self).include_binary == old(self).include_binary,
    {
        proof {
            let n = self.result.blame_requests@.len();
            if self.queue@.len() > 0 {
                assert(self.queue@[0] == n - self.queue@.len() + 1);
            }
        }
        let nreq = self.result.blame_requests.len();
        match self.queue.pop_front() {
            Some(id) => {
                assert(id >= 1 && id <= nreq);
                self.current = (id - 1) as usize;
                self.stage = Stage::Blame;
                proof {
                    let n = self.result.blame_requests@.len();
                    let q = self.queue@;
                    assert(id == n - old(self).queue@.len() + 1);
                    assert forall|k: int| 0 <= k < q.len() implies #[trigger] q[k] == n - q.len() + k
                        + 1 by {
                        assert(q[k] == old(self).queue@[k + 1]);
                    }
                    assert(requests_table_ok(
                        self.result.blame_requests@,
                        self.queue@,
                        self.next_id.blame_request,
                        self.result.scan.id,
                        self.max_depth,
                    ));
                    assert forall|i: int|
                        0 <= i < self.result.blame_spans@.len() implies #[trigger] self.is_followed(
                        i,
                    ) by {
                        assert(old(self).is_followed(i));
                    }
                    assert(self.core_ok());
                }
            },
            None => {
                self.stage = Stage::Finished;
                proof {
                    assert forall|i: int|
                        0 <= i < self.result.blame_spans@.len() implies #[trigger] self.is_followed(
                        i,
                    ) by {
                        assert(old(self).is_followed(i));
                    }
                }
            },
        }
    }
}

impl Scanner {
    closed spec fn parents_left(self) -> int {
        if self.group < self.groups@.len() && self.is_cached_commit(
            self.groups@[self.group as int].blamed_sha@,
        ) {
            self.commit_cache@[self.commit_index(
                self.groups@[self.group as int].blamed_sha@,
            )].parents@.len() - self.parent
        } else {
            0
        }
    }

    /// Growing the edge, request, commit and diff tables keeps every span
    /// that was followed followed, and keeps the progress through the
    /// groups.
    proof fn lemma_followed_grow(self, before: Scanner)
        requires
            before.followed_ok(),
            before.spans_ok(),
            before.groups_ok(),
            before.group <= before.groups@.len(),
            self.result.blame_spans == before.result.blame_spans,
            extends(self.result.lineage_edges@, before.result.lineage_edges@),
            extends(self.result.blame_requests@, before.result.blame_requests@),
            extends(self.commit_cache@, before.commit_cache@),
            extends(self.diff_cache@, before.diff_cache@),
            self.current == before.current,
            self.groups == before.groups,
            self.group == before.group,
            self.parent == before.parent,
            self.max_depth == before.max_depth,
            self.since == before.since,
        ensures
            self.followed_ok(),
            forall|i: int|
                0 <= i < self.result.blame_spans@.len() && before.is_followed(i)
                    ==> #[trigger] self.is_followed(i),
            before.groups_progress() ==> self.groups_progress(),
    {
        let spans = self.result.blame_spans@;
        assert forall|i: int|
            0 <= i < spans.len() && before.is_followed(i) implies #[trigger] self.is_followed(i) by {
            let _ = before.result.blame_spans@[i];
            lemma_span_followed_grow(
                before.result.lineage_edges@,
                self.result.lineage_edges@,
                (i + 1) as i64,
                spans[i],
                before.result.blame_requests@,
                self.result.blame_requests@,
                before.commit_cache@,
                self.commit_cache@,
                before.diff_cache@,
                self.diff_cache@,
                self.max_depth,
                self.since,
            );
        }
        assert forall|i: int|
            0 <= i < spans.len() && (#[trigger] spans[i]).request_id <= self.current
                implies self.is_followed(i) by {
            assert(before.is_followed(i));
        }
        if before.groups_progress() {
            let groups = self.groups@;
            assert forall|g: int, k: int|
                0 <= g < self.group && 0 <= k < groups[g].spans@.len() implies self.is_followed(
                (#[trigger] groups[g].spans@[k]).0 - 1,
            ) by {
                let id = groups[g].spans@[k].0;
                assert(before.is_followed(id - 1));
                let _ = before.groups@[g].spans@[k];
            }
            if self.group < groups.len() && self.parent > 0 {
                let gi = self.group as int;
                let c = choose|c: int|
                    0 <= c < before.commit_cache@.len() && (#[trigger] before.commit_cache@[c]).sha@
                        == groups[gi].blamed_sha@ && forall|k: int, q: int|
                        0 <= k < groups[gi].spans@.len() && 0 <= q < before.parent
                            ==> #[trigger] parent_followed(
                            before.result.lineage_edges@,
                            groups[gi].spans@[k].0,
                            spans[groups[gi].spans@[k].0 - 1],
                            before.result.blame_requests@,
                            before.commit_cache@[c],
                            before.diff_cache@,
                            q,
                        );
                assert(self.commit_cache@[c] == before.commit_cache@[c]);
                assert forall|k: int, q: int|
                    0 <= k < groups[gi].spans@.len() && 0 <= q < self.parent
                        implies #[trigger] parent_followed(
                    self.result.lineage_edges@,
                    groups[gi].spans@[k].0,
                    spans[groups[gi].spans@[k].0 - 1],
                    self.result.blame_requests@,
                    self.commit_cache@[c],
                    self.diff_cache@,
                    q,
                ) by {
                    lemma_parent_followed_grow(
                        before.result.lineage_edges@,
                        self.result.lineage_edges@,
                        groups[gi].spans@[k].0,
                        spans[groups[gi].spans@[k].0 - 1],
                        before.result.blame_requests@,
                        self.result.blame_requests@,
                        before.commit_cache@[c],
                        before.diff_cache@,
                        self.diff_cache@,
                        q,
                    );
                }
            }
        }
    }

    /// Requests were appended and the queue grew with them; everything that
    /// refers to requests still holds.
    proof fn lemma_requests_appended(self, before: Scanner)
        requires
            before.core_ok(),
            extends(self.result.blame_requests@, before.result.blame_requests@),
            self.result.blame_spans == before.result.blame_spans,
            self.result.seed_ranges == before.result.seed_ranges,
            self.result.repository == before.result.repository,
        ensures
            self.spans_ok(),
            self.seeds_ok(),
    {
        let reqs = self.result.blame_requests@;
        let old_reqs = before.result.blame_requests@;
        assert forall|i: int| 0 <= i < self.result.blame_spans@.len() implies {
            let s = #[trigger] self.result.blame_spans@[i];
            &&& 1 <= s.request_id <= reqs.len()
            &&& s.final_commit_sha@ == reqs[s.request_id - 1].commit_sha@
            &&& s.final_path@ == reqs[s.request_id - 1].path@
            &&& s.repository_id == self.result.repository.id
        } by {
            let s = self.result.blame_spans@[i];
            assert(before.result.blame_spans@[i] == s);
            assert(reqs[s.request_id - 1] == old_reqs[s.request_id - 1]);
        }
        assert forall|i: int| 0 <= i < self.result.seed_ranges@.len() implies {
            let s = #[trigger] self.result.seed_ranges@[i];
            exists|j: int|
                0 <= j < reqs.len() && request_key(#[trigger] reqs[j]) == (
                    s.commit_sha@,
                    s.path@,
                    s.start_line,
                    s.end_line,
                ) && reqs[j].depth == 0
        } by {
            let s = self.result.seed_ranges@[i];
            assert(before.result.seed_ranges@[i] == s);
            let j = choose|j: int|
                0 <= j < old_reqs.len() && request_key(#[trigger] old_reqs[j]) == (
                    s.commit_sha@,
                    s.path@,
                    s.start_line,
                    s.end_line,
                ) && old_reqs[j].depth == 0;
            assert(reqs[j] == old_reqs[j]);
        }
    }

    /// Does the work of the current request that needs no repository data:
    /// classifies each group's blamed commit and, for the commits that
    /// recurse, plans and writes the actions for each parent, until it
    /// needs a commit or a diff it does not have, or the request is done
    /// (then it takes the next request).
    #[verifier::rlimit(100)]
    fn advance(&mut self)
        requires
            old(self).processing_ok(),
        ensures
            final(self).wf(),
            final(self).stage != Stage::SeedCommit && final(self).stage != Stage::SeedDiff,
            final(self).rows_kept(*old(self)),
            final(self).commit_cache == old(self).commit_cache,
            final(self).diff_cache == old(self).diff_cache,
            final(self).max_depth == old(self).max_depth,
            final(self).since == old(self).since,
            final(self).include_binary == old(self).include_binary,
            final(self).result.commits == old(self).result.commits,
            final(self).result.commit_parents == old(self).result.commit_parents,
            final(self).result.file_events == old(self).result.file_events,
            final(self).result.diff_hunks == old(self).result.diff_hunks,
            final(self).result.seed_ranges == old(self).result.seed_ranges,
            final(self).result.blame_spans == old(self).result.blame_spans,
            final(self).walk_appended(*old(self)),
            final(self).stage == Stage::Exhausted ==> ids_run_out(final(self).result),
            final(self).groups == old(self).groups,
            ({
                let f = *final(self);
                let o = *old(self);
                ||| f.stage == Stage::Finished || f.stage == Stage::Exhausted
                ||| f.stage == Stage::Blame && f.current > o.current
                ||| f.current == o.current && (f.stage == Stage::Commit || f.stage == Stage::Diff)
                    && (f.group > o.group || f.group == o.group && f.parent >= o.parent)
            }),
            final(self).stage != Stage::Exhausted ==> ({
                let items = old(self).planned_from(
                    old(self).current as int,
                    old(self).group as int,
                    old(self).parent as int,
                );
                let e0 = old(self).result.lineage_edges@.len();
                &&& final(self).result.lineage_edges@.len() == e0 + items.len()
                &&& forall|k: int|
                    0 <= k < items.len() ==> edge_carries(
                        #[trigger] final(self).result.lineage_edges@[e0 + k],
                        items[k],
                        (old(self).current + 1) as i64,
                        final(self).result.blame_requests@,
                    )
            }),
    {
        let ghost s0 = *self;
        let ghost e0 = self.result.lineage_edges@.len() as int;
        let ghost req = self.current as int;
        let ghost p_all = s0.planned_from(req, s0.group as int, s0.parent as int);
        let ghost mut acc: Seq<(RecurseAction, Option<(Seq<char>, ParentPos)>)> = Seq::empty();
        assert(p_all == acc + s0.planned_from(req, self.group as int, self.parent as int));
        while self.group < self.groups.len()
            invariant
                s0 == *old(self),
                e0 == s0.result.lineage_edges@.len(),
                req == s0.current,
                p_all == s0.planned_from(req, s0.group as int, s0.parent as int),
                p_all == acc + s0.planned_from(req, self.group as int, self.parent as int),
                self.result.lineage_edges@.len() == e0 + acc.len(),
                forall|k: int|
                    0 <= k < acc.len() ==> edge_carries(
                        #[trigger] self.result.lineage_edges@[e0 + k],
                        acc[k],
                        (req + 1) as i64,
                        self.result.blame_requests@,
                    ),
                self.groups == s0.groups,
                self.group > s0.group || self.group == s0.group && self.parent >= s0.parent,
                self.processing_ok(),
                self.rows_kept(s0),
                self.current == s0.current,
                s0.current < s0.result.blame_requests@.len(),
                self.walk_appended(s0),
                self.commit_cache == s0.commit_cache,
                self.diff_cache == s0.diff_cache,
                self.max_depth == s0.max_depth,
                self.since == s0.since,
                self.include_binary == s0.include_binary,
                self.result.commits == s0.result.commits,
                self.result.commit_parents == s0.result.commit_parents,
                self.result.file_events == s0.result.file_events,
                self.result.diff_hunks == s0.result.diff_hunks,
                self.result.seed_ranges == s0.result.seed_ranges,
                self.result.blame_spans == s0.result.blame_spans,
            decreases self.groups@.len() - self.group, self.parents_left(),
        {
            let ghost before = *self;
            let sha = self.groups[self.group].blamed_sha.clone();
            let c = match find_commit(&self.commit_cache, &sha) {
                Some(c) => c,
                None => {
                    proof {
                        assert(!commit_cached(s0.commit_cache@, sha@));
                        assert(s0.planned_from(req, self.group as int, self.parent as int)
                            =~= Seq::empty());
                        assert(p_all =~= acc);
                    }
                    self.stage = Stage::Commit;
                    return ;
                },
            };
            proof {
                self.lemma_commit_index(c as int);
            }
            let scan_id = self.result.scan.id;
            let nreq = Ghost(self.result.blame_requests@.len() as int);
            let nspan = Ghost(self.result.blame_spans@.len() as int);
            let nreq_now = self.result.blame_requests.len();
            assert(self.current < nreq_now);
            assert(requests_table_ok(
                self.result.blame_requests@,
                self.queue@,
                self.next_id.blame_request,
                self.result.scan.id,
                self.max_depth,
            ));
            let from_request_id = (self.current + 1) as i64;
            let edge = classify_terminal(
                &self.result.blame_requests[self.current],
                &self.commit_cache[c],
                self.max_depth,
                self.since,
            );
            match edge {
                Some(edge_type) => {
                    proof {
                        let g = self.group as int;
                        assert forall|k: int|
                            0 <= k < self.groups@[g].spans@.len() implies 1 <= (
                            #[trigger] self.groups@[g].spans@[k]).0 <= nspan@ by {
                            assert(self.groups_ok());
                        }
                    }
                    let ghost edges_before = self.result.lineage_edges@;
                    let ghost before_write = *self;
                    let complete = write_terminal_for_all(
                        &mut self.result.lineage_edges,
                        &mut self.next_id.lineage_edge,
                        scan_id,
                        nreq,
                        nspan,
                        from_request_id,
                        self.groups[self.group].spans.as_slice(),
                        edge_type,
                    );
                    proof {
                        let g = self.group as int;
                        let group = self.groups@[g].spans@;
                        assert forall|k: int| 0 <= k < group.len() implies self.result.blame_spans@[(
                        #[trigger] group[k]).0 - 1].request_id == from_request_id
                            && self.result.blame_spans@[group[k].0 - 1].blamed_commit_sha@
                            == self.commit_cache@[c as int].sha@ by {
                            let _ = self.groups@[g].spans@[k];
                        }
                        lemma_cutoff_edges_justified(
                            edges_before,
                            self.result.lineage_edges@,
                            self.result.blame_spans@,
                            self.result.blame_requests@,
                            self.commit_cache@,
                            self.diff_cache@,
                            self.max_depth,
                            self.since,
                            group,
                            c as int,
                            scan_id,
                            from_request_id,
                            edge_type,
                        );
                        self.lemma_followed_grow(before_write);
                        lemma_sourced_grow(
                            self.result.blame_requests@,
                            self.result.blame_requests@,
                            edges_before,
                            self.result.lineage_edges@,
                        );
                        lemma_new_edges_from(
                            s0.result.lineage_edges@.len() as int,
                            edges_before,
                            self.result.lineage_edges@,
                            from_request_id,
                        );
                        if complete {
                            lemma_cutoff_followed(
                                edges_before,
                                self.result.lineage_edges@,
                                self.result.blame_spans@,
                                self.result.blame_requests@,
                                self.commit_cache@,
                                self.diff_cache@,
                                self.max_depth,
                                self.since,
                                group,
                                c as int,
                                scan_id,
                                from_request_id,
                                edge_type,
                            );
                        }
                    }
                    if !complete {
                        self.stage = Stage::Exhausted;
                        return ;
                    }
                    proof {
                        let g = self.group as int;
                        let spans = self.groups@[g].spans@;
                        let items = cutoff_items(spans, edge_type);
                        let edges = self.result.lineage_edges@;
                        let reqs = self.result.blame_requests@;
                        lemma_carried_grow(
                            edges_before,
                            edges,
                            reqs,
                            reqs,
                            e0,
                            acc,
                            (req + 1) as i64,
                        );
                        assert forall|k: int| 0 <= k < items.len() implies edge_carries(
                            #[trigger] edges[e0 + acc.len() + k],
                            items[k],
                            (req + 1) as i64,
                            reqs,
                        ) by {
                            assert(edges[e0 + acc.len() + k] == edges[edges_before.len() + k]);
                        }
                        lemma_carried_append(edges, reqs, e0, acc, items, (req + 1) as i64);
                        assert(commit_cached(s0.commit_cache@, self.groups@[g].blamed_sha@));
                        assert(s0.result.blame_requests@[req] == reqs[req]);
                        assert(s0.planned_from(req, g, self.parent as int) == items + s0.planned_from(
                            req,
                            g + 1,
                            0,
                        ));
                        assert(p_all =~= (acc + items) + s0.planned_from(req, g + 1, 0));
                        acc = acc + items;
                    }
                    let ghost mid = *self;
                    self.group = self.group + 1;
                    self.parent = 0;
                    proof {
                        let groups = self.groups@;
                        let group = groups[mid.group as int].spans@;
                        assert forall|g: int, k: int|
                            0 <= g < self.group && 0 <= k < groups[g].spans@.len() implies self.is_followed(
                            (#[trigger] groups[g].spans@[k]).0 - 1,
                        ) by {
                            if g < mid.group {
                                assert(mid.is_followed(groups[g].spans@[k].0 - 1));
                            } else {
                                let _ = group[k];
                            }
                        }
                    }
                },
                None => {
                    if self.parent >= self.commit_cache[c].parents.len() {
                        proof {
                            let g = self.group as int;
                            assert(commit_cached(s0.commit_cache@, self.groups@[g].blamed_sha@));
                            assert(s0.result.blame_requests@[req] == self.result.blame_requests@[req]);
                            assert(s0.planned_from(req, g, self.parent as int) == s0.planned_from(
                                req,
                                g + 1,
                                0,
                            ));
                        }
                        let ghost mid = *self;
                        self.group = self.group + 1;
                        self.parent = 0;
                        proof {
                            let groups = self.groups@;
                            let gi = mid.group as int;
                            let group = groups[gi].spans@;
                            let spans = self.result.blame_spans@;
                            let info = self.commit_cache@[c as int];
                            assert(info.parents@.len() > 0);
                            let c2 = choose|c2: int|
                                0 <= c2 < mid.commit_cache@.len() && (
                                #[trigger] mid.commit_cache@[c2]).sha@ == groups[gi].blamed_sha@
                                    && forall|k: int, q: int|
                                    0 <= k < groups[gi].spans@.len() && 0 <= q < mid.parent
                                        ==> #[trigger] parent_followed(
                                        mid.result.lineage_edges@,
                                        groups[gi].spans@[k].0,
                                        spans[groups[gi].spans@[k].0 - 1],
                                        mid.result.blame_requests@,
                                        mid.commit_cache@[c2],
                                        mid.diff_cache@,
                                        q,
                                    );
                            if c2 != c as int {
                                assert(commits_table_ok(self.result.commits@, self.commit_cache@));
                                if c2 < c as int {
                                    assert(self.commit_cache@[c2].sha@ != self.commit_cache@[c as int].sha@);
                                } else {
                                    assert(self.commit_cache@[c as int].sha@ != self.commit_cache@[c2].sha@);
                                }
                            }
                            assert forall|k: int| 0 <= k < group.len() implies self.is_followed(
                                (#[trigger] group[k]).0 - 1,
                            ) by {
                                let id = group[k].0;
                                let row = spans[id - 1];
                                let _ = mid.groups@[gi].spans@[k];
                                assert forall|q: int| 0 <= q < info.parents@.len() implies #[trigger] parent_followed(
                                    self.result.lineage_edges@,
                                    id,
                                    row,
                                    self.result.blame_requests@,
                                    info,
                                    self.diff_cache@,
                                    q,
                                ) by {
                                    assert(parent_followed(
                                        mid.result.lineage_edges@,
                                        groups[gi].spans@[k].0,
                                        spans[groups[gi].spans@[k].0 - 1],
                                        mid.result.blame_requests@,
                                        mid.commit_cache@[c2],
                                        mid.diff_cache@,
                                        q,
                                    ));
                                }
                                assert(commit_followed(
                                    self.result.lineage_edges@,
                                    id,
                                    row,
                                    self.result.blame_requests@,
                                    info,
                                    self.diff_cache@,
                                    self.max_depth,
                                    self.since,
                                ));
                            }
                            assert forall|g: int, k: int|
                                0 <= g < self.group && 0 <= k < groups[g].spans@.len() implies self.is_followed(
                                (#[trigger] groups[g].spans@[k]).0 - 1,
                            ) by {
                                if g < mid.group {
                                    assert(mid.is_followed(groups[g].spans@[k].0 - 1));
                                } else {
                                    let _ = group[k];
                                }
                            }
                        }
                    } else {
                        let position = ParentPos::Index(#[verifier::truncate] (self.parent as u32));
                        let d = match find_diff(&self.diff_cache, &sha, position) {
                            Some(d) => d,
                            None => {
                                proof {
                                    let g = self.group as int;
                                    assert(commit_cached(s0.commit_cache@, self.groups@[g].blamed_sha@));
                                    assert(s0.result.blame_requests@[req]
                                        == self.result.blame_requests@[req]);
                                    assert(!diff_cached(s0.diff_cache@, sha@, position));
                                    assert(s0.planned_from(req, g, self.parent as int)
                                        =~= Seq::empty());
                                    assert(p_all =~= acc);
                                }
                                self.stage = Stage::Diff;
                                return ;
                            },
                        };
                        let ghost g = self.group as int;
                        let ghost spans = self.groups@[g].spans@;
                        let ghost events = self.diff_cache@[d as int].diff.events@;
                        proof {
                            assert(self.diffs_ok());
                            assert(persisted_fits(events));
                            assert forall|j: int| 0 <= j < spans.len() implies span_fits(
                                #[trigger] spans[j].1,
                            ) by {
                                assert(self.groups_ok());
                                let _ = self.groups@[g].spans@[j];
                            }
                            assert forall|j: int| 0 <= j < spans.len() implies span_plan_fits(
                                #[trigger] spans[j].1,
                                events,
                            ) by {
                                lemma_span_plan_fits(spans[j].1, events);
                            }
                        }
                        let actions = plan_parent_recursion(
                            self.groups[self.group].spans.as_slice(),
                            &self.diff_cache[d].diff,
                        );
                        proof {
                            lemma_plan_all_ok(spans, events, spans.len() as int);
                            assert(spans.take(spans.len() as int) =~= spans);
                            assert forall|k: int| 0 <= k < actions@.len() implies action_fits(
                                #[trigger] actions@[k],
                                nspan@,
                            ) by {
                                assert(action_ok(actions@[k], spans));
                                match actions@[k] {
                                    RecurseAction::Terminal { span_id, .. } => {
                                        let m = choose|m: int|
                                            0 <= m < spans.len() && (#[trigger] spans[m]).0 == span_id;
                                        assert(self.groups_ok());
                                        let _ = self.groups@[g].spans@[m];
                                    },
                                    RecurseAction::Recurse { span_id, .. } => {
                                        let m = choose|m: int|
                                            0 <= m < spans.len() && (#[trigger] spans[m]).0 == span_id;
                                        assert(self.groups_ok());
                                        let _ = self.groups@[g].spans@[m];
                                    },
                                }
                            }
                        }
                        let parent_sha = self.commit_cache[c].parents[self.parent].clone();
                        let depth = self.result.blame_requests[self.current].depth;
                        let ghost acts = actions@;
                        let ghost edges_before = self.result.lineage_edges@;
                        let ghost reqs_before = self.result.blame_requests@;
                        let ghost before_write = *self;
                        let complete = write_parent_actions(
                            &mut self.result.lineage_edges,
                            &mut self.next_id.lineage_edge,
                            &mut self.result.blame_requests,
                            &mut self.queue,
                            &mut self.next_id.blame_request,
                            scan_id,
                            self.max_depth,
                            nspan,
                            from_request_id,
                            depth,
                            &parent_sha,
                            position,
                            actions,
                        );
                        proof {
                            self.lemma_requests_appended(before);
                            let r = self.result;
                            lemma_justified_grow(
                                edges_before,
                                r.blame_spans@,
                                reqs_before,
                                self.commit_cache@,
                                self.diff_cache@,
                                r.blame_spans@,
                                r.blame_requests@,
                                self.commit_cache@,
                                self.diff_cache@,
                                self.max_depth,
                                self.since,
                            );
                            assert(r.blame_requests@[self.current as int] == reqs_before[self.current as int]);
                            assert forall|k: int| 0 <= k < spans.len() implies {
                                let row = r.blame_spans@[(#[trigger] spans[k]).0 - 1];
                                &&& row.request_id == from_request_id
                                &&& row.blamed_commit_sha@ == self.commit_cache@[c as int].sha@
                                &&& span_of_row(row) == spans[k].1
                            } by {
                                let _ = self.groups@[g].spans@[k];
                            }
                            lemma_parent_edges_justified(
                                edges_before,
                                r.lineage_edges@,
                                r.blame_spans@,
                                r.blame_requests@,
                                self.commit_cache@,
                                self.diff_cache@,
                                self.max_depth,
                                self.since,
                                spans,
                                acts,
                                c as int,
                                self.parent as int,
                                d as int,
                                from_request_id,
                            );
                            self.lemma_followed_grow(before_write);
                            lemma_sourced_grow(
                                reqs_before,
                                r.blame_requests@,
                                edges_before,
                                r.lineage_edges@,
                            );
                            let edges = r.lineage_edges@;
                            assert forall|k: int|
                                0 <= k < edges.len() - edges_before.len() implies (
                                #[trigger] edges[edges_before.len() + k]).from_request_id
                                    == from_request_id by {
                                assert(parent_edge_matches(
                                    edges[edges_before.len() + k],
                                    acts[k],
                                    from_request_id,
                                    parent_sha@,
                                    position,
                                    r.blame_requests@,
                                ));
                            }
                            lemma_new_edges_from(
                                s0.result.lineage_edges@.len() as int,
                                edges_before,
                                edges,
                                from_request_id,
                            );
                            lemma_new_requests_below(
                                s0.result.blame_requests@,
                                reqs_before,
                                r.blame_requests@,
                                self.current as int,
                            );
                            if complete {
                                assert forall|j: int| 0 <= j < r.blame_requests@.len() implies #[trigger] request_sourced(
                                    r.blame_requests@,
                                    r.lineage_edges@,
                                    j,
                                ) by {
                                    if j >= reqs_before.len() {
                                        assert(links_to(r.lineage_edges@, edges_before.len() as int, j));
                                        let k = choose|k: int|
                                            edges_before.len() <= k < r.lineage_edges@.len() && (
                                            #[trigger] r.lineage_edges@[k]).next_request_id == Some(
                                                (j + 1) as i64,
                                            );
                                        let k2 = k - edges_before.len();
                                        assert(r.lineage_edges@[edges_before.len() + k2] == r.lineage_edges@[k]);
                                        assert(parent_edge_matches(
                                            r.lineage_edges@[edges_before.len() + k2],
                                            acts[k2],
                                            from_request_id,
                                            parent_sha@,
                                            position,
                                            r.blame_requests@,
                                        ));
                                    }
                                }
                                lemma_parent_followed_written(
                                    edges_before,
                                    r.lineage_edges@,
                                    r.blame_spans@,
                                    r.blame_requests@,
                                    self.commit_cache@[c as int],
                                    self.diff_cache@,
                                    spans,
                                    acts,
                                    self.parent as int,
                                    d as int,
                                    from_request_id,
                                );
                            }
                        }
                        if !complete {
                            self.stage = Stage::Exhausted;
                            return ;
                        }
                        proof {
                            let gi = self.group as int;
                            let spans = self.groups@[gi].spans@;
                            let items = parent_items(acts, parent_sha@, position);
                            let edges = self.result.lineage_edges@;
                            let reqs = self.result.blame_requests@;
                            lemma_carried_grow(
                                edges_before,
                                edges,
                                reqs_before,
                                reqs,
                                e0,
                                acc,
                                (req + 1) as i64,
                            );
                            assert forall|k: int| 0 <= k < items.len() implies edge_carries(
                                #[trigger] edges[e0 + acc.len() + k],
                                items[k],
                                (req + 1) as i64,
                                reqs,
                            ) by {
                                assert(edges[e0 + acc.len() + k] == edges[edges_before.len() + k]);
                            }
                            lemma_carried_append(edges, reqs, e0, acc, items, (req + 1) as i64);
                            let sha_g = self.groups@[gi].blamed_sha@;
                            assert(commit_cached(s0.commit_cache@, sha_g));
                            assert(s0.result.blame_requests@[req] == reqs_before[req]);
                            assert(diff_cached(s0.diff_cache@, sha_g, position));
                            let dp = diff_position(s0.diff_cache@, sha_g, position);
                            assert(self.diffs_ok());
                            if dp != d as int {
                                if dp < d as int {
                                    assert(!(self.diff_cache@[dp].commit_sha@ == self.diff_cache@[d as int].commit_sha@
                                        && self.diff_cache@[dp].position == self.diff_cache@[d as int].position));
                                } else {
                                    assert(!(self.diff_cache@[d as int].commit_sha@ == self.diff_cache@[dp].commit_sha@
                                        && self.diff_cache@[d as int].position == self.diff_cache@[dp].position));
                                }
                            }
                            assert(s0.planned_from(req, gi, self.parent as int) == items + s0.planned_from(
                                req,
                                gi,
                                self.parent + 1,
                            ));
                            assert(p_all =~= (acc + items) + s0.planned_from(req, gi, self.parent + 1));
                            acc = acc + items;
                        }
                        let ghost mid = *self;
                        self.parent = self.parent + 1;
                        proof {
                            let groups = self.groups@;
                            let gi = self.group as int;
                            let rows = self.result.blame_spans@;
                            let info = self.commit_cache@[c as int];
                            assert forall|k: int, q: int|
                                0 <= k < groups[gi].spans@.len() && 0 <= q < self.parent
                                    implies #[trigger] parent_followed(
                                self.result.lineage_edges@,
                                groups[gi].spans@[k].0,
                                rows[groups[gi].spans@[k].0 - 1],
                                self.result.blame_requests@,
                                info,
                                self.diff_cache@,
                                q,
                            ) by {
                                if q < mid.parent {
                                    let c2 = choose|c2: int|
                                        0 <= c2 < mid.commit_cache@.len() && (
                                        #[trigger] mid.commit_cache@[c2]).sha@ == groups[gi].blamed_sha@
                                            && forall|k2: int, q2: int|
                                            0 <= k2 < groups[gi].spans@.len() && 0 <= q2 < mid.parent
                                                ==> #[trigger] parent_followed(
                                                mid.result.lineage_edges@,
                                                groups[gi].spans@[k2].0,
                                                rows[groups[gi].spans@[k2].0 - 1],
                                                mid.result.blame_requests@,
                                                mid.commit_cache@[c2],
                                                mid.diff_cache@,
                                                q2,
                                            );
                                    if c2 != c as int {
                                        assert(commits_table_ok(self.result.commits@, self.commit_cache@));
                                        if c2 < c as int {
                                            assert(self.commit_cache@[c2].sha@ != info.sha@);
                                        } else {
                                            assert(info.sha@ != self.commit_cache@[c2].sha@);
                                        }
                                    }
                                    assert(parent_followed(
                                        mid.result.lineage_edges@,
                                        groups[gi].spans@[k].0,
                                        rows[groups[gi].spans@[k].0 - 1],
                                        mid.result.blame_requests@,
                                        mid.commit_cache@[c2],
                                        mid.diff_cache@,
                                        q,
                                    ));
                                } else {
                                    let _ = spans[k];
                                }
                            }
                        }
                    }
                },
            }
        }
        proof {
            let rows = self.result.blame_spans@;
            let groups = self.groups@;
            assert forall|i: int| 0 <= i < rows.len() implies #[trigger] self.is_followed(i) by {
                if rows[i].request_id > self.current {
                    let (g, k) = choose|g: int, k: int|
                        0 <= g < groups.len() && 0 <= k < groups[g].spans@.len() && (
                        #[trigger] groups[g].spans@[k]).0 == i + 1;
                    assert(self.is_followed(groups[g].spans@[k].0 - 1));
                }
            }
        }
        self.pick_next();
    }
}

impl Scanner {
    /// Records the metadata of the commit the walk needs: its `commits` row
    /// and one `commit_parents` row per parent. Then the walk goes on as far
    /// as it can without more repository data.
    pub fn supply_commit(&mut self, info: CommitInfo)
        requires
            old(self).wf(),
            old(self).spec_need() matches Need::Commit { sha } && info.sha@ == sha@,
        ensures
            final(self).wf(),
            final(self).rows_kept(*old(self)),
            final(self).spec_stage() != Stage::SeedCommit,
            final(self).spec_result().commits@ == old(self).spec_result().commits@.push(
                commit_row(info, old(self).spec_result().repository.id),
            ),
            final(self).spec_result().commit_parents@ == old(self).spec_result().commit_parents@
                + commit_parent_rows(info, old(self).spec_result().repository.id),
            final(self).spec_commits() == old(self).spec_commits().push(info),
            final(self).spec_diffs() == old(self).spec_diffs(),
            final(self).settings_kept(*old(self)),
            final(self).walk_appended(*old(self)),
            final(self).spec_stage() == Stage::Exhausted ==> ids_run_out(final(self).spec_result()),
            position_before(old(self).walk_position(), final(self).walk_position()),
            old(self).spec_stage() == Stage::SeedCommit ==> final(self).spec_result().lineage_edges
                == old(self).spec_result().lineage_edges,
            old(self).spec_stage() == Stage::Commit && final(self).spec_stage() != Stage::Exhausted
                ==> edges_carry(
                final(self).spec_result().lineage_edges@,
                old(self).spec_result().lineage_edges@,
                final(self).planned_from(
                    old(self).spec_current() as int,
                    old(self).spec_group() as int,
                    old(self).spec_parent() as int,
                ),
                (old(self).spec_current() + 1) as i64,
                final(self).spec_result().blame_requests@,
            ),
    {
        let repository_id = self.result.repository.id;
        proof {
            if self.stage == Stage::Commit {
                assert(!self.is_cached_commit(info.sha@));
            }
        }
        let ghost cache_before = self.commit_cache@;
        let ghost before_store = *self;
        let ghost info_g = info;
        store_commit(
            &mut self.result.commits,
            &mut self.result.commit_parents,
            &mut self.commit_cache,
            repository_id,
            info,
        );
        proof {
            let r = self.result;
            assert(edges_table_ok(
                r.lineage_edges@,
                self.next_id.lineage_edge,
                r.scan.id,
                r.blame_requests@.len() as int,
                r.blame_spans@.len() as int,
            ));
            lemma_justified_grow(
                r.lineage_edges@,
                r.blame_spans@,
                r.blame_requests@,
                cache_before,
                self.diff_cache@,
                r.blame_spans@,
                r.blame_requests@,
                self.commit_cache@,
                self.diff_cache@,
                self.max_depth,
                self.since,
            );
            if self.stage == Stage::Commit {
                self.lemma_followed_grow(before_store);
            }
            reveal(commit_rows_match);
            let cache = self.commit_cache@;
            assert(cache.drop_last() =~= cache_before);
            assert(cache.last() == info_g);
            assert(r.commits@ =~= cache.map_values(
                |info: CommitInfo| commit_row(info, repository_id),
            ));
        }
        if self.stage == Stage::SeedCommit {
            self.stage = Stage::SeedDiff;
        } else {
            let ghost before_adv = *self;
            self.advance();
            proof {
                lemma_planned_same(
                    *self,
                    before_adv,
                    before_adv.current as int,
                    before_adv.group as int,
                    before_adv.parent as int,
                );
            }
        }
    }

    /// Records the diff the walk needs: a `file_events` row per delta and a
    /// `diff_hunks` row per hunk of each delta not recorded as binary. For
    /// the seed diff it then records every added line-range as a seed range
    /// with a depth-0 request. Then the walk goes on as far as it can
    /// without more repository data.
    pub fn supply_diff(&mut self, events: Vec<DiffFileEvent>)
        requires
            old(self).wf(),
            old(self).spec_need() is Diff,
            forall|i: int| 0 <= i < events@.len() ==> event_fits(#[trigger] events@[i]),
        ensures
            final(self).wf(),
            final(self).rows_kept(*old(self)),
            final(self).settings_kept(*old(self)),
            final(self).spec_commits() == old(self).spec_commits(),
            extends(final(self).spec_diffs(), old(self).spec_diffs()),
            old(self).spec_stage() == Stage::Diff ==> final(self).walk_appended(*old(self)),
            final(self).spec_stage() != Stage::Exhausted ==> forall|i: int|
                0 <= i < events@.len() ==> persisted_event_matches(
                    #[trigger] final(self).spec_diffs().last().diff.events@[i],
                    events@[i],
                    (old(self).spec_result().file_events@.len() + i + 1) as i64,
                    final(self).spec_result().diff_hunks@,
                    old(self).spec_result().repository.id,
                    old(self).spec_need()->Diff_commit_sha,
                    old(self).spec_need()->Diff_parent_sha,
                    if old(self).spec_stage() == Stage::SeedDiff {
                        ParentPos::Seed
                    } else {
                        ParentPos::Index(old(self).spec_parent() as u32)
                    },
                    old(self).spec_include_binary(),
                ),
            old(self).spec_stage() == Stage::SeedDiff && final(self).spec_stage() != Stage::Exhausted
                ==> ({
                let seeds = diff_seeds(final(self).spec_diffs().last().diff.events@);
                let head_sha = old(self).spec_need()->Diff_commit_sha;
                let reqs = final(self).spec_result().blame_requests@;
                &&& final(self).spec_result().seed_ranges@ == seed_rows_of(
                    seeds,
                    old(self).spec_result().scan.id,
                    head_sha,
                )
                &&& request_keys(reqs) == distinct_seed_keys(head_sha@, seeds)
                &&& forall|j: int|
                    0 <= j < reqs.len() ==> (#[trigger] reqs[j]).depth == 0 && reqs[j].reason
                        == BlameReason::Seed
            }),
            final(self).spec_stage() != Stage::Exhausted ==> ({
                let need = old(self).spec_need();
                let diffs = final(self).spec_diffs();
                &&& diffs.len() == old(self).spec_diffs().len() + 1
                &&& diffs.last().commit_sha@ == need->Diff_commit_sha@
                &&& diffs.last().position == (if old(self).spec_stage() == Stage::SeedDiff {
                    ParentPos::Seed
                } else {
                    ParentPos::Index(old(self).spec_parent() as u32)
                })
                &&& diffs.last().diff.events@.len() == events@.len()
                &&& forall|i: int|
                    0 <= i < events@.len() ==> #[trigger] diffs.last().diff.events@[i].info
                        == events@[i]
            }),
            final(self).spec_stage() != Stage::SeedCommit && final(self).spec_stage()
                != Stage::SeedDiff,
            final(self).spec_stage() == Stage::Exhausted ==> ids_run_out(final(self).spec_result()),
            position_before(old(self).walk_position(), final(self).walk_position()),
            old(self).spec_stage() == Stage::SeedDiff ==> final(self).spec_result().lineage_edges
                == old(self).spec_result().lineage_edges,
            old(self).spec_stage() == Stage::Diff && final(self).spec_stage() != Stage::Exhausted
                ==> edges_carry(
                final(self).spec_result().lineage_edges@,
                old(self).spec_result().lineage_edges@,
                final(self).planned_from(
                    old(self).spec_current() as int,
                    old(self).spec_group() as int,
                    old(self).spec_parent() as int,
                ),
                (old(self).spec_current() + 1) as i64,
                final(self).spec_result().blame_requests@,
            ),
            final(self).spec_stage() != Stage::Exhausted ==> final(self).spec_result().diff_hunks@
                == old(self).spec_result().diff_hunks@ + diff_hunk_rows(
                events@,
                old(self).spec_result().file_events@.len() + 1int,
                old(self).spec_result().diff_hunks@.len() + 1int,
                old(self).spec_result().repository.id,
                old(self).spec_need()->Diff_commit_sha,
                old(self).spec_need()->Diff_parent_sha,
                if old(self).spec_stage() == Stage::SeedDiff {
                    ParentPos::Seed
                } else {
                    ParentPos::Index(old(self).spec_parent() as u32)
                },
                old(self).spec_include_binary(),
            ),
            final(self).spec_stage() != Stage::Exhausted ==> ({
                let need = old(self).spec_need();
                final(self).spec_result().file_events@ == old(self).spec_result().file_events@
                    + Seq::new(
                    events@.len(),
                    |i: int|
                        file_event_row(
                            events@[i],
                            (old(self).spec_result().file_events@.len() + i + 1) as i64,
                            old(self).spec_result().repository.id,
                            need->Diff_commit_sha,
                            need->Diff_parent_sha,
                            if old(self).spec_stage() == Stage::SeedDiff {
                                ParentPos::Seed
                            } else {
                                ParentPos::Index(old(self).spec_parent() as u32)
                            },
                            old(self).spec_include_binary(),
                        ),
                )
            }),
    {
        let repository_id = self.result.repository.id;
        let scan_id = self.result.scan.id;
        if self.stage == Stage::SeedDiff {
            let persisted = populate_diff(
                &mut self.result.file_events,
                &mut self.next_id.file_event,
                &mut self.result.diff_hunks,
                &mut self.next_id.diff_hunk,
                repository_id,
                &self.head_sha,
                &self.merge_base_sha,
                ParentPos::Seed,
                self.include_binary,
                events,
            );
            let persisted = match persisted {
                Some(p) => p,
                None => {
                    self.stage = Stage::Exhausted;
                    return ;
                },
            };
            let ghost before = *self;
            let complete = seed_requests(
                &mut self.result.seed_ranges,
                &mut self.next_id.seed_range,
                &mut self.result.blame_requests,
                &mut self.queue,
                &mut self.next_id.blame_request,
                scan_id,
                self.max_depth,
                &self.head_sha,
                &persisted,
            );
            proof {
                let reqs = self.result.blame_requests@;
                let seeds = choose|seeds: Seq<Seed>|
                    {
                        &&& self.result.seed_ranges@ == seed_rows_of(seeds, scan_id, self.head_sha)
                        &&& forall|i: int|
                            0 <= i < seeds.len() ==> seed_requested(
                                reqs,
                                self.head_sha@,
                                #[trigger] seeds[i],
                            )
                        &&& complete ==> seeds == diff_seeds(persisted.events@)
                    };
                assert forall|i: int| 0 <= i < self.result.seed_ranges@.len() implies {
                    let s = #[trigger] self.result.seed_ranges@[i];
                    exists|j: int|
                        0 <= j < reqs.len() && request_key(#[trigger] reqs[j]) == (
                            s.commit_sha@,
                            s.path@,
                            s.start_line,
                            s.end_line,
                        ) && reqs[j].depth == 0
                } by {
                    assert(seed_requested(reqs, self.head_sha@, seeds[i]));
                }
                assert forall|i: int| 0 <= i < self.result.seed_ranges@.len() implies #[trigger] self.result.seed_ranges@[i].id
                    == i + 1 by {}
            }
            if !complete {
                self.stage = Stage::Exhausted;
                return ;
            }
            proof {
                assert forall|i: int| 0 <= i < persisted.events@.len() implies event_fits(
                    #[trigger] persisted.events@[i].info,
                ) by {
                    assert(persisted.events@[i].info == events@[i]);
                }
            }
            self.diff_cache.push(
                CachedDiff {
                    commit_sha: self.head_sha.clone(),
                    position: ParentPos::Seed,
                    diff: persisted,
                },
            );
            self.pick_next();
        } else {
            let sha = self.groups[self.group].blamed_sha.clone();
            let c = match find_commit(&self.commit_cache, &sha) {
                Some(c) => c,
                None => {
                    proof {
                        let c = self.commit_index(sha@);
                        assert(self.commit_cache@[c].sha@ == sha@);
                    }
                    return ;
                },
            };
            proof {
                self.lemma_commit_index(c as int);
            }
            let position = ParentPos::Index(#[verifier::truncate] (self.parent as u32));
            let parent_sha = self.commit_cache[c].parents[self.parent].clone();
            let ghost before_diff = *self;
            let persisted = populate_diff(
                &mut self.result.file_events,
                &mut self.next_id.file_event,
                &mut self.result.diff_hunks,
                &mut self.next_id.diff_hunk,
                repository_id,
                &sha,
                &parent_sha,
                position,
                self.include_binary,
                events,
            );
            let persisted = match persisted {
                Some(p) => p,
                None => {
                    self.stage = Stage::Exhausted;
                    return ;
                },
            };
            proof {
                assert forall|i: int| 0 <= i < persisted.events@.len() implies event_fits(
                    #[trigger] persisted.events@[i].info,
                ) by {
                    assert(persisted.events@[i].info == events@[i]);
                }
            }
            let ghost cache_before = self.diff_cache@;
            self.diff_cache.push(CachedDiff { commit_sha: sha, position, diff: persisted });
            proof {
                let cache = self.diff_cache@;
                assert forall|i: int, j: int| 0 <= i < j < cache.len() implies !((
                #[trigger] cache[i]).commit_sha@ == (#[trigger] cache[j]).commit_sha@
                    && cache[i].position == cache[j].position) by {
                    assert(cache[i] == cache_before[i]);
                    if j < cache.len() - 1 {
                        assert(cache[j] == cache_before[j]);
                    }
                }
                assert forall|i: int| 0 <= i < cache.len() implies persisted_fits(
                    (#[trigger] cache[i]).diff.events@,
                ) by {
                    if i < cache.len() - 1 {
                        assert(cache[i] == cache_before[i]);
                    }
                }
                let r = self.result;
                assert(edges_table_ok(
                    r.lineage_edges@,
                    self.next_id.lineage_edge,
                    r.scan.id,
                    r.blame_requests@.len() as int,
                    r.blame_spans@.len() as int,
                ));
                lemma_justified_grow(
                    r.lineage_edges@,
                    r.blame_spans@,
                    r.blame_requests@,
                    self.commit_cache@,
                    cache_before,
                    r.blame_spans@,
                    r.blame_requests@,
                    self.commit_cache@,
                    cache,
                    self.max_depth,
                    self.since,
                );
                self.lemma_followed_grow(before_diff);
            }
            let ghost before_adv = *self;
            self.advance();
            proof {
                lemma_planned_same(
                    *self,
                    before_adv,
                    before_adv.current as int,
                    before_adv.group as int,
                    before_adv.parent as int,
                );
            }
        }
    }

    /// Records the blame run of the current request: a `blame_spans` row
    /// per span. Then the walk goes on as far as it can without more
    /// repository data.
    pub fn supply_blame(&mut self, spans: Vec<BlameSpan>)
        requires
            old(self).wf(),
            old(self).spec_need() is Blame,
            forall|i: int| 0 <= i < spans@.len() ==> span_fits(#[trigger] spans@[i]),
        ensures
            final(self).wf(),
            final(self).rows_kept(*old(self)),
            final(self).settings_kept(*old(self)),
            final(self).spec_commits() == old(self).spec_commits(),
            final(self).spec_diffs() == old(self).spec_diffs(),
            final(self).walk_appended(*old(self)),
            final(self).spec_stage() != Stage::SeedCommit && final(self).spec_stage()
                != Stage::SeedDiff,
            final(self).spec_stage() == Stage::Exhausted ==> ids_run_out(final(self).spec_result()),
            position_before(old(self).walk_position(), final(self).walk_position()),
            final(self).spec_stage() != Stage::Exhausted ==> edges_carry(
                final(self).spec_result().lineage_edges@,
                old(self).spec_result().lineage_edges@,
                final(self).planned_from(old(self).spec_current() as int, 0, 0),
                (old(self).spec_current() + 1) as i64,
                final(self).spec_result().blame_requests@,
            ),
            final(self).spec_stage() != Stage::Exhausted ==> groups_split(
                final(self).spec_groups(),
                Seq::new(
                    spans@.len(),
                    |k: int| ((old(self).spec_result().blame_spans@.len() + k + 1) as i64, spans@[k]),
                ),
            ),
            final(self).spec_stage() != Stage::Exhausted ==> ({
                let request = old(self).spec_result().blame_requests@[old(self).spec_current() as int];
                final(self).spec_result().blame_spans@ == old(self).spec_result().blame_spans@
                    + Seq::new(
                    spans@.len(),
                    |k: int|
                        span_row(
                            spans@[k],
                            (old(self).spec_result().blame_spans@.len() + k + 1) as i64,
                            request.id,
                            old(self).spec_result().repository.id,
                            request.commit_sha,
                            request.path,
                        ),
                )
            }),
    {
        let repository_id = self.result.repository.id;
        let nreq = self.result.blame_requests.len();
        let ghost s_old = *self;
        proof {
            assert(requests_table_ok(
                self.result.blame_requests@,
                self.queue@,
                self.next_id.blame_request,
                self.result.scan.id,
                self.max_depth,
            ));
            assert(self.result.blame_requests@[self.current as int].id == self.current + 1);
        }
        let request_id = self.result.blame_requests[self.current].id;
        let commit_sha = self.result.blame_requests[self.current].commit_sha.clone();
        let path = self.result.blame_requests[self.current].path.clone();
        let ghost spans_before = self.result.blame_spans@;
        let pending = persist_blame_spans(
            &mut self.result.blame_spans,
            &mut self.next_id.blame_span,
            request_id,
            repository_id,
            &commit_sha,
            &path,
            spans,
        );
        let pending = match pending {
            Some(p) => p,
            None => {
                self.stage = Stage::Exhausted;
                proof {
                    let reqs = self.result.blame_requests@;
                    assert forall|i: int| 0 <= i < self.result.blame_spans@.len() implies {
                        let s = #[trigger] self.result.blame_spans@[i];
                        &&& 1 <= s.request_id <= reqs.len()
                        &&& s.final_commit_sha@ == reqs[s.request_id - 1].commit_sha@
                        &&& s.final_path@ == reqs[s.request_id - 1].path@
                        &&& s.repository_id == self.result.repository.id
                    } by {
                        if i < spans_before.len() {
                            assert(self.result.blame_spans@[i] == spans_before[i]);
                        } else {
                            assert(self.result.blame_spans@[i].request_id == request_id);
                        }
                    }
                    assert(self.groups_ok());
                }
                return ;
            },
        };
        self.groups = group_by_commit(&pending);
        self.group = 0;
        self.parent = 0;
        proof {
            let reqs = self.result.blame_requests@;
            let rows = self.result.blame_spans@;
            assert forall|i: int| 0 <= i < rows.len() implies {
                let s = #[trigger] rows[i];
                &&& 1 <= s.request_id <= reqs.len()
                &&& s.final_commit_sha@ == reqs[s.request_id - 1].commit_sha@
                &&& s.final_path@ == reqs[s.request_id - 1].path@
                &&& s.repository_id == self.result.repository.id
            } by {
                if i < spans_before.len() {
                    assert(rows[i] == spans_before[i]);
                }
            }
            assert forall|g: int, k: int|
                0 <= g < self.groups@.len() && 0 <= k < self.groups@[g].spans@.len() implies {
                let (id, span) = #[trigger] self.groups@[g].spans@[k];
                &&& 1 <= id <= self.result.blame_spans@.len()
                &&& span_fits(span)
            } by {
                let members = self.groups@[g].spans@;
                lemma_filter_members(pending@, blamed_on(self.groups@[g].blamed_sha@));
                assert(pending@.contains(members[k]));
                let j = choose|j: int| 0 <= j < pending@.len() && pending@[j] == members[k];
                assert(span_fits(spans@[j]));
            }
            let r = self.result;
            assert(edges_table_ok(
                r.lineage_edges@,
                self.next_id.lineage_edge,
                r.scan.id,
                r.blame_requests@.len() as int,
                spans_before.len() as int,
            ));
            lemma_justified_grow(
                r.lineage_edges@,
                spans_before,
                r.blame_requests@,
                self.commit_cache@,
                self.diff_cache@,
                r.blame_spans@,
                r.blame_requests@,
                self.commit_cache@,
                self.diff_cache@,
                self.max_depth,
                self.since,
            );
            assert forall|g: int, k: int|
                0 <= g < self.groups@.len() && 0 <= k < self.groups@[g].spans@.len() implies {
                let id = (#[trigger] self.groups@[g].spans@[k]).0;
                &&& rows[id - 1].request_id == self.current + 1
                &&& rows[id - 1].blamed_commit_sha@ == self.groups@[g].blamed_sha@
                &&& span_of_row(rows[id - 1]) == self.groups@[g].spans@[k].1
            } by {
                let members = self.groups@[g].spans@;
                let pred = blamed_on(self.groups@[g].blamed_sha@);
                lemma_filter_members(pending@, pred);
                pending@.lemma_filter_pred(pred, k);
                assert(pending@.contains(members[k]));
                let j = choose|j: int| 0 <= j < pending@.len() && pending@[j] == members[k];
                assert(rows[spans_before.len() + j] == span_row(
                    spans@[j],
                    (spans_before.len() + j + 1) as i64,
                    request_id,
                    repository_id,
                    commit_sha,
                    path,
                ));
            }
            assert forall|i: int|
                0 <= i < rows.len() && (#[trigger] rows[i]).request_id <= self.current
                    implies self.is_followed(i) by {
                if i < spans_before.len() {
                    assert(rows[i] == spans_before[i]);
                    assert(s_old.is_followed(i));
                } else {
                    assert(rows[i].request_id == request_id);
                }
            }
            assert forall|i: int| 0 <= i < rows.len() implies (#[trigger] rows[i]).request_id
                <= self.current + 1 by {
                if i < spans_before.len() {
                    assert(rows[i] == spans_before[i]);
                }
            }
            let groups = self.groups@;
            assert forall|i: int|
                0 <= i < rows.len() && (#[trigger] rows[i]).request_id == self.current + 1
                    implies exists|g: int, k: int|
                    0 <= g < groups.len() && 0 <= k < groups[g].spans@.len() && (
                    #[trigger] groups[g].spans@[k]).0 == i + 1 by {
                if i < spans_before.len() {
                    assert(rows[i] == spans_before[i]);
                    assert(false);
                }
                let j = i - spans_before.len();
                let sha = pending@[j].1.blamed_commit_sha@;
                assert(has_group(groups, sha));
                let g = choose|g: int| 0 <= g < groups.len() && (#[trigger] groups[g]).blamed_sha@ == sha;
                let pred = blamed_on(groups[g].blamed_sha@);
                pending@.lemma_filter_contains(pred, j);
                assert(groups[g].spans@.contains(pending@[j]));
                let k = choose|k: int| 0 <= k < groups[g].spans@.len() && groups[g].spans@[k] == pending@[j];
                assert(groups[g].spans@[k].0 == i + 1);
            }
        }
        let ghost before_adv = *self;
        self.advance();
        proof {
            lemma_planned_same(
                *self,
                before_adv,
                before_adv.current as int,
                before_adv.group as int,
                before_adv.parent as int,
            );
        }
    }
}

impl Scanner {
    /// Law: every table's ids run from 1 upwards without gaps, as SQLite
    /// rowids would.
    pub proof fn lemma_ids_sequential(self)
        requires
            self.wf(),
        ensures
            forall|i: int|
                0 <= i < self.spec_result().file_events@.len()
                    ==> #[trigger] self.spec_result().file_events@[i].id == i + 1,
            forall|i: int|
                0 <= i < self.spec_result().diff_hunks@.len()
                    ==> #[trigger] self.spec_result().diff_hunks@[i].id == i + 1,
            forall|i: int|
                0 <= i < self.spec_result().seed_ranges@.len()
                    ==> #[trigger] self.spec_result().seed_ranges@[i].id == i + 1,
            forall|i: int|
                0 <= i < self.spec_result().blame_requests@.len()
                    ==> #[trigger] self.spec_result().blame_requests@[i].id == i + 1,
            forall|i: int|
                0 <= i < self.spec_result().blame_spans@.len()
                    ==> #[trigger] self.spec_result().blame_spans@[i].id == i + 1,
            forall|i: int|
                0 <= i < self.spec_result().lineage_edges@.len()
                    ==> #[trigger] self.spec_result().lineage_edges@[i].id == i + 1,
    {
    }

    /// Law: no two blame requests share commit, path and line range (the
    /// SQL unique constraint), and no request goes deeper than the maximum
    /// depth.
    pub proof fn lemma_requests_distinct_and_bounded(self)
        requires
            self.wf(),
        ensures
            forall|i: int, j: int|
                0 <= i < j < self.spec_result().blame_requests@.len() ==> request_key(
                    #[trigger] self.spec_result().blame_requests@[i],
                ) != request_key(#[trigger] self.spec_result().blame_requests@[j]),
            forall|i: int|
                0 <= i < self.spec_result().blame_requests@.len() ==> (
                #[trigger] self.spec_result().blame_requests@[i]).depth <= self.spec_max_depth()
                    && self.spec_result().blame_requests@[i].scan_id == self.spec_result().scan.id,
    {
        let reqs = self.result.blame_requests@;
        assert forall|i: int| 0 <= i < reqs.len() implies (#[trigger] reqs[i]).depth
            <= self.max_depth && reqs[i].scan_id == self.result.scan.id by {
            assert(request_row_ok(reqs[i], self.result.scan.id, self.max_depth));
        }
    }

    /// Law: only `RecurseToParent` edges point at a next request, and every
    /// edge links a request to a blame span and (when it recurses) to a
    /// request, all of which exist. An edge names no parent (neither SHA nor
    /// position) exactly when it is a cutoff at the blamed commit itself
    /// (root commit, older than the cutoff date, maximum depth).
    pub proof fn lemma_edges_well_formed(self)
        requires
            self.wf(),
        ensures
            forall|i: int|
                0 <= i < self.spec_result().lineage_edges@.len() ==> {
                    let e = #[trigger] self.spec_result().lineage_edges@[i];
                    let nreq = self.spec_result().blame_requests@.len();
                    &&& e.scan_id == self.spec_result().scan.id
                    &&& 1 <= e.from_request_id <= nreq
                    &&& 1 <= e.to_span_id <= self.spec_result().blame_spans@.len()
                    &&& (e.next_request_id is Some <==> e.edge_type
                        == LineageEdgeType::RecurseToParent)
                    &&& e.next_request_id matches Some(n) ==> 1 <= n <= nreq
                    &&& (e.parent_sha is None <==> e.parent_position is None)
                    &&& (e.parent_position is None <==> is_cutoff_edge(e.edge_type))
                    &&& e.parent_position matches Some(p) ==> 0 <= p <= u32::MAX
                },
    {
        let edges = self.result.lineage_edges@;
        assert forall|i: int| 0 <= i < edges.len() implies edge_row_ok(
            #[trigger] edges[i],
            self.result.scan.id,
            self.result.blame_requests@.len() as int,
            self.result.blame_spans@.len() as int,
        ) by {}
    }

    /// Law: every lineage edge is accounted for. It leaves a span of the
    /// request it comes from, and the metadata supplied for that span's
    /// blamed commit justifies it: an edge that names no parent carries
    /// exactly the cutoff the commit hits for the request (a root commit,
    /// a commit older than the cutoff date, the maximum depth, checked in
    /// that order); any other edge crosses into one of the commit's parents,
    /// named by its SHA and position, the commit hits no cutoff, and the
    /// edge is one of the actions the span's plan holds against the diff
    /// supplied for that commit and parent (ending the lineage there, or
    /// following it into a request for the planned range of the parent).
    pub proof fn lemma_edges_justified(self)
        requires
            self.wf(),
        ensures
            edges_justified(
                self.spec_result().lineage_edges@,
                self.spec_result().blame_spans@,
                self.spec_result().blame_requests@,
                self.spec_commits(),
                self.spec_diffs(),
                self.spec_max_depth(),
                self.spec_since(),
            ),
    {
    }

    /// Law: every blame span is followed once its request is done with. The
    /// metadata of its blamed commit was recorded, and either the span's
    /// lineage ends with the cutoff that commit hits for the span's request,
    /// or, where it hits none, for every parent of the commit the diff
    /// against that parent was recorded and every action of the span's plan
    /// against that diff is carried by an edge (so each span either ends or
    /// goes on into a request against each parent). This holds of the spans
    /// of the requests before the current one at any time, and of all spans
    /// whenever the walk waits for a blame run or is finished.
    pub proof fn lemma_spans_followed(self)
        requires
            self.wf(),
        ensures
            forall|i: int|
                0 <= i < self.spec_result().blame_spans@.len() && (
                self.spec_result().blame_spans@[i].request_id <= self.spec_current() || self.spec_stage()
                    == Stage::Blame || self.spec_stage() == Stage::Finished) ==> span_followed(
                    self.spec_result().lineage_edges@,
                    (i + 1) as i64,
                    #[trigger] self.spec_result().blame_spans@[i],
                    self.spec_result().blame_requests@,
                    self.spec_commits(),
                    self.spec_diffs(),
                    self.spec_max_depth(),
                    self.spec_since(),
                ),
    {
        let rows = self.result.blame_spans@;
        assert forall|i: int|
            0 <= i < rows.len() && (rows[i].request_id <= self.current || self.stage == Stage::Blame
                || self.stage == Stage::Finished) implies span_followed(
            self.result.lineage_edges@,
            (i + 1) as i64,
            #[trigger] rows[i],
            self.result.blame_requests@,
            self.commit_cache@,
            self.diff_cache@,
            self.max_depth,
            self.since,
        ) by {
            assert(self.is_followed(i));
        }
    }

    /// Law: unless a table ran out of ids, every request is accounted for: a
    /// seed's request is at depth 0, and a request made to follow spans into
    /// a parent is one level below a request with an edge that links on to
    /// it.
    pub proof fn lemma_requests_sourced(self)
        requires
            self.wf(),
            self.spec_stage() != Stage::Exhausted,
        ensures
            requests_sourced(self.spec_result().blame_requests@, self.spec_result().lineage_edges@),
    {
    }

    /// Law: the `commits` rows are those of the commits the walk was given,
    /// one for each, in the order given, and the `commit_parents` rows list
    /// the parents of each in turn.
    pub proof fn lemma_commit_rows(self)
        requires
            self.wf(),
        ensures
            self.spec_result().commits@ == self.spec_commits().map_values(
                |info: CommitInfo| commit_row(info, self.spec_result().repository.id),
            ),
            self.spec_result().commit_parents@ == parent_rows_of(
                self.spec_commits(),
                self.spec_result().repository.id,
            ),
    {
        reveal(commit_rows_match);
    }

    /// Law: the walk never asks for what it already has: the metadata of a
    /// commit it was given, or a diff it was given for the same commit and
    /// parent slot (the seed diff comes first of all).
    pub proof fn lemma_needs_are_new(self)
        requires
            self.wf(),
        ensures
            self.spec_need() matches Need::Commit { sha } ==> forall|c: int|
                0 <= c < self.spec_commits().len() ==> (#[trigger] self.spec_commits()[c]).sha@
                    != sha@,
            self.spec_stage() == Stage::Diff ==> forall|d: int|
                0 <= d < self.spec_diffs().len() ==> !((#[trigger] self.spec_diffs()[d]).commit_sha@
                    == self.spec_need()->Diff_commit_sha@ && self.spec_diffs()[d].position
                    == ParentPos::Index(self.spec_parent() as u32)),
            self.spec_stage() == Stage::SeedDiff ==> self.spec_diffs().len() == 0,
    {
    }

    /// Law: every blame span belongs to an existing request and records
    /// that request's commit and path as its final side.
    pub proof fn lemma_spans_match_requests(self)
        requires
            self.wf(),
        ensures
            forall|i: int|
                0 <= i < self.spec_result().blame_spans@.len() ==> {
                    let s = #[trigger] self.spec_result().blame_spans@[i];
                    let reqs = self.spec_result().blame_requests@;
                    &&& 1 <= s.request_id <= reqs.len()
                    &&& s.final_commit_sha@ == reqs[s.request_id - 1].commit_sha@
                    &&& s.final_path@ == reqs[s.request_id - 1].path@
                },
    {
    }

    /// Law: each seed range becomes a depth-0 blame request with the same
    /// commit, path and lines.
    pub proof fn lemma_seeds_requested(self)
        requires
            self.wf(),
        ensures
            forall|i: int|
                0 <= i < self.spec_result().seed_ranges@.len() ==> {
                    let s = #[trigger] self.spec_result().seed_ranges@[i];
                    let reqs = self.spec_result().blame_requests@;
                    exists|j: int|
                        0 <= j < reqs.len() && request_key(#[trigger] reqs[j]) == (
                            s.commit_sha@,
                            s.path@,
                            s.start_line,
                            s.end_line,
                        ) && reqs[j].depth == 0
                },
    {
    }

    /// Law: a commit is recorded at most once, however many spans blame it.
    pub proof fn lemma_commits_distinct(self)
        requires
            self.wf(),
        ensures
            forall|i: int, j: int|
                0 <= i < j < self.spec_result().commits@.len() ==> (
                #[trigger] self.spec_result().commits@[i]).sha@ != (
                #[trigger] self.spec_result().commits@[j]).sha@,
    {
        let rows = self.result.commits@;
        let cache = self.commit_cache@;
        assert forall|i: int, j: int| 0 <= i < j < rows.len() implies (#[trigger] rows[i]).sha@ != (
        #[trigger] rows[j]).sha@ by {
            assert(rows[i].sha@ == cache[i].sha@);
            assert(rows[j].sha@ == cache[j].sha@);
            assert(cache[i].sha@ != cache[j].sha@);
        }
    }

    /// Law: the queue holds exactly the requests not yet taken up, in id
    /// order; once the walk is finished, none is left.
    pub proof fn lemma_queue_is_tail(self)
        requires
            self.wf(),
        ensures
            ({
                let n = self.spec_result().blame_requests@.len();
                let q = self.spec_queue();
                &&& q.len() <= n
                &&& forall|k: int| 0 <= k < q.len() ==> #[trigger] q[k] == n - q.len() + k + 1
            }),
            self.spec_stage() == Stage::Finished ==> self.spec_queue().len() == 0,
    {
    }
}

} // verus!
