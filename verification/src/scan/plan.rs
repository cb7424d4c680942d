//! The pure decisions of a scan: how a blamed commit ends a lineage, and how
//! each blamed span is followed into one parent's diff.
use vstd::prelude::*;

use crate::dates::CalendarDate;
use crate::db::{BlameRequest, FileEventType, LineageEdgeType};
use crate::git_ops::{clone_opt_string, opt_view, BlameSpan, CommitInfo, DiffFileEvent, DiffHunkInfo};

use super::{PersistedDiff, PersistedEvent, RecurseAction};

verus! {

/// The path a delta had on the parent side: none for an added file.
pub open spec fn spec_parent_side_path(event: DiffFileEvent) -> Option<String> {
    if event.event_type == FileEventType::Added {
        None
    } else {
        event.old_path
    }
}

pub fn parent_side_path(event: &DiffFileEvent) -> (path: Option<String>)
    ensures
        path == spec_parent_side_path(*event),
{
    if event.event_type == FileEventType::Added {
        return None;
    }
    clone_opt_string(&event.old_path)
}

/// Whether a persisted delta shows `path` on its new side.
pub open spec fn event_has_new_path(event: PersistedEvent, path: Seq<char>) -> bool {
    opt_view(event.info.new_path) == Some(path)
}

/// The index of the first delta that shows `path` on its new side.
pub open spec fn first_event_with_new_path(events: Seq<PersistedEvent>, path: Seq<char>) -> Option<
    int,
>
    decreases events.len(),
{
    if events.len() == 0 {
        None
    } else if event_has_new_path(events[0], path) {
        Some(0)
    } else {
        match first_event_with_new_path(events.drop_first(), path) {
            Some(i) => Some(i + 1),
            None => None,
        }
    }
}

proof fn lemma_first_event(events: Seq<PersistedEvent>, path: Seq<char>, i: int)
    requires
        0 <= i <= events.len(),
        forall|j: int| 0 <= j < i ==> !event_has_new_path(#[trigger] events[j], path),
    ensures
        i < events.len() && event_has_new_path(events[i], path) ==> first_event_with_new_path(
            events,
            path,
        ) == Some(i),
        i == events.len() ==> first_event_with_new_path(events, path) is None,
    decreases i,
{
    if i > 0 {
        let rest = events.drop_first();
        assert forall|j: int| 0 <= j < i - 1 implies !event_has_new_path(
            #[trigger] rest[j],
            path,
        ) by {
            assert(rest[j] == events[j + 1]);
        }
        lemma_first_event(rest, path, i - 1);
        if i < events.len() {
            assert(rest[i - 1] == events[i]);
        }
        assert(!event_has_new_path(events[0], path));
    }
}

/// Whether the lines `origin_start..origin_end_excl` overlap the new side of
/// a hunk.
pub open spec fn overlaps_hunk(origin_start: u32, origin_end_excl: int, hunk: DiffHunkInfo) -> bool {
    let hunk_end_excl = hunk.new_start + hunk.new_lines;
    let overlap_start = if origin_start >= hunk.new_start {
        origin_start as int
    } else {
        hunk.new_start as int
    };
    let overlap_end_excl = if origin_end_excl <= hunk_end_excl {
        origin_end_excl
    } else {
        hunk_end_excl
    };
    overlap_start < overlap_end_excl
}

/// What one hunk that a span overlaps contributes: a hunk that adds lines
/// without removing any introduced them; otherwise the span follows the
/// hunk's old side into the parent.
pub open spec fn hunk_action(
    span_id: i64,
    parent_path: String,
    origin_start: u32,
    origin_end_excl: int,
    hunk: DiffHunkInfo,
) -> Seq<RecurseAction> {
    if !overlaps_hunk(origin_start, origin_end_excl, hunk) {
        Seq::empty()
    } else if hunk.old_lines == 0 {
        seq![RecurseAction::Terminal { span_id, edge_type: LineageEdgeType::IntroducedHere }]
    } else {
        seq![
            RecurseAction::Recurse {
                span_id,
                parent_path,
                parent_start: hunk.old_start as i64,
                parent_end: (hunk.old_start + hunk.old_lines - 1) as i64,
            },
        ]
    }
}

pub open spec fn hunk_actions(
    span_id: i64,
    parent_path: String,
    origin_start: u32,
    origin_end_excl: int,
    hunks: Seq<DiffHunkInfo>,
) -> Seq<RecurseAction>
    decreases hunks.len(),
{
    if hunks.len() == 0 {
        Seq::empty()
    } else {
        hunk_actions(span_id, parent_path, origin_start, origin_end_excl, hunks.drop_last())
            + hunk_action(span_id, parent_path, origin_start, origin_end_excl, hunks.last())
    }
}

pub open spec fn any_overlap(origin_start: u32, origin_end_excl: int, hunks: Seq<DiffHunkInfo>) -> bool {
    exists|i: int| 0 <= i < hunks.len() && overlaps_hunk(origin_start, origin_end_excl, #[trigger] hunks[i])
}

/// The actions for one blamed span against one parent's diff:
/// - a span with no origin was introduced by the blamed commit;
/// - a span whose origin path is not in the diff emits nothing (the path
///   came in from another parent);
/// - a binary origin ends with `BinarySkipped`, an added one with
///   `IntroducedHere`;
/// - otherwise each hunk the span overlaps contributes (see `hunk_action`),
///   and a span that overlaps no hunk exists unchanged in the parent at the
///   same line numbers, so it follows into the same range of the parent's
///   path.
pub open spec fn span_plan(span_id: i64, span: BlameSpan, events: Seq<PersistedEvent>) -> Seq<
    RecurseAction,
> {
    match (span.origin_path, span.origin_start_line) {
        (Some(origin_path), Some(origin_start)) => {
            let origin_end_excl = origin_start + span.line_count;
            match first_event_with_new_path(events, origin_path@) {
                None => Seq::empty(),
                Some(i) => {
                    let event = events[i].info;
                    if event.is_binary {
                        seq![
                            RecurseAction::Terminal {
                                span_id,
                                edge_type: LineageEdgeType::BinarySkipped,
                            },
                        ]
                    } else {
                        match spec_parent_side_path(event) {
                            None => seq![
                                RecurseAction::Terminal {
                                    span_id,
                                    edge_type: LineageEdgeType::IntroducedHere,
                                },
                            ],
                            Some(parent_path) => if any_overlap(
                                origin_start,
                                origin_end_excl,
                                event.hunks@,
                            ) {
                                hunk_actions(
                                    span_id,
                                    parent_path,
                                    origin_start,
                                    origin_end_excl,
                                    event.hunks@,
                                )
                            } else {
                                seq![
                                    RecurseAction::Recurse {
                                        span_id,
                                        parent_path,
                                        parent_start: origin_start as i64,
                                        parent_end: (origin_end_excl - 1) as i64,
                                    },
                                ]
                            },
                        }
                    }
                },
            }
        },
        _ => seq![
            RecurseAction::Terminal { span_id, edge_type: LineageEdgeType::IntroducedHere },
        ],
    }
}

/// The line arithmetic of planning a span stays within `u32`.
pub open spec fn span_plan_fits(span: BlameSpan, events: Seq<PersistedEvent>) -> bool {
    match (span.origin_path, span.origin_start_line) {
        (Some(origin_path), Some(origin_start)) => {
            let origin_end_excl = origin_start + span.line_count;
            &&& origin_end_excl <= u32::MAX
            &&& match first_event_with_new_path(events, origin_path@) {
                None => true,
                Some(i) => {
                    let event = events[i].info;
                    !event.is_binary && spec_parent_side_path(event) is Some ==> {
                        &&& forall|k: int|
                            0 <= k < event.hunks@.len() ==> {
                                let hunk = #[trigger] event.hunks@[k];
                                &&& hunk.new_start + hunk.new_lines <= u32::MAX
                                &&& overlaps_hunk(origin_start, origin_end_excl, hunk)
                                    && hunk.old_lines != 0 ==> hunk.old_start + hunk.old_lines
                                    <= u32::MAX
                            }
                        &&& !any_overlap(origin_start, origin_end_excl, event.hunks@)
                            ==> origin_end_excl >= 1
                    }
                },
            }
        },
        _ => true,
    }
}

fn find_event_with_new_path(events: &Vec<PersistedEvent>, path: &String) -> (index: Option<usize>)
    ensures
        match index {
            Some(k) => first_event_with_new_path(events@, path@) == Some(k as int) && k < events@.len(),
            None => first_event_with_new_path(events@, path@) is None,
        },
{
    let n = events.len();
    for i in 0..n
        invariant
            n == events@.len(),
            forall|j: int| 0 <= j < i ==> !event_has_new_path(#[trigger] events@[j], path@),
    {
        let matched = match &events[i].info.new_path {
            Some(p) => {
                let same = p.eq(path);
                assert(same == (p@ == path@));
                same
            },
            None => false,
        };
        assert(matched == event_has_new_path(events@[i as int], path@));
        if matched {
            proof {
                lemma_first_event(events@, path@, i as int);
            }
            return Some(i);
        }
    }
    proof {
        lemma_first_event(events@, path@, n as int);
    }
    None
}

/// Appends the actions for one blamed span against one parent's diff.
pub fn plan_for_span(
    span_id: i64,
    span: &BlameSpan,
    cached: &PersistedDiff,
    actions: &mut Vec<RecurseAction>,
)
    requires
        span_plan_fits(*span, cached.events@),
    ensures
        final(actions)@ == old(actions)@ + span_plan(span_id, *span, cached.events@),
{
    let ghost start = actions@;
    let (origin_path, origin_start) = match (&span.origin_path, span.origin_start_line) {
        (Some(p), Some(s)) => (p, s),
        _ => {
            actions.push(
                RecurseAction::Terminal { span_id, edge_type: LineageEdgeType::IntroducedHere },
            );
            assert(actions@ =~= start + span_plan(span_id, *span, cached.events@));
            return;
        },
    };
    let origin_end_excl = origin_start + span.line_count;

    let index = match find_event_with_new_path(&cached.events, origin_path) {
        Some(i) => i,
        None => {
            // The path isn't part of this parent's diff (e.g. a merge that pulled
            // the path in from the other side). Nothing to emit for this parent.
            assert(actions@ =~= start + span_plan(span_id, *span, cached.events@));
            return;
        },
    };
    let event = &cached.events[index].info;

    if event.is_binary {
        actions.push(
            RecurseAction::Terminal { span_id, edge_type: LineageEdgeType::BinarySkipped },
        );
        assert(actions@ =~= start + span_plan(span_id, *span, cached.events@));
        return;
    }
    let parent_path = match parent_side_path(event) {
        Some(p) => p,
        None => {
            actions.push(
                RecurseAction::Terminal { span_id, edge_type: LineageEdgeType::IntroducedHere },
            );
            assert(actions@ =~= start + span_plan(span_id, *span, cached.events@));
            return;
        },
    };

    let mut any = false;
    let n = event.hunks.len();
    for k in 0..n
        invariant
            n == event.hunks@.len(),
            span_plan_fits(*span, cached.events@),
            first_event_with_new_path(cached.events@, origin_path@) == Some(index as int),
            *event == cached.events@[index as int].info,
            !event.is_binary,
            spec_parent_side_path(*event) == Some(parent_path),
            origin_end_excl == origin_start + span.line_count,
            span.origin_path == Some(*origin_path),
            span.origin_start_line == Some(origin_start),
            any == (exists|j: int|
                0 <= j < k && overlaps_hunk(
                    origin_start,
                    origin_end_excl as int,
                    #[trigger] event.hunks@[j],
                )),
            actions@ == start + hunk_actions(
                span_id,
                parent_path,
                origin_start,
                origin_end_excl as int,
                event.hunks@.take(k as int),
            ),
            !any ==> actions@ == start,
            index < cached.events@.len(),
    {
        let hunk = &event.hunks[k];
        proof {
            assert(event.hunks@.take(k + 1).drop_last() =~= event.hunks@.take(k as int));
            assert(event.hunks@.take(k + 1).last() == *hunk);
        }
        let hunk_new_end_excl = hunk.new_start + hunk.new_lines;
        let overlap_start = if origin_start >= hunk.new_start {
            origin_start
        } else {
            hunk.new_start
        };
        let overlap_end_excl = if origin_end_excl <= hunk_new_end_excl {
            origin_end_excl
        } else {
            hunk_new_end_excl
        };
        if overlap_end_excl > overlap_start {
            any = true;
            if hunk.old_lines == 0 {
                actions.push(
                    RecurseAction::Terminal { span_id, edge_type: LineageEdgeType::IntroducedHere },
                );
            } else {
                actions.push(
                    RecurseAction::Recurse {
                        span_id,
                        parent_path: parent_path.clone(),
                        parent_start: hunk.old_start as i64,
                        parent_end: (hunk.old_start + hunk.old_lines - 1) as i64,
                    },
                );
            }
        }
        assert(actions@ =~= start + hunk_actions(
            span_id,
            parent_path,
            origin_start,
            origin_end_excl as int,
            event.hunks@.take(k + 1),
        ));
    }
    assert(event.hunks@.take(n as int) =~= event.hunks@);
    assert(any == any_overlap(origin_start, origin_end_excl as int, event.hunks@));
    assert(span_plan(span_id, *span, cached.events@) == (if any {
        hunk_actions(span_id, parent_path, origin_start, origin_end_excl as int, event.hunks@)
    } else {
        seq![
            RecurseAction::Recurse {
                span_id,
                parent_path,
                parent_start: origin_start as i64,
                parent_end: (origin_end_excl - 1) as i64,
            },
        ]
    }));

    if !any {
        // The blamed lines exist unchanged in the parent at the same line
        // numbers; recurse on `old_path`, which differs from `new_path` on a
        // rename.
        actions.push(
            RecurseAction::Recurse {
                span_id,
                parent_path,
                parent_start: origin_start as i64,
                parent_end: (origin_end_excl - 1) as i64,
            },
        );
    }
    assert(actions@ =~= start + span_plan(span_id, *span, cached.events@));
}

/// The actions for every span of a blamed commit against one parent's diff,
/// span by span.
pub open spec fn plan_all(spans: Seq<(i64, BlameSpan)>, events: Seq<PersistedEvent>) -> Seq<
    RecurseAction,
>
    decreases spans.len(),
{
    if spans.len() == 0 {
        Seq::empty()
    } else {
        plan_all(spans.drop_last(), events) + span_plan(spans.last().0, spans.last().1, events)
    }
}

/// Law of batch planning: no spans plan no actions, and planning two runs
/// of spans one after the other gives the actions of the first run followed
/// by those of the second.
pub proof fn lemma_plan_all_concat(
    a: Seq<(i64, BlameSpan)>,
    b: Seq<(i64, BlameSpan)>,
    events: Seq<PersistedEvent>,
)
    ensures
        plan_all(Seq::empty(), events) == Seq::<RecurseAction>::empty(),
        plan_all(a + b, events) == plan_all(a, events) + plan_all(b, events),
    decreases b.len(),
{
    if b.len() == 0 {
        assert(a + b =~= a);
        assert(plan_all(a, events) + plan_all(b, events) =~= plan_all(a, events));
    } else {
        lemma_plan_all_concat(a, b.drop_last(), events);
        assert((a + b).drop_last() =~= a + b.drop_last());
        assert((a + b).last() == b.last());
        let tail = span_plan(b.last().0, b.last().1, events);
        assert(plan_all(a, events) + plan_all(b.drop_last(), events) + tail =~= plan_all(a, events)
            + (plan_all(b.drop_last(), events) + tail));
    }
}

/// For one parent's persisted diff, decide what each span should do.
pub fn plan_parent_recursion(spans: &[(i64, BlameSpan)], cached: &PersistedDiff) -> (actions: Vec<
    RecurseAction,
>)
    requires
        forall|i: int| 0 <= i < spans@.len() ==> span_plan_fits(#[trigger] spans@[i].1, cached.events@),
    ensures
        actions@ == plan_all(spans@, cached.events@),
{
    let mut actions: Vec<RecurseAction> = Vec::new();
    let n = spans.len();
    for i in 0..n
        invariant
            n == spans@.len(),
            forall|j: int| 0 <= j < spans@.len() ==> span_plan_fits(#[trigger] spans@[j].1, cached.events@),
            actions@ == plan_all(spans@.take(i as int), cached.events@),
    {
        proof {
            assert(spans@.take(i + 1).drop_last() =~= spans@.take(i as int));
            assert(spans@.take(i + 1).last() == spans@[i as int]);
            assert(span_plan_fits(spans@[i as int].1, cached.events@));
        }
        let (span_id, span) = &spans[i];
        plan_for_span(*span_id, span, cached, &mut actions);
    }
    assert(spans@.take(n as int) =~= spans@);
    actions
}

/// Which cutoff, if any, a blamed commit hits: a root commit, a commit
/// older than `since`, or a request already at the maximum depth, checked
/// in that order.
pub open spec fn spec_classify_terminal(
    depth: u32,
    parents: nat,
    committed: Option<CalendarDate>,
    max_depth: u32,
    since: CalendarDate,
) -> Option<LineageEdgeType> {
    if parents == 0 {
        Some(LineageEdgeType::RootCommit)
    } else if committed matches Some(d) && d.spec_before(since) {
        Some(LineageEdgeType::OlderThanSince)
    } else if depth >= max_depth {
        Some(LineageEdgeType::MaxDepth)
    } else {
        None
    }
}

/// Pure check: does this blamed commit hit a recursion cutoff? Returns the
/// terminal edge type if so, or `None` if recursion should proceed.
pub fn classify_terminal(
    request: &BlameRequest,
    info: &CommitInfo,
    max_depth: u32,
    since: CalendarDate,
) -> (edge: Option<LineageEdgeType>)
    ensures
        edge == spec_classify_terminal(
            request.depth,
            info.parents@.len(),
            info.committed_naive,
            max_depth,
            since,
        ),
{
    if info.parents.len() == 0 {
        return Some(LineageEdgeType::RootCommit);
    }
    match &info.committed_naive {
        Some(committed) => {
            if committed.is_before(&since) {
                return Some(LineageEdgeType::OlderThanSince);
            }
        },
        None => {},
    }
    if request.depth >= max_depth {
        return Some(LineageEdgeType::MaxDepth);
    }
    None
}

/// The `file_events.event_type` recorded for a delta once `include_binary`
/// is taken into account.
pub open spec fn spec_effective_event_type(event: DiffFileEvent, include_binary: bool) -> FileEventType {
    if !event.is_binary || include_binary {
        event.event_type
    } else if event.event_type == FileEventType::Renamed || event.event_type
        == FileEventType::Copied {
        event.event_type
    } else {
        FileEventType::BinarySkipped
    }
}

/// Resolve what `file_events.event_type` should be once `--include-binary`
/// is taken into account. Renames/copies stay typed as renames/copies even
/// when binary, so the rename trail survives in the database.
pub fn effective_event_type(event: &DiffFileEvent, include_binary: bool) -> (event_type: FileEventType)
    ensures
        event_type == spec_effective_event_type(*event, include_binary),
{
    if !event.is_binary || include_binary {
        return event.event_type;
    }
    match event.event_type {
        FileEventType::Renamed | FileEventType::Copied => event.event_type,
        _ => FileEventType::BinarySkipped,
    }
}

/// Law of the cutoffs: a blamed commit with no parent is a root commit; one
/// with parents whose commit day is a strictly earlier calendar day than
/// `since` (by year, then month, then day) is older than the cutoff; else
/// the request's depth decides: at or past the maximum the lineage stops
/// there, below it the walk goes on into the parents.
pub proof fn lemma_classify_terminal_cutoffs(
    depth: u32,
    parents: nat,
    committed: Option<CalendarDate>,
    max_depth: u32,
    since: CalendarDate,
)
    ensures
        ({
            let result = spec_classify_terminal(depth, parents, committed, max_depth, since);
            let older = match committed {
                Some(d) => d.spec_year() < since.spec_year() || (d.spec_year() == since.spec_year()
                    && d.spec_month() < since.spec_month()) || (d.spec_year() == since.spec_year()
                    && d.spec_month() == since.spec_month() && d.spec_day() < since.spec_day()),
                None => false,
            };
            &&& parents == 0 ==> result == Some(LineageEdgeType::RootCommit)
            &&& parents > 0 && older ==> result == Some(LineageEdgeType::OlderThanSince)
            &&& parents > 0 && !older && depth >= max_depth ==> result == Some(
                LineageEdgeType::MaxDepth,
            )
            &&& parents > 0 && !older && depth < max_depth ==> result is None
        }),
{
}

/// Law of the parent side: an added file has no path in the parent; every
/// other delta (modified, deleted, renamed, copied, ...) had its old path
/// there.
pub proof fn lemma_parent_side_path(event: DiffFileEvent)
    ensures
        event.event_type == FileEventType::Added ==> spec_parent_side_path(event) is None,
        event.event_type != FileEventType::Added ==> spec_parent_side_path(event) == event.old_path,
{
}

/// Law of following an unchanged span: where the first delta of the
/// parent's diff that shows the span's origin path on its new side is a
/// text delta that did not add the file (so it had an old path, as a
/// modified, renamed or copied file does), and no hunk of it touches the
/// span's lines, the span is followed into the old path at the same lines.
pub proof fn lemma_unchanged_span_follows(
    span_id: i64,
    span: BlameSpan,
    events: Seq<PersistedEvent>,
    i: int,
    origin_path: String,
    origin_start: u32,
    old_path: String,
)
    requires
        span.origin_path == Some(origin_path),
        span.origin_start_line == Some(origin_start),
        0 <= i < events.len(),
        opt_view(events[i].info.new_path) == Some(origin_path@),
        forall|j: int| 0 <= j < i ==> opt_view(#[trigger] events[j].info.new_path) != Some(origin_path@),
        !events[i].info.is_binary,
        events[i].info.event_type != FileEventType::Added,
        events[i].info.old_path == Some(old_path),
        forall|k: int|
            0 <= k < events[i].info.hunks@.len() ==> {
                let hunk = #[trigger] events[i].info.hunks@[k];
                origin_start + span.line_count <= hunk.new_start || hunk.new_start
                    + hunk.new_lines <= origin_start
            },
    ensures
        span_plan(span_id, span, events) == seq![
            RecurseAction::Recurse {
                span_id,
                parent_path: old_path,
                parent_start: origin_start as i64,
                parent_end: (origin_start + span.line_count - 1) as i64,
            },
        ],
{
    assert forall|j: int| 0 <= j < i implies !event_has_new_path(#[trigger] events[j], origin_path@) by {
        assert(opt_view(events[j].info.new_path) != Some(origin_path@));
    }
    lemma_first_event(events, origin_path@, i);
    let hunks = events[i].info.hunks@;
    let end_excl = origin_start + span.line_count;
    assert forall|k: int| 0 <= k < hunks.len() implies !overlaps_hunk(
        origin_start,
        end_excl,
        #[trigger] hunks[k],
    ) by {
        let hunk = hunks[k];
        assert(origin_start + span.line_count <= hunk.new_start || hunk.new_start + hunk.new_lines
            <= origin_start);
    }
}

/// Law of the recorded event type: a text delta, or any delta when binary
/// files are included, keeps its own type; a binary delta otherwise keeps
/// its type only when it is a rename or a copy, and every other binary
/// delta (added, deleted, modified, ...) is recorded as binary_skipped.
pub proof fn lemma_effective_event_type(event: DiffFileEvent, include_binary: bool)
    ensures
        !event.is_binary || include_binary ==> spec_effective_event_type(event, include_binary)
            == event.event_type,
        event.is_binary && !include_binary && (event.event_type == FileEventType::Renamed
            || event.event_type == FileEventType::Copied) ==> spec_effective_event_type(
            event,
            include_binary,
        ) == event.event_type,
        event.is_binary && !include_binary && event.event_type != FileEventType::Renamed
            && event.event_type != FileEventType::Copied ==> spec_effective_event_type(
            event,
            include_binary,
        ) == FileEventType::BinarySkipped,
{
}

/// Law of the spans with nowhere to go: a span with no origin was
/// introduced by the blamed commit; a span whose origin path no delta of
/// the parent's diff shows on its new side plans nothing against that
/// parent.
pub proof fn lemma_span_plan_without_delta(span_id: i64, span: BlameSpan, events: Seq<PersistedEvent>)
    ensures
        span.origin_path is None || span.origin_start_line is None ==> span_plan(
            span_id,
            span,
            events,
        ) == seq![RecurseAction::Terminal { span_id, edge_type: LineageEdgeType::IntroducedHere }],
        span.origin_path matches Some(path) && span.origin_start_line is Some && (forall|j: int|
            0 <= j < events.len() ==> opt_view(#[trigger] events[j].info.new_path) != Some(path@))
            ==> span_plan(span_id, span, events) == Seq::<RecurseAction>::empty(),
{
    match span.origin_path {
        Some(path) => {
            if forall|j: int|
                0 <= j < events.len() ==> opt_view(#[trigger] events[j].info.new_path) != Some(
                    path@,
                ) {
                assert forall|j: int| 0 <= j < events.len() implies !event_has_new_path(
                    #[trigger] events[j],
                    path@,
                ) by {
                    assert(opt_view(events[j].info.new_path) != Some(path@));
                }
                lemma_first_event(events, path@, events.len() as int);
            }
        },
        None => {},
    }
}

/// Only the overlapping hunk of a run of hunks contributes an action.
proof fn lemma_hunk_actions_single(
    span_id: i64,
    parent_path: String,
    origin_start: u32,
    origin_end_excl: int,
    hunks: Seq<DiffHunkInfo>,
    k: int,
    n: int,
)
    requires
        0 <= k < hunks.len(),
        0 <= n <= hunks.len(),
        forall|j: int|
            0 <= j < hunks.len() && j != k ==> !overlaps_hunk(
                origin_start,
                origin_end_excl,
                #[trigger] hunks[j],
            ),
    ensures
        hunk_actions(span_id, parent_path, origin_start, origin_end_excl, hunks.take(n)) == if n
            > k {
            hunk_action(span_id, parent_path, origin_start, origin_end_excl, hunks[k])
        } else {
            Seq::empty()
        },
    decreases n,
{
    if n > 0 {
        lemma_hunk_actions_single(span_id, parent_path, origin_start, origin_end_excl, hunks, k, n - 1);
        assert(hunks.take(n).drop_last() =~= hunks.take(n - 1));
        assert(hunks.take(n).last() == hunks[n - 1]);
        if n - 1 != k {
            assert(!overlaps_hunk(origin_start, origin_end_excl, hunks[n - 1]));
        }
        let before = hunk_actions(
            span_id,
            parent_path,
            origin_start,
            origin_end_excl,
            hunks.take(n - 1),
        );
        let last = hunk_action(span_id, parent_path, origin_start, origin_end_excl, hunks[n - 1]);
        if n - 1 == k {
            assert(before + last =~= last);
        } else {
            assert(before + last =~= before);
        }
    }
}

/// Law of the first delta that shows a span's origin path: a binary delta
/// ends the span's lineage as binary_skipped; an added file introduced the
/// span; where exactly one hunk `k` of another text delta, one with the old
/// path `old_path`, touches the span's lines, a hunk that only adds lines
/// introduced them, and any other sends the span into the hunk's old lines
/// in the old path.
pub proof fn lemma_span_plan_first_delta(
    span_id: i64,
    span: BlameSpan,
    events: Seq<PersistedEvent>,
    i: int,
    origin_path: String,
    origin_start: u32,
    k: int,
    old_path: String,
)
    requires
        span.origin_path == Some(origin_path),
        span.origin_start_line == Some(origin_start),
        0 <= i < events.len(),
        opt_view(events[i].info.new_path) == Some(origin_path@),
        forall|j: int| 0 <= j < i ==> opt_view(#[trigger] events[j].info.new_path) != Some(origin_path@),
    ensures
        events[i].info.is_binary ==> span_plan(span_id, span, events) == seq![
            RecurseAction::Terminal { span_id, edge_type: LineageEdgeType::BinarySkipped },
        ],
        !events[i].info.is_binary && events[i].info.event_type == FileEventType::Added
            ==> span_plan(span_id, span, events) == seq![
            RecurseAction::Terminal { span_id, edge_type: LineageEdgeType::IntroducedHere },
        ],
        ({
            let event = events[i].info;
            let end_excl = origin_start + span.line_count;
            0 <= k < event.hunks@.len() && !event.is_binary && event.event_type
                != FileEventType::Added && event.old_path == Some(old_path) && span.line_count > 0
                && event.hunks@[k].new_lines > 0 && origin_start < event.hunks@[k].new_start
                + event.hunks@[k].new_lines && event.hunks@[k].new_start < end_excl && (forall|j: int|
                0 <= j < event.hunks@.len() && j != k ==> end_excl <= (
                #[trigger] event.hunks@[j]).new_start || event.hunks@[j].new_start
                + event.hunks@[j].new_lines <= origin_start)
        }) ==> span_plan(span_id, span, events) == (if events[i].info.hunks@[k].old_lines == 0 {
            seq![RecurseAction::Terminal { span_id, edge_type: LineageEdgeType::IntroducedHere }]
        } else {
            seq![
                RecurseAction::Recurse {
                    span_id,
                    parent_path: old_path,
                    parent_start: events[i].info.hunks@[k].old_start as i64,
                    parent_end: (events[i].info.hunks@[k].old_start
                        + events[i].info.hunks@[k].old_lines - 1) as i64,
                },
            ]
        }),
{
    assert forall|j: int| 0 <= j < i implies !event_has_new_path(#[trigger] events[j], origin_path@) by {
        assert(opt_view(events[j].info.new_path) != Some(origin_path@));
    }
    lemma_first_event(events, origin_path@, i);
    let event = events[i].info;
    let hunks = event.hunks@;
    let end_excl = origin_start + span.line_count;
    if 0 <= k < hunks.len() && !event.is_binary && event.event_type != FileEventType::Added
        && event.old_path == Some(old_path) && span.line_count > 0 && hunks[k].new_lines > 0
        && origin_start < hunks[k].new_start + hunks[k].new_lines && hunks[k].new_start < end_excl
        && (forall|j: int|
        0 <= j < hunks.len() && j != k ==> end_excl <= (#[trigger] hunks[j]).new_start
            || hunks[j].new_start + hunks[j].new_lines <= origin_start) {
        assert(overlaps_hunk(origin_start, end_excl, hunks[k]));
        assert(any_overlap(origin_start, end_excl, hunks));
        assert forall|j: int| 0 <= j < hunks.len() && j != k implies !overlaps_hunk(
            origin_start,
            end_excl,
            #[trigger] hunks[j],
        ) by {
            assert(end_excl <= hunks[j].new_start || hunks[j].new_start + hunks[j].new_lines
                <= origin_start);
        }
        lemma_hunk_actions_single(
            span_id,
            old_path,
            origin_start,
            end_excl,
            hunks,
            k,
            hunks.len() as int,
        );
        assert(hunks.take(hunks.len() as int) =~= hunks);
    }
}

} // verus!
