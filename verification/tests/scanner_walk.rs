use histoire::cli::TraceTarget;
use histoire::dates::CalendarDate;
use histoire::db::{BlameReason, FileEventType, LineageEdgeType, ParentPos};
use histoire::git_ops::{BlameSpan, CommitInfo, DiffFileEvent, DiffHunkInfo};
use histoire::scan::scanner::{store_commit, IdCounter, Need, Scanner, Stage};
use histoire::scan::{scan_rows, trace_rows, ScanResult};

fn ymd(year: i32, month: u32, day: u32) -> CalendarDate {
    CalendarDate::from_ymd(year, month, day).expect("test date is valid")
}

fn commit(sha: &str, parents: &[&str], day: Option<CalendarDate>) -> CommitInfo {
    CommitInfo {
        sha: sha.to_string(),
        tree_sha: format!("tree-{}", sha),
        author_name: Some("A".to_string()),
        author_email: None,
        authored_at: None,
        committer_name: None,
        committer_email: None,
        committed_at: None,
        committed_naive: day,
        message: format!("commit {}", sha),
        parents: parents.iter().map(|p| p.to_string()).collect(),
    }
}

fn text_event(
    event_type: FileEventType,
    old_path: Option<&str>,
    new_path: &str,
    hunks: Vec<DiffHunkInfo>,
) -> DiffFileEvent {
    DiffFileEvent {
        event_type,
        old_path: old_path.map(|p| p.to_string()),
        new_path: Some(new_path.to_string()),
        old_blob_sha: None,
        new_blob_sha: None,
        is_binary: false,
        hunks,
    }
}

fn hunk(old: (u32, u32), new: (u32, u32), added: Vec<(u32, u32)>) -> DiffHunkInfo {
    DiffHunkInfo {
        old_start: old.0,
        old_lines: old.1,
        new_start: new.0,
        new_lines: new.1,
        patch_text: "@@".to_string(),
        added_ranges: added,
    }
}

fn span(blamed: &str, start: u32, count: u32, origin: &str, origin_start: u32) -> BlameSpan {
    BlameSpan {
        blamed_commit_sha: blamed.to_string(),
        final_start_line: start,
        line_count: count,
        origin_path: Some(origin.to_string()),
        origin_start_line: Some(origin_start),
        boundary: false,
    }
}

fn scanner(merge_base: &str, head: &str, max_depth: u32) -> Scanner {
    let since = ymd(2020, 1, 1);
    let (repository, scan) = scan_rows(
        "/work".to_string(),
        "/work/.git".to_string(),
        None,
        "main".to_string(),
        head.to_string(),
        Some(("b".to_string(), merge_base.to_string())),
        max_depth,
        &since,
    );
    Scanner::new(repository, scan, since, max_depth, false, merge_base.to_string(), head.to_string())
}

fn expect_commit(s: &Scanner, sha: &str) {
    match s.need() {
        Need::Commit { sha: wanted } => assert_eq!(wanted, sha),
        _ => panic!("expected a commit to be needed"),
    }
}

fn expect_diff(s: &Scanner, commit_sha: &str, parent_sha: &str) {
    match s.need() {
        Need::Diff { commit_sha: c, parent_sha: p } => {
            assert_eq!(c, commit_sha);
            assert_eq!(p, parent_sha);
        }
        _ => panic!("expected a diff to be needed"),
    }
}

fn expect_blame(s: &Scanner, commit_sha: &str, path: &str, start: u32, end: u32) {
    match s.need() {
        Need::Blame { commit_sha: c, path: p, start_line, end_line } => {
            assert_eq!((c.as_str(), p.as_str(), start_line, end_line), (commit_sha, path, start, end));
        }
        _ => panic!("expected a blame run to be needed"),
    }
}

#[test]
fn scanner_with_equal_ends_is_finished_at_once() {
    let s = scanner("h", "h", 5);
    assert_eq!(s.stage(), Stage::Finished);
    assert!(matches!(s.need(), Need::Finished));
    let result = s.into_result();
    assert!(result.commits.is_empty());
    assert!(result.blame_requests.is_empty());
}

#[test]
fn scanner_walks_a_seed_to_a_root_commit() {
    let mut s = scanner("m", "h", 5);
    assert_eq!(s.stage(), Stage::SeedCommit);
    expect_commit(&s, "h");
    s.supply_commit(commit("h", &["m"], Some(ymd(2024, 6, 1))));
    assert_eq!(s.stage(), Stage::SeedDiff);
    expect_diff(&s, "h", "m");
    s.supply_diff(vec![text_event(
        FileEventType::Added,
        None,
        "a.rs",
        vec![hunk((0, 0), (1, 2), vec![(1, 2)])],
    )]);
    expect_blame(&s, "h", "a.rs", 1, 2);
    s.supply_blame(vec![span("c", 1, 2, "a.rs", 1)]);
    expect_commit(&s, "c");
    s.supply_commit(commit("c", &[], Some(ymd(2023, 1, 1))));
    assert_eq!(s.stage(), Stage::Finished);

    let r = s.into_result();
    assert_eq!(r.commits.len(), 2);
    assert_eq!(r.commits[0].sha, "h");
    assert_eq!(r.commits[0].tree_sha.as_deref(), Some("tree-h"));
    assert_eq!(r.commits[1].sha, "c");
    assert_eq!(r.commit_parents.len(), 1);
    assert_eq!((r.commit_parents[0].commit_sha.as_str(), r.commit_parents[0].parent_sha.as_str()), ("h", "m"));
    assert_eq!(r.commit_parents[0].parent_position, 0);

    assert_eq!(r.file_events.len(), 1);
    let fe = &r.file_events[0];
    assert_eq!((fe.id, fe.event_type, fe.parent_position), (1, FileEventType::Added, ParentPos::Seed));
    assert_eq!((fe.commit_sha.as_str(), fe.parent_sha.as_str()), ("h", "m"));
    assert_eq!(r.diff_hunks.len(), 1);
    assert_eq!((r.diff_hunks[0].id, r.diff_hunks[0].file_event_id, r.diff_hunks[0].new_start, r.diff_hunks[0].new_lines), (1, 1, 1, 2));

    assert_eq!(r.seed_ranges.len(), 1);
    let seed = &r.seed_ranges[0];
    assert_eq!((seed.id, seed.scan_id, seed.commit_sha.as_str(), seed.path.as_str()), (1, 1, "h", "a.rs"));
    assert_eq!((seed.start_line, seed.end_line, seed.diff_hunk_id), (1, 2, Some(1)));

    assert_eq!(r.blame_requests.len(), 1);
    let req = &r.blame_requests[0];
    assert_eq!((req.id, req.depth, req.reason), (1, 0, BlameReason::Seed));
    assert_eq!((req.commit_sha.as_str(), req.path.as_str(), req.start_line, req.end_line), ("h", "a.rs", 1, 2));

    assert_eq!(r.blame_spans.len(), 1);
    let sp = &r.blame_spans[0];
    assert_eq!((sp.id, sp.request_id, sp.blamed_commit_sha.as_str(), sp.final_commit_sha.as_str()), (1, 1, "c", "h"));
    assert_eq!((sp.final_start_line, sp.line_count, sp.origin_start_line), (1, 2, Some(1)));

    assert_eq!(r.lineage_edges.len(), 1);
    let e = &r.lineage_edges[0];
    assert_eq!((e.id, e.from_request_id, e.to_span_id, e.edge_type), (1, 1, 1, LineageEdgeType::RootCommit));
    assert_eq!(e.next_request_id, None);

    let summary = r.summary();
    assert_eq!(
        (summary.seed_files, summary.seed_ranges, summary.requests_processed, summary.commits_discovered, summary.terminal_spans),
        (1, 1, 1, 2, 1)
    );
}

#[test]
fn scanner_recurses_into_a_parent() {
    let mut s = scanner("m", "h", 5);
    s.supply_commit(commit("h", &["m"], None));
    s.supply_diff(vec![text_event(
        FileEventType::Modified,
        Some("a.rs"),
        "a.rs",
        vec![hunk((1, 1), (1, 2), vec![(1, 2)])],
    )]);
    expect_blame(&s, "h", "a.rs", 1, 2);
    s.supply_blame(vec![span("c", 1, 2, "a.rs", 1)]);
    expect_commit(&s, "c");
    s.supply_commit(commit("c", &["p"], Some(ymd(2024, 3, 1))));
    expect_diff(&s, "c", "p");
    s.supply_diff(vec![text_event(
        FileEventType::Modified,
        Some("a.rs"),
        "a.rs",
        vec![hunk((1, 1), (1, 2), vec![(2, 2)])],
    )]);
    expect_blame(&s, "p", "a.rs", 1, 1);
    s.supply_blame(vec![span("p", 1, 1, "a.rs", 1)]);
    expect_commit(&s, "p");
    s.supply_commit(commit("p", &[], None));
    assert_eq!(s.stage(), Stage::Finished);

    let r: ScanResult = s.into_result();
    assert_eq!(r.commits.len(), 3);
    assert_eq!(r.file_events.len(), 2);
    assert_eq!(r.file_events[1].parent_position, ParentPos::Index(0));
    assert_eq!(r.diff_hunks.len(), 2);
    assert_eq!(r.blame_requests.len(), 2);
    let next = &r.blame_requests[1];
    assert_eq!((next.id, next.depth, next.reason), (2, 1, BlameReason::ParentRecurse));
    assert_eq!((next.commit_sha.as_str(), next.path.as_str(), next.start_line, next.end_line), ("p", "a.rs", 1, 1));
    assert_eq!(r.blame_spans.len(), 2);
    assert_eq!(r.lineage_edges.len(), 2);
    let e0 = &r.lineage_edges[0];
    assert_eq!((e0.edge_type, e0.next_request_id, e0.parent_position), (LineageEdgeType::RecurseToParent, Some(2), Some(0)));
    assert_eq!(e0.parent_sha.as_deref(), Some("p"));
    let e1 = &r.lineage_edges[1];
    assert_eq!((e1.from_request_id, e1.to_span_id, e1.edge_type), (2, 2, LineageEdgeType::RootCommit));
    let summary = r.summary();
    assert_eq!((summary.requests_processed, summary.commits_discovered, summary.terminal_spans), (2, 3, 1));
}

#[test]
fn scanner_stops_at_max_depth_and_since() {
    // Depth 0 is the maximum: a blamed commit with parents ends at once.
    let mut s = scanner("m", "h", 0);
    s.supply_commit(commit("h", &["m"], None));
    s.supply_diff(vec![text_event(FileEventType::Added, None, "b.rs", vec![hunk((0, 0), (1, 1), vec![(1, 1)])])]);
    s.supply_blame(vec![span("c", 1, 1, "b.rs", 1)]);
    s.supply_commit(commit("c", &["p"], None));
    assert_eq!(s.stage(), Stage::Finished);
    assert_eq!(s.result().lineage_edges[0].edge_type, LineageEdgeType::MaxDepth);

    // A blamed commit older than the cutoff ends its lineage.
    let mut s = scanner("m", "h", 5);
    s.supply_commit(commit("h", &["m"], Some(ymd(2019, 5, 1))));
    s.supply_diff(vec![text_event(FileEventType::Added, None, "b.rs", vec![hunk((0, 0), (1, 1), vec![(1, 1)])])]);
    s.supply_blame(vec![span("h", 1, 1, "b.rs", 1)]);
    // "h" is already known, so its metadata is not asked for again.
    assert_eq!(s.stage(), Stage::Finished);
    let r = s.into_result();
    assert_eq!(r.commits.len(), 1);
    assert_eq!(r.lineage_edges.len(), 1);
    assert_eq!(r.lineage_edges[0].edge_type, LineageEdgeType::OlderThanSince);
}

#[test]
fn id_counter_hands_out_sequential_ids() {
    let mut c = IdCounter::new();
    assert!(c.has_room());
    assert_eq!(c.allocate(), 1);
    assert_eq!(c.allocate(), 2);
    assert_eq!(c.allocate(), 3);
}

#[test]
fn scan_rows_fall_back_to_head() {
    let since = ymd(2024, 2, 9);
    let (repo, scan) = scan_rows(
        "/w".to_string(),
        "/w/.git".to_string(),
        Some("git@example.com:r.git".to_string()),
        "origin/main".to_string(),
        "hhh".to_string(),
        None,
        7,
        &since,
    );
    assert_eq!((repo.id, repo.worktree_path.as_str(), repo.git_dir_path.as_str()), (1, "/w", "/w/.git"));
    assert_eq!(repo.remote_url.as_deref(), Some("git@example.com:r.git"));
    assert_eq!((scan.id, scan.repository_id, scan.base_ref.as_str()), (1, 1, "origin/main"));
    assert_eq!((scan.base_sha.as_str(), scan.merge_base_sha.as_str(), scan.head_sha.as_str()), ("hhh", "hhh", "hhh"));
    assert_eq!((scan.max_depth, scan.since_date.as_str()), (7, "2024-02-09"));
}

#[test]
fn trace_rows_name_the_target() {
    let target = TraceTarget::parse("src/main.rs:300-320").unwrap();
    let since = ymd(2023, 1, 1);
    let (repo, scan) = trace_rows(
        "/w".to_string(),
        "/w/.git".to_string(),
        None,
        &target,
        "abc".to_string(),
        20,
        &since,
    );
    assert_eq!(repo.id, 1);
    assert_eq!(scan.base_ref, "trace:src/main.rs:300-320");
    assert_eq!((scan.base_sha.as_str(), scan.merge_base_sha.as_str(), scan.head_sha.as_str()), ("abc", "abc", "abc"));
    assert_eq!((scan.max_depth, scan.since_date.as_str()), (20, "2023-01-01"));
    let single = TraceTarget::parse("a.rs:7").unwrap();
    let (_, scan) = trace_rows(String::new(), String::new(), None, &single, "h".to_string(), 1, &since);
    assert_eq!(scan.base_ref, "trace:a.rs:7-7");
}

#[test]
fn trace_scanner_starts_with_the_target_blame() {
    let target = TraceTarget::parse("lib.rs:4-6").unwrap();
    let since = ymd(2020, 1, 1);
    let (repository, scan) = trace_rows(String::new(), String::new(), None, &target, "h".to_string(), 3, &since);
    let mut s = Scanner::new_trace(repository, scan, since, 3, false, "h".to_string(), &target);
    assert_eq!(s.stage(), Stage::Blame);
    expect_blame(&s, "h", "lib.rs", 4, 6);
    {
        let r = s.result();
        assert_eq!(r.seed_ranges.len(), 1);
        assert_eq!((r.seed_ranges[0].start_line, r.seed_ranges[0].end_line, r.seed_ranges[0].diff_hunk_id), (4, 6, None));
        assert_eq!(r.blame_requests.len(), 1);
        assert_eq!((r.blame_requests[0].depth, r.blame_requests[0].reason), (0, BlameReason::Seed));
    }
    s.supply_blame(vec![span("r", 4, 3, "lib.rs", 1)]);
    expect_commit(&s, "r");
    s.supply_commit(commit("r", &[], None));
    assert_eq!(s.stage(), Stage::Finished);
    let r = s.into_result();
    assert_eq!(r.commits.len(), 1);
    assert_eq!(r.lineage_edges.len(), 1);
    assert_eq!(r.lineage_edges[0].edge_type, LineageEdgeType::RootCommit);
}

#[test]
fn scanner_shares_a_parent_request_between_spans() {
    let mut s = scanner("m", "h", 5);
    s.supply_commit(commit("h", &["m"], None));
    s.supply_diff(vec![text_event(
        FileEventType::Modified,
        Some("a.rs"),
        "a.rs",
        vec![hunk((1, 0), (1, 1), vec![(1, 1)]), hunk((2, 0), (3, 1), vec![(3, 3)])],
    )]);
    expect_blame(&s, "h", "a.rs", 1, 1);
    s.supply_blame(vec![span("c", 1, 1, "a.rs", 1)]);
    expect_commit(&s, "c");
    s.supply_commit(commit("c", &["p"], Some(ymd(2024, 3, 1))));
    expect_diff(&s, "c", "p");
    s.supply_diff(vec![text_event(
        FileEventType::Modified,
        Some("a.rs"),
        "a.rs",
        vec![hunk((1, 1), (1, 1), vec![(1, 1)])],
    )]);
    expect_blame(&s, "h", "a.rs", 3, 3);
    // The second span is blamed on the same commit and line: its diff is
    // known already, and it is followed into the same parent request.
    s.supply_blame(vec![span("c", 3, 1, "a.rs", 1)]);
    expect_blame(&s, "p", "a.rs", 1, 1);
    s.supply_blame(vec![span("p", 1, 1, "a.rs", 1)]);
    expect_commit(&s, "p");
    s.supply_commit(commit("p", &[], None));
    assert_eq!(s.stage(), Stage::Finished);

    let r = s.into_result();
    assert_eq!(r.seed_ranges.len(), 2);
    assert_eq!(r.blame_requests.len(), 3);
    assert_eq!(r.commits.len(), 3);
    assert_eq!(r.file_events.len(), 2);
    let next: Vec<Option<i64>> = r.lineage_edges.iter().map(|e| e.next_request_id).collect();
    assert_eq!(next, vec![Some(3), Some(3), None]);
    // Ids run from 1 in every table.
    for (i, e) in r.lineage_edges.iter().enumerate() {
        assert_eq!(e.id, i as i64 + 1);
    }
    for (i, q) in r.blame_requests.iter().enumerate() {
        assert_eq!(q.id, i as i64 + 1);
    }
    // Each edge leaves a span of the request it comes from, and names a
    // parent exactly when it is not a cutoff.
    for e in &r.lineage_edges {
        let span = &r.blame_spans[(e.to_span_id - 1) as usize];
        assert_eq!(span.request_id, e.from_request_id);
        assert_eq!(e.parent_sha.is_none(), e.edge_type == LineageEdgeType::RootCommit);
    }
    let summary = r.summary();
    assert_eq!((summary.seed_files, summary.seed_ranges, summary.terminal_spans), (1, 2, 1));
}

#[test]
fn missing_base_ref_records_an_empty_scan() {
    let since = ymd(2024, 1, 1);
    let (repository, scan) = scan_rows(
        "/w".to_string(),
        "/w/.git".to_string(),
        None,
        "origin/main".to_string(),
        "h".to_string(),
        None,
        5,
        &since,
    );
    let merge_base = scan.merge_base_sha.clone();
    let s = Scanner::new(repository, scan, since, 5, false, merge_base, "h".to_string());
    assert_eq!(s.stage(), Stage::Finished);
    let r = s.into_result();
    assert!(r.seed_ranges.is_empty());
    assert!(r.blame_requests.is_empty());
    assert!(r.lineage_edges.is_empty());
    assert_eq!((r.scan.base_sha.as_str(), r.scan.merge_base_sha.as_str()), ("h", "h"));
    let summary = r.summary();
    assert_eq!((summary.seed_files, summary.terminal_spans), (0, 0));
}

#[test]
fn scanner_follows_a_rename_and_skips_binary_seeds() {
    let mut s = scanner("m", "h", 5);
    s.supply_commit(commit("h", &["m"], None));
    let binary = DiffFileEvent {
        event_type: FileEventType::Added,
        old_path: None,
        new_path: Some("img.png".to_string()),
        old_blob_sha: None,
        new_blob_sha: Some("blob".to_string()),
        is_binary: true,
        hunks: vec![],
    };
    s.supply_diff(vec![
        binary,
        text_event(FileEventType::Added, None, "b.rs", vec![hunk((0, 0), (1, 2), vec![(1, 2)])]),
    ]);
    expect_blame(&s, "h", "b.rs", 1, 2);
    s.supply_blame(vec![span("c", 1, 2, "old.rs", 5)]);
    expect_commit(&s, "c");
    s.supply_commit(commit("c", &["p"], None));
    expect_diff(&s, "c", "p");
    s.supply_diff(vec![text_event(FileEventType::Renamed, Some("a.rs"), "old.rs", vec![])]);
    expect_blame(&s, "p", "a.rs", 5, 6);
    s.supply_blame(vec![span("p", 5, 2, "a.rs", 5)]);
    expect_commit(&s, "p");
    s.supply_commit(commit("p", &[], None));
    assert_eq!(s.stage(), Stage::Finished);

    let r = s.into_result();
    assert_eq!(r.file_events.len(), 3);
    assert_eq!(r.file_events[0].event_type, FileEventType::BinarySkipped);
    assert_eq!(r.file_events[2].event_type, FileEventType::Renamed);
    assert_eq!(r.file_events[2].old_path.as_deref(), Some("a.rs"));
    assert_eq!(r.diff_hunks.len(), 1);
    assert_eq!(r.diff_hunks[0].file_event_id, 2);
    assert_eq!(r.seed_ranges.len(), 1);
    assert_eq!(r.seed_ranges[0].path, "b.rs");
    let edge = &r.lineage_edges[0];
    assert_eq!((edge.edge_type, edge.next_request_id), (LineageEdgeType::RecurseToParent, Some(2)));
    assert_eq!(r.blame_requests[1].path, "a.rs");
}

#[test]
fn store_commit_twice_adds_nothing() {
    let mut commits = Vec::new();
    let mut parent_rows = Vec::new();
    let mut cache = Vec::new();
    store_commit(&mut commits, &mut parent_rows, &mut cache, 1, commit("c", &["p1", "p2"], None));
    assert_eq!((commits.len(), parent_rows.len(), cache.len()), (1, 2, 1));
    assert_eq!(commits[0].sha, "c");
    assert_eq!(commits[0].tree_sha.as_deref(), Some("tree-c"));
    assert_eq!(parent_rows[1].parent_sha, "p2");
    assert_eq!(parent_rows[1].parent_position, 1);
    store_commit(&mut commits, &mut parent_rows, &mut cache, 1, commit("c", &["p1", "p2"], None));
    assert_eq!((commits.len(), parent_rows.len(), cache.len()), (1, 2, 1));
    store_commit(&mut commits, &mut parent_rows, &mut cache, 1, commit("d", &[], None));
    assert_eq!((commits.len(), parent_rows.len(), cache.len()), (2, 2, 2));
}

#[test]
fn scanner_writes_each_planned_edge_once_in_order() {
    let mut s = scanner("m", "h", 5);
    s.supply_commit(commit("h", &["m"], None));
    s.supply_diff(vec![text_event(
        FileEventType::Added,
        None,
        "a.rs",
        vec![hunk((0, 0), (1, 4), vec![(1, 4)])],
    )]);
    expect_blame(&s, "h", "a.rs", 1, 4);
    s.supply_blame(vec![span("c", 1, 2, "a.rs", 1), span("c", 3, 2, "a.rs", 3)]);
    expect_commit(&s, "c");
    s.supply_commit(commit("c", &["p", "q"], Some(ymd(2024, 3, 1))));
    expect_diff(&s, "c", "p");
    s.supply_diff(vec![text_event(
        FileEventType::Modified,
        Some("a.rs"),
        "a.rs",
        vec![hunk((3, 0), (3, 2), vec![(3, 4)])],
    )]);
    expect_diff(&s, "c", "q");
    s.supply_diff(vec![text_event(
        FileEventType::Modified,
        Some("a.rs"),
        "a.rs",
        vec![hunk((10, 1), (10, 1), vec![(10, 10)])],
    )]);
    expect_blame(&s, "p", "a.rs", 1, 2);

    let edges = &s.result().lineage_edges;
    let seen: Vec<(i64, i64, LineageEdgeType, Option<i64>, Option<&str>, Option<i64>)> = edges
        .iter()
        .map(|e| {
            (e.id, e.to_span_id, e.edge_type, e.next_request_id, e.parent_sha.as_deref(), e.parent_position)
        })
        .collect();
    assert_eq!(
        seen,
        vec![
            (1, 1, LineageEdgeType::RecurseToParent, Some(2), Some("p"), Some(0)),
            (2, 2, LineageEdgeType::IntroducedHere, None, Some("p"), Some(0)),
            (3, 1, LineageEdgeType::RecurseToParent, Some(3), Some("q"), Some(1)),
            (4, 2, LineageEdgeType::RecurseToParent, Some(4), Some("q"), Some(1)),
        ]
    );
    let reqs: Vec<(&str, i64, i64)> = s.result().blame_requests[1..]
        .iter()
        .map(|r| (r.commit_sha.as_str(), r.start_line, r.end_line))
        .collect();
    assert_eq!(reqs, vec![("p", 1, 2), ("q", 1, 2), ("q", 3, 4)]);
}
