use histoire::dates::CalendarDate;
use histoire::db::{BlameReason, BlameRequest, FileEventType, LineageEdgeType};
use histoire::git_ops::{BlameSpan, CommitInfo, DiffFileEvent, DiffHunkInfo};
use histoire::scan::plan::{
    classify_terminal, effective_event_type, parent_side_path, plan_for_span,
    plan_parent_recursion,
};
use histoire::scan::{PersistedDiff, PersistedEvent, RecurseAction};

fn dummy_request(depth: u32) -> BlameRequest {
    BlameRequest {
        id: 0,
        scan_id: 1,
        commit_sha: "x".into(),
        path: "p".into(),
        start_line: 1,
        end_line: 1,
        depth,
        reason: BlameReason::Seed,
    }
}

fn dummy_info(parents: Vec<String>, committed: Option<CalendarDate>) -> CommitInfo {
    CommitInfo {
        sha: "x".into(),
        tree_sha: "t".into(),
        author_name: None,
        author_email: None,
        authored_at: None,
        committer_name: None,
        committer_email: None,
        committed_at: None,
        committed_naive: committed,
        message: String::new(),
        parents,
    }
}

fn ymd(year: i32, month: u32, day: u32) -> CalendarDate {
    CalendarDate::from_ymd(year, month, day).expect("test date is valid")
}

#[test]
fn scan_classify_terminal_flags_root_commit() {
    let info = dummy_info(vec![], None);
    let out = classify_terminal(&dummy_request(0), &info, 5, ymd(2020, 1, 1));
    assert_eq!(out, Some(LineageEdgeType::RootCommit));
}

#[test]
fn scan_classify_terminal_flags_older_than_since() {
    let info = dummy_info(vec!["p".into()], Some(ymd(2020, 1, 1)));
    let out = classify_terminal(&dummy_request(0), &info, 5, ymd(2024, 1, 1));
    assert_eq!(out, Some(LineageEdgeType::OlderThanSince));
}

#[test]
fn scan_classify_terminal_flags_max_depth() {
    let info = dummy_info(vec!["p".into()], Some(ymd(2030, 1, 1)));
    let out = classify_terminal(&dummy_request(5), &info, 5, ymd(2020, 1, 1));
    assert_eq!(out, Some(LineageEdgeType::MaxDepth));
}

#[test]
fn scan_classify_terminal_allows_recursion() {
    let info = dummy_info(vec!["p".into()], Some(ymd(2030, 1, 1)));
    let out = classify_terminal(&dummy_request(0), &info, 5, ymd(2020, 1, 1));
    assert!(out.is_none());
}

#[test]
fn plan_classify_terminal_flags_root_commit() {
    let info = dummy_info(vec![], None);
    let out = classify_terminal(&dummy_request(0), &info, 5, ymd(2020, 1, 1));
    assert_eq!(out, Some(LineageEdgeType::RootCommit));
}

#[test]
fn plan_classify_terminal_flags_older_than_since() {
    let info = dummy_info(vec!["p".into()], Some(ymd(2020, 1, 1)));
    let out = classify_terminal(&dummy_request(0), &info, 5, ymd(2024, 1, 1));
    assert_eq!(out, Some(LineageEdgeType::OlderThanSince));
}

#[test]
fn plan_classify_terminal_flags_max_depth() {
    let info = dummy_info(vec!["p".into()], Some(ymd(2030, 1, 1)));
    let out = classify_terminal(&dummy_request(5), &info, 5, ymd(2020, 1, 1));
    assert_eq!(out, Some(LineageEdgeType::MaxDepth));
}

#[test]
fn plan_classify_terminal_allows_recursion() {
    let info = dummy_info(vec!["p".into()], Some(ymd(2030, 1, 1)));
    let out = classify_terminal(&dummy_request(0), &info, 5, ymd(2020, 1, 1));
    assert!(out.is_none());
}

#[test]
fn classify_terminal_checks_in_order() {
    // A root commit wins over an old date and a full depth.
    let info = dummy_info(vec![], Some(ymd(2000, 1, 1)));
    assert_eq!(
        classify_terminal(&dummy_request(9), &info, 5, ymd(2020, 1, 1)),
        Some(LineageEdgeType::RootCommit)
    );
    // An old date wins over a full depth; the cutoff day itself is not older.
    let info = dummy_info(vec!["p".into()], Some(ymd(2019, 12, 31)));
    assert_eq!(
        classify_terminal(&dummy_request(9), &info, 5, ymd(2020, 1, 1)),
        Some(LineageEdgeType::OlderThanSince)
    );
    let info = dummy_info(vec!["p".into()], Some(ymd(2020, 1, 1)));
    assert_eq!(
        classify_terminal(&dummy_request(4), &info, 5, ymd(2020, 1, 1)),
        None
    );
    // No commit date: only the depth can stop it.
    let info = dummy_info(vec!["p".into()], None);
    assert_eq!(
        classify_terminal(&dummy_request(6), &info, 5, ymd(2020, 1, 1)),
        Some(LineageEdgeType::MaxDepth)
    );
}

fn event(
    event_type: FileEventType,
    old_path: Option<&str>,
    new_path: Option<&str>,
    is_binary: bool,
    hunks: Vec<DiffHunkInfo>,
) -> DiffFileEvent {
    DiffFileEvent {
        event_type,
        old_path: old_path.map(|p| p.to_string()),
        new_path: new_path.map(|p| p.to_string()),
        old_blob_sha: None,
        new_blob_sha: None,
        is_binary,
        hunks,
    }
}

fn hunk(old_start: u32, old_lines: u32, new_start: u32, new_lines: u32) -> DiffHunkInfo {
    DiffHunkInfo {
        old_start,
        old_lines,
        new_start,
        new_lines,
        patch_text: String::new(),
        added_ranges: Vec::new(),
    }
}

#[test]
fn effective_event_type_respects_include_binary() {
    let binary_mod = event(FileEventType::Modified, Some("a"), Some("a"), true, vec![]);
    assert_eq!(effective_event_type(&binary_mod, false), FileEventType::BinarySkipped);
    assert_eq!(effective_event_type(&binary_mod, true), FileEventType::Modified);
    let binary_rename = event(FileEventType::Renamed, Some("a"), Some("b"), true, vec![]);
    assert_eq!(effective_event_type(&binary_rename, false), FileEventType::Renamed);
    let binary_copy = event(FileEventType::Copied, Some("a"), Some("b"), true, vec![]);
    assert_eq!(effective_event_type(&binary_copy, false), FileEventType::Copied);
    let text = event(FileEventType::Deleted, Some("a"), None, false, vec![]);
    assert_eq!(effective_event_type(&text, false), FileEventType::Deleted);
}

#[test]
fn parent_side_path_of_added_and_renamed() {
    let added = event(FileEventType::Added, Some("x"), Some("n"), false, vec![]);
    assert_eq!(parent_side_path(&added), None);
    let renamed = event(FileEventType::Renamed, Some("old"), Some("new"), false, vec![]);
    assert_eq!(parent_side_path(&renamed), Some("old".to_string()));
}

fn span(origin_path: Option<&str>, origin_start: Option<u32>, count: u32) -> BlameSpan {
    BlameSpan {
        blamed_commit_sha: "c".to_string(),
        final_start_line: 1,
        line_count: count,
        origin_path: origin_path.map(|p| p.to_string()),
        origin_start_line: origin_start,
        boundary: false,
    }
}

fn persisted(events: Vec<DiffFileEvent>) -> PersistedDiff {
    PersistedDiff {
        events: events
            .into_iter()
            .map(|info| {
                let ids = (0..info.hunks.len() as i64).collect();
                PersistedEvent { info, hunk_ids: ids }
            })
            .collect(),
    }
}

fn describe(actions: &[RecurseAction]) -> Vec<String> {
    actions
        .iter()
        .map(|a| match a {
            RecurseAction::Terminal { span_id, edge_type } => {
                format!("{}:{}", span_id, edge_type.as_str())
            }
            RecurseAction::Recurse { span_id, parent_path, parent_start, parent_end } => {
                format!("{}:{}:{}-{}", span_id, parent_path, parent_start, parent_end)
            }
        })
        .collect()
}

#[test]
fn plan_for_span_cases() {
    let diff = persisted(vec![
        event(FileEventType::Added, None, Some("new.rs"), false, vec![hunk(0, 0, 1, 3)]),
        event(FileEventType::Modified, Some("bin"), Some("bin"), true, vec![]),
        event(
            FileEventType::Renamed,
            Some("old.rs"),
            Some("mod.rs"),
            false,
            vec![hunk(1, 0, 1, 2), hunk(5, 2, 7, 3)],
        ),
    ]);
    let mut actions = Vec::new();
    // No origin at all.
    plan_for_span(1, &span(None, None, 2), &diff, &mut actions);
    // A path the diff does not touch.
    plan_for_span(2, &span(Some("other.rs"), Some(1), 2), &diff, &mut actions);
    // A binary origin.
    plan_for_span(3, &span(Some("bin"), Some(1), 1), &diff, &mut actions);
    // An added file.
    plan_for_span(4, &span(Some("new.rs"), Some(1), 1), &diff, &mut actions);
    // Overlaps a pure addition and a replacement.
    plan_for_span(5, &span(Some("mod.rs"), Some(2), 6), &diff, &mut actions);
    // Overlaps no hunk: follows into the same lines of the old path.
    plan_for_span(6, &span(Some("mod.rs"), Some(3), 2), &diff, &mut actions);
    assert_eq!(
        describe(&actions),
        vec![
            "1:introduced_here",
            "3:binary_skipped",
            "4:introduced_here",
            "5:introduced_here",
            "5:old.rs:5-6",
            "6:old.rs:3-4",
        ]
    );
}

#[test]
fn plan_parent_recursion_concatenates_span_plans() {
    let diff = persisted(vec![event(
        FileEventType::Modified,
        Some("f.rs"),
        Some("f.rs"),
        false,
        vec![hunk(10, 1, 10, 1)],
    )]);
    let spans = vec![(7, span(Some("f.rs"), Some(10), 1)), (8, span(Some("f.rs"), Some(1), 3))];
    let actions = plan_parent_recursion(&spans, &diff);
    assert_eq!(describe(&actions), vec!["7:f.rs:10-10", "8:f.rs:1-3"]);
}

#[test]
fn plan_parent_recursion_distributes_over_concatenation() {
    let diff = persisted(vec![event(
        FileEventType::Renamed,
        Some("old.rs"),
        Some("f.rs"),
        false,
        vec![hunk(10, 1, 10, 1)],
    )]);
    let a = || vec![(1, span(Some("f.rs"), Some(10), 1)), (2, span(None, None, 1))];
    let b = || vec![(3, span(Some("f.rs"), Some(2), 3))];
    let mut both = a();
    both.extend(b());
    let (a, b) = (a(), b());
    let mut joined = describe(&plan_parent_recursion(&a, &diff));
    joined.extend(describe(&plan_parent_recursion(&b, &diff)));
    assert_eq!(describe(&plan_parent_recursion(&both, &diff)), joined);
    assert!(plan_parent_recursion(&[], &diff).is_empty());
}
