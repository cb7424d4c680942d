use histoire::scan::plan::effective_event_type;
use histoire::db::FileEventType;
use histoire::git_ops::{
    assemble_commit_info, assemble_hunk, clip_blame_hunk, clip_blame_hunks, map_delta_status,
    AddedRangeCollector, DeltaStatus, DiffFileEvent, PatchLine, RawBlameHunk,
};

#[test]
fn added_range_collector_groups_contiguous() {
    let mut c = AddedRangeCollector::default();
    for ln in [10, 11, 12, 20, 21, 30] {
        c.push(ln);
    }
    assert_eq!(c.finish(), vec![(10, 12), (20, 21), (30, 30)]);
}

#[test]
fn added_range_collector_handles_empty() {
    let c = AddedRangeCollector::default();
    assert_eq!(c.finish(), Vec::<(u32, u32)>::new());
}

#[test]
fn added_range_collector_splits_on_a_repeat_or_a_step_back() {
    let mut c = AddedRangeCollector::default();
    for ln in [5, 5, 6, 4, 0, 1] {
        c.push(ln);
    }
    assert_eq!(c.finish(), vec![(5, 5), (5, 6), (4, 4), (0, 1)]);
}

#[test]
fn added_ranges_expand_back_to_the_lines() {
    let lines = [3u32, 4, 5, 9, 11, 12];
    let mut c = AddedRangeCollector::default();
    for ln in lines {
        c.push(ln);
    }
    let mut expanded = Vec::new();
    for (start, end) in c.finish() {
        for ln in start..=end {
            expanded.push(ln);
        }
    }
    assert_eq!(expanded, lines.to_vec());
}

fn line(origin: char, content: &[u8], new_lineno: Option<u32>) -> PatchLine {
    PatchLine { origin, content: content.to_vec(), new_lineno }
}

#[test]
fn assemble_hunk_builds_text_and_ranges() {
    let lines = vec![
        line(' ', b"keep\n", Some(1)),
        line('-', b"old\n", None),
        line('+', b"new one\n", Some(2)),
        line('+', b"new two\n", Some(3)),
        line(' ', b"keep\n", Some(4)),
        line('+', b"tail\n", Some(5)),
    ];
    let hunk = assemble_hunk(b"@@ -1,3 +1,5 @@\n", 1, 3, 1, 5, &lines);
    assert_eq!(hunk.old_start, 1);
    assert_eq!(hunk.old_lines, 3);
    assert_eq!(hunk.new_start, 1);
    assert_eq!(hunk.new_lines, 5);
    assert_eq!(
        hunk.patch_text,
        "@@ -1,3 +1,5 @@\n keep\n-old\n+new one\n+new two\n keep\n+tail\n"
    );
    assert_eq!(hunk.added_ranges, vec![(2, 3), (5, 5)]);
}

#[test]
fn assemble_hunk_drops_text_that_is_not_utf8() {
    let lines = vec![line('+', &[0xff, 0xfe], Some(7)), line('+', b"ok", Some(8))];
    let hunk = assemble_hunk(&[0xc3], 0, 0, 7, 2, &lines);
    assert_eq!(hunk.patch_text, "++ok");
    assert_eq!(hunk.added_ranges, vec![(7, 8)]);
}

#[test]
fn map_delta_status_covers_every_status() {
    assert_eq!(map_delta_status(DeltaStatus::Added), FileEventType::Added);
    assert_eq!(map_delta_status(DeltaStatus::Deleted), FileEventType::Deleted);
    assert_eq!(map_delta_status(DeltaStatus::Modified), FileEventType::Modified);
    assert_eq!(map_delta_status(DeltaStatus::Typechange), FileEventType::Modified);
    assert_eq!(map_delta_status(DeltaStatus::Renamed), FileEventType::Renamed);
    assert_eq!(map_delta_status(DeltaStatus::Copied), FileEventType::Copied);
    assert_eq!(map_delta_status(DeltaStatus::Unmodified), FileEventType::Modified);
    assert_eq!(map_delta_status(DeltaStatus::Conflicted), FileEventType::Modified);
}

#[test]
fn from_delta_marks_binary_files() {
    let event = DiffFileEvent::from_delta(
        DeltaStatus::Renamed,
        Some("a.png".to_string()),
        Some("b.png".to_string()),
        None,
        None,
        false,
        true,
    );
    assert!(event.is_binary);
    assert_eq!(event.event_type, FileEventType::Renamed);
    assert_eq!(event.old_path.as_deref(), Some("a.png"));
    assert_eq!(event.new_path.as_deref(), Some("b.png"));
    assert!(event.hunks.is_empty());

    let text = DiffFileEvent::from_delta(
        DeltaStatus::Added,
        None,
        Some("c.rs".to_string()),
        None,
        Some("abc".to_string()),
        false,
        false,
    );
    assert!(!text.is_binary);
    assert_eq!(text.event_type, FileEventType::Added);
    assert_eq!(text.new_blob_sha.as_deref(), Some("abc"));
}

#[test]
fn assemble_commit_info_formats_times() {
    let info = assemble_commit_info(
        "c1".to_string(),
        "t1".to_string(),
        Some("Ann".to_string()),
        None,
        0,
        Some("Bob".to_string()),
        Some("bob@example.com".to_string()),
        1_700_000_000,
        None,
        vec!["p1".to_string(), "p2".to_string()],
    );
    assert_eq!(info.sha, "c1");
    assert_eq!(info.tree_sha, "t1");
    assert_eq!(info.author_name.as_deref(), Some("Ann"));
    assert_eq!(info.authored_at.as_deref(), Some("1970-01-01T00:00:00+00:00"));
    assert_eq!(info.committed_at.as_deref(), Some("2023-11-14T22:13:20+00:00"));
    let day = info.committed_naive.expect("committer time has a day");
    assert_eq!((day.year(), day.month(), day.day()), (2023, 11, 14));
    assert_eq!(info.message, "");
    assert_eq!(info.parents, vec!["p1".to_string(), "p2".to_string()]);
}

#[test]
fn assemble_commit_info_without_a_valid_time() {
    let info = assemble_commit_info(
        "c".to_string(),
        "t".to_string(),
        None,
        None,
        i64::MAX,
        None,
        None,
        i64::MIN,
        Some("msg\n".to_string()),
        vec![],
    );
    assert_eq!(info.authored_at, None);
    assert_eq!(info.committed_at, None);
    assert!(info.committed_naive.is_none());
    assert_eq!(info.message, "msg\n");
}

fn hunk(sha: &str, start: usize, lines: usize, orig: usize) -> RawBlameHunk {
    RawBlameHunk {
        final_commit_sha: sha.to_string(),
        final_start_line: start,
        lines_in_hunk: lines,
        orig_start_line: orig,
        orig_path: Some("o.rs".to_string()),
        boundary: false,
    }
}

#[test]
fn clip_blame_hunk_keeps_the_requested_part() {
    let span = clip_blame_hunk(hunk("a", 5, 10, 50), 8, 11).expect("overlaps");
    assert_eq!(span.blamed_commit_sha, "a");
    assert_eq!(span.final_start_line, 8);
    assert_eq!(span.line_count, 4);
    assert_eq!(span.origin_start_line, Some(53));
    assert_eq!(span.origin_path.as_deref(), Some("o.rs"));
    assert!(!span.boundary);
}

#[test]
fn clip_blame_hunk_drops_empty_and_outside_hunks() {
    assert!(clip_blame_hunk(hunk("a", 5, 0, 5), 1, 100).is_none());
    assert!(clip_blame_hunk(hunk("a", 1, 3, 1), 4, 9).is_none());
    assert!(clip_blame_hunk(hunk("a", 10, 3, 1), 4, 9).is_none());
}

#[test]
fn clip_blame_hunks_keeps_order_and_drops_misses() {
    let spans = clip_blame_hunks(
        vec![hunk("a", 1, 2, 1), hunk("b", 3, 4, 30), hunk("c", 20, 1, 1), hunk("d", 7, 5, 70)],
        2,
        8,
    );
    let got: Vec<(String, u32, u32, Option<u32>)> = spans
        .into_iter()
        .map(|s| (s.blamed_commit_sha, s.final_start_line, s.line_count, s.origin_start_line))
        .collect();
    assert_eq!(
        got,
        vec![
            ("a".to_string(), 2, 1, Some(2)),
            ("b".to_string(), 3, 4, Some(30)),
            ("d".to_string(), 7, 2, Some(70)),
        ]
    );
}

#[test]
fn binary_rename_keeps_its_type_and_include_binary_keeps_modified() {
    let renamed = DiffFileEvent::from_delta(
        DeltaStatus::Renamed,
        Some("a.png".to_string()),
        Some("b.png".to_string()),
        None,
        None,
        true,
        true,
    );
    assert_eq!(effective_event_type(&renamed, false), FileEventType::Renamed);
    assert_eq!(effective_event_type(&renamed, true), FileEventType::Renamed);
    let modified = DiffFileEvent::from_delta(
        DeltaStatus::Modified,
        Some("a.png".to_string()),
        Some("a.png".to_string()),
        None,
        None,
        true,
        false,
    );
    assert_eq!(effective_event_type(&modified, false), FileEventType::BinarySkipped);
    assert_eq!(effective_event_type(&modified, true), FileEventType::Modified);
}

#[test]
fn added_range_collector_orders_increasing_lines() {
    let mut c = AddedRangeCollector::default();
    for ln in [1, 2, 4, 5, 6, 9, 11] {
        c.push(ln);
    }
    let ranges = c.finish();
    assert_eq!(ranges, vec![(1, 2), (4, 6), (9, 9), (11, 11)]);
    for w in ranges.windows(2) {
        assert!(w[0].1 + 1 < w[1].0);
    }
}
