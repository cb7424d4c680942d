use histoire::cli::{TargetError, TraceTarget};

#[test]
fn parse_single_line() -> Result<(), TargetError> {
    let target = TraceTarget::parse("src/main.rs:42")?;
    assert_eq!(target.path, "src/main.rs");
    assert_eq!(target.start_line, 42);
    assert_eq!(target.end_line, 42);
    Ok(())
}

#[test]
fn parse_line_range() -> Result<(), TargetError> {
    let target = TraceTarget::parse("foo.rs:10-25")?;
    assert_eq!(target.path, "foo.rs");
    assert_eq!(target.start_line, 10);
    assert_eq!(target.end_line, 25);
    Ok(())
}

#[test]
fn parse_rejects_missing_line() {
    assert!(TraceTarget::parse("src/main.rs").is_err());
}

#[test]
fn parse_rejects_empty_path() {
    assert!(TraceTarget::parse(":42").is_err());
}

#[test]
fn parse_rejects_zero_line() {
    assert!(TraceTarget::parse("foo.rs:0").is_err());
}

#[test]
fn parse_rejects_inverted_range() {
    assert!(TraceTarget::parse("foo.rs:30-10").is_err());
}

#[test]
fn parse_reports_each_error_kind() {
    assert_eq!(TraceTarget::parse("src/main.rs"), Err(TargetError::MissingSeparator));
    assert_eq!(TraceTarget::parse(":42"), Err(TargetError::EmptyPath));
    assert_eq!(TraceTarget::parse("foo.rs:abc"), Err(TargetError::InvalidStartLine));
    assert_eq!(TraceTarget::parse("foo.rs:"), Err(TargetError::InvalidStartLine));
    assert_eq!(TraceTarget::parse("foo.rs:4294967296"), Err(TargetError::InvalidStartLine));
    assert_eq!(TraceTarget::parse("foo.rs:3-x"), Err(TargetError::InvalidEndLine));
    assert_eq!(TraceTarget::parse("foo.rs:0"), Err(TargetError::ZeroLine));
    assert_eq!(TraceTarget::parse("foo.rs:0-3"), Err(TargetError::ZeroLine));
    assert_eq!(TraceTarget::parse("foo.rs:30-10"), Err(TargetError::InvertedRange));
}

#[test]
fn parse_splits_at_the_last_colon() {
    let target = TraceTarget::parse("C:/dir/file.rs:7").unwrap();
    assert_eq!(target.path, "C:/dir/file.rs");
    assert_eq!(target.start_line, 7);
    assert_eq!(target.end_line, 7);
}

#[test]
fn parse_accepts_a_leading_plus_and_the_largest_line() {
    let target = TraceTarget::parse("a:+5-4294967295").unwrap();
    assert_eq!(target.path, "a");
    assert_eq!(target.start_line, 5);
    assert_eq!(target.end_line, u32::MAX);
}

#[test]
fn parse_round_trips_a_written_target() {
    for (path, start, end) in [("src/lib.rs", 1u32, 1u32), ("x/y.rs", 3, 9), ("z", 100, 4000)] {
        let written = if start == end {
            format!("{}:{}", path, start)
        } else {
            format!("{}:{}-{}", path, start, end)
        };
        let target = TraceTarget::parse(&written).unwrap();
        assert_eq!(target, TraceTarget { path: path.to_string(), start_line: start, end_line: end });
    }
}

#[test]
fn target_error_messages() {
    assert_eq!(TargetError::ZeroLine.message(), "line numbers must be 1-indexed");
    assert_eq!(TargetError::InvertedRange.message(), "end line is before start line");
    assert_eq!(TargetError::EmptyPath.message(), "target has an empty path");
}

fn description(target: &str) -> String {
    match TraceTarget::parse(target) {
        Ok(_) => panic!("expected {target} to be refused"),
        Err(e) => e.describe(target),
    }
}

#[test]
fn target_errors_describe_the_target() {
    assert_eq!(
        description("src/main.rs"),
        "target 'src/main.rs' must be of the form path:line or path:start-end"
    );
    assert_eq!(description(":42"), "target ':42' has an empty path");
    assert_eq!(description("foo.rs:abc"), "parsing start line 'abc'");
    assert_eq!(description("foo.rs:3-x"), "parsing end line 'x'");
    assert_eq!(description("foo.rs:0"), "line numbers must be 1-indexed");
    assert_eq!(description("foo.rs:9-4"), "end line 4 is before start line 9");
}
