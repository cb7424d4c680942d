//! What the scan reads out of Git, held as plain values, and the rules that
//! turn raw repository data into those values: commit metadata, the event
//! and hunks of each diff delta, and blame hunks clipped to a request.
//!
//! The repository itself is read by the caller; the functions here take
//! what it read and do everything that follows.
use vstd::prelude::*;
use vstd::utf8::{decode_utf8, valid_utf8};

use crate::dates::{rfc3339_day, rfc3339_utc_day, signature_time, utc_rfc3339_text, CalendarDate};
use crate::db::FileEventType;
use crate::text::utf8_text;

verus! {

/// The characters of an optional string.
pub open spec fn opt_view(o: Option<String>) -> Option<Seq<char>> {
    match o {
        Some(s) => Some(s@),
        None => None,
    }
}

/// The year, month and day of an optional date.
pub open spec fn opt_date_view(o: Option<CalendarDate>) -> Option<(i32, u32, u32)> {
    match o {
        Some(d) => Some((d.spec_year(), d.spec_month(), d.spec_day())),
        None => None,
    }
}

/// A copy of an optional string.
pub fn clone_opt_string(o: &Option<String>) -> (r: Option<String>)
    ensures
        r == *o,
{
    match o {
        Some(s) => Some(s.clone()),
        None => None,
    }
}

/// Metadata about a commit, including the parent SHAs in order.
#[derive(Debug)]
pub struct CommitInfo {
    pub sha: String,
    pub tree_sha: String,
    pub author_name: Option<String>,
    pub author_email: Option<String>,
    pub authored_at: Option<String>,
    pub committer_name: Option<String>,
    pub committer_email: Option<String>,
    pub committed_at: Option<String>,
    pub committed_naive: Option<CalendarDate>,
    pub message: String,
    pub parents: Vec<String>,
}

/// The calendar day of an optional commit time stamp.
pub open spec fn committed_day(committed_at: Option<Seq<char>>) -> Option<(i32, u32, u32)> {
    match committed_at {
        Some(t) => rfc3339_utc_day(t),
        None => None,
    }
}

/// Builds the metadata of a commit from what its object holds: the
/// signatures' times become RFC 3339 UTC time stamps, the committer's time
/// stamp is read back as a calendar day, and a message that is not text
/// becomes empty.
pub fn assemble_commit_info(
    sha: String,
    tree_sha: String,
    author_name: Option<String>,
    author_email: Option<String>,
    author_seconds: i64,
    committer_name: Option<String>,
    committer_email: Option<String>,
    committer_seconds: i64,
    message: Option<String>,
    parents: Vec<String>,
) -> (info: CommitInfo)
    ensures
        info.sha == sha,
        info.tree_sha == tree_sha,
        info.author_name == author_name,
        info.author_email == author_email,
        opt_view(info.authored_at) == utc_rfc3339_text(author_seconds),
        info.committer_name == committer_name,
        info.committer_email == committer_email,
        opt_view(info.committed_at) == utc_rfc3339_text(committer_seconds),
        opt_date_view(info.committed_naive) == committed_day(opt_view(info.committed_at)),
        info.message@ == (match message {
            Some(m) => m@,
            None => Seq::<char>::empty(),
        }),
        info.parents@ == parents@,
{
    let authored_at = signature_time(author_seconds);
    let committed_at = signature_time(committer_seconds);
    let committed_naive = match &committed_at {
        Some(text) => rfc3339_day(text.as_str()),
        None => None,
    };
    let message = match message {
        Some(m) => m,
        None => String::new(),
    };
    CommitInfo {
        sha,
        tree_sha,
        author_name,
        author_email,
        authored_at,
        committer_name,
        committer_email,
        committed_at,
        committed_naive,
        message,
        parents,
    }
}

/// The status Git gives a delta of a diff (mirrors `git2::Delta`).
#[derive(Debug, Clone, Copy, PartialEq, Eq, Structural)]
pub enum DeltaStatus {
    Unmodified,
    Added,
    Deleted,
    Modified,
    Renamed,
    Copied,
    Ignored,
    Untracked,
    Typechange,
    Unreadable,
    Conflicted,
}

pub open spec fn spec_delta_event_type(status: DeltaStatus) -> FileEventType {
    match status {
        DeltaStatus::Added => FileEventType::Added,
        DeltaStatus::Deleted => FileEventType::Deleted,
        DeltaStatus::Renamed => FileEventType::Renamed,
        DeltaStatus::Copied => FileEventType::Copied,
        _ => FileEventType::Modified,
    }
}

/// The event type of a textual delta: type changes and every other status
/// count as modifications.
pub fn map_delta_status(status: DeltaStatus) -> (event_type: FileEventType)
    ensures
        event_type == spec_delta_event_type(status),
{
    match status {
        DeltaStatus::Added => FileEventType::Added,
        DeltaStatus::Deleted => FileEventType::Deleted,
        DeltaStatus::Modified | DeltaStatus::Typechange => FileEventType::Modified,
        DeltaStatus::Renamed => FileEventType::Renamed,
        DeltaStatus::Copied => FileEventType::Copied,
        _ => FileEventType::Modified,
    }
}

/// One hunk of a textual delta.
#[derive(Debug)]
pub struct DiffHunkInfo {
    pub old_start: u32,
    pub old_lines: u32,
    pub new_start: u32,
    pub new_lines: u32,
    pub patch_text: String,
    /// Contiguous added-line ranges on the new side, each `(start, end_inclusive)`.
    pub added_ranges: Vec<(u32, u32)>,
}

/// One parsed delta from a diff: the event itself plus its hunks (if textual).
#[derive(Debug)]
pub struct DiffFileEvent {
    pub event_type: FileEventType,
    pub old_path: Option<String>,
    pub new_path: Option<String>,
    pub old_blob_sha: Option<String>,
    pub new_blob_sha: Option<String>,
    pub is_binary: bool,
    pub hunks: Vec<DiffHunkInfo>,
}

impl DiffFileEvent {
    /// The event for one delta, before its hunks are read. The event type is
    /// the delta's status; whether either side is binary is kept beside it,
    /// so that the recorded type can be settled later with the
    /// include-binary setting in view. Only a delta that is not binary has its
    /// hunks read.
    pub fn from_delta(
        status: DeltaStatus,
        old_path: Option<String>,
        new_path: Option<String>,
        old_blob_sha: Option<String>,
        new_blob_sha: Option<String>,
        old_is_binary: bool,
        new_is_binary: bool,
    ) -> (event: DiffFileEvent)
        ensures
            event.is_binary == (old_is_binary || new_is_binary),
            event.event_type == spec_delta_event_type(status),
            event.old_path == old_path,
            event.new_path == new_path,
            event.old_blob_sha == old_blob_sha,
            event.new_blob_sha == new_blob_sha,
            event.hunks@.len() == 0,
    {
        let is_binary = old_is_binary || new_is_binary;
        let event_type = map_delta_status(status);
        DiffFileEvent {
            event_type,
            old_path,
            new_path,
            old_blob_sha,
            new_blob_sha,
            is_binary,
            hunks: Vec::new(),
        }
    }
}

// ---------------------------------------------------------------------------
// Added-line ranges

/// Adds one line number to a list of ranges: it extends the last range when
/// it directly follows it, and opens a new one-line range otherwise.
pub open spec fn extend_ranges(ranges: Seq<(u32, u32)>, line: u32) -> Seq<(u32, u32)> {
    if ranges.len() > 0 && ranges.last().1 + 1 == line {
        ranges.update(ranges.len() - 1, (ranges.last().0, line))
    } else {
        ranges.push((line, line))
    }
}

/// The ranges that a stream of added line numbers forms.
pub open spec fn collect_ranges(lines: Seq<u32>) -> Seq<(u32, u32)>
    decreases lines.len(),
{
    if lines.len() == 0 {
        Seq::empty()
    } else {
        extend_ranges(collect_ranges(lines.drop_last()), lines.last())
    }
}

/// The line numbers that a list of inclusive ranges covers, in order.
pub open spec fn expand_ranges(ranges: Seq<(u32, u32)>) -> Seq<u32>
    decreases ranges.len(),
{
    if ranges.len() == 0 {
        Seq::empty()
    } else {
        expand_ranges(ranges.drop_last()) + expand_range(ranges.last())
    }
}

/// The line numbers `start..=end`.
pub open spec fn expand_range(range: (u32, u32)) -> Seq<u32> {
    Seq::new(
        if range.0 <= range.1 {
            (range.1 - range.0 + 1) as nat
        } else {
            0
        },
        |i: int| (range.0 + i) as u32,
    )
}

/// A stream of line numbers can be collected without overflow: every line
/// that another one follows is below `u32::MAX`.
pub open spec fn collectable(lines: Seq<u32>) -> bool {
    forall|i: int| 0 <= i < lines.len() - 1 ==> #[trigger] lines[i] < u32::MAX
}

/// The ranges are well formed and maximal: each is non-empty, and no range
/// directly continues the one before it.
pub open spec fn ranges_are_maximal(ranges: Seq<(u32, u32)>) -> bool {
    &&& forall|i: int| 0 <= i < ranges.len() ==> (#[trigger] ranges[i]).0 <= ranges[i].1
    &&& forall|i: int|
        0 < i < ranges.len() ==> (#[trigger] ranges[i]).0 != ranges[i - 1].1 + 1
}

/// Each line number is greater than the one before it.
pub open spec fn strictly_increasing(lines: Seq<u32>) -> bool {
    forall|i: int| 0 < i < lines.len() ==> lines[i - 1] < #[trigger] lines[i]
}

/// The ranges are in ascending order with a gap between each range and the
/// next.
pub open spec fn ranges_ascending(ranges: Seq<(u32, u32)>) -> bool {
    forall|i: int| 0 < i < ranges.len() ==> ranges[i - 1].1 + 1 < (#[trigger] ranges[i]).0
}

/// Law of the range collector: the ranges it forms cover exactly the line
/// numbers it was given, in the order given, and they are maximal: each
/// range is non-empty and no range directly continues the one before it.
/// The last range ends at the last line given, and where the lines given
/// increase, the ranges come in ascending order with gaps between them.
pub proof fn lemma_collect_ranges(lines: Seq<u32>)
    ensures
        expand_ranges(collect_ranges(lines)) == lines,
        ranges_are_maximal(collect_ranges(lines)),
        lines.len() > 0 ==> collect_ranges(lines).len() > 0 && collect_ranges(lines).last().1
            == lines.last(),
        strictly_increasing(lines) ==> ranges_ascending(collect_ranges(lines)),
    decreases lines.len(),
{
    if lines.len() > 0 {
        let prev = lines.drop_last();
        let line = lines.last();
        lemma_collect_ranges(prev);
        let r = collect_ranges(prev);
        let out = collect_ranges(lines);
        assert(out == extend_ranges(r, line));
        if r.len() > 0 && r.last().1 + 1 == line {
            let last = r.last();
            assert(last.0 <= last.1);
            assert(out.drop_last() =~= r.drop_last());
            assert(expand_range((last.0, line)) =~= expand_range(last).push(line));
            assert(r =~= r.drop_last().push(last));
            assert(expand_ranges(r) == expand_ranges(r.drop_last()) + expand_range(last));
            assert(expand_ranges(out) =~= expand_ranges(r).push(line));
        } else {
            assert(out.drop_last() =~= r);
            assert(expand_range((line, line)) =~= seq![line]);
            assert(expand_ranges(out) =~= expand_ranges(r).push(line));
        }
        assert(lines =~= prev.push(line));
        assert forall|i: int| 0 <= i < out.len() implies (#[trigger] out[i]).0 <= out[i].1 by {
            if i < r.len() - 1 || i < out.len() - 1 {
                assert(out[i] == r[i]);
            }
        }
        assert forall|i: int| 0 < i < out.len() implies (#[trigger] out[i]).0 != out[i - 1].1
            + 1 by {
            if i < out.len() - 1 {
                assert(out[i] == r[i]);
                assert(out[i - 1] == r[i - 1]);
            } else if out.len() == r.len() {
                assert(out[i].0 == r[i].0);
                assert(out[i - 1] == r[i - 1]);
            }
        }
        if strictly_increasing(lines) {
            assert(strictly_increasing(prev)) by {
                assert forall|i: int| 0 < i < prev.len() implies prev[i - 1] < #[trigger] prev[i] by {
                    assert(prev[i] == lines[i] && prev[i - 1] == lines[i - 1]);
                }
            }
            if r.len() > 0 {
                assert(lines[lines.len() - 2] < lines[lines.len() - 1]);
                assert(prev.last() == lines[lines.len() - 2]);
            }
            assert forall|i: int| 0 < i < out.len() implies out[i - 1].1 + 1 < (
            #[trigger] out[i]).0 by {
                if i < out.len() - 1 {
                    assert(out[i] == r[i]);
                    assert(out[i - 1] == r[i - 1]);
                } else if out.len() == r.len() {
                    assert(out[i].0 == r[i].0);
                    assert(out[i - 1] == r[i - 1]);
                } else {
                    assert(out[i - 1] == r[i - 1]);
                }
            }
        }
    }
}

/// Builds contiguous `(start, end_inclusive)` ranges from a stream of added
/// line numbers seen in source order.
pub struct AddedRangeCollector {
    ranges: Vec<(u32, u32)>,
    current: Option<(u32, u32)>,
    lines: Ghost<Seq<u32>>,
}

impl AddedRangeCollector {
    /// The ranges found so far, the open one last.
    pub closed spec fn all_ranges(self) -> Seq<(u32, u32)> {
        match self.current {
            Some(r) => self.ranges@.push(r),
            None => self.ranges@,
        }
    }

    /// The line numbers pushed so far.
    pub closed spec fn lines(self) -> Seq<u32> {
        self.lines@
    }

    pub closed spec fn wf(self) -> bool {
        &&& self.all_ranges() == collect_ranges(self.lines@)
        &&& (self.current is None <==> self.lines@.len() == 0)
        &&& self.current matches Some(r) ==> r.1 == self.lines@.last()
    }

    /// Whether a further line can be pushed: the last one pushed is below
    /// `u32::MAX` (its successor is computed when the next line arrives).
    pub open spec fn can_push(self) -> bool {
        self.lines().len() > 0 ==> self.lines().last() < u32::MAX
    }

    pub fn push(&mut self, line: u32)
        requires
            old(self).wf(),
            old(self).can_push(),
        ensures
            final(self).wf(),
            final(self).lines() == old(self).lines().push(line),
            final(self).all_ranges() == extend_ranges(old(self).all_ranges(), line),
    {
        let ghost old_all = self.all_ranges();
        proof {
            let ls = self.lines@.push(line);
            assert(ls.drop_last() =~= self.lines@);
            assert(collect_ranges(ls) == extend_ranges(old_all, line));
        }
        match self.current {
            Some((start, end)) => {
                if line == end + 1 {
                    self.current = Some((start, line));
                } else {
                    self.ranges.push((start, end));
                    self.current = Some((line, line));
                }
            },
            None => {
                self.current = Some((line, line));
            },
        }
        self.lines = Ghost(self.lines@.push(line));
        assert(self.all_ranges() =~= extend_ranges(old_all, line));
    }

    /// The collected ranges.
    pub fn finish(self) -> (ranges: Vec<(u32, u32)>)
        requires
            self.wf(),
        ensures
            ranges@ == collect_ranges(self.lines()),
    {
        let mut out = self.ranges;
        match self.current {
            Some(range) => out.push(range),
            None => {},
        }
        out
    }
}

impl Default for AddedRangeCollector {
    fn default() -> (collector: Self)
        ensures
            collector.wf(),
            collector.lines() == Seq::<u32>::empty(),
    {
        AddedRangeCollector { ranges: Vec::new(), current: None, lines: Ghost(Seq::empty()) }
    }
}


// ---------------------------------------------------------------------------
// Hunks of a textual delta

/// One line of a patch hunk as Git reports it: its origin marker (`'+'`,
/// `'-'`, `' '`, ...), its raw content, and its line number on the new side.
#[derive(Debug)]
pub struct PatchLine {
    pub origin: char,
    pub content: Vec<u8>,
    pub new_lineno: Option<u32>,
}

/// The text of `bytes` where they are valid UTF-8, and nothing otherwise.
pub open spec fn utf8_or_empty(bytes: Seq<u8>) -> Seq<char> {
    if valid_utf8(bytes) {
        decode_utf8(bytes)
    } else {
        Seq::empty()
    }
}

/// The patch text of a hunk's lines: each line's origin marker followed by
/// its content where that content is text.
pub open spec fn patch_lines_text(lines: Seq<PatchLine>) -> Seq<char>
    decreases lines.len(),
{
    if lines.len() == 0 {
        Seq::empty()
    } else {
        patch_lines_text(lines.drop_last()) + seq![lines.last().origin] + utf8_or_empty(
            lines.last().content@,
        )
    }
}

/// The new-side line numbers of a hunk's added (`'+'`) lines, in order.
pub open spec fn added_lines(lines: Seq<PatchLine>) -> Seq<u32>
    decreases lines.len(),
{
    if lines.len() == 0 {
        Seq::empty()
    } else {
        added_lines(lines.drop_last()) + added_line(lines.last())
    }
}

pub open spec fn added_line(line: PatchLine) -> Seq<u32> {
    if line.origin == '+' && line.new_lineno is Some {
        seq![line.new_lineno->0]
    } else {
        Seq::empty()
    }
}

proof fn lemma_added_lines_append(a: Seq<PatchLine>, b: Seq<PatchLine>)
    ensures
        added_lines(a + b) == added_lines(a) + added_lines(b),
    decreases b.len(),
{
    if b.len() == 0 {
        assert(a + b =~= a);
        assert(added_lines(a) + added_lines(b) =~= added_lines(a));
    } else {
        lemma_added_lines_append(a, b.drop_last());
        assert((a + b).drop_last() =~= a + b.drop_last());
        assert((a + b).last() == b.last());
        assert(added_lines(a + b) =~= added_lines(a) + added_lines(b));
    }
}

/// Builds one hunk from its header and lines: the patch text is the header
/// followed by every line's origin marker and content, and the added ranges
/// group the new-side numbers of the added lines.
pub fn assemble_hunk(
    header: &[u8],
    old_start: u32,
    old_lines: u32,
    new_start: u32,
    new_lines: u32,
    lines: &Vec<PatchLine>,
) -> (hunk: DiffHunkInfo)
    requires
        collectable(added_lines(lines@)),
    ensures
        hunk.old_start == old_start,
        hunk.old_lines == old_lines,
        hunk.new_start == new_start,
        hunk.new_lines == new_lines,
        hunk.patch_text@ == utf8_or_empty(header@) + patch_lines_text(lines@),
        hunk.added_ranges@ == collect_ranges(added_lines(lines@)),
{
    let mut text = match utf8_text(header) {
        Some(t) => t,
        None => String::new(),
    };
    let mut added = AddedRangeCollector::default();
    let n = lines.len();
    for i in 0..n
        invariant
            n == lines@.len(),
            collectable(added_lines(lines@)),
            text@ == utf8_or_empty(header@) + patch_lines_text(lines@.take(i as int)),
            added.wf(),
            added.lines() == added_lines(lines@.take(i as int)),
    {
        let line = &lines[i];
        proof {
            let pre = lines@.take(i as int);
            assert(lines@.take(i + 1).drop_last() =~= pre);
            assert(lines@.take(i + 1).last() == line);
            lemma_added_lines_append(lines@.take(i + 1), lines@.skip(i + 1));
            assert(lines@.take(i + 1) + lines@.skip(i + 1) =~= lines@);
        }
        crate::text::push_char(&mut text, line.origin);
        match utf8_text(line.content.as_slice()) {
            Some(content) => text.append(content.as_str()),
            None => {},
        }
        assert(text@ =~= utf8_or_empty(header@) + patch_lines_text(lines@.take(i + 1)));
        if line.origin == '+' {
            match line.new_lineno {
                Some(ln) => {
                    proof {
                        let all = added_lines(lines@);
                        let before = added.lines();
                        assert(added_lines(lines@.take(i + 1)) == before.push(ln));
                        if before.len() > 0 {
                            assert(all[before.len() - 1] == before.last());
                        }
                    }
                    added.push(ln);
                },
                None => {},
            }
        }
    }
    assert(lines@.take(n as int) =~= lines@);
    DiffHunkInfo {
        old_start,
        old_lines,
        new_start,
        new_lines,
        patch_text: text,
        added_ranges: added.finish(),
    }
}

// ---------------------------------------------------------------------------
// Blame

/// One hunk of a blame run as Git reports it.
#[derive(Debug)]
pub struct RawBlameHunk {
    pub final_commit_sha: String,
    pub final_start_line: usize,
    pub lines_in_hunk: usize,
    pub orig_start_line: usize,
    pub orig_path: Option<String>,
    pub boundary: bool,
}

/// One row from a clipped blame run: a contiguous span on the requested side
/// attributed to a single ancestor commit.
#[derive(Debug)]
pub struct BlameSpan {
    pub blamed_commit_sha: String,
    pub final_start_line: u32,
    pub line_count: u32,
    pub origin_path: Option<String>,
    pub origin_start_line: Option<u32>,
    pub boundary: bool,
}

/// The part `(start, line_count, origin_start)` of a blame hunk that falls
/// inside the requested lines `start_line..=end_line`, or `None` where the
/// hunk is empty or lies outside them.
pub open spec fn clipped_part(hunk: RawBlameHunk, start_line: u32, end_line: u32) -> Option<
    (u32, u32, u32),
> {
    let final_start = hunk.final_start_line as u32;
    let lines = hunk.lines_in_hunk as u32;
    let clip_start = if final_start >= start_line {
        final_start
    } else {
        start_line
    };
    let clip_end_excl = if final_start + lines <= end_line + 1 {
        final_start + lines
    } else {
        end_line + 1
    };
    if lines == 0 || clip_end_excl <= clip_start {
        None
    } else {
        Some(
            (
                clip_start,
                (clip_end_excl - clip_start) as u32,
                ((hunk.orig_start_line as u32) + (clip_start - final_start)) as u32,
            ),
        )
    }
}

/// The arithmetic of clipping stays within `u32` for this hunk.
pub open spec fn clip_fits(hunk: RawBlameHunk, start_line: u32, end_line: u32) -> bool {
    let final_start = hunk.final_start_line as u32;
    let lines = hunk.lines_in_hunk as u32;
    let clip_start = if final_start >= start_line {
        final_start
    } else {
        start_line
    };
    lines != 0 ==> {
        &&& final_start + lines <= u32::MAX
        &&& end_line < u32::MAX
        &&& (hunk.orig_start_line as u32) + (clip_start - final_start) <= u32::MAX
    }
}

/// The span a blame hunk contributes, if any.
pub open spec fn clipped_span(hunk: RawBlameHunk, start_line: u32, end_line: u32) -> Option<BlameSpan> {
    match clipped_part(hunk, start_line, end_line) {
        Some((start, count, origin)) => Some(
            BlameSpan {
                blamed_commit_sha: hunk.final_commit_sha,
                final_start_line: start,
                line_count: count,
                origin_path: hunk.orig_path,
                origin_start_line: Some(origin),
                boundary: hunk.boundary,
            },
        ),
        None => None,
    }
}

/// The spans of a whole blame run, in the order of its hunks.
pub open spec fn clipped_spans(hunks: Seq<RawBlameHunk>, start_line: u32, end_line: u32) -> Seq<
    BlameSpan,
>
    decreases hunks.len(),
{
    if hunks.len() == 0 {
        Seq::empty()
    } else {
        clipped_spans(hunks.drop_last(), start_line, end_line) + match clipped_span(
            hunks.last(),
            start_line,
            end_line,
        ) {
            Some(span) => seq![span],
            None => Seq::empty(),
        }
    }
}

/// Law of clipping: a blame hunk gives a span exactly when its lines
/// `final_start..final_start + lines` meet the requested lines
/// `start_line..=end_line`; the span is their common part, it keeps the
/// hunk's blamed commit, origin path and boundary flag, and its origin line
/// is shifted from the hunk's by as much as its start is.
pub proof fn lemma_clip_keeps_hunk(hunk: RawBlameHunk, start_line: u32, end_line: u32)
    requires
        clip_fits(hunk, start_line, end_line),
    ensures
        ({
            let final_start = hunk.final_start_line as u32;
            let lines = hunk.lines_in_hunk as u32;
            let first = if final_start >= start_line { final_start as int } else { start_line as int };
            let end_excl = if final_start + lines <= end_line + 1 {
                final_start + lines
            } else {
                end_line + 1
            };
            match clipped_span(hunk, start_line, end_line) {
                Some(span) => {
                    &&& lines > 0 && first < end_excl
                    &&& span.blamed_commit_sha == hunk.final_commit_sha
                    &&& span.origin_path == hunk.orig_path
                    &&& span.boundary == hunk.boundary
                    &&& span.final_start_line == first
                    &&& span.line_count == end_excl - first
                    &&& start_line <= span.final_start_line
                    &&& span.final_start_line + span.line_count <= end_line + 1
                    &&& final_start <= span.final_start_line
                    &&& span.final_start_line + span.line_count <= final_start + lines
                    &&& span.origin_start_line == Some(
                        ((hunk.orig_start_line as u32) + (first - final_start)) as u32,
                    )
                },
                None => lines == 0 || end_excl <= first,
            }
        }),
{
}

/// Clips one blame hunk to the requested lines `start_line..=end_line`.
pub fn clip_blame_hunk(hunk: RawBlameHunk, start_line: u32, end_line: u32) -> (span: Option<
    BlameSpan,
>)
    requires
        clip_fits(hunk, start_line, end_line),
    ensures
        span == clipped_span(hunk, start_line, end_line),
{
    let final_start = hunk.final_start_line as u32;
    let lines = hunk.lines_in_hunk as u32;
    if lines == 0 {
        return None;
    }
    let final_end_excl = final_start + lines;
    let clip_start = if final_start >= start_line {
        final_start
    } else {
        start_line
    };
    let clip_end_excl = if final_end_excl <= end_line + 1 {
        final_end_excl
    } else {
        end_line + 1
    };
    if clip_end_excl <= clip_start {
        return None;
    }
    let clip_lines = clip_end_excl - clip_start;
    let offset = clip_start - final_start;
    let orig_start = hunk.orig_start_line as u32;
    Some(
        BlameSpan {
            blamed_commit_sha: hunk.final_commit_sha,
            final_start_line: clip_start,
            line_count: clip_lines,
            origin_path: hunk.orig_path,
            origin_start_line: Some(orig_start + offset),
            boundary: hunk.boundary,
        },
    )
}

/// Clips every hunk of a blame run to the requested lines, dropping the
/// hunks that fall outside them.
pub fn clip_blame_hunks(hunks: Vec<RawBlameHunk>, start_line: u32, end_line: u32) -> (spans: Vec<
    BlameSpan,
>)
    requires
        forall|i: int| 0 <= i < hunks@.len() ==> clip_fits(#[trigger] hunks@[i], start_line, end_line),
    ensures
        spans@ == clipped_spans(hunks@, start_line, end_line),
{
    let ghost all = hunks@;
    let mut spans: Vec<BlameSpan> = Vec::new();
    for hunk in it: hunks
        invariant
            it.seq() == all,
            forall|k: int| 0 <= k < all.len() ==> clip_fits(#[trigger] all[k], start_line, end_line),
            spans@ == clipped_spans(all.take(it.index() as int), start_line, end_line),
    {
        proof {
            let k = it.index() as int;
            assert(all.take(k + 1).drop_last() =~= all.take(k));
            assert(all.take(k + 1).last() == all[k]);
            assert(clip_fits(all[k], start_line, end_line));
        }
        match clip_blame_hunk(hunk, start_line, end_line) {
            Some(span) => spans.push(span),
            None => {},
        }
        proof {
            let k = it.index() as int;
            assert(spans@ =~= clipped_spans(all.take(k + 1), start_line, end_line));
        }
    }
    assert(all.take(all.len() as int) =~= all);
    spans
}

/// Law of clipping: every span lies inside both the requested lines and the
/// blame hunk it came from, and covers at least one line.
pub proof fn lemma_clipped_span_within(hunk: RawBlameHunk, start_line: u32, end_line: u32)
    requires
        clip_fits(hunk, start_line, end_line),
        clipped_span(hunk, start_line, end_line) is Some,
    ensures
        ({
            let span = clipped_span(hunk, start_line, end_line)->0;
            &&& span.line_count >= 1
            &&& start_line <= span.final_start_line
            &&& span.final_start_line + span.line_count <= end_line + 1
            &&& (hunk.final_start_line as u32) <= span.final_start_line
            &&& span.final_start_line + span.line_count <= (hunk.final_start_line as u32) + (
            hunk.lines_in_hunk as u32)
        }),
{
}

} // verus!
