//! The `path:line` / `path:start-end` targets given on the command line.
use vstd::prelude::*;

use crate::text::{
    all_digits, chars_of, decimal, decimal_text, digits_value, is_digit, lemma_decimal_digits,
    parse_u32, push_text, spec_parse_u32, string_of,
};

verus! {

/// Why a target was refused.
#[derive(Debug, Clone, Copy, PartialEq, Eq, Structural)]
pub enum TargetError {
    /// There is no `:` to separate the path from the lines.
    MissingSeparator,
    /// Nothing comes before the `:`.
    EmptyPath,
    /// The start line is not a number that fits in `u32`.
    InvalidStartLine,
    /// The end line is not a number that fits in `u32`.
    InvalidEndLine,
    /// A line number is 0; lines are numbered from 1.
    ZeroLine,
    /// The end line comes before the start line.
    InvertedRange,
}

impl TargetError {
    /// A short description of the error.
    pub open spec fn spec_message(self) -> Seq<char> {
        match self {
            TargetError::MissingSeparator => "target must be of the form path:line or path:start-end"@,
            TargetError::EmptyPath => "target has an empty path"@,
            TargetError::InvalidStartLine => "the start line is not a line number"@,
            TargetError::InvalidEndLine => "the end line is not a line number"@,
            TargetError::ZeroLine => "line numbers must be 1-indexed"@,
            TargetError::InvertedRange => "end line is before start line"@,
        }
    }

    /// A short description of the error.
    pub fn message(&self) -> (text: &'static str)
        ensures
            text@ == self.spec_message(),
    {
        match self {
            TargetError::MissingSeparator => "target must be of the form path:line or path:start-end",
            TargetError::EmptyPath => "target has an empty path",
            TargetError::InvalidStartLine => "the start line is not a line number",
            TargetError::InvalidEndLine => "the end line is not a line number",
            TargetError::ZeroLine => "line numbers must be 1-indexed",
            TargetError::InvertedRange => "end line is before start line",
        }
    }
}

/// The start and end line texts of a target: what follows its last `:`,
/// split as `line_parts` splits it.
pub open spec fn target_line_texts(target: Seq<char>) -> (Seq<char>, Seq<char>) {
    line_parts(target.skip(last_index(target, ':') + 1))
}

impl TargetError {
    /// The full description of the error that parsing `target` gave, with
    /// the target, the offending line text or the line numbers in it.
    pub open spec fn spec_describe(self, target: Seq<char>) -> Seq<char> {
        let (start_text, end_text) = target_line_texts(target);
        match self {
            TargetError::MissingSeparator => "target '"@ + target
                + "' must be of the form path:line or path:start-end"@,
            TargetError::EmptyPath => "target '"@ + target + "' has an empty path"@,
            TargetError::InvalidStartLine => "parsing start line '"@ + start_text + "'"@,
            TargetError::InvalidEndLine => "parsing end line '"@ + end_text + "'"@,
            TargetError::ZeroLine => "line numbers must be 1-indexed"@,
            TargetError::InvertedRange => "end line "@ + decimal(
                spec_parse_u32(end_text)->Some_0 as nat,
            ) + " is before start line "@ + decimal(spec_parse_u32(start_text)->Some_0 as nat),
        }
    }

    /// Describes the error that parsing `target` gave.
    pub fn describe(&self, target: &str) -> (text: String)
        requires
            spec_parse_target(target@) == Err::<(Seq<char>, u32, u32), TargetError>(*self),
        ensures
            text@ == self.spec_describe(target@),
    {
        let mut text = String::new();
        match self {
            TargetError::MissingSeparator => {
                push_text(&mut text, "target '");
                push_text(&mut text, target);
                push_text(&mut text, "' must be of the form path:line or path:start-end");
                return text;
            },
            TargetError::EmptyPath => {
                push_text(&mut text, "target '");
                push_text(&mut text, target);
                push_text(&mut text, "' has an empty path");
                return text;
            },
            TargetError::ZeroLine => {
                push_text(&mut text, "line numbers must be 1-indexed");
                return text;
            },
            _ => {},
        }
        let cs = chars_of(target);
        let (_k, start_lo, start_hi, end_lo, end_hi) = match locate_parts(&cs) {
            Some(loc) => loc,
            None => {
                return text;
            },
        };
        match self {
            TargetError::InvalidStartLine => {
                push_text(&mut text, "parsing start line '");
                push_text(&mut text, string_of(&cs, start_lo, start_hi).as_str());
                push_text(&mut text, "'");
            },
            TargetError::InvalidEndLine => {
                push_text(&mut text, "parsing end line '");
                push_text(&mut text, string_of(&cs, end_lo, end_hi).as_str());
                push_text(&mut text, "'");
            },
            _ => {
                let start_line = match parse_u32(&cs, start_lo, start_hi) {
                    Some(v) => v,
                    None => {
                        return text;
                    },
                };
                let end_line = match parse_u32(&cs, end_lo, end_hi) {
                    Some(v) => v,
                    None => {
                        return text;
                    },
                };
                push_text(&mut text, "end line ");
                push_text(&mut text, decimal_text(end_line).as_str());
                push_text(&mut text, " is before start line ");
                push_text(&mut text, decimal_text(start_line).as_str());
            },
        }
        text
    }
}

/// A `path:line` or `path:start-end` target parsed off the command line.
#[derive(Debug, Clone, PartialEq, Eq)]
pub struct TraceTarget {
    pub path: String,
    pub start_line: u32,
    pub end_line: u32,
}

/// Whether `c` occurs in `s`.
pub open spec fn has_char(s: Seq<char>, c: char) -> bool {
    exists|i: int| 0 <= i < s.len() && s[i] == c
}

/// `k` is the position of the last `c` in `s`.
pub open spec fn is_last_index(s: Seq<char>, c: char, k: int) -> bool {
    &&& 0 <= k < s.len()
    &&& s[k] == c
    &&& forall|j: int| k < j < s.len() ==> s[j] != c
}

/// `k` is the position of the first `c` in `s`.
pub open spec fn is_first_index(s: Seq<char>, c: char, k: int) -> bool {
    &&& 0 <= k < s.len()
    &&& s[k] == c
    &&& forall|j: int| 0 <= j < k ==> s[j] != c
}

pub open spec fn last_index(s: Seq<char>, c: char) -> int {
    choose|k: int| is_last_index(s, c, k)
}

pub open spec fn first_index(s: Seq<char>, c: char) -> int {
    choose|k: int| is_first_index(s, c, k)
}

/// The start and end text of the line part: split at the first `-`, or
/// the same text twice when there is none.
pub open spec fn line_parts(range: Seq<char>) -> (Seq<char>, Seq<char>) {
    if has_char(range, '-') {
        let m = first_index(range, '-');
        (range.take(m), range.skip(m + 1))
    } else {
        (range, range)
    }
}

/// How a target parses: the path is everything before the last `:`, the
/// rest is one line number or `start-end`; both numbers must be at least 1
/// and in order.
pub open spec fn spec_parse_target(target: Seq<char>) -> Result<(Seq<char>, u32, u32), TargetError> {
    if !has_char(target, ':') {
        Err(TargetError::MissingSeparator)
    } else {
        let k = last_index(target, ':');
        let path = target.take(k);
        let range = target.skip(k + 1);
        if path.len() == 0 {
            Err(TargetError::EmptyPath)
        } else {
            let (start_text, end_text) = line_parts(range);
            match spec_parse_u32(start_text) {
                None => Err(TargetError::InvalidStartLine),
                Some(start) => match spec_parse_u32(end_text) {
                    None => Err(TargetError::InvalidEndLine),
                    Some(end) => if start == 0 || end == 0 {
                        Err(TargetError::ZeroLine)
                    } else if end < start {
                        Err(TargetError::InvertedRange)
                    } else {
                        Ok((path, start, end))
                    },
                },
            }
        }
    }
}

proof fn lemma_last_index_unique(s: Seq<char>, c: char, k: int)
    requires
        is_last_index(s, c, k),
    ensures
        last_index(s, c) == k,
{
    let j = last_index(s, c);
    assert(is_last_index(s, c, j));
}

proof fn lemma_first_index_unique(s: Seq<char>, c: char, k: int)
    requires
        is_first_index(s, c, k),
    ensures
        first_index(s, c) == k,
{
    let j = first_index(s, c);
    assert(is_first_index(s, c, j));
}

/// Where the parts of a target stand: the position `k` of its last `:`, and
/// the bounds of the start and end line texts after it. `None` where the
/// target has no `:`.
fn locate_parts(cs: &Vec<char>) -> (loc: Option<(usize, usize, usize, usize, usize)>)
    ensures
        loc is None <==> !has_char(cs@, ':'),
        loc matches Some((k, start_lo, start_hi, end_lo, end_hi)) ==> {
            let range = cs@.skip(k + 1);
            &&& is_last_index(cs@, ':', k as int)
            &&& k == last_index(cs@, ':')
            &&& start_lo <= start_hi <= cs@.len()
            &&& end_lo <= end_hi <= cs@.len()
            &&& cs@.subrange(start_lo as int, start_hi as int) == line_parts(range).0
            &&& cs@.subrange(end_lo as int, end_hi as int) == line_parts(range).1
        },
{
    let n = cs.len();
    let mut colon: Option<usize> = None;
    for i in 0..n
        invariant
            n == cs@.len(),
            match colon {
                Some(k) => k < i && cs@[k as int] == ':' && forall|j: int|
                    k < j < i ==> cs@[j] != ':',
                None => forall|j: int| 0 <= j < i ==> cs@[j] != ':',
            },
    {
        if cs[i] == ':' {
            colon = Some(i);
        }
    }
    let k = match colon {
        Some(k) => k,
        None => {
            return None;
        },
    };
    proof {
        lemma_last_index_unique(cs@, ':', k as int);
    }
    let ghost range = cs@.skip(k + 1);
    let mut dash: Option<usize> = None;
    let mut j = k + 1;
    while j < n && dash.is_none()
        invariant
            k + 1 <= j <= n,
            n == cs@.len(),
            range == cs@.skip(k + 1),
            match dash {
                Some(m) => k + 1 <= m < n && cs@[m as int] == '-' && forall|i: int|
                    k + 1 <= i < m ==> cs@[i] != '-',
                None => forall|i: int| k + 1 <= i < j ==> cs@[i] != '-',
            },
        decreases n - j + (if dash is None { 1int } else { 0int }),
    {
        if cs[j] == '-' {
            dash = Some(j);
        } else {
            j = j + 1;
        }
    }
    match dash {
        Some(m) => {
            proof {
                assert(is_first_index(range, '-', m - (k + 1)));
                lemma_first_index_unique(range, '-', m - (k + 1));
                assert(range.take(m - (k + 1)) =~= cs@.subrange(k + 1, m as int));
                assert(range.skip(m - (k + 1) + 1) =~= cs@.subrange(m + 1, n as int));
            }
            Some((k, k + 1, m, m + 1, n))
        },
        None => {
            proof {
                assert(!has_char(range, '-'));
                assert(range =~= cs@.subrange(k + 1, n as int));
            }
            Some((k, k + 1, n, k + 1, n))
        },
    }
}

impl TraceTarget {
    /// Parse a `path:line` or `path:start-end` argument. Splits on the
    /// rightmost `:` so paths containing colons still work as long as the
    /// suffix is a numeric line or range.
    pub fn parse(target: &str) -> (parsed: Result<TraceTarget, TargetError>)
        ensures
            match spec_parse_target(target@) {
                Ok((path, start, end)) => parsed matches Ok(t) && t.path@ == path && t.start_line
                    == start && t.end_line == end,
                Err(e) => parsed == Err::<TraceTarget, TargetError>(e),
            },
    {
        let cs = chars_of(target);
        let (k, start_lo, start_hi, end_lo, end_hi) = match locate_parts(&cs) {
            Some(loc) => loc,
            None => {
                return Err(TargetError::MissingSeparator);
            },
        };
        if k == 0 {
            return Err(TargetError::EmptyPath);
        }
        let start_line = match parse_u32(&cs, start_lo, start_hi) {
            Some(v) => v,
            None => {
                return Err(TargetError::InvalidStartLine);
            },
        };
        let end_line = match parse_u32(&cs, end_lo, end_hi) {
            Some(v) => v,
            None => {
                return Err(TargetError::InvalidEndLine);
            },
        };
        if start_line == 0 || end_line == 0 {
            return Err(TargetError::ZeroLine);
        }
        if end_line < start_line {
            return Err(TargetError::InvertedRange);
        }
        let path = string_of(&cs, 0, k);
        assert(cs@.subrange(0, k as int) =~= cs@.take(k as int));
        Ok(TraceTarget { path, start_line, end_line })
    }
}

/// Law: a target written as `path:start-end`, with lines from 1 and in
/// order, parses back to the same path and lines, whatever `:` or `-` the
/// path holds; `path:line` parses to the one-line range.
pub proof fn lemma_parse_round_trip(path: Seq<char>, start: u32, end: u32)
    requires
        path.len() > 0,
        1 <= start <= end,
    ensures
        spec_parse_target(path + seq![':'] + decimal(start as nat) + seq!['-'] + decimal(
            end as nat,
        )) == Ok::<(Seq<char>, u32, u32), TargetError>((path, start, end)),
        spec_parse_target(path + seq![':'] + decimal(start as nat)) == Ok::<
            (Seq<char>, u32, u32),
            TargetError,
        >((path, start, start)),
{
    lemma_decimal_digits(start as nat);
    lemma_decimal_digits(end as nat);
    let ds = decimal(start as nat);
    let de = decimal(end as nat);
    lemma_parses_decimal(start);
    lemma_parses_decimal(end);

    let t = path + seq![':'] + ds + seq!['-'] + de;
    let k = path.len() as int;
    assert(t[k] == ':');
    assert forall|j: int| k < j < t.len() implies t[j] != ':' by {
        if j < k + 1 + ds.len() {
            assert(t[j] == ds[j - k - 1]);
            assert(is_digit(ds[j - k - 1]));
        } else if j > k + 1 + ds.len() {
            assert(t[j] == de[j - k - 2 - ds.len()]);
            assert(is_digit(de[j - k - 2 - ds.len()]));
        }
    }
    assert(is_last_index(t, ':', k));
    lemma_last_index_unique(t, ':', k);
    assert(has_char(t, ':'));
    assert(t.take(k) =~= path);
    let range = t.skip(k + 1);
    assert(range =~= ds + seq!['-'] + de);
    let m = ds.len() as int;
    assert forall|j: int| 0 <= j < m implies range[j] != '-' by {
        assert(range[j] == ds[j]);
        assert(is_digit(ds[j]));
    }
    assert(range[m] == '-');
    assert(is_first_index(range, '-', m));
    lemma_first_index_unique(range, '-', m);
    assert(has_char(range, '-'));
    assert(range.take(m) =~= ds);
    assert(range.skip(m + 1) =~= de);

    let u = path + seq![':'] + ds;
    assert(u[k] == ':');
    assert forall|j: int| k < j < u.len() implies u[j] != ':' by {
        assert(u[j] == ds[j - k - 1]);
        assert(is_digit(ds[j - k - 1]));
    }
    assert(is_last_index(u, ':', k));
    lemma_last_index_unique(u, ':', k);
    assert(has_char(u, ':'));
    assert(u.take(k) =~= path);
    let r2 = u.skip(k + 1);
    assert(r2 =~= ds);
    assert forall|j: int| 0 <= j < r2.len() implies r2[j] != '-' by {
        assert(is_digit(ds[j]));
    }
    assert(!has_char(r2, '-'));
}

/// The decimal numeral of a `u32` parses back to it.
proof fn lemma_parses_decimal(n: u32)
    ensures
        spec_parse_u32(decimal(n as nat)) == Some(n),
{
    lemma_decimal_digits(n as nat);
    let d = decimal(n as nat);
    assert(is_digit(d[0]));
    assert(d[0] != '+');
}

} // verus!
