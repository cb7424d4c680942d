//! Calendar dates, held as year, month and day, with the proleptic
//! Gregorian rules that `chrono::NaiveDate` follows.
use chrono::{Datelike, DateTime, Months, NaiveDate, TimeZone, Utc};
use vstd::prelude::*;

use crate::text::{chars_of, decimal, decimal_text, push_char, zero_padded};

verus! {

/// The earliest year a `chrono::NaiveDate` can hold.
pub const MIN_YEAR: i32 = -262143;

/// The latest year a `chrono::NaiveDate` can hold.
pub const MAX_YEAR: i32 = 262142;

pub open spec fn is_leap_year(year: int) -> bool {
    (year % 4 == 0 && year % 100 != 0) || year % 400 == 0
}

pub open spec fn days_in_month(year: int, month: int) -> int {
    if month == 2 {
        if is_leap_year(year) { 29 } else { 28 }
    } else if month == 4 || month == 6 || month == 9 || month == 11 {
        30
    } else {
        31
    }
}

/// Whether `year-month-day` names a day that `chrono::NaiveDate` can hold.
pub open spec fn is_valid_date(year: i32, month: u32, day: u32) -> bool {
    &&& MIN_YEAR <= year <= MAX_YEAR
    &&& 1 <= month <= 12
    &&& 1 <= day <= days_in_month(year as int, month as int)
}

/// A day of the proleptic Gregorian calendar.
#[derive(Debug, Clone, Copy, PartialEq, Eq, Structural)]
pub struct CalendarDate {
    year: i32,
    month: u32,
    day: u32,
}

/// `year-month-day` as `chrono` displays a date: four digits of year (with
/// an explicit sign outside 0..=9999), then two digits each of month and day.
pub open spec fn date_text(year: i32, month: u32, day: u32) -> Seq<char> {
    let year_text = if 0 <= year <= 9999 {
        zero_padded(decimal(year as nat), 4)
    } else if year < 0 {
        seq!['-'] + zero_padded(decimal((-year) as nat), 4)
    } else {
        seq!['+'] + zero_padded(decimal(year as nat), 4)
    };
    year_text + seq!['-'] + zero_padded(decimal(month as nat), 2) + seq!['-'] + zero_padded(
        decimal(day as nat),
        2,
    )
}

/// What `chrono` makes of a Unix time in whole seconds, written in
/// RFC 3339 in UTC (`None` where the time is out of its range).
pub uninterp spec fn utc_rfc3339_text(seconds: i64) -> Option<Seq<char>>;

/// The UTC calendar day, as year, month and day, of an RFC 3339 time stamp
/// as `chrono` parses it (`None` where it does not parse).
pub uninterp spec fn rfc3339_utc_day(text: Seq<char>) -> Option<(i32, u32, u32)>;

impl CalendarDate {
    #[verifier::type_invariant]
    spec fn holds_valid_date(self) -> bool {
        is_valid_date(self.year, self.month, self.day)
    }

    pub closed spec fn spec_year(self) -> i32 {
        self.year
    }

    pub closed spec fn spec_month(self) -> u32 {
        self.month
    }

    pub closed spec fn spec_day(self) -> u32 {
        self.day
    }

    /// The date `year-month-day`, or `None` where no such day exists, as
    /// `chrono::NaiveDate::from_ymd_opt` decides it.
    pub fn from_ymd(year: i32, month: u32, day: u32) -> (date: Option<CalendarDate>)
        ensures
            date is Some <==> is_valid_date(year, month, day),
            date matches Some(d) ==> d.spec_year() == year && d.spec_month() == month
                && d.spec_day() == day,
    {
        if year < MIN_YEAR || year > MAX_YEAR || month < 1 || month > 12 || day < 1 {
            return None;
        }
        // A shift by a multiple of 400 years keeps the leap-year rule and
        // makes the year positive.
        let shifted = (year as i64) + 400000;
        assert(shifted % 4 == year % 4 && shifted % 100 == year % 100 && shifted % 400 == year
            % 400);
        let leap = (shifted % 4 == 0 && shifted % 100 != 0) || shifted % 400 == 0;
        let last_day: u32 = if month == 2 {
            if leap {
                29
            } else {
                28
            }
        } else if month == 4 || month == 6 || month == 9 || month == 11 {
            30
        } else {
            31
        };
        if day > last_day {
            return None;
        }
        Some(CalendarDate { year, month, day })
    }

    pub fn year(&self) -> (year: i32)
        ensures
            year == self.spec_year(),
    {
        self.year
    }

    pub fn month(&self) -> (month: u32)
        ensures
            month == self.spec_month(),
    {
        self.month
    }

    pub fn day(&self) -> (day: u32)
        ensures
            day == self.spec_day(),
    {
        self.day
    }

    /// Chronological order: `self` is a strictly earlier day than `other`.
    pub open spec fn spec_before(self, other: CalendarDate) -> bool {
        ||| self.spec_year() < other.spec_year()
        ||| self.spec_year() == other.spec_year() && self.spec_month() < other.spec_month()
        ||| self.spec_year() == other.spec_year() && self.spec_month() == other.spec_month()
            && self.spec_day() < other.spec_day()
    }

    pub fn is_before(&self, other: &CalendarDate) -> (before: bool)
        ensures
            before == self.spec_before(*other),
    {
        if self.year != other.year {
            self.year < other.year
        } else if self.month != other.month {
            self.month < other.month
        } else {
            self.day < other.day
        }
    }

    /// The date written as `chrono` displays a `NaiveDate`.
    pub fn to_text(&self) -> (text: String)
        ensures
            text@ == date_text(self.spec_year(), self.spec_month(), self.spec_day()),
    {
        proof {
            use_type_invariant(self);
        }
        let mut text = String::new();
        let magnitude: u32 = if self.year < 0 {
            push_char(&mut text, '-');
            (-(self.year as i64)) as u32
        } else {
            if self.year > 9999 {
                push_char(&mut text, '+');
            }
            self.year as u32
        };
        push_padded(&mut text, magnitude, 4);
        push_char(&mut text, '-');
        push_padded(&mut text, self.month, 2);
        push_char(&mut text, '-');
        push_padded(&mut text, self.day, 2);
        text
    }
}

/// Appends the decimal numeral of `n`, with `'0'`s in front up to `width`
/// characters.
fn push_padded(text: &mut String, n: u32, width: usize)
    ensures
        final(text)@ == old(text)@ + zero_padded(decimal(n as nat), width as nat),
{
    let digits = chars_of(decimal_text(n).as_str());
    let len = digits.len();
    if len < width {
        let pad = width - len;
        for i in 0..pad
            invariant
                text@ == old(text)@ + Seq::new(i as nat, |j: int| '0'),
        {
            push_char(text, '0');
            assert(text@ =~= old(text)@ + Seq::new((i + 1) as nat, |j: int| '0'));
        }
    }
    let ghost before = text@;
    for i in 0..len
        invariant
            len == digits@.len(),
            text@ == before + digits@.take(i as int),
    {
        push_char(text, digits[i]);
        assert(digits@.take(i + 1) =~= digits@.take(i as int).push(digits@[i as int]));
    }
    assert(digits@.take(len as int) =~= digits@);
    assert(text@ =~= old(text)@ + zero_padded(decimal(n as nat), width as nat));
}

/// A Unix time in whole seconds as an RFC 3339 UTC time stamp
/// (`chrono::Utc.timestamp_opt(seconds, 0)`, then `to_rfc3339`).
#[verifier::external_body]
pub(crate) fn signature_time(seconds: i64) -> (text: Option<String>)
    ensures
        text matches Some(t) ==> utc_rfc3339_text(seconds) == Some(t@),
        text is None ==> utc_rfc3339_text(seconds) is None,
{
    Utc.timestamp_opt(seconds, 0).single().map(|t| t.to_rfc3339())
}

/// The UTC calendar day of an RFC 3339 time stamp
/// (`chrono::DateTime::parse_from_rfc3339`, then `date_naive` in UTC).
#[verifier::external_body]
pub(crate) fn rfc3339_day(text: &str) -> (day: Option<CalendarDate>)
    ensures
        day matches Some(d) ==> rfc3339_utc_day(text@) == Some(
            (d.spec_year(), d.spec_month(), d.spec_day()),
        ),
        day is None ==> rfc3339_utc_day(text@) is None,
{
    match DateTime::parse_from_rfc3339(text) {
        Ok(time) => {
            let date = time.with_timezone(&Utc).date_naive();
            Some(CalendarDate { year: date.year(), month: date.month(), day: date.day() })
        },
        Err(_) => None,
    }
}

/// The year, month and day of a date.
pub open spec fn date_view(date: CalendarDate) -> (i32, u32, u32) {
    (date.spec_year(), date.spec_month(), date.spec_day())
}

/// The date `months` months before `year-month-day`, as
/// `chrono::NaiveDate::checked_sub_months` computes it: the day is clamped
/// to the length of the target month, and there is no result where the
/// count of months or the target year is out of range.
pub open spec fn spec_sub_months(year: i32, month: u32, day: u32, months: u32) -> Option<
    (i32, u32, u32),
> {
    if months == 0 {
        Some((year, month, day))
    } else if months > i32::MAX {
        None
    } else {
        let total = year * 12 + month - 1 - months;
        let new_year = total / 12;
        let new_month = total % 12 + 1;
        let new_day = if day <= days_in_month(new_year, new_month) {
            day as int
        } else {
            days_in_month(new_year, new_month)
        };
        if total < i32::MIN || new_year < MIN_YEAR || new_year > MAX_YEAR {
            None
        } else {
            Some((new_year as i32, new_month as u32, new_day as u32))
        }
    }
}

/// `months` months before `date` (`chrono::NaiveDate::checked_sub_months`).
#[verifier::external_body]
fn checked_sub_months(date: &CalendarDate, months: u32) -> (earlier: Option<CalendarDate>)
    ensures
        match earlier {
            Some(e) => spec_sub_months(date.spec_year(), date.spec_month(), date.spec_day(), months)
                == Some(date_view(e)),
            None => spec_sub_months(
                date.spec_year(),
                date.spec_month(),
                date.spec_day(),
                months,
            ) is None,
        },
{
    match NaiveDate::from_ymd_opt(date.year, date.month, date.day) {
        Some(d) => match d.checked_sub_months(Months::new(months)) {
            Some(e) => Some(CalendarDate { year: e.year(), month: e.month(), day: e.day() }),
            None => None,
        },
        None => None,
    }
}

/// Today's date in UTC (`chrono::Utc::now().date_naive()`); it depends on
/// the clock, so nothing is stated of it.
#[verifier::external_body]
fn utc_today() -> (today: CalendarDate) {
    let today = Utc::now().date_naive();
    CalendarDate { year: today.year(), month: today.month(), day: today.day() }
}

/// The date `months` months before `today`, or `today` itself where that
/// is out of range.
pub open spec fn months_before(today: CalendarDate, months: u32) -> (i32, u32, u32) {
    match spec_sub_months(today.spec_year(), today.spec_month(), today.spec_day(), months) {
        Some(earlier) => earlier,
        None => date_view(today),
    }
}

/// The date `months` months before `today`, or `today` itself where that
/// is out of range.
pub fn months_before_date(today: &CalendarDate, months: u32) -> (date: CalendarDate)
    ensures
        date_view(date) == months_before(*today, months),
{
    match checked_sub_months(today, months) {
        Some(earlier) => earlier,
        None => *today,
    }
}

/// The date `months` months before today's date in UTC: what
/// `months_before_date` gives on the clock's reading.
pub fn months_ago(months: u32) -> (date: CalendarDate)
    ensures
        exists|today: CalendarDate| date_view(date) == #[trigger] months_before(today, months),
{
    let today = utc_today();
    let date = months_before_date(&today, months);
    assert(date_view(date) == months_before(today, months));
    date
}

/// The default cutoff of a scan: six months ago.
pub fn default_scan_since() -> (date: CalendarDate)
    ensures
        exists|today: CalendarDate| date_view(date) == #[trigger] months_before(today, 6),
{
    months_ago(6)
}

/// The default cutoff of a trace: twelve months ago.
pub fn default_trace_since() -> (date: CalendarDate)
    ensures
        exists|today: CalendarDate| date_view(date) == #[trigger] months_before(today, 12),
{
    months_ago(12)
}

} // verus!
