use chrono::NaiveDate;
use histoire::dates::{
    default_scan_since, default_trace_since, months_ago, months_before_date, CalendarDate,
    MAX_YEAR, MIN_YEAR,
};
use histoire::git_ops::assemble_commit_info;
use histoire::text::{chars_of, decimal_text, parse_u32, string_of};

#[test]
fn from_ymd_accepts_exactly_the_real_days() {
    assert!(CalendarDate::from_ymd(2024, 2, 29).is_some());
    assert!(CalendarDate::from_ymd(2023, 2, 29).is_none());
    assert!(CalendarDate::from_ymd(2000, 2, 29).is_some());
    assert!(CalendarDate::from_ymd(1900, 2, 29).is_none());
    assert!(CalendarDate::from_ymd(2024, 4, 31).is_none());
    assert!(CalendarDate::from_ymd(2024, 13, 1).is_none());
    assert!(CalendarDate::from_ymd(2024, 1, 0).is_none());
    assert!(CalendarDate::from_ymd(MAX_YEAR, 12, 31).is_some());
    assert!(CalendarDate::from_ymd(MAX_YEAR + 1, 1, 1).is_none());
    assert!(CalendarDate::from_ymd(MIN_YEAR, 1, 1).is_some());
    assert!(CalendarDate::from_ymd(MIN_YEAR - 1, 12, 31).is_none());
    let d = CalendarDate::from_ymd(2021, 7, 9).unwrap();
    assert_eq!((d.year(), d.month(), d.day()), (2021, 7, 9));
}

#[test]
fn is_before_is_chronological() {
    let a = CalendarDate::from_ymd(2020, 12, 31).unwrap();
    let b = CalendarDate::from_ymd(2021, 1, 1).unwrap();
    let c = CalendarDate::from_ymd(2021, 1, 2).unwrap();
    assert!(a.is_before(&b));
    assert!(b.is_before(&c));
    assert!(!b.is_before(&a));
    assert!(!b.is_before(&b));
}

#[test]
fn to_text_writes_chrono_dates() {
    assert_eq!(CalendarDate::from_ymd(2024, 3, 5).unwrap().to_text(), "2024-03-05");
    assert_eq!(CalendarDate::from_ymd(7, 11, 30).unwrap().to_text(), "0007-11-30");
    assert_eq!(CalendarDate::from_ymd(-44, 3, 15).unwrap().to_text(), "-0044-03-15");
    assert_eq!(CalendarDate::from_ymd(12345, 1, 1).unwrap().to_text(), "+12345-01-01");
}

#[test]
fn commit_times_are_written_and_read_back_in_utc() {
    let info = assemble_commit_info(
        "c".to_string(),
        "t".to_string(),
        None,
        None,
        86_399,
        None,
        None,
        -1,
        None,
        vec![],
    );
    assert_eq!(info.authored_at.as_deref(), Some("1970-01-01T23:59:59+00:00"));
    assert_eq!(info.committed_at.as_deref(), Some("1969-12-31T23:59:59+00:00"));
    let day = info.committed_naive.expect("a valid time has a day");
    assert_eq!((day.year(), day.month(), day.day()), (1969, 12, 31));
}

#[test]
fn months_ago_is_in_the_past() {
    let now = months_ago(0);
    let six = months_ago(6);
    let twelve = months_ago(12);
    assert!(six.is_before(&now));
    assert!(twelve.is_before(&six));
    assert_eq!((default_scan_since().year(), default_scan_since().month()), (six.year(), six.month()));
    assert_eq!(default_trace_since().year(), now.year() - 1);
    assert_eq!(default_trace_since().month(), now.month());
}

#[test]
fn parse_u32_follows_str_parse() {
    let cases = ["0", "42", "+7", "4294967295", "4294967296", "", "+", "-1", "1a", "007", "99999999999"];
    for s in cases {
        let cs = chars_of(s);
        assert_eq!(parse_u32(&cs, 0, cs.len()), s.parse::<u32>().ok(), "{:?}", s);
    }
    let cs = chars_of("ab123cd");
    assert_eq!(parse_u32(&cs, 2, 5), Some(123));
    assert_eq!(string_of(&cs, 2, 5), "123");
}

#[test]
fn decimal_text_writes_numerals() {
    for n in [0u32, 7, 10, 99, 100, 4_294_967_295] {
        assert_eq!(decimal_text(n), n.to_string());
    }
}

#[test]
fn dates_agree_with_chrono() {
    let years = [MIN_YEAR - 1, MIN_YEAR, -401, -400, -100, -4, -1, 0, 1, 7, 1900, 2000, 2023, 2024, 9999, 10000, 12345, MAX_YEAR, MAX_YEAR + 1];
    for year in years {
        for month in 0..=13u32 {
            for day in [0u32, 1, 15, 28, 29, 30, 31, 32] {
                let ours = CalendarDate::from_ymd(year, month, day);
                let theirs = NaiveDate::from_ymd_opt(year, month, day);
                assert_eq!(ours.is_some(), theirs.is_some(), "{:?}", (year, month, day));
                if let (Some(a), Some(b)) = (ours, theirs) {
                    assert_eq!(a.to_text(), b.to_string());
                }
            }
        }
    }
}

#[test]
fn months_before_date_clamps_the_day_and_keeps_today_out_of_range() {
    let today = CalendarDate::from_ymd(2024, 8, 31).unwrap();
    let six = months_before_date(&today, 6);
    assert_eq!((six.year(), six.month(), six.day()), (2024, 2, 29));
    let twelve = months_before_date(&today, 12);
    assert_eq!((twelve.year(), twelve.month(), twelve.day()), (2023, 8, 31));
    let same = months_before_date(&today, 0);
    assert_eq!((same.year(), same.month(), same.day()), (2024, 8, 31));
    let early = CalendarDate::from_ymd(MIN_YEAR, 3, 15).unwrap();
    let kept = months_before_date(&early, 6);
    assert_eq!((kept.year(), kept.month(), kept.day()), (MIN_YEAR, 3, 15));
}
