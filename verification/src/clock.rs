//! The clock and the calendar, from chrono.

use vstd::prelude::*;
use chrono::{Datelike, NaiveDate, Utc};

verus! {

/// Day number of the earliest date chrono represents (January 1, 262144 BCE).
pub const MIN_DAY: i32 = -95746129;

/// Day number of the latest date chrono represents (December 31, 262142 CE).
pub const MAX_DAY: i32 = 95745399;

/// A day number that names a date of the calendar.
pub open spec fn valid_day(day: int) -> bool {
    MIN_DAY <= day <= MAX_DAY
}

/// The current time, in microseconds since the Unix epoch
/// (`Utc::now().timestamp_micros()`). Nothing is promised of the value: it
/// comes from the system clock.
#[verifier::external_body]
pub fn now_micros() -> i64 {
    Utc::now().timestamp_micros()
}

/// Today's date in UTC as a day number (`Utc::now().date_naive()` counted
/// from 0001-01-01 as day 1). The clock decides which day; the day is one
/// that chrono represents.
#[verifier::external_body]
pub fn today_day() -> (d: i32)
    ensures
        valid_day(d as int),
{
    Utc::now().date_naive().num_days_from_ce()
}

/// The ISO 8601 text (`YYYY-MM-DD`) of a date given by its day number: what
/// chrono's `Display` for `NaiveDate` writes.
pub uninterp spec fn iso_date_text(day: int) -> Seq<char>;

/// Renders a date (`NaiveDate::from_num_days_from_ce_opt(day)` shown with
/// `to_string`). Claims that the text is `iso_date_text(day)`.
#[verifier::external_body]
pub fn date_text(day: i32) -> (s: String)
    requires
        valid_day(day as int),
    ensures
        s@ == iso_date_text(day as int),
{
    NaiveDate::from_num_days_from_ce_opt(day).unwrap().to_string()
}

/// The day number of the date that `NaiveDate::parse_from_str(text, "%Y-%m-%d")`
/// reads, or `None` where that parse fails.
pub uninterp spec fn parsed_iso_date(text: Seq<char>) -> Option<int>;

/// Parses a `YYYY-MM-DD` date (`NaiveDate::parse_from_str` with that format,
/// then `num_days_from_ce`). Claims that the outcome is `parsed_iso_date(text)`
/// and that a parsed date is one chrono represents.
#[verifier::external_body]
pub fn parse_date(text: &str) -> (r: Option<i32>)
    ensures
        match r {
            Some(d) => parsed_iso_date(text@) == Some(d as int) && valid_day(d as int),
            None => parsed_iso_date(text@) is None,
        },
{
    match NaiveDate::parse_from_str(text, "%Y-%m-%d") {
        Ok(d) => Some(d.num_days_from_ce()),
        Err(_) => None,
    }
}

} // verus!
