//! Calendar dates, with chrono doing the calendar work.

use vstd::prelude::*;

verus! {

/// Earliest year chrono's `NaiveDate` represents.
pub const MIN_YEAR: i32 = -262143;

/// Latest year chrono's `NaiveDate` represents.
pub const MAX_YEAR: i32 = 262142;

/// Header line of a timesheet, as a chrono pattern.
pub const DATE_FORMAT_TIMESHEET: &'static str = "Timesheet for %Y-%m-%d";

/// Date part of the per-day file names.
pub const DATE_FORMAT_DATABASE: &'static str = "%Y_%m_%d__%b_%A";

/// Date as shown to the user.
pub const DATE_FORMAT_DISPLAY: &'static str = "%A %e. %b (%d.%m.%Y)";

/// A day of the proleptic Gregorian calendar.
#[derive(Debug, Clone, Copy, PartialEq, Eq, Structural, Hash)]
pub struct Date {
    pub year: i32,
    pub month: u32,
    pub day: u32,
}

pub open spec fn is_leap_year(year: int) -> bool {
    year % 4 == 0 && (year % 100 != 0 || year % 400 == 0)
}

pub open spec fn days_in_month(year: int, month: int) -> int {
    if month == 2 {
        if is_leap_year(year) { 29 } else { 28 }
    } else if month == 4 || month == 6 || month == 9 || month == 11 {
        30
    } else {
        31
    }
}

/// Whether year, month and day name a day that chrono can represent.
pub open spec fn date_exists(year: int, month: int, day: int) -> bool {
    &&& MIN_YEAR <= year <= MAX_YEAR
    &&& 1 <= month <= 12
    &&& 1 <= day <= days_in_month(year, month)
}

/// The patterns this library hands to chrono.
pub open spec fn date_pattern(pattern: Seq<char>) -> bool {
    pattern == "Timesheet for %Y-%m-%d"@ || pattern == "%Y_%m_%d__%b_%A"@ || pattern
        == "%A %e. %b (%d.%m.%Y)"@
}

/// chrono's rendering of a date with a strftime pattern.
pub uninterp spec fn formatted_date(year: int, month: int, day: int, pattern: Seq<char>) -> Seq<
    char,
>;

/// chrono's reading of a date from text with a strftime pattern.
pub uninterp spec fn parsed_date(text: Seq<char>, pattern: Seq<char>) -> Option<(int, int, int)>;

fn leap_year(year: i32) -> (r: bool)
    ensures
        r == is_leap_year(year as int),
{
    let y = year as i64;
    let four = y % 4 == 0;
    let hundred = y % 100 == 0;
    let four_hundred = y % 400 == 0;
    four && (!hundred || four_hundred)
}

fn month_length(year: i32, month: u32) -> (r: u32)
    ensures
        r == days_in_month(year as int, month as int),
{
    if month == 2 {
        if leap_year(year) {
            29
        } else {
            28
        }
    } else if month == 4 || month == 6 || month == 9 || month == 11 {
        30
    } else {
        31
    }
}

/// Whether year, month and day name a day of the calendar within chrono's
/// year bounds.
pub fn calendar_date_exists(year: i32, month: u32, day: u32) -> (r: bool)
    ensures
        r == date_exists(year as int, month as int, day as int),
{
    MIN_YEAR <= year && year <= MAX_YEAR && 1 <= month && month <= 12 && 1 <= day && day
        <= month_length(year, month)
}

/// Relies on chrono's `NaiveDate::format`: the text depends on the date and
/// the pattern alone (English month and weekday names).
#[verifier::external_body]
fn format_calendar_date(date: &Date, pattern: &str) -> (r: String)
    requires
        date.wf(),
        date_pattern(pattern@),
    ensures
        r@ == formatted_date(date.year as int, date.month as int, date.day as int, pattern@),
{
    chrono::NaiveDate::from_ymd_opt(date.year, date.month, date.day).unwrap().format(
        pattern,
    ).to_string()
}

/// Relies on chrono's `NaiveDate::parse_from_str`: the result depends on the
/// text and the pattern alone, and every date it yields exists.
#[verifier::external_body]
fn parse_calendar_date(text: &str, pattern: &str) -> (r: Option<Date>)
    requires
        date_pattern(pattern@),
    ensures
        match r {
            Some(d) => d.wf() && parsed_date(text@, pattern@) == Some(
                (d.year as int, d.month as int, d.day as int),
            ),
            None => parsed_date(text@, pattern@) is None,
        },
{
    chrono::NaiveDate::parse_from_str(text, pattern).ok().map(
        |d|
            Date {
                year: chrono::Datelike::year(&d),
                month: chrono::Datelike::month(&d),
                day: chrono::Datelike::day(&d),
            },
    )
}

impl Date {
    /// The date exists in the calendar.
    pub open spec fn wf(self) -> bool {
        date_exists(self.year as int, self.month as int, self.day as int)
    }

    /// The date, where it exists in the calendar.
    pub fn new(year: i32, month: u32, day: u32) -> (r: Option<Date>)
        ensures
            date_exists(year as int, month as int, day as int) ==> r == Some(
                Date { year, month, day },
            ),
            !date_exists(year as int, month as int, day as int) ==> r is None,
    {
        if calendar_date_exists(year, month, day) {
            Some(Date { year, month, day })
        } else {
            None
        }
    }

    /// chrono's rendering of the date with one of this library's patterns.
    pub open spec fn formatted(self, pattern: Seq<char>) -> Seq<char> {
        formatted_date(self.year as int, self.month as int, self.day as int, pattern)
    }

    /// The date rendered with `pattern`, one of this library's patterns.
    pub fn format(&self, pattern: &str) -> (r: String)
        requires
            self.wf(),
            date_pattern(pattern@),
        ensures
            r@ == self.formatted(pattern@),
    {
        format_calendar_date(self, pattern)
    }

    /// Reads a date from `text` with one of this library's patterns.
    pub fn parse(text: &str, pattern: &str) -> (r: Option<Date>)
        requires
            date_pattern(pattern@),
        ensures
            match r {
                Some(d) => d.wf() && parsed_date(text@, pattern@) == Some(
                    (d.year as int, d.month as int, d.day as int),
                ),
                None => parsed_date(text@, pattern@) is None,
            },
    {
        parse_calendar_date(text, pattern)
    }
}

} // verus!
