//! Dates of the proleptic Gregorian calendar, their day numbers and their
//! timestamps at midnight UTC.

use chrono::Datelike;
use chrono::NaiveDate;
use std::str::FromStr;
use vstd::prelude::*;

verus! {

/// Days from 0001-01-01 to 1970-01-01.
pub const DAYS_TO_EPOCH: i64 = 719_162;

/// Seconds in a day without a leap second.
pub const SECONDS_PER_DAY: i64 = 86_400;

/// A multiple of 400 years that lifts every `i32` year above zero.
const YEAR_SHIFT: i64 = 2_147_484_000;

/// Days in `YEAR_SHIFT` years: 146097 days in each 400 years.
const DAY_SHIFT: i64 = 784_352_424_870;

/// The leap years of the Gregorian calendar, carried back before its
/// introduction.
pub open spec fn is_leap_year(year: int) -> bool {
    year % 4 == 0 && (year % 100 != 0 || year % 400 == 0)
}

/// The length of a month in days.
pub open spec fn days_in_month(year: int, month: int) -> int {
    if month == 2 {
        if is_leap_year(year) {
            29
        } else {
            28
        }
    } else if month == 4 || month == 6 || month == 9 || month == 11 {
        30
    } else {
        31
    }
}

/// Days of `year` that lie before the first day of `month`.
pub open spec fn days_before_month(year: int, month: int) -> int
    decreases month,
{
    if month <= 1 {
        0
    } else {
        days_before_month(year, month - 1) + days_in_month(year, month - 1)
    }
}

/// Days from 0001-01-01 to the first day of `year`.
pub open spec fn days_before_year(year: int) -> int {
    let y = year - 1;
    365 * y + y / 4 - y / 100 + y / 400
}

/// Days from 1970-01-01 to the given day; negative before it.
pub open spec fn epoch_day(year: int, month: int, day: int) -> int {
    days_before_year(year) + days_before_month(year, month) + (day - 1) - 719_162
}

/// There is such a day in the calendar.
pub open spec fn valid_date(year: int, month: int, day: int) -> bool {
    1 <= month <= 12 && 1 <= day <= days_in_month(year, month)
}

/// What `NaiveDate::from_str` of chrono makes of a text: the date it reads,
/// or `None` where it reports an error.
pub uninterp spec fn parsed_date(text: Seq<char>) -> Option<CivilDate>;

/// A calendar date: year, month and day of the month.
#[derive(Clone, Copy, Debug, PartialEq, Eq, Structural)]
pub struct CivilDate {
    pub year: i32,
    pub month: u32,
    pub day: u32,
}

impl CivilDate {
    /// The day exists in the calendar.
    pub open spec fn wf(&self) -> bool {
        valid_date(self.year as int, self.month as int, self.day as int)
    }

    /// Days from 1970-01-01 to this day; negative before it.
    pub open spec fn epoch_day(&self) -> int {
        epoch_day(self.year as int, self.month as int, self.day as int)
    }

    /// Seconds from 1970-01-01T00:00:00 UTC to midnight UTC of this day.
    pub open spec fn timestamp(&self) -> int {
        86_400 * self.epoch_day()
    }

    /// Chronological order: by year, then month, then day.
    pub open spec fn precedes(&self, other: &CivilDate) -> bool {
        self.year < other.year || (self.year == other.year && (self.month < other.month || (
        self.month == other.month && self.day < other.day)))
    }

    /// The date of the given year, month and day, if there is such a day.
    pub fn new(year: i32, month: u32, day: u32) -> (r: Option<CivilDate>)
        ensures
            r == if valid_date(year as int, month as int, day as int) {
                Some(CivilDate { year, month, day })
            } else {
                None::<CivilDate>
            },
    {
        let date = CivilDate { year, month, day };
        if date.is_valid() {
            Some(date)
        } else {
            None
        }
    }

    /// True if the day exists in the calendar.
    pub fn is_valid(&self) -> (r: bool)
        ensures
            r == self.wf(),
    {
        1 <= self.month && self.month <= 12 && 1 <= self.day && self.day <= month_length(
            self.year,
            self.month,
        )
    }

    /// Reads a date as chrono does, from text such as `2020-01-02`.
    pub fn parse(text: &str) -> (r: Option<CivilDate>)
        ensures
            r == parsed_date(text@),
            r matches Some(d) ==> d.wf(),
    {
        parse_naive_date(text)
    }

    /// True if `self` is an earlier day than `other`.
    pub fn is_before(&self, other: &CivilDate) -> (r: bool)
        ensures
            r == self.precedes(other),
    {
        self.year < other.year || (self.year == other.year && (self.month < other.month || (
        self.month == other.month && self.day < other.day)))
    }

    /// Days from 1970-01-01 to this day; negative before it.
    pub fn day_number(&self) -> (n: i64)
        requires
            self.wf(),
        ensures
            n == self.epoch_day(),
            -790_000_000_000 < n < 790_000_000_000,
    {
        let shifted: i64 = self.year as i64 - 1 + YEAR_SHIFT;
        proof {
            lemma_shift_years(self.year as int - 1);
        }
        let before_year: i64 = 365 * shifted + shifted / 4 - shifted / 100 + shifted / 400
            - DAY_SHIFT;
        let before_month: i64 = days_to_month(self.year, self.month);
        before_year + before_month + (self.day as i64 - 1) - DAYS_TO_EPOCH
    }

    /// Seconds from 1970-01-01T00:00:00 UTC to midnight UTC of this day.
    pub fn midnight(&self) -> (t: i64)
        requires
            self.wf(),
        ensures
            t == self.timestamp(),
    {
        SECONDS_PER_DAY * self.day_number()
    }

    /// Whole days from `earlier` to `self`; negative if `self` is the earlier.
    pub fn days_since(&self, earlier: &CivilDate) -> (n: i64)
        requires
            self.wf(),
            earlier.wf(),
        ensures
            n == self.epoch_day() - earlier.epoch_day(),
    {
        self.day_number() - earlier.day_number()
    }
}

/// `NaiveDate::from_str` of chrono, with the date it returns taken apart by
/// `year`, `month` and `day` of `Datelike`. The result is named, not
/// described: chrono's grammar is its own. A `NaiveDate` is always a day
/// of the calendar, so the parts make a valid date.
#[verifier::external_body]
fn parse_naive_date(text: &str) -> (r: Option<CivilDate>)
    ensures
        r == parsed_date(text@),
        r matches Some(d) ==> d.wf(),
{
    match NaiveDate::from_str(text) {
        Ok(date) => Some(CivilDate { year: date.year(), month: date.month(), day: date.day() }),
        Err(_) => None,
    }
}

fn leap_year(year: i32) -> (r: bool)
    ensures
        r == is_leap_year(year as int),
{
    let shifted: i64 = year as i64 + YEAR_SHIFT;
    shifted % 4 == 0 && (shifted % 100 != 0 || shifted % 400 == 0)
}

fn month_length(year: i32, month: u32) -> (r: u32)
    ensures
        r == days_in_month(year as int, month as int),
{
    if month == 2 {
        if leap_year(year) {
            29
        } else {
            28
        }
    } else if month == 4 || month == 6 || month == 9 || month == 11 {
        30
    } else {
        31
    }
}

fn days_to_month(year: i32, month: u32) -> (r: i64)
    requires
        1 <= month <= 12,
    ensures
        r == days_before_month(year as int, month as int),
        0 <= r <= 335,
{
    proof {
        reveal_with_fuel(days_before_month, 13);
    }
    let leap: i64 = if leap_year(year) {
        1
    } else {
        0
    };
    if month == 1 {
        0
    } else if month == 2 {
        31
    } else if month == 3 {
        59 + leap
    } else if month == 4 {
        90 + leap
    } else if month == 5 {
        120 + leap
    } else if month == 6 {
        151 + leap
    } else if month == 7 {
        181 + leap
    } else if month == 8 {
        212 + leap
    } else if month == 9 {
        243 + leap
    } else if month == 10 {
        273 + leap
    } else if month == 11 {
        304 + leap
    } else {
        334 + leap
    }
}

/// Four hundred years hold 146097 days, so a shift of the year by a multiple
/// of 400 shifts the count of days by a constant.
proof fn lemma_shift_years(y: int)
    ensures
        (y + 2_147_484_000) / 4 == y / 4 + 536_871_000,
        (y + 2_147_484_000) / 100 == y / 100 + 21_474_840,
        (y + 2_147_484_000) / 400 == y / 400 + 5_368_710,
{
}

/// A year has 365 days, and one more if it is a leap year.
pub proof fn lemma_year_length(year: int)
    ensures
        days_before_year(year + 1) - days_before_year(year) == if is_leap_year(year) {
            366int
        } else {
            365int
        },
{
    let y = year - 1;
    assert((y + 1) / 4 - y / 4 == if year % 4 == 0 { 1int } else { 0int });
    assert((y + 1) / 100 - y / 100 == if year % 100 == 0 { 1int } else { 0int });
    assert((y + 1) / 400 - y / 400 == if year % 400 == 0 { 1int } else { 0int });
}

/// The twelve months fill the year.
pub proof fn lemma_months_fill_year(year: int)
    ensures
        days_before_month(year, 12) + 31 == if is_leap_year(year) {
            366int
        } else {
            365int
        },
{
    reveal_with_fuel(days_before_month, 13);
}

/// Later years begin on later days.
pub proof fn lemma_years_ascend(earlier: int, later: int)
    requires
        earlier <= later,
    ensures
        days_before_year(earlier) <= days_before_year(later),
{
}

/// Within a year a valid date falls on one of the year's days.
pub proof fn lemma_day_within_year(year: int, month: int, day: int)
    requires
        valid_date(year, month, day),
    ensures
        0 <= days_before_month(year, month) + (day - 1) < days_before_year(year + 1)
            - days_before_year(year),
{
    reveal_with_fuel(days_before_month, 13);
    lemma_year_length(year);
    lemma_months_fill_year(year);
}

/// Within a year later months begin on later days.
pub proof fn lemma_months_ascend(year: int, earlier: int, later: int)
    requires
        1 <= earlier < later <= 12,
    ensures
        days_before_month(year, earlier) + days_in_month(year, earlier) <= days_before_month(
            year,
            later,
        ),
{
    reveal_with_fuel(days_before_month, 13);
}

/// The day number keeps the order of the calendar: of two valid dates the
/// earlier one has the smaller day number.
pub proof fn lemma_epoch_day_ascends(a: CivilDate, b: CivilDate)
    requires
        a.wf(),
        b.wf(),
        a.precedes(&b),
    ensures
        a.epoch_day() < b.epoch_day(),
{
    if a.year < b.year {
        lemma_day_within_year(a.year as int, a.month as int, a.day as int);
        lemma_day_within_year(b.year as int, b.month as int, b.day as int);
        lemma_years_ascend(a.year + 1, b.year as int);
    } else if a.month < b.month {
        lemma_months_ascend(a.year as int, a.month as int, b.month as int);
    }
}

/// Two valid dates with the same day number are the same date.
pub proof fn lemma_epoch_day_distinguishes(a: CivilDate, b: CivilDate)
    requires
        a.wf(),
        b.wf(),
        a.epoch_day() == b.epoch_day(),
    ensures
        a == b,
{
    if a.precedes(&b) {
        lemma_epoch_day_ascends(a, b);
    } else if b.precedes(&a) {
        lemma_epoch_day_ascends(b, a);
    }
}

} // verus!
