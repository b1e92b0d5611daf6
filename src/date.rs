//! Calendar dates held as day numbers of the proleptic Gregorian calendar.

use chrono::{Datelike, NaiveDate};
use vstd::prelude::*;

verus! {

/// The first year that a date can fall in.
pub const MIN_YEAR: i32 = -262143;

/// The last year that a date can fall in.
pub const MAX_YEAR: i32 = 262142;

/// Day number of January 1 of `MIN_YEAR`.
pub const MIN_DAY: i32 = -95746129;

/// Day number of December 31 of `MAX_YEAR`.
pub const MAX_DAY: i32 = 95745399;

pub open spec fn is_leap_year(y: int) -> bool {
    y % 4 == 0 && (y % 100 != 0 || y % 400 == 0)
}

pub open spec fn days_in_month(y: int, m: int) -> int {
    if m == 2 {
        if is_leap_year(y) { 29 } else { 28 }
    } else if m == 4 || m == 6 || m == 9 || m == 11 {
        30
    } else {
        31
    }
}

pub open spec fn days_before_month(y: int, m: int) -> int
    decreases m,
{
    if m <= 1 { 0 } else { days_before_month(y, m - 1) + days_in_month(y, m - 1) }
}

/// Number of the last day of year `y - 1`; January 1 of year 1 is day 1.
pub open spec fn days_before_year(y: int) -> int {
    let p = y - 1;
    p * 365 + p / 4 - p / 100 + p / 400
}

pub open spec fn is_valid_ymd(y: int, m: int, d: int) -> bool {
    MIN_YEAR <= y <= MAX_YEAR && 1 <= m <= 12 && 1 <= d <= days_in_month(y, m)
}

/// The day number of the calendar date `y`-`m`-`d`.
pub open spec fn day_number(y: int, m: int, d: int) -> int {
    days_before_year(y) + days_before_month(y, m) + d
}

/// Whether day number `n` falls in year `y`.
pub open spec fn day_in_year(n: int, y: int) -> bool {
    days_before_year(y) < n <= days_before_year(y + 1)
}

pub open spec fn day_in_range(n: int) -> bool {
    MIN_DAY <= n <= MAX_DAY
}

/// A later year starts no earlier than the end of an earlier one.
pub proof fn lemma_years_ordered(a: int, b: int)
    requires
        a < b,
    ensures
        days_before_year(a + 1) <= days_before_year(b),
    decreases b - a,
{
    if a + 1 < b {
        lemma_years_ordered(a + 1, b);
        lemma_year_grows(a + 1);
    }
}

proof fn lemma_year_grows(y: int)
    ensures
        days_before_year(y) < days_before_year(y + 1),
{
    let p = y - 1;
    assert(p / 4 <= (p + 1) / 4) by (nonlinear_arith);
    assert((p + 1) / 100 <= p / 100 + 1) by (nonlinear_arith);
    assert(p / 400 <= (p + 1) / 400) by (nonlinear_arith);
}

proof fn lemma_year_length(y: int)
    ensures
        days_before_year(y + 1) - days_before_year(y) == if is_leap_year(y) { 366int } else { 365 },
{
    let p = y - 1;
    assert((p + 1) / 4 - p / 4 == if (p + 1) % 4 == 0 { 1int } else { 0 });
    assert((p + 1) / 100 - p / 100 == if (p + 1) % 100 == 0 { 1int } else { 0 });
    assert((p + 1) / 400 - p / 400 == if (p + 1) % 400 == 0 { 1int } else { 0 });
    assert(y % 100 == 0 ==> y % 4 == 0);
    assert(y % 400 == 0 ==> y % 100 == 0);
}

/// A valid date falls in its own year.
pub proof fn lemma_date_in_year(y: int, m: int, d: int)
    requires
        1 <= m <= 12,
        1 <= d <= days_in_month(y, m),
    ensures
        day_in_year(day_number(y, m, d), y),
{
    lemma_year_length(y);
    reveal_with_fuel(days_before_month, 13);
    assert(days_before_month(y, m) + days_in_month(y, m) <= if is_leap_year(y) { 366int } else { 365 });
}

/// A day falls in one year only.
pub proof fn lemma_one_year(n: int, y1: int, y2: int)
    requires
        day_in_year(n, y1),
        day_in_year(n, y2),
    ensures
        y1 == y2,
{
    if y1 < y2 {
        lemma_years_ordered(y1, y2);
    } else if y2 < y1 {
        lemma_years_ordered(y2, y1);
    }
}

/// The text of a date as the day, the month and the year, each with dots between.
pub uninterp spec fn date_text(n: int) -> Seq<char>;

/// A calendar date.
#[derive(Clone, Copy, Debug, PartialEq, Eq, PartialOrd, Ord, Hash)]
pub struct Date {
    days: i32,
}

impl Date {
    #[verifier::type_invariant]
    spec fn inv(self) -> bool {
        day_in_range(self.days as int)
    }

    /// The day number of this date (January 1 of year 1 is day 1).
    pub closed spec fn day(self) -> int {
        self.days as int
    }

    /// The date `year`-`month`-`day`, or `None` where no such date exists.
    pub fn from_ymd(year: i32, month: u32, day: u32) -> (r: Option<Date>)
        ensures
            r.is_some() == is_valid_ymd(year as int, month as int, day as int),
            r.is_some() ==> r.unwrap().day() == day_number(year as int, month as int, day as int),
    {
        match ymd_to_days(year, month, day) {
            Some(days) => Some(Date { days }),
            None => None,
        }
    }

    pub fn days_from_ce(&self) -> (r: i32)
        ensures
            r as int == self.day(),
            day_in_range(r as int),
    {
        proof { use_type_invariant(self); }
        self.days
    }

    /// The year this date falls in.
    pub fn year(&self) -> (r: i32)
        ensures
            day_in_year(self.day(), r as int),
            MIN_YEAR <= r <= MAX_YEAR,
    {
        proof { use_type_invariant(self); }
        days_to_year(self.days)
    }

    /// The day before this one.
    pub fn pred(&self) -> (r: Date)
        requires
            self.day() > MIN_DAY,
        ensures
            r.day() == self.day() - 1,
    {
        proof { use_type_invariant(self); }
        Date { days: self.days - 1 }
    }

    /// The day after this one.
    pub fn succ(&self) -> (r: Date)
        requires
            self.day() < MAX_DAY,
        ensures
            r.day() == self.day() + 1,
    {
        proof { use_type_invariant(self); }
        Date { days: self.days + 1 }
    }

    pub fn is_before(&self, other: &Date) -> (r: bool)
        ensures
            r == (self.day() < other.day()),
    {
        self.days < other.days
    }

    pub fn same_as(&self, other: &Date) -> (r: bool)
        ensures
            r == (self.day() == other.day()),
            r == (*self == *other),
    {
        self.days == other.days
    }

    /// The date as day, month and year with dots between (`31.12.2021`).
    pub fn format(&self) -> (r: String)
        ensures
            r@ == date_text(self.day()),
    {
        proof { use_type_invariant(self); }
        days_to_text(self.days)
    }
}

/// Relies on chrono's `NaiveDate::from_ymd_opt` and `Datelike::num_days_from_ce`:
/// a date exists exactly for a valid month and day of the proleptic Gregorian
/// calendar in a year of chrono's range, and it is numbered with January 1 of
/// year 1 as day 1.
#[verifier::external_body]
fn ymd_to_days(year: i32, month: u32, day: u32) -> (r: Option<i32>)
    ensures
        r.is_some() == is_valid_ymd(year as int, month as int, day as int),
        r.is_some() ==> r.unwrap() as int == day_number(year as int, month as int, day as int),
        r.is_some() ==> day_in_range(r.unwrap() as int),
{
    match NaiveDate::from_ymd_opt(year, month, day) {
        Some(date) => Some(date.num_days_from_ce()),
        None => None,
    }
}

/// Relies on chrono's `NaiveDate::from_num_days_from_ce_opt` and `Datelike::year`:
/// the year that a day number falls in.
#[verifier::external_body]
fn days_to_year(days: i32) -> (r: i32)
    requires
        day_in_range(days as int),
    ensures
        day_in_year(days as int, r as int),
        MIN_YEAR <= r <= MAX_YEAR,
{
    match NaiveDate::from_num_days_from_ce_opt(days) {
        Some(date) => date.year(),
        None => 0,
    }
}

/// Relies on chrono's `NaiveDate::format` with `%d.%m.%Y`: the text depends on
/// the date alone.
#[verifier::external_body]
fn days_to_text(days: i32) -> (r: String)
    requires
        day_in_range(days as int),
    ensures
        r@ == date_text(days as int),
{
    match NaiveDate::from_num_days_from_ce_opt(days) {
        Some(date) => date.format("%d.%m.%Y").to_string(),
        None => String::new(),
    }
}

} // verus!
