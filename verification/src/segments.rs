//! The module's log: whose it is, and the dated segments it is kept in.
use vstd::prelude::*;
use vstd::string::*;

use crate::render::decimal_text;
use crate::service::MODULE_ID;
use crate::text::{cat, cat3, Text};
use crate::json;

verus! {

/// The id that the supervisor gave the module, where it gave one. Without it there
/// is no telling where the log belongs, and the module does not start.
pub fn supervised(id: Option<String>) -> (r: Result<String, String>)
    ensures
        match id {
            Some(s) if s@.len() > 0 => r matches Ok(t) && t@ == s@,
            _ => r matches Err(e) && e@ == "SUBC_MODULE_ID is not set"@,
        },
{
    match id {
        Some(s) => if s.as_str().is_empty() {
            Err("SUBC_MODULE_ID is not set".to_owned())
        } else {
            Ok(s)
        },
        None => Err("SUBC_MODULE_ID is not set".to_owned()),
    }
}

/// Whether a year has a day more: every fourth, of the hundredth ones only every
/// fourth.
pub open spec fn leap(year: int) -> bool {
    year % 4 == 0 && (year % 100 != 0 || year % 400 == 0)
}

/// How many days a year has.
pub open spec fn year_days(year: int) -> int {
    if leap(year) {
        366
    } else {
        365
    }
}

/// How many days a month has.
pub open spec fn month_days(year: int, month: int) -> int {
    if month == 2 {
        if leap(year) {
            29
        } else {
            28
        }
    } else if month == 4 || month == 6 || month == 9 || month == 11 {
        30
    } else {
        31
    }
}

/// How many days lie between the start of 1970 and the start of a year.
pub open spec fn days_to_year(year: int) -> int
    decreases year - 1970,
{
    if year <= 1970 {
        0
    } else {
        days_to_year(year - 1) + year_days(year - 1)
    }
}

/// How many days of a year lie before a month.
pub open spec fn days_to_month(year: int, month: int) -> int
    decreases month,
{
    if month <= 1 {
        0
    } else {
        days_to_month(year, month - 1) + month_days(year, month - 1)
    }
}

/// A day of the calendar.
#[derive(Debug, Clone, Copy, PartialEq, Eq, Structural)]
pub struct Date {
    pub year: u64,
    pub month: u64,
    pub day: u64,
}

impl Date {
    /// Whether the calendar has the day, from 1970 on.
    pub open spec fn valid(self) -> bool {
        &&& self.year >= 1970
        &&& 1 <= self.month <= 12
        &&& 1 <= self.day <= month_days(self.year as int, self.month as int)
    }

    /// How many days the date lies behind the first of January 1970.
    pub open spec fn number(self) -> int {
        days_to_year(self.year as int) + days_to_month(self.year as int, self.month as int)
            + self.day - 1
    }

    /// The date as text: year, month and day, the last two with two digits.
    pub open spec fn shown(self) -> Text {
        json::digits(self.year as nat) + "-"@ + two_digits(self.month as nat) + "-"@ + two_digits(
            self.day as nat,
        )
    }
}

/// A number with at least two digits.
pub open spec fn two_digits(n: nat) -> Text {
    if n < 10 {
        "0"@ + json::digits(n)
    } else {
        json::digits(n)
    }
}

/// The days to a year, without adding them up.
proof fn lemma_days_to_year(year: int)
    requires
        year >= 1970,
    ensures
        days_to_year(year) == 365 * (year - 1970) + ((year - 1) / 4 - 492) - ((year - 1) / 100 - 19)
            + ((year - 1) / 400 - 4),
    decreases year - 1970,
{
    if year > 1970 {
        lemma_days_to_year(year - 1);
    }
}

/// A year is as long as its months.
proof fn lemma_months(year: int)
    ensures
        forall|month: int|
            1 <= month <= 12 ==> 0 <= #[trigger] days_to_month(year, month) && days_to_month(
                year,
                month,
            ) + month_days(year, month) <= year_days(year),
        days_to_month(year, 12) + month_days(year, 12) == year_days(year),
{
    reveal_with_fuel(days_to_month, 13);
    assert forall|month: int| 1 <= month <= 12 implies 0 <= #[trigger] days_to_month(year, month)
        && days_to_month(year, month) + month_days(year, month) <= year_days(year) by {
        assert(month == 1 || month == 2 || month == 3 || month == 4 || month == 5 || month == 6
            || month == 7 || month == 8 || month == 9 || month == 10 || month == 11 || month == 12);
    }
}

proof fn lemma_years_ascend(a: int, b: int)
    requires
        1970 <= a < b,
    ensures
        days_to_year(a) + year_days(a) <= days_to_year(b),
    decreases b - a,
{
    if a + 1 < b {
        lemma_years_ascend(a, b - 1);
    }
}

proof fn lemma_months_ascend(year: int, a: int, b: int)
    requires
        1 <= a < b,
    ensures
        days_to_month(year, a) + month_days(year, a) <= days_to_month(year, b),
    decreases b - a,
{
    if a + 1 < b {
        lemma_months_ascend(year, a, b - 1);
    }
}

/// Dates go in the order of their numbers: of two different dates the one with the
/// earlier year, or else the earlier month, or else the earlier day has the smaller
/// number. So a number has one date.
pub proof fn law_dates_go_in_order(a: Date, b: Date)
    requires
        a.valid(),
        b.valid(),
    ensures
        a.number() < b.number() <==> a.year < b.year || a.year == b.year && (a.month < b.month
            || a.month == b.month && a.day < b.day),
        a.number() == b.number() <==> a == b,
{
    let (x, y) = (a.year as int, b.year as int);
    lemma_months(x);
    lemma_months(y);
    assert(0 <= days_to_month(x, a.month as int) && days_to_month(x, a.month as int) + month_days(
        x,
        a.month as int,
    ) <= year_days(x));
    assert(0 <= days_to_month(y, b.month as int) && days_to_month(y, b.month as int) + month_days(
        y,
        b.month as int,
    ) <= year_days(y));
    if x < y {
        lemma_years_ascend(x, y);
    } else if y < x {
        lemma_years_ascend(y, x);
    } else if a.month < b.month {
        lemma_months_ascend(x, a.month as int, b.month as int);
    } else if b.month < a.month {
        lemma_months_ascend(x, b.month as int, a.month as int);
    }
}

fn is_leap(year: u64) -> (r: bool)
    ensures
        r == leap(year as int),
{
    year % 4 == 0 && (year % 100 != 0 || year % 400 == 0)
}

fn year_length(year: u64) -> (r: u64)
    ensures
        r == year_days(year as int),
{
    if is_leap(year) {
        366
    } else {
        365
    }
}

fn month_length(year: u64, month: u64) -> (r: u64)
    ensures
        r == month_days(year as int, month as int),
{
    if month == 2 {
        if is_leap(year) {
            29
        } else {
            28
        }
    } else if month == 4 || month == 6 || month == 9 || month == 11 {
        30
    } else {
        31
    }
}

/// The date of a day, counted from the first of January 1970.
pub fn date_of(day: u64) -> (r: Date)
    ensures
        r.valid(),
        r.number() == day,
{
    // The calendar repeats every 400 years, which have 146,097 days.
    let cycles: u64 = day / 146_097;
    let first: u64 = 1970 + 400 * cycles;
    let mut year: u64 = first;
    let mut rest: u64 = day % 146_097;
    proof {
        lemma_days_to_year(first as int);
    }
    while rest >= year_length(year)
        invariant
            first <= year,
            first == 1970 + 400 * (day / 146_097),
            year - first + rest <= 146_097,
            day == days_to_year(year as int) + rest,
        decreases rest,
    {
        rest = rest - year_length(year);
        year = year + 1;
    }
    let mut month: u64 = 1;
    proof {
        lemma_months(year as int);
    }
    while rest >= month_length(year, month)
        invariant
            1970 <= year,
            1 <= month <= 12,
            days_to_month(year as int, month as int) + rest < year_days(year as int),
            day == days_to_year(year as int) + days_to_month(year as int, month as int) + rest,
            days_to_month(year as int, 12) + month_days(year as int, 12) == year_days(year as int),
        decreases rest,
    {
        rest = rest - month_length(year, month);
        month = month + 1;
    }
    Date { year, month, day: rest + 1 }
}

fn two_digit_text(n: u64) -> (r: String)
    ensures
        r@ == two_digits(n as nat),
{
    let digits = decimal_text(n);
    if n < 10 {
        cat("0", digits.as_str())
    } else {
        digits
    }
}

impl Date {
    /// The date as text.
    pub fn to_text(&self) -> (r: String)
        ensures
            r@ == self.shown(),
    {
        let year = decimal_text(self.year);
        let month = two_digit_text(self.month);
        let day = two_digit_text(self.day);
        cat3(cat3(year.as_str(), "-", month.as_str()).as_str(), "-", day.as_str())
    }
}

/// The file name of the log's segment for a day, counted from the first of January
/// 1970.
pub fn segment_name(day: u64) -> (r: String)
    ensures
        exists|date: Date| #[trigger]
            date.valid() && date.number() == day && r@ == MODULE_ID@ + "."@ + date.shown()
                + ".log"@,
{
    let date = date_of(day);
    let name = cat3(MODULE_ID, ".", date.to_text().as_str());
    cat(name.as_str(), ".log")
}

} // verus!
