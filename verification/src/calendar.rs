//! Dates and times of day in the Gregorian calendar.
//!
//! The calendar is stated here as plain arithmetic. The dates themselves are
//! computed by `chrono`, through a few functions whose contracts say, over
//! that arithmetic, what `chrono` documents.

use crate::text::digit_of;
use chrono::{Datelike, NaiveDate, TimeDelta};
use vstd::arithmetic::div_mod::{
    lemma_fundamental_div_mod, lemma_fundamental_div_mod_converse, lemma_mod_bound,
};
use vstd::prelude::*;

verus! {

/// The first year in which a date can lie.
pub const FIRST_YEAR: i32 = 1;

/// The last year in which a date can lie: the last that four digits write.
pub const LAST_YEAR: i32 = 9999;

/// The number of the last day of the last year, counted from the first day
/// of the first year as day 1.
pub const LAST_DAY_NUMBER: i32 = 3652059;

/// Whether `year` has a 29th of February.
pub open spec fn is_leap_year(year: int) -> bool {
    year % 4 == 0 && (year % 100 != 0 || year % 400 == 0)
}

/// The number of days of the given month.
pub open spec fn days_in_month(year: int, month: int) -> int {
    if month == 2 {
        if is_leap_year(year) {
            29
        } else {
            28
        }
    } else if month == 4 || month == 6 || month == 9 || month == 11 {
        30
    } else {
        31
    }
}

/// The number of days of `year` that lie before the given month.
pub open spec fn days_before_month(year: int, month: int) -> int
    decreases month,
{
    if month <= 1 {
        0
    } else {
        days_before_month(year, month - 1) + days_in_month(year, month - 1)
    }
}

/// The number of days from the first day of year 1 up to the end of the year
/// before `year`.
pub open spec fn days_before_year(year: int) -> int {
    365 * (year - 1) + (year - 1) / 4 - (year - 1) / 100 + (year - 1) / 400
}

/// A day of the calendar.
#[derive(Clone, Copy, Debug, PartialEq, Eq)]
pub struct Date {
    pub year: i32,
    /// The month, from 1 for January.
    pub month: u32,
    /// The day of the month, from 1.
    pub day: u32,
}

impl Date {
    /// Whether the month and the day exist in the year.
    pub open spec fn in_calendar(self) -> bool {
        1 <= self.month <= 12 && 1 <= self.day <= days_in_month(
            self.year as int,
            self.month as int,
        )
    }

    /// Whether the date exists and lies in the years that four digits write.
    pub open spec fn wf(self) -> bool {
        FIRST_YEAR <= self.year <= LAST_YEAR && self.in_calendar()
    }

    /// The number of the day, counted from the first of January of year 1 as
    /// day 1.
    pub open spec fn number(self) -> int {
        days_before_year(self.year as int) + days_before_month(
            self.year as int,
            self.month as int,
        ) + self.day
    }

    /// The day of the week, counted from Monday as 0. Day 1 is a Monday.
    pub open spec fn weekday(self) -> int {
        (self.number() - 1) % 7
    }

    /// The day after this one.
    pub open spec fn next(self) -> Date {
        if self.day < days_in_month(self.year as int, self.month as int) {
            Date { year: self.year, month: self.month, day: (self.day + 1) as u32 }
        } else if self.month < 12 {
            Date { year: self.year, month: (self.month + 1) as u32, day: 1 }
        } else {
            Date { year: (self.year + 1) as i32, month: 1, day: 1 }
        }
    }

    /// The day `days` days after this one; the day itself where `days` is not
    /// positive.
    pub open spec fn plus(self, days: int) -> Date
        decreases days,
    {
        if days <= 0 {
            self
        } else {
            self.plus(days - 1).next()
        }
    }

    /// Tests whether the date exists and lies in the years that four digits
    /// write.
    pub fn is_valid(&self) -> (b: bool)
        ensures
            b == self.wf(),
    {
        if self.year < FIRST_YEAR || self.year > LAST_YEAR || self.month < 1 || self.month > 12 {
            return false;
        }
        let year = self.year;
        let leap = year % 4 == 0 && (year % 100 != 0 || year % 400 == 0);
        let days: u32 = if self.month == 2 {
            if leap {
                29
            } else {
                28
            }
        } else if self.month == 4 || self.month == 6 || self.month == 9 || self.month == 11 {
            30
        } else {
            31
        };
        1 <= self.day && self.day <= days
    }
}

/// A time of day on a day of the calendar, on the clock that runs eight hours
/// ahead of UTC.
#[derive(Clone, Copy, Debug, PartialEq, Eq)]
pub struct LocalTime {
    pub date: Date,
    pub hour: u32,
    pub minute: u32,
    pub second: u32,
}

impl LocalTime {
    /// Whether the date exists and the time is a time of day.
    pub open spec fn wf(self) -> bool {
        self.date.wf() && self.hour < 24 && self.minute < 60 && self.second < 60
    }

    /// Whether the time `minutes` minutes after this one lies in the years
    /// that four digits write: the date moves on by a day for each full day
    /// that the minutes make up with the time of day, and does not pass the
    /// last day of those years.
    pub open spec fn later_in_calendar(self, minutes: int) -> bool {
        self.date.number() + (self.hour * 60 + self.minute + minutes) / 1440 <= LAST_DAY_NUMBER
    }

    /// The time `minutes` minutes after this one.
    pub open spec fn later(self, minutes: int) -> LocalTime {
        let total = self.hour * 60 + self.minute + minutes;
        LocalTime {
            date: self.date.plus(total / 1440),
            hour: ((total % 1440) / 60) as u32,
            minute: (total % 60) as u32,
            second: self.second,
        }
    }

    /// Tests whether the date exists and the time is a time of day.
    pub fn is_valid(&self) -> (b: bool)
        ensures
            b == self.wf(),
    {
        self.date.is_valid() && self.hour < 24 && self.minute < 60 && self.second < 60
    }

    /// Tests whether the time `minutes` minutes after this one lies in the
    /// years that four digits write.
    pub fn reaches(&self, minutes: u64) -> (b: bool)
        requires
            self.wf(),
        ensures
            b == self.later_in_calendar(minutes as int),
    {
        proof {
            lemma_number_bounds(self.date);
        }
        if minutes / 1440 > LAST_DAY_NUMBER as u64 {
            return false;
        }
        let number: u64 = day_count(self.date) as u64;
        let total: u64 = self.hour as u64 * 60 + self.minute as u64 + minutes;
        number + total / 1440 <= LAST_DAY_NUMBER as u64
    }
}

/// The two decimal digits of a number below a hundred.
pub open spec fn two_digits(n: int) -> Seq<char> {
    seq![digit_of((n / 10) as nat), digit_of((n % 10) as nat)]
}

/// The four decimal digits of a number below ten thousand.
pub open spec fn four_digits(n: int) -> Seq<char> {
    seq![
        digit_of((n / 1000) as nat),
        digit_of((n / 100 % 10) as nat),
        digit_of((n / 10 % 10) as nat),
        digit_of((n % 10) as nat),
    ]
}

/// The time as calendar files write it: the year in four digits, the month
/// and the day in two each, the letter `T`, then the hour, the minute and the
/// second in two digits each.
pub open spec fn stamp_text(time: LocalTime) -> Seq<char> {
    four_digits(time.date.year as int) + two_digits(time.date.month as int) + two_digits(
        time.date.day as int,
    ) + seq!['T'] + two_digits(time.hour as int) + two_digits(time.minute as int) + two_digits(
        time.second as int,
    )
}

/// One further, the remainder on division by `d` is one more and the
/// quotient stays; or the remainder was the last before `d`, and is then 0,
/// and the quotient is one more.
proof fn lemma_division_step(x: int, d: int)
    requires
        d > 0,
    ensures
        0 <= x % d < d,
        (x + 1) % d == if x % d == d - 1 {
            0
        } else {
            x % d + 1
        },
        (x + 1) / d == if x % d == d - 1 {
            x / d + 1
        } else {
            x / d
        },
{
    lemma_fundamental_div_mod(x, d);
    lemma_mod_bound(x, d);
    let q = x / d;
    let r = x % d;
    if r + 1 < d {
        assert(x + 1 == q * d + (r + 1)) by (nonlinear_arith)
            requires
                x == d * q + r,
        ;
        lemma_fundamental_div_mod_converse(x + 1, d, q, r + 1);
    } else {
        assert(x + 1 == (q + 1) * d + 0) by (nonlinear_arith)
            requires
                x == d * q + r,
                r + 1 == d,
        ;
        lemma_fundamental_div_mod_converse(x + 1, d, q + 1, 0);
    }
}

/// The year after a year has begun 365 days later, or 366 after a leap year.
pub proof fn lemma_year_length(year: int)
    ensures
        days_before_year(year + 1) == days_before_year(year) + if is_leap_year(year) {
            366int
        } else {
            365int
        },
{
    lemma_division_step(year - 1, 4);
    lemma_division_step(year - 1, 100);
    lemma_division_step(year - 1, 400);
    let by4 = year % 4 == 0;
    let by100 = year % 100 == 0;
    let by400 = year % 400 == 0;
    assert(by400 ==> by100) by {
        lemma_multiple_of_multiple(year, 100, 4);
    }
    assert(by100 ==> by4) by {
        lemma_multiple_of_multiple(year, 4, 25);
    }
}

/// A multiple of `a * b` is a multiple of `a`.
proof fn lemma_multiple_of_multiple(x: int, a: int, b: int)
    requires
        a > 0,
        b > 0,
    ensures
        x % (a * b) == 0 ==> x % a == 0,
{
    if x % (a * b) == 0 {
        assert(a * b > 0) by (nonlinear_arith)
            requires
                a > 0,
                b > 0,
        ;
        lemma_fundamental_div_mod(x, a * b);
        let q = x / (a * b);
        assert(x == (q * b) * a + 0) by (nonlinear_arith)
            requires
                x == (a * b) * q + 0,
        ;
        lemma_fundamental_div_mod_converse(x, a, q * b, 0);
    }
}

/// A later year begins later.
pub proof fn lemma_years_in_order(first: int, second: int)
    requires
        first <= second,
    ensures
        days_before_year(first) + 365 * (second - first) <= days_before_year(second),
    decreases second - first,
{
    if first < second {
        lemma_years_in_order(first, second - 1);
        lemma_year_length(second - 1);
    }
}

/// The days of a year before December, and December's own, make up the year.
proof fn lemma_months_of_year(year: int)
    ensures
        days_before_month(year, 12) + 31 == if is_leap_year(year) {
            366int
        } else {
            365int
        },
{
    reveal_with_fuel(days_before_month, 13);
}

/// No day of a year lies after the year's last.
proof fn lemma_month_in_year(year: int, month: int)
    requires
        1 <= month <= 12,
    ensures
        0 <= days_before_month(year, month),
        days_before_month(year, month) + days_in_month(year, month) <= days_before_month(year, 12)
            + 31,
    decreases 12 - month,
{
    if month < 12 {
        lemma_month_in_year(year, month + 1);
    }
    lemma_months_begin(year, month);
}

/// Every month begins on or after the first day of its year.
proof fn lemma_months_begin(year: int, month: int)
    ensures
        0 <= days_before_month(year, month),
    decreases month,
{
    if month > 1 {
        lemma_months_begin(year, month - 1);
    }
}

/// The number of a day lies among the numbers of its year.
pub proof fn lemma_number_in_year(date: Date)
    requires
        date.in_calendar(),
    ensures
        days_before_year(date.year as int) < date.number() <= days_before_year(date.year + 1),
{
    lemma_month_in_year(date.year as int, date.month as int);
    lemma_months_of_year(date.year as int);
    lemma_year_length(date.year as int);
}

/// Two different numbers with the same remainder on division by `d` lie at
/// least `d` apart.
pub proof fn lemma_same_remainder_apart(x: int, y: int, d: int)
    requires
        d > 0,
        x < y,
        x % d == y % d,
    ensures
        y - x >= d,
{
    lemma_fundamental_div_mod(x, d);
    lemma_fundamental_div_mod(y, d);
    let p = x / d;
    let q = y / d;
    assert(y - x == d * (q - p)) by (nonlinear_arith)
        requires
            x == d * p + x % d,
            y == d * q + y % d,
            x % d == y % d,
    ;
    assert(q - p >= 1) by (nonlinear_arith)
        requires
            d > 0,
            d * (q - p) > 0,
    ;
    assert(d * (q - p) >= d) by (nonlinear_arith)
        requires
            d > 0,
            q - p >= 1,
    ;
}

/// The day of the week is one of seven.
pub proof fn lemma_weekday_range(date: Date)
    ensures
        0 <= date.weekday() < 7,
{
    lemma_mod_bound(date.number() - 1, 7);
}

/// The day after a day has the next number, and falls on the next day of the
/// week: on a Monday after a Sunday.
pub proof fn lemma_next_day(date: Date)
    requires
        date.in_calendar(),
        date.year < i32::MAX,
    ensures
        date.next().in_calendar(),
        date.next().number() == date.number() + 1,
        0 <= date.weekday() < 7,
        date.next().weekday() == if date.weekday() == 6 {
            0
        } else {
            date.weekday() + 1
        },
        date.year <= date.next().year <= date.year + 1,
{
    let year = date.year as int;
    let month = date.month as int;
    if date.day < days_in_month(year, month) {
    } else if date.month < 12 {
        assert(days_before_month(year, month + 1) == days_before_month(year, month)
            + days_in_month(year, month));
    } else {
        lemma_months_of_year(year);
        lemma_year_length(year);
        assert(days_before_month(year + 1, 1) == 0);
    }
    assert(date.next().number() == date.number() + 1);
    lemma_division_step(date.number() - 1, 7);
}

/// The last day of the last year has the last number.
pub proof fn lemma_last_day()
    ensures
        (Date { year: LAST_YEAR, month: 12, day: 31 }).wf(),
        (Date { year: LAST_YEAR, month: 12, day: 31 }).number() == LAST_DAY_NUMBER,
{
    lemma_months_of_year(LAST_YEAR as int);
}

/// A time that lies some minutes after a time of day, and in the years that
/// four digits write, is a time of day on a day of those years.
pub proof fn lemma_later(time: LocalTime, minutes: int)
    requires
        time.wf(),
        0 <= minutes,
        time.later_in_calendar(minutes),
    ensures
        time.later(minutes).wf(),
{
    let total = time.hour * 60 + time.minute + minutes;
    let days = total / 1440;
    let rest = total % 1440;
    lemma_fundamental_div_mod(total, 1440);
    lemma_mod_bound(total, 1440);
    lemma_fundamental_div_mod(rest, 60);
    lemma_mod_bound(rest, 60);
    lemma_mod_bound(total, 60);
    assert(0 <= days);
    assert(0 <= rest / 60 < 24);
    lemma_number_bounds(time.date);
    lemma_plus(time.date, days);
    lemma_last_day();
    lemma_year_of_earlier(time.date.plus(days), Date { year: LAST_YEAR, month: 12, day: 31 });
}

/// The days of the years that four digits write have numbers that a machine
/// word holds.
pub proof fn lemma_number_bounds(date: Date)
    requires
        date.wf(),
    ensures
        0 < date.number() <= LAST_DAY_NUMBER,
{
    lemma_number_in_year(date);
    lemma_years_in_order(1, date.year as int);
    lemma_years_in_order(date.year + 1, 10000);
}

/// A day with a number up to that of another day lies in no later year.
pub proof fn lemma_year_of_earlier(first: Date, second: Date)
    requires
        first.in_calendar(),
        second.in_calendar(),
        first.number() <= second.number(),
    ensures
        first.year <= second.year,
{
    if first.year > second.year {
        lemma_number_in_year(first);
        lemma_number_in_year(second);
        lemma_years_in_order(second.year + 1, first.year as int);
    }
}

/// The days after a day of the calendar are days of the calendar, numbered on
/// from it, in no earlier year.
pub proof fn lemma_plus(date: Date, days: int)
    requires
        date.in_calendar(),
        0 <= days,
        date.year + days < i32::MAX,
    ensures
        date.plus(days).in_calendar(),
        date.plus(days).number() == date.number() + days,
        date.year <= date.plus(days).year <= date.year + days,
    decreases days,
{
    if days > 0 {
        lemma_plus(date, days - 1);
        lemma_next_day(date.plus(days - 1));
    }
}

/// `chrono::NaiveDate::succ_opt`: the next day of the calendar. It is the next
/// day of the month, or the first day of the next month, or of the next
/// year.
#[verifier::external_body]
pub(crate) fn next_date(date: Date) -> (next: Date)
    requires
        date.wf(),
    ensures
        next == date.next(),
{
    let day = NaiveDate::from_ymd_opt(date.year, date.month, date.day).unwrap();
    let next = day.succ_opt().unwrap();
    Date { year: next.year(), month: next.month(), day: next.day() }
}

/// `chrono::NaiveDate::weekday`, as `chrono::Weekday::num_days_from_monday`
/// counts it: the day of the week, from 0 for Monday to 6 for Sunday. The
/// first day of year 1 is a Monday, and the days of the week follow one
/// another without a gap.
#[verifier::external_body]
pub(crate) fn weekday_of(date: Date) -> (weekday: u32)
    requires
        date.wf(),
    ensures
        weekday == date.weekday(),
{
    let day = NaiveDate::from_ymd_opt(date.year, date.month, date.day).unwrap();
    day.weekday().num_days_from_monday()
}

/// `chrono::Datelike::num_days_from_ce`: the days of the calendar up to and
/// with the given one, the first of January of year 1 counted as day 1.
#[verifier::external_body]
pub(crate) fn day_count(date: Date) -> (number: i32)
    requires
        date.wf(),
    ensures
        number == date.number(),
{
    let day = NaiveDate::from_ymd_opt(date.year, date.month, date.day).unwrap();
    day.num_days_from_ce()
}

/// `chrono::NaiveDateTime::checked_add_signed` with a number of minutes: the
/// time that lies so many minutes after the given one. The seconds stay, the
/// minutes and hours run on, and each full day moves the date on by a day.
#[verifier::external_body]
pub(crate) fn time_after(time: LocalTime, minutes: u64) -> (later: LocalTime)
    requires
        time.wf(),
        time.later_in_calendar(minutes as int),
    ensures
        later == time.later(minutes as int),
{
    let date = NaiveDate::from_ymd_opt(time.date.year, time.date.month, time.date.day).unwrap();
    let start = date.and_hms_opt(time.hour, time.minute, time.second).unwrap();
    let end = start.checked_add_signed(TimeDelta::minutes(minutes as i64)).unwrap();
    LocalTime {
        date: Date { year: end.year(), month: end.month(), day: end.day() },
        hour: chrono::Timelike::hour(&end),
        minute: chrono::Timelike::minute(&end),
        second: chrono::Timelike::second(&end),
    }
}

/// `chrono::NaiveDateTime::format` with the pattern `%Y%m%dT%H%M%S`: each
/// field of the time in decimal digits, padded with zeros to its width.
#[verifier::external_body]
pub(crate) fn format_stamp(time: &LocalTime) -> (text: String)
    requires
        time.wf(),
    ensures
        text@ == stamp_text(*time),
{
    let date = NaiveDate::from_ymd_opt(time.date.year, time.date.month, time.date.day).unwrap();
    let moment = date.and_hms_opt(time.hour, time.minute, time.second).unwrap();
    moment.format("%Y%m%dT%H%M%S").to_string()
}

} // verus!
