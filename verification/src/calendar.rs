//! The Gregorian calendar.

use crate::text::chars_of;
use chrono::{Datelike, NaiveDate};
use vstd::prelude::*;

verus! {

/// Whether `year` has a 29th of February.
pub open spec fn leap(year: int) -> bool {
    year % 4 == 0 && (year % 100 != 0 || year % 400 == 0)
}

/// The last day of a month; zero where there is no such month.
pub open spec fn last_day(year: int, month: int) -> int {
    if month == 2 {
        if leap(year) {
            29
        } else {
            28
        }
    } else if month == 4 || month == 6 || month == 9 || month == 11 {
        30
    } else if 1 <= month <= 12 {
        31
    } else {
        0
    }
}

/// Whether the calendar has this day.
pub open spec fn is_day(year: int, month: int, day: int) -> bool {
    1 <= day <= last_day(year, month)
}

/// Whether `c` is a decimal digit.
pub open spec fn is_digit(c: char) -> bool {
    '0' <= c <= '9'
}

/// The value of a decimal digit.
pub open spec fn digit_value(c: char) -> int {
    c as int - '0' as int
}

/// The number that two digits spell.
pub open spec fn two_digits(s: Seq<char>, at: int) -> int {
    10 * digit_value(s[at]) + digit_value(s[at + 1])
}

/// Whether `s` is a day of the calendar, written YYYY-MM-DD.
pub open spec fn iso_date(s: Seq<char>) -> bool {
    &&& s.len() == 10
    &&& s[4] == '-'
    &&& s[7] == '-'
    &&& forall|i: int| 0 <= i < 10 && i != 4 && i != 7 ==> is_digit(#[trigger] s[i])
    &&& is_day(100 * two_digits(s, 0) + two_digits(s, 2), two_digits(s, 5), two_digits(s, 8))
}

fn days_in_month(year: u32, month: u32) -> (r: u32)
    ensures
        r == last_day(year as int, month as int),
{
    if month == 2 {
        if year % 4 == 0 && (year % 100 != 0 || year % 400 == 0) {
            29
        } else {
            28
        }
    } else if month == 4 || month == 6 || month == 9 || month == 11 {
        30
    } else if 1 <= month && month <= 12 {
        31
    } else {
        0
    }
}

fn digits_at(chars: &Vec<char>, at: usize) -> (r: Option<u32>)
    requires
        at + 1 < chars.len(),
    ensures
        match r {
            Some(n) => is_digit(chars@[at as int]) && is_digit(chars@[at + 1]) && n == two_digits(
                chars@,
                at as int,
            ) && n <= 99,
            None => !is_digit(chars@[at as int]) || !is_digit(chars@[at + 1]),
        },
{
    let tens = chars[at];
    let ones = chars[at + 1];
    if '0' <= tens && tens <= '9' && '0' <= ones && ones <= '9' {
        Some((tens as u32 - 48) * 10 + (ones as u32 - 48))
    } else {
        None
    }
}

/// Whether `date` is a day of the calendar, written YYYY-MM-DD.
pub fn is_iso_date(date: &str) -> (r: bool)
    ensures
        r == iso_date(date@),
{
    let chars = chars_of(date);
    if chars.len() != 10 || chars[4] != '-' || chars[7] != '-' {
        return false;
    }
    match (
        digits_at(&chars, 0),
        digits_at(&chars, 2),
        digits_at(&chars, 5),
        digits_at(&chars, 8),
    ) {
        (Some(century), Some(rest), Some(month), Some(day)) => {
            let last: u32 = days_in_month(century * 100 + rest, month);
            1 <= day && day <= last
        },
        _ => false,
    }
}

// ---------------------------------------------------------------------------
// Dates
// ---------------------------------------------------------------------------

/// The first year that a date can be in.
pub const MIN_YEAR: i32 = -262143;

/// The last year that a date can be in.
pub const MAX_YEAR: i32 = 262142;

/// A day of the calendar.
pub struct Day {
    pub year: int,
    pub month: int,
    pub day: int,
}

impl Day {
    /// Whether the calendar has this day, within the years that dates cover.
    pub open spec fn valid(self) -> bool {
        MIN_YEAR <= self.year <= MAX_YEAR && is_day(self.year, self.month, self.day)
    }

    /// Whether this day comes before another.
    pub open spec fn before(self, other: Day) -> bool {
        self.year < other.year || (self.year == other.year && (self.month < other.month || (
        self.month == other.month && self.day < other.day)))
    }

    /// The day after; none after the last day that dates cover.
    pub open spec fn next(self) -> Option<Day> {
        if self.day < last_day(self.year, self.month) {
            Some(Day { day: self.day + 1, ..self })
        } else if self.month < 12 {
            Some(Day { month: self.month + 1, day: 1, ..self })
        } else if self.year < MAX_YEAR {
            Some(Day { year: self.year + 1, month: 1, day: 1 })
        } else {
            None
        }
    }
}

/// A date: a day of the calendar in the years that dates cover.
#[derive(Debug, Clone, Copy, PartialEq, Eq)]
pub struct Date {
    year: i32,
    month: u32,
    day: u32,
}

impl View for Date {
    type V = Day;

    closed spec fn view(&self) -> Day {
        Day { year: self.year as int, month: self.month as int, day: self.day as int }
    }
}

/// The contents of a date that may be missing.
pub open spec fn day_option(d: Option<Date>) -> Option<Day> {
    match d {
        Some(d) => Some(d@),
        None => None,
    }
}

/// `NaiveDate::succ_opt` of chrono: the day after, and `None` after the last
/// day that chrono represents, December 31 of the year 262142. The fields go in
/// through `NaiveDate::from_ymd_opt`, which takes every day of the calendar from
/// the year -262143 to the year 262142, and come out through `Datelike`.
#[verifier::external_body]
fn chrono_succ(year: i32, month: u32, day: u32) -> (r: Option<(i32, u32, u32)>)
    requires
        (Day { year: year as int, month: month as int, day: day as int }).valid(),
    ensures
        match r {
            Some((y, m, d)) => (Day {
                year: year as int,
                month: month as int,
                day: day as int,
            }).next() == Some(Day { year: y as int, month: m as int, day: d as int }),
            None => (Day { year: year as int, month: month as int, day: day as int }).next() is None,
        },
{
    NaiveDate::from_ymd_opt(year, month, day)?.succ_opt().map(|n| (n.year(), n.month(), n.day()))
}

impl Date {
    /// Every date is a day of the calendar.
    #[verifier::type_invariant]
    pub open spec fn on_the_calendar(self) -> bool {
        self@.valid()
    }

    /// The date with this year, month and day, where there is one.
    pub fn from_ymd_opt(year: i32, month: u32, day: u32) -> (r: Option<Self>)
        ensures
            day_option(r) == ({
                let d = Day { year: year as int, month: month as int, day: day as int };
                if d.valid() {
                    Some(d)
                } else {
                    None
                }
            }),
    {
        if year < MIN_YEAR || year > MAX_YEAR {
            return None;
        }
        let same_kind: u32 = (year + 800_000) as u32;
        assert(leap(same_kind as int) == leap(year as int));
        if 1 <= day && day <= days_in_month(same_kind, month) {
            Some(Date { year, month, day })
        } else {
            None
        }
    }

    /// The year.
    pub fn year(&self) -> (r: i32)
        ensures
            r == self@.year,
            self@.valid(),
    {
        proof {
            use_type_invariant(self);
        }
        self.year
    }

    /// The month, from 1 to 12.
    pub fn month(&self) -> (r: u32)
        ensures
            r == self@.month,
            self@.valid(),
    {
        proof {
            use_type_invariant(self);
        }
        self.month
    }

    /// The day of the month, from 1.
    pub fn day(&self) -> (r: u32)
        ensures
            r == self@.day,
            self@.valid(),
    {
        proof {
            use_type_invariant(self);
        }
        self.day
    }

    /// Whether this date comes before another.
    pub fn is_before(&self, other: &Date) -> (r: bool)
        ensures
            r == self@.before(other@),
    {
        self.year < other.year || (self.year == other.year && (self.month < other.month || (
        self.month == other.month && self.day < other.day)))
    }

    /// Whether two dates are the same day.
    pub fn same(&self, other: &Date) -> (r: bool)
        ensures
            r == (self@ == other@),
    {
        self.year == other.year && self.month == other.month && self.day == other.day
    }

    /// The day after; none after the last day that dates cover.
    pub fn succ_opt(&self) -> (r: Option<Self>)
        ensures
            day_option(r) == self@.next(),
    {
        proof {
            use_type_invariant(self);
            lemma_next_valid(self@);
        }
        match chrono_succ(self.year, self.month, self.day) {
            Some((year, month, day)) => Some(Date { year, month, day }),
            None => None,
        }
    }
}

/// The day after a day is a day, and comes after it.
pub proof fn lemma_next_valid(d: Day)
    requires
        d.valid(),
    ensures
        d.next() matches Some(n) ==> n.valid() && d.before(n),
{
}

/// Nothing lies between a day and the day after, and only the last day that
/// dates cover has none.
pub proof fn law_next_day_is_adjacent(d: Day, other: Day)
    requires
        d.valid(),
        other.valid(),
        d.before(other),
    ensures
        d.next() matches Some(n) && n.valid() && d.before(n) && (n == other || n.before(other)),
{
    assert(last_day(d.year, d.month) >= 28);
}

/// The calendar has twelve months. Every month has 28 days; all but the second have 30,
/// and seven have 31. The second has 29 in every fourth year, but of the years that end a
/// century only in every fourth.
pub proof fn law_days_of_the_calendar(year: int, month: int, day: int)
    ensures
        is_day(year, month, day) <==> 1 <= month <= 12 && 1 <= day <= 31 && {
            ||| day <= 28
            ||| day <= 30 && month != 2
            ||| month == 1 || month == 3 || month == 5 || month == 7 || month == 8 || month == 10
                || month == 12
            ||| month == 2 && day == 29 && (year % 400 == 0 || (year % 4 == 0 && year % 100 != 0))
        },
{
}

/// A year has 365 days, and a leap year one more.
pub proof fn law_days_of_a_year(year: int)
    ensures
        last_day(year, 1) + last_day(year, 2) + last_day(year, 3) + last_day(year, 4) + last_day(
            year,
            5,
        ) + last_day(year, 6) + last_day(year, 7) + last_day(year, 8) + last_day(year, 9)
            + last_day(year, 10) + last_day(year, 11) + last_day(year, 12) == 365 + if leap(year) {
            1int
        } else {
            0
        },
{
}

/// A date in text is four digits of the year, two of the month and two of the day, with
/// hyphens between them, and it is a date exactly where the calendar has that day.
pub proof fn law_date_text_is_a_day(s: Seq<char>)
    requires
        s.len() == 10,
        forall|i: int| 0 <= i < 10 && i != 4 && i != 7 ==> 48 <= #[trigger] s[i] as int <= 57,
        s[4] == '-',
        s[7] == '-',
    ensures
        iso_date(s) <==> is_day(
            1000 * (s[0] as int - 48) + 100 * (s[1] as int - 48) + 10 * (s[2] as int - 48) + (s[3] as int
                - 48),
            10 * (s[5] as int - 48) + (s[6] as int - 48),
            10 * (s[8] as int - 48) + (s[9] as int - 48),
        ),
{
    assert forall|i: int| 0 <= i < 10 && i != 4 && i != 7 implies is_digit(#[trigger] s[i]) by {
        let c = s[i];
        assert(48 <= c as int <= 57);
        assert('0' as int == 48 && '9' as int == 57);
    }
}

/// Nothing else is a date in text.
pub proof fn law_date_text_has_its_form(s: Seq<char>)
    requires
        iso_date(s),
    ensures
        s.len() == 10,
        forall|i: int| 0 <= i < 10 && i != 4 && i != 7 ==> 48 <= #[trigger] s[i] as int <= 57,
        s[4] == '-',
        s[7] == '-',
{
}

/// Days come in one order: of two different days one comes before the other, and of
/// three in a row the first comes before the last.
pub proof fn law_days_come_in_order(a: Day, b: Day, c: Day)
    ensures
        a == b <==> !a.before(b) && !b.before(a),
        !(a.before(b) && b.before(a)),
        a.before(b) && b.before(c) ==> a.before(c),
        a.year < b.year ==> a.before(b),
        a.year == b.year && a.month < b.month ==> a.before(b),
        a.year == b.year && a.month == b.month && a.day < b.day ==> a.before(b),
{
}

/// Dates cover the years from -262143 to 262142, and every day of them.
pub proof fn law_years_that_dates_cover(d: Day)
    ensures
        d.valid() <==> -262_143 <= d.year <= 262_142 && is_day(d.year, d.month, d.day),
{
}

} // verus!
