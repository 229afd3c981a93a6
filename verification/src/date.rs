use vstd::prelude::*;

use crate::column::{DAY_MAX, DAY_MIN};

verus! {

/// Leap years of the proleptic Gregorian calendar.
pub open spec fn is_leap_year(y: int) -> bool {
    y % 4 == 0 && (y % 100 != 0 || y % 400 == 0)
}

pub open spec fn year_length(y: int) -> int {
    if is_leap_year(y) {
        366
    } else {
        365
    }
}

pub open spec fn days_in_month(y: int, m: int) -> int {
    if m == 2 {
        if is_leap_year(y) {
            29
        } else {
            28
        }
    } else if m == 4 || m == 6 || m == 9 || m == 11 {
        30
    } else {
        31
    }
}

/// A calendar date with a four-digit year.
pub open spec fn valid_date(y: int, m: int, d: int) -> bool {
    0 <= y <= 9999 && 1 <= m <= 12 && 1 <= d <= days_in_month(y, m)
}

/// Days from 1970-01-01 to the first day of year `y`; negative before 1970.
pub open spec fn days_before_year(y: int) -> int
    decreases (if y >= 1970 { y - 1970 } else { 1970 - y }),
{
    if y > 1970 {
        days_before_year(y - 1) + year_length(y - 1)
    } else if y < 1970 {
        days_before_year(y + 1) - year_length(y)
    } else {
        0
    }
}

/// Days from the first day of year `y` to the first day of its month `m`.
pub open spec fn days_before_month(y: int, m: int) -> int
    decreases m,
{
    if m <= 1 {
        0
    } else {
        days_before_month(y, m - 1) + days_in_month(y, m - 1)
    }
}

/// The day number of a date: days since 1970-01-01 in the proleptic
/// Gregorian calendar. This is the value a `Cell::Date` holds.
pub open spec fn day_number(y: int, m: int, d: int) -> int {
    days_before_year(y) + days_before_month(y, m) + (d - 1)
}

pub proof fn lemma_days_before_year_bounds(y: int)
    requires
        0 <= y <= 10000,
    ensures
        y >= 1970 ==> 0 <= days_before_year(y) <= 366 * (y - 1970),
        y < 1970 ==> -366 * (1970 - y) <= days_before_year(y) <= 0,
    decreases (if y >= 1970 { y - 1970 } else { 1970 - y }),
{
    if y > 1970 {
        lemma_days_before_year_bounds(y - 1);
    } else if y < 1970 {
        lemma_days_before_year_bounds(y + 1);
    }
}

pub proof fn lemma_days_before_month_bounds(y: int, m: int)
    requires
        1 <= m <= 13,
    ensures
        0 <= days_before_month(y, m) <= 31 * (m - 1),
    decreases m,
{
    if m > 1 {
        lemma_days_before_month_bounds(y, m - 1);
    }
}

/// Day numbers of dates with four-digit years stay inside the range that
/// well-formed date cells promise.
pub proof fn lemma_day_number_bounds(y: int, m: int, d: int)
    requires
        valid_date(y, m, d),
    ensures
        DAY_MIN <= day_number(y, m, d) <= DAY_MAX,
{
    lemma_days_before_year_bounds(y);
    lemma_days_before_month_bounds(y, m);
}

fn year_length_exec(y: i64) -> (r: i64)
    requires
        0 <= y,
    ensures
        r == year_length(y as int),
{
    if y % 4 == 0 && (y % 100 != 0 || y % 400 == 0) {
        366
    } else {
        365
    }
}

fn days_in_month_exec(y: i64, m: i64) -> (r: i64)
    requires
        0 <= y,
        1 <= m <= 12,
    ensures
        r == days_in_month(y as int, m as int),
{
    if m == 2 {
        if y % 4 == 0 && (y % 100 != 0 || y % 400 == 0) {
            29
        } else {
            28
        }
    } else if m == 4 || m == 6 || m == 9 || m == 11 {
        30
    } else {
        31
    }
}

fn days_before_year_exec(y: i64) -> (r: i64)
    requires
        0 <= y <= 9999,
    ensures
        r == days_before_year(y as int),
{
    let mut yr: i64 = 1970;
    let mut acc: i64 = 0;
    if y >= 1970 {
        while yr < y
            invariant
                1970 <= yr <= y <= 9999,
                acc == days_before_year(yr as int),
                0 <= acc <= 366 * (yr - 1970),
            decreases y - yr,
        {
            acc = acc + year_length_exec(yr);
            yr = yr + 1;
        }
    } else {
        while yr > y
            invariant
                0 <= y <= yr <= 1970,
                acc == days_before_year(yr as int),
                -366 * (1970 - yr) <= acc <= 0,
            decreases yr - y,
        {
            yr = yr - 1;
            acc = acc - year_length_exec(yr);
        }
    }
    acc
}

/// The day number of a valid date.
pub fn day_number_from_ymd(y: i64, m: i64, d: i64) -> (r: i64)
    requires
        valid_date(y as int, m as int, d as int),
    ensures
        r == day_number(y as int, m as int, d as int),
        DAY_MIN <= r <= DAY_MAX,
{
    proof {
        lemma_day_number_bounds(y as int, m as int, d as int);
        lemma_days_before_year_bounds(y as int);
    }
    let mut acc: i64 = days_before_year_exec(y);
    let mut mm: i64 = 1;
    while mm < m
        invariant
            0 <= y <= 9999,
            1 <= mm <= m <= 12,
            acc == days_before_year(y as int) + days_before_month(y as int, mm as int),
            -721020 <= days_before_year(y as int) <= 2938980,
        decreases m - mm,
    {
        proof {
            lemma_days_before_month_bounds(y as int, mm as int + 1);
        }
        acc = acc + days_in_month_exec(y, mm);
        mm = mm + 1;
    }
    acc + (d - 1)
}

pub open spec fn is_digit(b: u8) -> bool {
    48 <= b <= 57
}

pub open spec fn digit_val(b: u8) -> int {
    b as int - 48
}

/// The text is exactly `DD.MM.YYYY`: two digits, a dot, two digits, a dot,
/// four digits, naming a valid calendar date.
pub open spec fn date_text_wf(s: Seq<u8>) -> bool {
    &&& s.len() == 10
    &&& is_digit(s[0]) && is_digit(s[1])
    &&& s[2] == 46u8
    &&& is_digit(s[3]) && is_digit(s[4])
    &&& s[5] == 46u8
    &&& is_digit(s[6]) && is_digit(s[7]) && is_digit(s[8]) && is_digit(s[9])
    &&& valid_date(date_text_year(s), date_text_month(s), date_text_day(s))
}

pub open spec fn date_text_day(s: Seq<u8>) -> int {
    digit_val(s[0]) * 10 + digit_val(s[1])
}

pub open spec fn date_text_month(s: Seq<u8>) -> int {
    digit_val(s[3]) * 10 + digit_val(s[4])
}

pub open spec fn date_text_year(s: Seq<u8>) -> int {
    digit_val(s[6]) * 1000 + digit_val(s[7]) * 100 + digit_val(s[8]) * 10 + digit_val(s[9])
}

/// What a date cell's text denotes: the day number of the date it spells
/// in `DD.MM.YYYY` form, or nothing if it does not spell one.
pub open spec fn parse_date_spec(s: Seq<u8>) -> Option<int> {
    if date_text_wf(s) {
        Some(day_number(date_text_year(s), date_text_month(s), date_text_day(s)))
    } else {
        None
    }
}

fn is_digit_exec(b: u8) -> (r: bool)
    ensures
        r == is_digit(b),
{
    48 <= b && b <= 57
}

/// Parses `DD.MM.YYYY` text into a day number; `None` for anything else.
pub fn parse_date(s: &[u8]) -> (r: Option<i64>)
    ensures
        match r {
            Some(d) => parse_date_spec(s@) == Some(d as int) && DAY_MIN <= d <= DAY_MAX,
            None => parse_date_spec(s@) is None,
        },
{
    if s.len() != 10 {
        return None;
    }
    if !(is_digit_exec(s[0]) && is_digit_exec(s[1]) && s[2] == 46 && is_digit_exec(s[3])
        && is_digit_exec(s[4]) && s[5] == 46 && is_digit_exec(s[6]) && is_digit_exec(s[7])
        && is_digit_exec(s[8]) && is_digit_exec(s[9])) {
        return None;
    }
    let day: i64 = (s[0] as i64 - 48) * 10 + (s[1] as i64 - 48);
    let month: i64 = (s[3] as i64 - 48) * 10 + (s[4] as i64 - 48);
    let year: i64 = (s[6] as i64 - 48) * 1000 + (s[7] as i64 - 48) * 100 + (s[8] as i64 - 48) * 10
        + (s[9] as i64 - 48);
    if !(1 <= month && month <= 12) {
        return None;
    }
    if !(1 <= day && day <= days_in_month_exec(year, month)) {
        return None;
    }
    Some(day_number_from_ymd(year, month, day))
}

} // verus!
