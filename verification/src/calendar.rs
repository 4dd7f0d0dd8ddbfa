//! Gregorian calendar dates of Unix times, and the date-based SOA serial.

use vstd::prelude::*;

verus! {

pub open spec fn is_leap(y: int) -> bool {
    y % 4 == 0 && (y % 100 != 0 || y % 400 == 0)
}

pub open spec fn year_days(y: int) -> int {
    if is_leap(y) {
        366
    } else {
        365
    }
}

/// Days in month `m` (0 for January) of a year, leap or not.
pub open spec fn month_days(m: int, leap: bool) -> int {
    if m == 1 {
        if leap {
            29
        } else {
            28
        }
    } else if m == 3 || m == 5 || m == 8 || m == 10 {
        30
    } else {
        31
    }
}

/// The year and day of that year (from 0) that lie `rem` days after the
/// first day of year `y`.
pub open spec fn year_of(y: int, rem: int) -> (int, int)
    decreases rem,
{
    if rem < year_days(y) {
        (y, rem)
    } else {
        year_of(y + 1, rem - year_days(y))
    }
}

/// The month (from 0) and day of that month (from 0) of day `rem` of a year,
/// counting from month `m`.
pub open spec fn month_of(m: int, rem: int, leap: bool) -> (int, int)
    decreases 12 - m,
{
    if m < 12 && rem >= month_days(m, leap) {
        month_of(m + 1, rem - month_days(m, leap), leap)
    } else {
        (m, rem)
    }
}

/// The calendar date (year, month from 1, day from 1) of the day that is
/// `days` days after 1970-01-01.
pub open spec fn civil_date(days: nat) -> (int, int, int) {
    let (y, r) = year_of(1970, days as int);
    let (m, d) = month_of(0, r, is_leap(y));
    (y, m + 1, d + 1)
}

/// The number `YYYYMMDD00` of a date: the decimal digits of the year, the
/// month and the day (two digits each) and `00`.
pub open spec fn date_number(y: int, m: int, d: int) -> int {
    y * 1000000 + m * 10000 + d * 100
}

/// The serial that a zone gets on the day of Unix time `secs`: the date's
/// `YYYYMMDD00` when it fits in a `u32`, else 0.
pub open spec fn date_serial(secs: nat) -> nat {
    let (y, m, d) = civil_date(secs / 86400);
    if date_number(y, m, d) <= u32::MAX {
        date_number(y, m, d) as nat
    } else {
        0
    }
}

proof fn lemma_year_of(y: int, rem: int)
    requires
        rem >= 0,
    ensures
        year_of(y, rem).0 >= y,
        0 <= year_of(y, rem).1 < year_days(year_of(y, rem).0),
    decreases rem,
{
    if rem >= year_days(y) {
        lemma_year_of(y + 1, rem - year_days(y));
    }
}

proof fn lemma_month_of(m: int, rem: int, leap: bool, left: int)
    requires
        0 <= m <= 12,
        0 <= rem < left,
        left == (if m == 12 {
            0
        } else {
            month_rest(m, leap)
        }),
    ensures
        0 <= month_of(m, rem, leap).0 < 12,
        0 <= month_of(m, rem, leap).1 < month_days(month_of(m, rem, leap).0, leap),
    decreases 12 - m,
{
    if m < 12 && rem >= month_days(m, leap) {
        lemma_month_of(
            m + 1,
            rem - month_days(m, leap),
            leap,
            if m + 1 == 12 {
                0
            } else {
                month_rest(m + 1, leap)
            },
        );
    }
}

/// Days in months `m` to 11 of a year.
pub open spec fn month_rest(m: int, leap: bool) -> int
    decreases 12 - m,
{
    if m >= 12 {
        0
    } else {
        month_days(m, leap) + month_rest(m + 1, leap)
    }
}

/// The month and day of a date are those of a real calendar day.
pub proof fn lemma_civil_date_valid(days: nat)
    ensures
        civil_date(days).0 >= 1970,
        1 <= civil_date(days).1 <= 12,
        1 <= civil_date(days).2 <= month_days(
            civil_date(days).1 - 1,
            is_leap(civil_date(days).0),
        ),
{
    let (y, r) = year_of(1970, days as int);
    lemma_year_of(1970, days as int);
    let leap = is_leap(y);
    assert(month_rest(0, leap) == year_days(y)) by {
        reveal_with_fuel(month_rest, 13);
    }
    lemma_month_of(0, r, leap, month_rest(0, leap));
}

/// The lengths of the months of the Gregorian calendar, January first.
pub open spec fn gregorian_months(leap: bool) -> Seq<int> {
    seq![31, if leap { 29 } else { 28 }, 31, 30, 31, 30, 31, 31, 30, 31, 30, 31]
}

/// Days in the first `m` months of a year.
pub open spec fn days_before_month(leap: bool, m: int) -> int
    decreases m,
{
    if m <= 0 {
        0
    } else {
        days_before_month(leap, m - 1) + gregorian_months(leap)[m - 1]
    }
}

/// Days from 1970-01-01 to the first day of year `y`.
pub open spec fn days_before_year(y: int) -> int
    decreases y - 1970,
{
    if y <= 1970 {
        0
    } else {
        days_before_year(y - 1) + (if is_leap(y - 1) {
            366int
        } else {
            365int
        })
    }
}

proof fn lemma_month_days_gregorian(m: int, leap: bool)
    requires
        0 <= m < 12,
    ensures
        month_days(m, leap) == gregorian_months(leap)[m],
{
}

proof fn lemma_year_of_count(y: int, rem: int)
    requires
        y >= 1970,
        rem >= 0,
    ensures
        days_before_year(year_of(y, rem).0) == days_before_year(y) + rem - year_of(y, rem).1,
    decreases rem,
{
    if rem >= year_days(y) {
        lemma_year_of_count(y + 1, rem - year_days(y));
        assert(days_before_year(y + 1) == days_before_year(y) + year_days(y));
    }
}

proof fn lemma_month_of_count(m: int, rem: int, leap: bool)
    requires
        0 <= m <= 12,
        rem >= 0,
    ensures
        m <= month_of(m, rem, leap).0 <= 12,
        days_before_month(leap, month_of(m, rem, leap).0) == days_before_month(leap, m) + rem
            - month_of(m, rem, leap).1,
    decreases 12 - m,
{
    if m < 12 && rem >= month_days(m, leap) {
        lemma_month_days_gregorian(m, leap);
        lemma_month_of_count(m + 1, rem - month_days(m, leap), leap);
        assert(days_before_month(leap, m + 1) == days_before_month(leap, m) + gregorian_months(
            leap,
        )[m]);
    }
}

/// The date of a day count is the Gregorian one: its day lies within the
/// month's Gregorian length (31, 28 or 29 in leap years, 31, 30, 31, 30, 31,
/// 31, 30, 31, 30, 31), and counting the days of the years and months before
/// it, with those lengths, gives the day count back.
pub proof fn law_dates_are_gregorian(days: nat)
    ensures
        1 <= civil_date(days).1 <= 12,
        1 <= civil_date(days).2 <= gregorian_months(is_leap(civil_date(days).0))[civil_date(days).1
            - 1],
        days_before_year(civil_date(days).0) + days_before_month(
            is_leap(civil_date(days).0),
            civil_date(days).1 - 1,
        ) + civil_date(days).2 - 1 == days,
{
    let (y, r) = year_of(1970, days as int);
    lemma_year_of(1970, days as int);
    lemma_year_of_count(1970, days as int);
    let leap = is_leap(y);
    lemma_civil_date_valid(days);
    lemma_month_of_count(0, r, leap);
    let (m, d) = month_of(0, r, leap);
    lemma_month_days_gregorian(m, leap);
}

fn year_length(y: u64) -> (r: u64)
    ensures
        r as int == year_days(y as int),
{
    if y % 4 == 0 && (y % 100 != 0 || y % 400 == 0) {
        366
    } else {
        365
    }
}

fn month_length(m: u64, leap: bool) -> (r: u64)
    ensures
        r as int == month_days(m as int, leap),
{
    if m == 1 {
        if leap {
            29
        } else {
            28
        }
    } else if m == 3 || m == 5 || m == 8 || m == 10 {
        30
    } else {
        31
    }
}

/// The date of `days` days after 1970-01-01 (year, month from 1, day from 1).
pub fn civil_from_days(days: u64) -> (r: (u64, u64, u64))
    requires
        days <= u64::MAX / 86400,
    ensures
        (r.0 as int, r.1 as int, r.2 as int) == civil_date(days as nat),
{
    let mut y: u64 = 1970;
    let mut rem: u64 = days;
    while rem >= year_length(y)
        invariant
            1970 <= y,
            rem <= days,
            (y - 1970) * 365 <= days - rem,
            days <= u64::MAX / 86400,
            year_of(1970, days as int) == year_of(y as int, rem as int),
        decreases rem,
    {
        rem = rem - year_length(y);
        y = y + 1;
    }
    let leap = y % 4 == 0 && (y % 100 != 0 || y % 400 == 0);
    let ghost r0 = rem as int;
    let mut m: u64 = 0;
    while m < 12 && rem >= month_length(m, leap)
        invariant
            m <= 12,
            rem <= r0,
            leap == is_leap(y as int),
            year_of(1970, days as int) == (y as int, r0),
            month_of(0, r0, leap) == month_of(m as int, rem as int, leap),
        decreases 12 - m,
    {
        rem = rem - month_length(m, leap);
        m = m + 1;
    }
    (y, m + 1, rem + 1)
}

/// The serial that a zone gets on the day of Unix time `secs`.
pub fn serial_for_time(secs: u64) -> (r: u32)
    ensures
        r as nat == date_serial(secs as nat),
{
    let (y, m, d) = civil_from_days(secs / 86400);
    proof {
        lemma_civil_date_valid((secs / 86400) as nat);
    }
    if y > 4294 {
        assert(date_number(y as int, m as int, d as int) > u32::MAX) by (nonlinear_arith)
            requires
                y > 4294,
                m >= 1,
                d >= 1,
        ;
        return 0;
    }
    let v: u64 = y * 1000000 + m * 10000 + d * 100;
    if v <= 4294967295 {
        v as u32
    } else {
        0
    }
}

} // verus!
