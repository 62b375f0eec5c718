//! The proleptic Gregorian calendar, counted in days from 1970-01-01.
use vstd::prelude::*;

verus! {

/// Leap years of the Gregorian calendar.
pub open spec fn is_leap_year(y: int) -> bool {
    (y % 4 == 0 && y % 100 != 0) || y % 400 == 0
}

pub open spec fn year_length(y: int) -> int {
    if is_leap_year(y) {
        366
    } else {
        365
    }
}

/// Number of days of month `m` (1 = January) in year `y`.
pub open spec fn month_length(y: int, m: int) -> int {
    if m == 2 {
        if is_leap_year(y) {
            29
        } else {
            28
        }
    } else if m == 4 || m == 6 || m == 9 || m == 11 {
        30
    } else {
        31
    }
}

/// Days from 1970-01-01 to the first day of year `y` (negative before 1970).
pub open spec fn days_before_year(y: int) -> int
    decreases (if y >= 1970 { y - 1970 } else { 1970 - y }),
{
    if y == 1970 {
        0
    } else if y > 1970 {
        days_before_year(y - 1) + year_length(y - 1)
    } else {
        days_before_year(y + 1) - year_length(y)
    }
}

/// Days from the first of January to the first day of month `m` of year `y`.
pub open spec fn days_before_month(y: int, m: int) -> int
    decreases m,
{
    if m <= 1 {
        0
    } else {
        days_before_month(y, m - 1) + month_length(y, m - 1)
    }
}

/// A calendar day `d` of month `m` in year `y` exists.
pub open spec fn valid_ymd(y: int, m: int, d: int) -> bool {
    1 <= m <= 12 && 1 <= d <= month_length(y, m)
}

/// Days from 1970-01-01 to the date `y`-`m`-`d`.
pub open spec fn epoch_day(y: int, m: int, d: int) -> int {
    days_before_year(y) + days_before_month(y, m) + d - 1
}

/// Day of the week of the epoch day `n`, counted from Monday = 0
/// (1970-01-01 was a Thursday).
pub open spec fn weekday_of(n: int) -> int {
    (n + 3) % 7
}

pub proof fn lemma_days_before_month_year(y: int)
    ensures
        days_before_month(y, 13) == year_length(y),
        days_before_month(y, 1) == 0,
{
    reveal_with_fuel(days_before_month, 13);
}

pub proof fn lemma_days_before_month_mono(y: int, a: int, b: int)
    requires
        1 <= a <= b,
    ensures
        days_before_month(y, a) + 28 * (b - a) <= days_before_month(y, b),
    decreases b - a,
{
    if a < b {
        lemma_days_before_month_mono(y, a, b - 1);
    }
}

pub proof fn lemma_days_before_year_step(y: int)
    ensures
        days_before_year(y + 1) == days_before_year(y) + year_length(y),
    decreases (if y >= 1970 { y - 1970 } else { 1970 - y }),
{
    if y >= 1970 {
    } else {
    }
}

pub proof fn lemma_days_before_year_mono(a: int, b: int)
    requires
        a <= b,
    ensures
        days_before_year(a) + 365 * (b - a) <= days_before_year(b),
    decreases b - a,
{
    if a < b {
        lemma_days_before_year_mono(a, b - 1);
        lemma_days_before_year_step(b - 1);
    }
}

/// Months before `m` in year `y` have the days of a common year, and one
/// more in a leap year once February is past.
pub proof fn lemma_days_before_month_leap(y: int, m: int)
    requires
        1 <= m <= 13,
    ensures
        days_before_month(y, m) == days_before_month(1970, m) + (if m > 2 && is_leap_year(y) {
            1int
        } else {
            0
        }),
    decreases m,
{
    if m > 1 {
        lemma_days_before_month_leap(y, m - 1);
    }
}

/// The first of a month three years later is at least 1094 days later.
pub proof fn lemma_three_years_later(y: int, m: int)
    requires
        1 <= m <= 12,
    ensures
        epoch_day(y + 3, m, 1) >= epoch_day(y, m, 1) + 1094,
{
    lemma_days_before_month_leap(y, m);
    lemma_days_before_month_leap(y + 3, m);
    lemma_days_before_year_mono(y, y + 3);
}

/// Where a valid date falls inside its year.
pub proof fn lemma_epoch_day_bounds(y: int, m: int, d: int)
    requires
        valid_ymd(y, m, d),
    ensures
        days_before_year(y) + days_before_month(y, m) <= epoch_day(y, m, d) < days_before_year(
            y,
        ) + days_before_month(y, m + 1),
        days_before_year(y) <= epoch_day(y, m, d) < days_before_year(y + 1),
{
    assert(days_before_month(y, m + 1) == days_before_month(y, m) + month_length(y, m));
    lemma_days_before_month_mono(y, m + 1, 13);
    lemma_days_before_month_mono(y, 1, m);
    lemma_days_before_month_year(y);
    lemma_days_before_year_step(y);
}

/// Two valid dates with the same epoch day are the same date.
pub proof fn lemma_epoch_day_injective(y1: int, m1: int, d1: int, y2: int, m2: int, d2: int)
    requires
        valid_ymd(y1, m1, d1),
        valid_ymd(y2, m2, d2),
        epoch_day(y1, m1, d1) == epoch_day(y2, m2, d2),
    ensures
        y1 == y2 && m1 == m2 && d1 == d2,
{
    lemma_epoch_day_bounds(y1, m1, d1);
    lemma_epoch_day_bounds(y2, m2, d2);
    if y1 < y2 {
        lemma_days_before_year_mono(y1 + 1, y2);
    } else if y2 < y1 {
        lemma_days_before_year_mono(y2 + 1, y1);
    }
    assert(y1 == y2);
    if m1 < m2 {
        lemma_days_before_month_mono(y1, m1 + 1, m2);
    } else if m2 < m1 {
        lemma_days_before_month_mono(y1, m2 + 1, m1);
    }
}

/// The calendar date (year, month, day) of the epoch day `n`.
pub open spec fn date_of_epoch_day(n: int) -> (int, int, int) {
    choose|y: int, m: int, d: int| valid_ymd(y, m, d) && epoch_day(y, m, d) == n
}

/// `date_of_epoch_day` picks the one date that has the epoch day.
pub proof fn lemma_date_of_epoch_day(y: int, m: int, d: int)
    requires
        valid_ymd(y, m, d),
    ensures
        date_of_epoch_day(epoch_day(y, m, d)) == (y, m, d),
{
    let n = epoch_day(y, m, d);
    assert(valid_ymd(y, m, d) && epoch_day(y, m, d) == n);
    let (y2, m2, d2) = date_of_epoch_day(n);
    lemma_epoch_day_injective(y, m, d, y2, m2, d2);
}

/// Some year starting no later than `n` (from `y` on) also ends after it.
proof fn lemma_year_of_day(n: int, y: int)
    requires
        days_before_year(y) <= n,
    ensures
        exists|y2: int| #[trigger] days_before_year(y2) <= n < days_before_year(y2 + 1),
    decreases n - days_before_year(y),
{
    lemma_days_before_year_step(y);
    if days_before_year(y + 1) <= n {
        lemma_year_of_day(n, y + 1);
    }
}

/// Some month of year `y`, from month `m` on, holds the day `r` of the year.
proof fn lemma_month_of_day(y: int, r: int, m: int)
    requires
        1 <= m <= 12,
        days_before_month(y, m) <= r < days_before_month(y, 13),
    ensures
        exists|m2: int|
            1 <= m2 <= 12 && #[trigger] days_before_month(y, m2) <= r < days_before_month(y, m2 + 1),
    decreases 13 - m,
{
    if days_before_month(y, m + 1) <= r {
        lemma_month_of_day(y, r, m + 1);
    }
}

/// Every epoch day is the day of some date.
pub proof fn lemma_epoch_day_onto(n: int)
    ensures
        exists|y: int, m: int, d: int| valid_ymd(y, m, d) && #[trigger] epoch_day(y, m, d) == n,
{
    if n >= 0 {
        lemma_year_of_day(n, 1970);
    } else {
        lemma_days_before_year_mono(1970 + n, 1970);
        lemma_year_of_day(n, 1970 + n);
    }
    let y = choose|y2: int| #[trigger] days_before_year(y2) <= n < days_before_year(y2 + 1);
    lemma_days_before_year_step(y);
    lemma_days_before_month_year(y);
    let r = n - days_before_year(y);
    lemma_month_of_day(y, r, 1);
    let m = choose|m2: int|
        1 <= m2 <= 12 && #[trigger] days_before_month(y, m2) <= r < days_before_month(y, m2 + 1);
    let d = r - days_before_month(y, m) + 1;
    assert(valid_ymd(y, m, d) && epoch_day(y, m, d) == n);
}

/// Leap years as the firmware computes them.
pub fn is_leap(y: u64) -> (r: bool)
    ensures
        r == is_leap_year(y as int),
{
    (y % 4 == 0 && y % 100 != 0) || y % 400 == 0
}

/// Length of month `m` of year `y`; the month must be one of the twelve.
pub fn days_in_month(m: u64, y: u64) -> (r: u64)
    requires
        1 <= m <= 12,
    ensures
        r == month_length(y as int, m as int),
{
    if m == 1 || m == 3 || m == 5 || m == 7 || m == 8 || m == 10 || m == 12 {
        31
    } else if m == 4 || m == 6 || m == 9 || m == 11 {
        30
    } else if is_leap(y) {
        29
    } else {
        28
    }
}

} // verus!
