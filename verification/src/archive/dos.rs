//! DOS dates and times.

use vstd::prelude::*;

verus! {

/// Whether `y` is a leap year.
pub open spec fn leap(y: int) -> bool {
    y % 4 == 0 && (y % 100 != 0 || y % 400 == 0)
}

/// Number of days of the year `y`.
pub open spec fn year_days(y: int) -> int {
    if leap(y) {
        366
    } else {
        365
    }
}

/// Number of days of the month `m` of the year `y`; months count from 1.
pub open spec fn month_days(y: int, m: int) -> int {
    if m == 2 {
        if leap(y) {
            29
        } else {
            28
        }
    } else if m == 4 || m == 6 || m == 9 || m == 11 {
        30
    } else {
        31
    }
}

/// Number of days from 1970 to the start of the year `y`.
pub open spec fn days_to_year(y: int) -> int
    decreases y,
{
    if y <= 1970 {
        0
    } else {
        days_to_year(y - 1) + year_days(y - 1)
    }
}

/// Number of days from the start of the year `y` to that of its month `m`.
pub open spec fn days_to_month(y: int, m: int) -> int
    decreases m,
{
    if m <= 1 {
        0
    } else {
        days_to_month(y, m - 1) + month_days(y, m - 1)
    }
}

/// The month of a DOS date, from 1 to 12.
pub open spec fn month_of(date: u16) -> int {
    let m = (date as int / 32) % 16;
    if m < 1 {
        1
    } else if m > 12 {
        12
    } else {
        m
    }
}

/// The day of the month of a DOS date, from 1 on.
pub open spec fn day_of(date: u16) -> int {
    if date as int % 32 < 1 {
        1
    } else {
        date as int % 32
    }
}

/// Seconds from the start of 1970 to a DOS date and time. The date holds years
/// since 1980, month and day; the time holds hours, minutes and pairs of
/// seconds.
pub open spec fn unix_time(date: u16, time: u16) -> int {
    let y = 1980 + date as int / 512;
    let days = days_to_year(y) + days_to_month(y, month_of(date)) + day_of(date) - 1;
    days * 86400 + (time as int / 2048) * 3600 + ((time as int / 32) % 64) * 60 + (time as int % 32)
        * 2
}

fn is_leap(y: u32) -> (r: bool)
    ensures
        r == leap(y as int),
{
    y % 4 == 0 && (y % 100 != 0 || y % 400 == 0)
}

/// Seconds from the start of 1970 to a DOS date and time.
pub fn dos_to_unix(date: u16, time: u16) -> (r: u64)
    ensures
        r == unix_time(date, time),
{
    let year: u32 = 1980 + date as u32 / 512;
    let mut days: u64 = 0;
    let mut y: u32 = 1970;
    while y < year
        invariant
            1970 <= y <= year <= 2107,
            days == days_to_year(y as int),
            days <= 366 * (y - 1970),
        decreases year - y,
    {
        days = days + if is_leap(y) {
            366
        } else {
            365
        };
        y = y + 1;
    }
    let m: u32 = (date as u32 / 32) % 16;
    let month: u32 = if m < 1 {
        1
    } else if m > 12 {
        12
    } else {
        m
    };
    let mut k: u32 = 1;
    let mut in_year: u64 = 0;
    while k < month
        invariant
            1 <= k <= month <= 12,
            in_year == days_to_month(year as int, k as int),
            in_year <= 31 * (k - 1),
        decreases month - k,
    {
        in_year = in_year + if k == 2 {
            if is_leap(year) {
                29
            } else {
                28
            }
        } else if k == 4 || k == 6 || k == 9 || k == 11 {
            30
        } else {
            31
        };
        k = k + 1;
    }
    let d: u64 = date as u64 % 32;
    let day: u64 = if d < 1 {
        1
    } else {
        d
    };
    let all: u64 = days + in_year + day - 1;
    all * 86400 + (time as u64 / 2048) * 3600 + ((time as u64 / 32) % 64) * 60 + (time as u64 % 32)
        * 2
}

// ---- the calendar ----

/// The DOS date of the day `d` of the month `m` of the year `y`.
pub open spec fn dos_date(y: int, m: int, d: int) -> u16 {
    ((y - 1980) * 512 + m * 32 + d) as u16
}

/// The DOS time `h` hours, `m` minutes and `s` pairs of seconds after midnight.
pub open spec fn dos_time(h: int, m: int, s: int) -> u16 {
    (h * 2048 + m * 32 + s) as u16
}

/// Whether the month `m` of the year `y` has a day `d`.
pub open spec fn is_day(y: int, m: int, d: int) -> bool {
    &&& 1980 <= y <= 2107
    &&& 1 <= m <= 12
    &&& 1 <= d
    &&& if m == 2 {
        d <= 28 || (d == 29 && y % 4 == 0 && y != 2100)
    } else if m == 4 || m == 6 || m == 9 || m == 11 {
        d <= 30
    } else {
        d <= 31
    }
}

proof fn lemma_fields(y: int, m: int, d: int)
    requires
        is_day(y, m, d),
    ensures
        dos_date(y, m, d) as int / 512 == y - 1980,
        month_of(dos_date(y, m, d)) == m,
        day_of(dos_date(y, m, d)) == d,
{
}

proof fn lemma_leap(y: int)
    requires
        1980 <= y <= 2107,
    ensures
        leap(y) == (y % 4 == 0 && y != 2100),
{
    if y % 100 == 0 {
        assert(y == 2000 || y == 2100);
    }
}

/// Midnight of the first day that a DOS date can tell is ten years and two or three
/// leap days behind the start of 1970.
pub proof fn lemma_first_day()
    ensures
        unix_time(dos_date(1980, 1, 1), dos_time(0, 0, 0)) == 315_532_800,
{
    reveal_with_fuel(days_to_year, 12);
    lemma_fields(1980, 1, 1);
    assert(days_to_year(1980) == 3652);
}

/// A DOS time counts hours, minutes and pairs of seconds from midnight.
pub proof fn lemma_time_of_day(date: u16, h: int, m: int, s: int)
    requires
        0 <= h < 24,
        0 <= m < 60,
        0 <= s < 30,
    ensures
        unix_time(date, dos_time(h, m, s)) == unix_time(date, dos_time(0, 0, 0)) + h * 3600 + m * 60
            + s * 2,
{
    let t = dos_time(h, m, s) as int;
    assert(t / 2048 == h && (t / 32) % 64 == m && t % 32 == s);
}

/// Each day is a day behind the one before it: the next of the same month, the first
/// of the next month behind the last of a month, and the first of the next year
/// behind the last of a year.
pub proof fn lemma_next_day(y: int, m: int, d: int, time: u16)
    requires
        is_day(y, m, d),
    ensures
        is_day(y, m, d + 1) ==> unix_time(dos_date(y, m, d + 1), time) == unix_time(
            dos_date(y, m, d),
            time,
        ) + 86400,
        !is_day(y, m, d + 1) && m < 12 ==> unix_time(dos_date(y, m + 1, 1), time) == unix_time(
            dos_date(y, m, d),
            time,
        ) + 86400,
        m == 12 && d == 31 && y < 2107 ==> unix_time(dos_date(y + 1, 1, 1), time) == unix_time(
            dos_date(y, m, d),
            time,
        ) + 86400,
{
    lemma_fields(y, m, d);
    lemma_leap(y);
    if is_day(y, m, d + 1) {
        lemma_fields(y, m, d + 1);
    } else if m < 12 {
        lemma_fields(y, m + 1, 1);
        assert(days_to_month(y, m + 1) == days_to_month(y, m) + d);
    } else if y < 2107 {
        lemma_fields(y + 1, 1, 1);
        reveal_with_fuel(days_to_month, 13);
        assert(days_to_month(y, 12) + 31 == year_days(y));
        assert(days_to_year(y + 1) == days_to_year(y) + year_days(y));
    }
}

} // verus!
