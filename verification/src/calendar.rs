//! Civil dates of the proleptic Gregorian calendar, counted in days from
//! 1970-01-01, and the UTC time stamps printed on exported pages.

use vstd::prelude::*;
use crate::text::{padded, padded_decimal};

verus! {

/// Whether `y` is a leap year.
pub open spec fn is_leap(y: int) -> bool {
    y % 4 == 0 && (y % 100 != 0 || y % 400 == 0)
}

/// The number of days in month `m` (1 to 12) of year `y`.
pub open spec fn month_len(y: int, m: int) -> int {
    if m == 2 {
        if is_leap(y) {
            29
        } else {
            28
        }
    } else if m == 4 || m == 6 || m == 9 || m == 11 {
        30
    } else {
        31
    }
}

/// The number of days in the months of year `y` before month `m`.
pub open spec fn days_before_month(y: int, m: int) -> int
    decreases m,
{
    if m <= 1 {
        0
    } else {
        days_before_month(y, m - 1) + month_len(y, m - 1)
    }
}

/// The number of days from 0001-01-01 to January 1 of year `y`.
pub open spec fn days_before_year(y: int) -> int {
    let p = y - 1;
    365 * p + p / 4 - p / 100 + p / 400
}

/// Whether (`y`, `m`, `d`) names a day of the calendar.
pub open spec fn is_date(y: int, m: int, d: int) -> bool {
    1 <= m <= 12 && 1 <= d <= month_len(y, m)
}

/// The number of the day (`y`, `m`, `d`), counted from 1970-01-01 as day 0.
pub open spec fn day_number(y: int, m: int, d: int) -> int {
    days_before_year(y) + days_before_month(y, m) + d - 1 - 719162
}

/// The first day of year `k` of a 400-year era that starts on March 1,
/// counted from the start of the era.
spec fn era_year_start(k: int) -> int {
    365 * k + k / 4 - k / 100 + k / 400
}

/// The first day of month `mp` of a year that starts on March 1 (0 is
/// March, 11 is February), counted from the start of that year.
spec fn march_month_start(mp: int) -> int {
    (153 * mp + 2) / 5
}

proof fn lemma_days_before_month_table(y: int)
    ensures
        days_before_month(y, 1) == 0,
        days_before_month(y, 2) == 31,
        days_before_month(y, 3) == 59 + (if is_leap(y) { 1int } else { 0 }),
        days_before_month(y, 4) == 90 + (if is_leap(y) { 1int } else { 0 }),
        days_before_month(y, 5) == 120 + (if is_leap(y) { 1int } else { 0 }),
        days_before_month(y, 6) == 151 + (if is_leap(y) { 1int } else { 0 }),
        days_before_month(y, 7) == 181 + (if is_leap(y) { 1int } else { 0 }),
        days_before_month(y, 8) == 212 + (if is_leap(y) { 1int } else { 0 }),
        days_before_month(y, 9) == 243 + (if is_leap(y) { 1int } else { 0 }),
        days_before_month(y, 10) == 273 + (if is_leap(y) { 1int } else { 0 }),
        days_before_month(y, 11) == 304 + (if is_leap(y) { 1int } else { 0 }),
        days_before_month(y, 12) == 334 + (if is_leap(y) { 1int } else { 0 }),
{
    reveal_with_fuel(days_before_month, 13);
}

/// The year of an era that holds day `doe` of the era, as the date
/// conversion computes it, starts on or before that day and ends after it.
proof fn lemma_year_of_era(doe: int)
    requires
        0 <= doe <= 146096,
    ensures
        ({
            let yoe = (doe - doe / 1460 + doe / 36524 - doe / 146096) / 365;
            &&& 0 <= yoe <= 399
            &&& era_year_start(yoe) <= doe < era_year_start(yoe + 1)
        }),
{
}

/// The month of a March-based year that holds day `doy` of the year starts
/// on or before that day and ends after it.
proof fn lemma_month_of_year(doy: int)
    requires
        0 <= doy <= 365,
    ensures
        ({
            let mp = (5 * doy + 2) / 153;
            &&& 0 <= mp <= 11
            &&& march_month_start(mp) <= doy < march_month_start(mp + 1)
        }),
{
}

/// Day 0 of an era is March 1 of a year divisible by 400: January 1 of
/// the year after year `yoe` of era `era` is that many days after 0001-01-01.
proof fn lemma_era_year(era: int, yoe: int)
    requires
        0 <= yoe <= 399,
    ensures
        days_before_year(400 * era + yoe + 1) == 146097 * era + era_year_start(yoe),
        era_year_start(yoe + 1) - era_year_start(yoe) == 365 + (if is_leap(400 * era + yoe + 1) {
            1int
        } else {
            0
        }),
{
    let p = 400 * era + yoe;
    assert(p / 4 == 100 * era + yoe / 4);
    assert(p / 100 == 4 * era + yoe / 100);
    assert(p / 400 == era);
    let q = p + 1;
    assert(q % 4 == (yoe + 1) % 4);
    assert(q % 100 == (yoe + 1) % 100);
    assert(q % 400 == (yoe + 1) % 400);
}

/// A year is 366 days long when it is a leap year and 365 otherwise.
proof fn lemma_year_length(y: int)
    ensures
        days_before_year(y + 1) - days_before_year(y) == 365 + (if is_leap(y) { 1int } else { 0 }),
{
}

/// The civil date (year, month, day) of day `days`, counted from
/// 1970-01-01 as day 0.
pub open spec fn civil_date(days: int) -> (int, int, int) {
    choose|date: (int, int, int)| is_date(date.0, date.1, date.2) && day_number(date.0, date.1, date.2) == days
}

/// The day of its year that a date is, counted from 0, lies within the year.
proof fn lemma_day_of_year(y: int, m: int, d: int)
    requires
        is_date(y, m, d),
    ensures
        0 <= days_before_month(y, m) + d - 1 < 365 + (if is_leap(y) { 1int } else { 0 }),
{
    lemma_days_before_month_table(y);
}

/// Later years start later.
proof fn lemma_years_ordered(a: int, b: int)
    requires
        a < b,
    ensures
        days_before_year(a + 1) <= days_before_year(b),
    decreases b - a,
{
    if b > a + 1 {
        lemma_years_ordered(a, b - 1);
        lemma_year_length(b - 1);
    }
}

/// Days of the same year and month are told apart by the day alone; months
/// of the same year are disjoint runs of days.
proof fn lemma_months_ordered(y: int, m1: int, d1: int, m2: int, d2: int)
    requires
        is_date(y, m1, d1),
        is_date(y, m2, d2),
        m1 < m2,
    ensures
        days_before_month(y, m1) + d1 < days_before_month(y, m2) + d2,
{
    lemma_days_before_month_table(y);
}

/// Two dates with the same day number are the same date.
pub proof fn lemma_day_number_injective(a: (int, int, int), b: (int, int, int))
    requires
        is_date(a.0, a.1, a.2),
        is_date(b.0, b.1, b.2),
        day_number(a.0, a.1, a.2) == day_number(b.0, b.1, b.2),
    ensures
        a == b,
{
    lemma_day_of_year(a.0, a.1, a.2);
    lemma_day_of_year(b.0, b.1, b.2);
    lemma_year_length(a.0);
    lemma_year_length(b.0);
    if a.0 < b.0 {
        lemma_years_ordered(a.0, b.0);
    } else if b.0 < a.0 {
        lemma_years_ordered(b.0, a.0);
    } else if a.1 < b.1 {
        lemma_months_ordered(a.0, a.1, a.2, b.1, b.2);
    } else if b.1 < a.1 {
        lemma_months_ordered(a.0, b.1, b.2, a.1, a.2);
    }
}

/// Counting days and naming them undo each other: the civil date of a
/// date's day number is that date.
pub proof fn lemma_civil_date_is(y: int, m: int, d: int)
    requires
        is_date(y, m, d),
    ensures
        civil_date(day_number(y, m, d)) == (y, m, d),
{
    let found = (y, m, d);
    assert(is_date(found.0, found.1, found.2) && day_number(found.0, found.1, found.2) == day_number(y, m, d));
    let chosen = civil_date(day_number(y, m, d));
    lemma_day_number_injective(found, chosen);
}

/// Days on or after 1970-01-01 fall in 1970 or later.
proof fn lemma_year_after_epoch(y: int, m: int, d: int)
    requires
        is_date(y, m, d),
        day_number(y, m, d) >= 0,
    ensures
        y >= 1970,
{
    lemma_day_of_year(y, m, d);
    lemma_year_length(y);
    if y < 1970 {
        if y + 1 < 1970 {
            lemma_years_ordered(y + 1, 1970);
            lemma_year_length(y + 1);
        }
    }
}

/// The civil date (year, month, day) of day `days_since_epoch`, counted
/// from 1970-01-01 as day 0.
#[verifier::rlimit(40)]
pub fn civil_from_days(days_since_epoch: i64) -> (date: (i64, i64, i64))
    requires
        i64::MIN + 146096 <= days_since_epoch + 719468 <= i64::MAX,
    ensures
        is_date(date.0 as int, date.1 as int, date.2 as int),
        day_number(date.0 as int, date.1 as int, date.2 as int) == days_since_epoch,
        (date.0 as int, date.1 as int, date.2 as int) == civil_date(days_since_epoch as int),
{
    let z = days_since_epoch + 719_468;
    let era = (if z >= 0 {
        z
    } else {
        z - 146_096
    }) / 146_097;
    assert(era == z / 146097);
    let day_of_era = z - era * 146_097;
    let year_of_era = (day_of_era - day_of_era / 1460 + day_of_era / 36_524 - day_of_era / 146_096)
        / 365;
    proof {
        lemma_year_of_era(day_of_era as int);
    }
    let mut year = year_of_era + era * 400;
    let day_of_year = day_of_era - (365 * year_of_era + year_of_era / 4 - year_of_era / 100);
    proof {
        lemma_era_year(era as int, year_of_era as int);
        lemma_month_of_year(day_of_year as int);
    }
    let month_prime = (5 * day_of_year + 2) / 153;
    let day = day_of_year - (153 * month_prime + 2) / 5 + 1;
    let month = month_prime + if month_prime < 10 {
        3
    } else {
        -9
    };
    if month <= 2 {
        year = year + 1;
    }
    proof {
        let y0 = 400 * era + year_of_era;
        lemma_days_before_month_table(year as int);
        lemma_year_length(y0);
        assert(day_of_era == era_year_start(year_of_era as int) + day_of_year);
    }
    proof {
        lemma_civil_date_is(year as int, month as int, day as int);
    }
    (year, month, day)
}

/// The UTC time stamp of `ms` milliseconds after the Unix epoch, to the
/// minute: "YYYY-MM-DD hh:mm UTC".
pub open spec fn utc_stamp(ms: nat) -> Seq<char> {
    let seconds = ms / 1000;
    let date = civil_date((seconds / 86400) as int);
    let second_of_day = seconds % 86400;
    padded(date.0 as nat, 4) + "-"@ + padded(date.1 as nat, 2) + "-"@ + padded(date.2 as nat, 2) + " "@
        + padded(second_of_day / 3600, 2) + ":"@ + padded(second_of_day % 3600 / 60, 2) + " UTC"@
}

/// The UTC time stamp of `milliseconds` after the Unix epoch, to the
/// minute, as it is printed on exported pages.
pub fn format_unix_ms(milliseconds: u64) -> (out: String)
    ensures
        out@ == utc_stamp(milliseconds as nat),
{
    let seconds = (milliseconds / 1000) as i64;
    let days = seconds / 86_400;
    let second_of_day = seconds % 86_400;
    let (year, month, day) = civil_from_days(days);
    proof {
        lemma_year_after_epoch(year as int, month as int, day as int);
    }
    let hour = second_of_day / 3600;
    let minute = (second_of_day % 3600) / 60;
    let mut out = padded_decimal(year as u64, 4);
    out.append("-");
    let m = padded_decimal(month as u64, 2);
    out.append(m.as_str());
    out.append("-");
    let d = padded_decimal(day as u64, 2);
    out.append(d.as_str());
    out.append(" ");
    let h = padded_decimal(hour as u64, 2);
    out.append(h.as_str());
    out.append(":");
    let mi = padded_decimal(minute as u64, 2);
    out.append(mi.as_str());
    out.append(" UTC");
    out
}

} // verus!
