//! Civil dates and day counts in the proleptic Gregorian calendar, and the
//! year fraction from a snapshot to an expiry.

use crate::market::{ExpiryDate, TsMillis};
use crate::num::Num;
use vstd::prelude::*;

verus! {

/// Milliseconds per day.
pub const MS_PER_DAY: i64 = 86_400_000;

/// Days from 0000-03-01 to 1970-01-01.
pub const EPOCH_SHIFT: i64 = 719_468;

/// Days per era of 400 years.
pub const DAYS_PER_ERA: i64 = 146_097;

/// Greatest absolute year whose day count is sure to fit.
pub const YEAR_LIMIT: i64 = 20_000_000_000_000_000;

/// Greatest absolute day count whose date is sure to fit.
pub const DAY_LIMIT: i64 = 9_000_000_000_000_000_000;

/// Milliseconds per year of 365 days (31536000000.0).
pub const MS_PER_YEAR: u64 = 0x421D_5EC4_B000_0000;

/// Least year fraction: one hour (0.00011415525114155251).
pub const MIN_T_YEARS: u64 = 0x3F1D_ECD4_4801_DECD;

/// Whether a year has a 29th of February.
pub open spec fn leap(y: int) -> bool {
    y % 4 == 0 && (y % 100 != 0 || y % 400 == 0)
}

/// Days of a month.
pub open spec fn month_days(y: int, m: int) -> int {
    if m == 2 {
        if leap(y) {
            29
        } else {
            28
        }
    } else if m == 4 || m == 6 || m == 9 || m == 11 {
        30
    } else {
        31
    }
}

/// Whether a year, month and day name a date.
pub open spec fn is_date(y: int, m: int, d: int) -> bool {
    1 <= m <= 12 && 1 <= d <= month_days(y, m)
}

/// Year of a date when years begin in March.
pub open spec fn march_year(y: int, m: int) -> int {
    if m <= 2 {
        y - 1
    } else {
        y
    }
}

/// Days from 1970-01-01 to a date: whole years with their leap days, whole
/// months since March, and days.
pub open spec fn day_number(y: int, m: int, d: int) -> int {
    let w = march_year(y, m);
    365 * w + w / 4 - w / 100 + w / 400 + (153 * ((m + 9) % 12) + 2) / 5 + d - 1 - EPOCH_SHIFT
}

/// The date after a date.
pub open spec fn next_date(y: int, m: int, d: int) -> (int, int, int) {
    if d < month_days(y, m) {
        (y, m, d + 1)
    } else if m < 12 {
        (y, m + 1, 1)
    } else {
        (y + 1, 1, 1)
    }
}

/// Day 0 is 1970-01-01, and every date counts one more than the date before it.
pub proof fn law_day_numbers_count_dates(y: int, m: int, d: int)
    requires
        is_date(y, m, d),
    ensures
        day_number(1970, 1, 1) == 0,
        ({
            let (a, b, c) = next_date(y, m, d);
            is_date(a, b, c) && day_number(a, b, c) == day_number(y, m, d) + 1
        }),
{
}

/// Days from 1970-01-01 to a date.
pub fn days_from_civil(y: i64, m: u32, d: u32) -> (r: i64)
    requires
        -YEAR_LIMIT <= y <= YEAR_LIMIT,
    ensures
        r == day_number(y as int, m as int, d as int),
{
    let y: i64 = if m <= 2 {
        y - 1
    } else {
        y
    };
    let (era, yoe) = div_era(y, 400);
    let mp: i64 = (m as i64 + 9) % 12;
    let doy: i64 = (153 * mp + 2) / 5 + d as i64 - 1;
    let doe: i64 = yoe * 365 + yoe / 4 - yoe / 100 + doy;
    proof {
        lemma_era_years(y as int, era as int, yoe as int);
    }
    era * DAYS_PER_ERA + doe - EPOCH_SHIFT
}

/// Quotient and remainder, the remainder never negative.
fn div_era(n: i64, by: i64) -> (r: (i64, i64))
    requires
        by == 400 || by == DAYS_PER_ERA,
        -DAY_LIMIT <= n <= DAY_LIMIT,
    ensures
        r.0 == n as int / by as int,
        r.1 == n as int % by as int,
        n == r.0 * by + r.1,
        0 <= r.1 < by,
{
    if n >= 0 {
        (n / by, n % by)
    } else {
        let up: i64 = -1 - n;
        let q: i64 = -1 - up / by;
        let rem: i64 = by - 1 - up % by;
        proof {
            assert(n == q * by + rem) by (nonlinear_arith)
                requires
                    by > 0,
                    n == -1 - up,
                    up >= 0,
                    q == -1 - up / by,
                    rem == by - 1 - up % by,
            ;
            vstd::arithmetic::div_mod::lemma_fundamental_div_mod_converse(
                n as int,
                by as int,
                q as int,
                rem as int,
            );
        }
        (q, rem)
    }
}

/// Leap days of a year by its era.
proof fn lemma_era_years(w: int, era: int, yoe: int)
    requires
        w == era * 400 + yoe,
        0 <= yoe < 400,
    ensures
        w / 4 == era * 100 + yoe / 4,
        w / 100 == era * 4 + yoe / 100,
        w / 400 == era,
{
}

/// Years of an era before day `doe` of it.
pub open spec fn year_of_era(doe: int) -> int {
    (doe - doe / 1460 + doe / 36_524 - doe / 146_096) / 365
}

/// Days of an era before its year `yoe`.
pub open spec fn days_before(yoe: int) -> int {
    365 * yoe + yoe / 4 - yoe / 100
}

/// The date of a day number: year, month and day.
pub open spec fn civil(z: int) -> (int, int, int) {
    let n = z + EPOCH_SHIFT;
    let (era, doe) = (n / (DAYS_PER_ERA as int), n % (DAYS_PER_ERA as int));
    let yoe = year_of_era(doe);
    let doy = doe - days_before(yoe);
    let mp = (5 * doy + 2) / 153;
    let d = doy - (153 * mp + 2) / 5 + 1;
    let m = if mp < 10 {
        mp + 3
    } else {
        mp - 9
    };
    let y = yoe + era * 400;
    (
        if m <= 2 {
            y + 1
        } else {
            y
        },
        m,
        d,
    )
}

/// The year of an era is the one whose days hold day `doe`.
proof fn lemma_year_of_era(doe: int)
    requires
        0 <= doe < DAYS_PER_ERA,
    ensures
        0 <= year_of_era(doe) < 400,
        days_before(year_of_era(doe)) <= doe,
        doe < days_before(year_of_era(doe) + 1) || (year_of_era(doe) == 399 && doe == 146_096),
{
}

/// The day number of the date of a day is that day, and it is a date.
pub proof fn law_civil_round_trip(z: int)
    ensures
        ({
            let (y, m, d) = civil(z);
            is_date(y, m, d) && day_number(y, m, d) == z
        }),
{
    let n = z + EPOCH_SHIFT;
    let (era, doe) = (n / (DAYS_PER_ERA as int), n % (DAYS_PER_ERA as int));
    lemma_year_of_era(doe);
    let yoe = year_of_era(doe);
    lemma_era_years(yoe + era * 400, era, yoe);
}

/// Bounds of the parts of a date within its era.
proof fn lemma_date_parts(doe: int)
    requires
        0 <= doe < DAYS_PER_ERA,
    ensures
        ({
            let yoe = year_of_era(doe);
            let doy = doe - days_before(yoe);
            let mp = (5 * doy + 2) / 153;
            &&& 0 <= yoe < 400
            &&& 0 <= doy <= 365
            &&& 0 <= mp <= 11
            &&& 1 <= doy - (153 * mp + 2) / 5 + 1 <= 31
        }),
{
    lemma_year_of_era(doe);
}

/// The date of day `doe` of an era: year of the era, month and day.
fn date_in_era(doe: i64) -> (r: (i64, i64, i64))
    requires
        0 <= doe < DAYS_PER_ERA,
    ensures
        ({
            let yoe = year_of_era(doe as int);
            let doy = doe - days_before(yoe);
            let mp = (5 * doy + 2) / 153;
            &&& r.0 == yoe
            &&& r.1 == (if mp < 10 {
                mp + 3
            } else {
                mp - 9
            })
            &&& r.2 == doy - (153 * mp + 2) / 5 + 1
            &&& 0 <= r.0 < 400
            &&& 1 <= r.1 <= 12
            &&& 1 <= r.2 <= 31
        }),
{
    proof {
        lemma_date_parts(doe as int);
    }
    let yoe: i64 = (doe - doe / 1460 + doe / 36_524 - doe / 146_096) / 365;
    let doy: i64 = doe - (365 * yoe + yoe / 4 - yoe / 100);
    let mp: i64 = (5 * doy + 2) / 153;
    let d: i64 = doy - (153 * mp + 2) / 5 + 1;
    if mp < 10 {
        (yoe, mp + 3, d)
    } else {
        (yoe, mp - 9, d)
    }
}

/// The last 16 bits of a year.
fn low_bits(year: i64) -> (r: u16)
    ensures
        r == year as int % 0x1_0000,
{
    if year >= 0 {
        (year % 0x1_0000) as u16
    } else {
        let up: i64 = -1 - year;
        (0xFFFF - up % 0x1_0000) as u16
    }
}

/// The date of a day number; the year keeps its last 16 bits.
pub fn civil_from_days(z: i64) -> (r: ExpiryDate)
    requires
        -DAY_LIMIT <= z <= DAY_LIMIT - EPOCH_SHIFT,
    ensures
        ({
            let (y, m, d) = civil(z as int);
            r.year == y % 0x1_0000 && r.month == m && r.day == d
        }),
{
    let (era, doe) = div_era(z + EPOCH_SHIFT, DAYS_PER_ERA);
    let (yoe, m, d) = date_in_era(doe);
    let y: i64 = yoe + era * 400;
    let year: i64 = if m <= 2 {
        y + 1
    } else {
        y
    };
    ExpiryDate { year: low_bits(year), month: m as u8, day: d as u8 }
}

/// The first day of the years that a date can hold, 0000-01-01.
pub const FIRST_DAY: i64 = -719_528;

/// The last day of the years that a date can hold, 65535-12-31.
pub const LAST_DAY: i64 = 23_217_003;

/// Over the years that a date can hold, the day number of the date that is
/// made of a day is that day.
pub proof fn law_dates_of_days_round_trip(z: int, date: ExpiryDate)
    requires
        FIRST_DAY <= z <= LAST_DAY,
        ({
            let (y, m, d) = civil(z);
            date.year == y % 0x1_0000 && date.month == m && date.day == d
        }),
    ensures
        is_date(date.year as int, date.month as int, date.day as int),
        day_number(date.year as int, date.month as int, date.day as int) == z,
{
    law_civil_round_trip(z);
    let (y, m, d) = civil(z);
    lemma_years_held(y, m, d);
}

/// The years that the days of the range fall in.
proof fn lemma_years_held(y: int, m: int, d: int)
    requires
        is_date(y, m, d),
        FIRST_DAY <= day_number(y, m, d) <= LAST_DAY,
    ensures
        0 <= y <= 0xFFFF,
{
}

/// Milliseconds from a snapshot to the start of an expiry day, as a signed
/// 64-bit count that wraps.
pub open spec fn ms_to_expiry(now: TsMillis, expiry: ExpiryDate) -> int {
    let ms = day_number(expiry.year as int, expiry.month as int, expiry.day as int) * MS_PER_DAY
        - now.0;
    if ms < i64::MIN {
        ms + 0x1_0000_0000_0000_0000
    } else {
        ms
    }
}

/// A signed count as a number.
pub open spec fn signed_num(n: int) -> Num {
    if n < 0 {
        Num::whole(true, (-n) as nat)
    } else {
        Num::whole(false, n as nat)
    }
}

/// Years from a snapshot to an expiry, at least one hour.
pub open spec fn tenor(now: TsMillis, expiry: ExpiryDate) -> Num {
    signed_num(ms_to_expiry(now, expiry)).fdiv(Num::of(MS_PER_YEAR)).fmax(Num::of(MIN_T_YEARS))
}

/// Years of 365 days from a snapshot to an expiry, at least one hour.
pub fn years_to_expiry(now: TsMillis, expiry: ExpiryDate) -> (r: Num)
    ensures
        r == tenor(now, expiry),
{
    let days: i64 = days_from_civil(expiry.year as i64, expiry.month as u32, expiry.day as u32);
    let exact: i128 = days as i128 * MS_PER_DAY as i128 - now.0 as i128;
    let wrapped: i128 = if exact < i64::MIN as i128 {
        exact + 0x1_0000_0000_0000_0000
    } else {
        exact
    };
    let years = Num::from_i64(wrapped as i64) / Num::of(MS_PER_YEAR);
    years.max(Num::of(MIN_T_YEARS))
}

/// Every tenor is at least one hour.
pub proof fn law_tenor_is_floored(now: TsMillis, expiry: ExpiryDate)
    ensures
        !tenor(now, expiry).flt(Num::of(MIN_T_YEARS)),
{
}

} // verus!
