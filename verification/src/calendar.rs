//! Calendar arithmetic on millisecond timestamps seen from a fixed local
//! offset: the start of a local day, week (Monday) and month, and the step to
//! the next month, over the proleptic Gregorian calendar.
use vstd::arithmetic::div_mod::{lemma_fundamental_div_mod_converse, lemma_mod_mod};
use vstd::prelude::*;

verus! {

pub const MINUTE_MS: i64 = 60_000;

pub const HOUR_MS: i64 = 60 * MINUTE_MS;

pub const DAY_MS: i64 = 24 * HOUR_MS;

pub const WEEK_MS: i64 = 7 * DAY_MS;

/// The largest magnitude of a timestamp (in ms) that the calendar functions
/// take: 2^62 ms plus 2^52 ms, so that every intermediate value of the
/// local-time arithmetic fits in an `i64`.
pub const CALENDAR_LIMIT_MS: i64 = 4_616_189_618_054_758_400;

/// A bound on the magnitude of the local day number (days since 1970-01-01)
/// of every timestamp in calendar range.
pub const DAY_NUMBER_LIMIT: i64 = 60_000_000_000;

pub open spec fn in_calendar_range(t: int) -> bool {
    -CALENDAR_LIMIT_MS <= t <= CALENDAR_LIMIT_MS
}

/// Gregorian leap years.
pub open spec fn is_leap_year(y: int) -> bool {
    y % 4 == 0 && (y % 100 != 0 || y % 400 == 0)
}

/// Number of days of month `m` (1..=12) of year `y`.
pub open spec fn days_in_month(y: int, m: int) -> int {
    if m == 2 {
        if is_leap_year(y) {
            29
        } else {
            28
        }
    } else if m == 4 || m == 6 || m == 9 || m == 11 {
        30
    } else {
        31
    }
}

/// The month after month `m` of year `y`, as (year, month).
pub open spec fn next_month(y: int, m: int) -> (int, int) {
    if m == 12 {
        (y + 1, 1)
    } else {
        (y, m + 1)
    }
}

/// Day number (days since 1970-01-01) of the date y-m-d: years are counted
/// from March in 400-year eras, so that the leap day ends the counted year.
pub open spec fn day_of_civil(y: int, m: int, d: int) -> int {
    let ya = if m <= 2 {
        y - 1
    } else {
        y
    };
    let era = ya / 400;
    let yoe = ya % 400;
    let mp = if m > 2 {
        m - 3
    } else {
        m + 9
    };
    let doy = (153 * mp + 2) / 5 + d - 1;
    let doe = yoe * 365 + yoe / 4 - yoe / 100 + doy;
    era * 146097 + doe - 719468
}

/// The date (year, month, day) of day number `z`; the inverse of `day_of_civil`
/// (see `lemma_civil_round_trip` and `lemma_civil_of_day_is_date`).
pub open spec fn civil_of_day(z: int) -> (int, int, int) {
    let zz = z + 719468;
    let era = zz / 146097;
    let doe = zz % 146097;
    let yoe = (doe - doe / 1460 + doe / 36524 - doe / 146096) / 365;
    let doy = doe - (365 * yoe + yoe / 4 - yoe / 100);
    let mp = (5 * doy + 2) / 153;
    let d = doy - (153 * mp + 2) / 5 + 1;
    let m = if mp < 10 {
        mp + 3
    } else {
        mp - 9
    };
    let y = yoe + era * 400;
    (
        if m <= 2 {
            y + 1
        } else {
            y
        },
        m,
        d,
    )
}

/// Local wall-clock milliseconds of `utc` at an offset of `tz` minutes
/// (positive offsets are west of UTC, as in JavaScript's `getTimezoneOffset`).
pub open spec fn local_ms(utc: int, tz: int) -> int {
    utc - tz * MINUTE_MS
}

pub open spec fn utc_ms(local: int, tz: int) -> int {
    local + tz * MINUTE_MS
}

/// Local day number of the instant `utc`.
pub open spec fn local_day(utc: int, tz: int) -> int {
    local_ms(utc, tz) / (DAY_MS as int)
}

/// Days since the last Monday of day number `days` (1970-01-01 was a Thursday).
pub open spec fn days_since_monday(days: int) -> int {
    (days + 3) % 7
}

pub open spec fn local_day_start(utc: int, tz: int) -> int {
    utc_ms(local_day(utc, tz) * DAY_MS, tz)
}

pub open spec fn local_week_start(utc: int, tz: int) -> int {
    local_day_start(utc, tz) - days_since_monday(local_day(utc, tz)) * DAY_MS
}

pub open spec fn local_month_start(utc: int, tz: int) -> int {
    let date = civil_of_day(local_day(utc, tz));
    utc_ms(day_of_civil(date.0, date.1, 1) * DAY_MS, tz)
}

pub open spec fn local_next_month_start(utc: int, tz: int) -> int {
    let date = civil_of_day(local_day(utc, tz));
    let next = next_month(date.0, date.1);
    utc_ms(day_of_civil(next.0, next.1, 1) * DAY_MS, tz)
}

/// `a` divided by `b`, rounded toward negative infinity (`i64::div_euclid` for `b > 0`).
pub fn floor_div(a: i64, b: i64) -> (q: i64)
    requires
        b > 0,
    ensures
        q == a / b,
{
    if a >= 0 {
        a / b
    } else {
        let n = -(a + 1);
        let q0 = n / b;
        assert(-1 - q0 == a / b) by (nonlinear_arith)
            requires
                n == -(a + 1),
                q0 == n / b,
                b > 0,
                n >= 0,
        {
            assert(n == b * q0 + n % b);
            assert(a == b * (-1 - q0) + (b - 1 - n % b));
        }
        -1 - q0
    }
}

/// The non-negative remainder of `a` by `b` (`i64::rem_euclid` for `b > 0`).
pub fn floor_mod(a: i64, b: i64) -> (r: i64)
    requires
        b > 0,
    ensures
        r == a % b,
        0 <= r < b,
{
    if a >= 0 {
        a % b
    } else {
        let n = -(a + 1);
        let m = n % b;
        assert(a == (-1 - n / b) * b + (b - 1 - m) && 0 <= b - 1 - m < b) by (nonlinear_arith)
            requires
                n == -(a + 1),
                m == n % b,
                b > 0,
                n >= 0,
        {
            assert(n == b * (n / b) + m);
        }
        proof {
            lemma_fundamental_div_mod_converse(a as int, b as int, -1 - n / b, b - 1 - m);
        }
        b - 1 - m
    }
}

proof fn lemma_year_of_era(doe: u32, yoe: u32, base: u32)
    by (bit_vector)
    requires
        doe < 146097,
        yoe == (doe - doe / 1460 + doe / 36524 - doe / 146096) / 365,
        base == 365 * yoe + yoe / 4 - yoe / 100,
    ensures
        yoe <= 399,
        base <= doe,
        doe < base + 365 || (doe == base + 365 && yoe % 4 == 3 && (yoe % 100 != 99 || yoe
            == 399)),
{
}

proof fn lemma_month_index(doy: u32)
    by (bit_vector)
    requires
        doy <= 365,
    ensures
        (5 * doy + 2) / 153 <= 11,
{
}

proof fn lemma_month_first_day(doy: u32)
    by (bit_vector)
    requires
        doy <= 365,
    ensures
        (153 * ((5 * doy + 2) / 153) + 2) / 5 <= doy,
{
}

proof fn lemma_month_last_day(doy: u32)
    by (bit_vector)
    requires
        doy <= 365,
    ensures
        (5 * doy + 2) / 153 < 11 ==> doy < (153 * ((5 * doy + 2) / 153) + 155) / 5,
{
}

proof fn lemma_february_first_day(doy: u32)
    by (bit_vector)
    requires
        doy <= 365,
    ensures
        (5 * doy + 2) / 153 == 11 ==> (153 * ((5 * doy + 2) / 153) + 2) / 5 == 337,
{
}

/// Month index `mp` (0 = March) of day `doy` of a counted year, and the day
/// `start` on which that month begins.
proof fn lemma_month_of_year(doy: int, mp: int, start: int)
    requires
        0 <= doy <= 365,
        mp == (5 * doy + 2) / 153,
        start == (153 * mp + 2) / 5,
    ensures
        0 <= mp <= 11,
        start <= doy,
        mp < 11 ==> doy < (153 * mp + 155) / 5,
        mp == 11 ==> start == 337,
{
    lemma_month_index(doy as u32);
    lemma_month_first_day(doy as u32);
    lemma_month_last_day(doy as u32);
    lemma_february_first_day(doy as u32);
}

/// Length of the counted (March-based) year `yoe` of an era: 366 when it ends
/// with a leap day.
proof fn lemma_counted_year_length(r: u32)
    by (bit_vector)
    requires
        r < 399,
    ensures
        (r % 4 == 3 && r % 100 != 99) ==> (r + 1) * 365 + (r + 1) / 4 - (r + 1) / 100 == r * 365
            + r / 4 - r / 100 + 366,
        !(r % 4 == 3 && r % 100 != 99) ==> (r + 1) * 365 + (r + 1) / 4 - (r + 1) / 100 == r
            * 365 + r / 4 - r / 100 + 365,
{
}

proof fn lemma_era_split(x: int, era: int, r: int)
    requires
        0 <= r < 400,
        x == era * 400 + r,
    ensures
        x / 400 == era,
        x % 400 == r,
        x % 4 == r % 4,
        x % 100 == r % 100,
{
    lemma_fundamental_div_mod_converse(x, 400, era, r);
    lemma_mod_mod(x, 4, 100);
    lemma_mod_mod(x, 100, 4);
}

/// The year-start count (days before March 1st of counted year `ya`, shifted
/// to the 1970 epoch), as `day_of_civil` computes it.
spec fn counted_year_start(ya: int) -> int {
    (ya / 400) * 146097 + (ya % 400) * 365 + (ya % 400) / 4 - (ya % 400) / 100 - 719468
}

proof fn lemma_counted_year_next(ya: int)
    ensures
        counted_year_start(ya + 1) == counted_year_start(ya) + if is_leap_year(ya + 1) {
            366int
        } else {
            365int
        },
{
    let era = ya / 400;
    let r = ya % 400;
    lemma_fundamental_div_mod_converse(ya, 400, era, r);
    assert(ya == era * 400 + r) by {
        vstd::arithmetic::div_mod::lemma_fundamental_div_mod(ya, 400);
    }
    if r < 399 {
        lemma_era_split(ya + 1, era, r + 1);
        lemma_counted_year_length(r as u32);
    } else {
        lemma_era_split(ya + 1, era + 1, 0);
        assert((era + 1) * 146097 == era * 146097 + 146097) by (nonlinear_arith);
    }
}

/// Every day number names a valid date: its month is in 1..=12 and its day
/// is within the month.
pub proof fn lemma_civil_of_day_is_date(z: int)
    ensures
        1 <= civil_of_day(z).1 <= 12,
        1 <= civil_of_day(z).2 <= days_in_month(civil_of_day(z).0, civil_of_day(z).1),
{
    let zz = z + 719468;
    let era = zz / 146097;
    let doe = zz % 146097;
    let yoe = (doe - doe / 1460 + doe / 36524 - doe / 146096) / 365;
    let base = 365 * yoe + yoe / 4 - yoe / 100;
    lemma_year_of_era(doe as u32, yoe as u32, base as u32);
    let doy = doe - base;
    let mp = (5 * doy + 2) / 153;
    let start = (153 * mp + 2) / 5;
    lemma_month_of_year(doy, mp, start);
    let y = yoe + era * 400;
    if mp == 11 {
        // February of year y + 1; its 29th day exists only in leap years.
        if doy == 365 {
            if yoe < 399 {
                lemma_era_split(y + 1, era, yoe + 1);
            } else {
                lemma_era_split(y + 1, era + 1, 0);
            }
        }
    }
}

/// Converting a day number to a date and back gives the day number.
pub proof fn lemma_civil_round_trip(z: int)
    ensures
        day_of_civil(civil_of_day(z).0, civil_of_day(z).1, civil_of_day(z).2) == z,
{
    let zz = z + 719468;
    let era = zz / 146097;
    let doe = zz % 146097;
    vstd::arithmetic::div_mod::lemma_fundamental_div_mod(zz, 146097);
    let yoe = (doe - doe / 1460 + doe / 36524 - doe / 146096) / 365;
    let base = 365 * yoe + yoe / 4 - yoe / 100;
    lemma_year_of_era(doe as u32, yoe as u32, base as u32);
    let doy = doe - base;
    let mp = (5 * doy + 2) / 153;
    let start = (153 * mp + 2) / 5;
    lemma_month_of_year(doy, mp, start);
    lemma_era_split(yoe + era * 400, era, yoe);
}

/// Consecutive months start `days_in_month` days apart.
pub proof fn lemma_month_length(y: int, m: int)
    requires
        1 <= m <= 12,
    ensures
        day_of_civil(next_month(y, m).0, next_month(y, m).1, 1) == day_of_civil(y, m, 1)
            + days_in_month(y, m),
{
    if m == 2 {
        lemma_counted_year_next(y - 1);
    }
}

/// A day `d` within month `mp` (0 = March) of a counted year lies in that
/// month.
proof fn lemma_day_in_month(mp: u32, d: u32)
    requires
        mp <= 11,
        1 <= d,
        d <= 31,
        (153 * mp + 2) / 5 + d - 1 < (153 * mp + 155) / 5,
    ensures
        (5 * ((153 * mp + 2) / 5 + d - 1) + 2) / 153 == mp,
{
}

/// A day `doy` of counted year `yoe` of an era lies in that year.
proof fn lemma_year_in_era(yoe: u32, doy: u32)
    requires
        yoe <= 399,
        doy <= 365,
        doy == 365 ==> (yoe % 4 == 3 && (yoe % 100 != 99 || yoe == 399)),
    ensures
        ((365 * yoe + yoe / 4 - yoe / 100 + doy) - (365 * yoe + yoe / 4 - yoe / 100 + doy) / 1460
            + (365 * yoe + yoe / 4 - yoe / 100 + doy) / 36524 - (365 * yoe + yoe / 4 - yoe / 100
            + doy) / 146096) / 365 == yoe,
{
}

/// The year after counted year `r` of an era is a leap year exactly when
/// counted year `r` ends with a leap day.
proof fn lemma_leap_after(r: u32)
    requires
        r < 400,
    ensures
        ((r + 1) % 4 == 0 && ((r + 1) % 100 != 0 || (r + 1) % 400 == 0)) == (r % 4 == 3 && (r
            % 100 != 99 || r == 399)),
{
}

/// Converting a valid date to its day number and back gives the date.
pub proof fn lemma_day_of_civil_round_trip(y: int, m: int, d: int)
    requires
        1 <= m <= 12,
        1 <= d <= days_in_month(y, m),
    ensures
        civil_of_day(day_of_civil(y, m, d)) == (y, m, d),
{
    let ya = if m <= 2 {
        y - 1
    } else {
        y
    };
    let era = ya / 400;
    let yoe = ya % 400;
    vstd::arithmetic::div_mod::lemma_fundamental_div_mod(ya, 400);
    let mp = if m > 2 {
        m - 3
    } else {
        m + 9
    };
    let start = (153 * mp + 2) / 5;
    let doy = start + d - 1;
    assert(doy < (153 * mp + 155) / 5 && doy <= 365);
    lemma_day_in_month(mp as u32, d as u32);
    if m == 2 && d == 29 {
        if yoe < 399 {
            lemma_era_split(y, era, yoe + 1);
        } else {
            lemma_era_split(y, era + 1, 0);
        }
        lemma_leap_after(yoe as u32);
    }
    lemma_year_in_era(yoe as u32, doy as u32);
    let base = 365 * yoe + yoe / 4 - yoe / 100;
    let doe = base + doy;
    assert(0 <= doe < 146097);
    let z = day_of_civil(y, m, d);
    assert(z + 719468 == era * 146097 + doe);
    lemma_fundamental_div_mod_converse(z + 719468, 146097, era, doe);
}

/// The local month of an instant starts on the first day of that month, and
/// the next local month on the first day of the month after it.
pub proof fn lemma_month_starts_on_the_first(utc: int, tz: int)
    requires
        in_calendar_range(utc),
        i32::MIN <= tz <= i32::MAX,
    ensures
        ({
            let date = civil_of_day(local_day(utc, tz));
            let next = next_month(date.0, date.1);
            &&& civil_of_day(local_day(local_month_start(utc, tz), tz)) == (date.0, date.1, 1int)
            &&& civil_of_day(local_day(local_next_month_start(utc, tz), tz)) == (next.0, next.1, 1int)
        }),
{
    let date = civil_of_day(local_day(utc, tz));
    let next = next_month(date.0, date.1);
    lemma_civil_of_day_is_date(local_day(utc, tz));
    let s = day_of_civil(date.0, date.1, 1);
    let n = day_of_civil(next.0, next.1, 1);
    assert(local_day(local_month_start(utc, tz), tz) == s) by {
        assert(local_ms(utc_ms(s * DAY_MS, tz), tz) == s * DAY_MS);
        vstd::arithmetic::div_mod::lemma_div_multiples_vanish(s, DAY_MS as int);
    }
    assert(local_day(local_next_month_start(utc, tz), tz) == n) by {
        assert(local_ms(utc_ms(n * DAY_MS, tz), tz) == n * DAY_MS);
        vstd::arithmetic::div_mod::lemma_div_multiples_vanish(n, DAY_MS as int);
    }
    lemma_day_of_civil_round_trip(date.0, date.1, 1);
    lemma_day_of_civil_round_trip(next.0, next.1, 1);
}

/// Day numbers of consecutive days of a month are consecutive.
pub proof fn lemma_day_of_month(y: int, m: int, d: int)
    ensures
        day_of_civil(y, m, d) == day_of_civil(y, m, 1) + d - 1,
{
}

/// Local wall-clock time of `utc_ms` at an offset of `tz_offset_min` minutes.
pub fn shift_local(utc_ms: i64, tz_offset_min: i32) -> (r: i64)
    requires
        i64::MIN <= local_ms(utc_ms as int, tz_offset_min as int) <= i64::MAX,
    ensures
        r == local_ms(utc_ms as int, tz_offset_min as int),
{
    utc_ms - tz_offset_min as i64 * MINUTE_MS
}

/// The instant whose local wall-clock time is `local_ms`.
pub fn unshift_local(local_ms: i64, tz_offset_min: i32) -> (r: i64)
    requires
        i64::MIN <= utc_ms(local_ms as int, tz_offset_min as int) <= i64::MAX,
    ensures
        r == utc_ms(local_ms as int, tz_offset_min as int),
{
    local_ms + tz_offset_min as i64 * MINUTE_MS
}

/// Day number of the date y-m-d.
pub fn days_from_civil(y: i32, m: u32, d: u32) -> (r: i64)
    requires
        1 <= m <= 12,
        d <= 31,
        m > 2 || y > i32::MIN,
    ensures
        r == day_of_civil(y as int, m as int, d as int),
{
    let m = m as i32;
    let y: i32 = if m <= 2 {
        y - 1
    } else {
        y
    };
    let era = floor_div(y as i64, 400);
    let yoe = floor_mod(y as i64, 400) as u32;
    let mp: i32 = if m > 2 {
        m - 3
    } else {
        m + 9
    };
    let doy: i32 = (153 * mp + 2) / 5 + d as i32 - 1;
    let doe: i64 = yoe as i64 * 365 + (yoe / 4 - yoe / 100) as i64 + doy as i64;
    era * 146097 + doe - 719468
}

/// The date (year, month, day) of day number `z`.
pub fn civil_from_days(z: i64) -> (r: (i32, u32, u32))
    requires
        i32::MIN <= ((z + 719468) / 146097) * 400,
        civil_of_day(z as int).0 <= i32::MAX,
    ensures
        r.0 as int == civil_of_day(z as int).0,
        r.1 as int == civil_of_day(z as int).1,
        r.2 as int == civil_of_day(z as int).2,
        1 <= r.1 <= 12,
        1 <= r.2 <= 31,
{
    proof {
        lemma_civil_of_day_is_date(z as int);
        lemma_civil_year_of_era(z as int);
    }
    let zz = z + 719468;
    let era = floor_div(zz, 146097);
    let doe = floor_mod(zz, 146097) as u32;
    let yoe: u32 = (doe - doe / 1460 + doe / 36524 - doe / 146096) / 365;
    proof {
        lemma_year_of_era(doe, yoe, (365 * yoe + yoe / 4 - yoe / 100) as u32);
    }
    let y: i64 = yoe as i64 + era * 400;
    let doy: u32 = doe - (365 * yoe + yoe / 4 - yoe / 100);
    let mp: u32 = (5 * doy + 2) / 153;
    proof {
        lemma_month_of_year(doy as int, mp as int, (153 * mp + 2) / 5);
    }
    let d: u32 = doy - (153 * mp + 2) / 5 + 1;
    let m: u32 = if mp < 10 {
        mp + 3
    } else {
        mp - 9
    };
    let y: i64 = if m <= 2 {
        y + 1
    } else {
        y
    };
    (y as i32, m, d)
}

/// The year of day number `z` lies in the era of `z`, in its counted year or
/// the one after.
proof fn lemma_civil_year_of_era(z: int)
    ensures
        ({
            let era = (z + 719468) / 146097;
            &&& era * 400 <= civil_of_day(z).0 <= era * 400 + 400
            &&& 0 <= (z + 719468) % 146097 < 146097
        }),
{
    let zz = z + 719468;
    let doe = zz % 146097;
    let yoe = (doe - doe / 1460 + doe / 36524 - doe / 146096) / 365;
    lemma_year_of_era(doe as u32, yoe as u32, (365 * yoe + yoe / 4 - yoe / 100) as u32);
}

/// Day numbers within `DAY_NUMBER_LIMIT` have years well within an `i32`.
proof fn lemma_civil_year_bounds(z: int)
    requires
        -DAY_NUMBER_LIMIT <= z <= DAY_NUMBER_LIMIT,
    ensures
        -200_000_000 <= civil_of_day(z).0 <= 200_000_000,
        i32::MIN <= ((z + 719468) / 146097) * 400,
{
    lemma_civil_year_of_era(z);
}

/// Facts about the local day of an instant in calendar range.
proof fn lemma_local_day_bounds(utc: int, tz: int)
    requires
        in_calendar_range(utc),
        i32::MIN <= tz <= i32::MAX,
    ensures
        -DAY_NUMBER_LIMIT <= local_day(utc, tz) <= DAY_NUMBER_LIMIT,
        local_day(utc, tz) * DAY_MS <= local_ms(utc, tz) < local_day(utc, tz) * DAY_MS + DAY_MS,
{
    let l = local_ms(utc, tz);
    assert(l == DAY_MS * (l / (DAY_MS as int)) + l % (DAY_MS as int)) by {
        vstd::arithmetic::div_mod::lemma_fundamental_div_mod(l, DAY_MS as int);
    }
}

/// Start (in UTC ms) of the local day that contains `utc_ms`.
pub fn start_of_local_day(utc_ms: i64, tz_offset_min: i32) -> (r: i64)
    requires
        in_calendar_range(utc_ms as int),
    ensures
        r == local_day_start(utc_ms as int, tz_offset_min as int),
        r <= utc_ms < r + DAY_MS,
{
    proof {
        lemma_local_day_bounds(utc_ms as int, tz_offset_min as int);
    }
    let local = shift_local(utc_ms, tz_offset_min);
    unshift_local(floor_div(local, DAY_MS) * DAY_MS, tz_offset_min)
}

/// Start (in UTC ms) of the local week, beginning on Monday, that contains `utc_ms`.
pub fn start_of_local_week(utc_ms: i64, tz_offset_min: i32) -> (r: i64)
    requires
        in_calendar_range(utc_ms as int),
    ensures
        r == local_week_start(utc_ms as int, tz_offset_min as int),
        r <= utc_ms < r + WEEK_MS,
        days_since_monday(local_day(r as int, tz_offset_min as int)) == 0,
{
    let ghost tz = tz_offset_min as int;
    proof {
        lemma_local_day_bounds(utc_ms as int, tz);
    }
    let day = start_of_local_day(utc_ms, tz_offset_min);
    let local_day_ms = shift_local(day, tz_offset_min);
    let days = floor_div(local_day_ms, DAY_MS);
    assert(days == local_day(utc_ms as int, tz)) by {
        let k = local_day(utc_ms as int, tz);
        lemma_fundamental_div_mod_converse(k * DAY_MS, DAY_MS as int, k, 0);
    }
    let sun0 = floor_mod(days + 4, 7) as i32;
    let back = ((sun0 + 6) % 7) as i64;
    assert(back == days_since_monday(days as int)) by {
        lemma_fundamental_div_mod_converse(days + 4, 7, (days + 4) / 7, sun0 as int);
        let q = (days + 4) / 7;
        assert(days + 3 == 7 * q + (sun0 - 1));
        if sun0 >= 1 {
            lemma_fundamental_div_mod_converse(days + 3, 7, q, sun0 - 1);
        } else {
            lemma_fundamental_div_mod_converse(days + 3, 7, q - 1, 6);
        }
    }
    let r = day - back * DAY_MS;
    proof {
        let k = days as int - back;
        assert(local_ms(r as int, tz) == k * DAY_MS);
        lemma_fundamental_div_mod_converse(k * DAY_MS, DAY_MS as int, k, 0);
        assert(local_day(r as int, tz) == k);
        let q = (days + 3) / 7;
        vstd::arithmetic::div_mod::lemma_fundamental_div_mod(days + 3, 7);
        lemma_fundamental_div_mod_converse(k + 3, 7, q, 0);
    }
    r
}

/// The local week of an instant starts at or before it, less than a week earlier.
pub proof fn lemma_week_start_bounds(utc: int, tz: int)
    requires
        in_calendar_range(utc),
        i32::MIN <= tz <= i32::MAX,
    ensures
        local_week_start(utc, tz) <= utc < local_week_start(utc, tz) + WEEK_MS,
{
    lemma_local_day_bounds(utc, tz);
    let k = local_day(utc, tz);
    assert(0 <= days_since_monday(k) < 7);
    assert(days_since_monday(k) * DAY_MS <= 6 * DAY_MS) by (nonlinear_arith)
        requires
            0 <= days_since_monday(k) < 7,
    ;
    assert(days_since_monday(k) * DAY_MS >= 0) by (nonlinear_arith)
        requires
            0 <= days_since_monday(k),
    ;
}

/// Facts tying the month of an instant to its local day.
proof fn lemma_month_bounds(utc: int, tz: int)
    requires
        in_calendar_range(utc),
        i32::MIN <= tz <= i32::MAX,
    ensures
        ({
            let days = local_day(utc, tz);
            let date = civil_of_day(days);
            let next = next_month(date.0, date.1);
            &&& day_of_civil(date.0, date.1, 1) <= days
            &&& days < day_of_civil(next.0, next.1, 1)
            &&& days - 31 <= day_of_civil(date.0, date.1, 1)
            &&& day_of_civil(next.0, next.1, 1) <= days + 31
        }),
        local_month_start(utc, tz) <= utc < local_next_month_start(utc, tz),
{
    let days = local_day(utc, tz);
    lemma_local_day_bounds(utc, tz);
    lemma_civil_of_day_is_date(days);
    lemma_civil_round_trip(days);
    let date = civil_of_day(days);
    lemma_day_of_month(date.0, date.1, date.2);
    lemma_month_length(date.0, date.1);
    let s = day_of_civil(date.0, date.1, 1);
    let next = next_month(date.0, date.1);
    let n = day_of_civil(next.0, next.1, 1);
    assert(s * DAY_MS <= days * DAY_MS) by (nonlinear_arith)
        requires
            s <= days,
    ;
    assert((days + 1) * DAY_MS <= n * DAY_MS) by (nonlinear_arith)
        requires
            days + 1 <= n,
    ;
}

/// The local month of an instant starts at or before it, and the next local
/// month starts after it, at most 32 days later.
pub proof fn lemma_next_month_start_advances(utc: int, tz: int)
    requires
        in_calendar_range(utc),
        i32::MIN <= tz <= i32::MAX,
    ensures
        local_month_start(utc, tz) <= utc < local_next_month_start(utc, tz),
        local_next_month_start(utc, tz) <= utc + 32 * DAY_MS,
{
    lemma_local_day_bounds(utc, tz);
    lemma_month_bounds(utc, tz);
    let days = local_day(utc, tz);
    let date = civil_of_day(days);
    let next = next_month(date.0, date.1);
    let n = day_of_civil(next.0, next.1, 1);
    assert(n * DAY_MS <= (days + 31) * DAY_MS) by (nonlinear_arith)
        requires
            n <= days + 31,
    ;
}

/// Start (in UTC ms) of the local calendar month that contains `utc_ms`.
pub fn start_of_local_month(utc_ms: i64, tz_offset_min: i32) -> (r: i64)
    requires
        in_calendar_range(utc_ms as int),
    ensures
        r == local_month_start(utc_ms as int, tz_offset_min as int),
        utc_ms - 32 * DAY_MS <= r <= utc_ms,
{
    let ghost tz = tz_offset_min as int;
    proof {
        lemma_local_day_bounds(utc_ms as int, tz);
        lemma_month_bounds(utc_ms as int, tz);
    }
    let local = shift_local(utc_ms, tz_offset_min);
    let days = floor_div(local, DAY_MS);
    proof {
        lemma_civil_year_bounds(days as int);
    }
    let (y, m, _) = civil_from_days(days);
    let month_start_days = days_from_civil(y, m, 1);
    proof {
        assert(month_start_days * DAY_MS >= (days - 31) * DAY_MS) by (nonlinear_arith)
            requires
                month_start_days >= days - 31,
        ;
        assert(month_start_days * DAY_MS <= days * DAY_MS) by (nonlinear_arith)
            requires
                month_start_days <= days,
        ;
    }
    unshift_local(month_start_days * DAY_MS, tz_offset_min)
}

/// Start (in UTC ms) of the local calendar month after the one that contains `utc_ms`.
pub fn add_local_month(utc_ms: i64, tz_offset_min: i32) -> (r: i64)
    requires
        in_calendar_range(utc_ms as int),
    ensures
        r == local_next_month_start(utc_ms as int, tz_offset_min as int),
        utc_ms < r,
        r <= utc_ms + 32 * DAY_MS,
{
    let ghost tz = tz_offset_min as int;
    proof {
        lemma_local_day_bounds(utc_ms as int, tz);
        lemma_month_bounds(utc_ms as int, tz);
    }
    let local = shift_local(utc_ms, tz_offset_min);
    let days = floor_div(local, DAY_MS);
    proof {
        lemma_civil_year_bounds(days as int);
    }
    let (y, m, _) = civil_from_days(days);
    let mut y = y;
    let mut m = m + 1;
    if m == 13 {
        m = 1;
        y = y + 1;
    }
    let next_days = days_from_civil(y, m, 1);
    proof {
        assert(next_days * DAY_MS <= (days + 31) * DAY_MS) by (nonlinear_arith)
            requires
                next_days <= days + 31,
        ;
        assert(next_days * DAY_MS >= (days + 1) * DAY_MS) by (nonlinear_arith)
            requires
                next_days >= days + 1,
        ;
    }
    unshift_local(next_days * DAY_MS, tz_offset_min)
}

} // verus!
