//! Calendar dates and minute-precision timestamps, modelled as plain
//! integers, together with the proleptic day ordinal: a continuous count of
//! days from a fixed epoch (day 1 is January 1 of year 1 in the proleptic
//! Gregorian calendar), so that consecutive calendar days map to consecutive
//! integers. The ordinal gives charting consumers a uniform numeric x-axis
//! and is also the order in which the history store keeps its entries.

use vstd::arithmetic::div_mod::{
    lemma_div_nonincreasing, lemma_div_pos_is_pos, lemma_fundamental_div_mod,
    lemma_fundamental_div_mod_converse_div, lemma_mod_bound, lemma_mod_multiples_basic,
};
use vstd::prelude::*;

verus! {

/// Largest calendar year the library accepts. Exports name the year as an
/// offset from 1900, so anything beyond this bound is far outside the data
/// the format was designed for and is rejected as an invalid date.
pub const MAX_YEAR: u32 = 9999;

/// A calendar date (year/month/day, no time component), the key of the
/// history store. Month and day are one-based.
#[derive(Clone, Copy, PartialEq, Eq, Structural, Debug)]
pub struct CalendarDate {
    pub year: u32,
    pub month: u32,
    pub day: u32,
}

/// A timezone-local timestamp with minute precision (seconds are always zero
/// in the export format).
#[derive(Clone, Copy, PartialEq, Eq, Structural, Debug)]
pub struct Timestamp {
    pub date: CalendarDate,
    pub hour: u32,
    pub minute: u32,
}

pub open spec fn is_leap_year(y: int) -> bool {
    (y % 4 == 0 && y % 100 != 0) || y % 400 == 0
}

pub open spec fn days_in_year(y: int) -> int {
    if is_leap_year(y) {
        366
    } else {
        365
    }
}

/// Number of days in month `m` (one-based) of year `y`.
pub open spec fn days_in_month(y: int, m: int) -> int {
    if m == 2 {
        if is_leap_year(y) {
            29
        } else {
            28
        }
    } else if m == 4 || m == 6 || m == 9 || m == 11 {
        30
    } else {
        31
    }
}

/// Number of days of year `y` that pass before month `m` (one-based) begins.
pub open spec fn days_before_month(y: int, m: int) -> int {
    let base: int = if m == 1 {
        0
    } else if m == 2 {
        31
    } else if m == 3 {
        59
    } else if m == 4 {
        90
    } else if m == 5 {
        120
    } else if m == 6 {
        151
    } else if m == 7 {
        181
    } else if m == 8 {
        212
    } else if m == 9 {
        243
    } else if m == 10 {
        273
    } else if m == 11 {
        304
    } else {
        334
    };
    if m >= 3 && is_leap_year(y) {
        base + 1
    } else {
        base
    }
}

/// Number of leap years in `1..=y`.
pub open spec fn leap_years_through(y: int) -> int {
    y / 4 - y / 100 + y / 400
}

/// Number of days that pass before year `y` begins, counting from the epoch.
pub open spec fn days_before_year(y: int) -> int {
    365 * (y - 1) + leap_years_through(y - 1)
}

pub open spec fn date_valid(d: CalendarDate) -> bool {
    &&& 1 <= d.year <= MAX_YEAR
    &&& 1 <= d.month <= 12
    &&& 1 <= d.day <= days_in_month(d.year as int, d.month as int)
}

pub open spec fn timestamp_valid(t: Timestamp) -> bool {
    &&& date_valid(t.date)
    &&& t.hour <= 23
    &&& t.minute <= 59
}

/// The proleptic day ordinal of a date: January 1 of year 1 is day 1, and
/// every later date is one more than the day before it.
pub open spec fn date_ordinal(d: CalendarDate) -> int {
    days_before_year(d.year as int) + days_before_month(d.year as int, d.month as int) + d.day
}

/// Calendar order on dates: year, then month, then day.
pub open spec fn date_before(a: CalendarDate, b: CalendarDate) -> bool {
    ||| a.year < b.year
    ||| (a.year == b.year && a.month < b.month)
    ||| (a.year == b.year && a.month == b.month && a.day < b.day)
}

/// An ordinal no valid date can exceed; keeps the exec computation in range.
pub const MAX_ORDINAL: u64 = 3_660_000;

/// The count of leap years up to `y` is nonnegative and at most `y`.
proof fn lemma_leap_years_through_bounds(y: int)
    requires
        0 <= y,
    ensures
        0 <= leap_years_through(y) <= y,
{
    lemma_div_pos_is_pos(y, 100);
    lemma_div_pos_is_pos(y, 400);
    lemma_div_nonincreasing(y, 4);
    lemma_coarser_div_is_smaller(y, 4, 100);
    lemma_coarser_div_is_smaller(y, 100, 400);
}

/// For nonnegative `y` and divisors `0 < a <= b`, `y / b <= y / a`.
proof fn lemma_coarser_div_is_smaller(y: int, a: int, b: int)
    requires
        0 <= y,
        0 < a <= b,
    ensures
        y / b <= y / a,
{
    lemma_fundamental_div_mod(y, a);
    lemma_fundamental_div_mod(y, b);
    lemma_mod_bound(y, a);
    lemma_mod_bound(y, b);
    lemma_div_pos_is_pos(y, a);
    lemma_div_pos_is_pos(y, b);
    let qa = y / a;
    let qb = y / b;
    assert(qb <= qa) by (nonlinear_arith)
        requires
            a * qa + (a - 1) >= b * qb,
            0 < a <= b,
            qa >= 0,
            qb >= 0,
    ;
}

/// A valid date's ordinal is at least 1 and at most `MAX_ORDINAL`.
pub proof fn lemma_date_ordinal_bounds(d: CalendarDate)
    requires
        date_valid(d),
    ensures
        1 <= date_ordinal(d) <= MAX_ORDINAL,
{
    lemma_leap_years_through_bounds(d.year - 1);
}

/// A multiple of 400 is a multiple of 100 and of 4, and a multiple of 100 is
/// a multiple of 4.
proof fn lemma_gregorian_divisors(y: int)
    ensures
        y % 400 == 0 ==> y % 100 == 0,
        y % 100 == 0 ==> y % 4 == 0,
{
    if y % 400 == 0 {
        lemma_fundamental_div_mod(y, 400);
        assert(y == 100 * (4 * (y / 400)));
        lemma_mod_multiples_basic(4 * (y / 400), 100);
        assert((4 * (y / 400)) * 100 == 100 * (4 * (y / 400))) by (nonlinear_arith);
    }
    if y % 100 == 0 {
        lemma_fundamental_div_mod(y, 100);
        assert(y == 4 * (25 * (y / 100)));
        lemma_mod_multiples_basic(25 * (y / 100), 4);
        assert((25 * (y / 100)) * 4 == 4 * (25 * (y / 100))) by (nonlinear_arith);
    }
}

/// Moving from `n - 1` to `n` raises the quotient by `k` exactly when `k`
/// divides `n`.
proof fn lemma_div_step(n: int, k: int)
    requires
        1 <= n,
        1 <= k,
    ensures
        n / k - (n - 1) / k == if n % k == 0 {
            1int
        } else {
            0int
        },
{
    lemma_fundamental_div_mod(n, k);
    lemma_mod_bound(n, k);
    let q = n / k;
    let r = n % k;
    if r == 0 {
        assert(n - 1 == (q - 1) * k + (k - 1)) by (nonlinear_arith)
            requires
                n == k * q + r,
                r == 0,
        ;
        lemma_fundamental_div_mod_converse_div(n - 1, k, q - 1, k - 1);
    } else {
        assert(n - 1 == q * k + (r - 1)) by (nonlinear_arith)
            requires
                n == k * q + r,
        ;
        lemma_fundamental_div_mod_converse_div(n - 1, k, q, r - 1);
    }
}

/// One year's days separate the starts of consecutive years.
proof fn lemma_days_before_year_step(y: int)
    requires
        1 <= y,
    ensures
        days_before_year(y + 1) == days_before_year(y) + days_in_year(y),
{
    lemma_div_step(y, 4);
    lemma_div_step(y, 100);
    lemma_div_step(y, 400);
    lemma_gregorian_divisors(y);
}

/// The start of an earlier year comes no later than the start of a later
/// year, and at least 365 days separate the starts of distinct years.
proof fn lemma_days_before_year_mono(y1: int, y2: int)
    requires
        1 <= y1 <= y2,
    ensures
        days_before_year(y1) <= days_before_year(y2),
        y1 < y2 ==> days_before_year(y1) + days_in_year(y1) <= days_before_year(y2),
    decreases y2 - y1,
{
    if y1 < y2 {
        lemma_days_before_year_step(y1);
        lemma_days_before_year_mono(y1 + 1, y2);
    }
}

/// Within a valid year, every day of a valid month falls inside the year.
proof fn lemma_day_within_year(y: int, m: int, d: int)
    requires
        1 <= m <= 12,
        1 <= d <= days_in_month(y, m),
    ensures
        1 <= days_before_month(y, m) + d <= days_in_year(y),
{
}

/// Later months of the same year begin strictly after the end of earlier
/// months.
proof fn lemma_days_before_month_mono(y: int, m1: int, m2: int)
    requires
        1 <= m1 < m2 <= 12,
    ensures
        days_before_month(y, m1) + days_in_month(y, m1) <= days_before_month(y, m2),
{
}

/// The day ordinal is strictly increasing in calendar order: of two valid
/// dates, the earlier one has the smaller ordinal.
pub proof fn lemma_date_ordinal_increases(a: CalendarDate, b: CalendarDate)
    requires
        date_valid(a),
        date_valid(b),
        date_before(a, b),
    ensures
        date_ordinal(a) < date_ordinal(b),
{
    if a.year < b.year {
        lemma_day_within_year(a.year as int, a.month as int, a.day as int);
        lemma_days_before_year_mono(a.year as int, b.year as int);
        lemma_day_within_year(b.year as int, b.month as int, b.day as int);
    } else if a.month < b.month {
        lemma_days_before_month_mono(a.year as int, a.month as int, b.month as int);
    }
}

/// Two valid dates with the same ordinal are the same date.
pub proof fn lemma_date_ordinal_injective(a: CalendarDate, b: CalendarDate)
    requires
        date_valid(a),
        date_valid(b),
        date_ordinal(a) == date_ordinal(b),
    ensures
        a == b,
{
    if date_before(a, b) {
        lemma_date_ordinal_increases(a, b);
    } else if date_before(b, a) {
        lemma_date_ordinal_increases(b, a);
    }
}

/// Computes the proleptic day ordinal of a valid date.
pub fn days_from_ce(d: &CalendarDate) -> (r: u64)
    requires
        date_valid(*d),
    ensures
        r == date_ordinal(*d),
        1 <= r <= MAX_ORDINAL,
{
    proof {
        lemma_date_ordinal_bounds(*d);
        lemma_leap_years_through_bounds(d.year - 1);
    }
    let y: u64 = (d.year - 1) as u64;
    proof {
        lemma_coarser_div_is_smaller(y as int, 4, 100);
        lemma_div_pos_is_pos(y as int, 400);
    }
    let leaps: u64 = y / 4 - y / 100 + y / 400;
    let before_year: u64 = 365 * y + leaps;
    let before_month: u64 = days_before_month_exec(d.year, d.month);
    before_year + before_month + d.day as u64
}

/// Computes `days_before_month` for a valid year and month.
fn days_before_month_exec(year: u32, month: u32) -> (r: u64)
    requires
        1 <= month <= 12,
    ensures
        r == days_before_month(year as int, month as int),
{
    let base: u64 = if month == 1 {
        0
    } else if month == 2 {
        31
    } else if month == 3 {
        59
    } else if month == 4 {
        90
    } else if month == 5 {
        120
    } else if month == 6 {
        151
    } else if month == 7 {
        181
    } else if month == 8 {
        212
    } else if month == 9 {
        243
    } else if month == 10 {
        273
    } else if month == 11 {
        304
    } else {
        334
    };
    if month >= 3 && is_leap_year_exec(year) {
        base + 1
    } else {
        base
    }
}

/// The latest date the library supports; its ordinal bounds the range
/// `date_from_ordinal` can invert.
pub open spec fn last_supported_date() -> CalendarDate {
    CalendarDate { year: MAX_YEAR, month: 12, day: 31 }
}

/// Computes `days_before_year` for years up to one past `MAX_YEAR` (the
/// bound one past the end is the last supported date's ordinal).
fn days_before_year_exec(year: u32) -> (r: u64)
    requires
        1 <= year <= MAX_YEAR + 1,
    ensures
        r == days_before_year(year as int),
{
    proof {
        lemma_leap_years_through_bounds(year - 1);
        lemma_coarser_div_is_smaller(year - 1, 4, 100);
        lemma_div_pos_is_pos(year - 1, 400);
    }
    let y: u64 = (year - 1) as u64;
    365 * y + y / 4 - y / 100 + y / 400
}

/// Recovers the calendar date with a given proleptic day ordinal: the
/// inverse of `days_from_ce` on the supported range, `None` outside it.
pub fn date_from_ordinal(ordinal: u64) -> (r: Option<CalendarDate>)
    ensures
        r is Some <==> 1 <= ordinal <= date_ordinal(last_supported_date()),
        r matches Some(d) ==> date_valid(d) && date_ordinal(d) == ordinal,
{
    proof {
        lemma_date_ordinal_bounds(last_supported_date());
        lemma_days_before_year_step(MAX_YEAR as int);
    }
    let limit = days_before_year_exec(MAX_YEAR + 1);
    if ordinal < 1 || ordinal > limit {
        return None;
    }
    let mut year: u32 = 1;
    loop
        invariant
            1 <= year <= MAX_YEAR,
            1 <= ordinal,
            days_before_year(year as int) < ordinal,
            ordinal <= days_before_year(MAX_YEAR as int + 1),
        ensures
            1 <= year <= MAX_YEAR,
            days_before_year(year as int) < ordinal,
            year < MAX_YEAR ==> days_before_year(year as int + 1) >= ordinal,
        decreases MAX_YEAR - year,
    {
        if year == MAX_YEAR {
            break;
        }
        if days_before_year_exec(year + 1) >= ordinal {
            break;
        }
        year = year + 1;
    }
    proof {
        lemma_days_before_year_step(year as int);
    }
    let before_year = days_before_year_exec(year);
    let day_of_year = ordinal - before_year;
    let mut month: u32 = 1;
    loop
        invariant
            1 <= month <= 12,
            1 <= year <= MAX_YEAR,
            day_of_year == ordinal - days_before_year(year as int),
            days_before_month(year as int, month as int) < day_of_year,
            day_of_year <= days_in_year(year as int),
        ensures
            1 <= month <= 12,
            days_before_month(year as int, month as int) < day_of_year,
            month < 12 ==> days_before_month(year as int, month as int + 1) >= day_of_year,
        decreases 12 - month,
    {
        if month == 12 {
            break;
        }
        if days_before_month_exec(year, month + 1) >= day_of_year {
            break;
        }
        month = month + 1;
    }
    let before_month = days_before_month_exec(year, month);
    let day_u64 = day_of_year - before_month;
    proof {
        assert(day_u64 <= 366);
    }
    let d = CalendarDate { year, month, day: day_u64 as u32 };
    proof {
        assert(days_before_month(year as int, month as int) + days_in_month(
            year as int,
            month as int,
        ) >= day_of_year);
        assert(date_valid(d));
    }
    Some(d)
}

/// Computes `days_in_month` for a valid month.
pub fn days_in_month_exec(year: u32, month: u32) -> (r: u32)
    requires
        1 <= month <= 12,
    ensures
        r == days_in_month(year as int, month as int),
{
    if month == 2 {
        if is_leap_year_exec(year) {
            29
        } else {
            28
        }
    } else if month == 4 || month == 6 || month == 9 || month == 11 {
        30
    } else {
        31
    }
}

/// Whether `year` is a leap year in the proleptic Gregorian calendar.
pub fn is_leap_year_exec(year: u32) -> (r: bool)
    ensures
        r == is_leap_year(year as int),
{
    (year % 4 == 0 && year % 100 != 0) || year % 400 == 0
}

} // verus!
