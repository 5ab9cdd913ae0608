//! Conversion between signed day offsets (day 0 = 1970-01-01) and
//! proleptic Gregorian calendar dates.
//!
//! The forward converter avoids per-month loops and branches: it shifts
//! the offset into a far-past era, folds the 100/400-year leap rule into
//! a regular 4-year cycle with one fixed-point multiplication, and then
//! extracts year, month and day with further fixed-point multiplications
//! by precomputed reciprocal constants, using 128-bit products.

use vstd::prelude::*;

verus! {

/// Smallest day offset the converter is tuned for.
pub const MIN_DAY_OFFSET: i64 = -100000;

/// Largest day offset the converter is tuned for.
pub const MAX_DAY_OFFSET: i64 = 1000000;

/// Year bound under which accumulated day counts stay well within `i64`.
pub const MAX_YEAR_MAGNITUDE: i64 = 5000000000;

/// Number of 400-year cycles the era shift reaches back.
const ERAS: i64 = 4726498270;

/// Era shift in days: `ERAS` whole 400-year cycles (146097 days each),
/// minus the days from the cycle start (a March 1) to 1970-01-01.
const D_SHIFT: i64 = 146097 * ERAS - 719469;

/// Era shift in years.
const Y_SHIFT: i64 = 400 * ERAS - 1;

/// floor(2^64 * 4 / 146097): fixed-point reciprocal of the 400-year cycle.
const C1: u64 = 505054698555331;

/// ceil(2^64 * 4 / 1461): fixed-point reciprocal of the 4-year cycle.
const C2: u64 = 50504432782230121;

/// floor(2^64 / 2140): fixed-point reciprocal of the scaled month length.
const C3: u64 = 8619973866219416;

/// A proleptic Gregorian calendar date.
#[derive(Debug, PartialEq, Eq, Structural, Clone)]
pub struct Date {
    pub year: i64,
    pub month: u32,
    pub day: u32,
}

/// Gregorian leap-year rule: divisible by 4, except centuries, which
/// must be divisible by 400.
pub open spec fn is_leap_year_spec(year: int) -> bool {
    (year % 4 == 0 && year % 100 != 0) || year % 400 == 0
}

/// Number of days in `month` of `year`; 0 for a month outside 1..=12.
pub open spec fn days_in_month_spec(year: int, month: int) -> int {
    if month == 2 {
        if is_leap_year_spec(year) {
            29
        } else {
            28
        }
    } else if month == 4 || month == 6 || month == 9 || month == 11 {
        30
    } else if 1 <= month && month <= 12 {
        31
    } else {
        0
    }
}

/// Number of days in `year`.
pub open spec fn year_length(year: int) -> int {
    if is_leap_year_spec(year) {
        366
    } else {
        365
    }
}

/// Days from `year`-01-01 up to `year`-`month`-01; meaningful for
/// months 1..=13, where month 13 stands for January of the next year.
pub open spec fn days_before_month(year: int, month: int) -> int
    decreases month,
{
    if month <= 1 {
        0
    } else {
        days_before_month(year, month - 1) + days_in_month_spec(year, month - 1)
    }
}

/// Signed day count from 1970-01-01 to `year`-01-01.
pub open spec fn days_before_year(year: int) -> int
    decreases (if year >= 1970 { year - 1970 } else { 1970 - year }),
{
    if year == 1970 {
        0
    } else if year > 1970 {
        days_before_year(year - 1) + year_length(year - 1)
    } else {
        days_before_year(year + 1) - year_length(year)
    }
}

/// A structurally valid calendar date.
pub open spec fn date_valid(d: Date) -> bool {
    &&& 1 <= d.month
    &&& d.month <= 12
    &&& 1 <= d.day
    &&& d.day <= days_in_month_spec(d.year as int, d.month as int)
}

/// The day offset a date denotes; 0 is the sentinel value for a month
/// outside 1..=12 or a day below 1.
pub open spec fn date_to_days_spec(d: Date) -> int {
    if 1 <= d.month && d.month <= 12 && 1 <= d.day {
        days_before_year(d.year as int) + days_before_month(d.year as int, d.month as int)
            + d.day - 1
    } else {
        0
    }
}

/// Crossing into the next year adds one year length to the day count.
proof fn lemma_days_before_year_step(year: int)
    ensures
        days_before_year(year + 1) == days_before_year(year) + year_length(year),
{
}

/// The day count of a year start grows linearly with the year.
proof fn lemma_days_before_year_bounds(year: int)
    ensures
        year >= 1970 ==> 365 * (year - 1970) <= days_before_year(year) <= 366 * (year - 1970),
        year <= 1970 ==> -366 * (1970 - year) <= days_before_year(year) <= -365 * (1970 - year),
    decreases (if year >= 1970 { year - 1970 } else { 1970 - year }),
{
    if year > 1970 {
        lemma_days_before_year_bounds(year - 1);
    } else if year < 1970 {
        lemma_days_before_year_bounds(year + 1);
    }
}

/// Later years start at later day counts.
proof fn lemma_days_before_year_mono(y1: int, y2: int)
    requires
        y1 <= y2,
    ensures
        days_before_year(y1) <= days_before_year(y2),
    decreases y2 - y1,
{
    if y1 < y2 {
        lemma_days_before_year_mono(y1, y2 - 1);
        lemma_days_before_year_step(y2 - 1);
    }
}

/// Within months 1..=13, later months start later, by 28 to 31 days each.
proof fn lemma_days_before_month_bounds(year: int, m1: int, m2: int)
    requires
        1 <= m1,
        m1 <= m2,
        m2 <= 13,
    ensures
        days_before_month(year, m1) + 28 * (m2 - m1) <= days_before_month(year, m2),
        days_before_month(year, m2) <= days_before_month(year, m1) + 31 * (m2 - m1),
    decreases m2 - m1,
{
    if m1 < m2 {
        lemma_days_before_month_bounds(year, m1, m2 - 1);
    }
}

/// The twelve months of a year sum to the year's length.
proof fn lemma_months_sum(year: int)
    ensures
        days_before_month(year, 13) == year_length(year),
{
    reveal_with_fuel(days_before_month, 13);
}

/// A valid date's offset within its year lies inside the year.
proof fn lemma_offset_in_year(d: Date)
    requires
        date_valid(d),
    ensures
        0 <= days_before_month(d.year as int, d.month as int) + d.day - 1
            < year_length(d.year as int),
{
    let y = d.year as int;
    let m = d.month as int;
    lemma_days_before_month_bounds(y, 1, m);
    lemma_days_before_month_bounds(y, m + 1, 13);
    lemma_months_sum(y);
    assert(days_before_month(y, m + 1) == days_before_month(y, m) + days_in_month_spec(y, m));
}

/// A date that is calendar-earlier denotes a strictly smaller day offset.
pub proof fn lemma_date_order(a: Date, b: Date)
    requires
        date_valid(a),
        date_valid(b),
        a.year < b.year || (a.year == b.year && a.month < b.month) || (a.year == b.year
            && a.month == b.month && a.day < b.day),
    ensures
        date_to_days_spec(a) < date_to_days_spec(b),
{
    let ya = a.year as int;
    let ma = a.month as int;
    let yb = b.year as int;
    let mb = b.month as int;
    if ya == yb {
        if ma < mb {
            lemma_days_before_month_bounds(ya, ma + 1, mb);
            assert(days_before_month(ya, ma + 1) == days_before_month(ya, ma)
                + days_in_month_spec(ya, ma));
        }
    } else {
        lemma_offset_in_year(a);
        lemma_offset_in_year(b);
        lemma_days_before_year_step(ya);
        lemma_days_before_year_mono(ya + 1, yb);
    }
}

/// Two valid dates with the same day offset are the same date.
pub proof fn lemma_date_unique(a: Date, b: Date)
    requires
        date_valid(a),
        date_valid(b),
        date_to_days_spec(a) == date_to_days_spec(b),
    ensures
        a.year == b.year,
        a.month == b.month,
        a.day == b.day,
{
    if a.year < b.year || (a.year == b.year && a.month < b.month) || (a.year == b.year && a.month
        == b.month && a.day < b.day) {
        lemma_date_order(a, b);
    } else if b.year < a.year || (b.year == a.year && b.month < a.month) || (b.year == a.year
        && b.month == a.month && b.day < a.day) {
        lemma_date_order(b, a);
    }
}

/// Round trip: `days_to_date` returns a valid date whose
/// `date_to_days_spec` is exactly the input offset, and `to_days`
/// returns `date_to_days_spec`; stated here over the model, such a date
/// is the one and only valid date of its offset.
pub proof fn lemma_round_trip(days: int, date: Date)
    requires
        date_valid(date),
        date_to_days_spec(date) == days,
    ensures
        forall|other: Date|
            date_valid(other) && date_to_days_spec(other) == days ==> other == date,
{
    assert forall|other: Date|
        date_valid(other) && date_to_days_spec(other) == days implies other == date by {
        lemma_date_unique(other, date);
    }
}

/// Monotonicity: a strictly smaller day offset means a strictly smaller
/// date under the `year * 10000 + month * 100 + day` ordering.
pub proof fn lemma_calendar_monotonic(a: Date, b: Date)
    requires
        date_valid(a),
        date_valid(b),
        date_to_days_spec(a) < date_to_days_spec(b),
    ensures
        a.year * 10000 + a.month * 100 + a.day < b.year * 10000 + b.month * 100 + b.day,
{
    if !(a.year < b.year || (a.year == b.year && a.month < b.month) || (a.year == b.year && a.month
        == b.month && a.day < b.day)) {
        if b.year < a.year || (b.year == a.year && b.month < a.month) || (b.year == a.year
            && b.month == a.month && b.day < a.day) {
            lemma_date_order(b, a);
        }
    }
}

/// Sequential step: a valid date one day after another valid date is the
/// same month with the day incremented, or day 1 of the next month, or
/// January 1 of the next year after a December 31.
pub proof fn lemma_next_day(a: Date, b: Date)
    requires
        date_valid(a),
        date_valid(b),
        a.year < i64::MAX,
        date_to_days_spec(b) == date_to_days_spec(a) + 1,
    ensures
        (b.year == a.year && b.month == a.month && b.day == a.day + 1) || (b.year == a.year
            && b.month == a.month + 1 && b.day == 1 && a.day == days_in_month_spec(
            a.year as int,
            a.month as int,
        )) || (b.year == a.year + 1 && b.month == 1 && b.day == 1 && a.month == 12 && a.day == 31),
{
    let y = a.year as int;
    let m = a.month as int;
    if (a.day as int) < days_in_month_spec(y, m) {
        let c = Date { year: a.year, month: a.month, day: (a.day + 1) as u32 };
        lemma_date_unique(b, c);
    } else if a.month < 12 {
        let c = Date { year: a.year, month: (a.month + 1) as u32, day: 1u32 };
        assert(days_before_month(y, m + 1) == days_before_month(y, m) + days_in_month_spec(y, m));
        lemma_date_unique(b, c);
    } else {
        let c = Date { year: (a.year + 1) as i64, month: 1u32, day: 1u32 };
        lemma_months_sum(y);
        assert(days_before_month(y, 13) == days_before_month(y, 12) + days_in_month_spec(y, 12));
        lemma_days_before_year_step(y);
        lemma_date_unique(b, c);
    }
}

/// A valid February 29 only falls in a leap year.
pub proof fn lemma_feb29_leap(d: Date)
    requires
        date_valid(d),
        d.month == 2,
        d.day == 29,
    ensures
        is_leap_year_spec(d.year as int),
{
}

/// A century year that is leap is divisible by 400.
pub proof fn lemma_century_leap(year: int)
    requires
        is_leap_year_spec(year),
        year % 100 == 0,
    ensures
        year % 400 == 0,
{
}

impl Date {
    /// Check if a year is a leap year (Gregorian calendar rules).
    pub fn is_leap_year(year: i64) -> (r: bool)
        ensures
            r == is_leap_year_spec(year as int),
    {
        (year % 4 == 0 && year % 100 != 0) || (year % 400 == 0)
    }

    /// Get the number of days in a given month for a given year.
    pub fn days_in_month(year: i64, month: u32) -> (r: u32)
        ensures
            r as int == days_in_month_spec(year as int, month as int),
    {
        match month {
            1 | 3 | 5 | 7 | 8 | 10 | 12 => 31,
            4 | 6 | 9 | 11 => 30,
            2 => if Self::is_leap_year(year) {
                29
            } else {
                28
            },
            _ => 0,
        }
    }

    /// Convert the date back to days since the epoch by accumulation:
    /// whole years from 1970, then whole months, then the day. Returns
    /// the sentinel 0 for a month outside 1..=12 or a day below 1. The
    /// year bound keeps the accumulated count well within `i64`.
    pub fn to_days(&self) -> (r: i64)
        requires
            -MAX_YEAR_MAGNITUDE <= self.year <= MAX_YEAR_MAGNITUDE,
        ensures
            r as int == date_to_days_spec(*self),
    {
        if self.month < 1 || self.month > 12 || self.day < 1 {
            return 0;
        }
        let mut days: i64 = 0;
        if self.year >= 1970 {
            let mut y: i64 = 1970;
            while y < self.year
                invariant
                    1970 <= y <= self.year <= MAX_YEAR_MAGNITUDE,
                    days == days_before_year(y as int),
                    0 <= days <= 366 * (y - 1970),
                decreases self.year - y,
            {
                proof {
                    lemma_days_before_year_step(y as int);
                    lemma_days_before_year_bounds(y as int);
                    lemma_days_before_year_bounds(y as int + 1);
                }
                days = days + if Self::is_leap_year(y) {
                    366
                } else {
                    365
                };
                y = y + 1;
            }
        } else {
            let mut y: i64 = self.year;
            while y < 1970
                invariant
                    -MAX_YEAR_MAGNITUDE <= self.year <= y <= 1970,
                    days == days_before_year(self.year as int) - days_before_year(y as int),
                    -366 * (1970 - self.year) <= days <= 0,
                decreases 1970 - y,
            {
                proof {
                    lemma_days_before_year_step(y as int);
                    lemma_days_before_year_bounds(self.year as int);
                    lemma_days_before_year_bounds(y as int);
                    lemma_days_before_year_bounds(y as int + 1);
                }
                days = days - if Self::is_leap_year(y) {
                    366
                } else {
                    365
                };
                y = y + 1;
            }
        }
        proof {
            lemma_days_before_year_bounds(self.year as int);
        }
        let mut m: u32 = 1;
        while m < self.month
            invariant
                1 <= m <= self.month <= 12,
                -MAX_YEAR_MAGNITUDE <= self.year <= MAX_YEAR_MAGNITUDE,
                days == days_before_year(self.year as int) + days_before_month(
                    self.year as int,
                    m as int,
                ),
                days_before_year(self.year as int) <= days <= days_before_year(self.year as int)
                    + 31 * (m - 1),
            decreases self.month - m,
        {
            proof {
                lemma_days_before_year_bounds(self.year as int);
            }
            days = days + Self::days_in_month(self.year, m) as i64;
            m = m + 1;
        }
        proof {
            lemma_days_before_year_bounds(self.year as int);
        }
        days + self.day as i64 - 1
    }
}

/// Find the date of a day offset by direct search: walk whole years from
/// 1970 toward the offset, then whole months. The reference counterpart
/// of the fast converter.
fn date_from_days(days: i64) -> (r: Date)
    requires
        MIN_DAY_OFFSET <= days <= MAX_DAY_OFFSET,
    ensures
        date_valid(r),
        date_to_days_spec(r) == days as int,
{
    let mut year: i64 = 1970;
    let mut rem: i64 = days;
    while rem < 0
        invariant
            MIN_DAY_OFFSET <= days <= MAX_DAY_OFFSET,
            1600 <= year <= 1970,
            rem == days - days_before_year(year as int),
        decreases year,
    {
        proof {
            lemma_days_before_year_bounds(year as int);
            lemma_days_before_year_bounds(year as int - 1);
            lemma_days_before_year_step(year as int - 1);
        }
        year = year - 1;
        rem = rem + if Date::is_leap_year(year) {
            366
        } else {
            365
        };
    }
    while rem >= 366 || (rem >= 365 && !Date::is_leap_year(year))
        invariant
            MIN_DAY_OFFSET <= days <= MAX_DAY_OFFSET,
            1600 <= year <= 4800,
            0 <= rem,
            rem == days - days_before_year(year as int),
        decreases 4800 - year,
    {
        proof {
            lemma_days_before_year_bounds(year as int);
            lemma_days_before_year_bounds(year as int + 1);
            lemma_days_before_year_step(year as int);
        }
        rem = rem - if Date::is_leap_year(year) {
            366
        } else {
            365
        };
        year = year + 1;
    }
    let mut month: u32 = 1;
    while rem >= Date::days_in_month(year, month) as i64
        invariant
            1 <= month <= 12,
            1600 <= year <= 4800,
            0 <= rem,
            rem == days - days_before_year(year as int) - days_before_month(
                year as int,
                month as int,
            ),
            days - days_before_year(year as int) < year_length(year as int),
        decreases 12 - month,
    {
        proof {
            let y = year as int;
            let m = month as int;
            assert(days_before_month(y, m + 1) == days_before_month(y, m) + days_in_month_spec(
                y,
                m,
            ));
            lemma_days_before_month_bounds(y, m + 1, 13);
            lemma_months_sum(y);
        }
        rem = rem - Date::days_in_month(year, month) as i64;
        month = month + 1;
    }
    let r = Date { year, month, day: (rem + 1) as u32 };
    proof {
        lemma_days_before_month_bounds(year as int, 1, month as int);
    }
    r
}

/// The fast converter's arithmetic: era shift, century correction by a
/// fixed-point multiplication, then year, month and day extraction from
/// 128-bit products. Its result is certified by the caller.
fn days_to_date_fast(days: i64) -> Date
    requires
        MIN_DAY_OFFSET <= days <= MAX_DAY_OFFSET,
{
    let rev: i64 = D_SHIFT - days;
    let prod1: u128 = (rev as u128) * (C1 as u128);
    proof {
        assert(prod1 <= 348754015493218000590789085651 ==> prod1 >> 64 <= 18905993063u128)
            by (bit_vector);
    }
    let cen: i64 = (prod1 >> 64) as i64;
    let jul: i64 = rev + cen - cen / 4;
    let prod2: u128 = (jul as u128) * (C2 as u128);
    proof {
        assert(prod2 <= 34875640258435762923450916539864 ==> prod2 >> 64 <= 1890612246750u128)
            by (bit_vector);
    }
    let yrs: i64 = Y_SHIFT - ((prod2 >> 64) as i64);
    let low: u64 = #[verifier::truncate] (prod2 as u64);
    let prod3: u128 = (low as u128) * 782432u128;
    proof {
        assert(prod3 <= 14433322859080711889227680 ==> prod3 >> 64 <= 782431u128)
            by (bit_vector);
    }
    let ypt: i64 = (prod3 >> 64) as i64;
    let bump = ypt < 126464;
    let shift: i64 = if bump {
        191360
    } else {
        977792
    };
    let n: i64 = (yrs % 4) * 512 + shift - ypt;
    let prod4: u128 = ((n % 65536) as u128) * (C3 as u128);
    proof {
        assert(prod4 <= 564909987322689427560 ==> prod4 >> 64 <= 30u128) by (bit_vector);
    }
    let d: u32 = (prod4 >> 64) as u32;
    let day = d + 1;
    let month = (n / 65536) as u32;
    let year = yrs + if bump {
        1
    } else {
        0
    };
    Date { year, month, day }
}

/// Convert a day count to a calendar date (year, month, day), day 0
/// being 1970-01-01. The fast converter computes the date; its result
/// is accepted only after certification against the accumulating
/// reference conversion, so the returned date is always the valid date
/// whose day offset is exactly `days`.
pub fn days_to_date(days: i64) -> (r: Date)
    requires
        MIN_DAY_OFFSET <= days <= MAX_DAY_OFFSET,
    ensures
        date_valid(r),
        date_to_days_spec(r) == days as int,
{
    let f = days_to_date_fast(days);
    if 1 <= f.month && f.month <= 12 && 1 <= f.day && -MAX_YEAR_MAGNITUDE <= f.year
        && f.year <= MAX_YEAR_MAGNITUDE && f.day <= Date::days_in_month(f.year, f.month) {
        if f.to_days() == days {
            return f;
        }
    }
    date_from_days(days)
}

} // verus!
