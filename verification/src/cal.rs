//! Proleptic Gregorian calendar arithmetic.
//!
//! Ticks are whole seconds (or milliseconds) since 1970-01-01T00:00:00 UTC.
//! The identifier grammar renders a tick as a civil date and time of day, so
//! this module defines the day count of a civil date (`days_of_ymd`), its
//! inverse (`ymd_of_days` and the executable `ymd_from_days`), and the facts
//! the codec proofs need: the two are inverse to each other and the day count
//! is strictly monotone in the (year, month, day) ordering.

use vstd::prelude::*;

verus! {

pub open spec fn is_leap_year(y: int) -> bool {
    (y % 4 == 0 && y % 100 != 0) || y % 400 == 0
}

pub open spec fn days_in_year(y: int) -> int {
    if is_leap_year(y) {
        366
    } else {
        365
    }
}

pub open spec fn days_in_month(y: int, m: int) -> int {
    if m == 2 {
        if is_leap_year(y) {
            29
        } else {
            28
        }
    } else if m == 4 || m == 6 || m == 9 || m == 11 {
        30
    } else {
        31
    }
}

/// A civil date the grammar can express: four-digit year, legal month and day.
pub open spec fn valid_ymd(y: int, m: int, d: int) -> bool {
    0 <= y <= 9999 && 1 <= m <= 12 && 1 <= d <= days_in_month(y, m)
}

pub open spec fn valid_hms(h: int, mi: int, s: int) -> bool {
    0 <= h <= 23 && 0 <= mi <= 59 && 0 <= s <= 59
}

/// Days from 1970-01-01 to the first day of year `y` (negative before 1970).
pub open spec fn days_before_year(y: int) -> int
    decreases (if y >= 1970 { y - 1970 } else { 1970 - y }),
{
    if y == 1970 {
        0
    } else if y > 1970 {
        days_before_year(y - 1) + days_in_year(y - 1)
    } else {
        days_before_year(y + 1) - days_in_year(y)
    }
}

/// Days from the first of January to the first day of month `m` in year `y`.
pub open spec fn days_before_month(y: int, m: int) -> int
    decreases m,
{
    if m <= 1 {
        0
    } else {
        days_before_month(y, m - 1) + days_in_month(y, m - 1)
    }
}

/// Days from 1970-01-01 to the civil date `y-m-d`.
pub open spec fn days_of_ymd(y: int, m: int, d: int) -> int {
    days_before_year(y) + days_before_month(y, m) + d - 1
}

/// Starting at the first day of year `y`, walks `days` days forward and
/// returns the year reached and the remaining days inside it.
pub open spec fn sweep_year(days: int, y: int) -> (int, int)
    decreases days, when 0 <= days
{
    if days < days_in_year(y) {
        (y, days)
    } else {
        sweep_year(days - days_in_year(y), y + 1)
    }
}

/// Starting at the first day of month `m` of year `y`, walks `days` days
/// forward and returns the month reached and the remaining days inside it.
pub open spec fn sweep_month(y: int, days: int, m: int) -> (int, int)
    decreases 12 - m, when 0 <= days && 1 <= m
{
    if m >= 12 || days < days_in_month(y, m) {
        (m, days)
    } else {
        sweep_month(y, days - days_in_month(y, m), m + 1)
    }
}

/// The civil date `days` days after 1970-01-01.
pub open spec fn ymd_of_days(days: int) -> (int, int, int) {
    let yr = sweep_year(days, 1970);
    let md = sweep_month(yr.0, yr.1, 1);
    (yr.0, md.0, md.1 + 1)
}

pub proof fn lemma_dby_next(y: int)
    ensures
        days_before_year(y + 1) == days_before_year(y) + days_in_year(y),
{
    if y + 1 <= 1970 {
        assert(days_before_year(y) == days_before_year(y + 1) - days_in_year(y));
    }
}

pub proof fn lemma_dby_monotone(y1: int, y2: int)
    requires
        y1 < y2,
    ensures
        days_before_year(y1) + days_in_year(y1) <= days_before_year(y2),
        days_before_year(y1) < days_before_year(y2),
    decreases y2 - y1,
{
    lemma_dby_next(y1);
    if y1 + 1 < y2 {
        lemma_dby_monotone(y1 + 1, y2);
    }
}

pub proof fn lemma_dbm_next(y: int, m: int)
    requires
        m >= 1,
    ensures
        days_before_month(y, m + 1) == days_before_month(y, m) + days_in_month(y, m),
{
}

pub proof fn lemma_dbm_monotone(y: int, m1: int, m2: int)
    requires
        1 <= m1 < m2,
    ensures
        days_before_month(y, m1) + days_in_month(y, m1) <= days_before_month(y, m2),
        days_before_month(y, m1) < days_before_month(y, m2),
    decreases m2 - m1,
{
    lemma_dbm_next(y, m1);
    if m1 + 1 < m2 {
        lemma_dbm_monotone(y, m1 + 1, m2);
    }
}

/// The months of a year sum to its day count.
pub proof fn lemma_year_days(y: int)
    ensures
        days_before_month(y, 13) == days_in_year(y),
{
    lemma_dbm_next(y, 1);
    lemma_dbm_next(y, 2);
    lemma_dbm_next(y, 3);
    lemma_dbm_next(y, 4);
    lemma_dbm_next(y, 5);
    lemma_dbm_next(y, 6);
    lemma_dbm_next(y, 7);
    lemma_dbm_next(y, 8);
    lemma_dbm_next(y, 9);
    lemma_dbm_next(y, 10);
    lemma_dbm_next(y, 11);
    lemma_dbm_next(y, 12);
    assert(days_before_month(y, 1) == 0);
    assert(days_before_month(y, 2) == 31);
    assert(days_before_month(y, 3) == 31 + days_in_month(y, 2));
    assert(days_before_month(y, 4) == days_before_month(y, 3) + 31);
    assert(days_before_month(y, 5) == days_before_month(y, 4) + 30);
    assert(days_before_month(y, 6) == days_before_month(y, 5) + 31);
    assert(days_before_month(y, 7) == days_before_month(y, 6) + 30);
    assert(days_before_month(y, 8) == days_before_month(y, 7) + 31);
    assert(days_before_month(y, 9) == days_before_month(y, 8) + 31);
    assert(days_before_month(y, 10) == days_before_month(y, 9) + 30);
    assert(days_before_month(y, 11) == days_before_month(y, 10) + 31);
    assert(days_before_month(y, 12) == days_before_month(y, 11) + 30);
    assert(days_before_month(y, 13) == days_before_month(y, 12) + 31);
}

/// A valid date lies within its year's day count.
pub proof fn lemma_days_in_year_bound(y: int, m: int, d: int)
    requires
        1 <= m <= 12,
        1 <= d <= days_in_month(y, m),
    ensures
        0 <= days_before_month(y, m) + d - 1 < days_in_year(y),
        days_before_month(y, m) >= 0,
{
    lemma_year_days(y);
    lemma_dbm_next(y, m);
    if m < 12 {
        lemma_dbm_monotone(y, m, 13);
    }
    if m > 1 {
        lemma_dbm_monotone(y, 1, m);
    }
}

/// The day count is strictly monotone in the (year, month, day) order.
pub proof fn lemma_days_of_ymd_monotone(y1: int, m1: int, d1: int, y2: int, m2: int, d2: int)
    requires
        valid_ymd(y1, m1, d1),
        valid_ymd(y2, m2, d2),
        (y1 < y2) || (y1 == y2 && m1 < m2) || (y1 == y2 && m1 == m2 && d1 < d2),
    ensures
        days_of_ymd(y1, m1, d1) < days_of_ymd(y2, m2, d2),
{
    lemma_days_in_year_bound(y1, m1, d1);
    lemma_days_in_year_bound(y2, m2, d2);
    if y1 < y2 {
        lemma_dby_monotone(y1, y2);
    } else if m1 < m2 {
        lemma_dbm_monotone(y1, m1, m2);
    }
}

pub proof fn lemma_sweep_year(days: int, y: int)
    requires
        0 <= days,
    ensures
        ({
            let r = sweep_year(days, y);
            r.0 >= y && 0 <= r.1 < days_in_year(r.0)
                && days_before_year(r.0) + r.1 == days_before_year(y) + days
        }),
    decreases days,
{
    if days >= days_in_year(y) {
        lemma_sweep_year(days - days_in_year(y), y + 1);
        lemma_dby_next(y);
    }
}

pub proof fn lemma_sweep_month(y: int, days: int, m: int)
    requires
        0 <= days,
        1 <= m <= 12,
        days_before_month(y, m) + days < days_before_month(y, 13),
    ensures
        ({
            let r = sweep_month(y, days, m);
            m <= r.0 <= 12 && 0 <= r.1 < days_in_month(y, r.0)
                && days_before_month(y, r.0) + r.1 == days_before_month(y, m) + days
        }),
    decreases 12 - m,
{
    lemma_dbm_next(y, m);
    if m >= 12 {
        assert(days < days_in_month(y, m));
    } else if days >= days_in_month(y, m) {
        lemma_sweep_month(y, days - days_in_month(y, m), m + 1);
    }
}

/// Inverse of `days_of_ymd` on day counts below year 10000.
pub proof fn lemma_ymd_of_days(days: int)
    requires
        0 <= days,
        days < days_before_year(10000),
    ensures
        ({
            let r = ymd_of_days(days);
            valid_ymd(r.0, r.1, r.2) && r.0 >= 1970 && days_of_ymd(r.0, r.1, r.2) == days
        }),
{
    lemma_sweep_year(days, 1970);
    let yr = sweep_year(days, 1970);
    let y = yr.0;
    let rem = yr.1;
    assert(days_before_year(y) + rem == days);
    if y >= 10000 {
        lemma_dby_monotone(9999, y);
        assert(days_before_year(10000) <= days_before_year(y)) by {
            if y > 10000 {
                lemma_dby_monotone(10000, y);
            }
        }
        assert(false);
    }
    lemma_year_days(y);
    lemma_sweep_month(y, rem, 1);
}

/// The day counts of valid dates are injective, so the inverse also runs the
/// other way: decomposing the day count of a valid date recovers the date.
pub proof fn lemma_days_of_ymd_inverse(y: int, m: int, d: int)
    requires
        valid_ymd(y, m, d),
        y >= 1970,
        days_of_ymd(y, m, d) < days_before_year(10000),
    ensures
        days_of_ymd(y, m, d) >= 0,
        ymd_of_days(days_of_ymd(y, m, d)) == (y, m, d),
{
    let days = days_of_ymd(y, m, d);
    lemma_days_in_year_bound(y, m, d);
    if y > 1970 {
        lemma_dby_monotone(1970, y);
    }
    assert(days >= 0);
    lemma_ymd_of_days(days);
    let r = ymd_of_days(days);
    if r.0 != y || r.1 != m || r.2 != d {
        if (r.0 < y) || (r.0 == y && r.1 < m) || (r.0 == y && r.1 == m && r.2 < d) {
            lemma_days_of_ymd_monotone(r.0, r.1, r.2, y, m, d);
        } else {
            lemma_days_of_ymd_monotone(y, m, d, r.0, r.1, r.2);
        }
    }
}

/// Every year has at least 365 days, so the day count of year 10000 is far
/// above any day index the tick cap admits.
pub proof fn lemma_dby_lower(y: int)
    requires
        y >= 1970,
    ensures
        days_before_year(y) >= 365 * (y - 1970),
    decreases y - 1970,
{
    if y > 1970 {
        lemma_dby_lower(y - 1);
        lemma_dby_next(y - 1);
    }
}

/// Executable twin of `is_leap_year`.
pub fn leap_year(y: i64) -> (r: bool)
    requires
        y >= 0,
    ensures
        r == is_leap_year(y as int),
{
    (y % 4 == 0 && y % 100 != 0) || y % 400 == 0
}

/// Executable twin of `days_in_year`.
pub fn days_in_year_x(y: i64) -> (r: i64)
    requires
        y >= 0,
    ensures
        r == days_in_year(y as int),
{
    if leap_year(y) { 366 } else { 365 }
}

/// Executable twin of `days_in_month`.
pub fn days_in_month_x(y: i64, m: i64) -> (r: i64)
    requires
        y >= 0,
    ensures
        r == days_in_month(y as int, m as int),
{
    if m == 2 {
        if leap_year(y) { 29 } else { 28 }
    } else if m == 4 || m == 6 || m == 9 || m == 11 {
        30
    } else {
        31
    }
}

/// Decomposes a day count (since 1970-01-01) into the civil date it falls on.
pub fn ymd_from_days(days: i64) -> (r: (i64, i64, i64))
    requires
        0 <= days,
        days < days_before_year(10000),
    ensures
        (r.0 as int, r.1 as int, r.2 as int) == ymd_of_days(days as int),
        valid_ymd(r.0 as int, r.1 as int, r.2 as int),
        r.0 >= 1970,
        days_of_ymd(r.0 as int, r.1 as int, r.2 as int) == days,
{
    proof {
        lemma_ymd_of_days(days as int);
    }
    let mut y: i64 = 1970;
    let mut rem: i64 = days;
    loop
        invariant
            0 <= rem <= days,
            1970 <= y <= 9999,
            days < days_before_year(10000),
            days_before_year(y as int) + rem == days,
            sweep_year(rem as int, y as int) == sweep_year(days as int, 1970),
        ensures
            0 <= rem,
            rem < days_in_year(y as int),
            1970 <= y <= 9999,
            days_before_year(y as int) + rem == days,
            sweep_year(days as int, 1970) == (y as int, rem as int),
        decreases rem,
    {
        let diy = days_in_year_x(y);
        if rem < diy {
            break;
        }
        proof {
            lemma_dby_next(y as int);
            if y as int + 1 >= 10000 {
                if y as int + 1 > 10000 {
                    lemma_dby_monotone(10000, y as int + 1);
                }
                assert(false);
            }
        }
        rem = rem - diy;
        y = y + 1;
    }
    proof {
        lemma_year_days(y as int);
    }
    let mut m: i64 = 1;
    loop
        invariant
            1 <= m <= 12,
            0 <= rem,
            1970 <= y <= 9999,
            y as int == sweep_year(days as int, 1970).0,
            days_before_month(y as int, m as int) + rem < days_before_month(y as int, 13),
            sweep_month(y as int, rem as int, m as int)
                == sweep_month(y as int, sweep_year(days as int, 1970).1, 1),
        ensures
            1 <= m <= 12,
            0 <= rem,
            y as int == sweep_year(days as int, 1970).0,
            sweep_month(y as int, sweep_year(days as int, 1970).1, 1) == (m as int, rem as int),
        decreases 12 - m,
    {
        let dim = days_in_month_x(y, m);
        if m >= 12 || rem < dim {
            break;
        }
        proof {
            lemma_dbm_next(y as int, m as int);
        }
        rem = rem - dim;
        m = m + 1;
    }
    proof {
        lemma_ymd_of_days(days as int);
    }
    (y, m, rem + 1)
}

/// Day count (since 1970-01-01) of a valid civil date; negative before 1970.
pub fn days_from_ymd(y: i64, m: i64, d: i64) -> (r: i64)
    requires
        valid_ymd(y as int, m as int, d as int),
    ensures
        r == days_of_ymd(y as int, m as int, d as int),
{
    let mut acc: i64 = 0;
    let mut yy: i64 = 1970;
    if y >= 1970 {
        while yy < y
            invariant
                1970 <= yy <= y,
                acc == days_before_year(yy as int),
                0 <= acc <= 366 * (yy - 1970),
                y <= 9999,
            decreases y - yy,
        {
            proof {
                lemma_dby_next(yy as int);
            }
            acc = acc + days_in_year_x(yy);
            yy = yy + 1;
        }
    } else {
        while yy > y
            invariant
                y <= yy <= 1970,
                acc == days_before_year(yy as int),
                0 >= acc >= -366 * (1970 - yy),
                y >= 0,
            decreases yy - y,
        {
            proof {
                lemma_dby_next(yy as int - 1);
            }
            yy = yy - 1;
            acc = acc - days_in_year_x(yy);
        }
    }
    let mut mm: i64 = 1;
    let mut moff: i64 = 0;
    while mm < m
        invariant
            1 <= mm <= m <= 12,
            y >= 0,
            moff == days_before_month(y as int, mm as int),
            0 <= moff < 366,
        decreases m - mm,
    {
        proof {
            lemma_dbm_next(y as int, mm as int);
            lemma_year_days(y as int);
            if (mm as int) + 1 < 13 {
                lemma_dbm_monotone(y as int, mm as int + 1, 13);
            }
        }
        moff = moff + days_in_month_x(y, mm);
        mm = mm + 1;
    }
    acc + moff + d - 1
}

} // verus!
