//! The proleptic Gregorian calendar, counted in days from 1970-01-01.

use vstd::arithmetic::div_mod::{
    lemma_div_pos_is_pos, lemma_fundamental_div_mod, lemma_fundamental_div_mod_converse,
};
use vstd::prelude::*;

verus! {

/// Whether `y` is a leap year.
pub open spec fn is_leap(y: int) -> bool {
    y % 4 == 0 && (y % 100 != 0 || y % 400 == 0)
}

/// The length of month `m` (1 to 12) of year `y`.
pub open spec fn days_in_month(y: int, m: int) -> int {
    if m == 2 {
        if is_leap(y) {
            29
        } else {
            28
        }
    } else if m == 4 || m == 6 || m == 9 || m == 11 {
        30
    } else {
        31
    }
}

/// Whether a year, month and day name a day of the calendar.
pub open spec fn is_date(y: int, m: int, d: int) -> bool {
    1 <= m <= 12 && 1 <= d <= days_in_month(y, m)
}

/// Days from 0000-01-01 to the first day of year `y`.
pub open spec fn days_before_year(y: int) -> int {
    365 * y + (y + 3) / 4 - (y + 99) / 100 + (y + 399) / 400
}

/// Days from the first day of year `y` to the first day of its month `m`.
pub open spec fn days_before_month(y: int, m: int) -> int
    decreases m,
{
    if m <= 1 {
        0
    } else {
        days_before_month(y, m - 1) + days_in_month(y, m - 1)
    }
}

/// Days from 1970-01-01 to a date.
pub open spec fn epoch_days(y: int, m: int, d: int) -> int {
    days_before_year(y) + days_before_month(y, m) + (d - 1) - 719528
}

/// Days from 1970-01-01 to day `d` of month `m`, counted in years that begin in
/// March. For a month of the calendar this is [`epoch_days`]; beyond it the
/// count goes on in the 153-days-for-five-months pattern.
pub open spec fn civil_days(y: int, m: int, d: int) -> int {
    let yy = if m <= 2 { y - 1 } else { y };
    let mp = if m > 2 { m - 3 } else { m + 9 };
    365 * yy + yy / 4 - yy / 100 + yy / 400 + (153 * mp + 2) / 5 + d - 1 - 719468
}

/// Every year is 365 days long, or 366 when it is a leap year, and year 0 is
/// where the count of days begins.
pub proof fn lemma_year_length(y: int)
    ensures
        days_before_year(0) == 0,
        days_before_year(y + 1) - days_before_year(y) == (if is_leap(y) { 366int } else { 365 }),
{
}

/// The lengths of the months of a year add up to the length of the year.
pub proof fn lemma_months_fill_year(y: int)
    ensures
        days_before_month(y, 13) == (if is_leap(y) { 366int } else { 365 }),
{
    reveal_with_fuel(days_before_month, 14);
}

/// The multiples of four, a hundred and four hundred before a year and up to it.
proof fn lemma_leaps(y: int)
    ensures
        (y + 3) / 4 == (y - 1) / 4 + 1,
        (y + 99) / 100 == (y - 1) / 100 + 1,
        (y + 399) / 400 == (y - 1) / 400 + 1,
        y / 4 == (y - 1) / 4 + (if y % 4 == 0 { 1int } else { 0 }),
        y / 100 == (y - 1) / 100 + (if y % 100 == 0 { 1int } else { 0 }),
        y / 400 == (y - 1) / 400 + (if y % 400 == 0 { 1int } else { 0 }),
        y % 400 == 0 ==> y % 100 == 0,
        y % 100 == 0 ==> y % 4 == 0,
{
}

/// Where the months of a year begin.
proof fn lemma_month_start(y: int, m: int)
    requires
        1 <= m <= 12,
    ensures
        days_before_month(y, m) == (if m <= 2 {
            31 * (m - 1)
        } else {
            (153 * (m - 3) + 2) / 5 + (if is_leap(y) { 60int } else { 59 })
        }),
{
    reveal_with_fuel(days_before_month, 13);
}

/// In the twelve months of the calendar the March-based count is the calendar's.
pub proof fn lemma_civil_days(y: int, m: int, d: int)
    requires
        1 <= m <= 12,
    ensures
        civil_days(y, m, d) == epoch_days(y, m, d),
{
    lemma_leaps(y);
    lemma_month_start(y, m);
}

/// How truncating division relates to division that rounds down, for a
/// negative dividend.
proof fn lemma_trunc(n: int, d: int)
    requires
        n < 0,
        d > 0,
    ensures
        (-n) % d == 0 ==> n / d == -((-n) / d) && n % d == 0,
        (-n) % d > 0 ==> n / d == -((-n) / d) - 1 && n % d == d - (-n) % d && d >= 2,
        0 <= (-n) / d <= -n,
{
    let q = (-n) / d;
    let r = (-n) % d;
    lemma_fundamental_div_mod(-n, d);
    assert(d * q == q * d && d * (-q) == -(d * q) && d * (-q - 1) == -(d * q) - d && (0 <= q ==> q
        <= d * q)) by (nonlinear_arith)
        requires
            d > 0,
    ;
    lemma_div_pos_is_pos(-n, d);
    if r == 0 {
        lemma_fundamental_div_mod_converse(n, d, -q, 0);
    } else {
        lemma_fundamental_div_mod_converse(n, d, -q - 1, d - r);
    }
}

/// Quotient and remainder of `n` by `d`, rounding down.
pub fn div_mod(n: i64, d: i64) -> (r: (i64, i64))
    requires
        d > 0,
    ensures
        r.0 == n as int / d as int,
        r.1 == n as int % d as int,
{
    proof {
        if n < 0 {
            lemma_trunc(n as int, d as int);
        }
    }
    let mut q: i64 = n / d;
    let mut r: i64 = n % d;
    if r < 0 {
        proof {
            assert(-(n as int) / d as int <= i64::MAX) by (nonlinear_arith)
                requires
                    n >= i64::MIN,
                    n < 0,
                    d >= 2,
            ;
        }
        q -= 1;
        r += d;
    }
    (q, r)
}

/// Quotient of `n` by `d`, rounding down.
pub fn floor_div(n: i64, d: i64) -> (q: i64)
    requires
        d > 0,
    ensures
        q == n as int / d as int,
{
    div_mod(n, d).0
}

/// The year of the 400-year cycle in which day `doe` of the cycle falls, with
/// years that begin in March.
proof fn lemma_year_of_era(doe: int)
    requires
        0 <= doe < 146097,
    ensures
        ({
            let yoe = (doe - doe / 1460 + doe / 36524 - doe / 146096) / 365;
            &&& 0 <= yoe <= 399
            &&& 365 * yoe + yoe / 4 - yoe / 100 <= doe
            &&& yoe < 399 ==> doe < 365 * (yoe + 1) + (yoe + 1) / 4 - (yoe + 1) / 100
        }),
{
    let yoe = (doe - doe / 1460 + doe / 36524 - doe / 146096) / 365;
}

/// Where day `doy` of a year that begins in March falls: the month counted from
/// March, and the day of that month.
proof fn lemma_month_of_year(doy: int)
    requires
        0 <= doy <= 365,
    ensures
        ({
            let mp = (5 * doy + 2) / 153;
            let d = doy - (153 * mp + 2) / 5 + 1;
            let m = if mp < 10 { mp + 3 } else { mp - 9 };
            &&& 0 <= mp <= 11
            &&& 1 <= m <= 12
            &&& 1 <= d <= (if m == 2 {
                29int
            } else if m == 4 || m == 6 || m == 9 || m == 11 {
                30
            } else {
                31
            })
            &&& m == 2 && d == 29 <==> doy == 365
            &&& mp == (if m > 2 { m - 3 } else { m + 9 })
        }),
{
}

/// Splitting a March-based year into its 400-year cycle and the year in it.
proof fn lemma_era(yoe: int, era: int)
    requires
        0 <= yoe <= 399,
    ensures
        ({
            let y = yoe + era * 400;
            &&& 365 * y + y / 4 - y / 100 + y / 400 == era * 146097 + 365 * yoe + yoe / 4 - yoe / 100
            &&& is_leap(y + 1) <==> ((yoe + 1) % 4 == 0 && ((yoe + 1) % 100 != 0 || yoe == 399))
        }),
{
    let y = yoe + era * 400;
    assert(y / 400 == era);
    assert(y / 100 == yoe / 100 + 4 * era);
    assert(y / 4 == yoe / 4 + 100 * era);
    assert((y + 1) % 4 == (yoe + 1) % 4);
    assert((y + 1) % 100 == (yoe + 1) % 100);
    assert((y + 1) % 400 == (yoe + 1) % 400);
}

/// The date that lies `z` days after 1970-01-01.
pub fn civil_from_days(z: i64) -> (r: (i64, u32, u32))
    requires
        -200_000_000_000_000_000 <= z <= 200_000_000_000_000_000,
    ensures
        is_date(r.0 as int, r.1 as int, r.2 as int),
        epoch_days(r.0 as int, r.1 as int, r.2 as int) == z,
{
    let z: i64 = z + 719468;
    let era: i64 = (if z >= 0 {
        z
    } else {
        z - 146096
    }) / 146097;
    let doe: i64 = z - era * 146097;
    assert(0 <= doe < 146097);
    proof {
        lemma_year_of_era(doe as int);
    }
    let yoe: i64 = (doe - doe / 1460 + doe / 36524 - doe / 146096) / 365;
    let y: i64 = yoe + era * 400;
    let doy: i64 = doe - (365 * yoe + yoe / 4 - yoe / 100);
    proof {
        lemma_era(yoe as int, era as int);
        assert(0 <= doy <= 365);
        assert(doy == 365 ==> is_leap(y + 1));
        lemma_month_of_year(doy as int);
    }
    let mp: i64 = (5 * doy + 2) / 153;
    let d: i64 = doy - (153 * mp + 2) / 5 + 1;
    let m: i64 = if mp < 10 {
        mp + 3
    } else {
        mp - 9
    };
    let year: i64 = y + if m <= 2 {
        1
    } else {
        0
    };
    proof {
        lemma_civil_days(year as int, m as int, d as int);
    }
    (year, m as u32, d as u32)
}

/// Every day has a date.
pub proof fn lemma_date_of(z: int) -> (r: (int, int, int))
    ensures
        is_date(r.0, r.1, r.2),
        epoch_days(r.0, r.1, r.2) == z,
{
    let s = z + 719468;
    let era = s / 146097;
    let doe = s - era * 146097;
    assert(0 <= doe < 146097);
    lemma_year_of_era(doe);
    let yoe = (doe - doe / 1460 + doe / 36524 - doe / 146096) / 365;
    let y = yoe + era * 400;
    let doy = doe - (365 * yoe + yoe / 4 - yoe / 100);
    lemma_era(yoe, era);
    assert(0 <= doy <= 365);
    assert(doy == 365 ==> is_leap(y + 1));
    lemma_month_of_year(doy);
    let mp = (5 * doy + 2) / 153;
    let d = doy - (153 * mp + 2) / 5 + 1;
    let m = if mp < 10 {
        mp + 3
    } else {
        mp - 9
    };
    let year = y + if m <= 2 {
        1int
    } else {
        0
    };
    lemma_civil_days(year, m, d);
    (year, m, d)
}

/// Days from 1970-01-01 to a date.
pub fn days_from_civil(y: i64, m: u32, d: u32) -> (r: i64)
    requires
        -20_000_000_000_000_000 <= y <= 20_000_000_000_000_000,
    ensures
        r == civil_days(y as int, m as int, d as int),
        1 <= m <= 12 ==> r == epoch_days(y as int, m as int, d as int),
{
    let y: i64 = y - if m <= 2 {
        1
    } else {
        0
    };
    let era: i64 = (if y >= 0 {
        y
    } else {
        y - 399
    }) / 400;
    let yoe: i64 = y - era * 400;
    let mp: i64 = (if m > 2 {
        m - 3
    } else {
        m + 9
    }) as i64;
    let doy: i64 = (153 * mp + 2) / 5 + d as i64 - 1;
    let doe: i64 = yoe * 365 + yoe / 4 - yoe / 100 + doy;
    proof {
        assert(0 <= yoe <= 399);
        lemma_era(yoe as int, era as int);
        if 1 <= m <= 12 {
            let year = if m <= 2 { y + 1 } else { y as int };
            lemma_civil_days(year, m as int, d as int);
        }
    }
    era * 146097 + doe - 719468
}

/// A later month of a year begins after the end of an earlier one.
proof fn lemma_months_ordered(y: int, m1: int, m2: int)
    requires
        1 <= m1 < m2,
    ensures
        days_before_month(y, m1) + days_in_month(y, m1) <= days_before_month(y, m2),
    decreases m2,
{
    if m1 + 1 < m2 {
        lemma_months_ordered(y, m1, m2 - 1);
    }
}

/// A later year begins after the end of an earlier one.
proof fn lemma_years_ordered(y1: int, y2: int)
    requires
        y1 <= y2,
    ensures
        days_before_year(y1) <= days_before_year(y2),
    decreases y2 - y1,
{
    if y1 < y2 {
        lemma_years_ordered(y1, y2 - 1);
        lemma_year_length(y2 - 1);
    }
}

/// A later date is a later day: dates are ordered by year, month and day just
/// as their day counts are.
pub proof fn lemma_epoch_days_ordered(y1: int, m1: int, d1: int, y2: int, m2: int, d2: int)
    requires
        is_date(y1, m1, d1),
        is_date(y2, m2, d2),
        y1 < y2 || (y1 == y2 && (m1 < m2 || (m1 == m2 && d1 < d2))),
    ensures
        epoch_days(y1, m1, d1) < epoch_days(y2, m2, d2),
{
    if y1 < y2 {
        lemma_year_length(y1);
        lemma_years_ordered(y1 + 1, y2);
        lemma_months_fill_year(y1);
        lemma_months_ordered(y1, m1, 13);
        if m2 > 1 {
            lemma_months_ordered(y2, 1, m2);
        }
    } else if m1 < m2 {
        lemma_months_ordered(y1, m1, m2);
    }
}

/// Each day has one date: two dates with the same day count are equal.
pub proof fn lemma_date_unique(y1: int, m1: int, d1: int, y2: int, m2: int, d2: int)
    requires
        is_date(y1, m1, d1),
        is_date(y2, m2, d2),
        epoch_days(y1, m1, d1) == epoch_days(y2, m2, d2),
    ensures
        y1 == y2 && m1 == m2 && d1 == d2,
{
    if y1 < y2 || (y1 == y2 && (m1 < m2 || (m1 == m2 && d1 < d2))) {
        lemma_epoch_days_ordered(y1, m1, d1, y2, m2, d2);
    } else if y1 != y2 || m1 != m2 || d1 != d2 {
        lemma_epoch_days_ordered(y2, m2, d2, y1, m1, d1);
    }
}

} // verus!
