//! Proleptic Gregorian calendar arithmetic: a bijection between valid
//! `(year, month, day)` triples and absolute day numbers counted from
//! 0000-01-01, restricted to four-digit years.

use vstd::prelude::*;

verus! {

/// Gregorian leap-year rule.
pub open spec fn is_leap_year(y: int) -> bool {
    y % 4 == 0 && (y % 100 != 0 || y % 400 == 0)
}

pub open spec fn days_in_year(y: int) -> int {
    if is_leap_year(y) {
        366
    } else {
        365
    }
}

/// Length of month `m` (1-based) in year `y`.
pub open spec fn days_in_month(y: int, m: int) -> int {
    if m == 2 {
        if is_leap_year(y) {
            29
        } else {
            28
        }
    } else if m == 4 || m == 6 || m == 9 || m == 11 {
        30
    } else {
        31
    }
}

/// Days from 0000-01-01 up to (excluding) year `y`'s January 1st.
pub open spec fn days_before_year(y: nat) -> int
    decreases y,
{
    if y == 0 {
        0
    } else {
        days_before_year((y - 1) as nat) + days_in_year(y - 1)
    }
}

/// Days from `y`-01-01 up to (excluding) the first of month `m` (1-based).
pub open spec fn days_before_month(y: int, m: int) -> int
    decreases m,
{
    if m <= 1 {
        0
    } else {
        days_before_month(y, m - 1) + days_in_month(y, m - 1)
    }
}

/// Absolute day number of the date `y`-`m`-`d`, with 0000-01-01 as day 0.
pub open spec fn day_number(y: int, m: int, d: int) -> int {
    days_before_year(if y >= 0 {
        y as nat
    } else {
        0
    }) + days_before_month(y, m) + (d - 1)
}

/// A real calendar date with a four-digit year.
pub open spec fn valid_date(y: int, m: int, d: int) -> bool {
    &&& 0 <= y <= 9999
    &&& 1 <= m <= 12
    &&& 1 <= d <= days_in_month(y, m)
}

pub fn days_in_month_x(y: u64, m: u64) -> (r: u64)
    requires
        1 <= m <= 12,
    ensures
        r == days_in_month(y as int, m as int),
{
    if m == 2 {
        if (y % 4 == 0 && y % 100 != 0) || y % 400 == 0 {
            29
        } else {
            28
        }
    } else if m == 4 || m == 6 || m == 9 || m == 11 {
        30
    } else {
        31
    }
}

pub fn days_in_year_x(y: u64) -> (r: u64)
    ensures
        r == days_in_year(y as int),
{
    if (y % 4 == 0 && y % 100 != 0) || y % 400 == 0 {
        366
    } else {
        365
    }
}

/// A year holds its months: the twelve month lengths sum to the year length.
pub proof fn lemma_months_fill_year(y: int)
    ensures
        days_before_month(y, 13) == days_in_year(y),
{
    reveal_with_fuel(days_before_month, 14);
}

/// No month has a negative offset from January 1st.
pub proof fn lemma_days_before_month_nonneg(y: int, m: int)
    ensures
        0 <= days_before_month(y, m),
    decreases m,
{
    if m > 1 {
        lemma_days_before_month_nonneg(y, m - 1);
    }
}

/// `days_before_month` grows by whole months.
pub proof fn lemma_days_before_month_bound(y: int, m: int)
    requires
        1 <= m <= 12,
    ensures
        0 <= days_before_month(y, m),
        days_before_month(y, m) + days_in_month(y, m) <= days_in_year(y),
    decreases 12 - m,
{
    lemma_days_before_month_nonneg(y, m);
    if m == 12 {
        lemma_months_fill_year(y);
    } else {
        lemma_days_before_month_bound(y, m + 1);
    }
}

/// Every year is at least 365 and at most 366 days long, so the day count
/// before year `y` lies between `365 * y` and `366 * y`.
pub proof fn lemma_days_before_year_bound(y: nat)
    ensures
        365 * y <= days_before_year(y) <= 366 * y,
    decreases y,
{
    if y > 0 {
        lemma_days_before_year_bound((y - 1) as nat);
    }
}

/// Day numbers within a valid date's year stay inside that year's range.
pub proof fn lemma_day_number_in_year(y: int, m: int, d: int)
    requires
        valid_date(y, m, d),
    ensures
        days_before_year(y as nat) <= day_number(y, m, d),
        day_number(y, m, d) < days_before_year(y as nat) + days_in_year(y),
        day_number(y, m, d) < days_before_year((y + 1) as nat),
{
    lemma_days_before_month_bound(y, m);
}

/// `days_before_year` is strictly monotonic.
pub proof fn lemma_days_before_year_mono(a: nat, b: nat)
    requires
        a < b,
    ensures
        days_before_year(a) + 365 <= days_before_year(b),
    decreases b,
{
    if a + 1 < b {
        lemma_days_before_year_mono(a, (b - 1) as nat);
    }
}

/// The last representable date sits one day short of year 10000.
pub proof fn lemma_last_day()
    ensures
        day_number(9999, 12, 31) == days_before_year(10000) - 1,
{
    lemma_months_fill_year(9999);
}

/// No two valid dates share a day number.
pub proof fn lemma_day_number_injective(y1: int, m1: int, d1: int, y2: int, m2: int, d2: int)
    requires
        valid_date(y1, m1, d1),
        valid_date(y2, m2, d2),
        day_number(y1, m1, d1) == day_number(y2, m2, d2),
    ensures
        y1 == y2 && m1 == m2 && d1 == d2,
{
    lemma_day_number_in_year(y1, m1, d1);
    lemma_day_number_in_year(y2, m2, d2);
    if y1 < y2 {
        if y1 + 1 < y2 {
            lemma_days_before_year_mono((y1 + 1) as nat, y2 as nat);
        }
        assert(false);
    }
    if y2 < y1 {
        if y2 + 1 < y1 {
            lemma_days_before_year_mono((y2 + 1) as nat, y1 as nat);
        }
        assert(false);
    }
    lemma_month_offset_injective(y1, m1, d1, m2, d2);
}

/// Within one year, the offset from January 1st determines month and day.
proof fn lemma_month_offset_injective(y: int, m1: int, d1: int, m2: int, d2: int)
    requires
        valid_date(y, m1, d1),
        valid_date(y, m2, d2),
        days_before_month(y, m1) + d1 == days_before_month(y, m2) + d2,
    ensures
        m1 == m2 && d1 == d2,
{
    if m1 < m2 {
        lemma_days_before_month_mono(y, m1, m2);
        assert(false);
    }
    if m2 < m1 {
        lemma_days_before_month_mono(y, m2, m1);
        assert(false);
    }
}

/// A later month starts after the whole earlier month.
proof fn lemma_days_before_month_mono(y: int, a: int, b: int)
    requires
        1 <= a < b <= 12,
    ensures
        days_before_month(y, a) + days_in_month(y, a) <= days_before_month(y, b),
    decreases b - a,
{
    if a + 1 < b {
        lemma_days_before_month_mono(y, a + 1, b);
    }
}

/// Day number of `y`-`m`-`d`, counted from 0000-01-01.
pub fn day_number_x(y: u64, m: u64, d: u64) -> (r: u64)
    requires
        valid_date(y as int, m as int, d as int),
    ensures
        r == day_number(y as int, m as int, d as int),
        r < 3661000,
{
    let mut acc: u64 = 0;
    let mut i: u64 = 0;
    while i < y
        invariant
            i <= y,
            y <= 9999,
            acc == days_before_year(i as nat),
            acc <= 366 * i,
        decreases y - i,
    {
        acc = acc + days_in_year_x(i);
        i = i + 1;
    }
    let mut mm: u64 = 1;
    while mm < m
        invariant
            1 <= mm <= m,
            m <= 12,
            y <= 9999,
            acc == days_before_year(y as nat) + days_before_month(y as int, mm as int),
            acc <= 366 * y + 31 * (mm - 1),
        decreases m - mm,
    {
        acc = acc + days_in_month_x(y, mm);
        mm = mm + 1;
    }
    acc + (d - 1)
}

/// The valid date carried by an absolute day number below year 10000.
pub fn date_of_day_number(n: u64) -> (r: (u64, u64, u64))
    requires
        n < days_before_year(10000),
    ensures
        valid_date(r.0 as int, r.1 as int, r.2 as int),
        day_number(r.0 as int, r.1 as int, r.2 as int) == n,
{
    proof {
        lemma_days_before_year_bound(10000);
    }
    let mut y: u64 = 0;
    let mut rem: u64 = n;
    loop
        invariant_except_break
            y <= 9999,
            days_before_year(y as nat) + rem == n,
            n < days_before_year(10000),
        ensures
            y <= 9999,
            days_before_year(y as nat) + rem == n,
            rem < days_in_year(y as int),
        decreases n - y,
    {
        let len = days_in_year_x(y);
        if rem < len {
            break ;
        }
        proof {
            if y == 9999 {
                assert(days_before_year(10000) == days_before_year(9999) + days_in_year(9999));
                assert(false);
            }
            lemma_days_before_year_bound(y as nat);
        }
        rem = rem - len;
        y = y + 1;
    }
    let mut m: u64 = 1;
    loop
        invariant_except_break
            1 <= m <= 12,
            days_before_month(y as int, m as int) + rem == n - days_before_year(y as nat),
            rem + days_before_month(y as int, m as int) < days_in_year(y as int),
            y <= 9999,
        ensures
            1 <= m <= 12,
            days_before_month(y as int, m as int) + rem == n - days_before_year(y as nat),
            rem < days_in_month(y as int, m as int),
            y <= 9999,
        decreases 12 - m,
    {
        let len = days_in_month_x(y, m);
        if rem < len {
            break ;
        }
        proof {
            if m == 12 {
                lemma_months_fill_year(y as int);
                assert(false);
            }
            lemma_days_before_month_nonneg(y as int, m as int);
        }
        rem = rem - len;
        m = m + 1;
    }
    proof {
        lemma_days_before_month_nonneg(y as int, m as int);
    }
    (y, m, rem + 1)
}

} // verus!
