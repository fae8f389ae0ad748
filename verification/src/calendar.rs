//! Gregorian calendar arithmetic over days counted from the Unix epoch
//! (1970-01-01). The store keys its hour buckets by year, day-of-year and
//! hour, and serializes instants as calendar dates, so the conversion between
//! epoch days and civil dates is part of the core and is verified here.

use vstd::prelude::*;

verus! {

use vstd::arithmetic::div_mod::{lemma_fundamental_div_mod, lemma_fundamental_div_mod_converse};

/// Last representable epoch day: 9999-12-31.
pub const MAX_DAYS: u64 = 2932896;

/// Whether `y` is a Gregorian leap year.
pub open spec fn is_leap_year(y: int) -> bool {
    y % 4 == 0 && (y % 100 != 0 || y % 400 == 0)
}

/// Number of days in year `y`.
pub open spec fn days_in_year(y: int) -> int {
    if is_leap_year(y) {
        366
    } else {
        365
    }
}

/// Leap years in `[1, y]`, for `y >= 0`.
pub open spec fn leap_years_through(y: int) -> int {
    y / 4 - y / 100 + y / 400
}

/// Days from 1970-01-01 to the first day of year `y`.
pub open spec fn days_before_year(y: int) -> int {
    365 * (y - 1970) + leap_years_through(y - 1) - leap_years_through(1969)
}

/// Stepping the numerator of a division by one raises the quotient exactly
/// when the new numerator is a multiple of the divisor.
proof fn lemma_div_step(n: int, d: int)
    requires
        d > 0,
    ensures
        n / d == (n - 1) / d + if n % d == 0 { 1int } else { 0int },
{
    lemma_fundamental_div_mod(n, d);
    assert((n / d - 1) * d == d * (n / d) - d) by (nonlinear_arith);
    assert((n / d) * d == d * (n / d)) by (nonlinear_arith);
    if n % d == 0 {
        lemma_fundamental_div_mod_converse(n - 1, d, n / d - 1, d - 1);
    } else {
        lemma_fundamental_div_mod_converse(n - 1, d, n / d, n % d - 1);
    }
}

/// `days_before_year` advances by exactly the length of the year stepped over.
pub proof fn lemma_days_before_year_step(y: int)
    ensures
        days_before_year(y + 1) == days_before_year(y) + days_in_year(y),
{
    lemma_div_step(y, 4);
    lemma_div_step(y, 100);
    lemma_div_step(y, 400);
    if y % 400 == 0 {
        lemma_fundamental_div_mod(y, 400);
        lemma_fundamental_div_mod_converse(y, 100, 4 * (y / 400), 0);
        lemma_fundamental_div_mod_converse(y, 4, 100 * (y / 400), 0);
    } else if y % 100 == 0 {
        lemma_fundamental_div_mod(y, 100);
        lemma_fundamental_div_mod_converse(y, 4, 25 * (y / 100), 0);
    }
}

/// `days_before_year` is monotone, growing by at least 365 days per year.
pub proof fn lemma_days_before_year_mono(a: int, b: int)
    requires
        a <= b,
    ensures
        days_before_year(b) - days_before_year(a) >= 365 * (b - a),
    decreases b - a,
{
    if a < b {
        lemma_days_before_year_mono(a, b - 1);
        lemma_days_before_year_step(b - 1);
    }
}

/// Year and zero-based day-of-year reached by walking `d` days forward from
/// the first day of year `a`.
pub open spec fn ydoy_rec(a: int, d: int) -> (int, int)
    decreases d,
    when 0 <= d && 1970 <= a
{
    if d < days_in_year(a) {
        (a, d)
    } else {
        ydoy_rec(a + 1, d - days_in_year(a))
    }
}

/// Year and zero-based day-of-year of epoch day `d`.
pub open spec fn year_doy_of_days(d: int) -> (int, int) {
    ydoy_rec(1970, d)
}

/// The walk from year `a` lands on a year at or past `a`, on a day inside
/// that year, and the day counts agree with `days_before_year`.
pub proof fn lemma_ydoy_rec_props(a: int, d: int)
    requires
        1970 <= a,
        0 <= d,
    ensures
        a <= ydoy_rec(a, d).0,
        0 <= ydoy_rec(a, d).1 < days_in_year(ydoy_rec(a, d).0),
        days_before_year(ydoy_rec(a, d).0) + ydoy_rec(a, d).1 == days_before_year(a) + d,
    decreases d,
{
    if d < days_in_year(a) {
    } else {
        lemma_ydoy_rec_props(a + 1, d - days_in_year(a));
        lemma_days_before_year_step(a);
    }
}

/// On the supported range of epoch days the year stays at most 9999.
pub proof fn lemma_year_doy_bounds(d: int)
    requires
        0 <= d <= MAX_DAYS,
    ensures
        1970 <= year_doy_of_days(d).0 <= 9999,
        0 <= year_doy_of_days(d).1 < days_in_year(year_doy_of_days(d).0),
        days_before_year(year_doy_of_days(d).0) + year_doy_of_days(d).1 == d,
{
    lemma_ydoy_rec_props(1970, d);
    let y = year_doy_of_days(d).0;
    if y > 9999 {
        lemma_days_before_year_mono(10000, y);
        assert(days_before_year(10000) == 2932897);
    }
}

/// Walking `days_before_year(y) + doy` days from 1970 lands exactly on
/// `(y, doy)`: the decomposition of an epoch day into year and day-of-year
/// is the inverse of reassembly.
pub proof fn lemma_ydoy_inverse(a: int, y: int, doy: int)
    requires
        1970 <= a <= y,
        0 <= doy < days_in_year(y),
    ensures
        ydoy_rec(a, days_before_year(y) - days_before_year(a) + doy) == (y, doy),
    decreases y - a,
{
    lemma_days_before_year_mono(a, y);
    if a == y {
    } else {
        lemma_days_before_year_step(a);
        lemma_days_before_year_mono(a + 1, y);
        lemma_ydoy_inverse(a + 1, y, doy);
    }
}

/// Number of days in month `m` (1-based) of year `y`.
pub open spec fn days_in_month(y: int, m: int) -> int {
    if m == 1 || m == 3 || m == 5 || m == 7 || m == 8 || m == 10 || m == 12 {
        31
    } else if m == 4 || m == 6 || m == 9 || m == 11 {
        30
    } else if m == 2 {
        if is_leap_year(y) {
            29
        } else {
            28
        }
    } else {
        1
    }
}

/// Days from the start of year `y` to the first day of month `m` (1-based).
pub open spec fn days_before_month(y: int, m: int) -> int
    decreases m,
    when 1 <= m
{
    if m <= 1 {
        0
    } else {
        days_before_month(y, m - 1) + days_in_month(y, m - 1)
    }
}

/// The twelve months exactly fill the year.
pub proof fn lemma_months_fill_year(y: int)
    ensures
        days_before_month(y, 13) == days_in_year(y),
{
    reveal_with_fuel(days_before_month, 13);
}

/// `days_before_month` is monotone in the month.
pub proof fn lemma_days_before_month_mono(y: int, a: int, b: int)
    requires
        1 <= a <= b,
    ensures
        days_before_month(y, a) <= days_before_month(y, b),
    decreases b - a,
{
    if a < b {
        lemma_days_before_month_mono(y, a, b - 1);
    }
}

/// Month and one-based day-of-month reached by walking `d` days forward from
/// the first day of month `m` of year `y`.
pub open spec fn md_rec(y: int, m: int, d: int) -> (int, int)
    decreases d,
    when 0 <= d
{
    if d < days_in_month(y, m) {
        (m, d + 1)
    } else {
        md_rec(y, m + 1, d - days_in_month(y, m))
    }
}

/// Month and one-based day-of-month of the zero-based day-of-year `doy`.
pub open spec fn month_day_of_doy(y: int, doy: int) -> (int, int) {
    md_rec(y, 1, doy)
}

/// The walk through the months of a year lands on a real month and a day
/// inside it, and the day counts agree with `days_before_month`.
pub proof fn lemma_md_rec_props(y: int, m: int, d: int)
    requires
        1 <= m <= 12,
        0 <= d,
        days_before_month(y, m) + d < days_in_year(y),
    ensures
        m <= md_rec(y, m, d).0 <= 12,
        1 <= md_rec(y, m, d).1 <= days_in_month(y, md_rec(y, m, d).0),
        days_before_month(y, md_rec(y, m, d).0) + md_rec(y, m, d).1 - 1 == days_before_month(y, m)
            + d,
    decreases d,
{
    if d < days_in_month(y, m) {
    } else {
        if m == 12 {
            lemma_months_fill_year(y);
        }
        lemma_md_rec_props(y, m + 1, d - days_in_month(y, m));
    }
}

/// Walking `days_before_month(y, m) + day - 1` days through the year lands
/// exactly on `(m, day)`: decomposition of a day-of-year into month and
/// day-of-month is the inverse of reassembly.
pub proof fn lemma_md_inverse(y: int, a: int, m: int, day: int)
    requires
        1 <= a <= m,
        1 <= day <= days_in_month(y, m),
    ensures
        md_rec(y, a, days_before_month(y, m) - days_before_month(y, a) + day - 1) == (m, day),
    decreases m - a,
{
    lemma_days_before_month_mono(y, a, m);
    if a == m {
    } else {
        lemma_days_before_month_mono(y, a + 1, m);
        lemma_md_inverse(y, a + 1, m, day);
    }
}

/// Whether `y` is a leap year; executable form of `is_leap_year`.
pub fn leap_year(y: u64) -> (b: bool)
    ensures
        b == is_leap_year(y as int),
{
    y % 4 == 0 && (y % 100 != 0 || y % 400 == 0)
}

/// Days in year `y`; executable form of `days_in_year`.
pub fn year_len(y: u64) -> (d: u64)
    ensures
        d == days_in_year(y as int),
{
    if leap_year(y) {
        366
    } else {
        365
    }
}

/// Days in month `m` of year `y`; executable form of `days_in_month`.
pub fn month_len(y: u64, m: u64) -> (d: u64)
    ensures
        d == days_in_month(y as int, m as int),
{
    if m == 1 || m == 3 || m == 5 || m == 7 || m == 8 || m == 10 || m == 12 {
        31
    } else if m == 4 || m == 6 || m == 9 || m == 11 {
        30
    } else if m == 2 {
        if leap_year(y) {
            29
        } else {
            28
        }
    } else {
        1
    }
}

/// Splits an epoch day into its year and zero-based day-of-year.
pub fn year_and_doy(days: u64) -> (r: (u64, u64))
    requires
        days <= MAX_DAYS,
    ensures
        (r.0 as int, r.1 as int) == year_doy_of_days(days as int),
        1970 <= r.0 <= 9999,
        r.1 < days_in_year(r.0 as int),
        days_before_year(r.0 as int) + r.1 == days,
{
    let mut y: u64 = 1970;
    let mut d: u64 = days;
    proof {
        assert(days_before_year(1970) == 0);
    }
    while d >= year_len(y)
        invariant
            1970 <= y <= 9999,
            d <= days <= MAX_DAYS,
            days_before_year(y as int) + d == days,
            ydoy_rec(y as int, d as int) == ydoy_rec(1970, days as int),
        decreases d,
    {
        let step = year_len(y);
        proof {
            lemma_days_before_year_step(y as int);
            if y + 1 == 10000 {
                assert(days_before_year(10000) == 2932897);
            }
        }
        d = d - step;
        y = y + 1;
    }
    proof {
        lemma_year_doy_bounds(days as int);
    }
    (y, d)
}

/// Splits a zero-based day-of-year into its month and one-based day-of-month.
pub fn month_and_day(y: u64, doy: u64) -> (r: (u64, u64))
    requires
        doy < days_in_year(y as int),
    ensures
        (r.0 as int, r.1 as int) == month_day_of_doy(y as int, doy as int),
        1 <= r.0 <= 12,
        1 <= r.1 <= days_in_month(y as int, r.0 as int),
        days_before_month(y as int, r.0 as int) + r.1 - 1 == doy,
{
    let mut m: u64 = 1;
    let mut d: u64 = doy;
    while d >= month_len(y, m)
        invariant
            1 <= m <= 12,
            doy < days_in_year(y as int),
            days_before_month(y as int, m as int) + d == doy,
            md_rec(y as int, m as int, d as int) == md_rec(y as int, 1, doy as int),
        decreases d,
    {
        let step = month_len(y, m);
        proof {
            if m == 12 {
                lemma_months_fill_year(y as int);
            }
        }
        d = d - step;
        m = m + 1;
    }
    proof {
        lemma_md_rec_props(y as int, 1, doy as int);
    }
    (m, d + 1)
}

/// Rebuilds a zero-based day-of-year from a month and one-based day-of-month.
pub fn doy_from_month_day(y: u64, m: u64, day: u64) -> (doy: u64)
    requires
        1 <= m <= 12,
        1 <= day <= days_in_month(y as int, m as int),
    ensures
        doy == days_before_month(y as int, m as int) + day - 1,
        doy < days_in_year(y as int),
        month_day_of_doy(y as int, doy as int) == (m as int, day as int),
{
    let mut acc: u64 = 0;
    let mut i: u64 = 1;
    while i < m
        invariant
            1 <= i <= m <= 12,
            acc == days_before_month(y as int, i as int),
            acc <= 366,
        decreases m - i,
    {
        proof {
            lemma_days_before_month_mono(y as int, i as int + 1, 13);
            lemma_months_fill_year(y as int);
        }
        acc = acc + month_len(y, i);
        i = i + 1;
    }
    proof {
        lemma_days_before_month_mono(y as int, m as int + 1, 13);
        lemma_months_fill_year(y as int);
        lemma_md_inverse(y as int, 1, m as int, day as int);
    }
    acc + day - 1
}

/// Rebuilds an epoch day from a year and zero-based day-of-year.
pub fn days_from_year_doy(y: u64, doy: u64) -> (days: u64)
    requires
        1970 <= y <= 9999,
        doy < days_in_year(y as int),
    ensures
        days == days_before_year(y as int) + doy,
        days <= MAX_DAYS,
        year_doy_of_days(days as int) == (y as int, doy as int),
{
    let mut acc: u64 = 0;
    let mut i: u64 = 1970;
    proof {
        assert(days_before_year(1970) == 0);
    }
    while i < y
        invariant
            1970 <= i <= y <= 9999,
            acc == days_before_year(i as int),
            acc <= MAX_DAYS,
        decreases y - i,
    {
        proof {
            lemma_days_before_year_step(i as int);
            lemma_days_before_year_mono(i as int + 1, 10000);
            assert(days_before_year(10000) == 2932897);
        }
        acc = acc + year_len(i);
        i = i + 1;
    }
    proof {
        lemma_days_before_year_mono(y as int + 1, 10000);
        lemma_days_before_year_step(y as int);
        assert(days_before_year(10000) == 2932897);
        lemma_ydoy_inverse(1970, y as int, doy as int);
    }
    acc + doy
}

} // verus!
