//! The mathematical model of the proleptic Gregorian calendar, and the
//! verified conversions between day numbers and civil dates.
//!
//! Everything in the crate is specified against the functions here:
//! `days_before_year` counts days from the calendar origin 0000-01-01 to
//! the first day of a year, `days_before_month` counts days inside a year,
//! and `days_from_ymd` turns a civil date into a day number counted from
//! the Unix epoch 1970-01-01.

use vstd::prelude::*;

verus! {

/// First representable year.
pub const MIN_YEAR: i64 = -262143;
/// Last representable year.
pub const MAX_YEAR: i64 = 262142;
/// Days from 0000-01-01 to 1970-01-01.
pub const EPOCH_DAYS: i64 = 719528;
/// Day number of MIN_YEAR-01-01 (counted from the Unix epoch).
pub const MIN_DAY: i64 = -96465292;
/// Day number of MAX_YEAR-12-31 (counted from the Unix epoch).
pub const MAX_DAY: i64 = 95026236;
/// First representable second (00:00:00 on the first representable day).
pub const MIN_SECS: i64 = -8334601228800;
/// Last representable second (23:59:59 on the last representable day).
pub const MAX_SECS: i64 = 8210266876799;
/// Length in days of one 400-year Gregorian cycle.
pub const CYCLE_DAYS: i64 = 146097;

pub open spec fn is_leap_year(y: int) -> bool {
    (y % 4 == 0 && y % 100 != 0) || y % 400 == 0
}

/// Days from 0000-01-01 to `y`-01-01.  The three division terms count the
/// leap years in `[0, y)` (for negative `y`, minus those in `[y, 0)`).
pub open spec fn days_before_year(y: int) -> int {
    365 * y + (y + 3) / 4 - (y + 99) / 100 + (y + 399) / 400
}

pub open spec fn days_in_month(y: int, m: int) -> int {
    if m == 2 {
        if is_leap_year(y) {
            29
        } else {
            28
        }
    } else if m == 4 || m == 6 || m == 9 || m == 11 {
        30
    } else {
        31
    }
}

/// Days from `y`-01-01 to `y`-`m`-01, for `1 <= m <= 13`; `m == 13` gives
/// the length of the whole year.
pub open spec fn days_before_month(y: int, m: int) -> int
    decreases m,
{
    if m <= 1 {
        0
    } else {
        days_before_month(y, m - 1) + days_in_month(y, m - 1)
    }
}

pub open spec fn valid_ymd(y: int, m: int, d: int) -> bool {
    &&& MIN_YEAR <= y <= MAX_YEAR
    &&& 1 <= m <= 12
    &&& 1 <= d <= days_in_month(y, m)
}

/// Day number of a civil date, counted from the Unix epoch 1970-01-01.
pub open spec fn days_from_ymd(y: int, m: int, d: int) -> int {
    days_before_year(y) + days_before_month(y, m) + (d - 1) - EPOCH_DAYS
}

/// `(y, m, d)` is the civil reading of day number `days`.  The reading
/// is unique (`lemma_civil_injective`), which is what lets single-field
/// accessors be exact.
pub open spec fn is_civil_of(days: int, y: int, m: int, d: int) -> bool {
    &&& 1 <= m <= 12
    &&& 1 <= d <= days_in_month(y, m)
    &&& days_from_ymd(y, m, d) == days
}

/// Going from one year to the next adds exactly the length of the year.
pub proof fn lemma_days_before_year_step(y: int)
    ensures
        days_before_year(y + 1) == days_before_year(y) + if is_leap_year(y) {
            366int
        } else {
            365int
        },
{
    lemma_div_step(y + 3, 4);
    lemma_div_step(y + 99, 100);
    lemma_div_step(y + 399, 400);
    assert((y + 3) % 4 == 3 <==> y % 4 == 0) by {
        lemma_mod_shift(y, 4, 3);
    }
    assert((y + 99) % 100 == 99 <==> y % 100 == 0) by {
        lemma_mod_shift(y, 100, 99);
    }
    assert((y + 399) % 400 == 399 <==> y % 400 == 0) by {
        lemma_mod_shift(y, 400, 399);
    }
}

/// `(a + 1) / n` exceeds `a / n` exactly when `a` is the last residue.
proof fn lemma_div_step(a: int, n: int)
    requires
        n > 0,
    ensures
        (a + 1) / n == a / n + if a % n == n - 1 {
            1int
        } else {
            0int
        },
{
    vstd::arithmetic::div_mod::lemma_fundamental_div_mod(a, n);
    vstd::arithmetic::div_mod::lemma_mod_bound(a, n);
    let q = a / n;
    let r = a % n;
    if r == n - 1 {
        assert(a + 1 == (q + 1) * n + 0) by (nonlinear_arith)
            requires
                a == n * q + r,
                r == n - 1,
        {}
        vstd::arithmetic::div_mod::lemma_fundamental_div_mod_converse(a + 1, n, q + 1, 0);
    } else {
        assert(a + 1 == q * n + (r + 1)) by (nonlinear_arith)
            requires
                a == n * q + r,
        {}
        vstd::arithmetic::div_mod::lemma_fundamental_div_mod_converse(a + 1, n, q, r + 1);
    }
}

/// `(y + k) % n == n - 1` exactly when `y % n == 0`, for `k == n - 1`.
proof fn lemma_mod_shift(y: int, n: int, k: int)
    requires
        n > 0,
        k == n - 1,
    ensures
        (y + k) % n == n - 1 <==> y % n == 0,
{
    vstd::arithmetic::div_mod::lemma_fundamental_div_mod(y, n);
    vstd::arithmetic::div_mod::lemma_mod_bound(y, n);
    let q = y / n;
    let r = y % n;
    if r == 0 {
        assert(y + k == q * n + (n - 1)) by (nonlinear_arith)
            requires
                y == n * q + r,
                r == 0,
                k == n - 1,
        {}
        vstd::arithmetic::div_mod::lemma_fundamental_div_mod_converse(y + k, n, q, n - 1);
    } else {
        assert(y + k == (q + 1) * n + (r - 1)) by (nonlinear_arith)
            requires
                y == n * q + r,
                k == n - 1,
        {}
        vstd::arithmetic::div_mod::lemma_fundamental_div_mod_converse(y + k, n, q + 1, r - 1);
    }
}

/// `days_before_year` is strictly increasing, by at least 365 per year.
pub proof fn lemma_days_before_year_mono(a: int, b: int)
    requires
        a <= b,
    ensures
        days_before_year(a) + 365 * (b - a) <= days_before_year(b),
        days_before_year(b) <= days_before_year(a) + 366 * (b - a),
    decreases b - a,
{
    if a < b {
        lemma_days_before_year_step(b - 1);
        lemma_days_before_year_mono(a, b - 1);
    }
}

/// The months of a year cover exactly the days of the year.
pub proof fn lemma_year_length(y: int)
    ensures
        days_before_month(y, 13) == if is_leap_year(y) {
            366int
        } else {
            365int
        },
{
    reveal_with_fuel(days_before_month, 14);
}

/// The Euclidean quotient of an `i64` by a positive divisor stays in
/// range.
pub proof fn lemma_div_floor_fits(a: int, b: int)
    requires
        0 < b,
        i64::MIN <= a <= i64::MAX,
    ensures
        i64::MIN <= a / b <= i64::MAX,
{
    vstd::arithmetic::div_mod::lemma_fundamental_div_mod(a, b);
    vstd::arithmetic::div_mod::lemma_mod_bound(a, b);
    let q = a / b;
    let r = a % b;
    if a >= 0 {
        assert(0 <= q <= a) by (nonlinear_arith)
            requires
                a == b * q + r,
                0 <= r < b,
                b >= 1,
                a >= 0,
        {
            if q < 0 {
                assert(b * q <= -b);
            }
            if q >= 0 {
                assert(b * q >= q);
            }
        }
    } else {
        assert(i64::MIN <= q && q <= 0) by (nonlinear_arith)
            requires
                a == b * q + r,
                0 <= r < b,
                b >= 1,
                a < 0,
                a >= i64::MIN,
        {
            if q > 0 {
                assert(b * q >= b);
            }
            if q <= i64::MIN - 1 {
                assert(b * q <= b * (i64::MIN - 1));
                assert(b * (i64::MIN - 1) <= i64::MIN - 1);
            }
        }
    }
}

/// Euclidean quotient for a small positive divisor: rounds toward minus
/// infinity.
pub fn div_floor(a: i64, b: i64) -> (q: i64)
    requires
        0 < b,
    ensures
        q == a as int / b as int,
{
    proof {
        lemma_div_floor_fits(a as int, b as int);
    }
    a.checked_div_euclid(b).unwrap()
}

/// Euclidean remainder for a positive divisor: always in `[0, b)`.
pub fn rem_floor(a: i64, b: i64) -> (r: i64)
    requires
        b > 0,
    ensures
        r == a as int % b as int,
        0 <= r < b,
{
    proof {
        vstd::arithmetic::div_mod::lemma_mod_bound(a as int, b as int);
    }
    a.checked_rem_euclid(b).unwrap()
}

/// Days from the calendar origin to `y`-01-01, as executable code.
pub fn days_before_year_x(y: i64) -> (r: i64)
    requires
        -262500 <= y <= 262500,
    ensures
        r == days_before_year(y as int),
{
    let base = 365 * y;
    let a = div_floor(y + 3, 4);
    let b = div_floor(y + 99, 100);
    let c = div_floor(y + 399, 400);
    base + a - b + c
}

pub fn is_leap_year_x(y: i64) -> (r: bool)
    ensures
        r == is_leap_year(y as int),
{
    let m4 = y.checked_rem_euclid(4).unwrap();
    let m100 = y.checked_rem_euclid(100).unwrap();
    let m400 = y.checked_rem_euclid(400).unwrap();
    (m4 == 0 && m100 != 0) || m400 == 0
}

pub fn days_in_month_x(y: i64, m: u8) -> (r: u8)
    requires
        1 <= m <= 12,
    ensures
        r == days_in_month(y as int, m as int),
        28 <= r <= 31,
{
    if m == 2 {
        if is_leap_year_x(y) {
            29
        } else {
            28
        }
    } else if m == 4 || m == 6 || m == 9 || m == 11 {
        30
    } else {
        31
    }
}

/// Days inside year `y` before the first of month `m`.
pub fn days_before_month_x(y: i64, m: u8) -> (r: u16)
    requires
        1 <= m <= 13,
    ensures
        r == days_before_month(y as int, m as int),
        r <= 366,
{
    let mut acc: u16 = 0;
    let mut i: u8 = 1;
    while i < m
        invariant
            1 <= i <= m,
            m <= 13,
            acc == days_before_month(y as int, i as int),
            acc <= 366,
        decreases m - i,
    {
        proof {
            lemma_year_length(y as int);
            lemma_days_before_month_bound(y as int, i as int);
            lemma_days_before_month_bound(y as int, i as int + 1);
        }
        acc = acc + days_in_month_x(y, i) as u16;
        i = i + 1;
    }
    acc
}

/// `days_before_month` is monotone in the month.
pub proof fn lemma_days_before_month_mono(y: int, m1: int, m2: int)
    requires
        1 <= m1 <= m2 <= 13,
    ensures
        days_before_month(y, m1) <= days_before_month(y, m2),
    decreases m2 - m1,
{
    if m1 < m2 {
        lemma_days_before_month_mono(y, m1, m2 - 1);
    }
}

/// `days_before_month` stays within the length of the year.
pub proof fn lemma_days_before_month_bound(y: int, m: int)
    requires
        1 <= m <= 13,
    ensures
        0 <= days_before_month(y, m) <= 366,
        days_before_month(y, m) <= days_before_month(y, 13),
{
    lemma_year_length(y);
    lemma_days_before_month_mono(y, 1, m);
    lemma_days_before_month_mono(y, m, 13);
}

/// Day number of a valid civil date.
pub fn ymd_to_days(y: i64, m: u8, d: u8) -> (r: i64)
    requires
        valid_ymd(y as int, m as int, d as int),
    ensures
        r == days_from_ymd(y as int, m as int, d as int),
        MIN_DAY <= r <= MAX_DAY,
{
    proof {
        lemma_ymd_day_range(y as int, m as int, d as int);
    }
    let by = days_before_year_x(y);
    let bm = days_before_month_x(y, m);
    by + bm as i64 + (d as i64 - 1) - EPOCH_DAYS
}

/// A valid civil date always lands inside the representable day range.
pub proof fn lemma_ymd_day_range(y: int, m: int, d: int)
    requires
        valid_ymd(y, m, d),
    ensures
        MIN_DAY <= days_from_ymd(y, m, d) <= MAX_DAY,
        days_before_year(y) + days_before_month(y, m) + (d - 1) < days_before_year(y + 1),
{
    lemma_days_before_month_bound(y, m);
    lemma_days_before_month_bound(y, m + 1);
    lemma_year_length(y);
    lemma_days_before_year_step(y);
    lemma_days_before_year_mono(MIN_YEAR as int, y);
    lemma_days_before_year_mono(y + 1, MAX_YEAR + 1);
    assert(days_before_year(MIN_YEAR as int) == MIN_DAY + EPOCH_DAYS);
    assert(days_before_year(MAX_YEAR + 1) == MAX_DAY + 1 + EPOCH_DAYS);
    assert(days_before_month(y, m) + (d - 1) < days_before_month(y, m + 1)) by {
        assert(days_before_month(y, m + 1) == days_before_month(y, m) + days_in_month(y, m));
    }
}

/// Civil date of a day number: the returned fields are valid and map back
/// to the argument under `days_from_ymd`.
pub fn days_to_ymd(days: i64) -> (r: (i64, u8, u8))
    requires
        MIN_DAY - 2 <= days <= MAX_DAY + 2,
    ensures
        MIN_YEAR - 1 <= r.0 <= MAX_YEAR + 1,
        1 <= r.1 <= 12,
        1 <= r.2 <= days_in_month(r.0 as int, r.1 as int),
        days_from_ymd(r.0 as int, r.1 as int, r.2 as int) == days,
        MIN_DAY <= days <= MAX_DAY ==> MIN_YEAR <= r.0 <= MAX_YEAR,
{
    let z = days + EPOCH_DAYS;
    let era = div_floor(z, CYCLE_DAYS);
    proof {
        lemma_cycle(era as int);
        lemma_cycle(era as int + 1);
        vstd::arithmetic::div_mod::lemma_fundamental_div_mod(z as int, CYCLE_DAYS as int);
        vstd::arithmetic::div_mod::lemma_mod_bound(z as int, CYCLE_DAYS as int);
    }
    let mut y: i64 = era.checked_mul(400).unwrap();
    let mut dby: i64 = days_before_year_x(y);
    loop
        invariant
            era * 400 <= y < era * 400 + 400,
            dby == days_before_year(y as int),
            dby <= z,
            z < days_before_year(era as int * 400 + 400),
            z == days + EPOCH_DAYS,
            MIN_DAY - 2 <= days <= MAX_DAY + 2,
            -656 <= era <= 655,
        ensures
            dby == days_before_year(y as int),
            dby <= z,
            z < days_before_year(y as int + 1),
            z == days + EPOCH_DAYS,
            MIN_YEAR - 1 <= y <= MAX_YEAR + 1,
            MIN_DAY <= days && days <= MAX_DAY ==> MIN_YEAR <= y <= MAX_YEAR,
        decreases era * 400 + 400 - y,
    {
        proof {
            lemma_days_before_year_mono(y as int + 1, era as int * 400 + 400);
            lemma_year_range(y as int, z as int, days as int);
        }
        let next = days_before_year_x(y + 1);
        if next > z {
            proof {
                lemma_year_range(y as int, z as int, days as int);
            }
            break;
        }
        y = y + 1;
        dby = next;
    }
    // `y` is now the year: `days_before_year(y) <= z < days_before_year(y + 1)`.
    let doy = z - dby;
    proof {
        lemma_days_before_year_step(y as int);
        lemma_year_length(y as int);
    }
    let mut m: u8 = 1;
    let mut bm: u16 = 0;
    loop
        invariant
            1 <= m <= 12,
            bm == days_before_month(y as int, m as int),
            bm as int <= doy,
            doy == z - days_before_year(y as int),
            0 <= doy < days_before_month(y as int, 13),
            MIN_YEAR - 1 <= y <= MAX_YEAR + 1,
        ensures
            1 <= m <= 12,
            bm == days_before_month(y as int, m as int),
            bm as int <= doy,
            doy < days_before_month(y as int, m as int) + days_in_month(y as int, m as int),
            doy == z - days_before_year(y as int),
        decreases 12 - m,
    {
        proof {
            lemma_days_before_month_bound(y as int, m as int);
            lemma_days_before_month_bound(y as int, m as int + 1);
            lemma_year_length(y as int);
        }
        let next = bm + days_in_month_x(y, m) as u16;
        if m == 12 || (next as i64) > doy {
            proof {
                if m == 12 {
                    assert(days_before_month(y as int, 13) == days_before_month(y as int, 12)
                        + days_in_month(y as int, 12));
                }
            }
            break;
        }
        bm = next;
        m = m + 1;
    }
    let d = (doy - bm as i64 + 1) as u8;
    (y, m, d)
}

/// A day number in range comes from a year in range (with one year of
/// slack at either end for the extended day range).
proof fn lemma_year_range(y: int, z: int, days: int)
    requires
        days_before_year(y) <= z,
        z == days + EPOCH_DAYS,
        MIN_DAY - 2 <= days <= MAX_DAY + 2,
    ensures
        y <= MAX_YEAR + 1,
        z < days_before_year(y + 1) ==> y >= MIN_YEAR - 1,
        z < days_before_year(y + 1) && MIN_DAY <= days ==> y >= MIN_YEAR,
        MAX_DAY >= days ==> y <= MAX_YEAR,
{
    assert(days_before_year(MIN_YEAR as int) == MIN_DAY + EPOCH_DAYS);
    assert(days_before_year(MAX_YEAR + 1) == MAX_DAY + 1 + EPOCH_DAYS);
    if y > MAX_YEAR + 1 {
        lemma_days_before_year_mono(MAX_YEAR + 2, y);
        lemma_days_before_year_step(MAX_YEAR + 1);
    }
    if y == MAX_YEAR + 1 && days <= MAX_DAY {
        lemma_days_before_year_step(MAX_YEAR + 1);
    }
    if y + 1 < MIN_YEAR {
        lemma_days_before_year_mono(y + 1, MIN_YEAR as int);
    }
    if y + 1 == MIN_YEAR {
        lemma_days_before_year_step(y);
    }
}

/// Four hundred consecutive years always span one full cycle.
pub proof fn lemma_cycle(k: int)
    ensures
        days_before_year(400 * k) == CYCLE_DAYS * k,
{
    assert((400 * k + 3) / 4 == 100 * k) by {
        vstd::arithmetic::div_mod::lemma_fundamental_div_mod_converse(400 * k + 3, 4, 100 * k, 3);
    }
    assert((400 * k + 99) / 100 == 4 * k) by {
        vstd::arithmetic::div_mod::lemma_fundamental_div_mod_converse(400 * k + 99, 100, 4 * k, 99);
    }
    assert((400 * k + 399) / 400 == k) by {
        vstd::arithmetic::div_mod::lemma_fundamental_div_mod_converse(400 * k + 399, 400, k, 399);
    }
}


/// One day inside a year determines the month and day uniquely.
proof fn lemma_month_injective(y: int, m1: int, d1: int, m2: int, d2: int)
    requires
        1 <= m1 <= 12,
        1 <= d1 <= days_in_month(y, m1),
        1 <= m2 <= 12,
        1 <= d2 <= days_in_month(y, m2),
        days_before_month(y, m1) + (d1 - 1) == days_before_month(y, m2) + (d2 - 1),
    ensures
        m1 == m2,
        d1 == d2,
{
    if m1 < m2 {
        lemma_days_before_month_mono(y, m1 + 1, m2);
    }
    if m2 < m1 {
        lemma_days_before_month_mono(y, m2 + 1, m1);
    }
}

/// A day number has exactly one civil reading.
pub proof fn lemma_civil_injective(days: int, y1: int, m1: int, d1: int, y2: int, m2: int, d2: int)
    requires
        is_civil_of(days, y1, m1, d1),
        is_civil_of(days, y2, m2, d2),
    ensures
        y1 == y2,
        m1 == m2,
        d1 == d2,
{
    lemma_civil_within_year(y1, m1, d1);
    lemma_civil_within_year(y2, m2, d2);
    if y1 < y2 {
        lemma_days_before_year_mono(y1 + 1, y2);
        assert(false);
    }
    if y2 < y1 {
        lemma_days_before_year_mono(y2 + 1, y1);
        assert(false);
    }
    lemma_month_injective(y1, m1, d1, m2, d2);
}

/// A civil date lies inside the day span of its own year.
pub proof fn lemma_civil_within_year(y: int, m: int, d: int)
    requires
        1 <= m <= 12,
        1 <= d <= days_in_month(y, m),
    ensures
        days_before_year(y) <= days_from_ymd(y, m, d) + EPOCH_DAYS,
        days_from_ymd(y, m, d) + EPOCH_DAYS < days_before_year(y + 1),
{
    lemma_days_before_month_bound(y, m);
    lemma_days_before_month_mono(y, m + 1, 13);
    lemma_year_length(y);
    lemma_days_before_year_step(y);
    assert(days_before_month(y, m) + (d - 1) < days_before_month(y, m + 1));
}

} // verus!
