//! Points in time as integer nanoseconds since the Unix epoch, and calendar dates.

use vstd::prelude::*;
use vstd::arithmetic::div_mod::{lemma_fundamental_div_mod, lemma_div_multiples_vanish_fancy};

verus! {

/// Nanoseconds in one second.
pub const NANOS_PER_SEC: i128 = 1_000_000_000;

/// Whether `t` (nanoseconds since the Unix epoch) is a point that `SystemTime`
/// can hold: whole seconds in `i64`, plus a nanosecond part.
pub open spec fn representable(t: int) -> bool {
    -9223372036854775808 * 1_000_000_000 <= t < 9223372036854775808 * 1_000_000_000
}

/// Calls `SystemTime::now().duration_since(UNIX_EPOCH)`: `Ok` with the
/// nanoseconds since the epoch, or `Err` with the nanoseconds before it (the
/// duration the error carries). The contract claims the reading lies in the
/// range a `SystemTime` holds on Unix, whole seconds in `i64`; nothing else
/// is claimed of it.
#[verifier::external_body]
fn system_clock() -> (r: Result<u128, u128>)
    ensures
        match r {
            Ok(n) => n < 9223372036854775808 * 1_000_000_000,
            Err(n) => n <= 9223372036854775808 * 1_000_000_000,
        },
{
    match std::time::SystemTime::now().duration_since(std::time::UNIX_EPOCH) {
        Ok(d) => Ok(d.as_nanos()),
        Err(e) => Err(e.duration().as_nanos()),
    }
}

/// The current time of the system clock, in nanoseconds since the epoch.
pub fn now_stamp() -> (t: i128)
    ensures
        representable(t as int),
{
    match system_clock() {
        Ok(n) => n as i128,
        Err(n) => -(n as i128),
    }
}

/// The whole seconds of `t` nanoseconds, rounded down.
pub fn floor_secs(t: i128) -> (r: i128)
    requires
        representable(t as int),
    ensures
        r == t / 1_000_000_000,
{
    if t >= 0 {
        t / NANOS_PER_SEC
    } else {
        let q = (-t + 999_999_999) / NANOS_PER_SEC;
        proof {
            let a = -t;
            assert(-(((a + 999_999_999) / 1_000_000_000) as int) == t / 1_000_000_000)
                by (nonlinear_arith)
                requires
                    a > 0,
                    t == -a,
            ;
        }
        -q
    }
}

/// Whole seconds from `t` to `now`, or 0 when `t` lies after `now`
/// (`now.duration_since(t).unwrap_or_default().as_secs()`).
pub open spec fn elapsed_secs(t: int, now: int) -> int {
    if now >= t {
        (now - t) / 1_000_000_000
    } else {
        0
    }
}

/// Whole seconds from `t` to `now`, or 0 when `t` lies after `now`.
pub fn elapsed_secs_between(t: i128, now: i128) -> (r: u64)
    requires
        representable(t as int),
        representable(now as int),
    ensures
        r as int == elapsed_secs(t as int, now as int),
{
    if now >= t {
        let d = now - t;
        proof {
            assert(d / 1_000_000_000 <= 0xffff_ffff_ffff_ffff) by (nonlinear_arith)
                requires
                    0 <= d < 2 * 9223372036854775808 * 1_000_000_000,
            ;
        }
        (d / NANOS_PER_SEC) as u64
    } else {
        0
    }
}

/// Nanoseconds from `t` to `now`, or 0 when `t` lies after `now`.
pub open spec fn elapsed_nanos(t: int, now: int) -> int {
    if now >= t {
        now - t
    } else {
        0
    }
}

/// Whether `y` is a leap year of the proleptic Gregorian calendar.
pub open spec fn is_leap(y: int) -> bool {
    (y % 4 == 0 && y % 100 != 0) || y % 400 == 0
}

/// The number of days of month `m` in year `y`.
pub open spec fn month_days(y: int, m: int) -> int {
    if m == 2 {
        if is_leap(y) { 29 } else { 28 }
    } else if m == 4 || m == 6 || m == 9 || m == 11 {
        30
    } else {
        31
    }
}

/// Whether `(y, m, d)` names a day of the proleptic Gregorian calendar.
pub open spec fn valid_date(y: int, m: int, d: int) -> bool {
    1 <= m <= 12 && 1 <= d <= month_days(y, m)
}

/// Days in the months of year `y` before month `m`.
pub open spec fn days_before_month(y: int, m: int) -> int
    decreases m,
{
    if m <= 1 {
        0
    } else {
        days_before_month(y, m - 1) + month_days(y, m - 1)
    }
}

/// The count of leap years in `1..y` (negative below year 1, so that
/// `leaps_before(b) - leaps_before(a)` counts the leap years in `a..b`).
pub open spec fn leaps_before(y: int) -> int {
    (y - 1) / 4 - (y - 1) / 100 + (y - 1) / 400
}

/// The day number of `(y, m, d)`, with 1970-01-01 as day 0.
pub open spec fn days_from_epoch(y: int, m: int, d: int) -> int {
    365 * (y - 1970) + (leaps_before(y) - leaps_before(1970)) + days_before_month(y, m) + d - 1
}

proof fn lemma_shifted_div(a: int, k: int, d: int)
    requires
        d > 0,
    ensures
        (a + d * k) / d == a / d + k,
{
    lemma_fundamental_div_mod(a, d);
    let q = a / d;
    let r = a % d;
    assert(a + d * k == d * (q + k) + r) by (nonlinear_arith)
        requires
            a == d * q + r,
    ;
    lemma_div_multiples_vanish_fancy(q + k, r, d);
}

fn month_days_exec(y: i64, m: u32) -> (r: i64)
    requires
        -262143 <= y <= 262142,
    ensures
        r == month_days(y as int, m as int),
{
    if m == 2 {
        let yy = y + 400000;
        proof {
            lemma_shifted_div(y as int, 100000, 4);
            lemma_shifted_div(y as int, 4000, 100);
            lemma_shifted_div(y as int, 1000, 400);
            lemma_fundamental_div_mod(y as int, 4);
            lemma_fundamental_div_mod(y as int, 100);
            lemma_fundamental_div_mod(y as int, 400);
            lemma_fundamental_div_mod(yy as int, 4);
            lemma_fundamental_div_mod(yy as int, 100);
            lemma_fundamental_div_mod(yy as int, 400);
        }
        if (yy % 4 == 0 && yy % 100 != 0) || yy % 400 == 0 {
            29
        } else {
            28
        }
    } else if m == 4 || m == 6 || m == 9 || m == 11 {
        30
    } else {
        31
    }
}

/// The day number of the date `(y, m, d)`, with 1970-01-01 as day 0.
pub fn days_from_epoch_exec(y: i32, m: u32, d: u32) -> (r: i64)
    requires
        -262143 <= y <= 262142,
        1 <= m <= 12,
        1 <= d <= 31,
    ensures
        r == days_from_epoch(y as int, m as int, d as int),
{
    let yl = y as i64;
    let mut before: i64 = 0;
    let mut k: u32 = 1;
    while k < m
        invariant
            1 <= k <= m <= 12,
            -262143 <= yl <= 262142,
            before == days_before_month(yl as int, k as int),
            0 <= before <= 31 * k,
        decreases m - k,
    {
        let md = month_days_exec(yl, k);
        before = before + md;
        k = k + 1;
    }
    let p = yl - 1 + 400000;
    proof {
        lemma_shifted_div(yl - 1, 100000, 4);
        lemma_shifted_div(yl - 1, 4000, 100);
        lemma_shifted_div(yl - 1, 1000, 400);
    }
    let leaps = (p / 4 - 100000) - (p / 100 - 4000) + (p / 400 - 1000);
    assert(leaps == leaps_before(yl as int));
    assert(leaps_before(1970) == 477);
    365 * (yl - 1970) + (leaps - 477) + before + (d as i64) - 1
}

} // verus!
