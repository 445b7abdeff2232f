//! Plain-value model of time: a timestamp is a count of seconds since the
//! UNIX epoch (UTC), a day is its index since the epoch. All candle
//! resolutions divide one day, so aligning a timestamp to a resolution from
//! the UTC midnight of its day is the same as aligning it globally.

use vstd::prelude::*;

verus! {

/// Seconds in one UTC day.
pub const SECONDS_PER_DAY: i64 = 86400;

/// The UTC day (index since the epoch) that holds `ts`.
pub open spec fn spec_day_of(ts: int) -> int {
    ts / (SECONDS_PER_DAY as int)
}

/// First instant of the UTC day that holds `ts`.
pub open spec fn spec_day_start(ts: int) -> int {
    spec_day_of(ts) * (SECONDS_PER_DAY as int)
}

/// `ts` rounded down to a multiple of `step`.
pub open spec fn spec_align(ts: int, step: int) -> int {
    (ts / step) * step
}

/// The Euclidean quotient is the unique `q` with `a == q * d + r`, `0 <= r < d`.
proof fn lemma_euclidean_quotient_unique(a: int, d: int, q: int, r: int)
    requires
        0 < d,
        a == q * d + r,
        0 <= r < d,
    ensures
        q == a / d,
        r == a % d,
{
    vstd::arithmetic::div_mod::lemma_fundamental_div_mod(a, d);
    let q2 = a / d;
    let r2 = a % d;
    assert(q == q2 && r == r2) by (nonlinear_arith)
        requires
            a == q * d + r,
            0 <= r < d,
            a == d * q2 + r2,
            0 <= r2 < d,
    ;
}

/// For a positive divisor the Euclidean quotient of an `i64` fits in `i64`.
proof fn lemma_quotient_in_range(a: int, d: int)
    requires
        0 < d,
        i64::MIN <= a <= i64::MAX,
    ensures
        i64::MIN <= a / d <= i64::MAX,
{
    vstd::arithmetic::div_mod::lemma_fundamental_div_mod(a, d);
    let q = a / d;
    let r = a % d;
    assert(i64::MIN <= q <= i64::MAX) by (nonlinear_arith)
        requires
            a == d * q + r,
            0 <= r < d,
            1 <= d,
            i64::MIN <= a <= i64::MAX,
    ;
}

/// Floor division: the quotient rounded toward negative infinity, which for
/// a positive divisor is the mathematical (Euclidean) quotient.
pub fn floor_div(a: i64, d: i64) -> (q: i64)
    requires
        0 < d,
    ensures
        q == a as int / d as int,
{
    proof {
        lemma_quotient_in_range(a as int, d as int);
    }
    a.checked_div_euclid(d).unwrap()
}

/// The UTC day (index since the epoch) that holds `ts`.
pub fn day_of(ts: i64) -> (d: i64)
    ensures
        d == spec_day_of(ts as int),
{
    floor_div(ts, SECONDS_PER_DAY)
}

/// `ts` rounded down to a multiple of `step`, with the rounding error below
/// `step`.
pub fn align_down(ts: i64, step: i64) -> (r: i64)
    requires
        0 < step,
        i64::MIN + step <= ts,
    ensures
        r == spec_align(ts as int, step as int),
        r <= ts < r + step,
        (r as int) % (step as int) == 0,
{
    let q: i64 = floor_div(ts, step);
    proof {
        vstd::arithmetic::div_mod::lemma_fundamental_div_mod(ts as int, step as int);
        let rem = (ts as int) % (step as int);
        assert(i64::MIN <= q * step <= i64::MAX && q * step <= ts < q * step + step)
            by (nonlinear_arith)
            requires
                ts == step * q + rem,
                0 <= rem < step,
                i64::MIN + step <= ts <= i64::MAX,
        ;
        lemma_mul_mod_zero(q as int, step as int);
    }
    q * step
}

/// A multiple of `step` leaves no remainder.
proof fn lemma_mul_mod_zero(q: int, step: int)
    requires
        0 < step,
    ensures
        (q * step) % step == 0,
        (q * step) / step == q,
{
    lemma_euclidean_quotient_unique(q * step, step, q, 0);
}

/// First instant of the UTC day that holds `ts`: aligning to whole days.
pub fn day_start(ts: i64) -> (r: i64)
    requires
        i64::MIN + SECONDS_PER_DAY <= ts,
    ensures
        r == spec_day_start(ts as int),
        r <= ts < r + SECONDS_PER_DAY,
        r == spec_align(ts as int, SECONDS_PER_DAY as int),
{
    align_down(ts, SECONDS_PER_DAY)
}

/// When `step` divides one day, rounding `ts` down to a multiple of `step`
/// is the same as rounding down the offset from the UTC midnight of its day:
/// global alignment and midnight-based alignment agree.
pub proof fn lemma_align_from_midnight(ts: int, step: int)
    requires
        0 < step,
        (SECONDS_PER_DAY as int) % step == 0,
    ensures
        spec_align(ts, step) == spec_day_start(ts) + spec_align(ts - spec_day_start(ts), step),
{
    let day = SECONDS_PER_DAY as int;
    let m = spec_day_start(ts);
    let x = ts - m;
    vstd::arithmetic::div_mod::lemma_fundamental_div_mod(ts, day);
    assert(0 <= x < day);
    // The midnight `m` is itself a multiple of `step`.
    vstd::arithmetic::div_mod::lemma_fundamental_div_mod(day, step);
    let k = day / step;
    let c = spec_day_of(ts) * k;
    assert(m == c * step) by (nonlinear_arith)
        requires
            m == spec_day_of(ts) * day,
            day == step * k,
            c == spec_day_of(ts) * k,
    ;
    // Quotient of `m + x` splits into `c` plus the quotient of the offset.
    vstd::arithmetic::div_mod::lemma_fundamental_div_mod(x, step);
    let qx = x / step;
    let rx = x % step;
    assert(ts == (c + qx) * step + rx) by (nonlinear_arith)
        requires
            ts == m + x,
            m == c * step,
            x == step * qx + rx,
    ;
    lemma_euclidean_quotient_unique(ts, step, c + qx, rx);
    assert(spec_align(ts, step) == (c + qx) * step);
    assert((c + qx) * step == m + qx * step) by (nonlinear_arith)
        requires
            m == c * step,
    ;
}

} // verus!
