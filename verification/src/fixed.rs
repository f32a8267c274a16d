//! Fixed-point arithmetic.
//!
//! Every real quantity of the simulation is an integer count of thousandths:
//! lengths in thousandths of a world unit, speeds in thousandths of a unit
//! per second, hit points in thousandths of a point, time in milliseconds.
//! The way that something has covered is counted in millionths of a unit,
//! the product of a speed and a time, so that no part of a step is lost.
use vstd::prelude::*;

verus! {

/// Fixed-point steps in one whole unit, and milliseconds in one second.
pub const SCALE: i64 = 1000;

/// Half of [`SCALE`]: the point at which rounding to whole units turns over.
pub const HALF_SCALE: i64 = 500;

/// Every coordinate of an enemy, a tower and a firing origin lies in
/// `-COORD_LIMIT ..= COORD_LIMIT`.
pub const COORD_LIMIT: i64 = 1_000_000_000;

/// Every coordinate of a waypoint lies in `-WAYPOINT_LIMIT ..= WAYPOINT_LIMIT`,
/// one whole unit inside the coordinate limit, so that an enemy which
/// overshoots a waypoint stays inside the coordinate limit.
pub const WAYPOINT_LIMIT: i64 = 999_999_000;

/// Largest speed of an enemy or a projectile.
pub const SPEED_LIMIT: i64 = 1_000_000;

/// Largest time step of one tick, in milliseconds.
pub const DT_LIMIT: u64 = 1_000_000;

/// `r` is the integer square root of `n`: the largest integer whose square
/// does not exceed `n`.
pub open spec fn is_floor_sqrt(n: int, r: int) -> bool {
    0 <= r && r * r <= n && n < (r + 1) * (r + 1)
}

/// The integer square root of `n` (meaningful for `n >= 0`).
pub open spec fn floor_sqrt(n: int) -> int {
    choose|r: int| is_floor_sqrt(n, r)
}

/// Squaring is monotone on the non-negative integers.
pub proof fn lemma_square_monotone(a: int, b: int)
    by (nonlinear_arith)
    requires
        0 <= a <= b,
    ensures
        a * a <= b * b,
{
}

/// Squaring is strictly monotone on the non-negative integers.
pub proof fn lemma_square_strictly_monotone(a: int, b: int)
    by (nonlinear_arith)
    requires
        0 <= a < b,
    ensures
        a * a < b * b,
{
}

/// At most one integer is the integer square root of `n`.
pub proof fn lemma_floor_sqrt_unique(n: int, r1: int, r2: int)
    requires
        is_floor_sqrt(n, r1),
        is_floor_sqrt(n, r2),
    ensures
        r1 == r2,
{
    if r1 < r2 {
        lemma_square_monotone(r1 + 1, r2);
    } else if r2 < r1 {
        lemma_square_monotone(r2 + 1, r1);
    }
}

/// Every non-negative integer has an integer square root.
pub proof fn lemma_floor_sqrt_exists(n: int)
    requires
        0 <= n,
    ensures
        is_floor_sqrt(n, floor_sqrt(n)),
    decreases n,
{
    if n == 0 {
        assert(is_floor_sqrt(0, 0));
    } else {
        lemma_floor_sqrt_exists(n - 1);
        let r = floor_sqrt(n - 1);
        if n < (r + 1) * (r + 1) {
            assert(is_floor_sqrt(n, r));
        } else {
            assert((r + 2) * (r + 2) > (r + 1) * (r + 1)) by (nonlinear_arith)
                requires
                    0 <= r,
            ;
            assert(is_floor_sqrt(n, r + 1));
        }
    }
}

/// A witness of [`is_floor_sqrt`] is the value of [`floor_sqrt`].
pub proof fn lemma_floor_sqrt_is(n: int, r: int)
    requires
        is_floor_sqrt(n, r),
    ensures
        floor_sqrt(n) == r,
{
    lemma_floor_sqrt_unique(n, r, floor_sqrt(n));
}

/// Computes the integer square root of a wide number by bisection.
pub fn isqrt_wide(n: u128) -> (r: u128)
    ensures
        is_floor_sqrt(n as int, r as int),
        r == floor_sqrt(n as int),
        r < 0x1_0000_0000_0000_0000,
{
    let mut lo: u128 = 0;
    let mut hi: u128 = 0x1_0000_0000_0000_0000;
    assert(0x1_0000_0000_0000_0000 * 0x1_0000_0000_0000_0000 > u128::MAX) by (nonlinear_arith);
    while hi - lo > 1
        invariant
            lo < hi <= 0x1_0000_0000_0000_0000,
            lo * lo <= n,
            n < hi * hi,
        decreases hi - lo,
    {
        let mid: u128 = lo + (hi - lo) / 2;
        proof {
            lemma_square_strictly_monotone(mid as int, 0x1_0000_0000_0000_0000);
        }
        if mid * mid <= n {
            lo = mid;
        } else {
            hi = mid;
        }
    }
    proof {
        lemma_floor_sqrt_is(n as int, lo as int);
    }
    lo
}

/// Computes the integer square root.
pub fn isqrt(n: u64) -> (r: u64)
    ensures
        is_floor_sqrt(n as int, r as int),
        r == floor_sqrt(n as int),
        r < 0x1_0000_0000,
{
    let r: u128 = isqrt_wide(n as u128);
    proof {
        if r >= 0x1_0000_0000 {
            lemma_square_monotone(0x1_0000_0000, r as int);
        }
    }
    r as u64
}

/// The least integer whose square is at least `n`: the square root rounded
/// up (meaningful for `n >= 0`).
pub open spec fn ceil_sqrt(n: int) -> int {
    if floor_sqrt(n) * floor_sqrt(n) == n {
        floor_sqrt(n)
    } else {
        floor_sqrt(n) + 1
    }
}

/// The square root rounded up is the least integer whose square reaches the
/// number.
pub proof fn lemma_ceil_sqrt(n: int)
    requires
        0 <= n,
    ensures
        0 <= ceil_sqrt(n),
        n <= ceil_sqrt(n) * ceil_sqrt(n),
        n > 0 ==> ceil_sqrt(n) >= 1 && (ceil_sqrt(n) - 1) * (ceil_sqrt(n) - 1) < n,
{
    lemma_floor_sqrt_exists(n);
    let r = floor_sqrt(n);
    if r * r != n {
        lemma_square_monotone(r, r);
    } else if n > 0 {
        if r == 0 {
            assert(r * r == 0);
        } else {
            lemma_square_strictly_monotone(r - 1, r);
        }
    }
}

/// Computes the square root of a wide number, rounded up.
pub fn isqrt_up(n: u128) -> (r: u128)
    ensures
        r == ceil_sqrt(n as int),
        r <= 0x1_0000_0000_0000_0000,
{
    let r: u128 = isqrt_wide(n);
    if r * r == n {
        r
    } else {
        r + 1
    }
}

/// A length rounded to the nearest whole unit, halves rounded up.
pub open spec fn round_to_unit(len: int) -> int {
    (len + HALF_SCALE) / (SCALE as int) * SCALE
}

/// Rounds a non-negative length to the nearest whole unit.
pub fn rounded_length(len: u64) -> (r: u64)
    requires
        len <= 0x1_0000_0000,
    ensures
        r == round_to_unit(len as int),
{
    (len + 500) / 1000 * 1000
}

/// The way covered in `dt_ms` milliseconds at `speed`, in millionths of a
/// unit. Speeds being in thousandths of a unit per second and times in
/// milliseconds, this is their product, and exact.
pub open spec fn travel(speed: int, dt_ms: int) -> int {
    speed * dt_ms
}

/// Computes the way covered in one tick, in millionths of a unit.
pub fn travel_distance(speed: i64, dt_ms: u64) -> (d: u64)
    requires
        0 <= speed <= SPEED_LIMIT,
        dt_ms <= DT_LIMIT,
    ensures
        d == travel(speed as int, dt_ms as int),
        d <= 1_000_000_000_000,
{
    let s: u64 = speed as u64;
    assert(s * dt_ms <= 1_000_000 * 1_000_000) by (nonlinear_arith)
        requires
            s <= 1_000_000,
            dt_ms <= 1_000_000,
    ;
    s * dt_ms
}

/// `value * num / den` with the quotient rounded toward zero.
pub open spec fn scale_toward_zero(value: int, num: int, den: int) -> int {
    if value >= 0 {
        value * num / den
    } else {
        -((-value) * num / den)
    }
}

/// Computes [`scale_toward_zero`] without intermediate overflow.
pub fn scale_component(value: i64, num: u64, den: u64) -> (r: i64)
    requires
        -0x1_0000_0000 <= value <= 0x1_0000_0000,
        0 < den,
        (if value >= 0 { value as int } else { -value }) * num / (den as int) <= 0x1_0000_0000_0000,
    ensures
        r == scale_toward_zero(value as int, num as int, den as int),
{
    if value >= 0 {
        let v: u64 = value as u64;
        assert(v * num <= 0x1_0000_0000 * 0xffff_ffff_ffff_ffff) by (nonlinear_arith)
            requires
                v <= 0x1_0000_0000,
                num <= 0xffff_ffff_ffff_ffff,
        ;
        let q: u128 = (v as u128) * (num as u128) / (den as u128);
        q as i64
    } else {
        let v: u64 = (-value) as u64;
        assert(v * num <= 0x1_0000_0000 * 0xffff_ffff_ffff_ffff) by (nonlinear_arith)
            requires
                v <= 0x1_0000_0000,
                num <= 0xffff_ffff_ffff_ffff,
        ;
        let q: u128 = (v as u128) * (num as u128) / (den as u128);
        -(q as i64)
    }
}

} // verus!
