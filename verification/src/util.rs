//! The uniform-random capability and small scalar helpers. Only the raw draw
//! is taken on trust from the `rand` crate; everything built on it is verified.
use crate::fixed::{fx_mul_s, iabs, tdiv, tdiv_by, SCALE};
use vstd::prelude::*;

verus! {

/// Fixed-point pi, rounded down.
pub const PI_FX: i64 = 205887;

/// Relies on rand::random_range over `0..n`: a draw in `[0, n)` from the
/// thread-local generator; the range is nonempty, so the call does not panic.
#[verifier::external_body]
pub(crate) fn random_below(n: i64) -> (r: i64)
    requires
        n >= 1,
    ensures
        0 <= r < n,
{
    rand::random_range(0..n)
}

/// A uniform scalar draw in `[0, 1)`.
pub fn random_scalar() -> (r: i64)
    ensures
        0 <= r < SCALE,
{
    random_below(SCALE)
}

/// A uniform scalar draw in `[min, max)` (and exactly `min` when the range is
/// a point).
pub fn bounded_random_scalar(min: i64, max: i64) -> (r: i64)
    requires
        min <= max,
        max as int - min as int <= i64::MAX as int,
    ensures
        min <= r <= max,
        min < max ==> r < max,
{
    let u: i64 = random_scalar();
    let d: i64 = max - min;
    proof {
        assert(0 <= d as int * u as int <= d as int * (SCALE as int - 1)) by (nonlinear_arith)
            requires
                0 <= u as int <= SCALE as int - 1,
                d >= 0,
        ;
        lemma_tdiv_small_factor(d as int, u as int);
    }
    let off: i64 = crate::fixed::fx_mul(d, u);
    min + off
}

/// `0 <= tdiv(d*u, SCALE) <= d`, strictly below `d` when `d >= 1`, for a
/// fractional factor `0 <= u < SCALE`.
pub proof fn lemma_tdiv_small_factor(d: int, u: int)
    requires
        d >= 0,
        0 <= u < SCALE as int,
    ensures
        0 <= tdiv(d * u, SCALE as int) <= d,
        d >= 1 ==> tdiv(d * u, SCALE as int) < d,
{
    assert(0 <= d * u <= d * (SCALE as int - 1)) by (nonlinear_arith)
        requires
            0 <= u <= SCALE as int - 1,
            d >= 0,
    ;
    if d >= 1 {
        assert(d * (SCALE as int - 1) < SCALE as int * d) by (nonlinear_arith)
            requires
                d >= 1,
        ;
        vstd::arithmetic::div_mod::lemma_multiply_divide_lt(d * u, SCALE as int, d);
    } else {
        assert(d * u == 0) by (nonlinear_arith)
            requires
                d == 0,
        ;
    }
}

/// A uniform integer draw in `[min, max]`.
pub fn bounded_random_int(min: i64, max: i64) -> (r: i64)
    requires
        min <= max,
        max as int - min as int <= i64::MAX as int - 1,
    ensures
        min <= r <= max,
{
    let n: i64 = max - min + 1;
    min + random_below(n)
}

/// The truncated sine polynomial the camera's field-of-view setup uses:
/// `x - x^3/6 + x^5/120` over fixed-point scalars.
pub open spec fn sin_s(x: int) -> int {
    let x2 = fx_mul_s(x, x);
    let x3 = fx_mul_s(x2, x);
    let x5 = fx_mul_s(x3, x2);
    x - tdiv(x3, 6) + tdiv(x5, 120)
}

/// The truncated cosine polynomial: `1 - x^2/2 + x^4/24 - x^6/720`.
pub open spec fn cos_s(x: int) -> int {
    let x2 = fx_mul_s(x, x);
    let x4 = fx_mul_s(x2, x2);
    let x6 = fx_mul_s(x4, x2);
    SCALE - tdiv(x2, 2) + tdiv(x4, 24) - tdiv(x6, 720)
}

/// Sine by its truncated polynomial, for angles within two radians.
pub fn fx_sin(x: i64) -> (r: i64)
    requires
        iabs(x as int) <= 2 * SCALE as int,
    ensures
        r as int == sin_s(x as int),
        iabs(r as int) <= 35 * SCALE as int,
{
    proof {
        crate::vec3::lemma_fx_mul_bound(x as int, x as int, 131072, 131072);
        assert(131072int * 131072 / 65536 == 262144int);
    }
    let x2: i64 = crate::fixed::fx_mul(x, x);
    proof {
        crate::vec3::lemma_fx_mul_bound(x2 as int, x as int, 262144, 131072);
        assert(262144int * 131072 / 65536 == 524288int);
    }
    let x3: i64 = crate::fixed::fx_mul(x2, x);
    proof {
        crate::vec3::lemma_fx_mul_bound(x3 as int, x2 as int, 524288, 262144);
        assert(524288int * 262144 / 65536 == 2097152int);
        crate::fixed::lemma_tdiv_mag(x3 as int, 6, 524288);
        crate::fixed::lemma_tdiv_mag(fx_mul_s(x3 as int, x2 as int), 120, 2097152);
    }
    let x5: i64 = crate::fixed::fx_mul(x3, x2);
    let t3: i128 = tdiv_by(x3 as i128, 6);
    let t5: i128 = tdiv_by(x5 as i128, 120);
    ((x as i128) - t3 + t5) as i64
}

/// Cosine by its truncated polynomial, for angles within two radians.
pub fn fx_cos(x: i64) -> (r: i64)
    requires
        iabs(x as int) <= 2 * SCALE as int,
    ensures
        r as int == cos_s(x as int),
        iabs(r as int) <= 100 * SCALE as int,
{
    proof {
        crate::vec3::lemma_fx_mul_bound(x as int, x as int, 131072, 131072);
        assert(131072int * 131072 / 65536 == 262144int);
    }
    let x2: i64 = crate::fixed::fx_mul(x, x);
    proof {
        crate::vec3::lemma_fx_mul_bound(x2 as int, x2 as int, 262144, 262144);
        assert(262144int * 262144 / 65536 == 1048576int);
    }
    let x4: i64 = crate::fixed::fx_mul(x2, x2);
    proof {
        crate::vec3::lemma_fx_mul_bound(x4 as int, x2 as int, 1048576, 262144);
        assert(1048576int * 262144 / 65536 == 4194304int);
        crate::fixed::lemma_tdiv_mag(x2 as int, 2, 262144);
        crate::fixed::lemma_tdiv_mag(x4 as int, 24, 1048576);
        crate::fixed::lemma_tdiv_mag(fx_mul_s(x4 as int, x2 as int), 720, 4194304);
    }
    let x6: i64 = crate::fixed::fx_mul(x4, x2);
    let t2: i128 = tdiv_by(x2 as i128, 2);
    let t4: i128 = tdiv_by(x4 as i128, 24);
    let t6: i128 = tdiv_by(x6 as i128, 720);
    ((SCALE as i128) - t2 + t4 - t6) as i64
}

/// The exact fixed-point conversion from degrees to radians.
pub open spec fn deg_to_rad_s(d: int) -> int {
    tdiv(d * PI_FX, 180 * SCALE)
}

/// Degrees to radians: `d * pi / 180` in one truncation.
pub fn degrees_to_radians(degrees: i64) -> (r: i64)
    requires
        iabs(degrees as int) <= 0x100_0000_0000,
    ensures
        r as int == deg_to_rad_s(degrees as int),
        degrees >= 0 ==> r >= 0,
{
    proof {
        vstd::arithmetic::div_mod::lemma_div_pos_is_pos(
            iabs(degrees as int * PI_FX as int),
            180 * SCALE as int,
        );
    }
    proof {
        assert(iabs(degrees as int * PI_FX as int) <= 0x100_0000_0000 * 205887)
            by (nonlinear_arith)
            requires
                iabs(degrees as int) <= 0x100_0000_0000,
        ;
        crate::fixed::lemma_tdiv_mag(
            degrees as int * PI_FX as int,
            180 * SCALE as int,
            0x100_0000_0000int * 205887,
        );
    }
    let p: i128 = (degrees as i128) * (PI_FX as i128);
    let q: i128 = tdiv_by(p, 180 * (SCALE as i128));
    q as i64
}

} // verus!
