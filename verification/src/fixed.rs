//! Fixed-point scalar arithmetic: a scalar is an `i64` holding `SCALE`-ths of a
//! unit, so `SCALE` itself stands for 1.0. Multiplication and division truncate
//! toward zero, and the square root rounds down; the spec functions here state
//! those results exactly.
use vstd::prelude::*;

verus! {

/// Number of fixed-point steps in one unit.
pub const SCALE: i64 = 65536;

/// The smaller of two integers.
pub open spec fn imin(a: int, b: int) -> int {
    if a <= b {
        a
    } else {
        b
    }
}

/// The larger of two integers.
pub open spec fn imax(a: int, b: int) -> int {
    if a >= b {
        a
    } else {
        b
    }
}

/// Magnitude of an integer.
pub open spec fn iabs(a: int) -> int {
    if a < 0 {
        -a
    } else {
        a
    }
}

/// Division truncating toward zero (the rounding of this library's scalars).
pub open spec fn tdiv(a: int, b: int) -> int
    recommends
        b != 0,
{
    let q = iabs(a) / iabs(b);
    if (a < 0) != (b < 0) {
        -q
    } else {
        q
    }
}

/// Fixed-point product: the scaled product, truncated toward zero.
pub open spec fn fx_mul_s(a: int, b: int) -> int {
    tdiv(a * b, SCALE as int)
}

/// Fixed-point quotient: the scaled quotient, truncated toward zero.
pub open spec fn fx_div_s(a: int, b: int) -> int
    recommends
        b != 0,
{
    tdiv(a * SCALE, b)
}

/// The integer square root, rounded down.
pub open spec fn sqrt_floor(n: int) -> int
    recommends
        n >= 0,
    decreases n,
{
    if n <= 0 {
        0
    } else {
        let r = sqrt_floor(n - 1);
        if (r + 1) * (r + 1) <= n {
            r + 1
        } else {
            r
        }
    }
}

/// Fixed-point square root of a non-negative scalar: the root of `x` steps of
/// a unit is `sqrt_floor(x * SCALE)` steps, since `sqrt(x/S) == sqrt(x*S)/S`.
pub open spec fn fx_sqrt_s(x: int) -> int {
    sqrt_floor(x * SCALE)
}

/// `sqrt_floor(n)` is the unique `r >= 0` with `r*r <= n < (r+1)*(r+1)`.
pub proof fn lemma_sqrt_floor(n: int)
    requires
        n >= 0,
    ensures
        sqrt_floor(n) >= 0,
        sqrt_floor(n) * sqrt_floor(n) <= n,
        (sqrt_floor(n) + 1) * (sqrt_floor(n) + 1) > n,
    decreases n,
{
    if n > 0 {
        lemma_sqrt_floor(n - 1);
        let r: int = sqrt_floor(n - 1);
        assert(r * r <= n - 1 < (r + 1) * (r + 1));
        if (r + 1) * (r + 1) <= n {
            assert(((r + 1) + 1) * ((r + 1) + 1) > n) by (nonlinear_arith)
                requires
                    (r + 1) * (r + 1) >= n,
                    r >= 0,
            ;
        }
    }
}

/// A non-negative `r` with `r*r <= n < (r+1)*(r+1)` is `sqrt_floor(n)`.
pub proof fn lemma_sqrt_floor_unique(n: int, r: int)
    requires
        n >= 0,
        r >= 0,
        r * r <= n,
        (r + 1) * (r + 1) > n,
    ensures
        r == sqrt_floor(n),
{
    lemma_sqrt_floor(n);
    let s: int = sqrt_floor(n);
    if r < s {
        assert((r + 1) * (r + 1) <= s * s) by (nonlinear_arith)
            requires
                0 <= r,
                r + 1 <= s,
        ;
    }
    if s < r {
        assert((s + 1) * (s + 1) <= r * r) by (nonlinear_arith)
            requires
                0 <= s,
                s + 1 <= r,
        ;
    }
}

/// Truncation never grows a magnitude: `|tdiv(a, b)| <= |a| / |b| <= m` for
/// any bound `m` on `|a|` and positive `b`.
pub proof fn lemma_tdiv_mag(a: int, b: int, m: int)
    requires
        b >= 1,
        iabs(a) <= m,
    ensures
        iabs(tdiv(a, b)) == iabs(a) / b,
        iabs(a) / b <= m / b,
        m / b <= m,
{
    vstd::arithmetic::div_mod::lemma_div_pos_is_pos(iabs(a), b);
    vstd::arithmetic::div_mod::lemma_div_is_ordered(iabs(a), m, b);
    vstd::arithmetic::div_mod::lemma_div_nonincreasing(m, b);
}

/// Dividing by a scalar of at least one unit never grows a magnitude.
pub proof fn lemma_fx_div_unit(x: int, t: int, mx: int)
    requires
        iabs(x) <= mx,
        t >= SCALE,
    ensures
        iabs(fx_div_s(x, t)) <= mx,
{
    assert(iabs(x * SCALE) == iabs(x) * (SCALE as int)) by (nonlinear_arith)
        requires
            SCALE as int > 0,
    ;
    assert(iabs(tdiv(x * SCALE, t)) == iabs(x * SCALE) / iabs(t));
    vstd::arithmetic::div_mod::lemma_div_is_ordered_by_denominator(
        iabs(x) * (SCALE as int),
        SCALE as int,
        t,
    );
    vstd::arithmetic::div_mod::lemma_div_by_multiple(iabs(x), SCALE as int);
    assert(iabs(x) * (SCALE as int) == (SCALE as int) * iabs(x)) by (nonlinear_arith);
    vstd::arithmetic::div_mod::lemma_div_pos_is_pos(iabs(x) * (SCALE as int), t);
}

/// Truncating division by a positive divisor is monotone in the numerator.
pub proof fn lemma_tdiv_monotone(a1: int, a2: int, b: int)
    requires
        a1 <= a2,
        b >= 1,
    ensures
        tdiv(a1, b) <= tdiv(a2, b),
{
    if a1 >= 0 {
        vstd::arithmetic::div_mod::lemma_div_is_ordered(a1, a2, b);
        vstd::arithmetic::div_mod::lemma_div_pos_is_pos(a1, b);
        vstd::arithmetic::div_mod::lemma_div_pos_is_pos(a2, b);
    } else if a2 < 0 {
        vstd::arithmetic::div_mod::lemma_div_is_ordered(-a2, -a1, b);
    } else {
        vstd::arithmetic::div_mod::lemma_div_pos_is_pos(-a1, b);
        vstd::arithmetic::div_mod::lemma_div_pos_is_pos(a2, b);
    }
}

/// Scaling by `SCALE` and truncating back is the identity.
pub proof fn lemma_tdiv_exact(x: int)
    ensures
        tdiv(x * SCALE, SCALE as int) == x,
        fx_mul_s(x, SCALE as int) == x,
{
    assert(iabs(x * SCALE) == iabs(x) * (SCALE as int)) by (nonlinear_arith)
        requires
            SCALE as int > 0,
    ;
    vstd::arithmetic::div_mod::lemma_div_by_multiple(iabs(x), SCALE as int);
    assert(iabs(x) * (SCALE as int) == (SCALE as int) * iabs(x)) by (nonlinear_arith);
    if x != 0 {
        assert((x * SCALE < 0) == (x < 0)) by (nonlinear_arith)
            requires
                SCALE as int > 0,
        ;
    }
}

/// Truncating division of a double-width value by a positive divisor.
pub(crate) fn tdiv_by(p: i128, d: i128) -> (r: i128)
    requires
        p > i128::MIN as int,
        d >= 1,
    ensures
        r as int == tdiv(p as int, d as int),
{
    let neg: bool = p < 0;
    let m: u128 = if neg {
        (-p) as u128
    } else {
        p as u128
    };
    assert(m as int == iabs(p as int));
    let q: u128 = m / (d as u128);
    assert(q as int == iabs(p as int) / iabs(d as int));
    if neg {
        -(q as i128)
    } else {
        q as i128
    }
}

/// Truncating division of a double-width value by `SCALE`.
pub(crate) fn tdiv_scale(p: i128) -> (r: i128)
    requires
        p > i128::MIN as int,
    ensures
        r as int == tdiv(p as int, SCALE as int),
{
    tdiv_by(p, SCALE as i128)
}

/// Fixed-point multiplication; the scaled result must fit the scalar type.
pub fn fx_mul(a: i64, b: i64) -> (r: i64)
    requires
        i64::MIN as int <= fx_mul_s(a as int, b as int) <= i64::MAX as int,
    ensures
        r as int == fx_mul_s(a as int, b as int),
{
    proof {
        assert(iabs(a as int * b as int) <= iabs(a as int) * iabs(b as int)) by (nonlinear_arith);
        assert(iabs(a as int) * iabs(b as int) < 0x8000_0000_0000_0000 * 0x8000_0000_0000_0001)
            by (nonlinear_arith)
            requires
                iabs(a as int) <= 0x8000_0000_0000_0000,
                iabs(b as int) <= 0x8000_0000_0000_0000,
        ;
    }
    let p: i128 = (a as i128) * (b as i128);
    let q: i128 = tdiv_scale(p);
    q as i64
}

/// Fixed-point division; the divisor is nonzero and the scaled result fits.
pub fn fx_div(a: i64, b: i64) -> (r: i64)
    requires
        b != 0,
        i64::MIN as int <= fx_div_s(a as int, b as int) <= i64::MAX as int,
    ensures
        r as int == fx_div_s(a as int, b as int),
{
    let neg: bool = (a < 0) != (b < 0);
    proof {
        assert(iabs(a as int) * (SCALE as int) <= 0x8000_0000_0000_0000 * 0x1_0000)
            by (nonlinear_arith)
            requires
                0 <= iabs(a as int) <= 0x8000_0000_0000_0000,
                SCALE as int == 0x1_0000,
        ;
        assert(iabs(a as int) * (SCALE as int) >= 0) by (nonlinear_arith)
            requires
                iabs(a as int) >= 0,
                SCALE as int > 0,
        ;
    }
    let an: u128 = if a >= 0 {
        ((a as i128) * (SCALE as i128)) as u128
    } else {
        ((-(a as i128)) * (SCALE as i128)) as u128
    };
    assert(an as int == iabs(a as int * SCALE as int));
    let ab: u128 = if b >= 0 {
        b as u128
    } else {
        (-(b as i128)) as u128
    };
    assert(ab as int == iabs(b as int));
    let q: u128 = an / ab;
    assert(q as int == iabs(a as int * SCALE as int) / iabs(b as int));
    proof {
        if a != 0 {
            assert(((a as int * SCALE as int) < 0) == ((a as int) < 0)) by (nonlinear_arith)
                requires
                    SCALE as int > 0,
            ;
        }
    }
    if neg {
        (-(q as i128)) as i64
    } else {
        q as i64
    }
}

/// Integer square root of an unsigned word, rounded down.
pub fn isqrt(x: u64) -> (r: u64)
    ensures
        r as int == sqrt_floor(x as int),
{
    if x >= 4294967295 * 4294967295 {
        proof {
            assert((4294967295int + 1) * (4294967295int + 1) > u64::MAX as int);
            lemma_sqrt_floor_unique(x as int, 4294967295int);
        }
        return 4294967295;
    }
    let mut lo: u64 = 0;
    let mut hi: u64 = 4294967296;
    assert((hi as int) * (hi as int) > x as int);
    while lo + 1 < hi
        invariant
            lo < hi <= 4294967296,
            (lo as int) * (lo as int) <= x as int,
            (hi as int) * (hi as int) > x as int,
        decreases hi - lo,
    {
        let mid: u64 = lo + (hi - lo) / 2;
        proof {
            assert(0 <= (mid as int) * (mid as int) <= 4294967296 * 4294967296)
                by (nonlinear_arith)
                requires
                    0 <= mid as int <= 4294967296,
            ;
        }
        if (mid as u128) * (mid as u128) <= x as u128 {
            lo = mid;
        } else {
            hi = mid;
        }
    }
    proof {
        lemma_sqrt_floor_unique(x as int, lo as int);
    }
    lo
}

/// Fixed-point square root of a non-negative scalar.
pub fn fx_sqrt(x: i64) -> (r: i64)
    requires
        0 <= x,
        x as int * SCALE as int <= u64::MAX as int,
    ensures
        r as int == fx_sqrt_s(x as int),
        r >= 0,
{
    let n: u64 = (x as u64) * (SCALE as u64);
    let r: u64 = isqrt(n);
    proof {
        lemma_sqrt_floor(n as int);
        let s: int = sqrt_floor(n as int);
        if s >= 4294967296 {
            assert(s * s >= 4294967296 * 4294967296) by (nonlinear_arith)
                requires
                    s >= 4294967296,
            ;
        }
    }
    r as i64
}

} // verus!
