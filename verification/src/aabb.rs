//! Axis-aligned bounding boxes: one scalar interval per axis, and a slab test
//! done in exact rational arithmetic, so that no rounding can make it
//! disagree with its stated meaning.
use crate::fixed::iabs;
use crate::interval::Interval;
use crate::ray::{Ray, RAY_MAX};
use crate::vec3::{bounded_s, Point3, V3};
use vstd::prelude::*;

verus! {

#[derive(Clone, Copy, PartialEq, Eq, Structural, Debug)]
pub struct AABB {
    pub x: Interval,
    pub y: Interval,
    pub z: Interval,
}

/// An exact rational hit parameter: `n / d` with `d >= 1`.
pub ghost struct Frac {
    pub n: int,
    pub d: int,
}

pub open spec fn frac_lt(a: Frac, b: Frac) -> bool {
    a.n * b.d < b.n * a.d
}

pub open spec fn frac_le(a: Frac, b: Frac) -> bool {
    a.n * b.d <= b.n * a.d
}

/// The running search window of the slab test.
pub ghost struct TWindow {
    pub lo: Frac,
    pub hi: Frac,
    pub alive: bool,
}

/// One axis of the slab test. A zero direction component constrains the ray
/// to lie inside the slab; otherwise the window is clipped to the exact
/// rational parameters at which the ray crosses the two slab planes, and the
/// test dies as soon as the window closes.
pub open spec fn slab_axis_s(lo: int, hi: int, o: int, dir: int, st: TWindow) -> TWindow {
    if !st.alive {
        st
    } else if dir == 0 {
        if o < lo || hi < o {
            TWindow { lo: st.lo, hi: st.hi, alive: false }
        } else {
            TWindow { lo: st.lo, hi: st.hi, alive: !frac_le(st.hi, st.lo) }
        }
    } else {
        let den = iabs(dir);
        let n0 = if dir > 0 {
            (lo - o) * (crate::fixed::SCALE as int)
        } else {
            (o - hi) * (crate::fixed::SCALE as int)
        };
        let n1 = if dir > 0 {
            (hi - o) * (crate::fixed::SCALE as int)
        } else {
            (o - lo) * (crate::fixed::SCALE as int)
        };
        let t0 = Frac { n: n0, d: den };
        let t1 = Frac { n: n1, d: den };
        let nlo = if frac_lt(st.lo, t0) {
            t0
        } else {
            st.lo
        };
        let nhi = if frac_lt(t1, st.hi) {
            t1
        } else {
            st.hi
        };
        TWindow { lo: nlo, hi: nhi, alive: !frac_le(nhi, nlo) }
    }
}

/// The window the slab test starts from: the caller's search range.
pub open spec fn initial_window(tmin: int, tmax: int) -> TWindow {
    TWindow { lo: Frac { n: tmin, d: 1 }, hi: Frac { n: tmax, d: 1 }, alive: true }
}

/// Whether a ray crosses the box somewhere strictly inside `(tmin, tmax)`:
/// the three per-axis clips, in x, y, z order, leave a nonempty window.
pub open spec fn aabb_hit_s(bb: AABB, o: V3, dir: V3, tmin: int, tmax: int) -> bool {
    let st0 = initial_window(tmin, tmax);
    let st1 = slab_axis_s(bb.x.min as int, bb.x.max as int, o.x, dir.x, st0);
    let st2 = slab_axis_s(bb.y.min as int, bb.y.max as int, o.y, dir.y, st1);
    let st3 = slab_axis_s(bb.z.min as int, bb.z.max as int, o.z, dir.z, st2);
    st3.alive
}

/// The executable search window; numerators are double-width so that slab
/// plane parameters never round.
struct SlabState {
    lo_n: i128,
    lo_d: i64,
    hi_n: i128,
    hi_d: i64,
    alive: bool,
}

/// Numerator magnitude bound kept by the slab test.
spec fn num_max() -> int {
    0x4_0000_0000_0000_0000_0000
}

spec fn st_v(s: SlabState) -> TWindow {
    TWindow {
        lo: Frac { n: s.lo_n as int, d: s.lo_d as int },
        hi: Frac { n: s.hi_n as int, d: s.hi_d as int },
        alive: s.alive,
    }
}

spec fn st_wf(s: SlabState) -> bool {
    1 <= s.lo_d <= RAY_MAX && 1 <= s.hi_d <= RAY_MAX && iabs(s.lo_n as int) <= num_max() && iabs(
        s.hi_n as int,
    ) <= num_max()
}

/// Exact comparison of two rational parameters by cross-multiplication.
fn frac_lt_e(an: i128, ad: i64, bn: i128, bd: i64) -> (r: bool)
    requires
        1 <= ad <= RAY_MAX,
        1 <= bd <= RAY_MAX,
        iabs(an as int) <= num_max(),
        iabs(bn as int) <= num_max(),
    ensures
        r == frac_lt(Frac { n: an as int, d: ad as int }, Frac { n: bn as int, d: bd as int }),
{
    proof {
        assert(iabs(an as int * bd as int) <= num_max() * RAY_MAX as int && iabs(
            bn as int * ad as int,
        ) <= num_max() * RAY_MAX as int) by (nonlinear_arith)
            requires
                iabs(an as int) <= num_max(),
                iabs(bn as int) <= num_max(),
                1 <= ad as int <= RAY_MAX as int,
                1 <= bd as int <= RAY_MAX as int,
        ;
    }
    an * (bd as i128) < bn * (ad as i128)
}

/// One executable axis clip, mirroring `slab_axis_s` exactly.
fn slab_axis(ax: &Interval, o: i64, dir: i64, st: SlabState) -> (r: SlabState)
    requires
        st_wf(st),
        iabs(o as int) <= RAY_MAX as int,
        iabs(dir as int) <= RAY_MAX as int,
    ensures
        st_wf(r),
        st_v(r) == slab_axis_s(ax.min as int, ax.max as int, o as int, dir as int, st_v(st)),
{
    if !st.alive {
        return st;
    }
    if dir == 0 {
        if o < ax.min || ax.max < o {
            return SlabState {
                lo_n: st.lo_n,
                lo_d: st.lo_d,
                hi_n: st.hi_n,
                hi_d: st.hi_d,
                alive: false,
            };
        }
        let open_window: bool = frac_lt_e(st.lo_n, st.lo_d, st.hi_n, st.hi_d);
        return SlabState {
            lo_n: st.lo_n,
            lo_d: st.lo_d,
            hi_n: st.hi_n,
            hi_d: st.hi_d,
            alive: open_window,
        };
    }
    proof {
        assert(iabs((ax.min as int - o as int) * (crate::fixed::SCALE as int)) <= num_max()
            && iabs((ax.max as int - o as int) * (crate::fixed::SCALE as int)) <= num_max()
            && iabs((o as int - ax.min as int) * (crate::fixed::SCALE as int)) <= num_max()
            && iabs((o as int - ax.max as int) * (crate::fixed::SCALE as int)) <= num_max())
            by (nonlinear_arith)
            requires
                iabs(ax.min as int) <= 0x8000_0000_0000_0000,
                iabs(ax.max as int) <= 0x8000_0000_0000_0000,
                iabs(o as int) <= RAY_MAX as int,
                crate::fixed::SCALE as int == 0x1_0000,
        ;
    }
    let den: i64 = if dir >= 0 {
        dir
    } else {
        -dir
    };
    let n0: i128 = if dir > 0 {
        ((ax.min as i128) - (o as i128)) * (crate::fixed::SCALE as i128)
    } else {
        ((o as i128) - (ax.max as i128)) * (crate::fixed::SCALE as i128)
    };
    let n1: i128 = if dir > 0 {
        ((ax.max as i128) - (o as i128)) * (crate::fixed::SCALE as i128)
    } else {
        ((o as i128) - (ax.min as i128)) * (crate::fixed::SCALE as i128)
    };
    let (nlo_n, nlo_d): (i128, i64) = if frac_lt_e(st.lo_n, st.lo_d, n0, den) {
        (n0, den)
    } else {
        (st.lo_n, st.lo_d)
    };
    let (nhi_n, nhi_d): (i128, i64) = if frac_lt_e(n1, den, st.hi_n, st.hi_d) {
        (n1, den)
    } else {
        (st.hi_n, st.hi_d)
    };
    let open_window: bool = frac_lt_e(nlo_n, nlo_d, nhi_n, nhi_d);
    SlabState { lo_n: nlo_n, lo_d: nlo_d, hi_n: nhi_n, hi_d: nhi_d, alive: open_window }
}

/// One box encloses another, axis by axis.
pub open spec fn box_contains(outer: AABB, inner: AABB) -> bool {
    &&& outer.x.min <= inner.x.min && inner.x.max <= outer.x.max
    &&& outer.y.min <= inner.y.min && inner.y.max <= outer.y.max
    &&& outer.z.min <= inner.z.min && inner.z.max <= outer.z.max
}

/// Windows the spec fold produces have positive denominators.
pub open spec fn twf(w: TWindow) -> bool {
    w.lo.d >= 1 && w.hi.d >= 1
}

/// `b` is at least as open a window as `a`.
pub open spec fn wider(a: TWindow, b: TWindow) -> bool {
    a.alive ==> b.alive && frac_le(b.lo, a.lo) && frac_le(a.hi, b.hi)
}

/// Ordering facts on rationals with positive denominators: transitivity, in
/// the mixed strict/non-strict forms the slab fold needs.
pub proof fn lemma_frac_trans(a: Frac, b: Frac, c: Frac)
    requires
        a.d >= 1,
        b.d >= 1,
        c.d >= 1,
    ensures
        frac_le(a, b) && frac_le(b, c) ==> frac_le(a, c),
        frac_le(a, b) && frac_lt(b, c) ==> frac_lt(a, c),
        frac_lt(a, b) && frac_le(b, c) ==> frac_lt(a, c),
{
    if frac_le(a, b) && frac_le(b, c) {
        assert(a.n * c.d <= c.n * a.d) by (nonlinear_arith)
            requires
                a.n * b.d <= b.n * a.d,
                b.n * c.d <= c.n * b.d,
                a.d >= 1,
                b.d >= 1,
                c.d >= 1,
        ;
    }
    if frac_le(a, b) && frac_lt(b, c) {
        assert(a.n * c.d < c.n * a.d) by (nonlinear_arith)
            requires
                a.n * b.d <= b.n * a.d,
                b.n * c.d < c.n * b.d,
                a.d >= 1,
                b.d >= 1,
                c.d >= 1,
        ;
    }
    if frac_lt(a, b) && frac_le(b, c) {
        assert(a.n * c.d < c.n * a.d) by (nonlinear_arith)
            requires
                a.n * b.d < b.n * a.d,
                b.n * c.d <= c.n * b.d,
                a.d >= 1,
                b.d >= 1,
                c.d >= 1,
        ;
    }
}

/// One axis clip against a wider slab leaves a wider window, and keeps
/// denominators positive.
proof fn lemma_slab_axis_monotone(
    lo_b: int,
    hi_b: int,
    lo_s: int,
    hi_s: int,
    o: int,
    dir: int,
    ws: TWindow,
    wb: TWindow,
)
    requires
        twf(ws),
        twf(wb),
        lo_b <= lo_s,
        hi_s <= hi_b,
        wider(ws, wb),
    ensures
        twf(slab_axis_s(lo_s, hi_s, o, dir, ws)),
        twf(slab_axis_s(lo_b, hi_b, o, dir, wb)),
        wider(slab_axis_s(lo_s, hi_s, o, dir, ws), slab_axis_s(lo_b, hi_b, o, dir, wb)),
{
    let rs = slab_axis_s(lo_s, hi_s, o, dir, ws);
    let rb = slab_axis_s(lo_b, hi_b, o, dir, wb);
    if !rs.alive {
        // Nothing to show beyond denominators, which the fold never shrinks.
        if dir != 0 {
            assert(twf(rs) && twf(rb));
        }
        return ;
    }
    // rs alive, hence ws alive, hence wb alive with the ordered bounds.
    assert(ws.alive);
    if dir == 0 {
        assert(lo_s <= o <= hi_s);
        assert(lo_b <= o <= hi_b);
        assert(!frac_le(ws.hi, ws.lo));
        lemma_frac_trans(wb.lo, ws.lo, ws.hi);
        lemma_frac_trans(wb.lo, ws.hi, wb.hi);
        assert(frac_lt(wb.lo, wb.hi));
    } else {
        let den = iabs(dir);
        let n0s = if dir > 0 {
            (lo_s - o) * (crate::fixed::SCALE as int)
        } else {
            (o - hi_s) * (crate::fixed::SCALE as int)
        };
        let n1s = if dir > 0 {
            (hi_s - o) * (crate::fixed::SCALE as int)
        } else {
            (o - lo_s) * (crate::fixed::SCALE as int)
        };
        let n0b = if dir > 0 {
            (lo_b - o) * (crate::fixed::SCALE as int)
        } else {
            (o - hi_b) * (crate::fixed::SCALE as int)
        };
        let n1b = if dir > 0 {
            (hi_b - o) * (crate::fixed::SCALE as int)
        } else {
            (o - lo_b) * (crate::fixed::SCALE as int)
        };
        let t0s = Frac { n: n0s, d: den };
        let t1s = Frac { n: n1s, d: den };
        let t0b = Frac { n: n0b, d: den };
        let t1b = Frac { n: n1b, d: den };
        assert(n0b <= n0s && n1s <= n1b) by (nonlinear_arith)
            requires
                lo_b <= lo_s,
                hi_s <= hi_b,
                n0s == (if dir > 0 {
                    (lo_s - o) * (crate::fixed::SCALE as int)
                } else {
                    (o - hi_s) * (crate::fixed::SCALE as int)
                }),
                n1s == (if dir > 0 {
                    (hi_s - o) * (crate::fixed::SCALE as int)
                } else {
                    (o - lo_s) * (crate::fixed::SCALE as int)
                }),
                n0b == (if dir > 0 {
                    (lo_b - o) * (crate::fixed::SCALE as int)
                } else {
                    (o - hi_b) * (crate::fixed::SCALE as int)
                }),
                n1b == (if dir > 0 {
                    (hi_b - o) * (crate::fixed::SCALE as int)
                } else {
                    (o - lo_b) * (crate::fixed::SCALE as int)
                }),
                crate::fixed::SCALE as int > 0,
        ;
        assert(frac_le(t0b, t0s) && frac_le(t1s, t1b)) by (nonlinear_arith)
            requires
                n0b <= n0s,
                n1s <= n1b,
                den >= 1,
                t0s == (Frac { n: n0s, d: den }),
                t1s == (Frac { n: n1s, d: den }),
                t0b == (Frac { n: n0b, d: den }),
                t1b == (Frac { n: n1b, d: den }),
        ;
        let nlos = if frac_lt(ws.lo, t0s) {
            t0s
        } else {
            ws.lo
        };
        let nhis = if frac_lt(t1s, ws.hi) {
            t1s
        } else {
            ws.hi
        };
        let nlob = if frac_lt(wb.lo, t0b) {
            t0b
        } else {
            wb.lo
        };
        let nhib = if frac_lt(t1b, wb.hi) {
            t1b
        } else {
            wb.hi
        };
        // The big window's new low bound never passes the small one's.
        assert(frac_le(nlob, nlos)) by {
            if frac_lt(wb.lo, t0b) {
                if frac_lt(ws.lo, t0s) {
                    assert(frac_le(t0b, t0s));
                } else {
                    // t0s <= ws.lo, and t0b <= t0s.
                    lemma_frac_trans(t0b, t0s, ws.lo);
                    assert(!frac_lt(ws.lo, t0s) ==> frac_le(t0s, ws.lo));
                }
            } else {
                if frac_lt(ws.lo, t0s) {
                    lemma_frac_trans(wb.lo, ws.lo, t0s);
                } else {
                    assert(frac_le(wb.lo, ws.lo));
                }
            }
        };
        assert(frac_le(nhis, nhib)) by {
            if frac_lt(t1b, wb.hi) {
                if frac_lt(t1s, ws.hi) {
                    assert(frac_le(t1s, t1b));
                } else {
                    lemma_frac_trans(ws.hi, t1s, t1b);
                }
            } else {
                if frac_lt(t1s, ws.hi) {
                    lemma_frac_trans(t1s, ws.hi, wb.hi);
                } else {
                    assert(frac_le(ws.hi, wb.hi));
                }
            }
        };
        assert(rs.alive ==> frac_lt(nlos, nhis));
        lemma_frac_trans(nlob, nlos, nhis);
        lemma_frac_trans(nlob, nhis, nhib);
        assert(frac_lt(nlob, nhib));
    }
}

/// A ray that crosses a box crosses any enclosing box on the same range.
pub proof fn lemma_aabb_hit_monotone(big: AABB, small: AABB, o: V3, d: V3, tmin: int, tmax: int)
    requires
        box_contains(big, small),
        aabb_hit_s(small, o, d, tmin, tmax),
    ensures
        aabb_hit_s(big, o, d, tmin, tmax),
{
    let st0 = initial_window(tmin, tmax);
    let s1 = slab_axis_s(small.x.min as int, small.x.max as int, o.x, d.x, st0);
    let s2 = slab_axis_s(small.y.min as int, small.y.max as int, o.y, d.y, s1);
    let b1 = slab_axis_s(big.x.min as int, big.x.max as int, o.x, d.x, st0);
    let b2 = slab_axis_s(big.y.min as int, big.y.max as int, o.y, d.y, b1);
    lemma_slab_axis_monotone(
        big.x.min as int,
        big.x.max as int,
        small.x.min as int,
        small.x.max as int,
        o.x,
        d.x,
        st0,
        st0,
    );
    lemma_slab_axis_monotone(
        big.y.min as int,
        big.y.max as int,
        small.y.min as int,
        small.y.max as int,
        o.y,
        d.y,
        s1,
        b1,
    );
    lemma_slab_axis_monotone(
        big.z.min as int,
        big.z.max as int,
        small.z.min as int,
        small.z.max as int,
        o.z,
        d.z,
        s2,
        b2,
    );
}

impl AABB {
    /// The empty box on every axis.
    pub fn blank() -> (r: AABB)
        ensures
            r.x.min == i64::MAX && r.x.max == i64::MIN,
            r.y.min == i64::MAX && r.y.max == i64::MIN,
            r.z.min == i64::MAX && r.z.max == i64::MIN,
    {
        AABB { x: Interval::blank(), y: Interval::blank(), z: Interval::blank() }
    }

    pub fn new(x: Interval, y: Interval, z: Interval) -> (r: AABB)
        ensures
            r.x == x && r.y == y && r.z == z,
    {
        AABB { x, y, z }
    }

    /// The box spanned by two corner points, whichever way round they come.
    pub fn from_points(a: Point3, b: Point3) -> (r: AABB)
        ensures
            r.x.min as int == crate::fixed::imin(a.v().x, b.v().x),
            r.x.max as int == crate::fixed::imax(a.v().x, b.v().x),
            r.y.min as int == crate::fixed::imin(a.v().y, b.v().y),
            r.y.max as int == crate::fixed::imax(a.v().y, b.v().y),
            r.z.min as int == crate::fixed::imin(a.v().z, b.v().z),
            r.z.max as int == crate::fixed::imax(a.v().z, b.v().z),
    {
        let x: Interval = if a.x <= b.x {
            Interval::new(a.x, b.x)
        } else {
            Interval::new(b.x, a.x)
        };
        let y: Interval = if a.y <= b.y {
            Interval::new(a.y, b.y)
        } else {
            Interval::new(b.y, a.y)
        };
        let z: Interval = if a.z <= b.z {
            Interval::new(a.z, b.z)
        } else {
            Interval::new(b.z, a.z)
        };
        AABB { x, y, z }
    }

    /// The tightest box enclosing two boxes.
    pub fn from_boxes(box0: &AABB, box1: &AABB) -> (r: AABB)
        ensures
            r.x.min as int == crate::fixed::imin(box0.x.min as int, box1.x.min as int),
            r.x.max as int == crate::fixed::imax(box0.x.max as int, box1.x.max as int),
            r.y.min as int == crate::fixed::imin(box0.y.min as int, box1.y.min as int),
            r.y.max as int == crate::fixed::imax(box0.y.max as int, box1.y.max as int),
            r.z.min as int == crate::fixed::imin(box0.z.min as int, box1.z.min as int),
            r.z.max as int == crate::fixed::imax(box0.z.max as int, box1.z.max as int),
    {
        AABB {
            x: Interval::from_intervals(&box0.x, &box1.x),
            y: Interval::from_intervals(&box0.y, &box1.y),
            z: Interval::from_intervals(&box0.z, &box1.z),
        }
    }

    /// The interval of axis `n`: 1 is y, 2 is z, anything else is x.
    pub fn axis_interval(&self, n: usize) -> (r: Interval)
        ensures
            r == if n == 1 {
                self.y
            } else if n == 2 {
                self.z
            } else {
                self.x
            },
    {
        if n == 1 {
            self.y
        } else if n == 2 {
            self.z
        } else {
            self.x
        }
    }

    /// Whether the ray crosses the box strictly inside the search range; the
    /// exact predicate `aabb_hit_s`.
    pub fn hit(&self, r: &Ray, ray_t: &Interval) -> (res: bool)
        requires
            bounded_s(r.origin.v(), RAY_MAX as int),
            bounded_s(r.direction.v(), RAY_MAX as int),
        ensures
            res == aabb_hit_s(*self, r.origin.v(), r.direction.v(), ray_t.min as int, ray_t.max as int),
    {
        let st0 = SlabState {
            lo_n: ray_t.min as i128,
            lo_d: 1,
            hi_n: ray_t.max as i128,
            hi_d: 1,
            alive: true,
        };
        let st1 = slab_axis(&self.x, r.origin.x, r.direction.x, st0);
        let st2 = slab_axis(&self.y, r.origin.y, r.direction.y, st1);
        let st3 = slab_axis(&self.z, r.origin.z, r.direction.z, st2);
        st3.alive
    }

    /// The index of the longest axis: x wins outright; on ties z beats x and
    /// z beats y.
    pub fn longest_axis(&self) -> (r: i64)
        ensures
            r == if self.x.max as int - self.x.min as int > self.y.max as int - self.y.min as int {
                if self.x.max as int - self.x.min as int > self.z.max as int - self.z.min as int {
                    0int
                } else {
                    2int
                }
            } else {
                if self.y.max as int - self.y.min as int > self.z.max as int - self.z.min as int {
                    1int
                } else {
                    2int
                }
            },
    {
        let sx: i128 = self.x.size();
        let sy: i128 = self.y.size();
        let sz: i128 = self.z.size();
        if sx > sy {
            if sx > sz {
                0
            } else {
                2
            }
        } else {
            if sy > sz {
                1
            } else {
                2
            }
        }
    }
}

} // verus!
