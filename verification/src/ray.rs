//! Parametric rays: origin, direction and a motion-sampling time in `[0, 1)`.
use crate::fixed::{fx_mul_s, iabs, lemma_tdiv_mag, tdiv_scale, SCALE};
use crate::vec3::{add_s, bounded_s, scale_s, Point3, Vec3, V3};
use vstd::prelude::*;

verus! {

/// Componentwise bound on ray origins and directions: about 16 thousand
/// units, room enough for any scene this renderer is pointed at.
pub const RAY_MAX: i64 = 0x4000_0000;

/// Bound on accepted hit parameters, far beyond any scene extent.
pub const T_MAX: i64 = 0x100_0000_0000;

#[derive(Clone, Copy, PartialEq, Eq, Structural, Debug)]
pub struct Ray {
    pub origin: Point3,
    pub direction: Vec3,
    pub time: i64,
}

/// The point a ray reaches at parameter `t`.
pub open spec fn at_s(r: Ray, t: int) -> V3 {
    add_s(r.origin.v(), scale_s(r.direction.v(), t))
}

/// A ray the tracer can work on: componentwise bounded, with a direction of
/// at least one fixed-point step of squared length.
pub open spec fn ray_wf(r: Ray) -> bool {
    bounded_s(r.origin.v(), RAY_MAX as int) && bounded_s(r.direction.v(), RAY_MAX as int)
        && crate::vec3::len_sq_s(r.direction.v()) >= 1
}

impl Ray {
    pub fn blank() -> (r: Ray)
        ensures
            r.origin.v() == (V3 { x: 0, y: 0, z: 0 }),
            r.direction.v() == (V3 { x: 0, y: 0, z: 0 }),
            r.time == 0,
    {
        Ray { origin: Point3::blank(), direction: Vec3::blank(), time: 0 }
    }

    pub fn new(origin: Point3, direction: Vec3) -> (r: Ray)
        ensures
            r.origin == origin,
            r.direction == direction,
            r.time == 0,
    {
        Ray { origin, direction, time: 0 }
    }

    pub fn new_timed(origin: Point3, direction: Vec3, time: i64) -> (r: Ray)
        ensures
            r.origin == origin,
            r.direction == direction,
            r.time == time,
    {
        Ray { origin, direction, time }
    }

    pub fn time(&self) -> (r: i64)
        ensures
            r == self.time,
    {
        self.time
    }

    pub fn origin(&self) -> (r: Point3)
        ensures
            r == self.origin,
    {
        self.origin
    }

    pub fn direction(&self) -> (r: Vec3)
        ensures
            r == self.direction,
    {
        self.direction
    }

    /// `origin + t * direction`, evaluated without intermediate overflow.
    pub fn at(&self, t: i64) -> (p: Point3)
        requires
            bounded_s(self.origin.v(), RAY_MAX as int),
            bounded_s(self.direction.v(), RAY_MAX as int),
            iabs(t as int) <= T_MAX as int,
        ensures
            p.v() == at_s(*self, t as int),
    {
        proof {
            lemma_at_fits(*self, t as int);
        }
        let sx: i128 = tdiv_scale((self.direction.x as i128) * (t as i128));
        let sy: i128 = tdiv_scale((self.direction.y as i128) * (t as i128));
        let sz: i128 = tdiv_scale((self.direction.z as i128) * (t as i128));
        Vec3 {
            x: ((self.origin.x as i128) + sx) as i64,
            y: ((self.origin.y as i128) + sy) as i64,
            z: ((self.origin.z as i128) + sz) as i64,
        }
    }
}

/// At parameter zero a ray sits at its origin; at parameter one it has moved
/// by exactly its direction (scaling by one unit is exact).
pub proof fn lemma_at_zero_one(r: Ray)
    ensures
        at_s(r, 0) == r.origin.v(),
        at_s(r, SCALE as int) == add_s(r.origin.v(), r.direction.v()),
{
    crate::fixed::lemma_tdiv_exact(r.direction.v().x);
    crate::fixed::lemma_tdiv_exact(r.direction.v().y);
    crate::fixed::lemma_tdiv_exact(r.direction.v().z);
    assert(r.direction.v().x * 0 == 0) by (nonlinear_arith);
    assert(r.direction.v().y * 0 == 0) by (nonlinear_arith);
    assert(r.direction.v().z * 0 == 0) by (nonlinear_arith);
}

/// All intermediates of `Ray::at` stay far inside the scalar range.
proof fn lemma_at_fits(r: Ray, t: int)
    requires
        bounded_s(r.origin.v(), RAY_MAX as int),
        bounded_s(r.direction.v(), RAY_MAX as int),
        iabs(t) <= T_MAX as int,
    ensures
        iabs(r.direction.v().x * t) <= 0x40_0000_0000_0000_0000,
        iabs(r.direction.v().y * t) <= 0x40_0000_0000_0000_0000,
        iabs(r.direction.v().z * t) <= 0x40_0000_0000_0000_0000,
        iabs(fx_mul_s(r.direction.v().x, t)) <= 0x40_0000_0000_0000,
        iabs(fx_mul_s(r.direction.v().y, t)) <= 0x40_0000_0000_0000,
        iabs(fx_mul_s(r.direction.v().z, t)) <= 0x40_0000_0000_0000,
{
    assert(iabs(r.direction.v().x * t) <= 0x40_0000_0000_0000_0000 && iabs(
        r.direction.v().y * t,
    ) <= 0x40_0000_0000_0000_0000 && iabs(r.direction.v().z * t)
        <= 0x40_0000_0000_0000_0000) by (nonlinear_arith)
        requires
            bounded_s(r.direction.v(), RAY_MAX as int),
            iabs(t) <= T_MAX as int,
            RAY_MAX as int * T_MAX as int <= 0x40_0000_0000_0000_0000,
    ;
    lemma_tdiv_mag(r.direction.v().x * t, SCALE as int, 0x40_0000_0000_0000_0000);
    lemma_tdiv_mag(r.direction.v().y * t, SCALE as int, 0x40_0000_0000_0000_0000);
    lemma_tdiv_mag(r.direction.v().z * t, SCALE as int, 0x40_0000_0000_0000_0000);
    assert(0x40_0000_0000_0000int * (SCALE as int) == 0x40_0000_0000_0000_0000int);
    vstd::arithmetic::div_mod::lemma_div_by_multiple(0x40_0000_0000_0000int, SCALE as int);
}

} // verus!
