//! Spheres with a moving center (a center ray sampled at the ray's time), and
//! the quadratic ray intersection. The spec functions mirror each fixed-point
//! step exactly, so the executable test is pinned to its stated result.
use crate::aabb::AABB;
use crate::fixed::{fx_div_s, fx_mul_s, fx_sqrt_s, iabs, lemma_tdiv_mag, tdiv, tdiv_by, SCALE};
use crate::hittable::{hr_wf, HitRecord};
use crate::interval::Interval;
use crate::material::Material;
use crate::ray::{at_s, Ray, RAY_MAX, T_MAX};
use crate::vec3::{
    bounded_s, div_s, dot_s, lemma_dot_bound, lemma_dot_self_nonneg, lemma_fx_div_bound, neg_s,
    sub_s, Point3, Vec3, V3,
};
use vstd::prelude::*;

verus! {

/// Componentwise bound on sphere centers and radii: about a thousand units.
pub const CEN_MAX: i64 = 0x400_0000;

/// Largest discriminant whose square root the scalar type can take.
pub const DISC_MAX: i64 = 0xFFFF_FFFF_FFFF;

#[derive(Clone, Copy)]
pub struct Sphere {
    pub center: Ray,
    pub radius: i64,
    pub mat: Material,
    pub bbox: AABB,
}

/// A sphere the tracer can work on: bounded geometry, usable material.
pub open spec fn sphere_wf(s: Sphere) -> bool {
    &&& bounded_s(s.center.origin.v(), CEN_MAX as int)
    &&& bounded_s(s.center.direction.v(), CEN_MAX as int)
    &&& 1 <= s.radius <= CEN_MAX
    &&& crate::material::mat_wf(s.mat)
}

/// Where the sphere's center is at a ray time.
pub open spec fn center_at(s: Sphere, time: int) -> V3 {
    at_s(s.center, time)
}

/// Center-to-origin offset, the quadratic's coefficients, and its
/// discriminant, each one fixed-point truncation of the exact value.
pub open spec fn sh_oc(s: Sphere, r: Ray) -> V3 {
    sub_s(center_at(s, r.time as int), r.origin.v())
}

pub open spec fn sh_a(r: Ray) -> int {
    crate::vec3::len_sq_s(r.direction.v())
}

pub open spec fn sh_h(s: Sphere, r: Ray) -> int {
    dot_s(r.direction.v(), sh_oc(s, r))
}

pub open spec fn sh_c(s: Sphere, r: Ray) -> int {
    crate::vec3::len_sq_s(sh_oc(s, r)) - fx_mul_s(s.radius as int, s.radius as int)
}

pub open spec fn sh_disc(s: Sphere, r: Ray) -> int {
    tdiv(sh_h(s, r) * sh_h(s, r) - sh_a(r) * sh_c(s, r), SCALE as int)
}

/// The root the intersection reports: the nearer root when it lies strictly
/// inside the search range, else the farther one.
pub open spec fn sh_root(s: Sphere, r: Ray, tmin: int, tmax: int) -> int {
    let sq = fx_sqrt_s(sh_disc(s, r));
    let r1 = fx_div_s(sh_h(s, r) - sq, sh_a(r));
    if tmin < r1 < tmax {
        r1
    } else {
        fx_div_s(sh_h(s, r) + sq, sh_a(r))
    }
}

/// The outward surface normal at the reported root.
pub open spec fn sh_outward(s: Sphere, r: Ray, tmin: int, tmax: int) -> V3 {
    div_s(
        sub_s(at_s(r, sh_root(s, r, tmin, tmax)), center_at(s, r.time as int)),
        s.radius as int,
    )
}

/// Whether the sphere reports a hit strictly inside `(tmin, tmax)`: a real
/// root there, with a discriminant, point and normal the scalar grid can
/// carry (hits beyond those guards are dropped as degenerate).
pub open spec fn sphere_hits(s: Sphere, r: Ray, tmin: int, tmax: int) -> bool {
    let root = sh_root(s, r, tmin, tmax);
    &&& sh_a(r) >= 1
    &&& sh_disc(s, r) >= 0
    &&& sh_disc(s, r) <= DISC_MAX as int
    &&& tmin < root < tmax
    &&& iabs(root) <= T_MAX as int
    &&& bounded_s(at_s(r, root), RAY_MAX as int)
    &&& bounded_s(sh_outward(s, r, tmin, tmax), 2 * SCALE as int)
}

/// The full record of a reported hit.
pub ghost struct HitInfo {
    pub p: V3,
    pub normal: V3,
    pub t: int,
    pub front_face: bool,
}

pub open spec fn sphere_hit_info(s: Sphere, r: Ray, tmin: int, tmax: int) -> HitInfo {
    let root = sh_root(s, r, tmin, tmax);
    let p = at_s(r, root);
    let outward = sh_outward(s, r, tmin, tmax);
    let ff = dot_s(r.direction.v(), outward) < 0;
    HitInfo {
        p,
        normal: if ff {
            outward
        } else {
            neg_s(outward)
        },
        t: root,
        front_face: ff,
    }
}

/// The record a hit writes matches the spec-level hit description and carries
/// the sphere's material.
pub open spec fn rec_matches(s: Sphere, info: HitInfo, rec: HitRecord) -> bool {
    &&& rec.p.v() == info.p
    &&& rec.normal.v() == info.normal
    &&& rec.t as int == info.t
    &&& rec.front_face == info.front_face
    &&& rec.mat == s.mat
}

impl Sphere {
    /// A stationary sphere; its box spans the center plus and minus the
    /// radius on every axis.
    pub fn new(static_center: Point3, radius: i64, mat: Material) -> (s: Sphere)
        requires
            bounded_s(static_center.v(), CEN_MAX as int),
            1 <= radius <= CEN_MAX,
            crate::material::mat_wf(mat),
        ensures
            sphere_wf(s),
            s.center.origin == static_center,
            s.center.direction.v() == (V3 { x: 0, y: 0, z: 0 }),
            s.center.time == 0,
            s.radius == radius,
            s.mat == mat,
            s.bbox.x.min as int == static_center.v().x - radius && s.bbox.x.max as int
                == static_center.v().x + radius,
            s.bbox.y.min as int == static_center.v().y - radius && s.bbox.y.max as int
                == static_center.v().y + radius,
            s.bbox.z.min as int == static_center.v().z - radius && s.bbox.z.max as int
                == static_center.v().z + radius,
    {
        let rvec: Vec3 = Vec3::new(radius, radius, radius);
        Sphere {
            center: Ray::new(static_center, Vec3::blank()),
            radius,
            mat,
            bbox: AABB::from_points(static_center.sub(rvec), static_center.add(rvec)),
        }
    }

    /// A sphere moving from `center1` at time zero to `center2` at time one;
    /// its box encloses both end positions.
    pub fn new_moving(center1: Point3, center2: Point3, radius: i64, mat: Material) -> (s: Sphere)
        requires
            bounded_s(center1.v(), 0x200_0000),
            bounded_s(center2.v(), 0x200_0000),
            1 <= radius <= CEN_MAX,
            crate::material::mat_wf(mat),
        ensures
            sphere_wf(s),
            s.center.origin == center1,
            s.center.direction.v() == sub_s(center2.v(), center1.v()),
            s.radius == radius,
            s.mat == mat,
            s.bbox.x.min as int == crate::fixed::imin(center1.v().x, center2.v().x) - radius,
            s.bbox.x.max as int == crate::fixed::imax(center1.v().x, center2.v().x) + radius,
            s.bbox.y.min as int == crate::fixed::imin(center1.v().y, center2.v().y) - radius,
            s.bbox.y.max as int == crate::fixed::imax(center1.v().y, center2.v().y) + radius,
            s.bbox.z.min as int == crate::fixed::imin(center1.v().z, center2.v().z) - radius,
            s.bbox.z.max as int == crate::fixed::imax(center1.v().z, center2.v().z) + radius,
    {
        let center_ray: Ray = Ray::new(center1, center2.sub(center1));
        let rvec: Vec3 = Vec3::new(radius, radius, radius);
        proof {
            crate::ray::lemma_at_zero_one(center_ray);
        }
        let p0: Point3 = center_ray.at(0);
        let p1: Point3 = center_ray.at(SCALE);
        let box1: AABB = AABB::from_points(p0.sub(rvec), p0.add(rvec));
        let box2: AABB = AABB::from_points(p1.sub(rvec), p1.add(rvec));
        Sphere { center: center_ray, radius, mat, bbox: AABB::from_boxes(&box1, &box2) }
    }

    pub fn bounding_box(&self) -> (r: &AABB)
        ensures
            r == &self.bbox,
    {
        &self.bbox
    }

    /// The nearest root of the ray/sphere quadratic strictly inside the
    /// search range, written into `rec`; exactly `sphere_hits` says whether
    /// one is reported, and the record matches `sphere_hit_info`.
    pub fn hit(&self, r: &Ray, ray_t: Interval, rec: &mut HitRecord) -> (b: bool)
        requires
            sphere_wf(*self),
            bounded_s(r.origin.v(), RAY_MAX as int),
            bounded_s(r.direction.v(), RAY_MAX as int),
            iabs(r.time as int) <= SCALE as int,
        ensures
            b == sphere_hits(*self, *r, ray_t.min as int, ray_t.max as int),
            b ==> rec_matches(
                *self,
                sphere_hit_info(*self, *r, ray_t.min as int, ray_t.max as int),
                *final(rec),
            ),
            b ==> hr_wf(*final(rec)),
            !b ==> *final(rec) == *old(rec),
    {
        let current_center: Point3 = self.center.at(r.time);
        proof {
            crate::vec3::lemma_fx_mul_bound(
                self.center.direction.v().x,
                r.time as int,
                0x400_0000,
                65536,
            );
            crate::vec3::lemma_fx_mul_bound(
                self.center.direction.v().y,
                r.time as int,
                0x400_0000,
                65536,
            );
            crate::vec3::lemma_fx_mul_bound(
                self.center.direction.v().z,
                r.time as int,
                0x400_0000,
                65536,
            );
            assert(0x400_0000int * 65536 / 65536 == 0x400_0000int);
        }
        let oc: Vec3 = current_center.sub(r.origin);
        proof {
            lemma_dot_bound(r.direction.v(), r.direction.v(), RAY_MAX as int, RAY_MAX as int);
        }
        let a: i64 = r.direction.length_squared();
        if a < 1 {
            return false;
        }
        proof {
            lemma_dot_bound(r.direction.v(), oc.v(), 0x4000_0000, 0x8000_0000);
            lemma_dot_bound(oc.v(), oc.v(), 0x8000_0000, 0x8000_0000);
            crate::vec3::lemma_fx_mul_bound(
                self.radius as int,
                self.radius as int,
                0x400_0000,
                0x400_0000,
            );
            lemma_dot_self_nonneg(oc.v());
        }
        let h: i64 = Vec3::dot(&r.direction, &oc);
        let c: i64 = oc.length_squared() - crate::fixed::fx_mul(self.radius, self.radius);
        proof {
            lemma_disc_fits(h as int, a as int, c as int);
        }
        let hh_ac: i128 = (h as i128) * (h as i128) - (a as i128) * (c as i128);
        let disc_wide: i128 = tdiv_by(hh_ac, SCALE as i128);
        if disc_wide < 0 {
            return false;
        }
        if disc_wide > DISC_MAX as i128 {
            return false;
        }
        let discriminant: i64 = disc_wide as i64;
        let sqrtd: i64 = crate::fixed::fx_sqrt(discriminant);
        proof {
            lemma_sqrt_small(discriminant as int);
            lemma_fx_div_bound(h as int - sqrtd as int, a as int, 0x7000_0000_0000);
            lemma_fx_div_bound(h as int + sqrtd as int, a as int, 0x7000_0000_0000);
        }
        let mut root: i64 = crate::fixed::fx_div(h - sqrtd, a);
        if !ray_t.surrounds(root) {
            root = crate::fixed::fx_div(h + sqrtd, a);
            if !ray_t.surrounds(root) {
                return false;
            }
        }
        if root > T_MAX || root < -T_MAX {
            return false;
        }
        let p: Point3 = r.at(root);
        if p.x > RAY_MAX || p.x < -RAY_MAX || p.y > RAY_MAX || p.y < -RAY_MAX || p.z > RAY_MAX
            || p.z < -RAY_MAX {
            return false;
        }
        proof {
            lemma_fx_div_bound(p.v().x - current_center.v().x, self.radius as int, 0x8000_0000);
            lemma_fx_div_bound(p.v().y - current_center.v().y, self.radius as int, 0x8000_0000);
            lemma_fx_div_bound(p.v().z - current_center.v().z, self.radius as int, 0x8000_0000);
        }
        let outward_normal: Vec3 = p.sub(current_center).div(self.radius);
        if outward_normal.x > 2 * SCALE || outward_normal.x < -2 * SCALE || outward_normal.y > 2
            * SCALE || outward_normal.y < -2 * SCALE || outward_normal.z > 2 * SCALE
            || outward_normal.z < -2 * SCALE {
            return false;
        }
        rec.t = root;
        rec.p = p;
        rec.set_face_normal(r, &outward_normal);
        rec.mat = self.mat;
        true
    }
}

/// The discriminant's double-width intermediates fit and its truncation is
/// bounded by them.
proof fn lemma_disc_fits(h: int, a: int, c: int)
    requires
        iabs(h) <= 0x6000_0000_0000,
        0 <= a <= 0x3000_0000_0000,
        iabs(c) <= 0x2_0000_0000_0000,
    ensures
        iabs(h * h) <= 0x6000_0000_0000 * 0x6000_0000_0000,
        iabs(a * c) <= 0x3000_0000_0000 * 0x2_0000_0000_0000,
        iabs(tdiv(h * h - a * c, SCALE as int)) <= 0x6000_0000_0000int * 0x6000_0000_0000 + 0x3000_0000_0000 * 0x2_0000_0000_0000,
{
    assert(iabs(h * h) <= 0x6000_0000_0000 * 0x6000_0000_0000 && iabs(a * c) <= 0x3000_0000_0000
        * 0x2_0000_0000_0000) by (nonlinear_arith)
        requires
            iabs(h) <= 0x6000_0000_0000,
            0 <= a <= 0x3000_0000_0000,
            iabs(c) <= 0x2_0000_0000_0000,
    ;
    lemma_tdiv_mag(
        h * h - a * c,
        SCALE as int,
        0x6000_0000_0000int * 0x6000_0000_0000 + 0x3000_0000_0000 * 0x2_0000_0000_0000,
    );
}

/// The nearer root never exceeds the farther one.
proof fn lemma_roots_ordered(s: Sphere, r: Ray)
    requires
        sh_a(r) >= 1,
        sh_disc(s, r) >= 0,
    ensures
        fx_div_s(sh_h(s, r) - fx_sqrt_s(sh_disc(s, r)), sh_a(r)) <= fx_div_s(
            sh_h(s, r) + fx_sqrt_s(sh_disc(s, r)),
            sh_a(r),
        ),
        fx_sqrt_s(sh_disc(s, r)) >= 0,
{
    crate::fixed::lemma_sqrt_floor(sh_disc(s, r) * SCALE as int);
    assert(sh_disc(s, r) * SCALE as int >= 0) by (nonlinear_arith)
        requires
            sh_disc(s, r) >= 0,
            SCALE as int > 0,
    ;
    let sq = fx_sqrt_s(sh_disc(s, r));
    assert((sh_h(s, r) - sq) * SCALE <= (sh_h(s, r) + sq) * SCALE) by (nonlinear_arith)
        requires
            sq >= 0,
            SCALE as int > 0,
    ;
    crate::fixed::lemma_tdiv_monotone(
        (sh_h(s, r) - sq) * SCALE,
        (sh_h(s, r) + sq) * SCALE,
        sh_a(r),
    );
}

/// A hit reported inside a narrowed range `(tmin, x)` is the very hit the
/// full range `(tmin, tmax)` reports.
pub proof fn lemma_hit_widen(s: Sphere, r: Ray, tmin: int, x: int, tmax: int)
    requires
        x <= tmax,
        sphere_hits(s, r, tmin, x),
    ensures
        sphere_hits(s, r, tmin, tmax),
        sphere_hit_info(s, r, tmin, tmax) == sphere_hit_info(s, r, tmin, x),
{
    lemma_roots_ordered(s, r);
    let sq = fx_sqrt_s(sh_disc(s, r));
    let r1 = fx_div_s(sh_h(s, r) - sq, sh_a(r));
    let r2 = fx_div_s(sh_h(s, r) + sq, sh_a(r));
    if tmin < r1 < x {
    } else {
        // The reported root is the farther one, and the nearer root lies at
        // or below the bottom of the window in both ranges.
        assert(sh_root(s, r, tmin, x) == r2);
        assert(tmin < r2 < x);
        assert(r1 <= tmin);
    }
}

/// A full-range hit whose parameter lies under a narrowed top `x` is reported
/// unchanged in the narrowed range `(tmin, x)`.
pub proof fn lemma_hit_narrow(s: Sphere, r: Ray, tmin: int, x: int, tmax: int)
    requires
        x <= tmax,
        sphere_hits(s, r, tmin, tmax),
        sphere_hit_info(s, r, tmin, tmax).t < x,
    ensures
        sphere_hits(s, r, tmin, x),
        sphere_hit_info(s, r, tmin, x) == sphere_hit_info(s, r, tmin, tmax),
{
    lemma_roots_ordered(s, r);
    let sq = fx_sqrt_s(sh_disc(s, r));
    let r1 = fx_div_s(sh_h(s, r) - sq, sh_a(r));
    let r2 = fx_div_s(sh_h(s, r) + sq, sh_a(r));
    if tmin < r1 < tmax {
        assert(sh_root(s, r, tmin, tmax) == r1);
        assert(r1 < x);
    } else {
        assert(sh_root(s, r, tmin, tmax) == r2);
        assert(r2 < x);
        assert(r1 <= tmin || r1 >= tmax);
        assert(r1 <= r2);
        assert(r1 <= tmin);
    }
}

/// A discriminant under the cap has a root under `2^32`.
proof fn lemma_sqrt_small(d: int)
    requires
        0 <= d <= DISC_MAX as int,
    ensures
        0 <= fx_sqrt_s(d) < 0x1_0000_0000,
        d * SCALE as int <= u64::MAX as int,
{
    crate::fixed::lemma_sqrt_floor(d * SCALE as int);
    if fx_sqrt_s(d) >= 0x1_0000_0000 {
        assert(fx_sqrt_s(d) * fx_sqrt_s(d) >= 0x1_0000_0000 * 0x1_0000_0000) by (nonlinear_arith)
            requires
                fx_sqrt_s(d) >= 0x1_0000_0000,
        ;
    }
}

} // verus!
