//! Three-component vectors over fixed-point scalars, used both as free
//! vectors and as points. Every operation states its result exactly over the
//! ghost view `V3`, whose components are unbounded integers.
use crate::fixed::{
    fx_div_s, fx_mul_s, fx_sqrt_s, iabs, lemma_sqrt_floor, lemma_tdiv_mag, sqrt_floor, tdiv,
    tdiv_scale, SCALE,
};
use crate::util::{bounded_random_scalar, random_scalar};
use vstd::prelude::*;

verus! {

/// A vector of unbounded integers: the mathematical model of `Vec3`.
pub ghost struct V3 {
    pub x: int,
    pub y: int,
    pub z: int,
}

#[derive(Clone, Copy, PartialEq, Eq, Structural, Debug)]
pub struct Vec3 {
    pub x: i64,
    pub y: i64,
    pub z: i64,
}

/// Points are vectors; the alias keeps intent readable.
pub type Point3 = Vec3;

pub open spec fn bounded_s(a: V3, m: int) -> bool {
    iabs(a.x) <= m && iabs(a.y) <= m && iabs(a.z) <= m
}

pub open spec fn add_s(a: V3, b: V3) -> V3 {
    V3 { x: a.x + b.x, y: a.y + b.y, z: a.z + b.z }
}

pub open spec fn sub_s(a: V3, b: V3) -> V3 {
    V3 { x: a.x - b.x, y: a.y - b.y, z: a.z - b.z }
}

pub open spec fn neg_s(a: V3) -> V3 {
    V3 { x: -a.x, y: -a.y, z: -a.z }
}

/// Component-wise fixed-point product.
pub open spec fn mul_s(a: V3, b: V3) -> V3 {
    V3 { x: fx_mul_s(a.x, b.x), y: fx_mul_s(a.y, b.y), z: fx_mul_s(a.z, b.z) }
}

/// Scaling by a fixed-point scalar.
pub open spec fn scale_s(a: V3, t: int) -> V3 {
    V3 { x: fx_mul_s(a.x, t), y: fx_mul_s(a.y, t), z: fx_mul_s(a.z, t) }
}

/// Division by a fixed-point scalar.
pub open spec fn div_s(a: V3, t: int) -> V3 {
    V3 { x: fx_div_s(a.x, t), y: fx_div_s(a.y, t), z: fx_div_s(a.z, t) }
}

/// The raw (unscaled) sum of component products.
pub open spec fn dot_raw_s(a: V3, b: V3) -> int {
    a.x * b.x + a.y * b.y + a.z * b.z
}

/// The fixed-point dot product: one truncation of the raw sum.
pub open spec fn dot_s(a: V3, b: V3) -> int {
    tdiv(dot_raw_s(a, b), SCALE as int)
}

pub open spec fn cross_s(a: V3, b: V3) -> V3 {
    V3 {
        x: tdiv(a.y * b.z - a.z * b.y, SCALE as int),
        y: tdiv(a.z * b.x - a.x * b.z, SCALE as int),
        z: tdiv(a.x * b.y - a.y * b.x, SCALE as int),
    }
}

pub open spec fn len_sq_s(a: V3) -> int {
    dot_s(a, a)
}

pub open spec fn len_s(a: V3) -> int {
    fx_sqrt_s(len_sq_s(a))
}

pub open spec fn unit_s(a: V3) -> V3 {
    div_s(a, len_s(a))
}

/// Mirror reflection about a normal: `v - 2*dot(v,n)*n`.
pub open spec fn reflect_s(v: V3, n: V3) -> V3 {
    sub_s(v, scale_s(n, 2 * dot_s(v, n)))
}

/// Refraction of a unit direction about a normal with relative index `eta`:
/// the perpendicular part by Snell's law, the parallel part from what length
/// is left.
pub open spec fn refract_s(uv: V3, n: V3, eta: int) -> V3 {
    let cos = crate::fixed::imin(dot_s(neg_s(uv), n), SCALE as int);
    let rp = scale_s(add_s(uv, scale_s(n, cos)), eta);
    let k = iabs(SCALE as int - len_sq_s(rp));
    add_s(rp, scale_s(n, -fx_sqrt_s(k)))
}

/// `|fx_mul_s(x, y)|` is at most `mx*my/SCALE`, itself at most `mx*my`.
pub proof fn lemma_fx_mul_bound(x: int, y: int, mx: int, my: int)
    requires
        iabs(x) <= mx,
        iabs(y) <= my,
    ensures
        iabs(fx_mul_s(x, y)) <= mx * my / (SCALE as int) <= mx * my,
{
    assert(iabs(x * y) <= mx * my) by (nonlinear_arith)
        requires
            iabs(x) <= mx,
            iabs(y) <= my,
    ;
    lemma_tdiv_mag(x * y, SCALE as int, mx * my);
    vstd::arithmetic::div_mod::lemma_div_nonincreasing(mx * my, SCALE as int);
}

/// `|fx_div_s(x, y)|` is at most `mx*SCALE` whenever `y` is nonzero.
pub proof fn lemma_fx_div_bound(x: int, y: int, mx: int)
    requires
        iabs(x) <= mx,
        y != 0,
    ensures
        iabs(fx_div_s(x, y)) <= mx * (SCALE as int),
{
    assert(iabs(x * SCALE) <= mx * (SCALE as int)) by (nonlinear_arith)
        requires
            iabs(x) <= mx,
            SCALE as int > 0,
    ;
    assert(iabs(tdiv(x * SCALE, y)) == iabs(x * SCALE) / iabs(y));
    vstd::arithmetic::div_mod::lemma_div_is_ordered(
        iabs(x * SCALE),
        mx * (SCALE as int),
        iabs(y),
    );
    vstd::arithmetic::div_mod::lemma_div_pos_is_pos(iabs(x * SCALE), iabs(y));
    vstd::arithmetic::div_mod::lemma_div_nonincreasing(mx * (SCALE as int), iabs(y));
}

/// `|dot_s(a, b)|` is at most `3*ma*mb` for componentwise bounds `ma`, `mb`.
pub proof fn lemma_dot_bound(a: V3, b: V3, ma: int, mb: int)
    requires
        bounded_s(a, ma),
        bounded_s(b, mb),
    ensures
        iabs(dot_raw_s(a, b)) <= 3 * (ma * mb),
        iabs(dot_s(a, b)) <= 3 * (ma * mb) / (SCALE as int) <= 3 * (ma * mb),
{
    assert(iabs(a.x * b.x) <= ma * mb && iabs(a.y * b.y) <= ma * mb && iabs(a.z * b.z) <= ma
        * mb) by (nonlinear_arith)
        requires
            iabs(a.x) <= ma,
            iabs(a.y) <= ma,
            iabs(a.z) <= ma,
            iabs(b.x) <= mb,
            iabs(b.y) <= mb,
            iabs(b.z) <= mb,
    ;
    lemma_tdiv_mag(dot_raw_s(a, b), SCALE as int, 3 * (ma * mb));
    vstd::arithmetic::div_mod::lemma_div_nonincreasing(3 * (ma * mb), SCALE as int);
}

/// Componentwise bound of an exact cross product.
pub proof fn lemma_cross_bound(a: V3, b: V3, ma: int, mb: int)
    requires
        bounded_s(a, ma),
        bounded_s(b, mb),
    ensures
        bounded_s(cross_s(a, b), 2 * (ma * mb) / (SCALE as int)),
{
    assert(iabs(a.y * b.z - a.z * b.y) <= 2 * (ma * mb)) by (nonlinear_arith)
        requires
            iabs(a.y) <= ma,
            iabs(a.z) <= ma,
            iabs(b.y) <= mb,
            iabs(b.z) <= mb,
    ;
    assert(iabs(a.z * b.x - a.x * b.z) <= 2 * (ma * mb)) by (nonlinear_arith)
        requires
            iabs(a.x) <= ma,
            iabs(a.z) <= ma,
            iabs(b.x) <= mb,
            iabs(b.z) <= mb,
    ;
    assert(iabs(a.x * b.y - a.y * b.x) <= 2 * (ma * mb)) by (nonlinear_arith)
        requires
            iabs(a.x) <= ma,
            iabs(a.y) <= ma,
            iabs(b.x) <= mb,
            iabs(b.y) <= mb,
    ;
    lemma_tdiv_mag(a.y * b.z - a.z * b.y, SCALE as int, 2 * (ma * mb));
    lemma_tdiv_mag(a.z * b.x - a.x * b.z, SCALE as int, 2 * (ma * mb));
    lemma_tdiv_mag(a.x * b.y - a.y * b.x, SCALE as int, 2 * (ma * mb));
}

/// A raw dot of a vector with itself is a sum of squares, hence non-negative,
/// and at least each component's square.
pub proof fn lemma_dot_self_nonneg(a: V3)
    ensures
        dot_raw_s(a, a) >= 0,
        a.x * a.x <= dot_raw_s(a, a),
        a.y * a.y <= dot_raw_s(a, a),
        a.z * a.z <= dot_raw_s(a, a),
        len_sq_s(a) >= 0,
{
    assert(a.x * a.x >= 0 && a.y * a.y >= 0 && a.z * a.z >= 0) by (nonlinear_arith);
    vstd::arithmetic::div_mod::lemma_div_pos_is_pos(dot_raw_s(a, a), SCALE as int);
}

impl Vec3 {
    /// The mathematical view of the vector.
    pub open spec fn v(self) -> V3 {
        V3 { x: self.x as int, y: self.y as int, z: self.z as int }
    }

    /// The zero vector.
    pub fn blank() -> (r: Vec3)
        ensures
            r.v() == (V3 { x: 0, y: 0, z: 0 }),
    {
        Vec3 { x: 0, y: 0, z: 0 }
    }

    pub fn new(x: i64, y: i64, z: i64) -> (r: Vec3)
        ensures
            r.v() == (V3 { x: x as int, y: y as int, z: z as int }),
    {
        Vec3 { x, y, z }
    }

    pub fn x(&self) -> (r: i64)
        ensures
            r == self.x,
    {
        self.x
    }

    pub fn y(&self) -> (r: i64)
        ensures
            r == self.y,
    {
        self.y
    }

    pub fn z(&self) -> (r: i64)
        ensures
            r == self.z,
    {
        self.z
    }

    /// The component along axis `n`: 1 is y, 2 is z, anything else is x (the
    /// same convention the bounding boxes use).
    pub fn axis(&self, n: usize) -> (r: i64)
        ensures
            r == if n == 1 {
                self.y
            } else if n == 2 {
                self.z
            } else {
                self.x
            },
    {
        if n == 1 {
            self.y
        } else if n == 2 {
            self.z
        } else {
            self.x
        }
    }

    pub fn add(self, rhs: Vec3) -> (r: Vec3)
        requires
            i64::MIN as int <= self.v().x + rhs.v().x <= i64::MAX as int,
            i64::MIN as int <= self.v().y + rhs.v().y <= i64::MAX as int,
            i64::MIN as int <= self.v().z + rhs.v().z <= i64::MAX as int,
        ensures
            r.v() == add_s(self.v(), rhs.v()),
    {
        Vec3 { x: self.x + rhs.x, y: self.y + rhs.y, z: self.z + rhs.z }
    }

    pub fn sub(self, rhs: Vec3) -> (r: Vec3)
        requires
            i64::MIN as int <= self.v().x - rhs.v().x <= i64::MAX as int,
            i64::MIN as int <= self.v().y - rhs.v().y <= i64::MAX as int,
            i64::MIN as int <= self.v().z - rhs.v().z <= i64::MAX as int,
        ensures
            r.v() == sub_s(self.v(), rhs.v()),
    {
        Vec3 { x: self.x - rhs.x, y: self.y - rhs.y, z: self.z - rhs.z }
    }

    pub fn neg(self) -> (r: Vec3)
        requires
            self.v().x > i64::MIN as int,
            self.v().y > i64::MIN as int,
            self.v().z > i64::MIN as int,
        ensures
            r.v() == neg_s(self.v()),
    {
        Vec3 { x: -self.x, y: -self.y, z: -self.z }
    }

    /// Component-wise fixed-point product.
    pub fn mul(self, rhs: Vec3) -> (r: Vec3)
        requires
            iabs(fx_mul_s(self.v().x, rhs.v().x)) <= i64::MAX as int,
            iabs(fx_mul_s(self.v().y, rhs.v().y)) <= i64::MAX as int,
            iabs(fx_mul_s(self.v().z, rhs.v().z)) <= i64::MAX as int,
        ensures
            r.v() == mul_s(self.v(), rhs.v()),
    {
        Vec3 {
            x: crate::fixed::fx_mul(self.x, rhs.x),
            y: crate::fixed::fx_mul(self.y, rhs.y),
            z: crate::fixed::fx_mul(self.z, rhs.z),
        }
    }

    /// Scaling by a fixed-point scalar.
    pub fn scale(self, t: i64) -> (r: Vec3)
        requires
            iabs(fx_mul_s(self.v().x, t as int)) <= i64::MAX as int,
            iabs(fx_mul_s(self.v().y, t as int)) <= i64::MAX as int,
            iabs(fx_mul_s(self.v().z, t as int)) <= i64::MAX as int,
        ensures
            r.v() == scale_s(self.v(), t as int),
    {
        Vec3 {
            x: crate::fixed::fx_mul(self.x, t),
            y: crate::fixed::fx_mul(self.y, t),
            z: crate::fixed::fx_mul(self.z, t),
        }
    }

    /// Division by a nonzero fixed-point scalar.
    pub fn div(self, t: i64) -> (r: Vec3)
        requires
            t != 0,
            iabs(fx_div_s(self.v().x, t as int)) <= i64::MAX as int,
            iabs(fx_div_s(self.v().y, t as int)) <= i64::MAX as int,
            iabs(fx_div_s(self.v().z, t as int)) <= i64::MAX as int,
        ensures
            r.v() == div_s(self.v(), t as int),
    {
        Vec3 {
            x: crate::fixed::fx_div(self.x, t),
            y: crate::fixed::fx_div(self.y, t),
            z: crate::fixed::fx_div(self.z, t),
        }
    }

    /// The fixed-point dot product, truncated once from the raw sum.
    pub fn dot(u: &Vec3, v: &Vec3) -> (r: i64)
        requires
            bounded_s(u.v(), 0x40_0000_0000),
            bounded_s(v.v(), 0x40_0000_0000),
        ensures
            r as int == dot_s(u.v(), v.v()),
    {
        proof {
            lemma_dot_bound(u.v(), v.v(), 0x40_0000_0000, 0x40_0000_0000);
            assert(iabs(u.v().x * v.v().x) <= 0x40_0000_0000 * 0x40_0000_0000
                && iabs(u.v().y * v.v().y) <= 0x40_0000_0000 * 0x40_0000_0000
                && iabs(u.v().z * v.v().z) <= 0x40_0000_0000 * 0x40_0000_0000)
                by (nonlinear_arith)
                requires
                    bounded_s(u.v(), 0x40_0000_0000),
                    bounded_s(v.v(), 0x40_0000_0000),
            ;
        }
        let p: i128 = (u.x as i128) * (v.x as i128) + (u.y as i128) * (v.y as i128) + (u.z as i128)
            * (v.z as i128);
        let q: i128 = tdiv_scale(p);
        q as i64
    }

    pub fn length_squared(&self) -> (r: i64)
        requires
            bounded_s(self.v(), 0x40_0000_0000),
        ensures
            r as int == len_sq_s(self.v()),
            r >= 0,
    {
        proof {
            lemma_dot_self_nonneg(self.v());
        }
        Vec3::dot(self, self)
    }

    /// The fixed-point Euclidean length: the rounded-down root of the
    /// truncated squared length.
    pub fn length(&self) -> (r: i64)
        requires
            bounded_s(self.v(), 0x4000_0000),
        ensures
            r as int == len_s(self.v()),
            r >= 0,
    {
        proof {
            lemma_dot_bound(self.v(), self.v(), 0x4000_0000, 0x4000_0000);
            lemma_dot_self_nonneg(self.v());
        }
        let ls: i64 = self.length_squared();
        crate::fixed::fx_sqrt(ls)
    }

    /// True exactly on the zero vector: a near-zero threshold below one
    /// fixed-point step is matched by nothing but zero itself.
    pub fn near_zero(&self) -> (r: bool)
        ensures
            r == (self.v() == (V3 { x: 0, y: 0, z: 0 })),
    {
        self.x == 0 && self.y == 0 && self.z == 0
    }

    pub fn cross(u: Vec3, v: Vec3) -> (r: Vec3)
        requires
            bounded_s(u.v(), 0x40_0000_0000),
            bounded_s(v.v(), 0x40_0000_0000),
        ensures
            r.v() == cross_s(u.v(), v.v()),
    {
        proof {
            lemma_cross_terms(u.v(), v.v());
        }
        let x: i128 = tdiv_scale(
            (u.y as i128) * (v.z as i128) - (u.z as i128) * (v.y as i128),
        );
        let y: i128 = tdiv_scale(
            (u.z as i128) * (v.x as i128) - (u.x as i128) * (v.z as i128),
        );
        let z: i128 = tdiv_scale(
            (u.x as i128) * (v.y as i128) - (u.y as i128) * (v.x as i128),
        );
        Vec3 { x: x as i64, y: y as i64, z: z as i64 }
    }

    /// The vector rescaled to unit length. The caller keeps the input away
    /// from zero; division by a zero length would be undefined.
    pub fn unit_vector(v: Vec3) -> (r: Vec3)
        requires
            bounded_s(v.v(), 0x4000_0000),
            len_sq_s(v.v()) >= 1,
        ensures
            r.v() == unit_s(v.v()),
            bounded_s(r.v(), 2 * SCALE as int),
    {
        let ls: i64 = v.length_squared();
        proof {
            lemma_dot_bound(v.v(), v.v(), 0x4000_0000, 0x4000_0000);
            lemma_dot_self_nonneg(v.v());
            assert(ls as int * SCALE as int <= u64::MAX as int);
            lemma_unit_component_bound(v.v());
        }
        let len: i64 = crate::fixed::fx_sqrt(ls);
        Vec3 { x: crate::fixed::fx_div(v.x, len), y: crate::fixed::fx_div(v.y, len), z: crate::fixed::fx_div(v.z, len) }
    }

    /// A vector with each component drawn uniformly from `[0, 1)`.
    pub fn random() -> (r: Vec3)
        ensures
            0 <= r.v().x < SCALE as int,
            0 <= r.v().y < SCALE as int,
            0 <= r.v().z < SCALE as int,
    {
        Vec3 { x: random_scalar(), y: random_scalar(), z: random_scalar() }
    }

    /// A vector with each component drawn uniformly from `[min, max)`.
    pub fn bounded_random(min: i64, max: i64) -> (r: Vec3)
        requires
            min <= max,
            max as int - min as int <= i64::MAX as int,
        ensures
            bounded_s(r.v(), if iabs(min as int) >= iabs(max as int) {
                iabs(min as int)
            } else {
                iabs(max as int)
            }),
            min <= r.v().x <= max,
            min <= r.v().y <= max,
            min <= r.v().z <= max,
    {
        Vec3 {
            x: bounded_random_scalar(min, max),
            y: bounded_random_scalar(min, max),
            z: bounded_random_scalar(min, max),
        }
    }

    /// A random point strictly inside the unit disk of the xy-plane, found by
    /// rejection; after a bounded number of failed draws it falls back to the
    /// origin, which also lies in the disk.
    pub fn random_in_unit_disk() -> (r: Vec3)
        ensures
            r.v().z == 0,
            bounded_s(r.v(), SCALE as int),
            len_sq_s(r.v()) < SCALE as int,
    {
        let mut tries: u64 = 0;
        while tries < 64
            decreases 64 - tries,
        {
            let p: Vec3 = Vec3 {
                x: bounded_random_scalar(-SCALE, SCALE),
                y: bounded_random_scalar(-SCALE, SCALE),
                z: 0,
            };
            if p.length_squared() < SCALE {
                return p;
            }
            tries = tries + 1;
        }
        Vec3::blank()
    }

    /// A random direction of unit length, by rejection from the unit ball;
    /// draws whose length could not be normalised (too short for one
    /// fixed-point step, or longer than the ball) are rejected, and after a
    /// bounded number of failures a fixed unit direction is returned. Either
    /// way the result is the normalisation of some point of the ball.
    pub fn random_unit_vector() -> (r: Vec3)
        ensures
            bounded_s(r.v(), 2 * SCALE as int),
            exists|p: V3|
                bounded_s(p, SCALE as int) && 1 <= len_sq_s(p) <= SCALE as int && r.v() == #[trigger] unit_s(
                    p,
                ),
    {
        let mut tries: u64 = 0;
        while tries < 64
            decreases 64 - tries,
        {
            let p: Vec3 = Vec3::bounded_random(-SCALE, SCALE);
            let lensq: i64 = p.length_squared();
            if 1 <= lensq && lensq <= SCALE {
                let r = Vec3::unit_vector(p);
                proof {
                    assert(r.v() == unit_s(p.v()));
                }
                return r;
            }
            tries = tries + 1;
        }
        let r = Vec3 { x: SCALE, y: 0, z: 0 };
        proof {
            lemma_axis_unit();
            assert(r.v() == unit_s(V3 { x: SCALE as int, y: 0, z: 0 }));
        }
        r
    }

    /// A random unit direction on the hemisphere around `normal`: the side
    /// with non-negative dot product.
    pub fn random_on_hemisphere(normal: &Vec3) -> (r: Vec3)
        requires
            bounded_s(normal.v(), 0x40_0000_0000),
        ensures
            bounded_s(r.v(), 2 * SCALE as int),
            dot_s(r.v(), normal.v()) >= 0,
    {
        let on_unit_sphere: Vec3 = Vec3::random_unit_vector();
        let d: i64 = Vec3::dot(&on_unit_sphere, normal);
        if d > 0 {
            proof {
                lemma_dot_bound(on_unit_sphere.v(), normal.v(), 2 * SCALE as int, 0x40_0000_0000);
            }
            on_unit_sphere
        } else {
            proof {
                lemma_neg_dot(on_unit_sphere.v(), normal.v());
            }
            on_unit_sphere.neg()
        }
    }

    /// Refraction of the unit direction `uv` at a surface with normal `n` and
    /// relative refraction index `etai_over_etat`.
    pub fn refract(uv: &Vec3, n: &Vec3, etai_over_etat: i64) -> (r: Vec3)
        requires
            bounded_s(uv.v(), 2 * SCALE as int),
            bounded_s(n.v(), 2 * SCALE as int),
            1 <= etai_over_etat as int <= 16 * SCALE as int,
        ensures
            r.v() == refract_s(uv.v(), n.v(), etai_over_etat as int),
            bounded_s(r.v(), 0x4000_0000),
    {
        proof {
            lemma_neg_dot(uv.v(), n.v());
        }
        let nu: Vec3 = uv.neg();
        proof {
            lemma_dot_bound(nu.v(), n.v(), 131072, 131072);
            assert(3 * (131072int * 131072) / 65536 == 786432int);
        }
        let d: i64 = Vec3::dot(&nu, n);
        let cos_theta: i64 = if d > SCALE {
            SCALE
        } else {
            d
        };
        proof {
            lemma_fx_mul_bound(n.v().x, cos_theta as int, 131072, 786432);
            lemma_fx_mul_bound(n.v().y, cos_theta as int, 131072, 786432);
            lemma_fx_mul_bound(n.v().z, cos_theta as int, 131072, 786432);
            assert(131072int * 786432 / 65536 == 1572864int);
        }
        let cn: Vec3 = n.scale(cos_theta);
        let sum: Vec3 = uv.add(cn);
        proof {
            lemma_fx_mul_bound(sum.v().x, etai_over_etat as int, 1703936, 1048576);
            lemma_fx_mul_bound(sum.v().y, etai_over_etat as int, 1703936, 1048576);
            lemma_fx_mul_bound(sum.v().z, etai_over_etat as int, 1703936, 1048576);
            assert(1703936int * 1048576 / 65536 == 27262976int);
        }
        let r_out_perp: Vec3 = sum.scale(etai_over_etat);
        proof {
            lemma_dot_bound(r_out_perp.v(), r_out_perp.v(), 27262976, 27262976);
            lemma_dot_self_nonneg(r_out_perp.v());
            assert(3 * (27262976int * 27262976) / 65536 == 34024194048int);
        }
        let lsq: i64 = r_out_perp.length_squared();
        let k: i64 = if SCALE - lsq >= 0 {
            SCALE - lsq
        } else {
            lsq - SCALE
        };
        proof {
            assert(k as int * SCALE as int <= u64::MAX as int);
        }
        let sq: i64 = crate::fixed::fx_sqrt(k);
        proof {
            crate::fixed::lemma_sqrt_floor(k as int * SCALE as int);
            assert(sq as int <= 0x800_0000) by {
                if sq as int > 0x800_0000 {
                    assert(sq as int * sq as int > 0x800_0000 * 0x800_0000) by (nonlinear_arith)
                        requires
                            sq as int > 0x800_0000,
                    ;
                }
            };
            lemma_fx_mul_bound(n.v().x, -(sq as int), 131072, 0x800_0000);
            lemma_fx_mul_bound(n.v().y, -(sq as int), 131072, 0x800_0000);
            lemma_fx_mul_bound(n.v().z, -(sq as int), 131072, 0x800_0000);
            assert(131072int * 0x800_0000 / 65536 == 0x1000_0000int);
        }
        let r_out_parallel: Vec3 = n.scale(-sq);
        r_out_perp.add(r_out_parallel)
    }

    /// Mirror reflection of `v` about the normal `n`.
    pub fn reflect(v: &Vec3, n: &Vec3) -> (r: Vec3)
        requires
            bounded_s(v.v(), 0x4000_0000),
            bounded_s(n.v(), 2 * SCALE as int),
        ensures
            r.v() == reflect_s(v.v(), n.v()),
            bounded_s(r.v(), 0x2_0000_0000_0000),
    {
        proof {
            lemma_reflect_bounds(v.v(), n.v());
        }
        let d: i64 = Vec3::dot(v, n);
        let scaled: Vec3 = n.scale(2 * d);
        v.sub(scaled)
    }
}

/// Cross-product terms of two componentwise-bounded vectors fit comfortably.
proof fn lemma_cross_terms(a: V3, b: V3)
    requires
        bounded_s(a, 0x40_0000_0000),
        bounded_s(b, 0x40_0000_0000),
    ensures
        iabs(a.y * b.z) <= 0x40_0000_0000 * 0x40_0000_0000,
        iabs(a.z * b.y) <= 0x40_0000_0000 * 0x40_0000_0000,
        iabs(a.z * b.x) <= 0x40_0000_0000 * 0x40_0000_0000,
        iabs(a.x * b.z) <= 0x40_0000_0000 * 0x40_0000_0000,
        iabs(a.x * b.y) <= 0x40_0000_0000 * 0x40_0000_0000,
        iabs(a.y * b.x) <= 0x40_0000_0000 * 0x40_0000_0000,
        iabs(a.y * b.z - a.z * b.y) <= 2 * (0x40_0000_0000 * 0x40_0000_0000),
        iabs(a.z * b.x - a.x * b.z) <= 2 * (0x40_0000_0000 * 0x40_0000_0000),
        iabs(a.x * b.y - a.y * b.x) <= 2 * (0x40_0000_0000 * 0x40_0000_0000),
        iabs(tdiv(a.y * b.z - a.z * b.y, SCALE as int)) <= i64::MAX as int,
        iabs(tdiv(a.z * b.x - a.x * b.z, SCALE as int)) <= i64::MAX as int,
        iabs(tdiv(a.x * b.y - a.y * b.x, SCALE as int)) <= i64::MAX as int,
{
    assert(iabs(a.y * b.z) <= 0x40_0000_0000 * 0x40_0000_0000 && iabs(a.z * b.y) <= 0x40_0000_0000
        * 0x40_0000_0000 && iabs(a.z * b.x) <= 0x40_0000_0000 * 0x40_0000_0000 && iabs(a.x * b.z)
        <= 0x40_0000_0000 * 0x40_0000_0000 && iabs(a.x * b.y) <= 0x40_0000_0000 * 0x40_0000_0000
        && iabs(a.y * b.x) <= 0x40_0000_0000 * 0x40_0000_0000) by (nonlinear_arith)
        requires
            bounded_s(a, 0x40_0000_0000),
            bounded_s(b, 0x40_0000_0000),
    ;
    lemma_tdiv_mag(a.y * b.z - a.z * b.y, SCALE as int, 2int * (0x40_0000_0000 * 0x40_0000_0000));
    lemma_tdiv_mag(a.z * b.x - a.x * b.z, SCALE as int, 2int * (0x40_0000_0000 * 0x40_0000_0000));
    lemma_tdiv_mag(a.x * b.y - a.y * b.x, SCALE as int, 2int * (0x40_0000_0000 * 0x40_0000_0000));
}

/// The fixed unit axis is its own normalisation: its squared length is one
/// unit exactly, whose root is again one unit.
proof fn lemma_axis_unit()
    ensures
        unit_s(V3 { x: SCALE as int, y: 0, z: 0 }) == (V3 { x: SCALE as int, y: 0, z: 0 }),
        len_sq_s(V3 { x: SCALE as int, y: 0, z: 0 }) == SCALE as int,
{
    let a = V3 { x: SCALE as int, y: 0, z: 0 };
    crate::fixed::lemma_tdiv_exact(SCALE as int);
    assert(dot_raw_s(a, a) == SCALE as int * SCALE as int);
    assert(len_sq_s(a) == SCALE as int);
    assert((65536int + 1) * (65536int + 1) > 65536int * 65536) by (nonlinear_arith);
    crate::fixed::lemma_sqrt_floor_unique(65536int * 65536, 65536int);
    assert(len_s(a) == SCALE as int);
    crate::fixed::lemma_tdiv_exact(0);
    assert(fx_div_s(0, SCALE as int) == 0);
    assert(fx_div_s(SCALE as int, SCALE as int) == SCALE as int);
}

/// Negating one side negates the dot product exactly (truncation toward zero
/// is symmetric).
pub proof fn lemma_neg_dot(a: V3, b: V3)
    ensures
        dot_s(neg_s(a), b) == -dot_s(a, b),
{
    assert(dot_raw_s(neg_s(a), b) == -dot_raw_s(a, b)) by (nonlinear_arith);
}

/// Components of a normalised vector stay within two units: the vector's
/// length bounds each component, and the computed length is close enough to
/// the exact one once the squared length is at least one step.
proof fn lemma_unit_component_bound(a: V3)
    requires
        bounded_s(a, 0x4000_0000),
        len_sq_s(a) >= 1,
    ensures
        len_s(a) >= 256,
        iabs(fx_div_s(a.x, len_s(a))) <= 2 * SCALE as int,
        iabs(fx_div_s(a.y, len_s(a))) <= 2 * SCALE as int,
        iabs(fx_div_s(a.z, len_s(a))) <= 2 * SCALE as int,
{
    let raw = dot_raw_s(a, a);
    let ls = len_sq_s(a);
    let n = ls * SCALE as int;
    let len = sqrt_floor(n);
    lemma_dot_self_nonneg(a);
    assert(ls == raw / SCALE as int);
    vstd::arithmetic::div_mod::lemma_fundamental_div_mod(raw, SCALE as int);
    vstd::arithmetic::div_mod::lemma_mod_division_less_than_divisor(raw, SCALE as int);
    // n is within one SCALE of raw, on the low side.
    assert(n <= raw) by (nonlinear_arith)
        requires
            raw == SCALE as int * ls + raw % SCALE as int,
            n == ls * SCALE as int,
            raw % SCALE as int >= 0,
    ;
    assert(n > raw - SCALE as int) by (nonlinear_arith)
        requires
            raw == SCALE as int * ls + raw % (SCALE as int),
            n == ls * SCALE as int,
            (raw % (SCALE as int)) < SCALE as int,
    ;
    lemma_sqrt_floor(n);
    assert(len >= 256) by {
        if len < 256 {
            assert((len + 1) * (len + 1) <= 256 * 256) by (nonlinear_arith)
                requires
                    0 <= len + 1 <= 256,
            ;
            assert(n >= SCALE as int) by (nonlinear_arith)
                requires
                    ls >= 1,
                    n == ls * SCALE as int,
            ;
        }
    };
    lemma_unit_axis(a.x, raw, n, len);
    lemma_unit_axis(a.y, raw, n, len);
    lemma_unit_axis(a.z, raw, n, len);
}

/// One axis of the normalisation bound: a component whose square is at most
/// the raw squared length divides by the computed length into `[-2, 2]` units.
proof fn lemma_unit_axis(c: int, raw: int, n: int, len: int)
    requires
        c * c <= raw,
        raw - (SCALE as int) < n <= raw,
        len == sqrt_floor(n),
        n >= 0,
        len >= 256,
    ensures
        iabs(fx_div_s(c, len)) <= 2 * SCALE as int,
{
    lemma_sqrt_floor(n);
    assert(iabs(c) <= 2 * len) by {
        if iabs(c) > 2 * len {
            let m: int = iabs(c);
            assert(c * c == m * m) by (nonlinear_arith)
                requires
                    m == c || m == -c,
            ;
            assert(m * m >= (2 * len + 1) * (2 * len + 1)) by (nonlinear_arith)
                requires
                    m >= 2 * len + 1,
                    len >= 0,
            ;
            assert(raw <= (len + 1) * (len + 1) + SCALE as int - 1);
            assert((2 * len + 1) * (2 * len + 1) > (len + 1) * (len + 1) + SCALE as int - 1)
                by (nonlinear_arith)
                requires
                    len >= 256,
                    SCALE as int == 65536,
            ;
        }
    };
    assert(iabs(c * SCALE) <= (2 * len) * SCALE as int) by (nonlinear_arith)
        requires
            iabs(c) <= 2 * len,
            SCALE as int > 0,
    ;
    assert(iabs(fx_div_s(c, len)) == iabs(c * SCALE) / len);
    assert((2 * len) * SCALE as int == len * (2 * SCALE as int)) by (nonlinear_arith);
    vstd::arithmetic::div_mod::lemma_multiply_divide_le(iabs(c * SCALE), len, 2 * SCALE as int);
}

/// Bounds discharging the arithmetic inside `reflect`.
proof fn lemma_reflect_bounds(v: V3, n: V3)
    requires
        bounded_s(v, 0x4000_0000),
        bounded_s(n, 2 * SCALE as int),
    ensures
        iabs(dot_s(v, n)) <= 0x1_8000_0000,
        iabs(fx_mul_s(n.x, 2 * dot_s(v, n))) <= 0x1_0000_0000_0000,
        iabs(fx_mul_s(n.y, 2 * dot_s(v, n))) <= 0x1_0000_0000_0000,
        iabs(fx_mul_s(n.z, 2 * dot_s(v, n))) <= 0x1_0000_0000_0000,
        bounded_s(reflect_s(v, n), 0x2_0000_0000_0000),
{
    lemma_dot_bound(v, n, 0x4000_0000, 131072);
    assert(3 * (0x4000_0000int * 131072) / 65536 == 0x1_8000_0000int);
    let d = dot_s(v, n);
    lemma_fx_mul_bound(n.x, 2 * d, 131072, 0x3_0000_0000);
    lemma_fx_mul_bound(n.y, 2 * d, 131072, 0x3_0000_0000);
    lemma_fx_mul_bound(n.z, 2 * d, 131072, 0x3_0000_0000);
    assert(131072int * 0x3_0000_0000 / 65536 == 0x6_0000_0000int);
}

} // verus!
