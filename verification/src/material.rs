//! The scattering model: diffuse, fuzzed-reflective and refractive surfaces.
//! The variant set is closed, so the capability is a tagged sum with one
//! dispatch method.
use crate::color::Color;
use crate::fixed::{fx_div_s, fx_mul_s, fx_sqrt_s, iabs, lemma_sqrt_floor, SCALE};
use crate::hittable::{hr_wf, HitRecord};
use crate::ray::{Ray, RAY_MAX};
use crate::util::random_scalar;
use crate::vec3::{
    add_s, bounded_s, dot_s, lemma_dot_bound, lemma_fx_div_bound, lemma_fx_mul_bound,
    lemma_neg_dot, len_sq_s, refract_s, reflect_s, scale_s, unit_s, Vec3, V3,
};
use vstd::prelude::*;

verus! {

/// The direction a diffuse scatter can produce: the normal nudged by some
/// drawn unit-scale vector; the normal itself when the nudge cancels it; a
/// fixed unit axis when even the normal is zero.
pub open spec fn lambertian_dir(rec: HitRecord, dir: V3) -> bool {
    exists|u: V3|
        bounded_s(u, 2 * SCALE as int) && (#[trigger] add_s(rec.normal.v(), u) == dir || (add_s(
            rec.normal.v(),
            u,
        ) == (V3 { x: 0, y: 0, z: 0 }) && rec.normal.v() != (V3 { x: 0, y: 0, z: 0 }) && dir
            == rec.normal.v()) || (add_s(rec.normal.v(), u) == (V3 { x: 0, y: 0, z: 0 })
            && rec.normal.v() == (V3 { x: 0, y: 0, z: 0 }) && dir == (V3 {
            x: 0,
            y: SCALE as int,
            z: 0,
        })))
}

/// The direction a fuzzed mirror scatter produces: the normalised reflection
/// nudged by `fuzz` times some drawn unit-scale vector.
pub open spec fn metal_dir(m: Metal, r_in: Ray, rec: HitRecord, dir: V3) -> bool {
    exists|u: V3|
        bounded_s(u, 2 * SCALE as int) && dir == add_s(
            unit_s(reflect_s(r_in.direction.v(), rec.normal.v())),
            #[trigger] scale_s(u, m.fuzz as int),
        )
}

/// The direction a dielectric scatter produces: mirror reflection or Snell
/// refraction of the normalised incoming direction, with the index inverted
/// on a front face; or the direction unchanged when it is too short to
/// normalise.
pub open spec fn dielectric_out(d: Dielectric, r_in: Ray, rec: HitRecord, dir: V3) -> bool {
    let ud = unit_s(r_in.direction.v());
    let ri = if rec.front_face {
        fx_div_s(SCALE as int, d.refraction_index as int)
    } else {
        d.refraction_index as int
    };
    ||| dir == reflect_s(ud, rec.normal.v())
    ||| dir == refract_s(ud, rec.normal.v(), ri)
    ||| (len_sq_s(r_in.direction.v()) < 1 && dir == r_in.direction.v())
}

/// Schlick's approximation of the reflectance at incidence cosine `cosine`
/// for relative refraction index `ri`.
pub open spec fn reflectance_s(cosine: int, ri: int) -> int {
    let r0a = fx_div_s(SCALE as int - ri, SCALE as int + ri);
    let r0 = fx_mul_s(r0a, r0a);
    let omc = SCALE as int - cosine;
    let p2 = fx_mul_s(omc, omc);
    let p4 = fx_mul_s(p2, p2);
    let p5 = fx_mul_s(p4, omc);
    r0 + fx_mul_s(SCALE as int - r0, p5)
}

#[derive(Clone, Copy, PartialEq, Eq, Structural, Debug)]
pub struct Lambertian {
    pub albedo: Color,
}

#[derive(Clone, Copy, PartialEq, Eq, Structural, Debug)]
pub struct Metal {
    pub albedo: Color,
    pub fuzz: i64,
}

#[derive(Clone, Copy, PartialEq, Eq, Structural, Debug)]
pub struct Dielectric {
    pub refraction_index: i64,
}

/// The closed set of surface materials.
#[derive(Clone, Copy, PartialEq, Eq, Structural, Debug)]
pub enum Material {
    Lambertian(Lambertian),
    Metal(Metal),
    Dielectric(Dielectric),
}

/// A color whose components lie in `[0, 1]`.
pub open spec fn color_wf(c: Color) -> bool {
    0 <= c.v().x <= SCALE as int && 0 <= c.v().y <= SCALE as int && 0 <= c.v().z <= SCALE as int
}

/// A usable material: albedo inside the unit cube, fuzz inside `[0, 1]`, and
/// a refraction index within a physically generous range.
pub open spec fn mat_wf(m: Material) -> bool {
    match m {
        Material::Lambertian(l) => color_wf(l.albedo),
        Material::Metal(me) => color_wf(me.albedo) && 0 <= me.fuzz <= SCALE,
        Material::Dielectric(d) => SCALE as int / 16 <= d.refraction_index as int <= 16 * (
        SCALE as int),
    }
}

impl Lambertian {
    pub fn new(albedo: Color) -> (r: Lambertian)
        ensures
            r.albedo == albedo,
    {
        Lambertian { albedo }
    }

    /// Diffuse scattering: the new direction is the normal nudged by a random
    /// unit vector, falling back to the normal itself when the nudge cancels
    /// it; the ray is never absorbed.
    pub fn scatter(&self, r_in: &Ray, rec: &HitRecord, attenuation: &mut Color, scattered: &mut Ray) -> (b:
        bool)
        requires
            hr_wf(*rec),
        ensures
            b == true,
            *final(attenuation) == self.albedo,
            final(scattered).origin == rec.p,
            final(scattered).time == r_in.time,
            bounded_s(final(scattered).direction.v(), 4 * SCALE as int),
            final(scattered).direction.v() != (V3 { x: 0, y: 0, z: 0 }),
            lambertian_dir(*rec, final(scattered).direction.v()),
    {
        let ruv: Vec3 = Vec3::random_unit_vector();
        let mut scatter_direction: Vec3 = rec.normal.add(ruv);
        if scatter_direction.near_zero() {
            scatter_direction = rec.normal;
        }
        if scatter_direction.near_zero() {
            scatter_direction = Vec3::new(0, SCALE, 0);
        }
        proof {
            assert(add_s(rec.normal.v(), ruv.v()) == scatter_direction.v() || (add_s(
                rec.normal.v(),
                ruv.v(),
            ) == (V3 { x: 0, y: 0, z: 0 }) && rec.normal.v() != (V3 { x: 0, y: 0, z: 0 })
                && scatter_direction.v() == rec.normal.v()) || (add_s(rec.normal.v(), ruv.v()) == (
            V3 { x: 0, y: 0, z: 0 }) && rec.normal.v() == (V3 { x: 0, y: 0, z: 0 })
                && scatter_direction.v() == (V3 { x: 0, y: SCALE as int, z: 0 })));
            assert(lambertian_dir(*rec, scatter_direction.v()));
        }
        *scattered = Ray::new_timed(rec.p, scatter_direction, r_in.time);
        *attenuation = self.albedo;
        true
    }
}

impl Metal {
    pub fn new(albedo: Color, fuzz: i64) -> (r: Metal)
        ensures
            r.albedo == albedo,
            r.fuzz == fuzz,
    {
        Metal { albedo, fuzz }
    }

    /// Fuzzed mirror scattering: reflect, normalise, nudge by `fuzz` times a
    /// random unit vector; absorb when the result points into the surface (or
    /// when the reflection is too degenerate to normalise).
    pub fn scatter(&self, r_in: &Ray, rec: &HitRecord, attenuation: &mut Color, scattered: &mut Ray) -> (b:
        bool)
        requires
            hr_wf(*rec),
            bounded_s(r_in.direction.v(), RAY_MAX as int),
            0 <= self.fuzz <= SCALE,
        ensures
            b ==> *final(attenuation) == self.albedo,
            b ==> final(scattered).origin == rec.p,
            b ==> final(scattered).time == r_in.time,
            b ==> dot_s(final(scattered).direction.v(), rec.normal.v()) > 0,
            b ==> bounded_s(final(scattered).direction.v(), 4 * SCALE as int),
            b ==> metal_dir(*self, *r_in, *rec, final(scattered).direction.v()),
            b && self.fuzz == 0 ==> final(scattered).direction.v() == unit_s(
                reflect_s(r_in.direction.v(), rec.normal.v()),
            ),
            !b ==> len_sq_s(reflect_s(r_in.direction.v(), rec.normal.v())) < 1 || !bounded_s(
                reflect_s(r_in.direction.v(), rec.normal.v()),
                0x4000_0000,
            ) || dot_s(final(scattered).direction.v(), rec.normal.v()) <= 0,
    {
        let reflected: Vec3 = Vec3::reflect(&r_in.direction, &rec.normal);
        proof {
            lemma_ray_reflect_bound(r_in.direction.v(), rec.normal.v());
        }
        if reflected.x > 0x4000_0000 || reflected.x < -0x4000_0000 || reflected.y > 0x4000_0000
            || reflected.y < -0x4000_0000 || reflected.z > 0x4000_0000 || reflected.z
            < -0x4000_0000 {
            return false;
        }
        if reflected.length_squared() < 1 {
            return false;
        }
        let unit: Vec3 = Vec3::unit_vector(reflected);
        let ruv: Vec3 = Vec3::random_unit_vector();
        proof {
            lemma_fx_mul_bound(ruv.v().x, self.fuzz as int, 131072, 65536);
            lemma_fx_mul_bound(ruv.v().y, self.fuzz as int, 131072, 65536);
            lemma_fx_mul_bound(ruv.v().z, self.fuzz as int, 131072, 65536);
            assert(131072int * 65536 / 65536 == 131072int);
        }
        let nudge: Vec3 = ruv.scale(self.fuzz);
        let dir: Vec3 = unit.add(nudge);
        proof {
            assert(nudge.v() == scale_s(ruv.v(), self.fuzz as int));
            assert(dir.v() == add_s(
                unit_s(reflect_s(r_in.direction.v(), rec.normal.v())),
                scale_s(ruv.v(), self.fuzz as int),
            ));
            assert(metal_dir(*self, *r_in, *rec, dir.v()));
            if self.fuzz == 0 {
                assert(ruv.v().x * 0 == 0 && ruv.v().y * 0 == 0 && ruv.v().z * 0 == 0)
                    by (nonlinear_arith);
                assert(scale_s(ruv.v(), 0) == (V3 { x: 0, y: 0, z: 0 }));
                assert(dir.v() == unit_s(reflect_s(r_in.direction.v(), rec.normal.v())));
            }
        }
        *scattered = Ray::new_timed(rec.p, dir, r_in.time);
        *attenuation = self.albedo;
        proof {
            lemma_dot_bound(dir.v(), rec.normal.v(), 0x40_0000_0000, 0x40_0000_0000);
        }
        Vec3::dot(&scattered.direction, &rec.normal) > 0
    }
}

impl Dielectric {
    pub fn new(refraction_index: i64) -> (r: Dielectric)
        ensures
            r.refraction_index == refraction_index,
    {
        Dielectric { refraction_index }
    }

    /// Schlick's reflectance approximation.
    pub fn reflectance(cosine: i64, refraction_index: i64) -> (r: i64)
        requires
            iabs(cosine as int) <= SCALE as int,
            1 <= refraction_index as int <= 16 * (SCALE as int),
        ensures
            r as int == reflectance_s(cosine as int, refraction_index as int),
    {
        proof {
            lemma_fx_div_bound(
                SCALE as int - refraction_index as int,
                SCALE as int + refraction_index as int,
                1048576,
            );
            assert(1048576int * 65536 == 0x10_0000_0000int);
        }
        let r0a: i64 = crate::fixed::fx_div(SCALE - refraction_index, SCALE + refraction_index);
        proof {
            lemma_fx_mul_bound(r0a as int, r0a as int, 0x10_0000_0000, 0x10_0000_0000);
            assert(0x10_0000_0000int * 0x10_0000_0000 / (SCALE as int) == 0x100_0000_0000_0000int);
        }
        let r0: i64 = crate::fixed::fx_mul(r0a, r0a);
        let omc: i64 = SCALE - cosine;
        proof {
            lemma_fx_mul_bound(omc as int, omc as int, 131072, 131072);
            assert(131072int * 131072 / 65536 == 262144int);
        }
        let p2: i64 = crate::fixed::fx_mul(omc, omc);
        proof {
            lemma_fx_mul_bound(p2 as int, p2 as int, 262144, 262144);
            assert(262144int * 262144 / 65536 == 1048576int);
        }
        let p4: i64 = crate::fixed::fx_mul(p2, p2);
        proof {
            lemma_fx_mul_bound(p4 as int, omc as int, 1048576, 131072);
            assert(1048576int * 131072 / 65536 == 2097152int);
        }
        let p5: i64 = crate::fixed::fx_mul(p4, omc);
        proof {
            lemma_fx_mul_bound(SCALE as int - r0 as int, p5 as int, 0x200_0000_0000_0000, 2097152);
            assert(0x200_0000_0000_0000int * 2097152 / 65536 == 0x4000_0000_0000_0000int);
        }
        r0 + crate::fixed::fx_mul(SCALE - r0, p5)
    }

    /// Refractive scattering: always scatters; reflects when Snell's law
    /// forbids refraction or when a uniform draw falls below the Schlick
    /// reflectance, and refracts otherwise. A direction too degenerate to
    /// normalise is passed through unchanged.
    pub fn scatter(&self, r_in: &Ray, rec: &HitRecord, attenuation: &mut Color, scattered: &mut Ray) -> (b:
        bool)
        requires
            hr_wf(*rec),
            bounded_s(r_in.direction.v(), RAY_MAX as int),
            SCALE as int / 16 <= self.refraction_index as int <= 16 * (SCALE as int),
        ensures
            b == true,
            *final(attenuation) == (Color { x: SCALE, y: SCALE, z: SCALE }),
            final(scattered).origin == rec.p,
            final(scattered).time == r_in.time,
            bounded_s(final(scattered).direction.v(), 0x40_0000_0000),
            dielectric_out(*self, *r_in, *rec, final(scattered).direction.v()),
    {
        *attenuation = Color::new(SCALE, SCALE, SCALE);
        let ri: i64 = if rec.front_face {
            proof {
                lemma_invert_ri(self.refraction_index as int);
            }
            crate::fixed::fx_div(SCALE, self.refraction_index)
        } else {
            self.refraction_index
        };
        proof {
            assert(1 <= ri as int <= 16 * (SCALE as int));
        }
        proof {
            lemma_dot_bound(r_in.direction.v(), r_in.direction.v(), RAY_MAX as int, RAY_MAX as int);
        }
        if r_in.direction.length_squared() < 1 {
            // The incoming direction is below the resolution of the scalar
            // grid; pass it through rather than divide by a zero length.
            *scattered = Ray::new_timed(rec.p, r_in.direction, r_in.time);
            return true;
        }
        let unit_direction: Vec3 = Vec3::unit_vector(r_in.direction);
        proof {
            lemma_dot_bound(unit_direction.v(), rec.normal.v(), 2 * SCALE as int, 2 * SCALE as int);
            lemma_neg_dot(unit_direction.v(), rec.normal.v());
        }
        let d: i64 = Vec3::dot(&unit_direction.neg(), &rec.normal);
        let cos_theta: i64 = if d > SCALE {
            SCALE
        } else if d < -SCALE {
            -SCALE
        } else {
            d
        };
        proof {
            lemma_fx_mul_bound(cos_theta as int, cos_theta as int, SCALE as int, SCALE as int);
        }
        let c2: i64 = crate::fixed::fx_mul(cos_theta, cos_theta);
        let s2: i64 = if SCALE - c2 >= 0 {
            SCALE - c2
        } else {
            0
        };
        proof {
            assert(s2 as int * SCALE as int <= u64::MAX as int);
        }
        let sin_theta: i64 = crate::fixed::fx_sqrt(s2);
        proof {
            lemma_sqrt_floor(s2 as int * SCALE as int);
            assert(fx_sqrt_s(s2 as int) <= 2 * SCALE as int) by {
                if fx_sqrt_s(s2 as int) > 2 * SCALE as int {
                    assert(fx_sqrt_s(s2 as int) * fx_sqrt_s(s2 as int) > (2 * SCALE as int) * (2
                        * SCALE as int)) by (nonlinear_arith)
                        requires
                            fx_sqrt_s(s2 as int) > 2 * SCALE as int >= 0,
                    ;
                }
            };
            lemma_fx_mul_bound(ri as int, sin_theta as int, 0x100_0000_0000, 2 * SCALE as int);
        }
        let cannot_refract: bool = crate::fixed::fx_mul(ri, sin_theta) > SCALE;
        let direction: Vec3;
        if cannot_refract || Dielectric::reflectance(cos_theta, ri) > random_scalar() {
            direction = Vec3::reflect(&unit_direction, &rec.normal);
            proof {
                lemma_unit_reflect_bound(unit_direction.v(), rec.normal.v());
            }
        } else {
            direction = Vec3::refract(&unit_direction, &rec.normal, ri);
        }
        *scattered = Ray::new_timed(rec.p, direction, r_in.time);
        true
    }
}

/// A refraction index in range inverts into the same range.
proof fn lemma_invert_ri(ri0: int)
    requires
        SCALE as int / 16 <= ri0 <= 16 * (SCALE as int),
    ensures
        1 <= fx_div_s(SCALE as int, ri0) <= 16 * (SCALE as int),
{
    assert(SCALE as int * SCALE as int <= ri0 * (16 * (SCALE as int))) by (nonlinear_arith)
        requires
            ri0 >= 4096,
            SCALE as int == 65536,
    ;
    vstd::arithmetic::div_mod::lemma_multiply_divide_le(
        SCALE as int * SCALE as int,
        ri0,
        16 * (SCALE as int),
    );
    vstd::arithmetic::div_mod::lemma_div_is_ordered(ri0, SCALE as int * SCALE as int, ri0);
    vstd::arithmetic::div_mod::lemma_div_by_self(ri0);
}

/// Reflecting one bounded unit-scale direction about another stays small.
proof fn lemma_unit_reflect_bound(v: V3, n: V3)
    requires
        bounded_s(v, 2 * SCALE as int),
        bounded_s(n, 2 * SCALE as int),
    ensures
        bounded_s(reflect_s(v, n), 0x40_0000_0000),
{
    lemma_dot_bound(v, n, 131072, 131072);
    assert(3 * (131072int * 131072) / 65536 == 786432int);
    let d = dot_s(v, n);
    lemma_fx_mul_bound(n.x, 2 * d, 131072, 1572864);
    lemma_fx_mul_bound(n.y, 2 * d, 131072, 1572864);
    lemma_fx_mul_bound(n.z, 2 * d, 131072, 1572864);
    assert(131072int * 1572864 / 65536 == 3145728int);
}

/// Reflecting a scene-bounded direction about a unit-scale normal stays well
/// inside the scalar range.
proof fn lemma_ray_reflect_bound(v: V3, n: V3)
    requires
        bounded_s(v, RAY_MAX as int),
        bounded_s(n, 2 * SCALE as int),
    ensures
        bounded_s(reflect_s(v, n), 0x10_0000_0000),
{
    lemma_dot_bound(v, n, 0x4000_0000, 131072);
    assert(3 * (0x4000_0000int * 131072) / 65536 == 0x1_8000_0000int);
    let d = dot_s(v, n);
    lemma_fx_mul_bound(n.x, 2 * d, 131072, 0x3_0000_0000);
    lemma_fx_mul_bound(n.y, 2 * d, 131072, 0x3_0000_0000);
    lemma_fx_mul_bound(n.z, 2 * d, 131072, 0x3_0000_0000);
    assert(131072int * 0x3_0000_0000 / 65536 == 0x6_0000_0000int);
}

impl Material {
    /// Dispatch to the variant's scattering rule.
    pub fn scatter(&self, r_in: &Ray, rec: &HitRecord, attenuation: &mut Color, scattered: &mut Ray) -> (b:
        bool)
        requires
            hr_wf(*rec),
            bounded_s(r_in.direction.v(), RAY_MAX as int),
            mat_wf(*self),
        ensures
            b ==> bounded_s(final(scattered).direction.v(), 0x40_0000_0000),
            b ==> final(scattered).origin == rec.p,
            b ==> final(scattered).time == r_in.time,
            b ==> color_wf(*final(attenuation)),
            (self matches Material::Lambertian(_)) ==> b,
            (self matches Material::Dielectric(_)) ==> b,
            ((*self) matches Material::Lambertian(_)) ==> lambertian_dir(
                *rec,
                final(scattered).direction.v(),
            ),
            (*self) matches Material::Metal(mm) ==> (b ==> metal_dir(
                mm,
                *r_in,
                *rec,
                final(scattered).direction.v(),
            )),
            (*self) matches Material::Metal(mm) ==> (b && mm.fuzz == 0
                ==> final(scattered).direction.v() == unit_s(
                reflect_s(r_in.direction.v(), rec.normal.v()),
            )),
            (*self) matches Material::Dielectric(dd) ==> dielectric_out(
                dd,
                *r_in,
                *rec,
                final(scattered).direction.v(),
            ),
    {
        match self {
            Material::Lambertian(l) => l.scatter(r_in, rec, attenuation, scattered),
            Material::Metal(m) => m.scatter(r_in, rec, attenuation, scattered),
            Material::Dielectric(d) => d.scatter(r_in, rec, attenuation, scattered),
        }
    }
}

} // verus!
