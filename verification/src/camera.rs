//! The camera: an orthonormal viewing basis and per-pixel ray generation, and
//! the recursive path tracer that turns a ray into a color.
use crate::color::Color;
use crate::fixed::{fx_div_s, fx_mul_s, iabs, lemma_tdiv_exact, lemma_tdiv_mag, tdiv, tdiv_by, SCALE};
use crate::hittable::{no_hit, prune_safe, HitRecord};
use crate::hittable_list::HittableList;
use crate::interval::Interval;
use crate::material::color_wf;
use crate::ray::{ray_wf, Ray, RAY_MAX};
use crate::sphere::{rec_matches, sphere_hit_info, sphere_hits, sphere_wf, CEN_MAX};
use crate::util::{cos_s, deg_to_rad_s, degrees_to_radians, fx_cos, fx_sin, random_scalar, sin_s};
use crate::vec3::{
    add_s, bounded_s, div_s, lemma_dot_bound, lemma_fx_div_bound, lemma_fx_mul_bound, neg_s,
    scale_s, sub_s, unit_s, Point3, Vec3, V3,
};
use vstd::prelude::*;

verus! {

/// The search window's lower edge: hits nearer than this are taken for
/// self-intersection noise and skipped.
pub const T_EPS: i64 = 66;

pub struct CameraSettings {
    pub num_threads: usize,
    pub aspect_ratio: i64,
    pub image_width: usize,
    pub samples_per_pixel: i64,
    pub max_depth: i64,
    pub vfov: i64,
    pub lookfrom: Point3,
    pub lookat: Point3,
    pub vup: Vec3,
    pub defocus_angle: i64,
    pub focus_dist: i64,
}

#[derive(Clone, Copy)]
pub struct Camera {
    pub center: Point3,
    pub pixel00_loc: Point3,
    pub pixel_delta_u: Vec3,
    pub pixel_delta_v: Vec3,
    pub pixel_samples_scale: i64,
    pub u: Vec3,
    pub v: Vec3,
    pub w: Vec3,
    pub defocus_disk_u: Vec3,
    pub defocus_disk_v: Vec3,
    pub defocus_angle: i64,
    pub num_threads: usize,
    pub image_width: usize,
    pub image_height: usize,
    pub samples_per_pixel: i64,
    pub max_depth: i64,
}

/// A camera the renderer can drive without overflowing the scalar grid.
pub open spec fn camera_wf(cam: Camera) -> bool {
    &&& bounded_s(cam.center.v(), CEN_MAX as int)
    &&& bounded_s(cam.pixel00_loc.v(), 0x2000_0000_0000)
    &&& bounded_s(cam.pixel_delta_u.v(), 0x2000_0000_0000)
    &&& bounded_s(cam.pixel_delta_v.v(), 0x2000_0000_0000)
    &&& bounded_s(cam.defocus_disk_u.v(), 0x2000_0000_0000)
    &&& bounded_s(cam.defocus_disk_v.v(), 0x2000_0000_0000)
    &&& 1 <= cam.image_width <= 0x10_0000
    &&& 1 <= cam.image_height <= 0x10_0000
    &&& 1 <= cam.samples_per_pixel <= 0x10_0000
    &&& 0 <= cam.max_depth <= 0x10_0000
    &&& 0 <= cam.pixel_samples_scale <= SCALE
}

/// Settings the camera accepts: bounded geometry, a view direction of
/// positive length, an aspect ratio between a sixteenth and sixteen whose
/// derived image height stays on the supported grid, and angles inside the
/// supported field of view.
pub open spec fn settings_wf(s: CameraSettings) -> bool {
    &&& bounded_s(s.lookfrom.v(), CEN_MAX as int)
    &&& bounded_s(s.lookat.v(), CEN_MAX as int)
    &&& bounded_s(s.vup.v(), CEN_MAX as int)
    &&& crate::vec3::len_sq_s(sub_s(s.lookfrom.v(), s.lookat.v())) >= 1
    &&& SCALE as int / 16 <= s.aspect_ratio as int <= 16 * (SCALE as int)
    &&& tdiv(s.image_width as int * SCALE as int, s.aspect_ratio as int) <= 0x10_0000
    &&& 1 <= s.image_width <= 0x10_0000
    &&& 1 <= s.samples_per_pixel <= 0x10_0000
    &&& 0 <= s.max_depth <= 0x10_0000
    &&& 0 <= s.vfov <= 170 * SCALE
    &&& 0 <= s.defocus_angle <= 170 * SCALE
    &&& 1 <= s.focus_dist <= CEN_MAX
}

/// The sky gradient an escaped ray brings home: a blend from white at the
/// horizon to sky blue straight up, by the unit direction's height (the
/// blend factor clamped into `[0, 1]` against rounding at the unit length).
pub open spec fn sky_s(r: Ray) -> V3 {
    let u = unit_s(r.direction.v());
    let a0 = tdiv(u.y + SCALE, 2);
    let a = if a0 < 0 {
        0
    } else if a0 > SCALE as int {
        SCALE as int
    } else {
        a0
    };
    V3 {
        x: crate::fixed::fx_mul_s(SCALE as int - a, SCALE as int) + crate::fixed::fx_mul_s(
            a,
            32768,
        ),
        y: crate::fixed::fx_mul_s(SCALE as int - a, SCALE as int) + crate::fixed::fx_mul_s(
            a,
            45875,
        ),
        z: crate::fixed::fx_mul_s(SCALE as int - a, SCALE as int) + crate::fixed::fx_mul_s(
            a,
            65536,
        ),
    }
}

/// The clamped tangent the camera derives a viewport extent from: sine over
/// cosine by the truncated polynomials, forced into `[0, 16]`, and the top of
/// that range where the cosine polynomial falls under one step.
pub open spec fn tan_clamped_s(x: int) -> int {
    let s = sin_s(x);
    let c = cos_s(x);
    if c < 1 {
        16 * SCALE as int
    } else {
        let t = fx_div_s(s, c);
        if t < 0 {
            0
        } else if t > 16 * SCALE as int {
            16 * SCALE as int
        } else {
            t
        }
    }
}

/// The derived image height: width over aspect ratio, at least one row.
pub open spec fn derived_height_s(s: CameraSettings) -> int {
    let ih = tdiv(s.image_width as int * SCALE as int, s.aspect_ratio as int);
    if ih >= 1 {
        ih
    } else {
        1
    }
}

/// The viewport height: twice the tangent of half the field of view, at the
/// focus distance.
pub open spec fn viewport_height_s(s: CameraSettings) -> int {
    fx_mul_s(2 * tan_clamped_s(tdiv(deg_to_rad_s(s.vfov as int), 2)), s.focus_dist as int)
}

/// The width-over-height pixel ratio, clamped into `[0, 32]`.
pub open spec fn viewport_ratio_s(s: CameraSettings) -> int {
    let rr = tdiv(s.image_width as int * SCALE as int, derived_height_s(s));
    if rr > 32 * SCALE as int {
        32 * SCALE as int
    } else if rr < 0 {
        0
    } else {
        rr
    }
}

/// The viewport width: the height scaled by the pixel ratio.
pub open spec fn viewport_width_s(s: CameraSettings) -> int {
    fx_mul_s(viewport_height_s(s), viewport_ratio_s(s))
}

/// The defocus-disk radius: the focus distance times the tangent of half the
/// defocus angle.
pub open spec fn defocus_radius_s(s: CameraSettings) -> int {
    fx_mul_s(s.focus_dist as int, tan_clamped_s(tdiv(deg_to_rad_s(s.defocus_angle as int), 2)))
}

/// The viewport point the pixel deltas project a jittered pixel index to.
pub open spec fn sample_point_s(cam: Camera, fi: int, fj: int) -> V3 {
    V3 {
        x: cam.pixel00_loc.v().x + fx_mul_s(fi, cam.pixel_delta_u.v().x) + fx_mul_s(
            fj,
            cam.pixel_delta_v.v().x,
        ),
        y: cam.pixel00_loc.v().y + fx_mul_s(fi, cam.pixel_delta_u.v().y) + fx_mul_s(
            fj,
            cam.pixel_delta_v.v().y,
        ),
        z: cam.pixel00_loc.v().z + fx_mul_s(fi, cam.pixel_delta_u.v().z) + fx_mul_s(
            fj,
            cam.pixel_delta_v.v().z,
        ),
    }
}

/// What `get_ray` returns for pixel `(i, j)` under jitter `(ox, oy)`: the
/// direction from the chosen origin to the jittered viewport point, or the
/// fixed fallback direction when that sample leaves the scalar grid or is
/// too short to trace.
pub open spec fn ray_matches_sample(cam: Camera, i: int, j: int, ox: int, oy: int, r: Ray) -> bool {
    let s = sample_point_s(cam, i * SCALE + ox, j * SCALE + oy);
    let d = sub_s(s, r.origin.v());
    ||| (bounded_s(s, RAY_MAX as int) && bounded_s(d, RAY_MAX as int)
        && crate::vec3::len_sq_s(d) >= 1 && r.direction.v() == d)
    ||| ((!bounded_s(s, RAY_MAX as int) || !bounded_s(d, RAY_MAX as int)
        || crate::vec3::len_sq_s(d) < 1) && r.direction.v() == (V3 { x: 0, y: 0, z: SCALE as int }))
}

/// The point of the defocus disk that the drawn disk coordinates name.
pub open spec fn disk_point_s(cam: Camera, p: V3) -> V3 {
    V3 {
        x: cam.center.v().x + fx_mul_s(p.x, cam.defocus_disk_u.v().x) + fx_mul_s(
            p.y,
            cam.defocus_disk_v.v().x,
        ),
        y: cam.center.v().y + fx_mul_s(p.x, cam.defocus_disk_u.v().y) + fx_mul_s(
            p.y,
            cam.defocus_disk_v.v().y,
        ),
        z: cam.center.v().z + fx_mul_s(p.x, cam.defocus_disk_u.v().z) + fx_mul_s(
            p.y,
            cam.defocus_disk_v.v().z,
        ),
    }
}

/// A defocus origin is the named disk point, or the camera center when that
/// point leaves the scalar grid.
pub open spec fn disk_origin_ok(cam: Camera, p: V3, r: Point3) -> bool {
    ||| (bounded_s(disk_point_s(cam, p), RAY_MAX as int) && r.v() == disk_point_s(cam, p))
    ||| (!bounded_s(disk_point_s(cam, p), RAY_MAX as int) && r == cam.center)
}

/// Every sky color has a blue channel of exactly one unit: the white and blue
/// endpoints agree there, so the blend cancels.
pub proof fn lemma_sky_blue(r: Ray)
    ensures
        sky_s(r).z == SCALE as int,
{
    let u = unit_s(r.direction.v());
    let a0 = tdiv(u.y + SCALE, 2);
    let a = if a0 < 0 {
        0int
    } else if a0 > SCALE as int {
        SCALE as int
    } else {
        a0
    };
    lemma_tdiv_exact(SCALE as int - a);
    lemma_tdiv_exact(a);
}

/// A fixed-point product of two unit-range colors stays in unit range.
proof fn lemma_color_mul_wf(a: Color, b: Color)
    requires
        color_wf(a),
        color_wf(b),
    ensures
        0 <= crate::fixed::fx_mul_s(a.v().x, b.v().x) <= SCALE as int,
        0 <= crate::fixed::fx_mul_s(a.v().y, b.v().y) <= SCALE as int,
        0 <= crate::fixed::fx_mul_s(a.v().z, b.v().z) <= SCALE as int,
{
    lemma_unit_product(a.v().x, b.v().x);
    lemma_unit_product(a.v().y, b.v().y);
    lemma_unit_product(a.v().z, b.v().z);
}

/// `0 <= tdiv(x*y, SCALE) <= SCALE` for `x`, `y` in `[0, SCALE]`.
proof fn lemma_unit_product(x: int, y: int)
    requires
        0 <= x <= SCALE as int,
        0 <= y <= SCALE as int,
    ensures
        0 <= crate::fixed::fx_mul_s(x, y) <= SCALE as int,
{
    assert(0 <= x * y <= SCALE as int * SCALE as int) by (nonlinear_arith)
        requires
            0 <= x <= SCALE as int,
            0 <= y <= SCALE as int,
    ;
    vstd::arithmetic::div_mod::lemma_div_pos_is_pos(x * y, SCALE as int);
    vstd::arithmetic::div_mod::lemma_multiply_divide_le(x * y, SCALE as int, SCALE as int);
}

impl Camera {
    /// Derive the render-ready camera from the declarative settings: image
    /// height from the aspect ratio (at least one row), the per-sample scale,
    /// the orthonormal viewing basis, the viewport pixel deltas and the
    /// defocus-disk basis. Degenerate trigonometry (a view field at the edge
    /// of the supported range, or an up vector parallel to the view) falls
    /// back to clamped values rather than dividing by zero.
    #[verifier::rlimit(100)]
    pub fn initialize(camera_settings: CameraSettings) -> (cam: Camera)
        requires
            settings_wf(camera_settings),
        ensures
            camera_wf(cam),
            cam.center == camera_settings.lookfrom,
            cam.num_threads == camera_settings.num_threads,
            cam.image_width == camera_settings.image_width,
            cam.samples_per_pixel == camera_settings.samples_per_pixel,
            cam.max_depth == camera_settings.max_depth,
            cam.defocus_angle == camera_settings.defocus_angle,
            cam.pixel_samples_scale as int == tdiv(
                SCALE as int,
                camera_settings.samples_per_pixel as int,
            ),
            cam.w.v() == unit_s(
                sub_s(camera_settings.lookfrom.v(), camera_settings.lookat.v()),
            ),
            cam.v.v() == crate::vec3::cross_s(cam.w.v(), cam.u.v()),
            crate::vec3::len_sq_s(crate::vec3::cross_s(camera_settings.vup.v(), cam.w.v())) >= 1
                ==> cam.u.v() == unit_s(crate::vec3::cross_s(camera_settings.vup.v(), cam.w.v())),
            cam.image_height as int == derived_height_s(camera_settings),
            cam.pixel_delta_u.v() == div_s(
                scale_s(cam.u.v(), viewport_width_s(camera_settings)),
                camera_settings.image_width as int * SCALE as int,
            ),
            cam.pixel_delta_v.v() == div_s(
                scale_s(neg_s(cam.v.v()), viewport_height_s(camera_settings)),
                derived_height_s(camera_settings) * SCALE as int,
            ),
            cam.pixel00_loc.v() == add_s(
                sub_s(
                    sub_s(
                        sub_s(
                            camera_settings.lookfrom.v(),
                            scale_s(cam.w.v(), camera_settings.focus_dist as int),
                        ),
                        div_s(
                            scale_s(cam.u.v(), viewport_width_s(camera_settings)),
                            2 * SCALE as int,
                        ),
                    ),
                    div_s(
                        scale_s(neg_s(cam.v.v()), viewport_height_s(camera_settings)),
                        2 * SCALE as int,
                    ),
                ),
                scale_s(add_s(cam.pixel_delta_u.v(), cam.pixel_delta_v.v()), 32768),
            ),
            cam.defocus_disk_u.v() == scale_s(cam.u.v(), defocus_radius_s(camera_settings)),
            cam.defocus_disk_v.v() == scale_s(cam.v.v(), defocus_radius_s(camera_settings)),
    {
        proof {
            lemma_tdiv_mag(
                camera_settings.image_width as int * SCALE as int,
                camera_settings.aspect_ratio as int,
                0x10_0000int * 65536,
            );
            assert(iabs(camera_settings.image_width as int * SCALE as int) <= 0x10_0000int * 65536)
                by (nonlinear_arith)
                requires
                    1 <= camera_settings.image_width <= 0x10_0000,
                    SCALE as int == 65536,
            ;
        }
        let ih_raw: i128 = tdiv_by(
            (camera_settings.image_width as i128) * (SCALE as i128),
            camera_settings.aspect_ratio as i128,
        );
        let image_height: usize = if ih_raw >= 1 {
            // The settings cap the derived height on the supported grid.
            (ih_raw as i64) as usize
        } else {
            1
        };
        proof {
            lemma_tdiv_mag(SCALE as int, camera_settings.samples_per_pixel as int, 65536);
            vstd::arithmetic::div_mod::lemma_div_pos_is_pos(
                65536int,
                camera_settings.samples_per_pixel as int,
            );
        }
        let pixel_samples_scale: i64 = tdiv_by(
            SCALE as i128,
            camera_settings.samples_per_pixel as i128,
        ) as i64;

        // Viewport dimensions from the vertical field of view.
        let theta: i64 = degrees_to_radians(camera_settings.vfov);
        proof {
            lemma_tdiv_mag(
                camera_settings.vfov as int * 205887,
                180 * SCALE as int,
                11141120int * 205887,
            );
            assert(iabs(camera_settings.vfov as int * 205887) <= 11141120int * 205887)
                by (nonlinear_arith)
                requires
                    0 <= camera_settings.vfov <= 170 * 65536,
            ;
            assert(11141120int * 205887 / (180int * 65536) <= 196608);
            lemma_tdiv_mag(theta as int, 2, 196608);
        }
        let half_theta: i64 = tdiv_by(theta as i128, 2) as i64;
        let h: i64 = clamped_tangent(half_theta);
        proof {
            lemma_fx_mul_bound(2 * h as int, camera_settings.focus_dist as int, 2097152, 0x400_0000);
            assert(2097152int * 0x400_0000 / 65536 == 0x8000_0000int);
        }
        let viewport_height: i64 = crate::fixed::fx_mul(2 * h, camera_settings.focus_dist);
        proof {
            lemma_tdiv_mag(
                camera_settings.image_width as int * SCALE as int,
                image_height as int,
                0x10_0000int * 65536,
            );
        }
        let ratio_raw: i128 = tdiv_by(
            (camera_settings.image_width as i128) * (SCALE as i128),
            image_height as i128,
        );
        let ratio: i64 = if ratio_raw > 32 * (SCALE as i128) {
            32 * SCALE
        } else if ratio_raw < 0 {
            0
        } else {
            ratio_raw as i64
        };
        proof {
            lemma_fx_mul_bound(viewport_height as int, ratio as int, 0x8000_0000, 2097152);
            assert(0x8000_0000int * 2097152 / 65536 == 0x10_0000_0000int);
        }
        let viewport_width: i64 = crate::fixed::fx_mul(viewport_height, ratio);

        // The orthonormal basis of the viewing frame.
        let (u, v, w): (Vec3, Vec3, Vec3) = viewing_basis(
            camera_settings.lookfrom,
            camera_settings.lookat,
            camera_settings.vup,
        );

        // Viewport edge vectors and per-pixel deltas.
        proof {
            lemma_scale_bounds(u.v(), viewport_width as int, 131072, 0x10_0000_0000);
            assert(131072int * 0x10_0000_0000 / 65536 == 0x20_0000_0000int);
            lemma_scale_bounds(
                crate::vec3::neg_s(v.v()),
                viewport_height as int,
                524288,
                0x8000_0000,
            );
            assert(524288int * 0x8000_0000 / 65536 == 0x4_0000_0000int);
        }
        let viewport_u: Vec3 = u.scale(viewport_width);
        let viewport_v: Vec3 = v.neg().scale(viewport_height);
        let iw_fx: i64 = (camera_settings.image_width as i64) * SCALE;
        let ih_fx: i64 = (image_height as i64) * SCALE;
        proof {
            lemma_div_unit_bounds(viewport_u.v(), iw_fx as int, 0x20_0000_0000);
            lemma_div_unit_bounds(viewport_v.v(), ih_fx as int, 0x20_0000_0000);
        }
        let pixel_delta_u: Vec3 = viewport_u.div(iw_fx);
        let pixel_delta_v: Vec3 = viewport_v.div(ih_fx);

        // The location of pixel (0, 0).
        proof {
            lemma_scale_bounds(w.v(), camera_settings.focus_dist as int, 131072, 0x400_0000);
            assert(131072int * 0x400_0000 / 65536 == 0x800_0000int);
            lemma_div_unit_bounds(viewport_u.v(), 2 * SCALE as int, 0x20_0000_0000);
            lemma_div_unit_bounds(viewport_v.v(), 2 * SCALE as int, 0x20_0000_0000);
        }
        let focus_w: Vec3 = w.scale(camera_settings.focus_dist);
        let half_vu: Vec3 = viewport_u.div(2 * SCALE);
        let half_vv: Vec3 = viewport_v.div(2 * SCALE);
        let viewport_upper_left: Vec3 = camera_settings.lookfrom.sub(focus_w).sub(half_vu).sub(
            half_vv,
        );
        proof {
            lemma_scale_bounds(
                add_s(pixel_delta_u.v(), pixel_delta_v.v()),
                32768,
                0x40_0000_0000,
                32768,
            );
            assert(0x40_0000_0000int * 32768 / 65536 == 0x20_0000_0000int);
        }
        let pixel00_loc: Vec3 = viewport_upper_left.add(
            pixel_delta_u.add(pixel_delta_v).scale(32768),
        );

        // The defocus-disk basis.
        let dtheta: i64 = degrees_to_radians(camera_settings.defocus_angle);
        proof {
            lemma_tdiv_mag(
                camera_settings.defocus_angle as int * 205887,
                180 * SCALE as int,
                11141120int * 205887,
            );
            assert(iabs(camera_settings.defocus_angle as int * 205887) <= 11141120int * 205887)
                by (nonlinear_arith)
                requires
                    0 <= camera_settings.defocus_angle <= 170 * 65536,
            ;
            assert(11141120int * 205887 / (180int * 65536) <= 196608);
            lemma_tdiv_mag(dtheta as int, 2, 196608);
        }
        let half_dtheta: i64 = tdiv_by(dtheta as i128, 2) as i64;
        let dtan: i64 = clamped_tangent(half_dtheta);
        proof {
            lemma_fx_mul_bound(camera_settings.focus_dist as int, dtan as int, 0x400_0000, 1048576);
            assert(0x400_0000int * 1048576 / 65536 == 0x4000_0000int);
        }
        let defocus_radius: i64 = crate::fixed::fx_mul(camera_settings.focus_dist, dtan);
        proof {
            lemma_scale_bounds(u.v(), defocus_radius as int, 131072, 0x4000_0000);
            assert(131072int * 0x4000_0000 / 65536 == 0x8000_0000int);
            lemma_scale_bounds(v.v(), defocus_radius as int, 524288, 0x4000_0000);
            assert(524288int * 0x4000_0000 / 65536 == 0x2_0000_0000int);
        }
        let defocus_disk_u: Vec3 = u.scale(defocus_radius);
        let defocus_disk_v: Vec3 = v.scale(defocus_radius);

        Camera {
            center: camera_settings.lookfrom,
            pixel00_loc,
            pixel_delta_u,
            pixel_delta_v,
            pixel_samples_scale,
            u,
            v,
            w,
            defocus_disk_u,
            defocus_disk_v,
            defocus_angle: camera_settings.defocus_angle,
            num_threads: camera_settings.num_threads,
            image_width: camera_settings.image_width,
            image_height,
            samples_per_pixel: camera_settings.samples_per_pixel,
            max_depth: camera_settings.max_depth,
        }
    }

    /// A random point of the unit pixel square around the origin.
    pub fn sample_square(&self) -> (r: Vec3)
        ensures
            -32768 <= r.v().x < 32768,
            -32768 <= r.v().y < 32768,
            r.v().z == 0,
    {
        let ox: i64 = random_scalar() - 32768;
        let oy: i64 = random_scalar() - 32768;
        Vec3 { x: ox, y: oy, z: 0 }
    }

    /// A random origin on the defocus disk, or the camera center if the
    /// sampled point leaves the scene's bounds.
    pub fn defocus_disk_sample(&self) -> (r: Point3)
        requires
            camera_wf(*self),
        ensures
            bounded_s(r.v(), RAY_MAX as int),
            exists|p: V3|
                p.z == 0 && bounded_s(p, SCALE as int) && crate::vec3::len_sq_s(p)
                    < SCALE as int && #[trigger] disk_origin_ok(*self, p, r),
    {
        let p: Vec3 = Vec3::random_in_unit_disk();
        let cx: i128 = (self.center.x as i128) + mul_fx_wide(p.x, self.defocus_disk_u.x)
            + mul_fx_wide(p.y, self.defocus_disk_v.x);
        let cy: i128 = (self.center.y as i128) + mul_fx_wide(p.x, self.defocus_disk_u.y)
            + mul_fx_wide(p.y, self.defocus_disk_v.y);
        let cz: i128 = (self.center.z as i128) + mul_fx_wide(p.x, self.defocus_disk_u.z)
            + mul_fx_wide(p.y, self.defocus_disk_v.z);
        if cx > RAY_MAX as i128 || cx < -RAY_MAX as i128 || cy > RAY_MAX as i128 || cy
            < -RAY_MAX as i128 || cz > RAY_MAX as i128 || cz < -RAY_MAX as i128 {
            proof {
                assert(disk_origin_ok(*self, p.v(), self.center));
            }
            return self.center;
        }
        let r = Vec3 { x: cx as i64, y: cy as i64, z: cz as i64 };
        proof {
            assert(disk_origin_ok(*self, p.v(), r));
        }
        r
    }

    /// The camera ray for pixel `(i, j)`: jittered within the pixel square,
    /// from the center or a defocus-disk point, at a random time in `[0, 1)`.
    /// Samples that would leave the scalar grid fall back to a straight-ahead
    /// ray, so every returned ray is one the tracer accepts.
    pub fn get_ray(&self, i: i64, j: i64) -> (r: Ray)
        requires
            camera_wf(*self),
            0 <= i <= 0x10_0000,
            0 <= j <= 0x10_0000,
        ensures
            ray_wf(r),
            0 <= r.time < SCALE,
            self.defocus_angle <= 0 ==> r.origin == self.center,
            self.defocus_angle > 0 ==> exists|p: V3|
                p.z == 0 && bounded_s(p, SCALE as int) && crate::vec3::len_sq_s(p)
                    < SCALE as int && #[trigger] disk_origin_ok(*self, p, r.origin),
            exists|ox: int, oy: int|
                -32768 <= ox < 32768 && -32768 <= oy < 32768 && #[trigger] ray_matches_sample(
                    *self,
                    i as int,
                    j as int,
                    ox,
                    oy,
                    r,
                ),
    {
        let offset: Vec3 = self.sample_square();
        let fi: i64 = i * SCALE + offset.x;
        let fj: i64 = j * SCALE + offset.y;
        let px: i128 = (self.pixel00_loc.x as i128) + mul_fx_wide(fi, self.pixel_delta_u.x)
            + mul_fx_wide(fj, self.pixel_delta_v.x);
        let py: i128 = (self.pixel00_loc.y as i128) + mul_fx_wide(fi, self.pixel_delta_u.y)
            + mul_fx_wide(fj, self.pixel_delta_v.y);
        let pz: i128 = (self.pixel00_loc.z as i128) + mul_fx_wide(fi, self.pixel_delta_u.z)
            + mul_fx_wide(fj, self.pixel_delta_v.z);
        let ghost s = sample_point_s(*self, i as int * SCALE as int + offset.v().x, j as int * SCALE as int + offset.v().y);
        proof {
            assert(px as int == s.x && py as int == s.y && pz as int == s.z);
        }
        let ray_origin: Point3 = if self.defocus_angle <= 0 {
            self.center
        } else {
            self.defocus_disk_sample()
        };
        let ray_time: i64 = random_scalar();
        let ok: bool = px <= RAY_MAX as i128 && px >= -RAY_MAX as i128 && py <= RAY_MAX as i128
            && py >= -RAY_MAX as i128 && pz <= RAY_MAX as i128 && pz >= -RAY_MAX as i128;
        if ok {
            let dx: i64 = (px as i64) - ray_origin.x;
            let dy: i64 = (py as i64) - ray_origin.y;
            let dz: i64 = (pz as i64) - ray_origin.z;
            let direction: Vec3 = Vec3 { x: dx, y: dy, z: dz };
            proof {
                lemma_dot_bound(direction.v(), direction.v(), 0x8000_0000, 0x8000_0000);
            }
            let dir_in_range: bool = dx <= RAY_MAX && dx >= -RAY_MAX && dy <= RAY_MAX && dy
                >= -RAY_MAX && dz <= RAY_MAX && dz >= -RAY_MAX;
            if dir_in_range && direction.length_squared() >= 1 {
                let r = Ray::new_timed(ray_origin, direction, ray_time);
                proof {
                    assert(direction.v() == sub_s(s, r.origin.v()));
                    assert(ray_matches_sample(
                        *self,
                        i as int,
                        j as int,
                        offset.v().x,
                        offset.v().y,
                        r,
                    ));
                }
                return r;
            }
            let r = Ray::new_timed(ray_origin, Vec3::new(0, 0, SCALE), ray_time);
            proof {
                let d = sub_s(s, r.origin.v());
                assert(d.x == dx as int && d.y == dy as int && d.z == dz as int);
                assert(!bounded_s(d, RAY_MAX as int) || crate::vec3::len_sq_s(d) < 1);
                assert(ray_matches_sample(*self, i as int, j as int, offset.v().x, offset.v().y, r));
            }
            return r;
        }
        let r = Ray::new_timed(ray_origin, Vec3::new(0, 0, SCALE), ray_time);
        proof {
            assert(!bounded_s(s, RAY_MAX as int));
            assert(ray_matches_sample(*self, i as int, j as int, offset.v().x, offset.v().y, r));
        }
        r
    }

    /// The color a ray gathers: black once the bounce budget is spent; after
    /// a hit, the scattered ray's color filtered by the material's
    /// attenuation (black when the material absorbs, or when scattering
    /// degenerates below the scalar grid); the sky gradient when the scene is
    /// missed. Against an empty scene the result is exactly the sky gradient.
    pub fn ray_color(&self, r: &Ray, depth: i64, world: &HittableList) -> (c: Color)
        requires
            ray_wf(*r),
            0 <= r.time <= SCALE,
            world.wf(),
        ensures
            color_wf(c),
            depth <= 0 ==> c.v() == (V3 { x: 0, y: 0, z: 0 }),
            depth > 0 && world.spheres().len() == 0 ==> c.v() == sky_s(*r),
            depth > 0 && prune_safe(world.spheres(), *r) && no_hit(
                world.spheres(),
                *r,
                T_EPS as int,
                i64::MAX as int,
            ) ==> c.v() == sky_s(*r),
        decreases depth,
    {
        if depth <= 0 {
            return Color::blank();
        }
        let mut rec: HitRecord = HitRecord::blank();
        let is_hit: bool = world.hit(r, Interval::new(T_EPS, i64::MAX), &mut rec);
        if is_hit {
            proof {
                let objs = world.spheres();
                let i = choose|i: int|
                    0 <= i < objs.len() && #[trigger] sphere_hits(
                        objs[i],
                        *r,
                        T_EPS as int,
                        i64::MAX as int,
                    ) && rec_matches(
                        objs[i],
                        sphere_hit_info(objs[i], *r, T_EPS as int, i64::MAX as int),
                        rec,
                    );
                crate::hittable::lemma_flat_wf(world.objects@);
                assert(sphere_wf(objs[i]));
            }
            let mut scattered: Ray = Ray::blank();
            let mut attenuation: Color = Color::blank();
            if rec.mat.scatter(r, &rec, &mut attenuation, &mut scattered) {
                let d: Vec3 = scattered.direction;
                proof {
                    lemma_dot_bound(d.v(), d.v(), 0x40_0000_0000, 0x40_0000_0000);
                }
                let dir_ok: bool = d.x <= RAY_MAX && d.x >= -RAY_MAX && d.y <= RAY_MAX && d.y
                    >= -RAY_MAX && d.z <= RAY_MAX && d.z >= -RAY_MAX;
                if dir_ok && d.length_squared() >= 1 {
                    let deeper: Color = self.ray_color(&scattered, depth - 1, world);
                    proof {
                        lemma_color_mul_wf(attenuation, deeper);
                    }
                    return attenuation.mul(deeper);
                }
            }
            return Color::blank();
        }
        // The escaped ray samples the environment gradient.
        let unit_direction: Vec3 = Vec3::unit_vector(r.direction);
        let a_raw: i64 = tdiv_by((unit_direction.y as i128) + (SCALE as i128), 2) as i64;
        let a: i64 = if a_raw < 0 {
            0
        } else if a_raw > SCALE {
            SCALE
        } else {
            a_raw
        };
        proof {
            lemma_tdiv_mag(unit_direction.v().y + SCALE as int, 2, 3 * SCALE as int);
            lemma_tdiv_exact(SCALE as int - a as int);
            crate::util::lemma_tdiv_small_factor(a as int, 32768);
            crate::util::lemma_tdiv_small_factor(a as int, 45875);
            lemma_tdiv_exact(a as int);
        }
        let white_part: i64 = crate::fixed::fx_mul(SCALE - a, SCALE);
        Vec3 {
            x: white_part + crate::fixed::fx_mul(a, 32768),
            y: white_part + crate::fixed::fx_mul(a, 45875),
            z: white_part + crate::fixed::fx_mul(a, 65536),
        }
    }

    /// One finished pixel: `samples_per_pixel` traced rays, averaged, gamma
    /// corrected and quantized.
    pub fn render_pixel(&self, world: &HittableList, cord: crate::renderer::Cord) -> (p:
        crate::renderer::Pixel)
        requires
            camera_wf(*self),
            world.wf(),
            cord.x <= 0x10_0000,
            cord.y <= 0x10_0000,
        ensures
            p.cord == cord,
            self.max_depth <= 0 ==> p.color.0 == 0 && p.color.1 == 0 && p.color.2 == 0,
            world.spheres().len() == 0 && self.max_depth > 0 ==> p.color.2 as int
                == crate::color::byte_of(
                fx_mul_s(
                    self.samples_per_pixel as int * SCALE as int,
                    self.pixel_samples_scale as int,
                ),
            ),
    {
        let mut pixel_color: Color = Color::blank();
        let mut s: i64 = 0;
        let spp: i64 = self.samples_per_pixel;
        while s < spp
            invariant
                0 <= s <= spp,
                camera_wf(*self),
                world.wf(),
                cord.x <= 0x10_0000,
                cord.y <= 0x10_0000,
                spp == self.samples_per_pixel,
                0 <= pixel_color.v().x <= s * (SCALE as int),
                0 <= pixel_color.v().y <= s * (SCALE as int),
                0 <= pixel_color.v().z <= s * (SCALE as int),
                self.max_depth <= 0 ==> pixel_color.v() == (V3 { x: 0, y: 0, z: 0 }),
                world.spheres().len() == 0 && self.max_depth > 0 ==> pixel_color.v().z == s * (
                SCALE as int),
            decreases spp - s,
        {
            let ray: Ray = self.get_ray(cord.x as i64, cord.y as i64);
            let sample: Color = self.ray_color(&ray, self.max_depth, world);
            proof {
                assert((s + 1) * (SCALE as int) == s * (SCALE as int) + SCALE as int)
                    by (nonlinear_arith);
                if world.spheres().len() == 0 && self.max_depth > 0 {
                    lemma_sky_blue(ray);
                }
            }
            pixel_color = pixel_color.add(sample);
            s = s + 1;
        }
        proof {
            assert(spp * (SCALE as int) <= 0x10_0000 * 65536) by (nonlinear_arith)
                requires
                    spp <= 0x10_0000,
                    SCALE as int == 65536,
            ;
            lemma_scale_bounds(pixel_color.v(), self.pixel_samples_scale as int, 0x10_0000int * 65536, 65536);
        }
        let averaged: Color = pixel_color.scale(self.pixel_samples_scale);
        proof {
            assert(averaged.v().x <= 0xFFFF_FFFF_FFFF && averaged.v().y <= 0xFFFF_FFFF_FFFF
                && averaged.v().z <= 0xFFFF_FFFF_FFFF);
            if self.max_depth <= 0 {
                assert(0 * (self.pixel_samples_scale as int) == 0) by (nonlinear_arith);
                assert(averaged.v() == (V3 { x: 0, y: 0, z: 0 }));
                crate::color::lemma_quantization_endpoints();
            }
        }
        crate::color::write_color(&cord, &averaged)
    }
}

/// The orthonormal basis of the viewing frame: `w` back along the view,
/// `u` to the right (any fixed unit vector when the up vector is parallel to
/// the view), `v` completing the frame.
fn viewing_basis(lookfrom: Point3, lookat: Point3, vup: Vec3) -> (uvw: (Vec3, Vec3, Vec3))
    requires
        bounded_s(lookfrom.v(), CEN_MAX as int),
        bounded_s(lookat.v(), CEN_MAX as int),
        bounded_s(vup.v(), CEN_MAX as int),
        crate::vec3::len_sq_s(sub_s(lookfrom.v(), lookat.v())) >= 1,
    ensures
        uvw.2.v() == unit_s(sub_s(lookfrom.v(), lookat.v())),
        uvw.1.v() == crate::vec3::cross_s(uvw.2.v(), uvw.0.v()),
        crate::vec3::len_sq_s(crate::vec3::cross_s(vup.v(), uvw.2.v())) >= 1 ==> uvw.0.v()
            == unit_s(crate::vec3::cross_s(vup.v(), uvw.2.v())),
        bounded_s(uvw.0.v(), 2 * SCALE as int),
        bounded_s(uvw.1.v(), 524288),
        bounded_s(uvw.2.v(), 2 * SCALE as int),
{
    let back: Vec3 = lookfrom.sub(lookat);
    let w: Vec3 = Vec3::unit_vector(back);
    let cr: Vec3 = Vec3::cross(vup, w);
    proof {
        crate::vec3::lemma_cross_bound(vup.v(), w.v(), 0x400_0000, 131072);
        assert(2 * (0x400_0000int * 131072) / 65536 == 0x1000_0000int);
        lemma_dot_bound(cr.v(), cr.v(), 0x40_0000_0000, 0x40_0000_0000);
    }
    let u: Vec3 = if cr.length_squared() >= 1 {
        Vec3::unit_vector(cr)
    } else {
        // The up vector is parallel to the view direction; any unit vector
        // orthogonal to nothing in particular serves.
        Vec3::new(SCALE, 0, 0)
    };
    let v: Vec3 = Vec3::cross(w, u);
    proof {
        crate::vec3::lemma_cross_bound(w.v(), u.v(), 131072, 131072);
        assert(2 * (131072int * 131072) / 65536 == 524288int);
    }
    (u, v, w)
}

/// The tangent of a half-angle, clamped into `[0, 16]`: enough for every
/// supported field of view, and total where the cosine polynomial would
/// otherwise underflow.
fn clamped_tangent(half_angle: i64) -> (r: i64)
    requires
        0 <= half_angle <= 2 * SCALE,
    ensures
        0 <= r <= 16 * SCALE,
        r as int == tan_clamped_s(half_angle as int),
{
    let s: i64 = fx_sin(half_angle);
    let c: i64 = fx_cos(half_angle);
    if c < 1 {
        return 16 * SCALE;
    }
    proof {
        lemma_fx_div_bound(s as int, c as int, 35 * SCALE as int);
    }
    let t: i64 = crate::fixed::fx_div(s, c);
    if t < 0 {
        0
    } else if t > 16 * SCALE {
        16 * SCALE
    } else {
        t
    }
}

/// A double-width fixed-point product for sample positions.
fn mul_fx_wide(a: i64, b: i64) -> (r: i128)
    ensures
        r as int == crate::fixed::fx_mul_s(a as int, b as int),
        iabs(r as int) <= 0x4000_0000_0000_0000_0000_0000_0000,
{
    proof {
        assert(iabs(a as int * b as int) <= 0x8000_0000_0000_0000 * 0x8000_0000_0000_0000)
            by (nonlinear_arith)
            requires
                iabs(a as int) <= 0x8000_0000_0000_0000,
                iabs(b as int) <= 0x8000_0000_0000_0000,
        ;
        lemma_tdiv_mag(
            a as int * b as int,
            SCALE as int,
            0x8000_0000_0000_0000int * 0x8000_0000_0000_0000,
        );
        assert(0x8000_0000_0000_0000int * 0x8000_0000_0000_0000 / 65536
            <= 0x4000_0000_0000_0000_0000_0000_0000int);
    }
    tdiv_by((a as i128) * (b as i128), SCALE as i128)
}

/// Componentwise bound of a scaled vector: `|fx_mul_s(a.c, t)| <= ma*mt/S`.
proof fn lemma_scale_bounds(a: V3, t: int, ma: int, mt: int)
    requires
        bounded_s(a, ma),
        iabs(t) <= mt,
    ensures
        iabs(crate::fixed::fx_mul_s(a.x, t)) <= ma * mt / (SCALE as int),
        iabs(crate::fixed::fx_mul_s(a.y, t)) <= ma * mt / (SCALE as int),
        iabs(crate::fixed::fx_mul_s(a.z, t)) <= ma * mt / (SCALE as int),
        ma * mt / (SCALE as int) <= ma * mt,
{
    lemma_fx_mul_bound(a.x, t, ma, mt);
    lemma_fx_mul_bound(a.y, t, ma, mt);
    lemma_fx_mul_bound(a.z, t, ma, mt);
}

/// Componentwise bound of a vector divided by at least one whole unit.
proof fn lemma_div_unit_bounds(a: V3, t: int, ma: int)
    requires
        bounded_s(a, ma),
        t >= SCALE,
    ensures
        iabs(fx_div_s(a.x, t)) <= ma,
        iabs(fx_div_s(a.y, t)) <= ma,
        iabs(fx_div_s(a.z, t)) <= ma,
{
    crate::fixed::lemma_fx_div_unit(a.x, t, ma);
    crate::fixed::lemma_fx_div_unit(a.y, t, ma);
    crate::fixed::lemma_fx_div_unit(a.z, t, ma);
}

} // verus!
