//! From linear light to display bytes: gamma-2 correction (a square root),
//! a clamp that stops one whole unit from overflowing a byte, and the scale
//! to `[0, 255]`.
use crate::fixed::{fx_sqrt_s, lemma_sqrt_floor, lemma_tdiv_mag, tdiv, SCALE};
use crate::interval::Interval;
use crate::renderer::{Cord, Pixel};
use crate::vec3::Vec3;
use vstd::prelude::*;

verus! {

/// Colors are vectors of linear intensities, one unit being full brightness.
pub type Color = Vec3;

/// The top of the quantization clamp: just under one, so that a full
/// intensity of exactly one maps to byte 255 and never to 256.
pub const INTENSITY_MAX: i64 = 65470;

/// Gamma-2 correction: the square root of a positive intensity, zero for
/// anything else.
pub open spec fn linear_to_gamma_s(c: int) -> int {
    if c > 0 {
        fx_sqrt_s(c)
    } else {
        0
    }
}

/// The displayed byte of one linear component: gamma, clamp to
/// `[0, INTENSITY_MAX]`, scale by 256.
pub open spec fn byte_of(c: int) -> int {
    let g = linear_to_gamma_s(c);
    let cl = if g < 0 {
        0
    } else if g > INTENSITY_MAX as int {
        INTENSITY_MAX as int
    } else {
        g
    };
    cl * 256 / (SCALE as int)
}

/// Gamma-2 correction of one linear component.
pub fn linear_to_gamma(linear_component: i64) -> (r: i64)
    requires
        linear_component as int <= 0xFFFF_FFFF_FFFF,
    ensures
        r as int == linear_to_gamma_s(linear_component as int),
        r >= 0,
{
    if linear_component > 0 {
        return crate::fixed::fx_sqrt(linear_component);
    }
    0
}

/// `byte_of` always lands in a byte.
pub proof fn lemma_byte_range(c: int)
    ensures
        0 <= byte_of(c) <= 255,
{
    let g = linear_to_gamma_s(c);
    if c > 0 {
        lemma_sqrt_floor(c * SCALE as int);
    }
    let cl = if g < 0 {
        0int
    } else if g > INTENSITY_MAX as int {
        INTENSITY_MAX as int
    } else {
        g
    };
    assert(0 <= cl <= INTENSITY_MAX as int);
    assert(cl * 256 <= 65470 * 256) by (nonlinear_arith)
        requires
            0 <= cl <= 65470,
    ;
    assert(cl * 256 >= 0) by (nonlinear_arith)
        requires
            cl >= 0,
    ;
    vstd::arithmetic::div_mod::lemma_div_pos_is_pos(cl * 256, SCALE as int);
    vstd::arithmetic::div_mod::lemma_div_is_ordered(cl * 256, 65470int * 256, SCALE as int);
}

/// The quantization endpoints: a linear component of exactly one maps to
/// byte 255 — the clamp strictly below one keeps the scale from reaching 256
/// — and a component of zero maps to byte 0.
pub proof fn lemma_quantization_endpoints()
    ensures
        byte_of(SCALE as int) == 255,
        byte_of(0) == 0,
{
    assert(65536int * 65536 <= 65536int * 65536);
    assert((65536int + 1) * (65536int + 1) > 65536int * 65536) by (nonlinear_arith);
    crate::fixed::lemma_sqrt_floor_unique(65536int * 65536, 65536int);
    assert(fx_sqrt_s(SCALE as int) == 65536);
    assert(65470int * 256 / 65536 == 255);
}

/// Quantize one averaged color into its output pixel: per component, gamma
/// correction, the clamp to `[0, 0.999]`, and the scale to a byte.
pub fn write_color(cord: &Cord, pixel_color: &Color) -> (p: Pixel)
    requires
        pixel_color.v().x <= 0xFFFF_FFFF_FFFF,
        pixel_color.v().y <= 0xFFFF_FFFF_FFFF,
        pixel_color.v().z <= 0xFFFF_FFFF_FFFF,
    ensures
        p.cord == *cord,
        p.color.0 as int == byte_of(pixel_color.v().x),
        p.color.1 as int == byte_of(pixel_color.v().y),
        p.color.2 as int == byte_of(pixel_color.v().z),
{
    let r: i64 = linear_to_gamma(pixel_color.x());
    let g: i64 = linear_to_gamma(pixel_color.y());
    let b: i64 = linear_to_gamma(pixel_color.z());

    let intensity: Interval = Interval::new(0, INTENSITY_MAX);
    let rbyte: i64 = quantize(intensity.clamp(r));
    let gbyte: i64 = quantize(intensity.clamp(g));
    let bbyte: i64 = quantize(intensity.clamp(b));
    proof {
        lemma_byte_range(pixel_color.v().x);
        lemma_byte_range(pixel_color.v().y);
        lemma_byte_range(pixel_color.v().z);
    }
    Pixel { cord: *cord, color: (rbyte as u8, gbyte as u8, bbyte as u8) }
}

/// Scale a clamped intensity to its byte value.
fn quantize(cl: i64) -> (r: i64)
    requires
        0 <= cl <= INTENSITY_MAX,
    ensures
        r as int == cl as int * 256 / (SCALE as int),
{
    proof {
        assert(cl as int * 256 <= 65470 * 256) by (nonlinear_arith)
            requires
                0 <= cl as int <= 65470,
        ;
        assert(cl as int * 256 >= 0) by (nonlinear_arith)
            requires
                cl as int >= 0,
        ;
        lemma_tdiv_mag(cl as int * 256, SCALE as int, 65470int * 256);
        assert(tdiv(cl as int * 256, SCALE as int) == cl as int * 256 / (SCALE as int));
    }
    let q: i128 = crate::fixed::tdiv_scale((cl as i128) * 256);
    q as i64
}

} // verus!
