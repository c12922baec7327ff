use vstd::prelude::*;
use crate::math::{tdiv, div_toward_zero, SCALE};

verus! {

/// Number of subsamples averaged into one pixel.
pub const SUBPIXELS_NUM: u32 = 4;

/// Largest magnitude of a light intensity that a color can be scaled by.
pub const LIGHT_CAP: i128 = 1_000_000_000_000_000_000_000_000;

/// An 8-bit RGB color.
#[derive(Clone, Copy, Debug, PartialEq, Eq, Structural)]
pub struct Color(pub u8, pub u8, pub u8);

/// Clamps a channel value to `[0, 255]`.
pub open spec fn clamp_channel(v: int) -> int {
    if v < 0 {
        0
    } else if v > 255 {
        255
    } else {
        v
    }
}

/// A channel scaled by a fixed-point intensity, rounded toward zero, then clamped.
pub open spec fn scale_channel(ch: int, k: int) -> int {
    clamp_channel(tdiv(ch * k, SCALE as int))
}

pub open spec fn scale_color(c: Color, k: int) -> Color {
    Color(
        scale_channel(c.0 as int, k) as u8,
        scale_channel(c.1 as int, k) as u8,
        scale_channel(c.2 as int, k) as u8,
    )
}

/// `local * (1 - w) + reflected * w` with `w = weight / SCALE`, rounded down.
pub open spec fn blend_channel(local: int, reflected: int, weight: int) -> int {
    (local * (SCALE - weight) + reflected * weight) / (SCALE as int)
}

pub open spec fn blend_color(local: Color, reflected: Color, weight: int) -> Color {
    Color(
        blend_channel(local.0 as int, reflected.0 as int, weight) as u8,
        blend_channel(local.1 as int, reflected.1 as int, weight) as u8,
        blend_channel(local.2 as int, reflected.2 as int, weight) as u8,
    )
}

/// The mean of a channel over the subsamples, rounded down and clamped.
pub open spec fn average_channel(sum: int) -> int {
    clamp_channel(sum / (SUBPIXELS_NUM as int))
}

fn update_channel(ch: u8, light_intensity: i128) -> (r: u8)
    requires
        -LIGHT_CAP <= light_intensity <= LIGHT_CAP,
    ensures
        r == scale_channel(ch as int, light_intensity as int),
{
    proof {
        crate::math::lemma_mul_bound(ch as int, light_intensity as int, 255, LIGHT_CAP as int);
    }
    let res = div_toward_zero((ch as i128) * light_intensity, SCALE as i128);
    if res > 255 {
        255
    } else if res < 0 {
        0
    } else {
        res as u8
    }
}

/// Scales each channel by a light intensity in thousandths, clamping to `[0, 255]`.
pub fn update_color(color: &Color, light_intensity: i128) -> (r: Color)
    requires
        -LIGHT_CAP <= light_intensity <= LIGHT_CAP,
    ensures
        r == scale_color(*color, light_intensity as int),
{
    Color(
        update_channel(color.0, light_intensity),
        update_channel(color.1, light_intensity),
        update_channel(color.2, light_intensity),
    )
}

fn convert(x: u32) -> (r: u8)
    ensures
        r == clamp_channel(x as int),
{
    if x > 255 {
        255
    } else {
        x as u8
    }
}

/// Turns per-channel sums of the subsamples into their mean color.
pub fn average_color(color_sum: (u32, u32, u32)) -> (r: Color)
    ensures
        r.0 == average_channel(color_sum.0 as int),
        r.1 == average_channel(color_sum.1 as int),
        r.2 == average_channel(color_sum.2 as int),
{
    let r: u8 = convert(color_sum.0 / SUBPIXELS_NUM);
    let g: u8 = convert(color_sum.1 / SUBPIXELS_NUM);
    let b: u8 = convert(color_sum.2 / SUBPIXELS_NUM);
    Color(r, g, b)
}

proof fn lemma_blend_range(local: int, reflected: int, weight: int)
    requires
        0 <= local <= 255,
        0 <= reflected <= 255,
        0 <= weight <= SCALE,
    ensures
        0 <= local * (SCALE - weight) + reflected * weight <= 255 * SCALE,
        0 <= blend_channel(local, reflected, weight) <= 255,
{
    assert(0 <= local * (1000 - weight) + reflected * weight <= 255000) by (nonlinear_arith)
        requires
            0 <= local <= 255,
            0 <= reflected <= 255,
            0 <= weight <= 1000,
    ;
}

fn blend_channel_exec(local: u8, reflected: u8, weight: i64) -> (r: u8)
    requires
        0 <= weight <= SCALE,
    ensures
        r == blend_channel(local as int, reflected as int, weight as int),
{
    proof {
        lemma_blend_range(local as int, reflected as int, weight as int);
    }
    let v = (local as i64) * (SCALE - weight) + (reflected as i64) * weight;
    (v / SCALE) as u8
}

/// Mixes a locally shaded color with a reflected one; `weight` (thousandths) goes to the reflection.
pub fn blend(local: &Color, reflected: &Color, weight: i64) -> (r: Color)
    requires
        0 <= weight <= SCALE,
    ensures
        r == blend_color(*local, *reflected, weight as int),
{
    Color(
        blend_channel_exec(local.0, reflected.0, weight),
        blend_channel_exec(local.1, reflected.1, weight),
        blend_channel_exec(local.2, reflected.2, weight),
    )
}

} // verus!
