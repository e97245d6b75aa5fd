//! The BT.601 colour transform for one pixel.
//!
//! A pixel's channels are computed from its luma sample `y` and its centred
//! chroma samples `u - 128`, `v - 128` as
//!
//! ```text
//! R = y + 1.402 * (v - 128)
//! G = y - 0.344 * (u - 128) - 0.714 * (v - 128)
//! B = y + 1.772 * (u - 128)
//! ```
//!
//! evaluated in single-precision fused-multiply-add order (each
//! multiply-and-accumulate rounds once), then narrowed to a byte by a
//! saturating truncation.  The four coefficients are single-precision values
//! and exact multiples of 2^-25, so the whole computation is carried here as
//! exact integer arithmetic on values scaled by 2^25, with
//! [`crate::rounding::round_single`] as the per-step rounding.

use crate::rounding::{round_single, round_to_single};
use vstd::prelude::*;

verus! {

/// One in the scaled domain: 2^25.
pub const UNIT: i64 = 0x200_0000;

/// The red/V coefficient: 1.402 rounded to single precision, times 2^25.
pub const RV_COEF: i64 = 47043312;

/// The green/U coefficient: 0.344 rounded to single precision, times 2^25.
pub const GU_COEF: i64 = 11542725;

/// The green/V coefficient: 0.714 rounded to single precision, times 2^25.
pub const GV_COEF: i64 = 23957864;

/// The blue/U coefficient: 1.772 rounded to single precision, times 2^25.
pub const BU_COEF: i64 = 59458452;

/// Saturating truncation of a scaled channel value to a byte: negative
/// values clamp to 0, values of 256 or more clamp to 255, anything else is
/// truncated towards zero.
pub open spec fn sat_u8(n: int) -> u8 {
    if n < 0 {
        0u8
    } else if n / (UNIT as int) >= 256 {
        255u8
    } else {
        (n / (UNIT as int)) as u8
    }
}

/// The red channel of a pixel with luma `y` and chroma-red `v`.
pub open spec fn red_of(y: u8, v: u8) -> u8 {
    sat_u8(round_single(RV_COEF * (v - 128) + y * UNIT))
}

/// The green channel of a pixel: two fused multiply-adds, each rounding
/// once, exactly as both converters evaluate it.
pub open spec fn green_of(y: u8, u: u8, v: u8) -> u8 {
    sat_u8(round_single(round_single(y * UNIT - GU_COEF * (u - 128)) - GV_COEF * (v - 128)))
}

/// The blue channel of a pixel with luma `y` and chroma-blue `u`.
pub open spec fn blue_of(y: u8, u: u8) -> u8 {
    sat_u8(round_single(BU_COEF * (u - 128) + y * UNIT))
}

/// Saturating truncation of a scaled channel value.
fn sat_u8_exec(n: i64) -> (b: u8)
    ensures
        b == sat_u8(n as int),
{
    if n < 0 {
        0
    } else {
        let t: u64 = (n as u64) / 0x200_0000;
        if t >= 256 {
            255
        } else {
            t as u8
        }
    }
}

/// Convert one (Y, U, V) sample triple to an RGB8 triple.
pub fn rgb_pixel(y: u8, u: u8, v: u8) -> (rgb: (u8, u8, u8))
    ensures
        rgb.0 == red_of(y, v),
        rgb.1 == green_of(y, u, v),
        rgb.2 == blue_of(y, u),
{
    let ys: i64 = (y as i64) * UNIT;
    let du: i64 = (u as i64) - 128;
    let dv: i64 = (v as i64) - 128;
    let rn: i64 = round_to_single(RV_COEF * dv + ys);
    let g1: i64 = round_to_single(ys - GU_COEF * du);
    let gn: i64 = round_to_single(g1 - GV_COEF * dv);
    let bn: i64 = round_to_single(BU_COEF * du + ys);
    (sat_u8_exec(rn), sat_u8_exec(gn), sat_u8_exec(bn))
}

} // verus!
