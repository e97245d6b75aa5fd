//! Frame-level laws of the conversion.
//!
//! Both converters ensure [`crate::convert::rgb_written`], so every law
//! proved here about that predicate holds of either converter's output.

use crate::convert::{
    chroma_at, lemma_byte_in_frame, luma_at, rgb_byte, rgb_written,
};
use crate::transform::{blue_of, green_of, red_of};
use vstd::prelude::*;

verus! {

/// Law: conversion is a function of the frame alone.  Any two target
/// buffers with the same initial contents that both satisfy the conversion
/// postcondition are byte-identical.  With the postconditions of
/// `write_rgb8_scalar` and `write_rgb8_f32x8`, this makes the scalar and
/// the lane-batched converter produce byte-identical output on every frame
/// both accept.
pub proof fn lemma_converters_agree(
    yp: Seq<u8>,
    up: Seq<u8>,
    vp: Seq<u8>,
    w: int,
    h: int,
    sy: int,
    su: int,
    sv: int,
    t0: Seq<u8>,
    ta: Seq<u8>,
    tb: Seq<u8>,
)
    requires
        w >= 0,
        h >= 0,
        rgb_written(yp, up, vp, w, h, sy, su, sv, t0, ta),
        rgb_written(yp, up, vp, w, h, sy, su, sv, t0, tb),
    ensures
        ta == tb,
{
    vstd::arithmetic::mul::lemma_mul_nonnegative(w, h);
    assert forall|i: int| 0 <= i < ta.len() implies ta[i] == tb[i] by {
        if i < 3 * (w * h) {
            assert(ta[i] == rgb_byte(yp, up, vp, w, sy, su, sv, i));
            assert(tb[i] == rgb_byte(yp, up, vp, w, sy, su, sv, i));
        }
    }
    assert(ta =~= tb);
}

/// The channel transforms at black: zero luma with centred chroma gives
/// zero on every channel.
proof fn lemma_channels_black()
    ensures
        red_of(0, 128) == 0,
        green_of(0, 128, 128) == 0,
        blue_of(0, 128) == 0,
{
}

/// The channel transforms at white: full luma with centred chroma
/// saturates every channel at exactly 255, with no overshoot.
proof fn lemma_channels_white()
    ensures
        red_of(255, 128) == 255,
        green_of(255, 128, 128) == 255,
        blue_of(255, 128) == 255,
{
    assert(crate::rounding::ulp_of(8556380160) == 512) by {
        reveal_with_fuel(crate::rounding::ulp_of, 11);
    }
    assert(crate::rounding::round_mag(8556380160) == 8556380160);
}

/// A frame is uniform when every sample a pixel reads has the same value;
/// the output is then the same RGB triple at every pixel.
proof fn lemma_uniform_frame(
    yp: Seq<u8>,
    up: Seq<u8>,
    vp: Seq<u8>,
    w: int,
    h: int,
    sy: int,
    su: int,
    sv: int,
    t0: Seq<u8>,
    t1: Seq<u8>,
    yv: u8,
    uv: u8,
    vv: u8,
)
    requires
        w >= 0,
        h >= 0,
        rgb_written(yp, up, vp, w, h, sy, su, sv, t0, t1),
        forall|px: int, py: int|
            0 <= px < w && 0 <= py < h ==> #[trigger] luma_at(yp, sy, px, py) == yv,
        forall|px: int, py: int|
            0 <= px < w && 0 <= py < h ==> #[trigger] chroma_at(up, su, px, py) == uv,
        forall|px: int, py: int|
            0 <= px < w && 0 <= py < h ==> #[trigger] chroma_at(vp, sv, px, py) == vv,
    ensures
        forall|i: int|
            0 <= i < 3 * (w * h) ==> t1[i] == (if i % 3 == 0 {
                red_of(yv, vv)
            } else if i % 3 == 1 {
                green_of(yv, uv, vv)
            } else {
                blue_of(yv, uv)
            }),
{
    assert forall|i: int| 0 <= i < 3 * (w * h) implies t1[i] == (if i % 3 == 0 {
        red_of(yv, vv)
    } else if i % 3 == 1 {
        green_of(yv, uv, vv)
    } else {
        blue_of(yv, uv)
    }) by {
        if w == 0 || h == 0 {
            vstd::arithmetic::mul::lemma_mul_by_zero_is_zero(w);
            vstd::arithmetic::mul::lemma_mul_by_zero_is_zero(h);
        } else {
            lemma_byte_in_frame(w, h, i);
            let px = (i / 3) % w;
            let py = (i / 3) / w;
            assert(luma_at(yp, sy, px, py) == yv);
            assert(chroma_at(up, su, px, py) == uv);
            assert(chroma_at(vp, sv, px, py) == vv);
        }
    }
}

/// Law: a black frame (luma 0, both chroma planes centred at 128)
/// converts to (0, 0, 0) at every pixel — the chroma terms vanish and the
/// luma term is zero.
pub proof fn lemma_black_frame(
    yp: Seq<u8>,
    up: Seq<u8>,
    vp: Seq<u8>,
    w: int,
    h: int,
    sy: int,
    su: int,
    sv: int,
    t0: Seq<u8>,
    t1: Seq<u8>,
)
    requires
        w >= 0,
        h >= 0,
        rgb_written(yp, up, vp, w, h, sy, su, sv, t0, t1),
        forall|px: int, py: int|
            0 <= px < w && 0 <= py < h ==> #[trigger] luma_at(yp, sy, px, py) == 0,
        forall|px: int, py: int|
            0 <= px < w && 0 <= py < h ==> #[trigger] chroma_at(up, su, px, py) == 128,
        forall|px: int, py: int|
            0 <= px < w && 0 <= py < h ==> #[trigger] chroma_at(vp, sv, px, py) == 128,
    ensures
        forall|i: int| 0 <= i < 3 * (w * h) ==> t1[i] == 0,
{
    lemma_channels_black();
    lemma_uniform_frame(yp, up, vp, w, h, sy, su, sv, t0, t1, 0, 128, 128);
}

/// Law: a white frame (luma 255, both chroma planes centred at 128)
/// converts to (255, 255, 255) at every pixel — the luma term saturates at
/// the top of the range without overshoot.
pub proof fn lemma_white_frame(
    yp: Seq<u8>,
    up: Seq<u8>,
    vp: Seq<u8>,
    w: int,
    h: int,
    sy: int,
    su: int,
    sv: int,
    t0: Seq<u8>,
    t1: Seq<u8>,
)
    requires
        w >= 0,
        h >= 0,
        rgb_written(yp, up, vp, w, h, sy, su, sv, t0, t1),
        forall|px: int, py: int|
            0 <= px < w && 0 <= py < h ==> #[trigger] luma_at(yp, sy, px, py) == 255,
        forall|px: int, py: int|
            0 <= px < w && 0 <= py < h ==> #[trigger] chroma_at(up, su, px, py) == 128,
        forall|px: int, py: int|
            0 <= px < w && 0 <= py < h ==> #[trigger] chroma_at(vp, sv, px, py) == 128,
    ensures
        forall|i: int| 0 <= i < 3 * (w * h) ==> t1[i] == 255,
{
    lemma_channels_white();
    lemma_uniform_frame(yp, up, vp, w, h, sy, su, sv, t0, t1, 255, 128, 128);
}

/// Law: chroma sharing.  Two horizontally adjacent pixels in the same
/// 2-wide block read the same chroma samples, so their output triples are
/// the channel transforms of one shared (U, V) pair with each pixel's own
/// luma: the outputs differ only through the luma-dependent term.
pub proof fn lemma_chroma_sharing(
    yp: Seq<u8>,
    up: Seq<u8>,
    vp: Seq<u8>,
    w: int,
    sy: int,
    su: int,
    sv: int,
    px: int,
    py: int,
)
    requires
        0 <= py,
        0 <= px,
        px % 2 == 0,
        px + 1 < w,
    ensures
        ({
            let us = chroma_at(up, su, px, py);
            let vs = chroma_at(vp, sv, px, py);
            let i0 = 3 * (py * w + px);
            let i1 = 3 * (py * w + px + 1);
            &&& rgb_byte(yp, up, vp, w, sy, su, sv, i0) == red_of(luma_at(yp, sy, px, py), vs)
            &&& rgb_byte(yp, up, vp, w, sy, su, sv, i0 + 1) == green_of(
                luma_at(yp, sy, px, py),
                us,
                vs,
            )
            &&& rgb_byte(yp, up, vp, w, sy, su, sv, i0 + 2) == blue_of(luma_at(yp, sy, px, py), us)
            &&& rgb_byte(yp, up, vp, w, sy, su, sv, i1) == red_of(luma_at(yp, sy, px + 1, py), vs)
            &&& rgb_byte(yp, up, vp, w, sy, su, sv, i1 + 1) == green_of(
                luma_at(yp, sy, px + 1, py),
                us,
                vs,
            )
            &&& rgb_byte(yp, up, vp, w, sy, su, sv, i1 + 2) == blue_of(
                luma_at(yp, sy, px + 1, py),
                us,
            )
        }),
{
    crate::convert::lemma_pixel_index(w, px, py, 0);
    crate::convert::lemma_pixel_index(w, px, py, 1);
    crate::convert::lemma_pixel_index(w, px, py, 2);
    crate::convert::lemma_pixel_index(w, px + 1, py, 0);
    crate::convert::lemma_pixel_index(w, px + 1, py, 1);
    crate::convert::lemma_pixel_index(w, px + 1, py, 2);
    // the two pixels share one chroma column
    vstd::arithmetic::div_mod::lemma_fundamental_div_mod(px, 2);
    vstd::arithmetic::div_mod::lemma_fundamental_div_mod_converse(px + 1, 2, px / 2, 1);
}

/// Law: stride isolation.  The output reads only the logical samples of
/// each row — two frames that agree on every sample a pixel reads convert
/// to identical bytes, whatever the planes hold in their padding.
pub proof fn lemma_stride_isolation(
    yp: Seq<u8>,
    up: Seq<u8>,
    vp: Seq<u8>,
    yq: Seq<u8>,
    uq: Seq<u8>,
    vq: Seq<u8>,
    w: int,
    h: int,
    sy: int,
    su: int,
    sv: int,
)
    requires
        w >= 0,
        h >= 0,
        forall|px: int, py: int|
            0 <= px < w && 0 <= py < h ==> #[trigger] luma_at(yp, sy, px, py) == luma_at(
                yq,
                sy,
                px,
                py,
            ),
        forall|px: int, py: int|
            0 <= px < w && 0 <= py < h ==> #[trigger] chroma_at(up, su, px, py) == chroma_at(
                uq,
                su,
                px,
                py,
            ),
        forall|px: int, py: int|
            0 <= px < w && 0 <= py < h ==> #[trigger] chroma_at(vp, sv, px, py) == chroma_at(
                vq,
                sv,
                px,
                py,
            ),
    ensures
        forall|i: int|
            0 <= i < 3 * (w * h) ==> rgb_byte(yp, up, vp, w, sy, su, sv, i) == rgb_byte(
                yq,
                uq,
                vq,
                w,
                sy,
                su,
                sv,
                i,
            ),
{
    assert forall|i: int| 0 <= i < 3 * (w * h) implies rgb_byte(yp, up, vp, w, sy, su, sv, i)
        == rgb_byte(yq, uq, vq, w, sy, su, sv, i) by {
        if w == 0 || h == 0 {
            vstd::arithmetic::mul::lemma_mul_by_zero_is_zero(w);
            vstd::arithmetic::mul::lemma_mul_by_zero_is_zero(h);
        } else {
            lemma_byte_in_frame(w, h, i);
            let px = (i / 3) % w;
            let py = (i / 3) / w;
            assert(luma_at(yp, sy, px, py) == luma_at(yq, sy, px, py));
            assert(chroma_at(up, su, px, py) == chroma_at(uq, su, px, py));
            assert(chroma_at(vp, sv, px, py) == chroma_at(vq, sv, px, py));
        }
    }
}

} // verus!

