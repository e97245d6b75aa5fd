//! Frame conversion: planar YUV 4:2:0 in, interleaved RGB8 out.
//!
//! A frame is three byte planes with per-plane row strides.  Luma has one
//! sample per pixel; each chroma sample serves a 2x2 pixel block, so a pixel
//! `(px, py)` reads `y[py*sy + px]`, `u[(py/2)*su + px/2]` and
//! `v[(py/2)*sv + px/2]`.  The target buffer is tightly packed, three bytes
//! per pixel.  Both converters ensure the same postcondition,
//! [`rgb_written`], which pins every written byte to [`rgb_byte`]; their
//! outputs are therefore byte-identical (see [`crate::props`]).

use crate::transform::{blue_of, green_of, red_of, rgb_pixel};
use vstd::arithmetic::div_mod::{
    lemma_div_is_ordered, lemma_fundamental_div_mod, lemma_fundamental_div_mod_converse,
    lemma_mod_add_multiples_vanish, lemma_mod_multiples_vanish, lemma_small_mod,
    lemma_sub_mod_noop,
};
use vstd::arithmetic::mul::{
    lemma_mul_inequality, lemma_mul_is_commutative, lemma_mul_is_distributive_add_other_way,
};
use vstd::prelude::*;

verus! {

/// The luma sample a pixel `(px, py)` reads from a plane with row stride
/// `s`.
pub open spec fn luma_at(p: Seq<u8>, s: int, px: int, py: int) -> u8 {
    p[py * s + px]
}

/// The chroma sample a pixel `(px, py)` reads: one sample per 2x2 block.
pub open spec fn chroma_at(p: Seq<u8>, s: int, px: int, py: int) -> u8 {
    p[(py / 2) * s + px / 2]
}

/// Byte `i` of the interleaved RGB8 output of a `w` pixel wide frame: pixel
/// `i / 3`, channel `i % 3`.
pub open spec fn rgb_byte(
    yp: Seq<u8>,
    up: Seq<u8>,
    vp: Seq<u8>,
    w: int,
    sy: int,
    su: int,
    sv: int,
    i: int,
) -> u8 {
    let px = (i / 3) % w;
    let py = (i / 3) / w;
    if i % 3 == 0 {
        red_of(luma_at(yp, sy, px, py), chroma_at(vp, sv, px, py))
    } else if i % 3 == 1 {
        green_of(luma_at(yp, sy, px, py), chroma_at(up, su, px, py), chroma_at(vp, sv, px, py))
    } else {
        blue_of(luma_at(yp, sy, px, py), chroma_at(up, su, px, py))
    }
}

/// Every sample index a `w` by `h` frame reads lies inside its plane.
pub open spec fn planes_cover(
    yp: Seq<u8>,
    up: Seq<u8>,
    vp: Seq<u8>,
    w: int,
    h: int,
    sy: int,
    su: int,
    sv: int,
) -> bool {
    &&& sy >= 0
    &&& su >= 0
    &&& sv >= 0
    &&& w > 0 && h > 0 ==> {
        &&& (h - 1) * sy + (w - 1) < yp.len()
        &&& ((h - 1) / 2) * su + (w - 1) / 2 < up.len()
        &&& ((h - 1) / 2) * sv + (w - 1) / 2 < vp.len()
    }
}

/// What a conversion does to the target: the first `3*w*h` bytes hold the
/// interleaved RGB8 image, everything beyond is untouched, and the length is
/// unchanged.
pub open spec fn rgb_written(
    yp: Seq<u8>,
    up: Seq<u8>,
    vp: Seq<u8>,
    w: int,
    h: int,
    sy: int,
    su: int,
    sv: int,
    t0: Seq<u8>,
    t1: Seq<u8>,
) -> bool {
    &&& t1.len() == t0.len()
    &&& forall|i: int| 0 <= i < 3 * (w * h) ==> t1[i] == rgb_byte(yp, up, vp, w, sy, su, sv, i)
    &&& forall|i: int| 3 * (w * h) <= i < t1.len() ==> t1[i] == t0[i]
}

/// Index arithmetic for one pixel: byte `3*(py*w + px) + c` of the output
/// belongs to pixel `(px, py)` and channel `c`.
pub proof fn lemma_pixel_index(w: int, px: int, py: int, c: int)
    requires
        0 <= px < w,
        0 <= py,
        0 <= c < 3,
    ensures
        (3 * (py * w + px) + c) / 3 == py * w + px,
        (3 * (py * w + px) + c) % 3 == c,
        (py * w + px) % w == px,
        (py * w + px) / w == py,
        py * w + px >= 0,
{
    let k = py * w + px;
    vstd::arithmetic::mul::lemma_mul_nonnegative(py, w);
    lemma_mul_is_commutative(3, k);
    lemma_fundamental_div_mod_converse(3 * k + c, 3, k, c);
    lemma_mul_is_commutative(py, w);
    lemma_fundamental_div_mod_converse(k, w, py, px);
}

/// A byte index below `3*(w*h)` decomposes into a pixel inside the frame.
pub proof fn lemma_byte_in_frame(w: int, h: int, i: int)
    requires
        w > 0,
        h > 0,
        0 <= i < 3 * (w * h),
    ensures
        0 <= (i / 3) % w < w,
        0 <= (i / 3) / w < h,
        i % 3 < 3,
        i == 3 * (((i / 3) / w) * w + (i / 3) % w) + i % 3,
{
    let k = i / 3;
    lemma_fundamental_div_mod(i, 3);
    assert(0 <= k < w * h) by {
        lemma_div_is_ordered(i, 3 * (w * h) - 1, 3);
        assert((3 * (w * h) - 1) / 3 == w * h - 1) by {
            lemma_fundamental_div_mod_converse(3 * (w * h) - 1, 3, w * h - 1, 2);
            lemma_mul_is_distributive_add_other_way(3, w * h - 1, 1);
        }
        vstd::arithmetic::div_mod::lemma_div_pos_is_pos(i, 3);
    }
    lemma_fundamental_div_mod(k, w);
    vstd::arithmetic::div_mod::lemma_mod_bound(k, w);
    vstd::arithmetic::div_mod::lemma_div_pos_is_pos(k, w);
    assert(k / w < h) by {
        if k / w >= h {
            lemma_mul_inequality(h, k / w, w);
            lemma_mul_is_commutative(k / w, w);
            lemma_mul_is_commutative(h, w);
        }
    }
    lemma_mul_is_commutative(k / w, w);
}

/// The sample indices of a pixel inside the frame lie inside the planes.
pub proof fn lemma_sample_in_bounds(
    yp: Seq<u8>,
    up: Seq<u8>,
    vp: Seq<u8>,
    w: int,
    h: int,
    sy: int,
    su: int,
    sv: int,
    px: int,
    py: int,
)
    requires
        planes_cover(yp, up, vp, w, h, sy, su, sv),
        0 <= px < w,
        0 <= py < h,
    ensures
        0 <= py * sy + px < yp.len(),
        0 <= (py / 2) * su + px / 2 < up.len(),
        0 <= (py / 2) * sv + px / 2 < vp.len(),
{
    lemma_mul_inequality(py, h - 1, sy);
    vstd::arithmetic::mul::lemma_mul_nonnegative(py, sy);
    lemma_div_is_ordered(py, h - 1, 2);
    lemma_div_is_ordered(px, w - 1, 2);
    vstd::arithmetic::div_mod::lemma_div_pos_is_pos(py, 2);
    vstd::arithmetic::div_mod::lemma_div_pos_is_pos(px, 2);
    lemma_mul_inequality(py / 2, (h - 1) / 2, su);
    lemma_mul_inequality(py / 2, (h - 1) / 2, sv);
    vstd::arithmetic::mul::lemma_mul_nonnegative(py / 2, su);
    vstd::arithmetic::mul::lemma_mul_nonnegative(py / 2, sv);
}

/// Write RGB8 data from YUV420 with scalar, pixel-at-a-time arithmetic.
#[verifier::loop_isolation(false)]
pub fn write_rgb8_scalar(
    y_plane: &[u8],
    u_plane: &[u8],
    v_plane: &[u8],
    dim: (usize, usize),
    strides: (usize, usize, usize),
    target: &mut [u8],
)
    requires
        dim.0 % 2 == 0,
        dim.1 % 2 == 0,
        planes_cover(
            y_plane@,
            u_plane@,
            v_plane@,
            dim.0 as int,
            dim.1 as int,
            strides.0 as int,
            strides.1 as int,
            strides.2 as int,
        ),
        3 * (dim.0 * dim.1) <= old(target)@.len(),
    ensures
        rgb_written(
            y_plane@,
            u_plane@,
            v_plane@,
            dim.0 as int,
            dim.1 as int,
            strides.0 as int,
            strides.1 as int,
            strides.2 as int,
            old(target)@,
            final(target)@,
        ),
{
    let (w, h) = dim;
    let tlen: usize = target.len();
    let ylen: usize = y_plane.len();
    let ulen: usize = u_plane.len();
    let vlen: usize = v_plane.len();
    let mut py: usize = 0;
    while py < h
        invariant
            tlen == target@.len(),
            py <= h,
            target@.len() == old(target)@.len(),
            forall|i: int|
                0 <= i < 3 * (py as int * w as int) ==> target@[i] == rgb_byte(
                    y_plane@,
                    u_plane@,
                    v_plane@,
                    w as int,
                    strides.0 as int,
                    strides.1 as int,
                    strides.2 as int,
                    i,
                ),
            forall|i: int|
                3 * (py as int * w as int) <= i < target@.len() ==> target@[i] == old(target)@[i],
        decreases h - py,
    {
        let mut px: usize = 0;
        proof {
            lemma_mul_inequality(py as int + 1, h as int, w as int);
            lemma_mul_is_commutative(py as int + 1, w as int);
            lemma_mul_is_commutative(h as int, w as int);
            lemma_mul_is_distributive_add_other_way(w as int, py as int, 1);
        }
        while px < w
            invariant
                tlen == target@.len(),
                py < h,
                px <= w,
                py as int * w as int + px as int <= w as int * h as int,
                target@.len() == old(target)@.len(),
                forall|i: int|
                    0 <= i < 3 * (py as int * w as int + px as int) ==> target@[i] == rgb_byte(
                        y_plane@,
                        u_plane@,
                        v_plane@,
                        w as int,
                        strides.0 as int,
                        strides.1 as int,
                        strides.2 as int,
                        i,
                    ),
                forall|i: int|
                    3 * (py as int * w as int + px as int) <= i < target@.len() ==> target@[i]
                        == old(target)@[i],
            decreases w - px,
        {
            proof {
                lemma_sample_in_bounds(
                    y_plane@,
                    u_plane@,
                    v_plane@,
                    w as int,
                    h as int,
                    strides.0 as int,
                    strides.1 as int,
                    strides.2 as int,
                    px as int,
                    py as int,
                );
                lemma_mul_inequality(py as int, h as int - 1, w as int);
                vstd::arithmetic::mul::lemma_mul_nonnegative(w as int, h as int);
                vstd::arithmetic::mul::lemma_mul_nonnegative(py as int, w as int);
                lemma_pixel_index(w as int, px as int, py as int, 0);
                lemma_pixel_index(w as int, px as int, py as int, 1);
                lemma_pixel_index(w as int, px as int, py as int, 2);
            }
            let base_tgt: usize = (py * w + px) * 3;
            let base_y: usize = py * strides.0 + px;
            let base_u: usize = (py / 2) * strides.1 + px / 2;
            let base_v: usize = (py / 2) * strides.2 + px / 2;

            let ys: u8 = y_plane[base_y];
            let us: u8 = u_plane[base_u];
            let vs: u8 = v_plane[base_v];
            let (r, g, b) = rgb_pixel(ys, us, vs);
            target[base_tgt] = r;
            target[base_tgt + 1] = g;
            target[base_tgt + 2] = b;
            px = px + 1;
        }
        proof {
            lemma_mul_is_distributive_add_other_way(w as int, py as int, 1);
            lemma_mul_is_commutative(py as int + 1, w as int);
        }
        py = py + 1;
    }
    proof {
        lemma_mul_is_commutative(h as int, w as int);
    }
}

/// Byte `j` of one converted row: pixel `j / 3` of the row, channel
/// `j % 3`; the chroma rows are half-length, each sample shared by two
/// adjacent pixels.
pub open spec fn row_byte(yr: Seq<u8>, ur: Seq<u8>, vr: Seq<u8>, j: int) -> u8 {
    let p = j / 3;
    if j % 3 == 0 {
        red_of(yr[p], vr[p / 2])
    } else if j % 3 == 1 {
        green_of(yr[p], ur[p / 2], vr[p / 2])
    } else {
        blue_of(yr[p], ur[p / 2])
    }
}

/// Two multiples of eight with one strictly between the other and itself
/// differ by at least one full lane.
proof fn lemma_lane_step(x: int, w: int)
    requires
        0 <= x < w,
        x % 8 == 0,
        w % 8 == 0,
    ensures
        x + 8 <= w,
{
    let d = w - x;
    lemma_sub_mod_noop(w, x, 8);
    if d < 8 {
        lemma_small_mod(d as nat, 8);
    }
}

/// Load eight adjacent samples into a lane block.
#[verifier::loop_isolation(false)]
fn load_lanes(src: &[u8], base: usize) -> (lanes: [u8; 8])
    requires
        base + 8 <= src@.len(),
    ensures
        forall|k: int| 0 <= k < 8 ==> lanes@[k] == src@[base + k],
{
    let slen: usize = src.len();
    let mut lanes: [u8; 8] = [0; 8];
    let mut k: usize = 0;
    while k < 8
        invariant
            k <= 8,
            forall|j: int| 0 <= j < k ==> lanes@[j] == src@[base + j],
        decreases 8 - k,
    {
        lanes[k] = src[base + k];
        k = k + 1;
    }
    lanes
}

/// Strided gather with replication factor 2: each source sample fills two
/// adjacent lanes, so four chroma samples serve eight pixels.
#[verifier::loop_isolation(false)]
fn load_lanes_rep2(src: &[u8], base: usize) -> (lanes: [u8; 8])
    requires
        base + 4 <= src@.len(),
    ensures
        forall|k: int| 0 <= k < 8 ==> lanes@[k] == src@[base + k / 2],
{
    let slen: usize = src.len();
    let mut lanes: [u8; 8] = [0; 8];
    let mut k: usize = 0;
    while k < 8
        invariant
            k <= 8,
            forall|j: int| 0 <= j < k ==> lanes@[j] == src@[base + j / 2],
        decreases 8 - k,
    {
        lanes[k] = src[base + k / 2];
        k = k + 1;
    }
    lanes
}

/// Write one RGB8 row from YUV420 row windows, eight pixels per batch.
///
/// `y_row` is one luma row, `u_row` and `v_row` the half-length chroma row
/// windows shared by two luma rows; the output row starts at byte
/// `tgt_base` of `target`.
#[verifier::loop_isolation(false)]
pub fn write_rgb8_f32x8_row(
    y_row: &[u8],
    u_row: &[u8],
    v_row: &[u8],
    width: usize,
    target: &mut [u8],
    tgt_base: usize,
)
    requires
        y_row@.len() == 2 * u_row@.len(),
        y_row@.len() == 2 * v_row@.len(),
        y_row@.len() % 8 == 0,
        width % 8 == 0,
        width <= y_row@.len(),
        tgt_base + 3 * width <= old(target)@.len(),
    ensures
        final(target)@.len() == old(target)@.len(),
        forall|j: int|
            0 <= j < 3 * width ==> final(target)@[tgt_base + j] == row_byte(
                y_row@,
                u_row@,
                v_row@,
                j,
            ),
        forall|i: int|
            0 <= i < final(target)@.len() && !(tgt_base <= i < tgt_base + 3 * width)
                ==> final(target)@[i] == old(target)@[i],
{
    let tlen: usize = target.len();
    let ylen: usize = y_row.len();
    let ulen: usize = u_row.len();
    let vlen: usize = v_row.len();
    let mut x: usize = 0;
    while x < width
        invariant
            x <= width,
            x % 8 == 0,
            target@.len() == old(target)@.len(),
            forall|j: int|
                0 <= j < 3 * x ==> target@[tgt_base + j] == row_byte(y_row@, u_row@, v_row@, j),
            forall|i: int|
                0 <= i < target@.len() && !(tgt_base <= i < tgt_base + 3 * x) ==> target@[i]
                    == old(target)@[i],
        decreases width - x,
    {
        proof {
            lemma_lane_step(x as int, width as int);
            // the chroma windows hold the four samples of this batch
            assert((2 * (ulen as int) - 8) / 2 == ulen as int - 4) by {
                lemma_fundamental_div_mod_converse(2 * (ulen as int) - 8, 2, ulen as int - 4, 0);
            }
            assert((2 * (vlen as int) - 8) / 2 == vlen as int - 4) by {
                lemma_fundamental_div_mod_converse(2 * (vlen as int) - 8, 2, vlen as int - 4, 0);
            }
            lemma_div_is_ordered(x as int, 2 * (ulen as int) - 8, 2);
            lemma_div_is_ordered(x as int, 2 * (vlen as int) - 8, 2);
        }
        let yl: [u8; 8] = load_lanes(y_row, x);
        let ul: [u8; 8] = load_lanes_rep2(u_row, x / 2);
        let vl: [u8; 8] = load_lanes_rep2(v_row, x / 2);
        let mut k: usize = 0;
        while k < 8
            invariant
                k <= 8,
                x + 8 <= width,
                target@.len() == old(target)@.len(),
                forall|j: int|
                    0 <= j < 3 * (x + k) ==> target@[tgt_base + j] == row_byte(
                        y_row@,
                        u_row@,
                        v_row@,
                        j,
                    ),
                forall|i: int|
                    0 <= i < target@.len() && !(tgt_base <= i < tgt_base + 3 * (x + k))
                        ==> target@[i] == old(target)@[i],
            decreases 8 - k,
        {
            let px: usize = x + k;
            proof {
                lemma_fundamental_div_mod(x as int, 2);
                lemma_fundamental_div_mod(k as int, 2);
                lemma_fundamental_div_mod_converse(
                    px as int,
                    2,
                    x as int / 2 + k as int / 2,
                    k as int % 2,
                );
                lemma_fundamental_div_mod_converse(3 * (px as int), 3, px as int, 0);
                lemma_fundamental_div_mod_converse(3 * (px as int) + 1, 3, px as int, 1);
                lemma_fundamental_div_mod_converse(3 * (px as int) + 2, 3, px as int, 2);
            }
            let ys: u8 = yl[k];
            let us: u8 = ul[k];
            let vs: u8 = vl[k];
            let (r, g, b) = rgb_pixel(ys, us, vs);
            let bt: usize = tgt_base + 3 * px;
            target[bt] = r;
            target[bt + 1] = g;
            target[bt + 2] = b;
            k = k + 1;
        }
        proof {
            lemma_mod_add_multiples_vanish(x as int, 8);
        }
        x = x + 8;
    }
}

/// One converted row window, seen at its place in the full frame: byte `j`
/// of row `row` is byte `row*(3*w) + j` of the frame.
proof fn lemma_row_matches_frame(
    yp: Seq<u8>,
    up: Seq<u8>,
    vp: Seq<u8>,
    w: int,
    sy: int,
    su: int,
    sv: int,
    row: int,
    j: int,
)
    requires
        0 <= j < 3 * w,
        0 < w <= sy,
        sy == 2 * su,
        sy == 2 * sv,
        0 <= row,
        (row + 1) * sy <= yp.len(),
        (row / 2 + 1) * su <= up.len(),
        (row / 2 + 1) * sv <= vp.len(),
    ensures
        row_byte(
            yp.subrange(row * sy, row * sy + sy),
            up.subrange((row / 2) * su, (row / 2) * su + su),
            vp.subrange((row / 2) * sv, (row / 2) * sv + sv),
            j,
        ) == rgb_byte(yp, up, vp, w, sy, su, sv, row * (3 * w) + j),
{
    let p = j / 3;
    let c = j % 3;
    let i = row * (3 * w) + j;
    lemma_fundamental_div_mod(j, 3);
    assert(0 <= p < w) by {
        lemma_div_is_ordered(j, 3 * w - 1, 3);
        assert((3 * w - 1) / 3 == w - 1) by {
            lemma_fundamental_div_mod_converse(3 * w - 1, 3, w - 1, 2);
        }
        vstd::arithmetic::div_mod::lemma_div_pos_is_pos(j, 3);
    }
    assert(i == 3 * (row * w + p) + c) by (nonlinear_arith)
        requires
            j == 3 * p + c,
            i == row * (3 * w) + j,
    ;
    lemma_pixel_index(w, p, row, c);
    // the row windows hold exactly the samples the frame reads
    vstd::arithmetic::mul::lemma_mul_nonnegative(row, sy);
    vstd::arithmetic::mul::lemma_mul_nonnegative(row / 2, su);
    vstd::arithmetic::mul::lemma_mul_nonnegative(row / 2, sv);
    vstd::arithmetic::div_mod::lemma_div_pos_is_pos(row, 2);
    assert((row + 1) * sy == row * sy + sy) by {
        lemma_mul_is_distributive_add_other_way(sy, row, 1);
        lemma_mul_is_commutative(row + 1, sy);
        lemma_mul_is_commutative(row, sy);
    }
    assert((row / 2 + 1) * su == (row / 2) * su + su) by {
        lemma_mul_is_distributive_add_other_way(su, row / 2, 1);
        lemma_mul_is_commutative(row / 2 + 1, su);
        lemma_mul_is_commutative(row / 2, su);
    }
    assert((row / 2 + 1) * sv == (row / 2) * sv + sv) by {
        lemma_mul_is_distributive_add_other_way(sv, row / 2, 1);
        lemma_mul_is_commutative(row / 2 + 1, sv);
        lemma_mul_is_commutative(row / 2, sv);
    }
    assert(0 <= p / 2 < su) by {
        assert((2 * su - 1) / 2 == su - 1) by {
            lemma_fundamental_div_mod_converse(2 * su - 1, 2, su - 1, 1);
        }
        lemma_div_is_ordered(p, 2 * su - 1, 2);
        vstd::arithmetic::div_mod::lemma_div_pos_is_pos(p, 2);
    }
}

/// Write RGB8 data from YUV420, eight pixels per batch, one chroma row
/// window shared by each pair of luma rows.
#[verifier::loop_isolation(false)]
#[verifier::rlimit(100)]
pub fn write_rgb8_f32x8(
    y_plane: &[u8],
    u_plane: &[u8],
    v_plane: &[u8],
    dim: (usize, usize),
    strides: (usize, usize, usize),
    target: &mut [u8],
)
    requires
        y_plane@.len() == 4 * u_plane@.len(),
        y_plane@.len() == 4 * v_plane@.len(),
        dim.0 % 8 == 0,
        dim.1 % 2 == 0,
        strides.0 == 2 * strides.1,
        strides.0 == 2 * strides.2,
        strides.0 % 8 == 0,
        dim.0 <= strides.0,
        dim.1 * strides.0 <= y_plane@.len(),
        3 * (dim.0 * dim.1) <= old(target)@.len(),
    ensures
        rgb_written(
            y_plane@,
            u_plane@,
            v_plane@,
            dim.0 as int,
            dim.1 as int,
            strides.0 as int,
            strides.1 as int,
            strides.2 as int,
            old(target)@,
            final(target)@,
        ),
{
    let (width, height) = dim;
    if height == 0 {
        return ;
    }
    let tlen: usize = target.len();
    let ylen: usize = y_plane.len();
    let ulen: usize = u_plane.len();
    let vlen: usize = v_plane.len();
    proof {
        lemma_mul_inequality(1, height as int, width as int);
        lemma_mul_is_commutative(height as int, width as int);
        vstd::arithmetic::mul::lemma_mul_by_zero_is_zero(width as int);
    }
    let rgb_row: usize = 3 * width;
    let mut cy: usize = 0;
    while cy < height / 2
        invariant
            cy <= height / 2,
            target@.len() == old(target)@.len(),
            forall|i: int|
                0 <= i < 3 * (width as int * (2 * cy as int)) ==> target@[i] == rgb_byte(
                    y_plane@,
                    u_plane@,
                    v_plane@,
                    width as int,
                    strides.0 as int,
                    strides.1 as int,
                    strides.2 as int,
                    i,
                ),
            forall|i: int|
                3 * (width as int * (2 * cy as int)) <= i < target@.len() ==> target@[i] == old(
                    target,
                )@[i],
        decreases height / 2 - cy,
    {
        let ghost wi = width as int;
        let ghost sy = strides.0 as int;
        let ghost su = strides.1 as int;
        let ghost sv = strides.2 as int;
        proof {
            // 2*cy + 2 <= height, and the sliced windows stay inside the planes
            lemma_fundamental_div_mod(height as int, 2);
            lemma_mul_inequality(cy as int + 1, (height / 2) as int, su);
            lemma_mul_inequality(cy as int + 1, (height / 2) as int, sv);
            lemma_mul_inequality(2 * cy as int + 2, height as int, sy);
            lemma_mul_inequality(2 * cy as int + 2, height as int, 3 * wi);
            vstd::arithmetic::mul::lemma_mul_nonnegative(cy as int, su);
            vstd::arithmetic::mul::lemma_mul_nonnegative(cy as int, sv);
            vstd::arithmetic::mul::lemma_mul_nonnegative(2 * cy as int, sy);
            assert((height / 2) as int * su <= ulen as int) by (nonlinear_arith)
                requires
                    2 * ((height / 2) as int) * sy <= ylen as int,
                    height as int * sy <= ylen as int,
                    2 * ((height / 2) as int) == height as int,
                    sy == 2 * su,
                    4 * (ulen as int) == ylen as int,
            ;
            assert((height / 2) as int * sv <= vlen as int) by (nonlinear_arith)
                requires
                    height as int * sy <= ylen as int,
                    2 * ((height / 2) as int) == height as int,
                    sy == 2 * sv,
                    4 * (vlen as int) == ylen as int,
            ;
            assert(height as int * sy <= ylen as int);
            assert((cy as int + 1) * su == cy as int * su + su) by {
                lemma_mul_is_distributive_add_other_way(su, cy as int, 1);
                lemma_mul_is_commutative(cy as int + 1, su);
                lemma_mul_is_commutative(cy as int, su);
            }
            assert((cy as int + 1) * sv == cy as int * sv + sv) by {
                lemma_mul_is_distributive_add_other_way(sv, cy as int, 1);
                lemma_mul_is_commutative(cy as int + 1, sv);
                lemma_mul_is_commutative(cy as int, sv);
            }
            assert((2 * cy as int + 2) * sy == 2 * cy as int * sy + 2 * sy) by (nonlinear_arith);
            assert((2 * cy as int + 2) * (3 * wi) == 2 * cy as int * (3 * wi) + 6 * wi)
                by (nonlinear_arith);
            assert(height as int * (3 * wi) == 3 * (wi * height as int)) by (nonlinear_arith);
            assert(2 * cy as int * (3 * wi) + 6 * wi <= tlen as int);
        }
        let base_u: usize = cy * strides.1;
        let u_row: &[u8] = &u_plane[base_u..base_u + strides.1];
        let base_v: usize = cy * strides.2;
        let v_row: &[u8] = &v_plane[base_v..base_v + strides.2];

        let base_y: usize = 2 * cy * strides.0;
        let y_row: &[u8] = &y_plane[base_y..base_y + strides.0];
        let base_tgt: usize = 2 * cy * rgb_row;
        proof {
            assert(2 * cy as int * (3 * wi) + 3 * wi <= tlen as int);
        }
        write_rgb8_f32x8_row(y_row, u_row, v_row, width, target, base_tgt);
        proof {
            let row = 2 * cy as int;
            assert((2 * cy as int) / 2 == cy as int) by {
                lemma_fundamental_div_mod_converse(2 * cy as int, 2, cy as int, 0);
            }
            assert forall|j: int| 0 <= j < 3 * wi implies #[trigger] row_byte(
                y_row@,
                u_row@,
                v_row@,
                j,
            ) == rgb_byte(y_plane@, u_plane@, v_plane@, wi, sy, su, sv, row * (3 * wi) + j) by {
                assert((row + 1) * sy == row * sy + sy) by (nonlinear_arith);
                assert((row / 2 + 1) * su == cy as int * su + su);
                assert((row / 2 + 1) * sv == cy as int * sv + sv);
                lemma_row_matches_frame(y_plane@, u_plane@, v_plane@, wi, sy, su, sv, row, j);
            }
        }

        proof {
            assert((2 * cy as int + 1) * sy == 2 * cy as int * sy + sy) by (nonlinear_arith);
            assert((2 * cy as int + 1) * (3 * wi) == 2 * cy as int * (3 * wi) + 3 * wi)
                by (nonlinear_arith);
        }
        let base_y2: usize = (2 * cy + 1) * strides.0;
        let y_row2: &[u8] = &y_plane[base_y2..base_y2 + strides.0];
        let base_tgt2: usize = (2 * cy + 1) * rgb_row;
        write_rgb8_f32x8_row(y_row2, u_row, v_row, width, target, base_tgt2);
        proof {
            let row = 2 * cy as int + 1;
            assert(row / 2 == cy as int) by {
                lemma_fundamental_div_mod_converse(row, 2, cy as int, 1);
            }
            assert forall|j: int| 0 <= j < 3 * wi implies #[trigger] row_byte(
                y_row2@,
                u_row@,
                v_row@,
                j,
            ) == rgb_byte(y_plane@, u_plane@, v_plane@, wi, sy, su, sv, row * (3 * wi) + j) by {
                assert((row + 1) * sy == row * sy + sy) by (nonlinear_arith);
                assert(row * sy == 2 * cy as int * sy + sy) by (nonlinear_arith)
                    requires
                        row == 2 * cy as int + 1,
                ;
                assert(row * (3 * wi) == 2 * cy as int * (3 * wi) + 3 * wi) by (nonlinear_arith)
                    requires
                        row == 2 * cy as int + 1,
                ;
                lemma_row_matches_frame(y_plane@, u_plane@, v_plane@, wi, sy, su, sv, row, j);
            }
            // the two fresh rows extend the converted prefix
            assert(3 * (wi * (2 * (cy as int + 1))) == 3 * (wi * (2 * cy as int)) + 6 * wi)
                by (nonlinear_arith);
            assert forall|i: int|
                0 <= i < 3 * (wi * (2 * (cy as int + 1))) implies target@[i] == rgb_byte(
                y_plane@,
                u_plane@,
                v_plane@,
                wi,
                sy,
                su,
                sv,
                i,
            ) by {
                let row0 = 2 * cy as int;
                assert(base_tgt as int == row0 * (3 * wi) == 3 * (wi * row0)) by (nonlinear_arith)
                    requires
                        base_tgt as int == 2 * cy as int * (3 * wi),
                        row0 == 2 * cy as int,
                ;
                if i >= base_tgt as int {
                    if i < base_tgt2 as int {
                        let j = i - base_tgt;
                        assert(target@[base_tgt + j] == row_byte(y_row@, u_row@, v_row@, j));
                        assert(row_byte(y_row@, u_row@, v_row@, j) == rgb_byte(
                            y_plane@,
                            u_plane@,
                            v_plane@,
                            wi,
                            sy,
                            su,
                            sv,
                            row0 * (3 * wi) + j,
                        ));
                    } else {
                        let j = i - base_tgt2;
                        assert(target@[base_tgt2 + j] == row_byte(y_row2@, u_row@, v_row@, j));
                        assert(row_byte(y_row2@, u_row@, v_row@, j) == rgb_byte(
                            y_plane@,
                            u_plane@,
                            v_plane@,
                            wi,
                            sy,
                            su,
                            sv,
                            (row0 + 1) * (3 * wi) + j,
                        ));
                    }
                }
            }
            assert(2 * cy as int * (3 * wi) == 3 * (wi * (2 * cy as int))) by (nonlinear_arith);
            assert forall|i: int|
                3 * (wi * (2 * (cy as int + 1))) <= i < target@.len() implies target@[i] == old(
                target,
            )@[i] by {
                assert(i >= base_tgt2 as int + 3 * wi);
                assert(i >= base_tgt as int + 3 * wi);
                assert(i >= 3 * (wi * (2 * cy as int)));
            }
        }
        cy = cy + 1;
    }
    proof {
        assert(2 * ((height / 2) as int) == height as int) by {
            lemma_fundamental_div_mod(height as int, 2);
        }
        assert(3 * (width as int * (2 * ((height / 2) as int))) == 3 * (width as int
            * height as int));
    }
}

} // verus!
