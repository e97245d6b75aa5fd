//! Runtime checks of both converters: equivalence on synthetic frames, the
//! fixed points of the transform, clamping, chroma sharing, stride
//! isolation, output shape, and agreement with a single-precision
//! floating-point evaluation of the same formulas.

use yuv2rgb::{write_rgb8_f32x8, write_rgb8_scalar};

/// A small linear congruential generator for reproducible sample planes.
fn lcg_fill(buf: &mut [u8], mut state: u64) {
    for b in buf.iter_mut() {
        state = state.wrapping_mul(6364136223846793005).wrapping_add(1442695040888963407);
        *b = (state >> 33) as u8;
    }
}

/// The reference transform evaluated in single-precision floating point,
/// fused-multiply-add order, saturating cast to a byte.
fn rgb_ref(y: u8, u: u8, v: u8) -> (u8, u8, u8) {
    let y = f32::from(y);
    let u = f32::from(u);
    let v = f32::from(v);
    let r = 1.402f32.mul_add(v - 128.0, y);
    let g = 0.714f32.mul_add(-(v - 128.0), 0.344f32.mul_add(-(u - 128.0), y));
    let b = 1.772f32.mul_add(u - 128.0, y);
    (r as u8, g as u8, b as u8)
}

#[test]
fn write_rgb8_f32x8_matches_scalar() {
    let dim = (512usize, 512usize);
    let strides = (512usize, 256usize, 256usize);
    let mut y_plane = vec![0u8; 512 * 512];
    let mut u_plane = vec![0u8; 256 * 256];
    let mut v_plane = vec![0u8; 256 * 256];
    lcg_fill(&mut y_plane, 1);
    lcg_fill(&mut u_plane, 2);
    lcg_fill(&mut v_plane, 3);

    let mut rgb = vec![0u8; 2000 * 2000 * 3];
    let rgb_len = dim.0 * dim.1 * 3;
    let tgt = &mut rgb[0..rgb_len];
    write_rgb8_scalar(&y_plane, &u_plane, &v_plane, dim, strides, tgt);

    let mut tgt2 = vec![0u8; tgt.len()];
    write_rgb8_f32x8(&y_plane, &u_plane, &v_plane, dim, strides, &mut tgt2);

    assert_eq!(tgt, &tgt2[..]);
}

#[test]
fn equivalence_with_padded_strides() {
    let dim = (512usize, 512usize);
    let strides = (520usize, 260usize, 260usize);
    let mut y_plane = vec![0u8; 512 * 520];
    let mut u_plane = vec![0u8; 512 * 520 / 4];
    let mut v_plane = vec![0u8; 512 * 520 / 4];
    lcg_fill(&mut y_plane, 7);
    lcg_fill(&mut u_plane, 8);
    lcg_fill(&mut v_plane, 9);

    let mut tgt = vec![0u8; 512 * 512 * 3];
    write_rgb8_scalar(&y_plane, &u_plane, &v_plane, dim, strides, &mut tgt);

    let mut tgt2 = vec![0u8; 512 * 512 * 3];
    write_rgb8_f32x8(&y_plane, &u_plane, &v_plane, dim, strides, &mut tgt2);

    assert_eq!(tgt, tgt2);
}

#[test]
fn black_frame_is_black() {
    let dim = (16usize, 4usize);
    let strides = (16usize, 8usize, 8usize);
    let y_plane = vec![0u8; 16 * 4];
    let u_plane = vec![128u8; 16 * 4 / 4];
    let v_plane = vec![128u8; 16 * 4 / 4];
    let mut tgt = vec![7u8; 16 * 4 * 3];
    write_rgb8_scalar(&y_plane, &u_plane, &v_plane, dim, strides, &mut tgt);
    assert!(tgt.iter().all(|&b| b == 0));
    let mut tgt2 = vec![7u8; 16 * 4 * 3];
    write_rgb8_f32x8(&y_plane, &u_plane, &v_plane, dim, strides, &mut tgt2);
    assert!(tgt2.iter().all(|&b| b == 0));
}

#[test]
fn white_frame_is_white() {
    let dim = (16usize, 4usize);
    let strides = (16usize, 8usize, 8usize);
    let y_plane = vec![255u8; 16 * 4];
    let u_plane = vec![128u8; 16 * 4 / 4];
    let v_plane = vec![128u8; 16 * 4 / 4];
    let mut tgt = vec![7u8; 16 * 4 * 3];
    write_rgb8_scalar(&y_plane, &u_plane, &v_plane, dim, strides, &mut tgt);
    assert!(tgt.iter().all(|&b| b == 255));
    let mut tgt2 = vec![7u8; 16 * 4 * 3];
    write_rgb8_f32x8(&y_plane, &u_plane, &v_plane, dim, strides, &mut tgt2);
    assert!(tgt2.iter().all(|&b| b == 255));
}

#[test]
fn saturation_clamps_per_channel() {
    // Y=255, V=255, U=128: the red channel overshoots 255 and clamps,
    // while green and blue keep their own in-range results.
    let unclamped_r = 1.402f32.mul_add(255.0 - 128.0, 255.0);
    assert!(unclamped_r > 255.0);
    let expected = rgb_ref(255, 128, 255);
    assert_eq!(expected.0, 255);

    let dim = (8usize, 2usize);
    let strides = (8usize, 4usize, 4usize);
    let y_plane = vec![255u8; 16];
    let u_plane = vec![128u8; 4];
    let v_plane = vec![255u8; 4];
    let mut tgt = vec![0u8; 8 * 2 * 3];
    write_rgb8_scalar(&y_plane, &u_plane, &v_plane, dim, strides, &mut tgt);
    for px in 0..16 {
        assert_eq!(tgt[3 * px], 255);
        assert_eq!(tgt[3 * px + 1], expected.1);
        assert_eq!(tgt[3 * px + 2], expected.2);
    }
    assert_eq!(expected.1, 164);
    assert_eq!(expected.2, 255);
}

#[test]
fn adjacent_pixels_share_chroma() {
    // Pixels 2 and 3 of a row lie in one 2-wide block: both read chroma
    // sample 1, whatever their own luma is.
    let dim = (8usize, 2usize);
    let strides = (8usize, 4usize, 4usize);
    let y_plane: Vec<u8> = vec![0, 10, 50, 200, 90, 120, 30, 60, 5, 15, 55, 205, 95, 125, 35, 65];
    let u_plane: Vec<u8> = vec![10, 77, 20, 30];
    let v_plane: Vec<u8> = vec![40, 99, 50, 60];
    let mut tgt = vec![0u8; 8 * 2 * 3];
    write_rgb8_scalar(&y_plane, &u_plane, &v_plane, dim, strides, &mut tgt);

    let p2 = rgb_ref(50, 77, 99);
    let p3 = rgb_ref(200, 77, 99);
    assert_eq!(&tgt[6..9], &[p2.0, p2.1, p2.2]);
    assert_eq!(&tgt[9..12], &[p3.0, p3.1, p3.2]);

    let mut tgt2 = vec![0u8; 8 * 2 * 3];
    write_rgb8_f32x8(&y_plane, &u_plane, &v_plane, dim, strides, &mut tgt2);
    assert_eq!(tgt, tgt2);
}

#[test]
fn stride_padding_does_not_leak() {
    // The same logical samples, once tightly packed and once with padded
    // rows full of sentinel bytes, convert to identical output.
    let dim = (8usize, 2usize);

    let tight_strides = (8usize, 4usize, 4usize);
    let y_tight: Vec<u8> = (0u8..16).collect();
    let u_tight: Vec<u8> = vec![1, 2, 3, 4];
    let v_tight: Vec<u8> = vec![5, 6, 7, 8];
    let mut out_tight = vec![0u8; 8 * 2 * 3];
    write_rgb8_scalar(&y_tight, &u_tight, &v_tight, dim, tight_strides, &mut out_tight);

    let padded_strides = (12usize, 6usize, 6usize);
    let mut y_pad = vec![0xEEu8; 24];
    let mut u_pad = vec![0xEEu8; 6];
    let mut v_pad = vec![0xEEu8; 6];
    for row in 0..2 {
        y_pad[row * 12..row * 12 + 8].copy_from_slice(&y_tight[row * 8..row * 8 + 8]);
    }
    u_pad[0..4].copy_from_slice(&u_tight);
    v_pad[0..4].copy_from_slice(&v_tight);
    let mut out_pad = vec![0u8; 8 * 2 * 3];
    write_rgb8_scalar(&y_pad, &u_pad, &v_pad, dim, padded_strides, &mut out_pad);

    assert_eq!(out_tight, out_pad);

    // The lane-batched path reads padded rows the same way.
    let vec_strides = (16usize, 8usize, 8usize);
    let mut y_pad2 = vec![0xABu8; 32];
    let mut u_pad2 = vec![0xABu8; 8];
    let mut v_pad2 = vec![0xABu8; 8];
    for row in 0..2 {
        y_pad2[row * 16..row * 16 + 8].copy_from_slice(&y_tight[row * 8..row * 8 + 8]);
    }
    u_pad2[0..4].copy_from_slice(&u_tight);
    v_pad2[0..4].copy_from_slice(&v_tight);
    let mut out_pad2 = vec![0u8; 8 * 2 * 3];
    write_rgb8_f32x8(&y_pad2, &u_pad2, &v_pad2, dim, vec_strides, &mut out_pad2);

    assert_eq!(out_tight, out_pad2);
}

#[test]
fn output_shape_is_exact() {
    // Exactly width*height*3 bytes are written; a larger target keeps its
    // tail, and a tight target is filled completely.
    let dim = (8usize, 4usize);
    let strides = (8usize, 4usize, 4usize);
    let mut y_plane = vec![0u8; 32];
    let mut u_plane = vec![0u8; 8];
    let mut v_plane = vec![0u8; 8];
    lcg_fill(&mut y_plane, 11);
    lcg_fill(&mut u_plane, 12);
    lcg_fill(&mut v_plane, 13);

    let needed = 8 * 4 * 3;
    let mut big = vec![0x5Au8; needed + 17];
    write_rgb8_scalar(&y_plane, &u_plane, &v_plane, dim, strides, &mut big);
    assert_eq!(big.len(), needed + 17);
    assert!(big[needed..].iter().all(|&b| b == 0x5A));

    let mut big2 = vec![0x5Au8; needed + 17];
    write_rgb8_f32x8(&y_plane, &u_plane, &v_plane, dim, strides, &mut big2);
    assert_eq!(&big[..needed], &big2[..needed]);
    assert!(big2[needed..].iter().all(|&b| b == 0x5A));
}

#[test]
fn red_blue_match_float_reference_exhaustively() {
    // Every (Y, V) pair for the red channel and every (Y, U) pair for the
    // blue channel, against the single-precision reference.
    let dim = (256usize, 2usize);
    let strides = (256usize, 128usize, 128usize);
    let y_plane: Vec<u8> = (0..512).map(|i| (i % 256) as u8).collect();
    let mut tgt = vec![0u8; 256 * 2 * 3];
    for c in 0..256 {
        let u_plane = vec![c as u8; 128];
        let v_plane = vec![c as u8; 128];
        write_rgb8_scalar(&y_plane, &u_plane, &v_plane, dim, strides, &mut tgt);
        for x in 0..256 {
            let expected = rgb_ref(x as u8, c as u8, c as u8);
            assert_eq!(tgt[3 * x], expected.0, "red at y={} v={}", x, c);
            assert_eq!(tgt[3 * x + 2], expected.2, "blue at y={} u={}", x, c);
        }
    }
}

#[test]
fn green_matches_float_reference_sampled() {
    // The green channel chains two fused multiply-adds; sweep a grid of
    // (U, V) with every luma value.
    let dim = (256usize, 2usize);
    let strides = (256usize, 128usize, 128usize);
    let y_plane: Vec<u8> = (0..512).map(|i| (i % 256) as u8).collect();
    let mut tgt = vec![0u8; 256 * 2 * 3];
    let samples: Vec<u8> = (0u16..256)
        .step_by(11)
        .map(|c| c as u8)
        .chain([1, 127, 128, 129, 254, 255])
        .collect();
    for &u in samples.iter() {
        for &v in samples.iter() {
            let u_plane = vec![u; 128];
            let v_plane = vec![v; 128];
            write_rgb8_scalar(&y_plane, &u_plane, &v_plane, dim, strides, &mut tgt);
            for x in 0..256 {
                let expected = rgb_ref(x as u8, u, v);
                assert_eq!(tgt[3 * x + 1], expected.1, "green at y={} u={} v={}", x, u, v);
            }
        }
    }
}
