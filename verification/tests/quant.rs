//! The second analysis path: transform, quantize and reconstruct.
use hevc_engine::quant::{forward_transform, quantize, reconstruct_residual};
use hevc_engine::transform::{Component, PredMode};

fn residual(n: usize, seed: i32) -> Vec<i32> {
    (0..n * n)
        .map(|i| {
            let (x, y) = ((i % n) as i32, (i / n) as i32);
            (x * 3 - y * 2 + seed) % 61 - 30
        })
        .collect()
}

fn sse(a: &[i32], b: &[i32]) -> i64 {
    a.iter()
        .zip(b)
        .map(|(&x, &y)| {
            let d = i64::from(x) - i64::from(y);
            d * d
        })
        .sum()
}

#[test]
fn a_flat_residual_transforms_to_a_dc_only_block() {
    for n in [4usize, 8, 16, 32] {
        let flat = vec![20i32; n * n];
        let coeffs = forward_transform(&flat, n, PredMode::Inter, Component::Luma, 8);
        assert_ne!(coeffs[0], 0, "{n}x{n}: the DC coefficient vanished");
        assert!(
            coeffs[1..].iter().all(|&c| c == 0),
            "{n}x{n}: a flat residual produced AC coefficients"
        );
    }
}

#[test]
fn quantizing_at_qp_zero_and_reconstructing_is_near_lossless() {
    for n in [4usize, 8, 16] {
        let r = residual(n, 7);
        let coeffs = forward_transform(&r, n, PredMode::Inter, Component::Luma, 8);
        let levels = quantize(&coeffs, n, 0, 8, false);
        let back =
            reconstruct_residual(&levels, n, 0, PredMode::Inter, Component::Luma, 8).unwrap();
        let per_sample = sse(&r, &back) / (n * n) as i64;
        assert!(
            per_sample <= 4,
            "{n}x{n}: qP 0 round trip lost {per_sample} per sample"
        );
    }
}

#[test]
fn a_coarser_qp_costs_more_distortion_and_fewer_levels() {
    let n = 16;
    let r = residual(n, 3);
    let coeffs = forward_transform(&r, n, PredMode::Intra, Component::Luma, 8);
    let mut previous_nonzero = usize::MAX;
    let mut previous_error = -1i64;
    for qp in [10u32, 26, 40] {
        let levels = quantize(&coeffs, n, qp, 8, true);
        let nonzero = levels.iter().filter(|&&l| l != 0).count();
        let back =
            reconstruct_residual(&levels, n, qp, PredMode::Intra, Component::Luma, 8).unwrap();
        let error = sse(&r, &back);
        assert!(
            nonzero <= previous_nonzero,
            "qP {qp} coded more levels than the finer step"
        );
        assert!(error > previous_error, "qP {qp} did not cost more error");
        previous_nonzero = nonzero;
        previous_error = error;
    }
    assert!(
        previous_error > 0,
        "a lossy quantizer reproduced the residual exactly"
    );
}

#[test]
fn the_intra_deadzone_keeps_more_levels_than_the_inter_one() {
    let n = 8;
    let r = residual(n, 11);
    let coeffs = forward_transform(&r, n, PredMode::Intra, Component::Luma, 8);
    let intra = quantize(&coeffs, n, 34, 8, true);
    let inter = quantize(&coeffs, n, 34, 8, false);
    let magnitude = |levels: &[i32]| levels.iter().map(|l| i64::from(l.abs())).sum::<i64>();
    assert!(
        magnitude(&intra) >= magnitude(&inter),
        "the intra rounding offset must not be the narrower one"
    );
}

#[test]
fn the_four_by_four_intra_luma_block_uses_the_alternate_transform() {
    let r = residual(4, 5);
    let dst = forward_transform(&r, 4, PredMode::Intra, Component::Luma, 8);
    let dct_inter = forward_transform(&r, 4, PredMode::Inter, Component::Luma, 8);
    let dct_chroma = forward_transform(&r, 4, PredMode::Intra, Component::Cb, 8);
    assert_ne!(dst, dct_inter, "4x4 intra luma did not take the DST path");
    assert_eq!(
        dct_inter, dct_chroma,
        "only 4x4 intra luma may take the DST path"
    );
}

#[test]
fn a_zero_residual_quantizes_to_no_levels_at_all() {
    let n = 16;
    let coeffs = forward_transform(&vec![0i32; n * n], n, PredMode::Intra, Component::Luma, 8);
    assert!(coeffs.iter().all(|&c| c == 0));
    assert!(quantize(&coeffs, n, 26, 8, true).iter().all(|&l| l == 0));
}
