//! The forward transform and the quantizer, against the inverse direction.
use hevc_engine::inverse::{inverse_transform, scale_coefficients, LEVEL_SCALE};
use hevc_engine::quant_simd::{detected, supported_backends, Backend};
use hevc_engine::simd::{Host, SimdIsa};
use hevc_engine::transform::{
    chroma_qp, forward_transform, forward_transform_with_backend, log2_tbs, luma_qp, quantize, quantize_with_backend,
    use_dst, Component, PredMode, ScalingFactorMatrix, TransformError,
};

fn residual(n_tbs: usize, bit_depth: u8, seed: u64) -> Vec<i32> {
    let span = (1i32 << bit_depth) - 1;
    let mut state = seed;
    (0..n_tbs * n_tbs)
        .map(|_| {
            state = state.wrapping_mul(6_364_136_223_846_793_005).wrapping_add(1_442_695_040_888_963_407);
            ((state >> 33) as i32 % (2 * span + 1)) - span
        })
        .collect()
}

fn every_host() -> Host {
    Host { ssse3: true, sse41: true, sse42: true, avx2: true, neon: true }
}

fn apply_bd_shift(r: &[i32], bit_depth: u8) -> Vec<i32> {
    let bd_shift = 20 - i32::from(bit_depth);
    let round = 1i64 << (bd_shift - 1);
    r.iter()
        .map(|&v| ((i64::from(v) + round) >> bd_shift) as i32)
        .collect()
}

#[test]
fn forward_then_inverse_reproduces_the_residual_for_the_dst() {
    let source = residual(4, 8, 0xd57);
    let coefficients =
        forward_transform(&source, 4, true, 8, false).expect("4x4 is a valid DST block");
    let inverse = inverse_transform(&coefficients, 4, PredMode::Intra, Component::Luma, 8, false)
        .expect("the coefficients invert");
    let round_trip = apply_bd_shift(&inverse, 8);
    let worst = source
        .iter()
        .zip(round_trip.iter())
        .map(|(&a, &b)| (a - b).abs())
        .max()
        .expect("the block is non-empty");
    assert!(worst <= 3, "the DST round trip drifted by {worst}");
}

#[test]
fn quantize_inverts_the_scaling_process() {
    for n_tbs in [4usize, 8, 16, 32] {
        let log2 = log2_tbs(n_tbs).expect("the size is legal");
        let source = residual(n_tbs, 8, 0xc0ffee + n_tbs as u64);
        let coefficients = forward_transform(&source, n_tbs, false, 8, false)
            .expect("the residual transforms");
        for q_p in [0u32, 7, 13, 26, 34, 45, 51] {
            let levels = quantize(&coefficients, n_tbs, q_p, 8, false, false, None)
                .expect("the coefficients quantize");
            let scaled = scale_coefficients(&levels, n_tbs, q_p, 8, false, None)
                .expect("the levels dequantize");
            let bd_shift = 8 + log2 + 10 - 15;
            let step = ((16i64 * i64::from(LEVEL_SCALE[(q_p % 6) as usize]))
                << (q_p / 6))
                >> bd_shift;
            for (&want, &got) in coefficients.iter().zip(scaled.iter()) {
                let error = (i64::from(want) - i64::from(got)).abs();
                assert!(
                    error <= step,
                    "{n_tbs}x{n_tbs} qP {q_p}: {want} dequantized to {got}, \
                     off by {error} with a step of {step}"
                );
            }
        }
    }
}

#[test]
fn the_intra_rounding_offset_is_never_smaller_than_the_inter_one() {
    let source = residual(8, 8, 0x1_7a);
    let coefficients =
        forward_transform(&source, 8, false, 8, false).expect("the residual transforms");
    let intra = quantize(&coefficients, 8, 30, 8, false, true, None).expect("intra quantizes");
    let inter = quantize(&coefficients, 8, 30, 8, false, false, None).expect("inter quantizes");
    for (&i, &p) in intra.iter().zip(inter.iter()) {
        assert!(
            i.abs() >= p.abs(),
            "intra level {i} is closer to zero than inter level {p}"
        );
    }
    assert_ne!(intra, inter, "the two rounding offsets must differ somewhere");
}

#[test]
fn the_scaling_list_is_inverted_not_reapplied() {
    let source = residual(4, 8, 0x5ca1e);
    let coefficients =
        forward_transform(&source, 4, false, 8, false).expect("the residual transforms");
    let matrix = ScalingFactorMatrix {
        dim: 4,
        coef: vec![8u16; 16],
    };
    let flat = quantize(&coefficients, 4, 26, 8, false, false, None).expect("flat quantizes");
    let listed = quantize(&coefficients, 4, 26, 8, false, false, Some(&matrix))
        .expect("the listed block quantizes");
    for (&f, &l) in flat.iter().zip(listed.iter()) {
        assert!(
            l.abs() >= f.abs(),
            "halving the scaling factor should not shrink level {l} below {f}"
        );
    }
    let scaled = scale_coefficients(&listed, 4, 26, 8, false, Some(&matrix))
        .expect("the levels dequantize");
    let bd_shift = 8 + 2 + 10 - 15;
    let step = ((8i64 * i64::from(LEVEL_SCALE[26 % 6])) << (26 / 6)) >> bd_shift;
    for (&want, &got) in coefficients.iter().zip(scaled.iter()) {
        let error = (i64::from(want) - i64::from(got)).abs();
        assert!(error <= step, "{want} dequantized to {got}, off by {error}");
    }
}

#[test]
fn every_backend_is_bit_exact_with_scalar() {
    let matrix = ScalingFactorMatrix {
        dim: 8,
        coef: (0..64).map(|i| 16 + (i as u16 % 9)).collect(),
    };
    for n_tbs in [4usize, 8, 16, 32] {
        for tr_type in [false, true] {
            if tr_type && n_tbs != 4 {
                continue;
            }
            let source = residual(n_tbs, 8, 0xbee5 + n_tbs as u64 + u64::from(tr_type));
            let reference =
                forward_transform_with_backend(Backend::Scalar, &source, n_tbs, tr_type, 8, false)
                    .expect("the scalar reference transforms");
            for backend in supported_backends(every_host()) {
                let actual =
                    forward_transform_with_backend(backend, &source, n_tbs, tr_type, 8, false)
                        .expect("every backend transforms");
                assert_eq!(
                    actual, reference,
                    "{backend:?} forward transform diverged at {n_tbs}x{n_tbs}"
                );
            }
            for q_p in [0u32, 11, 26, 51] {
                let scaling = (n_tbs == 8).then_some(&matrix);
                let want = quantize_with_backend(
                    Backend::Scalar,
                    &reference,
                    n_tbs,
                    q_p,
                    8,
                    false,
                    tr_type,
                    scaling,
                )
                .expect("the scalar reference quantizes");
                for backend in supported_backends(every_host()) {
                    let got = quantize_with_backend(
                        backend, &reference, n_tbs, q_p, 8, false, tr_type, scaling,
                    )
                    .expect("every backend quantizes");
                    assert_eq!(
                        got, want,
                        "{backend:?} quantization diverged at {n_tbs}x{n_tbs} qP {q_p}"
                    );
                }
            }
        }
    }
}

#[test]
fn the_alternate_transform_is_intra_4x4_luma_only() {
    assert!(use_dst(4, PredMode::Intra, Component::Luma));
    assert!(!use_dst(4, PredMode::Inter, Component::Luma));
    assert!(!use_dst(4, PredMode::Intra, Component::Cb));
    assert!(!use_dst(4, PredMode::Intra, Component::Cr));
    assert!(!use_dst(8, PredMode::Intra, Component::Luma));
}

#[test]
fn a_flat_residual_produces_only_a_dc_coefficient() {
    for n_tbs in [4usize, 8, 16, 32] {
        let source = vec![100i32; n_tbs * n_tbs];
        let coefficients =
            forward_transform(&source, n_tbs, false, 8, false).expect("the block transforms");
        assert!(coefficients[0] > 0, "{n_tbs}x{n_tbs} lost its DC term");
        for (index, &value) in coefficients.iter().enumerate().skip(1) {
            assert_eq!(value, 0, "{n_tbs}x{n_tbs} coefficient {index} is not zero");
        }
    }
}

#[test]
fn malformed_blocks_are_rejected() {
    assert_eq!(
        forward_transform(&[0; 36], 6, false, 8, false),
        Err(TransformError::InvalidBlockSize(6))
    );
    assert_eq!(
        forward_transform(&[0; 15], 4, false, 8, false),
        Err(TransformError::LengthMismatch {
            expected: 16,
            got: 15
        })
    );
    assert_eq!(
        forward_transform(&[0; 16], 4, false, 7, false),
        Err(TransformError::InvalidBitDepth(7))
    );
    assert_eq!(
        quantize(&[0; 16], 4, 26, 8, false, false, None).map(|l| l.len()),
        Ok(16)
    );
    let mismatched = ScalingFactorMatrix {
        dim: 8,
        coef: vec![16; 64],
    };
    assert_eq!(
        quantize(&[0; 16], 4, 26, 8, false, false, Some(&mismatched)),
        Err(TransformError::LengthMismatch {
            expected: 16,
            got: 64
        })
    );
}

#[test]
fn qp_derivation_follows_section_8_6_1() {
    assert_eq!(luma_qp(26, 8), 26);
    assert_eq!(luma_qp(26, 10), 38);
    assert_eq!(chroma_qp(29, 0, 8, 1), 29);
    assert_eq!(chroma_qp(37, 0, 8, 1), 34);
    assert_eq!(chroma_qp(44, 0, 8, 1), 38);
    assert_eq!(chroma_qp(37, 0, 8, 3), 37);
    assert_eq!(chroma_qp(55, 0, 8, 3), 51);
    assert_eq!(chroma_qp(37, -5, 8, 3), 32);
}

#[test]
fn forward_then_inverse_reproduces_the_residual() {
    for (index, n_tbs) in [4usize, 8, 16, 32].into_iter().enumerate() {
        let source = residual(n_tbs, 8, 0x5eed + index as u64);
        let coefficients = forward_transform(&source, n_tbs, false, 8, false)
            .expect("the block size and bit depth are valid");
        let inverse = inverse_transform(
            &coefficients,
            n_tbs,
            PredMode::Inter,
            Component::Luma,
            8,
            false,
        )
        .expect("the coefficients invert");
        let round_trip = apply_bd_shift(&inverse, 8);
        let worst = source
            .iter()
            .zip(round_trip.iter())
            .map(|(&a, &b)| (a - b).abs())
            .max()
            .expect("blocks are non-empty");
        assert!(
            worst <= 3,
            "{n_tbs}x{n_tbs} round trip drifted by {worst}, expected rounding error only"
        );
    }
}

#[test]
fn the_best_backend_is_taken_and_a_pinned_one_wins() {
    let none = Host { ssse3: false, sse41: false, sse42: false, avx2: false, neon: false };
    assert_eq!(detected(none, None), Backend::Scalar);
    assert_eq!(detected(every_host(), None), Backend::Avx2);
    assert_eq!(detected(every_host(), Some(SimdIsa::Scalar)), Backend::Scalar);
    assert_eq!(supported_backends(none), vec![Backend::Scalar]);
}

#[test]
fn a_flat_block_of_ten_has_one_exact_coefficient() {
    let coefficients = forward_transform(&[10; 16], 4, false, 8, false).unwrap();
    assert_eq!(coefficients[0], 1280);
    let levels = quantize(&coefficients, 4, 26, 8, false, true, None).unwrap();
    assert_eq!(levels[0], 3);
    assert!(levels[1..].iter().all(|&l| l == 0));
}

#[test]
fn the_hardest_residuals_of_small_blocks_come_back_within_three() {
    let signs = [-1, -1, 1, 1, 1, -1, 1, 1];
    for (n, mode) in [(4usize, PredMode::Intra), (4, PredMode::Inter), (8, PredMode::Inter)] {
        let source: Vec<i32> = (0..n * n).map(|i| 255 * signs[i / n] * signs[i % n]).collect();
        let dst = n == 4 && matches!(mode, PredMode::Intra);
        let coefficients = forward_transform(&source, n, dst, 8, false).expect("the residual transforms");
        let inverse = inverse_transform(&coefficients, n, mode, Component::Luma, 8, false)
            .expect("the coefficients invert");
        let back = apply_bd_shift(&inverse, 8);
        for (&want, &got) in source.iter().zip(back.iter()) {
            assert!((want - got).abs() <= 3, "{n}x{n}: {want} came back as {got}");
        }
    }
}

#[test]
fn a_coefficient_comes_back_within_a_step_up_to_the_largest_negative_ones() {
    let back = |value: i32, intra: bool| {
        let mut coefficients = vec![0i32; 1024];
        coefficients[0] = value;
        let levels = quantize(&coefficients, 32, 0, 8, false, intra, None).expect("the block quantizes");
        scale_coefficients(&levels, 32, 0, 8, false, None).expect("the levels scale")[0]
    };
    // At the finest QP a 32x32 block has a step of two.
    for value in [-32768, -32766, -27206, -27204, -27203, -27200, -27197, -26000, -3, -2, -1, 0, 1, 2, 3, 27205, 32767] {
        assert!((back(value, false) - value).abs() <= 2, "{value}");
    }
    assert_eq!(back(-27205, false), -27202);
    assert_eq!(back(-32765, false), -32762);
    assert!((back(-27205, true) + 27205).abs() <= 2);
}

#[test]
fn the_hardest_residuals_of_larger_blocks_drift_further() {
    let signs = [-1, 1, -1, -1, -1, -1, -1, 1, 1, 1, 1, 1, 1, 1, -1, -1];
    for (most, drift) in [(255, 7), (84, 3)] {
        let source: Vec<i32> = (0..256).map(|i| most * signs[i / 16] * signs[i % 16]).collect();
        let coefficients = forward_transform(&source, 16, false, 8, false).expect("the residual transforms");
        let inverse = inverse_transform(&coefficients, 16, PredMode::Inter, Component::Luma, 8, false)
            .expect("the coefficients invert");
        let back = apply_bd_shift(&inverse, 8);
        for (&want, &got) in source.iter().zip(back.iter()) {
            assert!((want - got).abs() <= drift, "{want} came back as {got}");
        }
        if most == 255 {
            assert_eq!((source[0], back[0]), (255, 248));
        }
    }
}

#[test]
fn the_largest_blocks_drift_furthest() {
    let signs = [
        1, 1, -1, -1, 1, -1, -1, -1, -1, 1, 1, 1, 1, 1, -1, -1, -1, -1, 1, 1, 1, 1, 1, 1, 1, -1, -1, -1, 1, -1, 1, -1,
    ];
    for (most, drift) in [(255, 16), (17, 4)] {
        let source: Vec<i32> = (0..1024).map(|i| most * signs[i / 32] * signs[i % 32]).collect();
        let coefficients = forward_transform(&source, 32, false, 8, false).expect("the residual transforms");
        let inverse = inverse_transform(&coefficients, 32, PredMode::Inter, Component::Luma, 8, false)
            .expect("the coefficients invert");
        let back = apply_bd_shift(&inverse, 8);
        for (&want, &got) in source.iter().zip(back.iter()) {
            assert!((want - got).abs() <= drift, "{want} came back as {got}");
        }
        if most == 255 {
            assert_eq!((source[0], back[0]), (255, 266));
        }
    }
}

#[test]
fn the_chroma_qp_follows_the_sum_of_its_parts() {
    for kind in [1u8, 2, 3] {
        for depth in [8u8, 10] {
            let top = 51 + 6 * (u32::from(depth) - 8);
            let mut last = 0;
            for sum in -80..=80 {
                let q = chroma_qp(sum, 0, depth, kind);
                assert_eq!(q, chroma_qp(sum - 7, 7, depth, kind));
                assert!(last <= q && q <= top);
                assert!(chroma_qp(sum, 0, depth, 1) <= q);
                last = q;
            }
        }
    }
}
