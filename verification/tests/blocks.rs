//! Blocks on their own: reference samples, prediction, residual, and the choice of an
//! instruction set.
use hevc_engine::coded_block::code_residual;
use hevc_engine::decision::{code_block, residual_rate_bits, sum_squared_error, write_back};
use hevc_engine::intra::{predict, reference_samples};
use hevc_engine::modes::{chroma_mode_bit_cost, derive_intra_pred_mode_c, intra_luma_cand_mode_list};
use hevc_engine::partition::transform_block_size;
use hevc_engine::residual::ResidualWriteParams;
use hevc_engine::scan::{scan_position, ScanIdx};
use hevc_engine::simd::{conversion_isa, isa, isa_with_override, Host, Isa, SimdIsa};
use hevc_engine::transform::{forward_transform, Component, PredMode};

#[test]
fn the_first_block_predicts_from_the_middle_grey() {
    let recon = vec![9u8; 32 * 32];
    assert_eq!(reference_samples(&recon, 32, 32, 0, 0, 16), vec![128i32; 65]);
}

#[test]
fn gaps_in_the_reference_take_the_sample_before_them() {
    let mut recon = vec![0u8; 32 * 32];
    for y in 0..16 {
        recon[y * 32 + 15] = 40 + y as u8;
    }
    let r = reference_samples(&recon, 32, 32, 16, 0, 16);
    for (i, &v) in r.iter().enumerate() {
        let expected = if i < 16 {
            55
        } else if i < 32 {
            40 + (31 - i as i32)
        } else {
            40
        };
        assert_eq!(v, expected, "entry {i}");
    }
}

#[test]
fn a_flat_reference_predicts_flat_in_every_mode() {
    for n in [4usize, 8, 16, 32] {
        let r = vec![77i32; 4 * n + 1];
        for mode in 0..=34u8 {
            for luma in [false, true] {
                assert_eq!(predict(&r, n, mode, luma), vec![77i32; n * n], "{n}x{n} mode {mode}");
            }
        }
    }
}

#[test]
fn the_pure_directions_copy_the_reference() {
    let n = 8;
    let r: Vec<i32> = (0..33).map(|i| 3 * i).collect();
    let vertical = predict(&r, n, 26, false);
    let horizontal = predict(&r, n, 10, false);
    for y in 0..n {
        for x in 0..n {
            assert_eq!(vertical[y * n + x], r[2 * n + 1 + x]);
            assert_eq!(horizontal[y * n + x], r[2 * n - 1 - y]);
        }
    }
}

#[test]
fn the_dc_mode_takes_the_mean_of_the_near_sides() {
    let n = 4;
    let mut r = vec![0i32; 17];
    for i in 0..n {
        r[2 * n - 1 - i] = 10;
        r[2 * n + 1 + i] = 20;
    }
    assert_eq!(predict(&r, n, 1, false), vec![15i32; 16]);
}

#[test]
fn the_most_probable_modes_follow_the_neighbours() {
    assert_eq!(intra_luma_cand_mode_list(1, 1), [0, 1, 26]);
    assert_eq!(intra_luma_cand_mode_list(10, 10), [10, 9, 11]);
    assert_eq!(intra_luma_cand_mode_list(2, 2), [2, 33, 3]);
    assert_eq!(intra_luma_cand_mode_list(10, 26), [10, 26, 0]);
    assert_eq!(intra_luma_cand_mode_list(0, 5), [0, 5, 1]);
    assert_eq!(intra_luma_cand_mode_list(0, 1), [0, 1, 26]);
}

#[test]
fn a_chroma_mode_that_repeats_luma_moves_to_the_diagonal() {
    assert_eq!(derive_intra_pred_mode_c(4, 17), 17);
    assert_eq!(derive_intra_pred_mode_c(1, 26), 34);
    assert_eq!(derive_intra_pred_mode_c(1, 17), 26);
    assert_eq!(derive_intra_pred_mode_c(3, 1), 34);
    assert_eq!((chroma_mode_bit_cost(4), chroma_mode_bit_cost(0)), (1, 3));
}

#[test]
fn a_zero_residual_codes_to_nothing() {
    for n in [4usize, 8, 16, 32] {
        let c = code_residual(&vec![0i32; n * n], n, 30, Component::Luma, PredMode::Inter);
        assert!(c.levels.iter().all(|&v| v == 0));
        assert!(c.residual.iter().all(|&v| v == 0));
    }
}

#[test]
fn a_flat_residual_of_any_size_has_one_coefficient() {
    for n in [4usize, 8, 16, 32] {
        for v in [-255i32, -1, 3, 200] {
            let c = forward_transform(&vec![v; n * n], n, false, 8, false).unwrap();
            assert!(c[1..].iter().all(|&w| w == 0), "{n}x{n} of {v}");
            assert_eq!(c[0].signum(), v.signum());
        }
    }
}

#[test]
fn coding_a_predicted_block_leaves_the_prediction() {
    let source: Vec<u8> = (0..32 * 16).map(|i| (i % 200) as u8).collect();
    let pred: Vec<i32> = (0..64).map(|i| i32::from(source[(8 + i / 8) * 32 + 16 + i % 8])).collect();
    let c = code_block(&source, 32, 16, 16, 8, 8, 26, Component::Cb, &pred);
    assert!(c.levels.iter().all(|&v| v == 0));
    assert!(c.samples.iter().zip(&pred).all(|(&s, &p)| i32::from(s) == p));
    assert_eq!(sum_squared_error(&source, 32, 16, 16, 8, 8, &c.samples), 0);
}

#[test]
fn squared_error_and_writing_back_meet_the_block_alone() {
    let mut plane = vec![10u8; 16 * 16];
    let samples = vec![13u8; 16];
    assert_eq!(sum_squared_error(&plane, 16, 16, 4, 8, 4, &samples), 16 * 9);
    write_back(&mut plane, 16, 16, 4, 8, 4, &samples);
    for (i, &v) in plane.iter().enumerate() {
        let inside = (4..8).contains(&(i % 16)) && (8..12).contains(&(i / 16));
        assert_eq!(v, if inside { 13 } else { 10 });
    }
}

#[test]
fn the_rate_of_a_lone_level_counts_its_bins() {
    let params = ResidualWriteParams { log2_trafo_size: 2, is_chroma: false, scan_idx: ScanIdx::Diagonal };
    let mut levels = vec![0i32; 16];
    assert_eq!(residual_rate_bits(&levels, &params), 0);
    levels[0] = 1;
    let one = residual_rate_bits(&levels, &params);
    levels[0] = 9;
    assert!(one > 0);
    assert!(residual_rate_bits(&levels, &params) > one);
}

#[test]
fn a_partition_takes_the_largest_square_that_fits() {
    assert_eq!(transform_block_size(64, 64), 32);
    assert_eq!(transform_block_size(64, 16), 16);
    assert_eq!(transform_block_size(12, 16), 8);
    assert_eq!(transform_block_size(4, 64), 4);
}

#[test]
fn every_scan_visits_every_position_once() {
    for (k, side) in [(0u32, 1usize), (1, 2), (2, 4), (3, 8)] {
        for idx in [ScanIdx::Diagonal, ScanIdx::Horizontal, ScanIdx::Vertical] {
            let mut seen = vec![false; side * side];
            for i in 0..side * side {
                let (x, y) = scan_position(k, idx, i);
                assert!(!seen[y * side + x]);
                seen[y * side + x] = true;
            }
        }
    }
}

#[test]
fn the_best_instruction_set_wins_unless_one_is_pinned() {
    let none = Host { ssse3: false, sse41: false, sse42: false, avx2: false, neon: false };
    assert_eq!(isa(none), Isa::Scalar);
    assert_eq!(isa(Host { sse41: true, ..none }), Isa::Sse41);
    assert_eq!(isa(Host { sse41: true, avx2: true, ..none }), Isa::Avx2);
    assert_eq!(isa(Host { neon: true, ..none }), Isa::Neon);
    assert_eq!(isa_with_override(Host { avx2: true, ..none }, Some(SimdIsa::Scalar)), Isa::Scalar);
    assert_eq!(conversion_isa(Host { sse41: true, ..none }, None), Isa::Scalar);
    assert_eq!(conversion_isa(Host { sse41: true, ssse3: true, ..none }, None), Isa::Sse41);
}
