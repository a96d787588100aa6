//! The rate-distortion search.
use hevc_engine::rdo::{
    candidate_partitions, decide_picture, intra_mode_bit_cost, lambda_q8, residual_bit_cost, DecisionConfig,
    DistortionBackend,
};

fn plane(width: usize, height: usize, dx: usize, dy: usize) -> Vec<u8> {
    let mut out = vec![0; width * height];
    for y in 0..height {
        for x in 0..width {
            out[y * width + x] = (16 + ((x + dx) * 3 + (y + dy) * 5) % 220) as u8;
        }
    }
    out
}

#[test]
fn decision_search_uses_matching_scalar_and_dispatched_costs() {
    let src = plane(32, 32, 0, 0);
    let reference = plane(32, 32, 1, 0);
    let dispatched = decide_picture(
        &src,
        32,
        32,
        32,
        Some(&reference),
        DecisionConfig::default(),
    );
    let scalar = decide_picture(
        &src,
        32,
        32,
        32,
        Some(&reference),
        DecisionConfig {
            backend: DistortionBackend::Scalar,
            ..DecisionConfig::default()
        },
    );
    assert_eq!(dispatched, scalar);
    assert!(
        dispatched
            .blocks
            .iter()
            .all(|block| !block.partitions.is_empty())
    );
    assert!(dispatched.blocks.iter().any(|block| {
        block
            .partitions
            .iter()
            .any(|partition| partition.sad > 0 && partition.satd > 0)
    }));
}

#[test]
fn candidate_table_covers_hevc_block_and_partition_shapes() {
    for size in [4usize, 8, 16, 32, 64] {
        let shapes = candidate_partitions(size);
        assert!(!shapes.is_empty(), "{size}x{size} candidates");
        for shape in &shapes {
            let area: usize = shape.iter().map(|&(_, _, w, h)| w * h).sum();
            assert_eq!(area, size * size, "{size}x{size} partition area");
            for &(x, y, w, h) in shape {
                assert!(w % 4 == 0 && h % 4 == 0);
                assert!(x + w <= size && y + h <= size);
            }
        }
    }
    assert!(
        candidate_partitions(64)
            .iter()
            .flat_map(|shape| shape.iter())
            .any(|&(_, _, w, h)| w != h),
        "asymmetric partitions are included"
    );
}

#[test]
fn the_weight_of_a_bit_follows_its_curve() {
    assert_eq!(lambda_q8(12), 146);
    assert_eq!(lambda_q8(26), 3706);
    assert_eq!(lambda_q8(51), 1_195_377);
    assert_eq!(lambda_q8(-4), lambda_q8(0));
    assert_eq!(lambda_q8(90), lambda_q8(51));
    for qp in 0..=51 {
        let exact = (0.57 * 2f64.powf((f64::from(qp) - 12.0) / 3.0) * 256.0).round().max(1.0);
        assert_eq!(f64::from(lambda_q8(qp)), exact);
    }
}

#[test]
fn modes_and_residuals_have_exact_costs() {
    assert_eq!(intra_mode_bit_cost(7, [7, 1, 0]), 2);
    assert_eq!(intra_mode_bit_cost(0, [7, 1, 0]), 3);
    assert_eq!(intra_mode_bit_cost(9, [7, 1, 0]), 6);
    assert_eq!(residual_bit_cost(&[0, 0, 0]), 1);
    assert_eq!(residual_bit_cost(&[0, 1, -3]), 12 + (3 + 2) + (5 + 2));
}
