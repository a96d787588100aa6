//! Reconstruction and the in-loop filters.
use hevc_engine::partition::transform_block_size;
use hevc_engine::picture::{Picture, SourcePlanes};
use hevc_engine::rdo::{decide_picture, BlockDecision, DecisionConfig, PartitionDecision, PictureDecision};
use hevc_engine::recon::{deblock_descriptors, reconstruct_picture, ReconConfig};
use hevc_engine::sao_search::{estimate_sao, SaoLambda};

const W: usize = 64;
const H: usize = 32;

fn source(shift: usize) -> (Vec<u8>, Vec<u8>, Vec<u8>) {
    let mut y = vec![0u8; W * H];
    for row in 0..H {
        for col in 0..W {
            let block = ((col + shift * 16) / 16 + row / 16) % 4;
            y[row * W + col] = (96 + block * 9) as u8;
        }
    }
    let mut cb = vec![0u8; (W / 2) * (H / 2)];
    let mut cr = vec![0u8; (W / 2) * (H / 2)];
    for row in 0..H / 2 {
        for col in 0..W / 2 {
            let block = ((col + shift * 16 / 2) / (16 / 2) + row / (16 / 2)) % 4;
            cb[row * (W / 2) + col] = (110 + block * 7) as u8;
            cr[row * (W / 2) + col] = (140 - block * 7) as u8;
        }
    }
    (y, cb, cr)
}

fn planes<'a>(p: &'a (Vec<u8>, Vec<u8>, Vec<u8>)) -> SourcePlanes<'a> {
    SourcePlanes {
        y: &p.0,
        cb: &p.1,
        cr: &p.2,
        width: W,
        height: H,
    }
}

fn plan(src: &(Vec<u8>, Vec<u8>, Vec<u8>), reference: Option<&[u8]>) -> PictureDecision {
    decide_picture(&src.0, W, W, H, reference, DecisionConfig::default())
}

fn sse(a: &[u8], b: &[u8]) -> u64 {
    a.iter()
        .zip(b)
        .map(|(&x, &y)| {
            let d = i64::from(x) - i64::from(y);
            (d * d) as u64
        })
        .sum()
}

#[test]
fn the_search_takes_band_offset_where_the_bias_is_a_value_range() {
    let pic = Picture {
        y: (0..W * H).map(|i| if i % W < W / 2 { 100 } else { 200 }).collect(),
        cb: vec![128; (W / 2) * (H / 2)],
        cr: vec![128; (W / 2) * (H / 2)],
        width: W,
        height: H,
    };
    let y: Vec<u8> = (0..W * H)
        .map(|i| if i % W < W / 2 { 103 } else { 200 })
        .collect();
    let chroma = vec![128u8; (W / 2) * (H / 2)];
    let src = SourcePlanes {
        y: &y,
        cb: &chroma,
        cr: &chroma,
        width: W,
        height: H,
    };

    let grid = estimate_sao(&pic, &src, true, true, SaoLambda::closed_form(32));
    let luma = grid[0].components[0];
    assert_eq!(
        luma.sao_type_idx, 1,
        "the search picked type {} where only band offset can reach the error",
        luma.sao_type_idx
    );
    let position = usize::from(luma.band_position);
    let k = (12 + 32 - position) % 32;
    assert!(
        k < 4,
        "band 12 is outside the four bands at position {position}"
    );
    assert_eq!(
        luma.offset_val[k + 1],
        3,
        "the band carrying the bias was offset by {} rather than its mean error",
        luma.offset_val[k + 1]
    );
}

#[test]
fn reconstruction_is_the_source_while_the_writer_codes_pcm_losslessly() {
    let src = source(0);
    let intra = reconstruct_picture(
        &planes(&src),
        None,
        &plan(&src, None),
        ReconConfig::default(),
    );
    assert_eq!(intra.y, src.0);
    assert_eq!(intra.cb, src.1);
    assert_eq!(intra.cr, src.2);

    let next = source(3);
    let inter = reconstruct_picture(
        &planes(&next),
        Some(&intra),
        &plan(&next, Some(&intra.y)),
        ReconConfig::default(),
    );
    assert_eq!(inter.y, next.0);
    assert_eq!(inter.cb, next.1);
    assert_eq!(inter.cr, next.2);
}

#[test]
fn pcm_suppression_keeps_enabled_filters_from_touching_the_reconstruction() {
    let src = source(0);
    let suppressed = reconstruct_picture(
        &planes(&src),
        None,
        &plan(&src, None),
        ReconConfig {
            deblocking: true,
            sao_luma: true,
            sao_chroma: true,
            ..ReconConfig::default()
        },
    );
    assert_eq!(suppressed.y, src.0);
    assert_eq!(suppressed.cb, src.1);
    assert_eq!(suppressed.cr, src.2);
}

#[test]
fn enabled_in_loop_filters_modify_the_reconstruction() {
    let src = source(0);
    let filtered = reconstruct_picture(
        &planes(&src),
        None,
        &plan(&src, None),
        ReconConfig {
            deblocking: true,
            sao_luma: true,
            sao_chroma: true,
            pcm_loop_filter_disabled: false,
            ..ReconConfig::default()
        },
    );
    assert_ne!(
        filtered.y, src.0,
        "an enabled deblocking + SAO pass must reach the reconstructed luma"
    );
    assert_eq!(filtered.y.len(), src.0.len());
    assert_eq!(filtered.cb.len(), src.1.len());
}

#[test]
fn the_whole_reconstruction_is_identical_on_every_instruction_set() {
    let cfg = ReconConfig {
        deblocking: true,
        sao_luma: true,
        sao_chroma: true,
        pcm_loop_filter_disabled: false,
        ..ReconConfig::default()
    };
    let src = source(0);
    let next = source(3);
    let reference = reconstruct_picture(&planes(&src), None, &plan(&src, None), cfg);
    let expected_inter = reconstruct_picture(
        &planes(&next),
        Some(&reference),
        &plan(&next, Some(&reference.y)),
        cfg,
    );
    for round in 0..2 {
        let intra = reconstruct_picture(&planes(&src), None, &plan(&src, None), cfg);
        assert_eq!(intra, reference, "round {round}: intra reconstruction");
        let inter = reconstruct_picture(
            &planes(&next),
            Some(&reference),
            &plan(&next, Some(&reference.y)),
            cfg,
        );
        assert_eq!(inter, expected_inter, "round {round}: inter reconstruction");
    }
}

#[test]
fn the_quantized_reconstruction_is_identical_on_every_instruction_set_at_every_qp() {
    let src = source(0);
    let next = source(3);
    for qp in [12i32, 20, 26, 34, 37, 47, 51] {
        let cfg = ReconConfig {
            deblocking: true,
            sao_luma: true,
            sao_chroma: true,
            pcm_loop_filter_disabled: false,
            quantized_residual: true,
            qp,
        };
        let reference = reconstruct_picture(&planes(&src), None, &plan(&src, None), cfg);
        let expected_inter = reconstruct_picture(
            &planes(&next),
            Some(&reference),
            &plan(&next, Some(&reference.y)),
            cfg,
        );
        for round in 0..2 {
            let intra = reconstruct_picture(&planes(&src), None, &plan(&src, None), cfg);
            assert_eq!(intra, reference, "round {round}: intra at qp {qp}");
            let inter = reconstruct_picture(
                &planes(&next),
                Some(&reference),
                &plan(&next, Some(&reference.y)),
                cfg,
            );
            assert_eq!(inter, expected_inter, "round {round}: inter at qp {qp}");
        }
    }
}

#[test]
fn an_asymmetric_partitions_chroma_half_reconstructs_inside_the_plane() {
    let src = source(0);
    let (width, height) = (W, H);
    let partition = |x, y, w, h| PartitionDecision {
        x,
        y,
        w,
        h,
        mv_x: 0,
        mv_y: 0,
        sad: 0,
        satd: 0,
        bit_cost: 0,
        rd_cost: 0,
    };
    let mut blocks = Vec::new();
    for y0 in (0..height).step_by(16) {
        for x0 in (0..width).step_by(16) {
            blocks.push(BlockDecision {
                x: x0,
                y: y0,
                size: 16,
                partitions: vec![
                    partition(x0, y0, 16, 4),
                    partition(x0, y0 + 4, 16, 16 - 4),
                ],
                rd_cost: 0,
                pcm_cost: u64::MAX,
            });
        }
    }
    let decision = PictureDecision {
        blocks,
        rd_cost: 0,
        pcm_blocks: 0,
    };
    let cfg = ReconConfig {
        quantized_residual: true,
        qp: 32,
        ..ReconConfig::default()
    };
    let expected = reconstruct_picture(&planes(&src), None, &decision, cfg);
    assert_eq!(expected.y.len(), src.0.len());
    assert_eq!(expected.cb.len(), src.1.len());
    assert_eq!(expected.cr.len(), src.2.len());
    for round in 0..2 {
        let lossy = reconstruct_picture(&planes(&src), None, &decision, cfg);
        assert_eq!(lossy, expected, "round {round}");
    }
}

#[test]
fn sao_estimation_does_not_increase_distortion_against_the_source() {
    let src = source(0);
    let deblocked = reconstruct_picture(
        &planes(&src),
        None,
        &plan(&src, None),
        ReconConfig {
            deblocking: true,
            pcm_loop_filter_disabled: false,
            ..ReconConfig::default()
        },
    );
    let with_sao = reconstruct_picture(
        &planes(&src),
        None,
        &plan(&src, None),
        ReconConfig {
            deblocking: true,
            sao_luma: true,
            sao_chroma: true,
            pcm_loop_filter_disabled: false,
            ..ReconConfig::default()
        },
    );
    assert!(
        sse(&with_sao.y, &src.0) < sse(&deblocked.y, &src.0),
        "SAO estimation found no offsets on a deblocked picture that needs them"
    );
    assert!(sse(&with_sao.cb, &src.1) <= sse(&deblocked.cb, &src.1));
}

#[test]
fn inter_reconstruction_predicts_from_the_reference_not_the_source() {
    let src = source(0);
    let mut reference = reconstruct_picture(
        &planes(&src),
        None,
        &plan(&src, None),
        ReconConfig::default(),
    );
    for sample in &mut reference.y {
        *sample = sample.saturating_add(9);
    }
    let next = source(2);
    let out = reconstruct_picture(
        &planes(&next),
        Some(&reference),
        &plan(&next, Some(&reference.y)),
        ReconConfig::default(),
    );
    assert_eq!(out.y, next.0);
}

#[test]
fn a_quantized_residual_makes_the_reconstruction_diverge_from_the_source() {
    let src = source(0);
    let lossless = reconstruct_picture(
        &planes(&src),
        None,
        &plan(&src, None),
        ReconConfig::default(),
    );
    assert_eq!(lossless.y, src.0, "the exact-residual path must stay exact");

    let mut previous = 0u64;
    for qp in [20i32, 34, 47] {
        let lossy = reconstruct_picture(
            &planes(&src),
            None,
            &plan(&src, None),
            ReconConfig {
                quantized_residual: true,
                qp,
                ..ReconConfig::default()
            },
        );
        let error = sse(&lossy.y, &src.0);
        assert!(
            error >= previous,
            "qP {qp} cost less distortion than the finer step"
        );
        previous = error;
        assert_eq!(lossy.y.len(), src.0.len());
        assert_eq!(lossy.cb.len(), src.1.len());
    }
    assert!(
        previous > 0,
        "a quantized reconstruction reproduced the source exactly"
    );
}

#[test]
fn a_quantized_inter_reconstruction_predicts_from_the_lossy_reference() {
    let first = source(0);
    let cfg = ReconConfig {
        quantized_residual: true,
        qp: 34,
        ..ReconConfig::default()
    };
    let reference = reconstruct_picture(&planes(&first), None, &plan(&first, None), cfg);
    let next = source(2);
    let out = reconstruct_picture(
        &planes(&next),
        Some(&reference),
        &plan(&next, Some(&reference.y)),
        cfg,
    );
    assert_ne!(out.y, next.0, "the inter reconstruction stayed lossless");
    assert_eq!(out.y.len(), next.0.len());
}

#[test]
fn partitions_tile_into_the_largest_legal_square_transform_block() {
    assert_eq!(transform_block_size(16, 16), 16);
    assert_eq!(transform_block_size(16, 8), 8);
    assert_eq!(transform_block_size(8, 4), 4);
    assert_eq!(transform_block_size(2, 2), 4);
    assert_eq!(transform_block_size(64, 64), 32);
}

#[test]
fn every_ctb_gets_a_deblocking_descriptor_with_picture_edges_excluded() {
    let cus = deblock_descriptors(W, H, 26);
    assert_eq!(cus.len(), (W / 16) * (H / 16));
    assert!(!cus[0].filter_left && !cus[0].filter_top);
    assert!(cus[1].filter_left && !cus[1].filter_top);
    let second_row = &cus[W / 16];
    assert!(!second_row.filter_left && second_row.filter_top);
}
