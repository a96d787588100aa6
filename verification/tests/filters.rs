//! The loop filters and the search for sample-adaptive offsets.
use hevc_engine::picture::{Picture, ReconstructedPicture, SourcePlanes};
use hevc_engine::recon::{deblock_reconstruction, sao_reconstruction};
use hevc_engine::sao::{apply_sao_plane, eo_pos, ResolvedSao, ResolvedSaoComponent};
use hevc_engine::recon_simd::BandStats;
use hevc_engine::sao_search::{band_offsets, best_luma_sao, class_offsets, estimate_sao, SaoLambda};

fn stepped(left: u8, right: u8) -> ReconstructedPicture {
    let y = (0..32 * 16).map(|i| if i % 32 < 16 { left } else { right }).collect();
    ReconstructedPicture { y, cb: vec![128; 128], cr: vec![128; 128], width: 32, height: 16 }
}

#[test]
fn a_step_between_blocks_is_smoothed_by_exact_amounts() {
    let out = deblock_reconstruction(&stepped(100, 110), 30);
    for row in out.y.chunks(32) {
        assert_eq!(&row[..13], &[100u8; 13]);
        assert_eq!(&row[13..19], &[100, 101, 103, 107, 109, 110]);
        assert_eq!(&row[19..], &[110u8; 13]);
    }
    assert_eq!((out.cb, out.cr), (vec![128; 128], vec![128; 128]));
}

#[test]
fn a_fine_quantizer_leaves_the_picture_alone() {
    let picture = stepped(100, 110);
    assert_eq!(deblock_reconstruction(&picture, 10), picture);
}

#[test]
fn a_large_step_is_an_edge_of_the_picture_itself() {
    let picture = stepped(20, 220);
    assert_eq!(deblock_reconstruction(&picture, 30).y, picture.y);
}

fn only_luma(c: ResolvedSaoComponent) -> Vec<ResolvedSao> {
    vec![ResolvedSao { components: [c, ResolvedSaoComponent::off(), ResolvedSaoComponent::off()] }]
}

#[test]
fn band_offsets_move_their_four_bands_alone() {
    let s: Vec<i32> = (0..256).collect();
    let c = ResolvedSaoComponent {
        sao_type_idx: 1,
        offset_val: [0, 3, -2, 7, -7],
        band_position: 30,
        eo_class: 0,
    };
    let out = apply_sao_plane(&s, 16, 16, 0, 16, 1, &only_luma(c));
    for (v, &w) in out.iter().enumerate() {
        let offset = match v / 8 {
            30 => 3,
            31 => -2,
            0 => 7,
            1 => -7,
            _ => 0,
        };
        assert_eq!(w, (v as i32 + offset).clamp(0, 255), "sample {v}");
    }
}

#[test]
fn edge_offsets_follow_the_shape_around_a_sample() {
    let mut s = vec![50i32; 256];
    s[5 * 16 + 5] = 40;
    s[9 * 16 + 9] = 60;
    let c = ResolvedSaoComponent { sao_type_idx: 2, offset_val: [0, 4, 2, -2, -4], band_position: 0, eo_class: 0 };
    let out = apply_sao_plane(&s, 16, 16, 0, 16, 1, &only_luma(c));
    assert_eq!(out[5 * 16 + 5], 44);
    assert_eq!(out[9 * 16 + 9], 56);
    assert_eq!((out[5 * 16 + 4], out[5 * 16 + 6]), (48, 48));
    assert_eq!((out[9 * 16 + 8], out[9 * 16 + 10]), (52, 52));
    assert_eq!(out[0], 50);
    assert_eq!(eo_pos(3), (1, -1, -1, 1));
}

#[test]
fn a_valley_is_raised_by_its_mean_error() {
    let mut s = vec![50i32; 256];
    let mut src = vec![50u8; 256];
    for row in [2usize, 6, 10] {
        s[row * 16 + 7] = 40;
        src[row * 16 + 7] = 45;
    }
    let (gain, offsets) = class_offsets(&s, 16, 16, &src, 16, (0, 0, 16, 16), 0);
    assert_eq!(offsets, [0, 5, 0, 0, 0]);
    assert_eq!(gain, 75);
    let lambda = SaoLambda { mode_q8: 0, band_q8: 0 };
    let best = best_luma_sao(&s, 16, 16, &src, 16, (0, 0, 16, 16), lambda);
    let out = apply_sao_plane(&s, 16, 16, 0, 16, 1, &only_luma(best));
    let error = |p: &[i32]| -> i32 { p.iter().zip(&src).map(|(&a, &b)| (a - i32::from(b)).pow(2)).sum() };
    assert_eq!(error(&s), 75);
    assert!(error(&out) < 75);
}

#[test]
fn offsets_that_cost_more_than_they_gain_are_not_taken() {
    let s = vec![50i32; 256];
    let src = vec![51u8; 256];
    let rect = (0, 0, 16, 16);
    let free = best_luma_sao(&s, 16, 16, &src, 16, rect, SaoLambda { mode_q8: 0, band_q8: 0 });
    assert_eq!(free.sao_type_idx, 1);
    let dear = SaoLambda { mode_q8: 100_000, band_q8: 100_000 };
    assert!(best_luma_sao(&s, 16, 16, &src, 16, rect, dear).same(&ResolvedSaoComponent::off()));
}

#[test]
fn the_chroma_components_share_type_and_class_and_the_picture_never_gets_worse() {
    let (w, h) = (32usize, 16usize);
    let sample = |i: usize, k: usize| -> u8 { ((i * 37 + k * 11 + (i / 7) * 5) % 256) as u8 };
    let plane = |n: usize, k: usize| -> Vec<u8> { (0..n).map(|i| sample(i, k)).collect() };
    let recon = ReconstructedPicture {
        y: plane(w * h, 1),
        cb: plane(w * h / 4, 2),
        cr: plane(w * h / 4, 3),
        width: w,
        height: h,
    };
    let blur = |p: &[u8]| -> Vec<u8> { p.iter().map(|&v| v / 2 + 60).collect() };
    let (y, cb, cr) = (blur(&recon.y), blur(&recon.cb), blur(&recon.cr));
    let src = SourcePlanes { y: &y, cb: &cb, cr: &cr, width: w, height: h };
    let lambda = SaoLambda { mode_q8: 256, band_q8: 256 };
    let (out, grid) = sao_reconstruction(&recon, &src, lambda);
    for cell in &grid {
        assert_eq!(cell.components[1].sao_type_idx, cell.components[2].sao_type_idx);
        assert_eq!(cell.components[1].eo_class, cell.components[2].eo_class);
    }
    let error = |a: &[u8], b: &[u8]| -> i64 {
        a.iter().zip(b).map(|(&p, &q)| (i64::from(p) - i64::from(q)).pow(2)).sum()
    };
    let total = |p: &ReconstructedPicture| error(&p.y, &y) + error(&p.cb, &cb) + error(&p.cr, &cr);
    assert!(total(&out) < total(&recon));
    let again = estimate_sao(&Picture::from_frame(&recon), &src, true, true, lambda);
    assert_eq!(again.len(), grid.len());
    assert!(again.iter().zip(&grid).all(|(a, b)| a.same(b)));
}

#[test]
fn band_offsets_are_the_best_four_that_can_be_signalled() {
    let mut stats = BandStats::default();
    for (band, sum, count) in [(30usize, 13i64, 4i64), (31, -100, 4), (0, 0, 0), (1, -7, 2)] {
        stats.sums[band] = sum;
        stats.counts[band] = count;
    }
    let (gain, offsets) = band_offsets(&stats, 30);
    assert_eq!(offsets, [0, 3, -7, 0, -4]);
    assert_eq!(gain, (78 - 36) + (1400 - 196) + (56 - 32));
    let worth = |o: i64, band: usize| 2 * o * stats.sums[band] - stats.counts[band] * o * o;
    for (k, band) in [30usize, 31, 0, 1].into_iter().enumerate() {
        for o in -7..=7i64 {
            assert!(worth(o, band) <= worth(i64::from(offsets[k + 1]), band));
        }
    }
}
