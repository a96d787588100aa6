//! The per-sample loops of reconstruction.
use hevc_engine::recon_simd::{
    add_clip_row, add_clip_row_scalar, band_offset_rect, band_offset_row, band_offset_row_scalar, edge_offset_row,
    edge_offset_row_scalar, reconstruct_row, reconstruct_row_scalar, BandStats, EdgeStats,
};
use hevc_engine::simd::{isa_with_override, Host, Isa, SimdIsa};

/// Every instruction set that a profile can name.
const ISAS: [SimdIsa; 4] = [SimdIsa::Scalar, SimdIsa::Sse41, SimdIsa::Avx2, SimdIsa::Neon];

struct Rng(u64);

impl Rng {
    fn next_u8(&mut self) -> u8 {
        self.0 ^= self.0 << 13;
        self.0 ^= self.0 >> 7;
        self.0 ^= self.0 << 17;
        (self.0 >> 33) as u8
    }
}

fn bytes(seed: u64, n: usize) -> Vec<u8> {
    let mut rng = Rng(seed);
    (0..n).map(|_| rng.next_u8()).collect()
}

fn samples(seed: u64, n: usize) -> Vec<i32> {
    bytes(seed, n).into_iter().map(i32::from).collect()
}

fn residuals(seed: u64, n: usize) -> Vec<i32> {
    bytes(seed, n)
        .into_iter()
        .map(|b| i32::from(b) * 4 - 480)
        .collect()
}

const RUNS: &[usize] = &[0, 1, 3, 4, 5, 7, 8, 9, 15, 16, 17, 31, 32, 33, 64, 65];

#[test]
fn reconstruction_matches_the_scalar_reference_on_every_instruction_set() {
    for &n in RUNS {
        let src = bytes(0xdead_beef_cafe_f00d, n);
        let pred = bytes(0x0123_4567_89ab_cdef, n);
        let mut expected = vec![0i32; n];
        reconstruct_row_scalar(&mut expected, &src, &pred);
        for isa in ISAS {
            let mut got = vec![0i32; n];
            reconstruct_row(&mut got, &src, &pred);
            assert_eq!(
                got,
                expected,
                "{} reconstruction of {n} samples",
                format!("{isa:?}")
            );
        }
    }
}

#[test]
fn the_reconstruction_of_an_8_bit_source_is_the_source() {
    let src = bytes(0x5151_2626_3737_4848, 67);
    let pred = bytes(0x9999_1111_2222_3333, 67);
    for isa in ISAS {
        let mut got = vec![0i32; src.len()];
        reconstruct_row(&mut got, &src, &pred);
        let expected: Vec<i32> = src.iter().map(|&s| i32::from(s)).collect();
        assert_eq!(got, expected, "{}", format!("{isa:?}"));
    }
}

#[test]
fn the_edge_offset_search_matches_the_scalar_reference_on_every_instruction_set() {
    for &n in RUNS {
        let here = samples(0x1111_2222_3333_4444, n);
        let a = samples(0x1111_2222_3333_4445, n);
        let b = samples(0x1111_2222_3333_4446, n);
        let src = bytes(0xfeed_face_dead_10cc, n);
        let mut expected = EdgeStats::default();
        edge_offset_row_scalar(&here, &a, &b, &src, &mut expected);
        for isa in ISAS {
            let mut got = EdgeStats::default();
            edge_offset_row(&here, &a, &b, &src, &mut got);
            assert_eq!(got, expected, "{} edge search over {n} samples", format!("{isa:?}"));
        }
    }
}

fn band_rect_fixture(width: usize, height: usize) -> (Vec<i32>, Vec<u8>, BandStats) {
    let mut here = samples(0x7777_8888_9999_aaaa, BAND_RECT_STRIDE * height);
    for (i, value) in here.iter_mut().enumerate() {
        *value = (i as i32 * 7) % 300 - 12;
    }
    let src = bytes(0x0123_4567_89ab_cdef, BAND_RECT_STRIDE * height);
    let mut expected = BandStats::default();
    for y in 0..height {
        band_offset_row_scalar(
            &here[y * BAND_RECT_STRIDE..y * BAND_RECT_STRIDE + width],
            &src[y * BAND_RECT_STRIDE..y * BAND_RECT_STRIDE + width],
            &mut expected,
        );
    }
    (here, src, expected)
}

const BAND_RECT_STRIDE: usize = 71;

const BAND_RECTS: &[(usize, usize)] = &[
    (1, 1),
    (3, 2),
    (4, 4),
    (7, 3),
    (8, 8),
    (16, 16),
    (17, 5),
    (64, 4),
];

#[test]
fn the_band_offset_rect_matches_the_row_reference_on_every_instruction_set() {
    for &(width, height) in BAND_RECTS {
        let (here, src, expected) = band_rect_fixture(width, height);
        for isa in ISAS {
            let mut got = BandStats::default();
            band_offset_rect(&here, BAND_RECT_STRIDE, &src, BAND_RECT_STRIDE, width, height, &mut got);
            assert_eq!(
                got,
                expected,
                "{} band rect {width}x{height} at stride {BAND_RECT_STRIDE}",
                format!("{isa:?}")
            );
        }
    }
}

#[test]
fn the_band_offset_search_matches_the_scalar_reference_on_every_instruction_set() {
    for &n in RUNS {
        let mut here = samples(0x7777_8888_9999_aaaa, n);
        for (i, h) in here.iter_mut().enumerate() {
            match i % 8 {
                0 => *h = -7,
                1 => *h = 262,
                _ => {}
            }
        }
        let src = bytes(0xc0ff_ee00_1234_5678, n);
        let mut expected = BandStats::default();
        band_offset_row_scalar(&here, &src, &mut expected);
        assert_eq!(
            expected.counts.iter().sum::<i64>(),
            n as i64,
            "every sample lands in exactly one band"
        );
        for isa in ISAS {
            let mut got = BandStats::default();
            band_offset_row(&here, &src, &mut got);
            assert_eq!(got, expected, "{} band search over {n} samples", format!("{isa:?}"));
        }
    }
}

#[test]
fn the_band_search_accumulates_into_existing_stats() {
    let here = samples(0x3131_4141_5151_6161, 37);
    let src = bytes(0x2020_3030_4040_5050, 37);
    let mut expected = BandStats::default();
    band_offset_row_scalar(&here, &src, &mut expected);
    band_offset_row_scalar(&here, &src, &mut expected);
    for isa in ISAS {
        let mut got = BandStats::default();
        band_offset_row(&here, &src, &mut got);
        band_offset_row(&here, &src, &mut got);
        assert_eq!(got, expected, "{}", format!("{isa:?}"));
    }
}

#[test]
fn every_band_is_reachable_and_counted_once() {
    let here: Vec<i32> = (0..32).map(|b| b * 8).collect();
    let src = vec![0u8; 32];
    let mut stats = BandStats::default();
    band_offset_row_scalar(&here, &src, &mut stats);
    assert_eq!(stats.counts, [1i64; 32]);
    let expected: Vec<i64> = (0..32).map(|b| -(b as i64) * 8).collect();
    assert_eq!(stats.sums.to_vec(), expected);
}

#[test]
fn a_sample_outside_the_8_bit_range_still_lands_in_an_end_band() {
    let here = [-9i32, 300];
    let src = [4u8, 4];
    let mut stats = BandStats::default();
    band_offset_row_scalar(&here, &src, &mut stats);
    assert_eq!(stats.counts[0], 1);
    assert_eq!(stats.counts[31], 1);
    assert_eq!(stats.sums[0], 13);
    assert_eq!(stats.sums[31], -296);
}

#[test]
fn every_edge_category_is_reachable_and_counted_once() {
    let here = [10, 10, 10, 10, 10];
    let a = [20, 20, 10, 10, 5];
    let b = [20, 10, 10, 5, 5];
    let src = [12u8, 13, 14, 15, 16];
    let mut stats = EdgeStats::default();
    edge_offset_row_scalar(&here, &a, &b, &src, &mut stats);
    assert_eq!(stats.counts, [0, 1, 1, 1, 1]);
    assert_eq!(stats.sums, [0, 2, 3, 5, 6]);
}

#[test]
fn the_coded_add_and_clip_matches_the_scalar_reference_on_every_instruction_set() {
    for &n in RUNS {
        let pred = samples(0x1a2b_3c4d_5e6f_7081, n);
        let coded = residuals(0x7fff_0001_2345_6789, n);
        let mut expected = vec![0i32; n];
        add_clip_row_scalar(&mut expected, &pred, &coded);
        for isa in ISAS {
            let mut got = vec![0i32; n];
            add_clip_row(&mut got, &pred, &coded);
            assert_eq!(got, expected, "{} add-and-clip of {n} samples", format!("{isa:?}"));
        }
    }
}

#[test]
fn the_coded_add_and_clip_saturates_at_both_ends_of_the_8_bit_range() {
    let pred = [0i32, 128, 255, 200, 40, 128, 128];
    let coded = [-1i32, -200, 1, 100, -100, 32_767, -32_768];
    let expected = [0i32, 0, 255, 255, 0, 255, 0];
    for isa in ISAS {
        let mut got = [0i32; 7];
        add_clip_row(&mut got, &pred, &coded);
        assert_eq!(got, expected, "{}", format!("{isa:?}"));
    }
}

#[test]
fn recon_simd_the_detected_instruction_set_is_the_best_one_this_machine_supports() {
    let host = Host { ssse3: true, sse41: true, sse42: true, avx2: true, neon: false };
    assert_eq!(isa_with_override(host, None), Isa::Avx2);
    assert_eq!(isa_with_override(Host { avx2: false, ..host }, None), Isa::Sse41);
    assert_eq!(isa_with_override(host, Some(SimdIsa::Scalar)), Isa::Scalar);
}
