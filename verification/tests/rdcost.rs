//! The distortion metrics.
use hevc_engine::rdcost::{sad, sad_scalar, satd, satd_scalar, MAX_BLOCK};
use hevc_engine::simd::{isa, Host, Isa};

struct Rng(u64);

impl Rng {
    fn next_u8(&mut self) -> u8 {
        self.0 ^= self.0 << 13;
        self.0 ^= self.0 >> 7;
        self.0 ^= self.0 << 17;
        (self.0 >> 33) as u8
    }
}

fn plane(seed: u64, stride: usize, h: usize) -> Vec<u8> {
    let mut rng = Rng(seed);
    (0..stride * h).map(|_| rng.next_u8()).collect()
}

const SHAPES: &[(usize, usize)] = &[
    (4, 4),
    (4, 8),
    (8, 4),
    (8, 8),
    (8, 16),
    (16, 8),
    (12, 16),
    (16, 12),
    (16, 16),
    (16, 4),
    (4, 16),
    (16, 32),
    (32, 16),
    (24, 32),
    (32, 8),
    (32, 32),
    (32, 64),
    (64, 32),
    (48, 64),
    (64, 16),
    (64, 64),
];

#[test]
fn sad_matches_the_scalar_reference_for_every_block_shape() {
    for &(w, h) in SHAPES {
        for (src_stride, pred_stride) in [(w, w), (w + 7, w + 3), (MAX_BLOCK + 5, w + 1)] {
            let src = plane(0x1234_5678_9abc_def1, src_stride, h);
            let pred = plane(0x0fed_cba9_8765_4321, pred_stride, h);
            let expected = sad_scalar(&src, src_stride, &pred, pred_stride, w, h);
            assert_eq!(
                sad(&src, src_stride, &pred, pred_stride, w, h),
                expected,
                "{w}x{h} SAD at strides {src_stride}/{pred_stride}",
            );
        }
    }
}

#[test]
fn satd_matches_the_scalar_reference_for_every_block_shape() {
    for &(w, h) in SHAPES {
        if w % 4 != 0 || h % 4 != 0 {
            continue;
        }
        for (src_stride, pred_stride) in [(w, w), (w + 7, w + 3), (MAX_BLOCK + 5, w + 1)] {
            let src = plane(0x2468_ace0_1357_9bdf, src_stride, h);
            let pred = plane(0x7777_3333_1111_9999, pred_stride, h);
            let expected = satd_scalar(&src, src_stride, &pred, pred_stride, w, h);
            assert_eq!(
                satd(&src, src_stride, &pred, pred_stride, w, h),
                expected,
                "{w}x{h} SATD at strides {src_stride}/{pred_stride}",
            );
        }
    }
}

#[test]
fn identical_blocks_cost_nothing_and_extreme_blocks_saturate() {
    for &(w, h) in SHAPES {
        let flat = vec![0x5au8; w * h];
        assert_eq!(sad(&flat, w, &flat, w, w, h), 0, "{w}x{h} SAD");
        if w % 4 == 0 && h % 4 == 0 {
            assert_eq!(satd(&flat, w, &flat, w, w, h), 0, "{w}x{h} SATD");
        }

        let black = vec![0u8; w * h];
        let white = vec![255u8; w * h];
        assert_eq!(sad(&black, w, &white, w, w, h), (255 * w * h) as u32);
        if w % 4 == 0 && h % 4 == 0 {
            let tile = if w % 8 == 0 && h % 8 == 0 { 8 } else { 4 };
            let tiles = ((w / tile) * (h / tile)) as u32;
            let per_tile = 255 * (tile * tile) as u32;
            let expected = tiles * ((per_tile + tile as u32 / 4) >> (tile as u32 / 4));
            assert_eq!(satd(&black, w, &white, w, w, h), expected, "{w}x{h} SATD");
        }
    }
}

#[test]
fn a_single_sample_difference_is_visible_in_both_metrics() {
    let mut src = vec![100u8; 16 * 16];
    let pred = vec![100u8; 16 * 16];
    src[5 * 16 + 9] = 140;
    assert_eq!(sad(&src, 16, &pred, 16, 16, 16), 40);
    assert_eq!(satd(&src, 16, &pred, 16, 16, 16), (40 * 64 + 2) >> 2);
}

#[test]
fn rdcost_the_detected_instruction_set_is_the_best_one_this_machine_supports() {
    let host = Host { ssse3: true, sse41: true, sse42: true, avx2: true, neon: false };
    assert_eq!(isa(host), Isa::Avx2);
    assert_eq!(isa(Host { avx2: false, ..host }), Isa::Sse41);
    assert_eq!(isa(Host { avx2: false, sse41: false, ..host }), Isa::Scalar);
    let arm = Host { ssse3: false, sse41: false, sse42: false, avx2: false, neon: true };
    assert_eq!(isa(arm), Isa::Neon);
}
