//! The colour conversion.
use hevc_engine::colorconv::{chroma_row_pair, chroma_row_pair_scalar, luma_row, luma_row_scalar};
use hevc_engine::simd::{conversion_isa, Host, Isa, SimdIsa};

/// Every instruction set that a profile can name.
const ISAS: [SimdIsa; 4] = [SimdIsa::Scalar, SimdIsa::Sse41, SimdIsa::Avx2, SimdIsa::Neon];

struct Rng(u64);

impl Rng {
    fn next_u8(&mut self) -> u8 {
        self.0 ^= self.0 << 13;
        self.0 ^= self.0 >> 7;
        self.0 ^= self.0 << 17;
        (self.0 >> 33) as u8
    }
}

fn row(seed: u64, pixels: usize) -> Vec<u8> {
    let mut rng = Rng(seed);
    (0..pixels * 4).map(|_| rng.next_u8()).collect()
}

const WIDTHS: &[usize] = &[
    2, 4, 6, 8, 10, 14, 16, 18, 24, 30, 32, 34, 48, 62, 64, 66, 80, 128, 176, 640,
];

#[test]
fn luma_matches_the_scalar_reference_at_every_width() {
    for isa in ISAS {
        for &w in WIDTHS {
            let src = row(0x1234_5678_9abc_def1, w);
            let mut expected = vec![0u8; w];
            luma_row_scalar(&src, &mut expected);
            let mut got = vec![0u8; w];
            luma_row(&src, &mut got);
            assert_eq!(got, expected, "{w}-pixel luma row on {}", format!("{isa:?}"));
        }
    }
}

#[test]
fn chroma_matches_the_scalar_reference_at_every_width() {
    for isa in ISAS {
        for &w in WIDTHS {
            let top = row(0x0fed_cba9_8765_4321, w);
            let bottom = row(0x5deece66_d0000001, w);
            let (mut want_cb, mut want_cr) = (vec![0u8; w / 2], vec![0u8; w / 2]);
            chroma_row_pair_scalar(&top, &bottom, &mut want_cb, &mut want_cr);
            let (mut cb, mut cr) = (vec![0u8; w / 2], vec![0u8; w / 2]);
            chroma_row_pair(&top, &bottom, &mut cb, &mut cr);
            assert_eq!(cb, want_cb, "{w}-pixel Cb row on {}", format!("{isa:?}"));
            assert_eq!(cr, want_cr, "{w}-pixel Cr row on {}", format!("{isa:?}"));
        }
    }
}

const CORNERS: [[u8; 3]; 8] = [
    [0, 0, 0],
    [255, 0, 0],
    [0, 255, 0],
    [0, 0, 255],
    [255, 255, 0],
    [255, 0, 255],
    [0, 255, 255],
    [255, 255, 255],
];

fn rgb_cube_corners(pixels: usize) -> Vec<u8> {
    (0..pixels)
        .flat_map(|x| {
            let c = CORNERS[x % CORNERS.len()];
            [c[0], c[1], c[2], 255]
        })
        .collect()
}

#[test]
fn the_rgb_cube_corners_stay_inside_studio_swing_on_every_path() {
    let pixels = 64;
    let src = rgb_cube_corners(pixels);
    let bottom = rgb_cube_corners(pixels + 1)[4..].to_vec();
    for isa in ISAS {
        let mut luma = vec![0u8; pixels];
        luma_row(&src, &mut luma);
        let mut expected = vec![0u8; pixels];
        luma_row_scalar(&src, &mut expected);
        assert_eq!(luma, expected, "corner luma on {}", format!("{isa:?}"));
        assert!(
            luma.iter().all(|&y| (16..=235).contains(&y)),
            "corner luma left studio swing on {}: {luma:?}",
            format!("{isa:?}")
        );
        assert!(luma.contains(&16) && luma.contains(&235));

        let (mut cb, mut cr) = (vec![0u8; pixels / 2], vec![0u8; pixels / 2]);
        chroma_row_pair(&src, &bottom, &mut cb, &mut cr);
        let (mut want_cb, mut want_cr) = (vec![0u8; pixels / 2], vec![0u8; pixels / 2]);
        chroma_row_pair_scalar(&src, &bottom, &mut want_cb, &mut want_cr);
        assert_eq!(cb, want_cb, "corner Cb on {}", format!("{isa:?}"));
        assert_eq!(cr, want_cr, "corner Cr on {}", format!("{isa:?}"));
        assert!(
            cb.iter().chain(cr.iter()).all(|&c| (16..=240).contains(&c)),
            "corner chroma left studio swing on {}",
            format!("{isa:?}")
        );
    }
}

#[test]
fn the_conversion_is_a_dispatch_site_the_override_reaches() {
    let host = Host { ssse3: true, sse41: true, sse42: true, avx2: true, neon: false };
    for isa in ISAS {
        let expected = match isa {
            SimdIsa::Scalar => Isa::Scalar,
            SimdIsa::Sse41 => Isa::Sse41,
            SimdIsa::Avx2 => Isa::Avx2,
            SimdIsa::Neon => Isa::Neon,
        };
        assert_eq!(conversion_isa(host, Some(isa)), expected, "pinning {isa:?} left the site behind");
    }
    let old = Host { ssse3: false, avx2: false, ..host };
    assert_eq!(conversion_isa(old, None), Isa::Scalar);
}

#[test]
fn known_colours_convert_exactly() {
    let mut y = [0u8; 3];
    luma_row(&[255, 255, 255, 0, 0, 0, 0, 0, 255, 0, 0, 0], &mut y);
    assert_eq!(y, [235, 16, 82]);
    let red = [255, 0, 0, 0, 255, 0, 0, 0];
    let (mut cb, mut cr) = ([0u8; 1], [0u8; 1]);
    chroma_row_pair(&red, &red, &mut cb, &mut cr);
    assert_eq!((cb[0], cr[0]), (90, 240));
}
