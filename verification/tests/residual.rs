//! Residual coding, decoded back by a decoder of its own.
use hevc_engine::bins::{
    code_bins, SliceContexts, CTX_CODED_SUB_BLOCK, CTX_GREATER1, CTX_GREATER2, CTX_LAST_X, CTX_LAST_Y, CTX_SIG,
};
use hevc_engine::bitreader::BitReader;
use hevc_engine::bitwriter::BitWriter;
use hevc_engine::cabac_decoder::{CabacEngine, CabacError};
use hevc_engine::cabac_encoder::CabacEncoder;
use hevc_engine::residual::{
    has_coded_levels, last_sig_coeff_binarization, last_sig_coeff_position, last_sig_coeff_prefix_cmax,
    last_sig_coeff_suffix_n_bits, write_residual_coding, ResidualWriteParams,
};
use hevc_engine::scan::{scan_position, ScanIdx};

fn decision(e: &mut CabacEngine<'_>, c: &mut SliceContexts, ctx: usize) -> Result<bool, CabacError> {
    Ok(e.decode_decision(&mut c.models[ctx])? == 1)
}

fn bypass(e: &mut CabacEngine<'_>) -> Result<bool, CabacError> {
    Ok(e.decode_bypass()? == 1)
}

fn decode_last(
    e: &mut CabacEngine<'_>,
    c: &mut SliceContexts,
    base: usize,
    log2: u32,
    is_chroma: bool,
) -> Result<u32, CabacError> {
    let (offset, shift) = if is_chroma {
        (15, log2 - 2)
    } else {
        (3 * (log2 - 2) + ((log2 - 1) >> 2), (log2 + 1) >> 2)
    };
    let mut prefix = 0;
    while prefix < (log2 << 1) - 1 && decision(e, c, base + (offset + (prefix >> shift)) as usize)? {
        prefix += 1;
    }
    Ok(prefix)
}

fn decode_suffix(e: &mut CabacEngine<'_>, prefix: u32) -> Result<u32, CabacError> {
    if prefix <= 3 {
        return Ok(prefix);
    }
    let n = (prefix >> 1) - 1;
    let suffix = e.decode_bypass_bits(n as u8)?;
    Ok((1 << n) * (2 + (prefix & 1)) + suffix)
}

/// Decodes the levels of one transform block.
fn decode_residual(
    e: &mut CabacEngine<'_>,
    c: &mut SliceContexts,
    log2: u32,
    is_chroma: bool,
    scan: ScanIdx,
) -> Result<Vec<i32>, CabacError> {
    let size = 1usize << log2;
    let mut levels = vec![0i32; size * size];
    let px = decode_last(e, c, CTX_LAST_X, log2, is_chroma)?;
    let py = decode_last(e, c, CTX_LAST_Y, log2, is_chroma)?;
    let mut lx = decode_suffix(e, px)? as usize;
    let mut ly = decode_suffix(e, py)? as usize;
    if scan == ScanIdx::Vertical {
        let t = lx;
        lx = ly;
        ly = t;
    }
    let sub = size / 4;
    let mut last_sub = 0;
    while scan_position(log2 - 2, scan, last_sub) != (lx / 4, ly / 4) {
        last_sub += 1;
    }
    let mut last_pos = 0;
    while scan_position(2, scan, last_pos) != (lx % 4, ly % 4) {
        last_pos += 1;
    }
    let mut coded = vec![false; sub * sub];
    let mut previous: Option<(u32, bool)> = None;
    for i in (0..=last_sub).rev() {
        let (xs, ys) = scan_position(log2 - 2, scan, i);
        let right = xs + 1 < sub && coded[ys * sub + xs + 1];
        let below = ys + 1 < sub && coded[(ys + 1) * sub + xs];
        let mut infer_dc = false;
        if i < last_sub && i > 0 {
            let inc = usize::from(right || below) + if is_chroma { 2 } else { 0 };
            coded[ys * sub + xs] = decision(e, c, CTX_CODED_SUB_BLOCK + inc)?;
            infer_dc = true;
        } else {
            coded[ys * sub + xs] = true;
        }
        if !coded[ys * sub + xs] {
            continue;
        }
        let start = if i == last_sub { last_pos as i32 - 1 } else { 15 };
        let mut significant = Vec::new();
        if i == last_sub {
            significant.push(last_pos);
        }
        for n in (0..=start).rev() {
            let n = n as usize;
            let (xp, yp) = scan_position(2, scan, n);
            let flag = if n > 0 || !infer_dc {
                let (xc, yc) = (4 * xs + xp, 4 * ys + yp);
                let mut ctx = if log2 == 2 {
                    [0usize, 1, 4, 5, 2, 3, 4, 5, 6, 6, 8, 8, 7, 7, 8, 8][yc * 4 + xc]
                } else if xc + yc == 0 {
                    0
                } else {
                    let mut s = match (right, below) {
                        (false, false) => {
                            if xp + yp == 0 {
                                2
                            } else if xp + yp < 3 {
                                1
                            } else {
                                0
                            }
                        }
                        (true, false) => 2usize.saturating_sub(yp),
                        (false, true) => 2usize.saturating_sub(xp),
                        (true, true) => 2,
                    };
                    if is_chroma {
                        s += if log2 == 3 { 9 } else { 12 };
                    } else {
                        if xs + ys > 0 {
                            s += 3;
                        }
                        s += if log2 == 3 {
                            if scan == ScanIdx::Diagonal {
                                9
                            } else {
                                15
                            }
                        } else {
                            21
                        };
                    }
                    s
                };
                if is_chroma {
                    ctx += 27;
                }
                let s = decision(e, c, CTX_SIG + ctx)?;
                if s {
                    infer_dc = false;
                }
                s
            } else {
                true
            };
            if flag {
                significant.push(n);
            }
        }
        let mut set = if i == 0 || is_chroma { 0 } else { 2 };
        if let Some((ctx, flag)) = previous {
            if ctx == 0 || flag {
                set += 1;
            }
        }
        let mut greater1_ctx = 1u32;
        let mut base = vec![1i32; significant.len()];
        let mut first_greater1 = None;
        for (k, b) in base.iter_mut().enumerate().take(8) {
            let inc = set * 4 + greater1_ctx.min(3) as usize + if is_chroma { 16 } else { 0 };
            let flag = decision(e, c, CTX_GREATER1 + inc)?;
            previous = Some((greater1_ctx, flag));
            if flag {
                *b += 1;
                greater1_ctx = 0;
                if first_greater1.is_none() {
                    first_greater1 = Some(k);
                }
            } else if greater1_ctx > 0 {
                greater1_ctx += 1;
            }
        }
        if let Some(k) = first_greater1 {
            if decision(e, c, CTX_GREATER2 + set + if is_chroma { 4 } else { 0 })? {
                base[k] += 1;
            }
        }
        let mut negative = Vec::new();
        for _ in 0..significant.len() {
            negative.push(bypass(e)?);
        }
        let mut rice = 0u32;
        for k in 0..significant.len() {
            let limit = if k >= 8 {
                1
            } else if first_greater1 == Some(k) {
                3
            } else {
                2
            };
            let mut value = base[k];
            if value == limit {
                let mut prefix = 0u32;
                while bypass(e)? {
                    prefix += 1;
                }
                let remaining = if prefix <= 3 {
                    (prefix << rice) + e.decode_bypass_bits(rice as u8)?
                } else {
                    (((1 << (prefix - 3)) + 3 - 1) << rice) + e.decode_bypass_bits((prefix - 3 + rice) as u8)?
                };
                value += remaining as i32;
                if value > 3 * (1 << rice) {
                    rice = (rice + 1).min(4);
                }
            }
            let (xp, yp) = scan_position(2, scan, significant[k]);
            levels[(4 * ys + yp) * size + 4 * xs + xp] = if negative[k] { -value } else { value };
        }
    }
    Ok(levels)
}




fn levels(log2: u32) -> Vec<i32> {
    let size = 1usize << log2;
    let mut v = vec![0i32; size * size];
    v[0] = 7;
    v[1] = -1;
    v[size] = 2;
    v[size + 1] = -3;
    if size >= 8 {
        v[4 * size + 4] = -1;
        v[2 * size + 3] = 900;
        v[size + 5] = -46;
    }
    if size >= 16 {
        v[9 * size + 10] = 4;
        v[15 * size + 15] = -2;
    }
    v
}

fn roundtrip(log2: u32, is_chroma: bool, scan_idx: ScanIdx, levels: &[i32]) {
    let write = ResidualWriteParams { log2_trafo_size: log2, is_chroma, scan_idx };
    let mut bins = Vec::new();
    write_residual_coding(&mut bins, &write, levels);
    let mut writer = BitWriter::new();
    let mut cabac = CabacEncoder::new();
    let mut enc_ctx = SliceContexts::init(26);
    code_bins(&mut writer, &mut cabac, &mut enc_ctx, &bins);
    cabac.encode_terminate(&mut writer, 1);
    writer.align_zero();
    let bytes = writer.finish();

    let mut engine = CabacEngine::new(BitReader::new(&bytes)).expect("engine init");
    let mut dec_ctx = SliceContexts::init(26);
    let decoded = decode_residual(&mut engine, &mut dec_ctx, log2, is_chroma, scan_idx).expect("decode");
    assert_eq!(decoded, levels, "log2 {log2} chroma {is_chroma}");
    assert_eq!(enc_ctx, dec_ctx, "context state diverged");
    assert_eq!(engine.decode_terminate().unwrap(), 1, "terminator");
}

#[test]
fn every_block_size_roundtrips_through_the_decoder() {
    for log2 in 2..=5u32 {
        roundtrip(log2, false, ScanIdx::Diagonal, &levels(log2));
    }
}

#[test]
fn chroma_blocks_roundtrip_through_the_decoder() {
    for log2 in 2..=4u32 {
        roundtrip(log2, true, ScanIdx::Diagonal, &levels(log2));
    }
}

#[test]
fn the_mode_dependent_scans_roundtrip_through_the_decoder() {
    for scan in [ScanIdx::Horizontal, ScanIdx::Vertical] {
        roundtrip(2, false, scan, &levels(2));
        roundtrip(3, true, scan, &levels(3));
    }
}

#[test]
fn a_single_dc_coefficient_roundtrips() {
    for log2 in 2..=5u32 {
        let size = 1usize << log2;
        let mut v = vec![0i32; size * size];
        v[0] = -1;
        roundtrip(log2, false, ScanIdx::Diagonal, &v);
    }
}

#[test]
fn a_single_coefficient_in_the_far_corner_roundtrips() {
    for log2 in 2..=5u32 {
        let size = 1usize << log2;
        let mut v = vec![0i32; size * size];
        v[size * size - 1] = 3;
        roundtrip(log2, false, ScanIdx::Diagonal, &v);
    }
}

#[test]
fn a_dense_block_of_large_levels_roundtrips() {
    let log2 = 4u32;
    let size = 1usize << log2;
    let v: Vec<i32> = (0..size * size)
        .map(|i| {
            let magnitude = 1 + (i as i32 * 37) % 400;
            if i % 3 == 0 { -magnitude } else { magnitude }
        })
        .collect();
    roundtrip(log2, false, ScanIdx::Diagonal, &v);
}

#[test]
fn every_last_significant_position_binarizes_back_to_itself() {
    for log2 in 2..=5u32 {
        for position in 0..(1u32 << log2) {
            let (prefix, suffix) = last_sig_coeff_binarization(position, log2);
            assert!(prefix <= last_sig_coeff_prefix_cmax(log2));
            let suffix = (last_sig_coeff_suffix_n_bits(prefix) > 0).then_some(suffix);
            assert_eq!(
                last_sig_coeff_position(prefix, suffix),
                position,
                "log2 {log2} position {position}"
            );
        }
    }
}

#[test]
fn a_block_without_levels_has_none() {
    assert!(!has_coded_levels(&[0; 16]));
    assert!(has_coded_levels(&[0, 0, -1, 0]));
}
