//! The residual writer, decoded back by a decoder of its own.
use hevc_engine::bins::{
    SliceContexts, CTX_CBF_CHROMA, CTX_CBF_LUMA, CTX_CHROMA_MODE, CTX_CODED_SUB_BLOCK, CTX_GREATER1, CTX_GREATER2,
    CTX_LAST_X, CTX_LAST_Y, CTX_PART_MODE, CTX_PREV_INTRA, CTX_SAO_MERGE, CTX_SAO_TYPE, CTX_SIG,
};
use hevc_engine::bitreader::{BitReader, BitReaderError};
use hevc_engine::cabac_decoder::{CabacEngine, CabacError};
use hevc_engine::intra::{predict, reference_samples};
use hevc_engine::inverse::{residual_block, BlockParams};
use hevc_engine::modes::{derive_intra_pred_mode_c, intra_luma_cand_mode_list};
use hevc_engine::picture::{Picture, ReconstructedPicture};
use hevc_engine::recon::deblock_reconstruction;
use hevc_engine::sao::{apply_sao_plane, ResolvedSao, ResolvedSaoComponent};
use hevc_engine::scan::{scan_position, ScanIdx};
use hevc_engine::transform::{chroma_qp, luma_qp, Component, PredMode};
use hevc_engine::decision::ModeSearch;
use hevc_engine::intra::INTRA_DC;
use hevc_engine::lossy::{
    encode_idr_residual_au, encode_idr_residual_au_rate_constrained, keeps_sao, write_idr_residual_slice, CurvePoint,
    LoopFilter, SaoQuestion,
};
use hevc_engine::nal::collect_nal_units;
use hevc_engine::pcm::encode_idr_pcm_au;
use hevc_engine::picture::SourcePlanes;
use hevc_engine::rdo::lambda_q8;
use hevc_engine::recon::sao_reconstruction;
use hevc_engine::sao_search::{SaoLambda, SAO_LAMBDA_BAND};

/// The fields of a sequence parameter set that the tests read.
#[derive(Debug, Clone, PartialEq, Eq)]
struct Sps {
    chroma_format_idc: u32,
    width: usize,
    height: usize,
    sao: bool,
    pcm_bit_depth_luma_minus1: Option<u32>,
    pcm_loop_filter_disabled: bool,
}

fn parse_sps(rbsp: &[u8]) -> Result<Sps, BitReaderError> {
    let mut r = BitReader::new(rbsp);
    r.u(4)?;
    r.u(3)?;
    r.u1()?;
    for _ in 0..3 {
        r.u(32)?;
    }
    r.ue()?;
    let chroma_format_idc = r.ue()?;
    let width = r.ue()? as usize;
    let height = r.ue()? as usize;
    r.u1()?;
    for _ in 0..3 {
        r.ue()?;
    }
    r.u1()?;
    for _ in 0..9 {
        r.ue()?;
    }
    r.u1()?;
    r.u1()?;
    let sao = r.u1()? == 1;
    let mut pcm_bit_depth_luma_minus1 = None;
    let mut pcm_loop_filter_disabled = false;
    if r.u1()? == 1 {
        pcm_bit_depth_luma_minus1 = Some(r.u(4)?);
        r.u(4)?;
        r.ue()?;
        r.ue()?;
        pcm_loop_filter_disabled = r.u1()? == 1;
    }
    Ok(Sps { chroma_format_idc, width, height, sao, pcm_bit_depth_luma_minus1, pcm_loop_filter_disabled })
}

/// The fields of a picture parameter set that the tests read.
#[derive(Debug, Clone, PartialEq, Eq)]
struct Pps {
    dependent_slices: bool,
    tiles: Option<(usize, usize)>,
    uniform_spacing: bool,
    filter_across_tiles: bool,
    filter_across_slices: bool,
    deblocking_control_present: bool,
    deblocking_disabled: bool,
}

fn parse_pps(rbsp: &[u8]) -> Result<Pps, BitReaderError> {
    let mut r = BitReader::new(rbsp);
    r.ue()?;
    r.ue()?;
    let dependent_slices = r.u1()? == 1;
    r.u1()?;
    r.u(3)?;
    r.u1()?;
    r.u1()?;
    r.ue()?;
    r.ue()?;
    r.se()?;
    r.u1()?;
    r.u1()?;
    r.u1()?;
    r.se()?;
    r.se()?;
    for _ in 0..4 {
        r.u1()?;
    }
    let tiled = r.u1()? == 1;
    r.u1()?;
    let mut tiles = None;
    let mut uniform_spacing = false;
    let mut filter_across_tiles = true;
    if tiled {
        let columns = r.ue()? as usize + 1;
        let rows = r.ue()? as usize + 1;
        tiles = Some((columns, rows));
        uniform_spacing = r.u1()? == 1;
        filter_across_tiles = r.u1()? == 1;
    }
    let filter_across_slices = r.u1()? == 1;
    let deblocking_control_present = r.u1()? == 1;
    let mut deblocking_disabled = false;
    if deblocking_control_present {
        r.u1()?;
        deblocking_disabled = r.u1()? == 1;
    }
    Ok(Pps {
        dependent_slices,
        tiles,
        uniform_spacing,
        filter_across_tiles,
        filter_across_slices,
        deblocking_control_present,
        deblocking_disabled,
    })
}

/// The fields of a slice segment header.
#[derive(Debug, Clone, PartialEq, Eq)]
struct Header {
    dependent: bool,
    address: usize,
    sao_luma: bool,
    sao_chroma: bool,
    qp: i32,
    across: bool,
    entry_points: Vec<u32>,
}

fn bits_for(total: usize) -> u8 {
    let mut n = 0;
    while (1usize << n) < total {
        n += 1;
    }
    n
}

fn parse_header<'a>(rbsp: &'a [u8], sps: &Sps, pps: &Pps) -> Result<(Header, BitReader<'a>), BitReaderError> {
    let total = (sps.width / 16) * (sps.height / 16);
    let mut r = BitReader::new(rbsp);
    let mut h = Header {
        dependent: false,
        address: 0,
        sao_luma: false,
        sao_chroma: false,
        qp: 26,
        across: false,
        entry_points: Vec::new(),
    };
    let first = r.u1()? == 1;
    r.u1()?;
    r.ue()?;
    if !first {
        if pps.dependent_slices {
            h.dependent = r.u1()? == 1;
        }
        h.address = r.u(bits_for(total))? as usize;
    }
    if !h.dependent {
        assert_eq!(r.ue()?, 2, "an intra slice");
        if sps.sao {
            h.sao_luma = r.u1()? == 1;
            h.sao_chroma = r.u1()? == 1;
        }
        h.qp = 26 + r.se()?;
        if pps.filter_across_slices && (h.sao_luma || h.sao_chroma || !pps.deblocking_disabled) {
            h.across = r.u1()? == 1;
        }
    }
    if pps.tiles.is_some() {
        let n = r.ue()?;
        if n > 0 {
            let bits = r.ue()? as u8 + 1;
            for _ in 0..n {
                h.entry_points.push(r.u(bits)?);
            }
        }
    }
    assert_eq!(r.u1()?, 1, "byte_alignment()");
    r.align();
    Ok((h, r))
}

fn decision(e: &mut CabacEngine<'_>, c: &mut SliceContexts, ctx: usize) -> Result<bool, CabacError> {
    Ok(e.decode_decision(&mut c.models[ctx])? == 1)
}

fn bypass(e: &mut CabacEngine<'_>) -> Result<bool, CabacError> {
    Ok(e.decode_bypass()? == 1)
}

fn decode_last(
    e: &mut CabacEngine<'_>,
    c: &mut SliceContexts,
    base: usize,
    log2: u32,
    is_chroma: bool,
) -> Result<u32, CabacError> {
    let (offset, shift) = if is_chroma {
        (15, log2 - 2)
    } else {
        (3 * (log2 - 2) + ((log2 - 1) >> 2), (log2 + 1) >> 2)
    };
    let mut prefix = 0;
    while prefix < (log2 << 1) - 1 && decision(e, c, base + (offset + (prefix >> shift)) as usize)? {
        prefix += 1;
    }
    Ok(prefix)
}

fn decode_suffix(e: &mut CabacEngine<'_>, prefix: u32) -> Result<u32, CabacError> {
    if prefix <= 3 {
        return Ok(prefix);
    }
    let n = (prefix >> 1) - 1;
    let suffix = e.decode_bypass_bits(n as u8)?;
    Ok((1 << n) * (2 + (prefix & 1)) + suffix)
}

/// Decodes the levels of one transform block.
fn decode_residual(
    e: &mut CabacEngine<'_>,
    c: &mut SliceContexts,
    log2: u32,
    is_chroma: bool,
    scan: ScanIdx,
) -> Result<Vec<i32>, CabacError> {
    let size = 1usize << log2;
    let mut levels = vec![0i32; size * size];
    let px = decode_last(e, c, CTX_LAST_X, log2, is_chroma)?;
    let py = decode_last(e, c, CTX_LAST_Y, log2, is_chroma)?;
    let mut lx = decode_suffix(e, px)? as usize;
    let mut ly = decode_suffix(e, py)? as usize;
    if scan == ScanIdx::Vertical {
        let t = lx;
        lx = ly;
        ly = t;
    }
    let sub = size / 4;
    let mut last_sub = 0;
    while scan_position(log2 - 2, scan, last_sub) != (lx / 4, ly / 4) {
        last_sub += 1;
    }
    let mut last_pos = 0;
    while scan_position(2, scan, last_pos) != (lx % 4, ly % 4) {
        last_pos += 1;
    }
    let mut coded = vec![false; sub * sub];
    let mut previous: Option<(u32, bool)> = None;
    for i in (0..=last_sub).rev() {
        let (xs, ys) = scan_position(log2 - 2, scan, i);
        let right = xs + 1 < sub && coded[ys * sub + xs + 1];
        let below = ys + 1 < sub && coded[(ys + 1) * sub + xs];
        let mut infer_dc = false;
        if i < last_sub && i > 0 {
            let inc = usize::from(right || below) + if is_chroma { 2 } else { 0 };
            coded[ys * sub + xs] = decision(e, c, CTX_CODED_SUB_BLOCK + inc)?;
            infer_dc = true;
        } else {
            coded[ys * sub + xs] = true;
        }
        if !coded[ys * sub + xs] {
            continue;
        }
        let start = if i == last_sub { last_pos as i32 - 1 } else { 15 };
        let mut significant = Vec::new();
        if i == last_sub {
            significant.push(last_pos);
        }
        for n in (0..=start).rev() {
            let n = n as usize;
            let (xp, yp) = scan_position(2, scan, n);
            let flag = if n > 0 || !infer_dc {
                let (xc, yc) = (4 * xs + xp, 4 * ys + yp);
                let mut ctx = if log2 == 2 {
                    [0usize, 1, 4, 5, 2, 3, 4, 5, 6, 6, 8, 8, 7, 7, 8, 8][yc * 4 + xc]
                } else if xc + yc == 0 {
                    0
                } else {
                    let mut s = match (right, below) {
                        (false, false) => {
                            if xp + yp == 0 {
                                2
                            } else if xp + yp < 3 {
                                1
                            } else {
                                0
                            }
                        }
                        (true, false) => 2usize.saturating_sub(yp),
                        (false, true) => 2usize.saturating_sub(xp),
                        (true, true) => 2,
                    };
                    if is_chroma {
                        s += if log2 == 3 { 9 } else { 12 };
                    } else {
                        if xs + ys > 0 {
                            s += 3;
                        }
                        s += if log2 == 3 {
                            if scan == ScanIdx::Diagonal {
                                9
                            } else {
                                15
                            }
                        } else {
                            21
                        };
                    }
                    s
                };
                if is_chroma {
                    ctx += 27;
                }
                let s = decision(e, c, CTX_SIG + ctx)?;
                if s {
                    infer_dc = false;
                }
                s
            } else {
                true
            };
            if flag {
                significant.push(n);
            }
        }
        let mut set = if i == 0 || is_chroma { 0 } else { 2 };
        if let Some((ctx, flag)) = previous {
            if ctx == 0 || flag {
                set += 1;
            }
        }
        let mut greater1_ctx = 1u32;
        let mut base = vec![1i32; significant.len()];
        let mut first_greater1 = None;
        for (k, b) in base.iter_mut().enumerate().take(8) {
            let inc = set * 4 + greater1_ctx.min(3) as usize + if is_chroma { 16 } else { 0 };
            let flag = decision(e, c, CTX_GREATER1 + inc)?;
            previous = Some((greater1_ctx, flag));
            if flag {
                *b += 1;
                greater1_ctx = 0;
                if first_greater1.is_none() {
                    first_greater1 = Some(k);
                }
            } else if greater1_ctx > 0 {
                greater1_ctx += 1;
            }
        }
        if let Some(k) = first_greater1 {
            if decision(e, c, CTX_GREATER2 + set + if is_chroma { 4 } else { 0 })? {
                base[k] += 1;
            }
        }
        let mut negative = Vec::new();
        for _ in 0..significant.len() {
            negative.push(bypass(e)?);
        }
        let mut rice = 0u32;
        for k in 0..significant.len() {
            let limit = if k >= 8 {
                1
            } else if first_greater1 == Some(k) {
                3
            } else {
                2
            };
            let mut value = base[k];
            if value == limit {
                let mut prefix = 0u32;
                while bypass(e)? {
                    prefix += 1;
                }
                let remaining = if prefix <= 3 {
                    (prefix << rice) + e.decode_bypass_bits(rice as u8)?
                } else {
                    (((1 << (prefix - 3)) + 3 - 1) << rice) + e.decode_bypass_bits((prefix - 3 + rice) as u8)?
                };
                value += remaining as i32;
                if value > 3 * (1 << rice) {
                    rice = (rice + 1).min(4);
                }
            }
            let (xp, yp) = scan_position(2, scan, significant[k]);
            levels[(4 * ys + yp) * size + 4 * xs + xp] = if negative[k] { -value } else { value };
        }
    }
    Ok(levels)
}

fn decode_sao_component(
    e: &mut CabacEngine<'_>,
    c: &mut SliceContexts,
    kind_of: Option<(u8, u8)>,
) -> Result<ResolvedSaoComponent, CabacError> {
    let mut out = ResolvedSaoComponent::off();
    out.sao_type_idx = match kind_of {
        Some((kind, _)) => kind,
        None => {
            if !decision(e, c, CTX_SAO_TYPE)? {
                0
            } else if bypass(e)? {
                2
            } else {
                1
            }
        }
    };
    if out.sao_type_idx == 0 {
        return Ok(out);
    }
    for k in 1..5 {
        let mut v = 0;
        while v < 7 && bypass(e)? {
            v += 1;
        }
        out.offset_val[k] = v;
    }
    if out.sao_type_idx == 1 {
        for k in 1..5 {
            if out.offset_val[k] != 0 && bypass(e)? {
                out.offset_val[k] = -out.offset_val[k];
            }
        }
        out.band_position = e.decode_bypass_bits(5)? as u8;
    } else {
        for k in 3..5 {
            out.offset_val[k] = -out.offset_val[k];
        }
        out.eo_class = match kind_of {
            Some((_, class)) => class,
            None => e.decode_bypass_bits(2)? as u8,
        };
    }
    Ok(out)
}

/// Decodes the offsets of one coding tree block; `left` and `up` are the neighbours
/// it may merge with.
fn decode_sao(
    e: &mut CabacEngine<'_>,
    c: &mut SliceContexts,
    h: &Header,
    left: Option<ResolvedSao>,
    up: Option<ResolvedSao>,
) -> Result<ResolvedSao, CabacError> {
    if let Some(l) = left {
        if decision(e, c, CTX_SAO_MERGE)? {
            return Ok(l);
        }
    }
    if let Some(u) = up {
        if decision(e, c, CTX_SAO_MERGE)? {
            return Ok(u);
        }
    }
    let mut out = ResolvedSao::off();
    if h.sao_luma {
        out.components[0] = decode_sao_component(e, c, None)?;
    }
    if h.sao_chroma {
        out.components[1] = decode_sao_component(e, c, None)?;
        let b = out.components[1];
        out.components[2] = decode_sao_component(e, c, Some((b.sao_type_idx, b.eo_class)))?;
    }
    Ok(out)
}

/// One picture under reconstruction.
struct Decoding {
    picture: ReconstructedPicture,
    left_mode: u8,
    grid: Vec<ResolvedSao>,
    /// Where each slice starts, whether it is filtered across its first edge, its QP.
    slices: Vec<(usize, bool, i32)>,
    sao: bool,
    all_pcm: bool,
}

fn decode_block(
    e: &mut CabacEngine<'_>,
    c: &mut SliceContexts,
    coded: bool,
    pred: &[i32],
    n: usize,
    q_p: u32,
    component: Component,
) -> Result<Vec<u8>, CabacError> {
    let mut residual = vec![0i32; n * n];
    if coded {
        let log2 = if n == 16 { 4 } else { 3 };
        let levels = decode_residual(e, c, log2, n == 8, ScanIdx::Diagonal)?;
        residual = residual_block(
            &levels,
            None,
            BlockParams {
                n_tbs: n,
                q_p,
                component,
                pred_mode: PredMode::Intra,
                bit_depth: 8,
                extended_precision: false,
            },
        )
        .expect("a legal block");
    }
    Ok((0..n * n).map(|i| (pred[i] + residual[i]).clamp(0, 255) as u8).collect())
}

fn store(plane: &mut [u8], width: usize, x0: usize, y0: usize, n: usize, samples: &[u8]) {
    for row in 0..n {
        let start = (y0 + row) * width + x0;
        plane[start..start + n].copy_from_slice(&samples[row * n..(row + 1) * n]);
    }
}

/// Decodes one coding unit.
fn decode_unit(
    e: &mut CabacEngine<'_>,
    c: &mut SliceContexts,
    d: &mut Decoding,
    qp: i32,
    addr: usize,
) -> Result<(), CabacError> {
    let (w, h) = (d.picture.width, d.picture.height);
    let (x0, y0) = ((addr % (w / 16)) * 16, (addr / (w / 16)) * 16);
    let (cx, cy) = (x0 / 2, y0 / 2);
    assert!(decision(e, c, CTX_PART_MODE)?, "one unsplit unit");
    if e.decode_terminate()? == 1 {
        e.pcm_align()?;
        let mut read = |n: usize| -> Result<Vec<u8>, CabacError> {
            let mut v = Vec::new();
            for _ in 0..n {
                v.push(e.read_raw_bits(8)? as u8);
            }
            Ok(v)
        };
        let y = read(256)?;
        let cb = read(64)?;
        let cr = read(64)?;
        store(&mut d.picture.y, w, x0, y0, 16, &y);
        store(&mut d.picture.cb, w / 2, cx, cy, 8, &cb);
        store(&mut d.picture.cr, w / 2, cx, cy, 8, &cr);
        e.init_engine()?;
        d.left_mode = 1;
        return Ok(());
    }
    d.all_pcm = false;
    let candidates = intra_luma_cand_mode_list(if x0 > 0 { d.left_mode } else { 1 }, 1);
    let mode = if decision(e, c, CTX_PREV_INTRA)? {
        if !bypass(e)? {
            candidates[0]
        } else if !bypass(e)? {
            candidates[1]
        } else {
            candidates[2]
        }
    } else {
        let mut m = e.decode_bypass_bits(5)? as u8;
        let mut sorted = candidates;
        sorted.sort();
        for s in sorted {
            if m >= s {
                m += 1;
            }
        }
        m
    };
    d.left_mode = mode;
    let signalled = if decision(e, c, CTX_CHROMA_MODE)? { e.decode_bypass_bits(2)? as u8 } else { 4 };
    let chroma_mode = derive_intra_pred_mode_c(signalled, mode);
    let cbf_cb = decision(e, c, CTX_CBF_CHROMA)?;
    let cbf_cr = decision(e, c, CTX_CBF_CHROMA)?;
    let cbf_luma = decision(e, c, CTX_CBF_LUMA + 1)?;
    let q_luma = luma_qp(qp, 8);
    let q_chroma = chroma_qp(qp, 0, 8, 1);
    let refs = reference_samples(&d.picture.y, w, h, x0, y0, 16);
    let y = decode_block(e, c, cbf_luma, &predict(&refs, 16, mode, true), 16, q_luma, Component::Luma)?;
    let refs = reference_samples(&d.picture.cb, w / 2, h / 2, cx, cy, 8);
    let cb = decode_block(e, c, cbf_cb, &predict(&refs, 8, chroma_mode, false), 8, q_chroma, Component::Cb)?;
    let refs = reference_samples(&d.picture.cr, w / 2, h / 2, cx, cy, 8);
    let cr = decode_block(e, c, cbf_cr, &predict(&refs, 8, chroma_mode, false), 8, q_chroma, Component::Cr)?;
    store(&mut d.picture.y, w, x0, y0, 16, &y);
    store(&mut d.picture.cb, w / 2, cx, cy, 8, &cb);
    store(&mut d.picture.cr, w / 2, cx, cy, 8, &cr);
    Ok(())
}

/// The addresses of a slice segment in coding order, with the addresses that start a
/// tile.
fn scan_order(columns: usize, rows: usize, tiles: Option<(usize, usize)>) -> Vec<(usize, bool)> {
    let (tc, tr) = tiles.unwrap_or((1, 1));
    let mut order = Vec::new();
    for ty in 0..tr {
        for tx in 0..tc {
            let (x0, x1) = (tx * columns / tc, (tx + 1) * columns / tc);
            let (y0, y1) = (ty * rows / tr, (ty + 1) * rows / tr);
            for y in y0..y1 {
                for x in x0..x1 {
                    order.push((y * columns + x, x == x0 && y == y0));
                }
            }
        }
    }
    order
}

/// Decodes an Annex B stream of intra pictures to their planes.
fn decode_stream(stream: &[u8]) -> Result<Vec<ReconstructedPicture>, String> {
    let units = collect_nal_units(stream).map_err(|e| format!("{e:?}"))?;
    let mut sps = None;
    let mut pps = None;
    let mut out = Vec::new();
    let mut current: Option<Decoding> = None;
    let mut saved: Option<SliceContexts> = None;
    let mut slice: Option<Header> = None;
    for unit in &units {
        match unit.header.nal_unit_type {
            33 => {
                if let Some(d) = current.take() {
                    out.push(finish(d, sps.as_ref().unwrap(), pps.as_ref().unwrap()));
                }
                saved = None;
                slice = None;
                sps = Some(parse_sps(&unit.rbsp).map_err(|e| format!("{e:?}"))?);
            }
            34 => pps = Some(parse_pps(&unit.rbsp).map_err(|e| format!("{e:?}"))?),
            20 => {
                let s = sps.as_ref().ok_or("no sps")?;
                let p = pps.as_ref().ok_or("no pps")?;
                let (h, reader) = parse_header(&unit.rbsp, s, p).map_err(|e| format!("{e:?}"))?;
                let mut contexts = if h.dependent {
                    saved.take().ok_or("a dependent segment without its predecessor")?
                } else {
                    SliceContexts::init(h.qp)
                };
                let header = if h.dependent {
                    let mut base = slice.clone().ok_or("no slice")?;
                    base.address = h.address;
                    base
                } else {
                    h.clone()
                };
                let area = s.width * s.height;
                let columns = s.width / 16;
                let rows = s.height / 16;
                let d = current.get_or_insert_with(|| Decoding {
                    picture: ReconstructedPicture {
                        y: vec![0; area],
                        cb: vec![0; area / 4],
                        cr: vec![0; area / 4],
                        width: s.width,
                        height: s.height,
                    },
                    left_mode: 1,
                    grid: vec![ResolvedSao::off(); columns * rows],
                    slices: Vec::new(),
                    sao: false,
                    all_pcm: true,
                });
                if !h.dependent {
                    d.slices.push((h.address, h.across, h.qp));
                    slice = Some(h.clone());
                }
                let slice_start = d.slices.last().ok_or("no slice")?.0;
                let order = scan_order(columns, rows, p.tiles);
                let mut e = CabacEngine::new(reader).map_err(|e| format!("{e:?}"))?;
                let mut k = header.address;
                loop {
                    let (addr, starts) = order[k];
                    if starts && k > header.address {
                        if e.decode_terminate().map_err(|e| format!("{e:?}"))? != 1 {
                            return Err(String::from("end_of_subset_one_bit"));
                        }
                        e.pcm_align().map_err(|e| format!("{e:?}"))?;
                        e.init_engine().map_err(|e| format!("{e:?}"))?;
                        contexts = SliceContexts::init(header.qp);
                    }
                    if header.sao_luma || header.sao_chroma {
                        d.sao = true;
                        let left = (addr % columns > 0 && addr - 1 >= slice_start).then(|| d.grid[addr - 1]);
                        let up = (addr >= columns && addr - columns >= slice_start).then(|| d.grid[addr - columns]);
                        d.grid[addr] =
                            decode_sao(&mut e, &mut contexts, &header, left, up).map_err(|e| format!("{e:?}"))?;
                    }
                    decode_unit(&mut e, &mut contexts, d, header.qp, addr).map_err(|e| format!("{e:?}"))?;
                    k += 1;
                    if e.decode_terminate().map_err(|e| format!("{e:?}"))? == 1 {
                        break;
                    }
                }
                saved = Some(contexts);
            }
            _ => {}
        }
    }
    if let Some(d) = current.take() {
        out.push(finish(d, sps.as_ref().unwrap(), pps.as_ref().unwrap()));
    }
    Ok(out)
}

/// Runs the loop filters over a decoded picture.
fn finish(d: Decoding, sps: &Sps, pps: &Pps) -> ReconstructedPicture {
    let columns = sps.width / 16;
    let mut picture = d.picture;
    if d.all_pcm && sps.pcm_loop_filter_disabled {
        return picture;
    }
    if !pps.deblocking_disabled {
        // Slices of whole rows that are not filtered across their first edge are
        // filtered apart from what lies above.
        let mut starts: Vec<usize> = d
            .slices
            .iter()
            .filter(|s| s.0 > 0 && !s.1)
            .map(|s| s.0 / columns * 16)
            .collect();
        starts.insert(0, 0);
        starts.push(sps.height);
        let qp = d.slices[0].2;
        let w = sps.width;
        let mut joined = ReconstructedPicture { y: vec![], cb: vec![], cr: vec![], width: w, height: sps.height };
        for pair in starts.windows(2) {
            let part = ReconstructedPicture {
                y: picture.y[pair[0] * w..pair[1] * w].to_vec(),
                cb: picture.cb[pair[0] / 2 * (w / 2)..pair[1] / 2 * (w / 2)].to_vec(),
                cr: picture.cr[pair[0] / 2 * (w / 2)..pair[1] / 2 * (w / 2)].to_vec(),
                width: w,
                height: pair[1] - pair[0],
            };
            let part = deblock_reconstruction(&part, qp);
            joined.y.extend(part.y);
            joined.cb.extend(part.cb);
            joined.cr.extend(part.cr);
        }
        picture = joined;
    }
    if d.sao {
        let p = Picture::from_frame(&picture);
        let (w, h) = (sps.width, sps.height);
        picture = Picture {
            y: apply_sao_plane(&p.y, w, h, 0, 16, columns, &d.grid),
            cb: apply_sao_plane(&p.cb, w / 2, h / 2, 1, 8, columns, &d.grid),
            cr: apply_sao_plane(&p.cr, w / 2, h / 2, 2, 8, columns, &d.grid),
            width: w,
            height: h,
        }
        .to_frame();
    }
    picture
}



fn picture(width: usize, height: usize) -> (Vec<u8>, Vec<u8>, Vec<u8>) {
    let mut state = 0x9E37_79B9_7F4A_7C15u64;
    let mut noise = || {
        state = state
            .wrapping_mul(6364136223846793005)
            .wrapping_add(1442695040888963407);
        ((state >> 59) as i32) - 8
    };
    let y = (0..width * height)
        .map(|i| {
            let (x, r) = (i % width, i / width);
            let base = (x * 3 + r * 2) % 200 + 20;
            let edge = if x > width / 2 { 40 } else { 0 };
            (base as i32 + edge + noise()).clamp(0, 255) as u8
        })
        .collect();
    let chroma = |offset: i32| -> Vec<u8> {
        (0..(width / 2) * (height / 2))
            .map(|i| {
                let (x, r) = ((i % (width / 2)) as i32, (i / (width / 2)) as i32);
                (128 + ((x - r + offset) % 40) - 20).clamp(0, 255) as u8
            })
            .collect()
    };
    (y, chroma(0), chroma(13))
}

fn decode(au: &[u8], width: usize, height: usize) -> (Vec<u8>, Vec<u8>, Vec<u8>) {
    let mut frames = decode_stream(au).expect("decode");
    assert_eq!(frames.len(), 1, "one IDR frame");
    let p = frames.remove(0);
    assert_eq!((p.width, p.height), (width, height));
    (p.y, p.cb, p.cr)
}

/// What the bits of a grid would remove on a finer quantizer, on a straight line in
/// log-rate against log-distortion through the two points.
fn reachable(q: &SaoQuestion) -> Option<f64> {
    let (coded, other) = if q.qp > 0 { (q.coarse, q.fine) } else { (q.fine, q.coarse) };
    if coded.sse == 0 || coded.bits == 0 || other.sse == 0 || q.sao_bits == 0 {
        return None;
    }
    let rate_ratio = other.bits as f64 / coded.bits as f64;
    let sse_ratio = other.sse as f64 / coded.sse as f64;
    if (rate_ratio - 1.0).abs() < 1e-9 || (sse_ratio - 1.0).abs() < 1e-9 {
        return None;
    }
    if (rate_ratio > 1.0) != (sse_ratio < 1.0) {
        return None;
    }
    let t = (1.0 + q.sao_bits as f64 / coded.bits as f64).ln() / rate_ratio.ln();
    let reachable = coded.sse as f64 * (1.0 - sse_ratio.powf(t));
    if reachable.is_finite() && reachable > 0.0 {
        Some(reachable)
    } else {
        None
    }
}

/// What the offsets of a slice have to remove.
fn threshold(q: &SaoQuestion) -> f64 {
    let fixed = u64::from(lambda_q8(q.qp));
    let line = |lambda: u64| (q.sao_bits * lambda / 256) as f64;
    let (lo, hi) = (line((fixed / SAO_LAMBDA_BAND).max(1)), line(fixed * SAO_LAMBDA_BAND));
    reachable(q).unwrap_or_else(|| line(fixed)).clamp(lo, hi)
}

/// Whether a gain clears what its bits would remove otherwise.
fn accepts(q: SaoQuestion) -> bool {
    q.gain as f64 > threshold(&q)
}

fn write_slice(
    y: &[u8],
    cb: &[u8],
    cr: &[u8],
    width: usize,
    height: usize,
    qp: i32,
    search: ModeSearch,
    filter: LoopFilter,
) -> (Vec<u8>, ReconstructedPicture, Vec<u8>) {
    write_idr_residual_slice(&SourcePlanes { y, cb, cr, width, height }, qp, search, filter, accepts)
}

#[test]
fn the_decoded_stream_matches_the_encoders_own_reconstruction() {
    let (width, height) = (64, 48);
    for (name, (y, cb, cr)) in [
        ("noise", picture(width, height)),
        ("smooth", smooth_picture(width, height)),
    ] {
        for qp in [0i32, 12, 26, 37, 51] {
            let (au, recon) = encode_idr_residual_au(&y, &cb, &cr, width, height, qp, accepts).unwrap();
            let (dy, dcb, dcr) = decode(&au, width, height);
            assert_eq!(dy, recon.y, "{name} qp {qp}: luma diverged");
            assert_eq!(dcb, recon.cb, "{name} qp {qp}: Cb diverged");
            assert_eq!(dcr, recon.cr, "{name} qp {qp}: Cr diverged");
        }
    }
}

#[test]
fn the_reconstruction_is_lossy_and_gets_lossier_with_qp() {
    let (width, height) = (64, 48);
    let (y, cb, cr) = picture(width, height);
    let sse = |a: &[u8], b: &[u8]| -> u64 {
        a.iter()
            .zip(b)
            .map(|(&p, &q)| {
                let d = i64::from(p) - i64::from(q);
                (d * d) as u64
            })
            .sum()
    };
    let mut previous = 0u64;
    for qp in [12i32, 26, 37, 51] {
        let (_, recon) = encode_idr_residual_au(&y, &cb, &cr, width, height, qp, accepts).unwrap();
        let error = sse(&recon.y, &y);
        assert!(
            error > previous,
            "qp {qp} did not cost more distortion than the finer step"
        );
        previous = error;
    }
    assert!(
        previous > 0,
        "the residual writer reproduced the source exactly — it is not lossy"
    );
}

#[test]
fn a_coarser_qp_produces_a_smaller_access_unit_than_the_pcm_writer() {
    let (width, height) = (64, 48);
    let (y, cb, cr) = picture(width, height);
    let pcm = encode_idr_pcm_au(&y, &cb, &cr, width, height)
        .unwrap();
    let (lossy, _) = encode_idr_residual_au(&y, &cb, &cr, width, height, 32, accepts).unwrap();
    assert!(
        lossy.len() * 2 < pcm.len(),
        "residual AU {} bytes vs PCM {} bytes",
        lossy.len(),
        pcm.len()
    );
}

#[test]
fn a_flat_picture_codes_no_residual_at_all() {
    let (width, height) = (32, 32);
    let y = vec![120u8; width * height];
    let c = vec![128u8; width * height / 4];
    let (au, recon) = encode_idr_residual_au(&y, &c, &c, width, height, 26, accepts).unwrap();
    let (dy, dcb, dcr) = decode(&au, width, height);
    assert_eq!(dy, recon.y);
    assert_eq!(dcb, recon.cb);
    assert_eq!(dcr, recon.cr);
    assert!(recon.y[width * height - 1].abs_diff(120) <= 1);
}

fn psnr_db(source: &[u8], recon: &[u8]) -> f64 {
    let sse: f64 = source
        .iter()
        .zip(recon)
        .map(|(&a, &b)| {
            let d = f64::from(a) - f64::from(b);
            d * d
        })
        .sum();
    if sse == 0.0 {
        return f64::INFINITY;
    }
    10.0 * (255.0f64.powi(2) * source.len() as f64 / sse).log10()
}

#[test]
fn the_writer_codes_more_than_one_intra_mode() {
    let (width, height) = (64, 48);
    let (y, cb, cr) = picture(width, height);
    let (_, _, modes) = write_slice(&y,
        &cb,
        &cr,
        width,
        height,
        26,
        ModeSearch::Rdo,
        LoopFilter::Deblock,
    );
    assert_eq!(modes.len(), (width / 16) * (height / 16));
    let distinct: std::collections::BTreeSet<u8> = modes.iter().copied().collect();
    assert!(
        distinct.len() > 1,
        "the writer coded a single mode {distinct:?} — the search is not reaching the \
         bitstream"
    );
    assert!(
        modes.iter().any(|&m| m != INTRA_DC),
        "every coding unit is still DC"
    );
}

#[test]
fn the_mode_search_beats_the_dc_only_writer_on_quality_and_rate() {
    let (width, height) = (64, 48);
    let (y, cb, cr) = picture(width, height);
    for qp in [12i32, 26, 37] {
        let (searched_slice, searched, _) = write_slice(&y,
            &cb,
            &cr,
            width,
            height,
            qp,
            ModeSearch::Rdo,
            LoopFilter::Deblock,
        );
        let (baseline_slice, baseline, _) = write_slice(&y,
            &cb,
            &cr,
            width,
            height,
            qp,
            ModeSearch::DcOnly,
            LoopFilter::Deblock,
        );
        let luma = (psnr_db(&y, &searched.y), psnr_db(&y, &baseline.y));
        assert!(
            luma.0 > luma.1,
            "qp {qp}: mode search gave {:.2} dB luma, DC-only gave {:.2} dB",
            luma.0,
            luma.1
        );
        let picture_psnr = |recon: &ReconstructedPicture| {
            psnr_db(
                &[y.clone(), cb.clone(), cr.clone()].concat(),
                &[recon.y.clone(), recon.cb.clone(), recon.cr.clone()].concat(),
            )
        };
        assert!(
            picture_psnr(&searched) > picture_psnr(&baseline),
            "qp {qp}: whole-picture PSNR {:.2} dB did not beat the DC-only {:.2} dB",
            picture_psnr(&searched),
            picture_psnr(&baseline)
        );
        assert!(
            searched_slice.len() < baseline_slice.len(),
            "qp {qp}: the searched slice is {} bytes against the DC-only {}",
            searched_slice.len(),
            baseline_slice.len()
        );
    }
}

#[test]
fn the_rate_distortion_cost_beats_the_fixed_qp_decision_at_equal_rate() {
    let (width, height) = (64, 48);
    let (y, cb, cr) = picture(width, height);
    let full = |recon: &ReconstructedPicture| {
        psnr_db(
            &[y.clone(), cb.clone(), cr.clone()].concat(),
            &[recon.y.clone(), recon.cb.clone(), recon.cr.clone()].concat(),
        )
    };
    let encode = |qp: i32, search: ModeSearch| {
        let (slice, recon, _) = write_slice(&y,
            &cb,
            &cr,
            width,
            height,
            qp,
            search,
            LoopFilter::Deblock,
        );
        (slice.len() as f64, full(&recon))
    };

    let ladder: Vec<(f64, f64)> = [8i32, 12, 18, 22, 26, 32, 37, 42, 47]
        .iter()
        .map(|&qp| encode(qp, ModeSearch::Rdo))
        .collect();

    for qp in [12i32, 18, 26, 32, 37] {
        let (bytes, psnr) = encode(qp, ModeSearch::RateDistortion);
        let (fixed_bytes, _) = encode(qp, ModeSearch::Rdo);
        assert!(
            bytes < fixed_bytes,
            "qp {qp}: charging the residual's rate did not shrink the slice: {bytes} against \
             {fixed_bytes} bytes"
        );
        let upper = ladder
            .windows(2)
            .find(|pair| pair[1].0 <= bytes && bytes <= pair[0].0)
            .unwrap_or_else(|| panic!("qp {qp}: {bytes} bytes is off the measured ladder"));
        let (bigger, smaller) = (upper[0], upper[1]);
        let t = (bigger.0.ln() - bytes.ln()) / (bigger.0.ln() - smaller.0.ln());
        let interpolated = bigger.1 + t * (smaller.1 - bigger.1);
        assert!(
            psnr > interpolated,
            "qp {qp}: the rate-constrained point ({bytes} bytes, {psnr:.3} dB) is below the \
             fixed-QP curve's {interpolated:.3} dB at the same rate"
        );
    }
}

#[test]
fn the_fixed_qp_operating_point_is_still_the_one_the_public_writer_codes() {
    let (width, height) = (64, 48);
    let (y, cb, cr) = picture(width, height);
    for qp in [12i32, 26, 37] {
        let (au, _) = encode_idr_residual_au(&y, &cb, &cr, width, height, qp, accepts).unwrap();
        let (rbsp, _, _) = write_slice(&y,
            &cb,
            &cr,
            width,
            height,
            qp,
            ModeSearch::Rdo,
            LoopFilter::DeblockSao,
        );
        assert!(
            au.windows(rbsp.len()).any(|window| window == rbsp),
            "qp {qp}: the public entry point no longer codes the fixed-QP slice"
        );
    }
}

#[test]
fn the_rate_constrained_stream_decodes_to_the_encoders_own_reconstruction() {
    let (width, height) = (64, 48);
    let (y, cb, cr) = picture(width, height);
    for qp in [0i32, 12, 26, 37, 51] {
        let (au, recon) =
            encode_idr_residual_au_rate_constrained(&y, &cb, &cr, width, height, qp, accepts).unwrap();
        let (dy, dcb, dcr) = decode(&au, width, height);
        assert_eq!(dy, recon.y, "qp {qp}: luma diverged");
        assert_eq!(dcb, recon.cb, "qp {qp}: Cb diverged");
        assert_eq!(dcr, recon.cr, "qp {qp}: Cr diverged");
    }
}

fn smooth_picture(width: usize, height: usize) -> (Vec<u8>, Vec<u8>, Vec<u8>) {
    let y = (0..width * height)
        .map(|i| {
            let (x, r) = ((i % width) as f64, (i / width) as f64);
            (110.0 + 60.0 * ((x / 37.0).sin() + (r / 23.0).cos())).clamp(0.0, 255.0) as u8
        })
        .collect();
    let c = |offset: f64| {
        (0..(width / 2) * (height / 2))
            .map(|i| {
                let (x, r) = ((i % (width / 2)) as f64, (i / (width / 2)) as f64);
                (128.0 + 25.0 * ((x + r + offset) / 19.0).sin()).clamp(0.0, 255.0) as u8
            })
            .collect()
    };
    (y, c(0.0), c(7.0))
}

#[test]
fn the_deblocking_filter_improves_round_trip_psnr() {
    let (width, height) = (64, 48);
    let (y, cb, cr) = smooth_picture(width, height);
    for qp in [20i32, 26, 32, 37, 44, 51] {
        let (_, filtered, _) = write_slice(&y,
            &cb,
            &cr,
            width,
            height,
            qp,
            ModeSearch::Rdo,
            LoopFilter::Deblock,
        );
        let (_, unfiltered, _) = write_slice(&y,
            &cb,
            &cr,
            width,
            height,
            qp,
            ModeSearch::Rdo,
            LoopFilter::Off,
        );
        assert_ne!(
            filtered.y, unfiltered.y,
            "qp {qp}: the filter left every luma sample alone"
        );
        let gain = psnr_db(&y, &filtered.y) - psnr_db(&y, &unfiltered.y);
        assert!(
            gain > 0.3,
            "qp {qp}: deblocking moved luma PSNR by only {gain:+.3} dB"
        );
    }
}

#[test]
fn the_deblocking_filter_does_not_cost_quality_on_noisy_content() {
    let (width, height) = (64, 48);
    let (y, cb, cr) = picture(width, height);
    let source = [y.clone(), cb.clone(), cr.clone()].concat();
    for qp in [12i32, 26, 37, 51] {
        let (_, filtered, _) = write_slice(&y,
            &cb,
            &cr,
            width,
            height,
            qp,
            ModeSearch::Rdo,
            LoopFilter::Deblock,
        );
        let (_, unfiltered, _) = write_slice(&y,
            &cb,
            &cr,
            width,
            height,
            qp,
            ModeSearch::Rdo,
            LoopFilter::Off,
        );
        let whole = |r: &ReconstructedPicture| {
            psnr_db(&source, &[r.y.clone(), r.cb.clone(), r.cr.clone()].concat())
        };
        let gain = whole(&filtered) - whole(&unfiltered);
        assert!(
            gain > -0.05,
            "qp {qp}: deblocking cost {gain:+.3} dB of whole-picture PSNR"
        );
    }
}

#[test]
fn the_access_unit_signals_the_deblocking_filter_as_enabled() {
    let (width, height) = (32, 32);
    let (y, cb, cr) = picture(width, height);
    let (au, _) = encode_idr_residual_au(&y, &cb, &cr, width, height, 32, accepts).unwrap();
    let pps = collect_nal_units(&au)
        .expect("the access unit parses")
        .into_iter()
        .find(|nal| nal.header.nal_unit_type == 34)
        .expect("the access unit carries a PPS");
    let parsed =
        parse_pps(&pps.rbsp).expect("PPS parses");
    assert!(parsed.deblocking_control_present);
    assert!(
        !parsed.deblocking_disabled,
        "the writer's PPS still disables deblocking"
    );
}

fn sao_on_off(
    y: &[u8],
    cb: &[u8],
    cr: &[u8],
    width: usize,
    height: usize,
    qp: i32,
) -> ((usize, f64), (usize, f64)) {
    let source = [y.to_vec(), cb.to_vec(), cr.to_vec()].concat();
    let encode = |filter| {
        let src = SourcePlanes { y, cb, cr, width, height };
        let (slice, recon, _) = write_idr_residual_slice(&src, qp, ModeSearch::Rdo, filter, accepts);
        let psnr = psnr_db(
            &source,
            &[recon.y.clone(), recon.cb.clone(), recon.cr.clone()].concat(),
        );
        (slice.len(), psnr)
    };
    (encode(LoopFilter::Deblock), encode(LoopFilter::DeblockSao))
}

fn sao_grid(
    y: &[u8],
    cb: &[u8],
    cr: &[u8],
    width: usize,
    height: usize,
    qp: i32,
) -> Vec<ResolvedSao> {
    let (_, deblocked, _) = write_slice(y,
        cb,
        cr,
        width,
        height,
        qp,
        ModeSearch::Rdo,
        LoopFilter::Deblock,
    );
    let src = SourcePlanes { y, cb, cr, width, height };
    sao_reconstruction(&deblocked, &src, SaoLambda::for_search(lambda_q8(qp))).1
}

#[test]
fn the_search_picks_band_offset_where_it_beats_every_edge_class() {
    let (width, height) = (64, 48);
    let (y, cb, cr) = picture(width, height);
    let grid = sao_grid(&y, &cb, &cr, width, height, 12);
    let band = grid
        .iter()
        .flat_map(|cell| cell.components.iter())
        .filter(|c| c.sao_type_idx == 1)
        .count();
    assert!(
        band > 0,
        "the search never chose band offset, so the writer's band path is still dead code"
    );

    let ((off_bytes, off_psnr), (on_bytes, on_psnr)) =
        sao_on_off(&y, &cb, &cr, width, height, 12);
    assert!(
        on_bytes > off_bytes && on_psnr > off_psnr,
        "the slice-level test declined the pass band offset was chosen in: \
         {off_bytes} -> {on_bytes} bytes, {off_psnr:.3} -> {on_psnr:.3} dB"
    );
    let (au, recon) =
        encode_idr_residual_au(&y, &cb, &cr, width, height, 12, accepts).unwrap();
    let (dy, dcb, dcr) = decode(&au, width, height);
    assert_eq!(dy, recon.y, "luma diverged over a band-offset slice");
    assert_eq!(dcb, recon.cb, "Cb diverged over a band-offset slice");
    assert_eq!(dcr, recon.cr, "Cr diverged over a band-offset slice");
}

#[test]
fn band_offset_earns_its_rate_where_the_search_takes_it() {
    let (width, height) = (64, 48);
    let (y, cb, cr) = picture(width, height);
    let (_, (on_bytes, on_psnr)) =
        sao_on_off(&y, &cb, &cr, width, height, 12);
    assert!(
        on_psnr > 51.10,
        "the noise picture at QP 12 reconstructed at {on_psnr:.3} dB, below what band offset \
         was measured to buy"
    );
    assert!(
        on_bytes < 1960,
        "the band-offset slice cost {on_bytes} bytes, above what it was measured to cost"
    );
}

fn sao_curve_offsets(
    y: &[u8],
    cb: &[u8],
    cr: &[u8],
    width: usize,
    height: usize,
    sweep: &[i32],
) -> Vec<(i32, usize, f64)> {
    let source = [y.to_vec(), cb.to_vec(), cr.to_vec()].concat();
    let encode = |qp: i32, filter| {
        let src = SourcePlanes { y, cb, cr, width, height };
        let (slice, recon, _) = write_idr_residual_slice(&src, qp, ModeSearch::Rdo, filter, accepts);
        let psnr = psnr_db(
            &source,
            &[recon.y.clone(), recon.cb.clone(), recon.cr.clone()].concat(),
        );
        (slice.len() as f64, psnr)
    };
    let ladder: Vec<(f64, f64)> = (0..=51).map(|qp| encode(qp, LoopFilter::Deblock)).collect();
    let mut out = Vec::new();
    for &qp in sweep {
        let (_, off_psnr) = encode(qp, LoopFilter::Deblock);
        let (bytes, psnr) = encode(qp, LoopFilter::DeblockSao);
        if psnr <= off_psnr {
            continue;
        }
        let pair = ladder
            .windows(2)
            .find(|pair| pair[1].0 <= bytes && bytes <= pair[0].0)
            .unwrap_or_else(|| panic!("qp {qp}: {bytes} bytes is off the measured ladder"));
        let (bigger, smaller) = (pair[0], pair[1]);
        let t = (bigger.0.ln() - bytes.ln()) / (bigger.0.ln() - smaller.0.ln());
        let interpolated = bigger.1 + t * (smaller.1 - bigger.1);
        out.push((qp, bytes as usize, psnr - interpolated));
    }
    out
}

fn curve(bits: u64, sse: u64) -> CurvePoint {
    CurvePoint { sse, bits }
}

#[test]
fn the_slice_level_test_only_probes_when_the_band_leaves_it_open() {
    let qp = 26;
    let fixed = u64::from(lambda_q8(qp));
    let sao_bits = 256;
    let never = || -> bool { panic!("the probe ran where the band had already settled the decision") };
    assert!(
        keeps_sao(
            sao_bits * fixed * SAO_LAMBDA_BAND / 256 + 1,
            sao_bits,
            qp,
            never
        ),
        "a gain clearing the band's coarse end was not kept"
    );
    assert!(
        !keeps_sao(
            sao_bits * (fixed / SAO_LAMBDA_BAND) / 256,
            sao_bits,
            qp,
            never
        ),
        "a gain missing the band's fine end was not declined"
    );
    let inside = sao_bits * fixed / 256;
    let probed = std::cell::Cell::new(false);
    let probe = || {
        probed.set(true);
        accepts(SaoQuestion {
            gain: inside,
            sao_bits,
            qp,
            fine: curve(10_000, 80_000),
            coarse: curve(8_000, 100_000),
        })
    };
    keeps_sao(inside, sao_bits, qp, probe);
    assert!(
        probed.get(),
        "the probe was skipped where the band left it open"
    );
}

#[test]
fn every_accepted_sao_point_sits_on_the_writers_own_curve() {
    for (name, width, height, smooth) in [
        ("smooth 64x48", 64usize, 48usize, true),
        ("smooth 128x96", 128, 96, true),
        ("noise 64x48", 64, 48, false),
        ("noise 128x96", 128, 96, false),
    ] {
        let (y, cb, cr) = if smooth {
            smooth_picture(width, height)
        } else {
            picture(width, height)
        };
        let sweep: Vec<i32> = (12..=51).collect();
        let accepted = sao_curve_offsets(&y, &cb, &cr, width, height, &sweep);
        assert!(
            !accepted.is_empty(),
            "{name}: the writer accepted SAO nowhere in the sweep, so the \
             measurement asserts nothing"
        );
        for (qp, bytes, delta) in accepted {
            assert!(
                delta >= 0.0,
                "{name} qp {qp}: the accepted SAO point ({bytes} bytes) sits {delta:+.3} dB \
                 below the SAO-off writer's own curve at the same rate"
            );
        }
    }
}

#[test]
fn the_sao_pass_is_worth_taking_where_the_writer_takes_it() {
    for (name, (y, cb, cr), qp, floor) in [
        ("smooth 64x48", smooth_picture(64, 48), 12i32, 0.7f64),
        ("smooth 128x96", smooth_picture(128, 96), 12, 0.85),
        ("noise 64x48", picture(64, 48), 37, 0.2),
        ("noise 128x96", picture(128, 96), 37, 0.3),
    ] {
        let (width, height) = if name.ends_with("128x96") {
            (128, 96)
        } else {
            (64, 48)
        };
        let ((off_bytes, off_psnr), (on_bytes, on_psnr)) =
            sao_on_off(&y, &cb, &cr, width, height, qp);
        let gain = on_psnr - off_psnr;
        assert!(
            gain > floor,
            "{name} qp {qp}: SAO moved whole-picture PSNR by only {gain:+.3} dB"
        );
        assert!(
            on_bytes > off_bytes,
            "{name} qp {qp}: SAO coded {on_bytes} bytes against {off_bytes} without paying \
             for its own syntax — the sao( ) structures are not reaching the slice"
        );
    }
}

#[test]
fn the_sao_pass_is_declined_when_it_would_not_clear_its_own_syntax() {
    let (width, height) = (64, 48);
    let (y, cb, cr) = smooth_picture(width, height);
    let mut declined = 0;
    for qp in [26i32, 37, 44, 51] {
        let ((off_bytes, off_psnr), (on_bytes, on_psnr)) =
            sao_on_off(&y, &cb, &cr, width, height, qp);
        if on_bytes == off_bytes {
            declined += 1;
            assert_eq!(
                on_psnr, off_psnr,
                "qp {qp}: the slice is the deblocked one's size but not its picture"
            );
        }
    }
    assert!(
        declined > 0,
        "the slice-level decision never declined SAO — the rate test is not reached"
    );
}

#[test]
fn the_sao_pass_never_costs_the_writer_quality() {
    for (name, (y, cb, cr)) in [
        ("noise", picture(64, 48)),
        ("smooth", smooth_picture(64, 48)),
    ] {
        for qp in [12i32, 20, 26, 32, 37, 44, 51] {
            let ((off_bytes, off_psnr), (on_bytes, on_psnr)) =
                sao_on_off(&y, &cb, &cr, 64, 48, qp);
            assert!(
                on_psnr >= off_psnr,
                "{name} qp {qp}: SAO cost {:+.3} dB of whole-picture PSNR",
                on_psnr - off_psnr
            );
            assert!(
                on_bytes as f64 <= off_bytes as f64 * 1.15,
                "{name} qp {qp}: SAO cost {on_bytes} bytes against {off_bytes}, more than the \
                 measured worst case"
            );
        }
    }
}

#[test]
fn the_access_unit_signals_sao_as_enabled() {
    let (width, height) = (64, 48);
    let (y, cb, cr) = smooth_picture(width, height);
    let (au, _) = encode_idr_residual_au(&y, &cb, &cr, width, height, 12, accepts).unwrap();
    let sps = collect_nal_units(&au)
        .expect("the access unit parses")
        .into_iter()
        .find(|nal| nal.header.nal_unit_type == 33)
        .expect("the access unit carries an SPS");
    let parsed =
        parse_sps(&sps.rbsp).expect("SPS parses");
    assert!(
        parsed.sao,
        "the writer's SPS still disables SAO"
    );
}

#[test]
fn rejects_bad_geometry_and_out_of_range_qp() {
    let (y, cb, cr) = picture(32, 32);
    assert!(encode_idr_residual_au(&y, &cb, &cr, 30, 32, 26, accepts).is_err());
    assert!(encode_idr_residual_au(&y, &cb, &cr, 32, 32, -1, accepts).is_err());
    assert!(encode_idr_residual_au(&y, &cb, &cr, 32, 32, 52, accepts).is_err());
    assert!(encode_idr_residual_au(&y, &cb, &y, 32, 32, 26, accepts).is_err());
}
