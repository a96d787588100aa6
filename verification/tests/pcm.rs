//! The PCM encoder, decoded back by a decoder of its own.
use hevc_engine::bins::{
    SliceContexts, CTX_CBF_CHROMA, CTX_CBF_LUMA, CTX_CHROMA_MODE, CTX_CODED_SUB_BLOCK, CTX_GREATER1, CTX_GREATER2,
    CTX_LAST_X, CTX_LAST_Y, CTX_PART_MODE, CTX_PREV_INTRA, CTX_SAO_MERGE, CTX_SAO_TYPE, CTX_SIG,
};
use hevc_engine::bitreader::{BitReader, BitReaderError};
use hevc_engine::cabac_decoder::{CabacEngine, CabacError};
use hevc_engine::intra::{predict, reference_samples};
use hevc_engine::inverse::{residual_block, BlockParams};
use hevc_engine::modes::{derive_intra_pred_mode_c, intra_luma_cand_mode_list};
use hevc_engine::picture::{Picture, ReconstructedPicture};
use hevc_engine::recon::deblock_reconstruction;
use hevc_engine::sao::{apply_sao_plane, ResolvedSao, ResolvedSaoComponent};
use hevc_engine::scan::{scan_position, ScanIdx};
use hevc_engine::transform::{chroma_qp, luma_qp, Component, PredMode};
use hevc_engine::nal::{collect_nal_units, nal_unit};
use hevc_engine::pcm::{
    encode_idr_pcm_au, encode_idr_pcm_au_opts, encode_idr_pcm_au_segmented, PcmAuOptions, PcmEncodeError,
};

/// The fields of a sequence parameter set that the tests read.
#[derive(Debug, Clone, PartialEq, Eq)]
struct Sps {
    chroma_format_idc: u32,
    width: usize,
    height: usize,
    sao: bool,
    pcm_bit_depth_luma_minus1: Option<u32>,
    pcm_loop_filter_disabled: bool,
}

fn parse_sps(rbsp: &[u8]) -> Result<Sps, BitReaderError> {
    let mut r = BitReader::new(rbsp);
    r.u(4)?;
    r.u(3)?;
    r.u1()?;
    for _ in 0..3 {
        r.u(32)?;
    }
    r.ue()?;
    let chroma_format_idc = r.ue()?;
    let width = r.ue()? as usize;
    let height = r.ue()? as usize;
    r.u1()?;
    for _ in 0..3 {
        r.ue()?;
    }
    r.u1()?;
    for _ in 0..9 {
        r.ue()?;
    }
    r.u1()?;
    r.u1()?;
    let sao = r.u1()? == 1;
    let mut pcm_bit_depth_luma_minus1 = None;
    let mut pcm_loop_filter_disabled = false;
    if r.u1()? == 1 {
        pcm_bit_depth_luma_minus1 = Some(r.u(4)?);
        r.u(4)?;
        r.ue()?;
        r.ue()?;
        pcm_loop_filter_disabled = r.u1()? == 1;
    }
    Ok(Sps { chroma_format_idc, width, height, sao, pcm_bit_depth_luma_minus1, pcm_loop_filter_disabled })
}

/// The fields of a picture parameter set that the tests read.
#[derive(Debug, Clone, PartialEq, Eq)]
struct Pps {
    dependent_slices: bool,
    tiles: Option<(usize, usize)>,
    uniform_spacing: bool,
    filter_across_tiles: bool,
    filter_across_slices: bool,
    deblocking_control_present: bool,
    deblocking_disabled: bool,
}

fn parse_pps(rbsp: &[u8]) -> Result<Pps, BitReaderError> {
    let mut r = BitReader::new(rbsp);
    r.ue()?;
    r.ue()?;
    let dependent_slices = r.u1()? == 1;
    r.u1()?;
    r.u(3)?;
    r.u1()?;
    r.u1()?;
    r.ue()?;
    r.ue()?;
    r.se()?;
    r.u1()?;
    r.u1()?;
    r.u1()?;
    r.se()?;
    r.se()?;
    for _ in 0..4 {
        r.u1()?;
    }
    let tiled = r.u1()? == 1;
    r.u1()?;
    let mut tiles = None;
    let mut uniform_spacing = false;
    let mut filter_across_tiles = true;
    if tiled {
        let columns = r.ue()? as usize + 1;
        let rows = r.ue()? as usize + 1;
        tiles = Some((columns, rows));
        uniform_spacing = r.u1()? == 1;
        filter_across_tiles = r.u1()? == 1;
    }
    let filter_across_slices = r.u1()? == 1;
    let deblocking_control_present = r.u1()? == 1;
    let mut deblocking_disabled = false;
    if deblocking_control_present {
        r.u1()?;
        deblocking_disabled = r.u1()? == 1;
    }
    Ok(Pps {
        dependent_slices,
        tiles,
        uniform_spacing,
        filter_across_tiles,
        filter_across_slices,
        deblocking_control_present,
        deblocking_disabled,
    })
}

/// The fields of a slice segment header.
#[derive(Debug, Clone, PartialEq, Eq)]
struct Header {
    dependent: bool,
    address: usize,
    sao_luma: bool,
    sao_chroma: bool,
    qp: i32,
    across: bool,
    entry_points: Vec<u32>,
}

fn bits_for(total: usize) -> u8 {
    let mut n = 0;
    while (1usize << n) < total {
        n += 1;
    }
    n
}

fn parse_header<'a>(rbsp: &'a [u8], sps: &Sps, pps: &Pps) -> Result<(Header, BitReader<'a>), BitReaderError> {
    let total = (sps.width / 16) * (sps.height / 16);
    let mut r = BitReader::new(rbsp);
    let mut h = Header {
        dependent: false,
        address: 0,
        sao_luma: false,
        sao_chroma: false,
        qp: 26,
        across: false,
        entry_points: Vec::new(),
    };
    let first = r.u1()? == 1;
    r.u1()?;
    r.ue()?;
    if !first {
        if pps.dependent_slices {
            h.dependent = r.u1()? == 1;
        }
        h.address = r.u(bits_for(total))? as usize;
    }
    if !h.dependent {
        assert_eq!(r.ue()?, 2, "an intra slice");
        if sps.sao {
            h.sao_luma = r.u1()? == 1;
            h.sao_chroma = r.u1()? == 1;
        }
        h.qp = 26 + r.se()?;
        if pps.filter_across_slices && (h.sao_luma || h.sao_chroma || !pps.deblocking_disabled) {
            h.across = r.u1()? == 1;
        }
    }
    if pps.tiles.is_some() {
        let n = r.ue()?;
        if n > 0 {
            let bits = r.ue()? as u8 + 1;
            for _ in 0..n {
                h.entry_points.push(r.u(bits)?);
            }
        }
    }
    assert_eq!(r.u1()?, 1, "byte_alignment()");
    r.align();
    Ok((h, r))
}

fn decision(e: &mut CabacEngine<'_>, c: &mut SliceContexts, ctx: usize) -> Result<bool, CabacError> {
    Ok(e.decode_decision(&mut c.models[ctx])? == 1)
}

fn bypass(e: &mut CabacEngine<'_>) -> Result<bool, CabacError> {
    Ok(e.decode_bypass()? == 1)
}

fn decode_last(
    e: &mut CabacEngine<'_>,
    c: &mut SliceContexts,
    base: usize,
    log2: u32,
    is_chroma: bool,
) -> Result<u32, CabacError> {
    let (offset, shift) = if is_chroma {
        (15, log2 - 2)
    } else {
        (3 * (log2 - 2) + ((log2 - 1) >> 2), (log2 + 1) >> 2)
    };
    let mut prefix = 0;
    while prefix < (log2 << 1) - 1 && decision(e, c, base + (offset + (prefix >> shift)) as usize)? {
        prefix += 1;
    }
    Ok(prefix)
}

fn decode_suffix(e: &mut CabacEngine<'_>, prefix: u32) -> Result<u32, CabacError> {
    if prefix <= 3 {
        return Ok(prefix);
    }
    let n = (prefix >> 1) - 1;
    let suffix = e.decode_bypass_bits(n as u8)?;
    Ok((1 << n) * (2 + (prefix & 1)) + suffix)
}

/// Decodes the levels of one transform block.
fn decode_residual(
    e: &mut CabacEngine<'_>,
    c: &mut SliceContexts,
    log2: u32,
    is_chroma: bool,
    scan: ScanIdx,
) -> Result<Vec<i32>, CabacError> {
    let size = 1usize << log2;
    let mut levels = vec![0i32; size * size];
    let px = decode_last(e, c, CTX_LAST_X, log2, is_chroma)?;
    let py = decode_last(e, c, CTX_LAST_Y, log2, is_chroma)?;
    let mut lx = decode_suffix(e, px)? as usize;
    let mut ly = decode_suffix(e, py)? as usize;
    if scan == ScanIdx::Vertical {
        let t = lx;
        lx = ly;
        ly = t;
    }
    let sub = size / 4;
    let mut last_sub = 0;
    while scan_position(log2 - 2, scan, last_sub) != (lx / 4, ly / 4) {
        last_sub += 1;
    }
    let mut last_pos = 0;
    while scan_position(2, scan, last_pos) != (lx % 4, ly % 4) {
        last_pos += 1;
    }
    let mut coded = vec![false; sub * sub];
    let mut previous: Option<(u32, bool)> = None;
    for i in (0..=last_sub).rev() {
        let (xs, ys) = scan_position(log2 - 2, scan, i);
        let right = xs + 1 < sub && coded[ys * sub + xs + 1];
        let below = ys + 1 < sub && coded[(ys + 1) * sub + xs];
        let mut infer_dc = false;
        if i < last_sub && i > 0 {
            let inc = usize::from(right || below) + if is_chroma { 2 } else { 0 };
            coded[ys * sub + xs] = decision(e, c, CTX_CODED_SUB_BLOCK + inc)?;
            infer_dc = true;
        } else {
            coded[ys * sub + xs] = true;
        }
        if !coded[ys * sub + xs] {
            continue;
        }
        let start = if i == last_sub { last_pos as i32 - 1 } else { 15 };
        let mut significant = Vec::new();
        if i == last_sub {
            significant.push(last_pos);
        }
        for n in (0..=start).rev() {
            let n = n as usize;
            let (xp, yp) = scan_position(2, scan, n);
            let flag = if n > 0 || !infer_dc {
                let (xc, yc) = (4 * xs + xp, 4 * ys + yp);
                let mut ctx = if log2 == 2 {
                    [0usize, 1, 4, 5, 2, 3, 4, 5, 6, 6, 8, 8, 7, 7, 8, 8][yc * 4 + xc]
                } else if xc + yc == 0 {
                    0
                } else {
                    let mut s = match (right, below) {
                        (false, false) => {
                            if xp + yp == 0 {
                                2
                            } else if xp + yp < 3 {
                                1
                            } else {
                                0
                            }
                        }
                        (true, false) => 2usize.saturating_sub(yp),
                        (false, true) => 2usize.saturating_sub(xp),
                        (true, true) => 2,
                    };
                    if is_chroma {
                        s += if log2 == 3 { 9 } else { 12 };
                    } else {
                        if xs + ys > 0 {
                            s += 3;
                        }
                        s += if log2 == 3 {
                            if scan == ScanIdx::Diagonal {
                                9
                            } else {
                                15
                            }
                        } else {
                            21
                        };
                    }
                    s
                };
                if is_chroma {
                    ctx += 27;
                }
                let s = decision(e, c, CTX_SIG + ctx)?;
                if s {
                    infer_dc = false;
                }
                s
            } else {
                true
            };
            if flag {
                significant.push(n);
            }
        }
        let mut set = if i == 0 || is_chroma { 0 } else { 2 };
        if let Some((ctx, flag)) = previous {
            if ctx == 0 || flag {
                set += 1;
            }
        }
        let mut greater1_ctx = 1u32;
        let mut base = vec![1i32; significant.len()];
        let mut first_greater1 = None;
        for (k, b) in base.iter_mut().enumerate().take(8) {
            let inc = set * 4 + greater1_ctx.min(3) as usize + if is_chroma { 16 } else { 0 };
            let flag = decision(e, c, CTX_GREATER1 + inc)?;
            previous = Some((greater1_ctx, flag));
            if flag {
                *b += 1;
                greater1_ctx = 0;
                if first_greater1.is_none() {
                    first_greater1 = Some(k);
                }
            } else if greater1_ctx > 0 {
                greater1_ctx += 1;
            }
        }
        if let Some(k) = first_greater1 {
            if decision(e, c, CTX_GREATER2 + set + if is_chroma { 4 } else { 0 })? {
                base[k] += 1;
            }
        }
        let mut negative = Vec::new();
        for _ in 0..significant.len() {
            negative.push(bypass(e)?);
        }
        let mut rice = 0u32;
        for k in 0..significant.len() {
            let limit = if k >= 8 {
                1
            } else if first_greater1 == Some(k) {
                3
            } else {
                2
            };
            let mut value = base[k];
            if value == limit {
                let mut prefix = 0u32;
                while bypass(e)? {
                    prefix += 1;
                }
                let remaining = if prefix <= 3 {
                    (prefix << rice) + e.decode_bypass_bits(rice as u8)?
                } else {
                    (((1 << (prefix - 3)) + 3 - 1) << rice) + e.decode_bypass_bits((prefix - 3 + rice) as u8)?
                };
                value += remaining as i32;
                if value > 3 * (1 << rice) {
                    rice = (rice + 1).min(4);
                }
            }
            let (xp, yp) = scan_position(2, scan, significant[k]);
            levels[(4 * ys + yp) * size + 4 * xs + xp] = if negative[k] { -value } else { value };
        }
    }
    Ok(levels)
}

fn decode_sao_component(
    e: &mut CabacEngine<'_>,
    c: &mut SliceContexts,
    kind_of: Option<(u8, u8)>,
) -> Result<ResolvedSaoComponent, CabacError> {
    let mut out = ResolvedSaoComponent::off();
    out.sao_type_idx = match kind_of {
        Some((kind, _)) => kind,
        None => {
            if !decision(e, c, CTX_SAO_TYPE)? {
                0
            } else if bypass(e)? {
                2
            } else {
                1
            }
        }
    };
    if out.sao_type_idx == 0 {
        return Ok(out);
    }
    for k in 1..5 {
        let mut v = 0;
        while v < 7 && bypass(e)? {
            v += 1;
        }
        out.offset_val[k] = v;
    }
    if out.sao_type_idx == 1 {
        for k in 1..5 {
            if out.offset_val[k] != 0 && bypass(e)? {
                out.offset_val[k] = -out.offset_val[k];
            }
        }
        out.band_position = e.decode_bypass_bits(5)? as u8;
    } else {
        for k in 3..5 {
            out.offset_val[k] = -out.offset_val[k];
        }
        out.eo_class = match kind_of {
            Some((_, class)) => class,
            None => e.decode_bypass_bits(2)? as u8,
        };
    }
    Ok(out)
}

/// Decodes the offsets of one coding tree block; `left` and `up` are the neighbours
/// it may merge with.
fn decode_sao(
    e: &mut CabacEngine<'_>,
    c: &mut SliceContexts,
    h: &Header,
    left: Option<ResolvedSao>,
    up: Option<ResolvedSao>,
) -> Result<ResolvedSao, CabacError> {
    if let Some(l) = left {
        if decision(e, c, CTX_SAO_MERGE)? {
            return Ok(l);
        }
    }
    if let Some(u) = up {
        if decision(e, c, CTX_SAO_MERGE)? {
            return Ok(u);
        }
    }
    let mut out = ResolvedSao::off();
    if h.sao_luma {
        out.components[0] = decode_sao_component(e, c, None)?;
    }
    if h.sao_chroma {
        out.components[1] = decode_sao_component(e, c, None)?;
        let b = out.components[1];
        out.components[2] = decode_sao_component(e, c, Some((b.sao_type_idx, b.eo_class)))?;
    }
    Ok(out)
}

/// One picture under reconstruction.
struct Decoding {
    picture: ReconstructedPicture,
    left_mode: u8,
    grid: Vec<ResolvedSao>,
    /// Where each slice starts, whether it is filtered across its first edge, its QP.
    slices: Vec<(usize, bool, i32)>,
    sao: bool,
    all_pcm: bool,
}

fn decode_block(
    e: &mut CabacEngine<'_>,
    c: &mut SliceContexts,
    coded: bool,
    pred: &[i32],
    n: usize,
    q_p: u32,
    component: Component,
) -> Result<Vec<u8>, CabacError> {
    let mut residual = vec![0i32; n * n];
    if coded {
        let log2 = if n == 16 { 4 } else { 3 };
        let levels = decode_residual(e, c, log2, n == 8, ScanIdx::Diagonal)?;
        residual = residual_block(
            &levels,
            None,
            BlockParams {
                n_tbs: n,
                q_p,
                component,
                pred_mode: PredMode::Intra,
                bit_depth: 8,
                extended_precision: false,
            },
        )
        .expect("a legal block");
    }
    Ok((0..n * n).map(|i| (pred[i] + residual[i]).clamp(0, 255) as u8).collect())
}

fn store(plane: &mut [u8], width: usize, x0: usize, y0: usize, n: usize, samples: &[u8]) {
    for row in 0..n {
        let start = (y0 + row) * width + x0;
        plane[start..start + n].copy_from_slice(&samples[row * n..(row + 1) * n]);
    }
}

/// Decodes one coding unit.
fn decode_unit(
    e: &mut CabacEngine<'_>,
    c: &mut SliceContexts,
    d: &mut Decoding,
    qp: i32,
    addr: usize,
) -> Result<(), CabacError> {
    let (w, h) = (d.picture.width, d.picture.height);
    let (x0, y0) = ((addr % (w / 16)) * 16, (addr / (w / 16)) * 16);
    let (cx, cy) = (x0 / 2, y0 / 2);
    assert!(decision(e, c, CTX_PART_MODE)?, "one unsplit unit");
    if e.decode_terminate()? == 1 {
        e.pcm_align()?;
        let mut read = |n: usize| -> Result<Vec<u8>, CabacError> {
            let mut v = Vec::new();
            for _ in 0..n {
                v.push(e.read_raw_bits(8)? as u8);
            }
            Ok(v)
        };
        let y = read(256)?;
        let cb = read(64)?;
        let cr = read(64)?;
        store(&mut d.picture.y, w, x0, y0, 16, &y);
        store(&mut d.picture.cb, w / 2, cx, cy, 8, &cb);
        store(&mut d.picture.cr, w / 2, cx, cy, 8, &cr);
        e.init_engine()?;
        d.left_mode = 1;
        return Ok(());
    }
    d.all_pcm = false;
    let candidates = intra_luma_cand_mode_list(if x0 > 0 { d.left_mode } else { 1 }, 1);
    let mode = if decision(e, c, CTX_PREV_INTRA)? {
        if !bypass(e)? {
            candidates[0]
        } else if !bypass(e)? {
            candidates[1]
        } else {
            candidates[2]
        }
    } else {
        let mut m = e.decode_bypass_bits(5)? as u8;
        let mut sorted = candidates;
        sorted.sort();
        for s in sorted {
            if m >= s {
                m += 1;
            }
        }
        m
    };
    d.left_mode = mode;
    let signalled = if decision(e, c, CTX_CHROMA_MODE)? { e.decode_bypass_bits(2)? as u8 } else { 4 };
    let chroma_mode = derive_intra_pred_mode_c(signalled, mode);
    let cbf_cb = decision(e, c, CTX_CBF_CHROMA)?;
    let cbf_cr = decision(e, c, CTX_CBF_CHROMA)?;
    let cbf_luma = decision(e, c, CTX_CBF_LUMA + 1)?;
    let q_luma = luma_qp(qp, 8);
    let q_chroma = chroma_qp(qp, 0, 8, 1);
    let refs = reference_samples(&d.picture.y, w, h, x0, y0, 16);
    let y = decode_block(e, c, cbf_luma, &predict(&refs, 16, mode, true), 16, q_luma, Component::Luma)?;
    let refs = reference_samples(&d.picture.cb, w / 2, h / 2, cx, cy, 8);
    let cb = decode_block(e, c, cbf_cb, &predict(&refs, 8, chroma_mode, false), 8, q_chroma, Component::Cb)?;
    let refs = reference_samples(&d.picture.cr, w / 2, h / 2, cx, cy, 8);
    let cr = decode_block(e, c, cbf_cr, &predict(&refs, 8, chroma_mode, false), 8, q_chroma, Component::Cr)?;
    store(&mut d.picture.y, w, x0, y0, 16, &y);
    store(&mut d.picture.cb, w / 2, cx, cy, 8, &cb);
    store(&mut d.picture.cr, w / 2, cx, cy, 8, &cr);
    Ok(())
}

/// The addresses of a slice segment in coding order, with the addresses that start a
/// tile.
fn scan_order(columns: usize, rows: usize, tiles: Option<(usize, usize)>) -> Vec<(usize, bool)> {
    let (tc, tr) = tiles.unwrap_or((1, 1));
    let mut order = Vec::new();
    for ty in 0..tr {
        for tx in 0..tc {
            let (x0, x1) = (tx * columns / tc, (tx + 1) * columns / tc);
            let (y0, y1) = (ty * rows / tr, (ty + 1) * rows / tr);
            for y in y0..y1 {
                for x in x0..x1 {
                    order.push((y * columns + x, x == x0 && y == y0));
                }
            }
        }
    }
    order
}

/// Decodes an Annex B stream of intra pictures to their planes.
fn decode_stream(stream: &[u8]) -> Result<Vec<ReconstructedPicture>, String> {
    let units = collect_nal_units(stream).map_err(|e| format!("{e:?}"))?;
    let mut sps = None;
    let mut pps = None;
    let mut out = Vec::new();
    let mut current: Option<Decoding> = None;
    let mut saved: Option<SliceContexts> = None;
    let mut slice: Option<Header> = None;
    for unit in &units {
        match unit.header.nal_unit_type {
            33 => {
                if let Some(d) = current.take() {
                    out.push(finish(d, sps.as_ref().unwrap(), pps.as_ref().unwrap()));
                }
                saved = None;
                slice = None;
                sps = Some(parse_sps(&unit.rbsp).map_err(|e| format!("{e:?}"))?);
            }
            34 => pps = Some(parse_pps(&unit.rbsp).map_err(|e| format!("{e:?}"))?),
            20 => {
                let s = sps.as_ref().ok_or("no sps")?;
                let p = pps.as_ref().ok_or("no pps")?;
                let (h, reader) = parse_header(&unit.rbsp, s, p).map_err(|e| format!("{e:?}"))?;
                let mut contexts = if h.dependent {
                    saved.take().ok_or("a dependent segment without its predecessor")?
                } else {
                    SliceContexts::init(h.qp)
                };
                let header = if h.dependent {
                    let mut base = slice.clone().ok_or("no slice")?;
                    base.address = h.address;
                    base
                } else {
                    h.clone()
                };
                let area = s.width * s.height;
                let columns = s.width / 16;
                let rows = s.height / 16;
                let d = current.get_or_insert_with(|| Decoding {
                    picture: ReconstructedPicture {
                        y: vec![0; area],
                        cb: vec![0; area / 4],
                        cr: vec![0; area / 4],
                        width: s.width,
                        height: s.height,
                    },
                    left_mode: 1,
                    grid: vec![ResolvedSao::off(); columns * rows],
                    slices: Vec::new(),
                    sao: false,
                    all_pcm: true,
                });
                if !h.dependent {
                    d.slices.push((h.address, h.across, h.qp));
                    slice = Some(h.clone());
                }
                let slice_start = d.slices.last().ok_or("no slice")?.0;
                let order = scan_order(columns, rows, p.tiles);
                let mut e = CabacEngine::new(reader).map_err(|e| format!("{e:?}"))?;
                let mut k = header.address;
                loop {
                    let (addr, starts) = order[k];
                    if starts && k > header.address {
                        if e.decode_terminate().map_err(|e| format!("{e:?}"))? != 1 {
                            return Err(String::from("end_of_subset_one_bit"));
                        }
                        e.pcm_align().map_err(|e| format!("{e:?}"))?;
                        e.init_engine().map_err(|e| format!("{e:?}"))?;
                        contexts = SliceContexts::init(header.qp);
                    }
                    if header.sao_luma || header.sao_chroma {
                        d.sao = true;
                        let left = (addr % columns > 0 && addr - 1 >= slice_start).then(|| d.grid[addr - 1]);
                        let up = (addr >= columns && addr - columns >= slice_start).then(|| d.grid[addr - columns]);
                        d.grid[addr] =
                            decode_sao(&mut e, &mut contexts, &header, left, up).map_err(|e| format!("{e:?}"))?;
                    }
                    decode_unit(&mut e, &mut contexts, d, header.qp, addr).map_err(|e| format!("{e:?}"))?;
                    k += 1;
                    if e.decode_terminate().map_err(|e| format!("{e:?}"))? == 1 {
                        break;
                    }
                }
                saved = Some(contexts);
            }
            _ => {}
        }
    }
    if let Some(d) = current.take() {
        out.push(finish(d, sps.as_ref().unwrap(), pps.as_ref().unwrap()));
    }
    Ok(out)
}

/// Runs the loop filters over a decoded picture.
fn finish(d: Decoding, sps: &Sps, pps: &Pps) -> ReconstructedPicture {
    let columns = sps.width / 16;
    let mut picture = d.picture;
    if d.all_pcm && sps.pcm_loop_filter_disabled {
        return picture;
    }
    if !pps.deblocking_disabled {
        // Slices of whole rows that are not filtered across their first edge are
        // filtered apart from what lies above.
        let mut starts: Vec<usize> = d
            .slices
            .iter()
            .filter(|s| s.0 > 0 && !s.1)
            .map(|s| s.0 / columns * 16)
            .collect();
        starts.insert(0, 0);
        starts.push(sps.height);
        let qp = d.slices[0].2;
        let w = sps.width;
        let mut joined = ReconstructedPicture { y: vec![], cb: vec![], cr: vec![], width: w, height: sps.height };
        for pair in starts.windows(2) {
            let part = ReconstructedPicture {
                y: picture.y[pair[0] * w..pair[1] * w].to_vec(),
                cb: picture.cb[pair[0] / 2 * (w / 2)..pair[1] / 2 * (w / 2)].to_vec(),
                cr: picture.cr[pair[0] / 2 * (w / 2)..pair[1] / 2 * (w / 2)].to_vec(),
                width: w,
                height: pair[1] - pair[0],
            };
            let part = deblock_reconstruction(&part, qp);
            joined.y.extend(part.y);
            joined.cb.extend(part.cb);
            joined.cr.extend(part.cr);
        }
        picture = joined;
    }
    if d.sao {
        let p = Picture::from_frame(&picture);
        let (w, h) = (sps.width, sps.height);
        picture = Picture {
            y: apply_sao_plane(&p.y, w, h, 0, 16, columns, &d.grid),
            cb: apply_sao_plane(&p.cb, w / 2, h / 2, 1, 8, columns, &d.grid),
            cr: apply_sao_plane(&p.cr, w / 2, h / 2, 2, 8, columns, &d.grid),
            width: w,
            height: h,
        }
        .to_frame();
    }
    picture
}

fn planar(p: &ReconstructedPicture) -> Vec<u8> {
    [p.y.clone(), p.cb.clone(), p.cr.clone()].concat()
}



fn gradient_planes(w: usize, h: usize) -> (Vec<u8>, Vec<u8>, Vec<u8>) {
    let y: Vec<u8> = (0..w * h).map(|i| (i * 7 % 251) as u8).collect();
    let cb: Vec<u8> = (0..w * h / 4).map(|i| (i * 3 % 240 + 8) as u8).collect();
    let cr: Vec<u8> = (0..w * h / 4).map(|i| (255 - i * 5 % 250) as u8).collect();
    (y, cb, cr)
}

#[test]
fn rejects_bad_geometry() {
    let (y, cb, cr) = gradient_planes(16, 16);
    assert!(matches!(
        encode_idr_pcm_au(&y, &cb, &cr, 20, 16),
        Err(PcmEncodeError::BadDimensions { .. })
    ));
    assert!(matches!(
        encode_idr_pcm_au(&y, &cb, &cr, 32, 16),
        Err(PcmEncodeError::PlaneSize { .. })
    ));
}

#[test]
fn pcm_au_roundtrips_losslessly_through_the_decoder() {
    for (w, h) in [(16usize, 16usize), (48, 32), (32, 64)] {
        let (y, cb, cr) = gradient_planes(w, h);
        let au = encode_idr_pcm_au(&y, &cb, &cr, w, h).expect("encode");
        let frames =
            decode_stream(&au).expect("decode");
        assert_eq!(frames.len(), 1, "{w}x{h}: one IDR frame");
        let mut expected = Vec::new();
        expected.extend_from_slice(&y);
        expected.extend_from_slice(&cb);
        expected.extend_from_slice(&cr);
        assert_eq!(
            planar(&frames[0]),
            expected,
            "{w}x{h}: lossless PCM roundtrip"
        );
    }
}

#[test]
fn multi_frame_pcm_stream_decodes_in_order() {
    let (y0, cb0, cr0) = gradient_planes(32, 32);
    let y1: Vec<u8> = y0.iter().map(|&v| v ^ 0x5A).collect();
    let mut stream = encode_idr_pcm_au(&y0, &cb0, &cr0, 32, 32).expect("au0");
    stream.extend(encode_idr_pcm_au(&y1, &cb0, &cr0, 32, 32).expect("au1"));
    let frames =
        decode_stream(&stream).expect("decode");
    assert_eq!(frames.len(), 2);
    let p0 = planar(&frames[0]);
    let p1 = planar(&frames[1]);
    assert_eq!(&p0[..y0.len()], &y0[..]);
    assert_eq!(&p1[..y1.len()], &y1[..]);
    assert_ne!(p0, p1);
}

#[test]
fn dependent_slice_segments_roundtrip_losslessly() {
    let (w, h) = (48usize, 48usize);
    let (y, cb, cr) = gradient_planes(w, h);
    for segments in [2usize, 3, 9] {
        let au = encode_idr_pcm_au_segmented(&y, &cb, &cr, w, h, segments).expect("encode");
        let units = collect_nal_units(&au).expect("walk");
        assert_eq!(units.len(), 3 + segments, "{segments} segments");
        assert!(units[4..].iter().all(|u| u.header.nal_unit_type == 20));
        let frames =
            decode_stream(&au).expect("decode");
        assert_eq!(frames.len(), 1);
        let mut expected = Vec::new();
        expected.extend_from_slice(&y);
        expected.extend_from_slice(&cb);
        expected.extend_from_slice(&cr);
        assert_eq!(
            planar(&frames[0]),
            expected,
            "{segments}-segment lossless roundtrip"
        );
    }
}

#[test]
fn dependent_segment_without_predecessor_is_rejected() {
    let (y, cb, cr) = gradient_planes(32, 32);
    let au = encode_idr_pcm_au_segmented(&y, &cb, &cr, 32, 32, 2).expect("encode");
    let units = collect_nal_units(&au).expect("walk");
    let mut broken = Vec::new();
    for (i, u) in units.iter().enumerate() {
        if i == 3 {
            continue;
        }
        let mut coded = vec![0, 0, 0, 1];
        coded.extend(nal_unit(
            u.header.nal_unit_type,
            u.header.nuh_layer_id,
            u.header.temporal_id,
            &u.rbsp,
        ));
        broken.extend(coded);
    }
    assert!(decode_stream(&broken).is_err());
}

#[test]
fn pcm_loop_filter_suppression_keeps_samples_exact() {
    let (w, h) = (48usize, 32usize);
    let (y, cb, cr) = gradient_planes(w, h);
    for (deblocking, sao_luma_band) in [(true, false), (false, true), (true, true)] {
        let opts = PcmAuOptions {
            segments: 1,
            deblocking,
            sao_luma_band,
            ..PcmAuOptions::default()
        };
        let au = encode_idr_pcm_au_opts(&y, &cb, &cr, w, h, opts).expect("encode");
        let frames =
            decode_stream(&au).expect("decode");
        assert_eq!(frames.len(), 1);
        let mut expected = Vec::new();
        expected.extend_from_slice(&y);
        expected.extend_from_slice(&cb);
        expected.extend_from_slice(&cr);
        assert_eq!(
            planar(&frames[0]),
            expected,
            "deblocking={deblocking} sao={sao_luma_band}: PCM samples survive the loop filters"
        );
    }
}

#[test]
fn independent_slices_with_heterogeneous_across_flags() {
    let (w, h) = (48usize, 32usize);
    let (y, cb, cr) = gradient_planes(w, h);
    let mut decoded = Vec::new();
    for flags in [(true, false), (false, true)] {
        let opts = PcmAuOptions {
            independent_slices: vec![(0, flags.0), (3, flags.1)],
            deblocking: true,
            pcm_loop_filter_disabled: false,
            ..PcmAuOptions::default()
        };
        let au = encode_idr_pcm_au_opts(&y, &cb, &cr, w, h, opts).expect("encode");
        let frames =
            decode_stream(&au).expect("decode");
        assert_eq!(frames.len(), 1);
        decoded.push(planar(&frames[0]));
    }
    assert_ne!(
        decoded[0], decoded[1],
        "opposite per-slice flags gate the boundary deblocking differently"
    );
}

#[test]
fn tiled_pcm_au_roundtrips_losslessly() {
    for (w, h, cols, rows) in [
        (64usize, 48usize, 2u32, 2u32),
        (96, 64, 3, 2),
        (32, 16, 2, 1),
        (80, 80, 5, 5),
    ] {
        let (y, cb, cr) = gradient_planes(w, h);
        let opts = PcmAuOptions {
            tiles: Some((cols, rows)),
            ..PcmAuOptions::default()
        };
        let au = encode_idr_pcm_au_opts(&y, &cb, &cr, w, h, opts).expect("encode");
        let frames =
            decode_stream(&au).expect("decode");
        assert_eq!(frames.len(), 1, "{cols}x{rows}: one IDR frame");
        let mut expected = Vec::new();
        expected.extend_from_slice(&y);
        expected.extend_from_slice(&cb);
        expected.extend_from_slice(&cr);
        assert_eq!(
            planar(&frames[0]),
            expected,
            "{w}x{h} {cols}x{rows} tiles: lossless roundtrip"
        );
    }
}

#[test]
fn tiled_pcm_au_signals_tiles_and_entry_points() {
    let (w, h) = (64usize, 64usize);
    let (y, cb, cr) = gradient_planes(w, h);
    let opts = PcmAuOptions {
        tiles: Some((2, 2)),
        ..PcmAuOptions::default()
    };
    let au = encode_idr_pcm_au_opts(&y, &cb, &cr, w, h, opts).expect("encode");
    let units = collect_nal_units(&au).expect("walk");
    assert_eq!(units.len(), 4);
    let sps = parse_sps(&units[1].rbsp).expect("sps");
    let pps = parse_pps(&units[2].rbsp).expect("pps");
    assert!(pps.tiles.is_some());
    assert_eq!(pps.tiles, Some((2, 2)));
    assert!(pps.uniform_spacing);
    assert!(!pps.filter_across_tiles);
    let (header, _) = parse_header(&units[3].rbsp, &sps, &pps).expect("slice header");
    assert_eq!(header.entry_points.len(), 3);
}

#[test]
fn tiled_pcm_au_rejects_bad_grids() {
    let (y, cb, cr) = gradient_planes(32, 32);
    for opts in [
        PcmAuOptions {
            tiles: Some((1, 1)),
            ..PcmAuOptions::default()
        },
        PcmAuOptions {
            tiles: Some((0, 2)),
            ..PcmAuOptions::default()
        },
        PcmAuOptions {
            tiles: Some((3, 1)),
            ..PcmAuOptions::default()
        },
        PcmAuOptions {
            tiles: Some((2, 2)),
            segments: 2,
            ..PcmAuOptions::default()
        },
        PcmAuOptions {
            tiles: Some((2, 2)),
            sao_luma_band: true,
            ..PcmAuOptions::default()
        },
    ] {
        assert!(
            matches!(
                encode_idr_pcm_au_opts(&y, &cb, &cr, 32, 32, opts.clone()),
                Err(PcmEncodeError::BadDimensions { .. })
            ),
            "{opts:?}"
        );
    }
}

#[test]
fn written_sps_pps_parse_back() {
    let (y, cb, cr) = gradient_planes(48, 32);
    let au = encode_idr_pcm_au(&y, &cb, &cr, 48, 32).expect("encode");
    let units = collect_nal_units(&au).expect("walk");
    assert_eq!(units.len(), 4);
    let sps = parse_sps(&units[1].rbsp).expect("sps parses");
    assert_eq!(sps.width, 48);
    assert_eq!(sps.height, 32);
    assert_eq!(sps.chroma_format_idc, 1);
    assert_eq!(sps.pcm_bit_depth_luma_minus1, Some(7));
    assert!(sps.pcm_loop_filter_disabled);
    let pps = parse_pps(&units[2].rbsp).expect("pps parses");
    assert!(pps.deblocking_control_present);
    assert!(pps.deblocking_disabled);
}
