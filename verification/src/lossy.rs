//! The residual-coding IDR writer: the encoder's lossy access-unit path.
//!
//! Every coding tree block is one intra coding unit whose residual is transformed
//! and quantized. The writer decides every unit, deblocks the whole picture, searches
//! its sample-adaptive offsets, and keeps them where the error they remove is worth
//! the bits they cost.
//!
//! What those bits would remove on a finer quantizer is read off the picture's own
//! rate-distortion curve. That judgement is the caller's: the writer measures two
//! points of the curve and asks.
use vstd::prelude::*;
use crate::arith::{max, min};
use crate::bits::{aligned, pack, se_bits, ue_bits};
use crate::bitwriter::BitWriter;
use crate::decision::{decision_pass, run_decision_pass, ModeSearch};
use crate::nal::{annexb, contents, nal_unit, stream_of, unit_bytes};
use crate::parameter_sets::{
    dimension_field, level_for, level_idc_for, pps_bits, sps_bits, vps_bits, write_pps, write_sps, write_vps,
};
use crate::pcm::{dimensions_ok, PcmEncodeError};
use crate::picture::{Frame, ReconstructedPicture, SourcePlanes, MAX_SIDE};
use crate::rdo::{lambda_of, lambda_q8};
use crate::recon::{
    deblock_reconstruction, deblocked_frame, frame_grid, offset_frame, sao_reconstruction,
};
use crate::sao::{ResolvedSao, SaoCell};
use crate::sao_search::{SaoLambda, SAO_LAMBDA_BAND};
use crate::slice::{code_slice_data, records_of, slice_data, CtbRecord, Record};

verus! {

/// The most samples that a picture may have: squared errors then fit 64 bits.
pub const MAX_PICTURE_SAMPLES: u64 = 0x4000_0000_0000;

/// Which in-loop filters the writer's reconstruction carries.
#[derive(Clone, Copy, Debug, PartialEq, Eq, Structural)]
pub enum LoopFilter {
    /// The deblocking filter alone.
    Deblock,
    /// The deblocking filter, then the sample-adaptive offset.
    DeblockSao,
    /// Neither.
    Off,
}

impl LoopFilter {
    /// Whether the deblocking filter runs.
    pub open spec fn deblocks(self) -> bool {
        self != LoopFilter::Off
    }

    /// Whether the sample-adaptive offset is searched.
    pub open spec fn offsets(self) -> bool {
        self == LoopFilter::DeblockSao
    }

    pub fn deblocking(self) -> (b: bool)
        ensures
            b == self.deblocks(),
    {
        match self {
            LoopFilter::Off => false,
            _ => true,
        }
    }

    pub fn sao(self) -> (b: bool)
        ensures
            b == self.offsets(),
    {
        match self {
            LoopFilter::DeblockSao => true,
            _ => false,
        }
    }
}

/// One point on a picture's own rate-distortion curve.
#[derive(Clone, Copy, Debug, PartialEq, Eq, Structural)]
pub struct CurvePoint {
    /// Squared error over all three planes, after deblocking and before the offsets.
    pub sse: u64,
    /// Bits of the slice data without offsets.
    pub bits: u64,
}

/// What the writer asks where the bounds leave the decision on the offsets open: they
/// remove `gain` of squared error for `sao_bits`; `fine` and `coarse` are two
/// neighbouring points of the picture's curve, one of them the coded point.
#[derive(Clone, Copy, Debug, PartialEq, Eq, Structural)]
pub struct SaoQuestion {
    pub gain: u64,
    pub sao_bits: u64,
    pub qp: i32,
    pub fine: CurvePoint,
    pub coarse: CurvePoint,
}

/// Squared error between the first `n` samples of two planes.
pub open spec fn plane_sse(a: Seq<u8>, b: Seq<u8>, n: nat) -> int
    decreases n,
{
    if n == 0 {
        0
    } else {
        plane_sse(a, b, (n - 1) as nat) + (a[n - 1] - b[n - 1]) * (a[n - 1] - b[n - 1])
    }
}

/// Squared error between two pictures, over all three planes.
pub open spec fn frame_sse(a: Frame, b: Frame) -> int {
    plane_sse(a.y, b.y, a.y.len()) + plane_sse(a.cb, b.cb, a.cb.len()) + plane_sse(a.cr, b.cr, a.cr.len())
}

/// The bits of some bytes, held at the largest machine word.
pub open spec fn bits_of(len: nat) -> int {
    min(8 * len as int, u64::MAX as int)
}

fn byte_bits(len: usize) -> (b: u64)
    ensures
        b == bits_of(len as nat),
{
    if len as u64 > u64::MAX / 8 {
        u64::MAX
    } else {
        len as u64 * 8
    }
}

fn plane_error(a: &Vec<u8>, b: &[u8]) -> (e: u64)
    requires
        a@.len() == b@.len(),
        a@.len() <= MAX_PICTURE_SAMPLES,
    ensures
        e == plane_sse(a@, b@, a@.len()),
        e <= 65025 * a@.len(),
{
    let n: usize = a.len();
    let mut e: u64 = 0;
    let mut i: usize = 0;
    while i < n
        invariant
            i <= n,
            n == a@.len(),
            n == b@.len(),
            n <= MAX_PICTURE_SAMPLES,
            e == plane_sse(a@, b@, i as nat),
            e <= 65025 * i,
        decreases n - i,
    {
        let d: i64 = a[i] as i64 - b[i] as i64;
        assert(0 <= d * d <= 65025) by (nonlinear_arith)
            requires
                -255 <= d <= 255,
        ;
        e = e + (d * d) as u64;
        i = i + 1;
    }
    e
}

/// The picture is small enough for its squared error to be counted.
pub open spec fn countable(f: Frame) -> bool {
    f.wf() && f.width * f.height <= MAX_PICTURE_SAMPLES
}

/// Squared error between a reconstruction and its source, over all three planes.
pub fn picture_sse(recon: &ReconstructedPicture, src: &SourcePlanes<'_>) -> (e: u64)
    requires
        recon@.wf(),
        countable(src@),
        recon@.width == src@.width,
        recon@.height == src@.height,
    ensures
        e == frame_sse(recon@, src@),
{
    proof {
        assert((src@.width / 2) * (src@.height / 2) <= src@.width * src@.height) by (nonlinear_arith)
            requires
                src@.width >= 0,
                src@.height >= 0,
        ;
    }
    plane_error(&recon.y, src.y) + plane_error(&recon.cb, src.cb) + plane_error(&recon.cr, src.cr)
}

/// Whether a gain is worth more than some bits at a weight.
pub open spec fn clears(gain: int, sao_bits: int, lambda: int) -> bool {
    gain > min(sao_bits * lambda, u64::MAX as int) / 256
}

/// What the bounds alone decide: the measured weight of a bit never departs from the
/// closed form by more than a factor of four either way.
pub open spec fn settled(gain: int, sao_bits: int, qp: int) -> Option<bool> {
    let fixed = lambda_of(qp);
    if sao_bits == 0 {
        Some(gain > 0)
    } else if clears(gain, sao_bits, fixed * SAO_LAMBDA_BAND) {
        Some(true)
    } else if !clears(gain, sao_bits, max(fixed / (SAO_LAMBDA_BAND as int), 1)) {
        Some(false)
    } else {
        None
    }
}

fn clears_line(gain: u64, sao_bits: u64, lambda: u64) -> (b: bool)
    requires
        lambda > 0,
    ensures
        b == clears(gain as int, sao_bits as int, lambda as int),
{
    let limit: u64 = u64::MAX / lambda;
    proof {
        vstd::arithmetic::div_mod::lemma_fundamental_div_mod(u64::MAX as int, lambda as int);
        vstd::arithmetic::div_mod::lemma_mod_bound(u64::MAX as int, lambda as int);
        if sao_bits > limit {
            assert(sao_bits * lambda > u64::MAX) by (nonlinear_arith)
                requires
                    sao_bits >= limit + 1,
                    u64::MAX == lambda * limit + u64::MAX as int % lambda as int,
                    0 <= u64::MAX as int % (lambda as int) < lambda,
            ;
        } else {
            assert(sao_bits * lambda <= u64::MAX) by (nonlinear_arith)
                requires
                    sao_bits <= limit,
                    u64::MAX == lambda * limit + u64::MAX as int % lambda as int,
                    0 <= u64::MAX as int % (lambda as int) < lambda,
            ;
        }
    }
    let cost: u64 = if sao_bits > limit {
        u64::MAX
    } else {
        sao_bits * lambda
    };
    gain > cost / 256
}

/// The slice-level half of the decision on the offsets: whether removing `gain` of
/// squared error is worth `sao_bits`. `judge` is asked only where the bounds leave the
/// answer open.
pub fn keeps_sao<J: FnOnce() -> bool>(gain: u64, sao_bits: u64, qp: i32, judge: J) -> (keep: bool)
    requires
        settled(gain as int, sao_bits as int, qp as int) is None ==> judge.requires(()),
    ensures
        match settled(gain as int, sao_bits as int, qp as int) {
            Some(b) => keep == b,
            None => judge.ensures((), keep),
        },
{
    if sao_bits == 0 {
        return gain > 0;
    }
    let fixed: u64 = lambda_q8(qp) as u64;
    if clears_line(gain, sao_bits, fixed * SAO_LAMBDA_BAND) {
        return true;
    }
    let fine: u64 = if fixed / SAO_LAMBDA_BAND < 1 {
        1
    } else {
        fixed / SAO_LAMBDA_BAND
    };
    if !clears_line(gain, sao_bits, fine) {
        return false;
    }
    judge()
}

/// The reconstruction before the offsets.
pub open spec fn base_frame(src: Frame, qp: int, search: ModeSearch, deblock: bool) -> Frame {
    let f = decision_pass(src, qp, search).frame;
    if deblock {
        deblocked_frame(f, qp)
    } else {
        f
    }
}

/// The slice data without offsets.
pub open spec fn plain_data(src: Frame, qp: int, search: ModeSearch) -> Seq<u8> {
    slice_data(decision_pass(src, qp, search).records, None, qp, src.width / 16)
}

/// The point of the picture's curve at a QP.
pub open spec fn curve(src: Frame, qp: int, search: ModeSearch, deblock: bool) -> CurvePoint {
    CurvePoint {
        sse: frame_sse(base_frame(src, qp, search, deblock), src) as u64,
        bits: bits_of(plain_data(src, qp, search).len()) as u64,
    }
}

/// The prices that the offsets are searched with.
pub open spec fn search_prices(qp: int) -> SaoLambda {
    SaoLambda { mode_q8: lambda_of(qp) as u32, band_q8: ((5 * lambda_of(qp) + 1) / 2) as u32 }
}

/// The offsets that the search finds.
pub open spec fn found_grid(src: Frame, qp: int, search: ModeSearch) -> Seq<SaoCell> {
    frame_grid(base_frame(src, qp, search, true), src, search_prices(qp))
}

/// The reconstruction with those offsets.
pub open spec fn offset_recon(src: Frame, qp: int, search: ModeSearch) -> Frame {
    offset_frame(base_frame(src, qp, search, true), src, search_prices(qp))
}

/// The slice data with those offsets.
pub open spec fn offset_data(src: Frame, qp: int, search: ModeSearch) -> Seq<u8> {
    slice_data(decision_pass(src, qp, search).records, Some(found_grid(src, qp, search)), qp, src.width / 16)
}

/// What the writer measures of the offsets, and the two points of the curve: the coded
/// one, and the one a QP finer, or a QP coarser where there is no finer.
pub open spec fn question(src: Frame, qp: int, search: ModeSearch) -> SaoQuestion {
    let base = curve(src, qp, search, true);
    SaoQuestion {
        gain: max(0, base.sse - frame_sse(offset_recon(src, qp, search), src)) as u64,
        sao_bits: max(0, bits_of(offset_data(src, qp, search).len()) - base.bits) as u64,
        qp: qp as i32,
        fine: if qp > 0 {
            curve(src, qp - 1, search, true)
        } else {
            base
        },
        coarse: if qp > 0 {
            base
        } else {
            curve(src, qp + 1, search, true)
        },
    }
}

/// Whether a decision on the offsets is one that the writer takes.
pub open spec fn decides<A: Fn(SaoQuestion) -> bool>(
    accepts: A,
    src: Frame,
    qp: int,
    search: ModeSearch,
    filter: LoopFilter,
    keep: bool,
) -> bool {
    let q = question(src, qp, search);
    if !filter.offsets() {
        !keep
    } else {
        match settled(q.gain as int, q.sao_bits as int, qp) {
            Some(b) => keep == b,
            None => accepts.ensures((q,), keep),
        }
    }
}

/// The slice header.
pub open spec fn header_bits(filter: LoopFilter, keep: bool, qp: int) -> Seq<bool> {
    let head = Seq::<bool>::empty().push(true).push(false) + ue_bits(0) + ue_bits(2);
    let flagged = if filter.offsets() {
        head.push(keep).push(keep)
    } else {
        head
    };
    let delta = flagged + se_bits(qp - 26);
    let full = if filter.deblocks() || keep {
        delta.push(true)
    } else {
        delta
    };
    aligned(full.push(true))
}

/// The slice payload under a decision on the offsets.
pub open spec fn slice_rbsp(src: Frame, qp: int, search: ModeSearch, filter: LoopFilter, keep: bool) -> Seq<u8> {
    pack(header_bits(filter, keep, qp)) + if keep {
        offset_data(src, qp, search)
    } else {
        plain_data(src, qp, search)
    }
}

/// The reconstruction under a decision on the offsets.
pub open spec fn slice_recon(src: Frame, qp: int, search: ModeSearch, filter: LoopFilter, keep: bool) -> Frame {
    if keep {
        offset_recon(src, qp, search)
    } else {
        base_frame(src, qp, search, filter.deblocks())
    }
}

/// The luma modes of the units.
pub open spec fn modes_of(records: Seq<Record>) -> Seq<u8> {
    Seq::new(records.len(), |i: int| records[i].mode)
}

/// The decisions of a picture with what it is coded to before the offsets.
struct Base {
    records: Vec<CtbRecord>,
    recon: ReconstructedPicture,
    data: Vec<u8>,
}

/// Decides a picture, deblocks it where asked to, and codes it without offsets.
fn base_picture(src: &SourcePlanes<'_>, qp: i32, search: ModeSearch, deblock: bool) -> (b: Base)
    requires
        countable(src@),
        qp <= 215,
    ensures
        records_of(b.records@) == decision_pass(src@, qp as int, search).records,
        b.records@.len() == (src@.width / 16) * (src@.height / 16),
        forall|i: int| 0 <= i < b.records@.len() ==> (#[trigger] b.records@[i])@.wf(),
        b.recon@ == base_frame(src@, qp as int, search, deblock),
        b.recon@.wf(),
        b.recon@.width == src@.width,
        b.recon@.height == src@.height,
        b.data@ == plain_data(src@, qp as int, search),
{
    let (records, unfiltered) = run_decision_pass(src, qp, search);
    let recon: ReconstructedPicture = if deblock {
        deblock_reconstruction(&unfiltered, qp)
    } else {
        unfiltered
    };
    let none: Option<&Vec<ResolvedSao>> = None;
    let data: Vec<u8> = code_slice_data(&records, none, qp, src.width / 16);
    Base { records, recon, data }
}

/// The curve point the writer lands on at a QP.
pub fn curve_point(src: &SourcePlanes<'_>, qp: i32, search: ModeSearch, deblocking: bool) -> (p: CurvePoint)
    requires
        countable(src@),
        qp <= 215,
    ensures
        p == curve(src@, qp as int, search, deblocking),
{
    let b: Base = base_picture(src, qp, search, deblocking);
    CurvePoint { sse: picture_sse(&b.recon, src), bits: byte_bits(b.data.len()) }
}

/// Writes the slice header.
fn write_header(filter: LoopFilter, keep: bool, qp: i32) -> (bytes: Vec<u8>)
    requires
        0 <= qp <= 51,
    ensures
        bytes@ == pack(header_bits(filter, keep, qp as int)),
{
    let mut w: BitWriter = BitWriter::new();
    w.put_bit(1);  // first_slice_segment_in_pic_flag
    w.put_bit(0);  // no_output_of_prior_pics_flag
    w.ue(0);  // slice_pic_parameter_set_id
    w.ue(2);  // slice_type = I
    if filter.sao() {
        let on: u8 = if keep {
            1
        } else {
            0
        };
        w.put_bit(on);  // slice_sao_luma_flag
        w.put_bit(on);  // slice_sao_chroma_flag
    }
    w.se(qp - 26);  // slice_qp_delta
    if filter.deblocking() || keep {
        w.put_bit(1);  // slice_loop_filter_across_slices_enabled_flag
    }
    w.rbsp_trailing_bits();  // byte_alignment()
    w.finish()
}

fn collect_modes(records: &Vec<CtbRecord>) -> (m: Vec<u8>)
    ensures
        m@ == modes_of(records_of(records@)),
{
    let mut m: Vec<u8> = Vec::new();
    let mut i: usize = 0;
    while i < records.len()
        invariant
            i <= records@.len(),
            m@.len() == i,
            forall|j: int| 0 <= j < i ==> #[trigger] m@[j] == records@[j]@.mode,
        decreases records.len() - i,
    {
        m.push(records[i].mode);
        i = i + 1;
    }
    assert(m@ =~= modes_of(records_of(records@)));
    m
}

/// `payload` behind `head`.
fn joined(head: Vec<u8>, payload: &Vec<u8>) -> (out: Vec<u8>)
    ensures
        out@ == head@ + payload@,
{
    let mut out: Vec<u8> = head;
    let mut i: usize = 0;
    assert(out@ =~= head@ + payload@.take(0));
    while i < payload.len()
        invariant
            i <= payload@.len(),
            out@ == head@ + payload@.take(i as int),
        decreases payload.len() - i,
    {
        out.push(payload[i]);
        i = i + 1;
        assert(out@ =~= head@ + payload@.take(i as int));
    }
    assert(payload@.take(i as int) =~= payload@);
    out
}

/// Writes the picture's single slice, every coding tree block one residual-coded intra
/// coding unit. Returns the slice payload, the picture a decoder reconstructs from it,
/// and the luma mode of each unit. `accepts` judges the offsets where the bounds leave
/// that open.
#[verifier::rlimit(30)]
pub fn write_idr_residual_slice<A: Fn(SaoQuestion) -> bool>(
    src: &SourcePlanes<'_>,
    qp: i32,
    search: ModeSearch,
    filter: LoopFilter,
    accepts: A,
) -> (r: (Vec<u8>, ReconstructedPicture, Vec<u8>))
    requires
        countable(src@),
        0 <= qp <= 51,
        forall|q: SaoQuestion| accepts.requires((q,)),
    ensures
        exists|keep: bool|
            {
                &&& #[trigger] decides(accepts, src@, qp as int, search, filter, keep)
                &&& r.0@ == slice_rbsp(src@, qp as int, search, filter, keep)
                &&& r.1@ == slice_recon(src@, qp as int, search, filter, keep)
            },
        r.1@.wf(),
        r.2@ == modes_of(decision_pass(src@, qp as int, search).records),
{
    let b: Base = base_picture(src, qp, search, filter.deblocking());
    let modes: Vec<u8> = collect_modes(&b.records);
    if !filter.sao() {
        let head: Vec<u8> = write_header(filter, false, qp);
        let rbsp: Vec<u8> = joined(head, &b.data);
        assert(decides(accepts, src@, qp as int, search, filter, false));
        return (rbsp, b.recon, modes);
    }
    let (offset, grid) = sao_reconstruction(&b.recon, src, SaoLambda::for_search(lambda_q8(qp)));
    let base: CurvePoint = CurvePoint { sse: picture_sse(&b.recon, src), bits: byte_bits(b.data.len()) };
    let after: u64 = picture_sse(&offset, src);
    let gain: u64 = if base.sse > after {
        base.sse - after
    } else {
        0
    };
    let coded: Vec<u8> = code_slice_data(&b.records, Some(&grid), qp, src.width / 16);
    let coded_bits: u64 = byte_bits(coded.len());
    let sao_bits: u64 = if coded_bits > base.bits {
        coded_bits - base.bits
    } else {
        0
    };
    let ghost asked = question(src@, qp as int, search);
    assert(coded@ == offset_data(src@, qp as int, search));
    assert(asked.gain == gain && asked.sao_bits == sao_bits);
    let judge = || -> (verdict: bool)
        requires
            countable(src@),
            0 <= qp <= 51,
            forall|q: SaoQuestion| accepts.requires((q,)),
            base == curve(src@, qp as int, search, true),
            asked == question(src@, qp as int, search),
            asked.gain == gain,
            asked.sao_bits == sao_bits,
        ensures
            accepts.ensures((asked,), verdict),
        {
            let q: SaoQuestion = if qp > 0 {
                SaoQuestion { gain, sao_bits, qp, fine: curve_point(src, qp - 1, search, true), coarse: base }
            } else {
                SaoQuestion { gain, sao_bits, qp, fine: base, coarse: curve_point(src, qp + 1, search, true) }
            };
            assert(q == asked);
            accepts(q)
        };
    let keep: bool = keeps_sao(gain, sao_bits, qp, judge);
    assert(decides(accepts, src@, qp as int, search, filter, keep));
    let head: Vec<u8> = write_header(filter, keep, qp);
    if keep {
        (joined(head, &coded), offset, modes)
    } else {
        (joined(head, &b.data), b.recon, modes)
    }
}

/// What refuses a picture, if anything.
pub open spec fn residual_error(
    width: usize,
    height: usize,
    qp: i32,
    y: nat,
    cb: nat,
    cr: nat,
) -> Option<PcmEncodeError> {
    let luma = width * height;
    if !dimensions_ok(width as int, height as int) || !(0 <= qp <= 51) {
        Some(PcmEncodeError::BadDimensions { width, height })
    } else if y != luma {
        Some(PcmEncodeError::PlaneSize { plane: "y", expected: luma as usize, got: y as usize })
    } else if cb != luma / 4 {
        Some(PcmEncodeError::PlaneSize { plane: "cb", expected: (luma / 4) as usize, got: cb as usize })
    } else if cr != luma / 4 {
        Some(PcmEncodeError::PlaneSize { plane: "cr", expected: (luma / 4) as usize, got: cr as usize })
    } else {
        None
    }
}

/// The machine limits of a picture: its samples can be counted, and where it is not
/// refused, its sides and their product are bounded.
pub open spec fn picture_fits(width: usize, height: usize, qp: i32, y: nat, cb: nat, cr: nat) -> bool {
    dimensions_ok(width as int, height as int) ==> {
        &&& width * height <= usize::MAX
        &&& residual_error(width, height, qp, y, cb, cr) is None ==> side_limits(width, height)
    }
}

/// The bounds on the sides of a picture and on its samples.
pub open spec fn side_limits(width: usize, height: usize) -> bool {
    &&& width <= MAX_SIDE
    &&& height <= MAX_SIDE
    &&& width * height <= MAX_PICTURE_SAMPLES
}

/// The access unit around a slice payload: VPS, SPS, PPS and the slice.
pub open spec fn access_unit(width: usize, height: usize, rbsp: Seq<u8>) -> Seq<u8> {
    let level = level_for(width * height);
    stream_of(
        seq![
            unit_bytes(32, 0, 0, pack(vps_bits(level, 1, 0))),
            unit_bytes(33, 0, 0, pack(sps_bits(width, height, level, true, true))),
            unit_bytes(34, 0, 0, pack(pps_bits(false, true, false, None, false))),
            unit_bytes(20, 0, 0, rbsp),
        ],
    )
}

/// The outcome of encoding a picture: a refusal, or the access unit and the
/// reconstruction under a decision that the writer takes.
pub open spec fn is_outcome<A: Fn(SaoQuestion) -> bool>(
    r: Result<(Vec<u8>, ReconstructedPicture), PcmEncodeError>,
    src: Frame,
    width: usize,
    height: usize,
    qp: i32,
    search: ModeSearch,
    accepts: A,
) -> bool {
    match residual_error(width, height, qp, src.y.len(), src.cb.len(), src.cr.len()) {
        Some(e) => r == Err::<(Vec<u8>, ReconstructedPicture), PcmEncodeError>(e),
        None => r is Ok && exists|keep: bool|
            {
                &&& #[trigger] decides(accepts, src, qp as int, search, LoopFilter::DeblockSao, keep)
                &&& r->Ok_0.0@ == access_unit(
                    width,
                    height,
                    slice_rbsp(src, qp as int, search, LoopFilter::DeblockSao, keep),
                )
                &&& r->Ok_0.1@ == slice_recon(src, qp as int, search, LoopFilter::DeblockSao, keep)
            },
    }
}

/// The planes of a call.
pub open spec fn frame_of(y: Seq<u8>, cb: Seq<u8>, cr: Seq<u8>, width: usize, height: usize) -> Frame {
    Frame { y, cb, cr, width: width as int, height: height as int }
}

/// Encodes one 4:2:0 8-bit frame as a self-contained IDR access unit whose coding units
/// carry quantized residual, and returns it with the picture a decoder reconstructs
/// from it. `qp` is the slice QP, in 0..=51. `accepts` judges the sample-adaptive
/// offsets where the bounds leave that open.
pub fn encode_idr_residual_au<A: Fn(SaoQuestion) -> bool>(
    y: &[u8],
    cb: &[u8],
    cr: &[u8],
    width: usize,
    height: usize,
    qp: i32,
    accepts: A,
) -> (r: Result<(Vec<u8>, ReconstructedPicture), PcmEncodeError>)
    requires
        picture_fits(width, height, qp, y@.len(), cb@.len(), cr@.len()),
        forall|q: SaoQuestion| accepts.requires((q,)),
    ensures
        is_outcome(r, frame_of(y@, cb@, cr@, width, height), width, height, qp, ModeSearch::Rdo, accepts),
{
    encode_idr_residual_au_at(y, cb, cr, width, height, qp, ModeSearch::Rdo, accepts)
}

/// [`encode_idr_residual_au`] at the rate-constrained operating point: the intra
/// decision charges the bins of the residual too.
pub fn encode_idr_residual_au_rate_constrained<A: Fn(SaoQuestion) -> bool>(
    y: &[u8],
    cb: &[u8],
    cr: &[u8],
    width: usize,
    height: usize,
    qp: i32,
    accepts: A,
) -> (r: Result<(Vec<u8>, ReconstructedPicture), PcmEncodeError>)
    requires
        picture_fits(width, height, qp, y@.len(), cb@.len(), cr@.len()),
        forall|q: SaoQuestion| accepts.requires((q,)),
    ensures
        is_outcome(
            r,
            frame_of(y@, cb@, cr@, width, height),
            width,
            height,
            qp,
            ModeSearch::RateDistortion,
            accepts,
        ),
{
    encode_idr_residual_au_at(y, cb, cr, width, height, qp, ModeSearch::RateDistortion, accepts)
}

/// The parameter sets and the slice as NAL units.
fn wrap_slice(width: usize, height: usize, rbsp: &Vec<u8>) -> (au: Vec<u8>)
    requires
        dimensions_ok(width as int, height as int),
        width * height <= usize::MAX,
        side_limits(width, height),
    ensures
        au@ == access_unit(width, height, rbsp@),
{
    let level: u8 = level_idc_for(width * height);
    proof {
        assert(dimension_field(width) == width);
        assert(dimension_field(height) == height);
    }
    let vps: Vec<u8> = write_vps(level);
    let sps: Vec<u8> = write_sps(width, height, level, true, true);
    let pps: Vec<u8> = write_pps(false, true, None);
    let mut units: Vec<Vec<u8>> = Vec::new();
    let vps_unit: Vec<u8> = nal_unit(32, 0, 0, vps.as_slice());  // VPS_NUT
    let sps_unit: Vec<u8> = nal_unit(33, 0, 0, sps.as_slice());  // SPS_NUT
    let pps_unit: Vec<u8> = nal_unit(34, 0, 0, pps.as_slice());  // PPS_NUT
    let slice_unit: Vec<u8> = nal_unit(20, 0, 0, rbsp.as_slice());  // IDR_N_LP
    units.push(vps_unit);
    units.push(sps_unit);
    units.push(pps_unit);
    units.push(slice_unit);
    assert(contents(units@) =~= seq![vps_unit@, sps_unit@, pps_unit@, slice_unit@]);
    annexb(units.as_slice())
}

/// What refuses a picture.
fn refusal(width: usize, height: usize, qp: i32, y: usize, cb: usize, cr: usize) -> (e: Option<PcmEncodeError>)
    requires
        dimensions_ok(width as int, height as int) ==> width * height <= usize::MAX,
    ensures
        e == residual_error(width, height, qp, y as nat, cb as nat, cr as nat),
{
    if width == 0 || height == 0 || width % 16 != 0 || height % 16 != 0 {
        return Some(PcmEncodeError::BadDimensions { width, height });
    }
    if qp < 0 || qp > 51 {
        return Some(PcmEncodeError::BadDimensions { width, height });
    }
    let luma: usize = width * height;
    if y != luma {
        return Some(PcmEncodeError::PlaneSize { plane: "y", expected: luma, got: y });
    }
    if cb != luma / 4 {
        return Some(PcmEncodeError::PlaneSize { plane: "cb", expected: luma / 4, got: cb });
    }
    if cr != luma / 4 {
        return Some(PcmEncodeError::PlaneSize { plane: "cr", expected: luma / 4, got: cr });
    }
    None
}

/// The body both operating points share.
fn encode_idr_residual_au_at<A: Fn(SaoQuestion) -> bool>(
    y: &[u8],
    cb: &[u8],
    cr: &[u8],
    width: usize,
    height: usize,
    qp: i32,
    search: ModeSearch,
    accepts: A,
) -> (r: Result<(Vec<u8>, ReconstructedPicture), PcmEncodeError>)
    requires
        picture_fits(width, height, qp, y@.len(), cb@.len(), cr@.len()),
        forall|q: SaoQuestion| accepts.requires((q,)),
    ensures
        is_outcome(r, frame_of(y@, cb@, cr@, width, height), width, height, qp, search, accepts),
{
    match refusal(width, height, qp, y.len(), cb.len(), cr.len()) {
        Some(e) => Err(e),
        None => encode_fitting(y, cb, cr, width, height, qp, search, accepts),
    }
}

/// Encodes a picture that is not refused.
fn encode_fitting<A: Fn(SaoQuestion) -> bool>(
    y: &[u8],
    cb: &[u8],
    cr: &[u8],
    width: usize,
    height: usize,
    qp: i32,
    search: ModeSearch,
    accepts: A,
) -> (r: Result<(Vec<u8>, ReconstructedPicture), PcmEncodeError>)
    requires
        residual_error(width, height, qp, y@.len(), cb@.len(), cr@.len()) is None,
        width * height <= usize::MAX,
        side_limits(width, height),
        forall|q: SaoQuestion| accepts.requires((q,)),
    ensures
        is_outcome(r, frame_of(y@, cb@, cr@, width, height), width, height, qp, search, accepts),
{
    let src: SourcePlanes<'_> = SourcePlanes { y, cb, cr, width, height };
    proof {
        assert((width * height) / 4 == (width as int / 2) * (height as int / 2)) by {
            let a = width as int / 2;
            let b = height as int / 2;
            assert(width == 2 * a && height == 2 * b);
            assert((2 * a) * (2 * b) == 4 * (a * b)) by (nonlinear_arith);
        }
        assert(src@ == frame_of(y@, cb@, cr@, width, height));
    }
    let (rbsp, recon, _) = write_idr_residual_slice(&src, qp, search, LoopFilter::DeblockSao, accepts);
    let au: Vec<u8> = wrap_slice(width, height, &rbsp);
    Ok((au, recon))
}

} // verus!
