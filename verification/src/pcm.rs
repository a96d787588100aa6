//! PCM-only IDR encoder.
//!
//! Every coding unit is a PCM block: the samples ride uncompressed inside the
//! slice data, so that decoding is exactly lossless. Every coding tree block is
//! one unsplit coding unit, and its syntax is `part_mode`, `pcm_flag` (a
//! terminating bin), alignment, the raw samples, the restart of the engine, and
//! `end_of_slice_segment_flag`.
use vstd::prelude::*;
use vstd::arithmetic::power2::{lemma2_to64, pow2};
use crate::arith::{lemma_grid, lemma_ungrid, max};
use crate::bins::{
    appended, bypass_bins, code_bins, contexts_after_all, contexts_wf, decision_bin, encode_bins, in_bank,
    initial_contexts, lemma_append, lemma_append_none, lemma_appended, lemma_bypass_concat, put_bypass,
    put_bypass_bits, put_decision, put_ones, Bin, SliceContexts, CONTEXTS, CTX_PART_MODE, CTX_SAO_MERGE, CTX_SAO_TYPE,
};
use crate::bits::{aligned, be_bits, bit_at, bytes_bits, pack, se_bits, ue_bits, width as digits};
use crate::bitwriter::{bit_width, BitWriter};
use crate::cabac::ContextModel;
use crate::cabac_encoder::{coder, repeated, CabacEncoder, Coder};
use crate::nal::{annexb, contents, nal_unit, stream_of, unit_bytes};
use crate::parameter_sets::{
    flag, level_for, level_for_tiles, level_idc_for, level_idc_for_tiles, pps_bits, sps_bits, vps_bits, write_pps,
    write_sps, write_vps, CTB, SLICE_QP,
};

verus! {

/// Per-picture shape options for the PCM encoder.
#[derive(Debug, Clone)]
pub struct PcmAuOptions {
    /// Number of slice segments: one independent segment, then dependent ones.
    /// Ignored when [`Self::independent_slices`] is non-empty.
    pub segments: usize,
    /// Independent slices as pairs of the first CTB and
    /// `slice_loop_filter_across_slices_enabled_flag` (sorted, first start 0).
    /// Empty for the [`Self::segments`] split.
    pub independent_slices: Vec<(usize, bool)>,
    /// Enable the deblocking filter.
    pub deblocking: bool,
    /// Enable luma band-offset SAO with fixed parameters.
    pub sao_luma_band: bool,
    /// Enable luma vertical-class edge-offset SAO with fixed parameters. Excludes
    /// [`Self::sao_luma_band`].
    pub sao_luma_eo_vertical: bool,
    /// `pcm_loop_filter_disabled_flag`.
    pub pcm_loop_filter_disabled: bool,
    /// A uniform tile grid as columns and rows. The picture is then coded as one
    /// slice segment in tile scan, each tile a subset of its own. Excludes several
    /// segments and SAO.
    pub tiles: Option<(u32, u32)>,
}

/// The mathematical value of [`PcmAuOptions`].
#[verifier::ext_equal]
pub struct Shape {
    pub segments: usize,
    pub independent_slices: Seq<(usize, bool)>,
    pub deblocking: bool,
    pub sao_luma_band: bool,
    pub sao_luma_eo_vertical: bool,
    pub pcm_loop_filter_disabled: bool,
    pub tiles: Option<(u32, u32)>,
}

impl View for PcmAuOptions {
    type V = Shape;

    open spec fn view(&self) -> Shape {
        Shape {
            segments: self.segments,
            independent_slices: self.independent_slices@,
            deblocking: self.deblocking,
            sao_luma_band: self.sao_luma_band,
            sao_luma_eo_vertical: self.sao_luma_eo_vertical,
            pcm_loop_filter_disabled: self.pcm_loop_filter_disabled,
            tiles: self.tiles,
        }
    }
}

/// A picture in `segments` even slice segments, without filters or tiles.
pub open spec fn even_shape(segments: usize) -> Shape {
    Shape {
        segments,
        independent_slices: Seq::empty(),
        deblocking: false,
        sao_luma_band: false,
        sao_luma_eo_vertical: false,
        pcm_loop_filter_disabled: true,
        tiles: None,
    }
}

impl Default for PcmAuOptions {
    fn default() -> (o: Self)
        ensures
            o@ == even_shape(1),
    {
        PcmAuOptions {
            segments: 1,
            independent_slices: Vec::new(),
            deblocking: false,
            sao_luma_band: false,
            sao_luma_eo_vertical: false,
            pcm_loop_filter_disabled: true,
            tiles: None,
        }
    }
}

/// Errors from the PCM encoder.
#[derive(Debug, Clone, Copy, PartialEq, Eq)]
#[allow(inconsistent_fields)]
pub enum PcmEncodeError {
    /// Width or height is zero or not a multiple of the CTB size, or the options
    /// do not fit the picture.
    BadDimensions {
        /// Requested luma width.
        width: usize,
        /// Requested luma height.
        height: usize,
    },
    /// A supplied plane's length does not match the 4:2:0 geometry.
    PlaneSize {
        /// Which plane (`"y"`, `"cb"`, `"cr"`).
        plane: &'static str,
        /// Required sample count.
        expected: usize,
        /// Supplied sample count.
        got: usize,
    },
}

/// The three planes of a 4:2:0 picture.
#[verifier::ext_equal]
pub struct Planes {
    pub y: Seq<u8>,
    pub cb: Seq<u8>,
    pub cr: Seq<u8>,
    pub width: int,
    pub height: int,
}

impl Planes {
    /// The dimensions are multiples of the CTB size and the planes fit them.
    pub open spec fn wf(self) -> bool {
        &&& self.width > 0 && self.width % 16 == 0
        &&& self.height > 0 && self.height % 16 == 0
        &&& self.y.len() == self.width * self.height
        &&& self.cb.len() == self.width * self.height / 4
        &&& self.cr.len() == self.width * self.height / 4
    }

    /// CTBs per row.
    pub open spec fn columns(self) -> int {
        self.width / 16
    }

    /// CTBs in the picture.
    pub open spec fn ctbs(self) -> int {
        (self.width / 16) * (self.height / 16)
    }

    /// The raw samples of the CTB in column `cx` and row `cy`: luma, then both
    /// chroma blocks.
    pub open spec fn samples(self, cx: int, cy: int) -> Seq<u8> {
        Seq::new(
            384,
            |k: int|
                if k < 256 {
                    self.y[(16 * cy + k / 16) * self.width + (16 * cx + k % 16)]
                } else if k < 320 {
                    self.cb[(8 * cy + (k - 256) / 8) * (self.width / 2) + (8 * cx + (k - 256) % 8)]
                } else {
                    self.cr[(8 * cy + (k - 320) / 8) * (self.width / 2) + (8 * cx + (k - 320) % 8)]
                },
        )
    }
}

/// The coder and the context variables in the middle of a slice.
#[verifier::ext_equal]
pub struct SliceState {
    pub coder: Coder,
    pub ctxs: Seq<ContextModel>,
}

impl SliceState {
    /// The coder and the context variables of an engine in use.
    pub open spec fn of(cabac: CabacEncoder, w: Seq<bool>, ctxs: Seq<ContextModel>) -> SliceState {
        SliceState { coder: coder(cabac, w), ctxs }
    }

    /// After more bins.
    pub open spec fn with(self, bins: Seq<Bin>) -> SliceState {
        SliceState {
            coder: encode_bins(self.coder, self.ctxs, bins),
            ctxs: contexts_after_all(self.ctxs, bins),
        }
    }

    /// After a PCM coding unit: `part_mode`, `pcm_flag`, the aligned raw samples;
    /// the engine starts anew.
    pub open spec fn with_pcm(self, samples: Seq<u8>) -> SliceState {
        let s = self.with(pcm_bins());
        SliceState { coder: Coder::start(aligned(s.coder.out) + bytes_bits(samples)), ..s }
    }
}

/// `part_mode` and `pcm_flag` of a PCM coding unit.
pub open spec fn pcm_bins() -> Seq<Bin> {
    seq![decision_bin(CTX_PART_MODE as int, 0, true), Bin::Terminate { end: true }]
}

/// A truncated unary code below its maximum.
pub open spec fn unary(v: nat) -> Seq<bool> {
    repeated(true, v).push(false)
}

/// One declined merge.
pub open spec fn declined(available: bool) -> Seq<Bin> {
    if available {
        seq![decision_bin(CTX_SAO_MERGE as int, 0, false)]
    } else {
        Seq::empty()
    }
}

/// The fixed SAO parameters, behind the first bin of the type: offsets 1, 2, 3, 4
/// with alternating signs from band 8, or edge offsets 1, 2, 1, 2 of the vertical
/// class.
pub open spec fn sao_parameter_bits(band: bool) -> Seq<bool> {
    if band {
        seq![false] + unary(1) + unary(2) + unary(3) + unary(4) + seq![false, true, false, true] + be_bits(8, 5)
    } else {
        seq![true] + unary(1) + unary(2) + unary(1) + unary(2) + be_bits(1, 2)
    }
}

/// The SAO syntax of a CTB: available merges are declined.
pub open spec fn sao_bins(band: bool, left: bool, up: bool) -> Seq<Bin> {
    declined(left) + declined(up) + seq![decision_bin(CTX_SAO_TYPE as int, 0, true)] + bypass_bins(
        sao_parameter_bits(band),
    )
}

/// Whether SAO is on.
pub open spec fn sao_on(opts: Shape) -> bool {
    opts.sao_luma_band || opts.sao_luma_eo_vertical
}

/// The SAO syntax of CTB `addr` in a slice that starts at `slice_start`, if any.
pub open spec fn ctb_sao_bins(opts: Shape, columns: int, slice_start: int, addr: int) -> Seq<Bin> {
    if sao_on(opts) {
        sao_bins(
            opts.sao_luma_band,
            addr % columns > 0 && addr > slice_start,
            addr / columns > 0 && addr - columns >= slice_start,
        )
    } else {
        Seq::empty()
    }
}

/// CTBs `addr` up to `end` of a slice.
pub open spec fn ctbs_coded(
    pl: Planes,
    opts: Shape,
    s: SliceState,
    slice_start: int,
    addr: int,
    end: int,
) -> SliceState
    decreases end - addr,
{
    if addr >= end {
        s
    } else {
        let columns = pl.columns();
        let coded = s.with(ctb_sao_bins(opts, columns, slice_start, addr)).with_pcm(
            pl.samples(addr % columns, addr / columns),
        ).with(seq![Bin::Terminate { end: addr == end - 1 }]);
        ctbs_coded(pl, opts, coded, slice_start, addr + 1, end)
    }
}

/// The blocks of a segment when `total` are split into `n` runs of one length, of which
/// the last may be shorter.
pub open spec fn run_length(total: int, n: int) -> int {
    total / n + if total % n != 0 {
        1int
    } else {
        0int
    }
}

/// Where segment `i` of `n` starts in a picture of `total` blocks that is split evenly: at
/// a multiple of the run length, where that leaves a block for the last segment, and
/// otherwise at its share of the blocks.
pub open spec fn even_start(total: int, n: int, i: int) -> int {
    if (n - 1) * run_length(total, n) < total {
        i * run_length(total, n)
    } else {
        i * total / n
    }
}

/// The slice segments of a picture: where each starts, and for an independent one
/// whether loop filters cross its boundary. Without independent slices the picture is
/// split evenly.
pub open spec fn plan_of(opts: Shape, total: int) -> Seq<(int, Option<bool>)> {
    if opts.independent_slices.len() == 0 {
        Seq::new(
            opts.segments as nat,
            |i: int|
                (
                    even_start(total, opts.segments as int, i),
                    if i == 0 {
                        Some(true)
                    } else {
                        None
                    },
                ),
        )
    } else {
        Seq::new(
            opts.independent_slices.len(),
            |i: int| (opts.independent_slices[i].0 as int, Some(opts.independent_slices[i].1)),
        )
    }
}

/// Where segment `k` of a plan ends.
pub open spec fn segment_end(plan: Seq<(int, Option<bool>)>, k: int, total: int) -> int {
    if k + 1 < plan.len() {
        plan[k + 1].0
    } else {
        total
    }
}

/// Whether dependent slice segments are in use.
pub open spec fn dependent_mode(opts: Shape) -> bool {
    opts.independent_slices.len() == 0 && opts.segments > 1
}

/// How many bits a CTB address takes.
pub open spec fn address_bits(total: int) -> nat {
    max(1, digits((total - 1) as nat) as int) as nat
}

/// The header of segment `k`, up to the slice data.
pub open spec fn segment_header(opts: Shape, plan: Seq<(int, Option<bool>)>, k: int, total: int) -> Seq<bool> {
    let (start, independent) = plan[k];
    let head = Seq::<bool>::empty().push(k == 0).push(false) + ue_bits(0);
    let flagged = if k > 0 && dependent_mode(opts) {
        head.push(true)
    } else {
        head
    };
    let addressed = if k > 0 {
        flagged + be_bits(start as nat, address_bits(total))
    } else {
        flagged
    };
    let full = match independent {
        Some(across) => {
            let typed = addressed + ue_bits(2);
            let sao = if sao_on(opts) {
                typed.push(true).push(false)
            } else {
                typed
            };
            let qp = sao + se_bits(SLICE_QP - 26);
            if opts.deblocking || sao_on(opts) {
                qp.push(across)
            } else {
                qp
            }
        },
        None => addressed,
    };
    aligned(full.push(true))
}

/// The state in which the data of segment `k` starts: an independent slice
/// initializes the context variables, a dependent segment takes them over.
pub open spec fn segment_start(
    opts: Shape,
    plan: Seq<(int, Option<bool>)>,
    k: int,
    total: int,
    ctxs: Seq<ContextModel>,
) -> SliceState {
    SliceState {
        coder: Coder::start(segment_header(opts, plan, k, total)),
        ctxs: if plan[k].1 is Some {
            initial_contexts(SLICE_QP as int)
        } else {
            ctxs
        },
    }
}

/// Where the slice of segment `k` starts.
pub open spec fn slice_start_of(plan: Seq<(int, Option<bool>)>, k: int, before: int) -> int {
    if plan[k].1 is Some {
        plan[k].0
    } else {
        before
    }
}

/// The payloads of segments `k` on, behind `out`.
pub open spec fn segments_from(
    out: Seq<Seq<u8>>,
    pl: Planes,
    opts: Shape,
    plan: Seq<(int, Option<bool>)>,
    k: int,
    ctxs: Seq<ContextModel>,
    slice_start: int,
) -> Seq<Seq<u8>>
    decreases plan.len() - k,
{
    if k >= plan.len() {
        out
    } else {
        let total = pl.ctbs();
        let start = slice_start_of(plan, k, slice_start);
        let s = ctbs_coded(
            pl,
            opts,
            segment_start(opts, plan, k, total, ctxs),
            start,
            plan[k].0,
            segment_end(plan, k, total),
        );
        segments_from(out.push(pack(aligned(s.coder.out))), pl, opts, plan, k + 1, s.ctxs, start)
    }
}

/// The payloads of the slice segments of a picture.
pub open spec fn slice_segments(pl: Planes, opts: Shape) -> Seq<Seq<u8>> {
    segments_from(Seq::empty(), pl, opts, plan_of(opts, pl.ctbs()), 0, initial_contexts(SLICE_QP as int), 0)
}

#[verifier::spinoff_prover]
proof fn lemma_luma_index(columns: int, rows: int, cx: int, cy: int, k: int)
    requires
        0 <= cx < columns,
        0 <= cy < rows,
        0 <= k < 256,
    ensures
        0 <= (16 * cy + k / 16) * (16 * columns) + (16 * cx + k % 16) < (16 * columns) * (16 * rows),
{
    let (r, c) = (16 * cy + k / 16, 16 * cx + k % 16);
    assert(0 <= r < 16 * rows && 0 <= c < 16 * columns);
    lemma_grid(r, c, 16 * columns, 16 * rows);
}

#[verifier::spinoff_prover]
proof fn lemma_chroma_index(columns: int, rows: int, cx: int, cy: int, k: int)
    requires
        0 <= cx < columns,
        0 <= cy < rows,
        0 <= k < 64,
    ensures
        0 <= (8 * cy + k / 8) * (8 * columns) + (8 * cx + k % 8) < (8 * columns) * (8 * rows),
        (16 * columns) * (16 * rows) == 4 * ((8 * columns) * (8 * rows)),
{
    let (r, c) = (8 * cy + k / 8, 8 * cx + k % 8);
    assert(0 <= r < 8 * rows && 0 <= c < 8 * columns);
    lemma_grid(r, c, 8 * columns, 8 * rows);
    let (a, b) = (8 * columns, 8 * rows);
    assert((2 * a) * (2 * b) == 4 * (a * b)) by (nonlinear_arith);
}

#[verifier::spinoff_prover]
proof fn lemma_sample_index(width: int, height: int, cx: int, cy: int, k: int)
    requires
        width > 0,
        width % 16 == 0,
        height > 0,
        height % 16 == 0,
        0 <= cx < width / 16,
        0 <= cy < height / 16,
    ensures
        0 <= k < 256 ==> 0 <= (16 * cy + k / 16) * width + (16 * cx + k % 16) < width * height,
        0 <= k < 64 ==> 0 <= (8 * cy + k / 8) * (width / 2) + (8 * cx + k % 8) < width * height / 4,
{
    let (columns, rows) = (width / 16, height / 16);
    assert(width == 16 * columns && height == 16 * rows);
    assert(width / 2 == 8 * columns);
    if 0 <= k < 256 {
        lemma_luma_index(columns, rows, cx, cy, k);
    }
    if 0 <= k < 64 {
        lemma_chroma_index(columns, rows, cx, cy, k);
    }
}

/// Gather the raw samples of a CTB.
fn gather_samples(
    y: &[u8],
    cb: &[u8],
    cr: &[u8],
    width: usize,
    cx: usize,
    cy: usize,
    Ghost(pl): Ghost<Planes>,
) -> (v: Vec<u8>)
    requires
        pl.wf(),
        pl.y == y@,
        pl.cb == cb@,
        pl.cr == cr@,
        pl.width == width,
        pl.width * pl.height <= usize::MAX,
        cx < pl.width / 16,
        cy < pl.height / 16,
    ensures
        v@ == pl.samples(cx as int, cy as int),
{
    let mut v: Vec<u8> = Vec::new();
    let ghost goal = pl.samples(cx as int, cy as int);
    let mut k: usize = 0;
    while k < 256
        invariant
            k <= 256,
            pl.wf(),
            pl.y == y@,
            pl.width == width,
            pl.width * pl.height <= usize::MAX,
            cx < pl.width / 16,
            cy < pl.height / 16,
            goal == pl.samples(cx as int, cy as int),
            v@ == goal.take(k as int),
        decreases 256 - k,
    {
        proof {
            lemma_sample_index(pl.width, pl.height, cx as int, cy as int, k as int);
            lemma_index_fits(16 * cy + k / 16, 16 * cx + k % 16, pl.width, pl.height);
        }
        v.push(y[(16 * cy + k / 16) * width + (16 * cx + k % 16)]);
        k = k + 1;
        assert(v@ =~= goal.take(k as int));
    }
    let half: usize = width / 2;
    k = 0;
    while k < 64
        invariant
            k <= 64,
            pl.wf(),
            pl.cb == cb@,
            pl.width == width,
            half == width / 2,
            pl.width * pl.height <= usize::MAX,
            cx < pl.width / 16,
            cy < pl.height / 16,
            goal == pl.samples(cx as int, cy as int),
            v@ == goal.take(256 + k),
        decreases 64 - k,
    {
        proof {
            lemma_sample_index(pl.width, pl.height, cx as int, cy as int, k as int);
            lemma_index_fits(8 * cy + k / 8, 8 * cx + k % 8, pl.width / 2, pl.height / 2);
            assert((pl.width / 2) * (pl.height / 2) <= pl.width * pl.height) by (nonlinear_arith)
                requires
                    pl.width > 0,
                    pl.height > 0,
            ;
            assert(goal[256 + k] == cb@[(8 * cy + k / 8) * (width / 2) + (8 * cx + k % 8)]);
        }
        v.push(cb[(8 * cy + k / 8) * half + (8 * cx + k % 8)]);
        k = k + 1;
        assert(v@ =~= goal.take(256 + k));
    }
    k = 0;
    while k < 64
        invariant
            k <= 64,
            pl.wf(),
            pl.cr == cr@,
            pl.width == width,
            half == width / 2,
            pl.width * pl.height <= usize::MAX,
            cx < pl.width / 16,
            cy < pl.height / 16,
            goal == pl.samples(cx as int, cy as int),
            v@ == goal.take(320 + k),
        decreases 64 - k,
    {
        proof {
            lemma_sample_index(pl.width, pl.height, cx as int, cy as int, k as int);
            lemma_index_fits(8 * cy + k / 8, 8 * cx + k % 8, pl.width / 2, pl.height / 2);
            assert((pl.width / 2) * (pl.height / 2) <= pl.width * pl.height) by (nonlinear_arith)
                requires
                    pl.width > 0,
                    pl.height > 0,
            ;
            assert(goal[320 + k] == cr@[(8 * cy + k / 8) * (width / 2) + (8 * cx + k % 8)]);
        }
        v.push(cr[(8 * cy + k / 8) * half + (8 * cx + k % 8)]);
        k = k + 1;
        assert(v@ =~= goal.take(320 + k));
    }
    assert(goal.take(384) =~= goal);
    v
}

proof fn lemma_index_fits(row: int, col: int, w: int, h: int)
    requires
        0 <= row < h,
        0 <= col < w,
    ensures
        0 <= row <= row * w <= row * w + col < w * h,
{
    lemma_grid(row, col, w, h);
    assert(row * w >= row) by (nonlinear_arith)
        requires
            row >= 0,
            w >= 1,
    ;
}

/// One PCM coding tree block: `part_mode`, `pcm_flag`, the alignment zeros, the raw
/// samples, and the engine's restart.
fn write_pcm_ctu(
    w: &mut BitWriter,
    cabac: &mut CabacEncoder,
    ctxs: &mut SliceContexts,
    y: &[u8],
    cb: &[u8],
    cr: &[u8],
    width: usize,
    cx: usize,
    cy: usize,
    Ghost(pl): Ghost<Planes>,
)
    requires
        old(w).wf(),
        old(cabac).wf(),
        old(ctxs).wf(),
        pl.wf(),
        pl.y == y@,
        pl.cb == cb@,
        pl.cr == cr@,
        pl.width == width,
        pl.width * pl.height <= usize::MAX,
        cx < pl.width / 16,
        cy < pl.height / 16,
    ensures
        final(w).wf(),
        final(cabac).wf(),
        final(ctxs).wf(),
        SliceState::of(*final(cabac), final(w)@, final(ctxs)@) == SliceState::of(*old(cabac), old(w)@, old(ctxs)@).with_pcm(
            pl.samples(cx as int, cy as int),
        ),
{
    let bins: [Bin; 2] = [Bin::Decision { ctx: CTX_PART_MODE, bin: 1 }, Bin::Terminate { end: true }];
    assert(bins@ =~= pcm_bins());
    code_bins(w, cabac, ctxs, bins.as_slice());
    w.align_zero();
    let samples: Vec<u8> = gather_samples(y, cb, cr, width, cx, cy, Ghost(pl));
    w.put_bytes(samples.as_slice());
    cabac.reinit();
    assert(coder(*cabac, w@) == Coder::start(w@));
}

/// The SAO syntax of one CTB.
fn sao_syntax(band: bool, left: bool, up: bool) -> (bins: Vec<Bin>)
    ensures
        bins@ == sao_bins(band, left, up),
        in_bank(bins@, CONTEXTS as nat),
{
    let mut sink: Vec<Bin> = Vec::new();
    let ghost s0 = sink@;
    if left {
        put_decision(&mut sink, CTX_SAO_MERGE, 0, false);
    } else {
        proof {
            lemma_append_none(s0, declined(left));
        }
    }
    let ghost s1 = sink@;
    if up {
        put_decision(&mut sink, CTX_SAO_MERGE, 0, false);
    } else {
        proof {
            lemma_append_none(s1, declined(up));
        }
    }
    let ghost s2 = sink@;
    put_decision(&mut sink, CTX_SAO_TYPE, 0, true);
    let ghost s3 = sink@;
    let ghost params = sao_parameter_bits(band);
    put_sao_parameters(&mut sink, band);
    proof {
        let t = seq![decision_bin(CTX_SAO_TYPE as int, 0, true)];
        lemma_append(s0, s1, s2, declined(left), declined(up), declined(left) + declined(up));
        lemma_append(s0, s2, s3, declined(left) + declined(up), t, declined(left) + declined(up) + t);
        lemma_append(
            s0,
            s3,
            sink@,
            declined(left) + declined(up) + t,
            bypass_bins(params),
            declined(left) + declined(up) + t + bypass_bins(params),
        );
        lemma_appended(s0, sink@, sao_bins(band, left, up));
        assert(sink@ =~= sao_bins(band, left, up));
    }
    sink
}

/// A bypass-coded truncated unary value.
fn put_unary(sink: &mut Vec<Bin>, v: u32)
    ensures
        appended(old(sink)@, final(sink)@, bypass_bins(unary(v as nat))),
{
    let ghost s0 = sink@;
    put_ones(sink, v);
    let ghost s1 = sink@;
    put_bypass(sink, false);
    proof {
        let a = repeated(true, v as nat);
        assert(unary(v as nat) =~= a + seq![false]);
        lemma_bypass_concat(a, seq![false]);
        assert(bypass_bins(seq![false]) =~= seq![Bin::Bypass { bit: false }]);
        lemma_append(s0, s1, sink@, bypass_bins(a), bypass_bins(seq![false]), bypass_bins(unary(v as nat)));
    }
}

/// Appending two runs appends the concatenated run.
proof fn lemma_runs(a: Seq<Bin>, b: Seq<Bin>, c: Seq<Bin>, x: Seq<bool>, y: Seq<bool>)
    requires
        appended(a, b, bypass_bins(x)),
        appended(b, c, bypass_bins(y)),
    ensures
        appended(a, c, bypass_bins(x + y)),
{
    lemma_bypass_concat(x, y);
    lemma_append(a, b, c, bypass_bins(x), bypass_bins(y), bypass_bins(x + y));
}

fn put_bit_run(sink: &mut Vec<Bin>, bit: bool)
    ensures
        appended(old(sink)@, final(sink)@, bypass_bins(seq![bit])),
{
    put_bypass(sink, bit);
    assert(bypass_bins(seq![bit]) =~= seq![Bin::Bypass { bit }]);
}

fn put_sao_parameters(sink: &mut Vec<Bin>, band: bool)
    ensures
        appended(old(sink)@, final(sink)@, bypass_bins(sao_parameter_bits(band))),
{
    let ghost s = sink@;
    put_bit_run(sink, !band);
    let ghost s1 = sink@;
    let ghost r1 = seq![!band];
    put_unary(sink, 1);
    let ghost s2 = sink@;
    let ghost r2 = r1 + unary(1);
    put_unary(sink, 2);
    let ghost s3 = sink@;
    let ghost r3 = r2 + unary(2);
    proof {
        lemma_runs(s, s1, s2, r1, unary(1));
        lemma_runs(s, s2, s3, r2, unary(2));
    }
    if band {
        put_unary(sink, 3);
        let ghost s4 = sink@;
        let ghost r4 = r3 + unary(3);
        put_unary(sink, 4);
        let ghost s5 = sink@;
        let ghost r5 = r4 + unary(4);
        // signs: +, -, +, -
        put_bypass_bits(sink, 5, 4);
        let ghost s6 = sink@;
        put_bypass_bits(sink, 8, 5);
        proof {
            lemma_runs(s, s3, s4, r3, unary(3));
            lemma_runs(s, s4, s5, r4, unary(4));
            lemma_signs();
            lemma_runs(s, s5, s6, r5, be_bits(5, 4));
            lemma_runs(s, s6, sink@, r5 + be_bits(5, 4), be_bits(8, 5));
        }
    } else {
        put_unary(sink, 1);
        let ghost s4 = sink@;
        let ghost r4 = r3 + unary(1);
        put_unary(sink, 2);
        let ghost s5 = sink@;
        let ghost r5 = r4 + unary(2);
        put_bypass_bits(sink, 1, 2);
        proof {
            lemma_runs(s, s3, s4, r3, unary(1));
            lemma_runs(s, s4, s5, r4, unary(2));
            lemma_runs(s, s5, sink@, r5, be_bits(1, 2));
        }
    }
}

proof fn lemma_signs()
    ensures
        be_bits(5, 4) == seq![false, true, false, true],
{
    lemma2_to64();
    assert(!bit_at(5, 3) && bit_at(5, 2) && !bit_at(5, 1) && bit_at(5, 0));
    assert(be_bits(5, 4) =~= seq![false, true, false, true]);
}

/// The independent slices start at CTB 0, in rising order, inside the picture.
pub open spec fn starts_ok(slices: Seq<(usize, bool)>, total: int) -> bool {
    &&& slices.len() > 0 ==> slices[0].0 == 0
    &&& forall|i: int, j: int| 0 <= i < j < slices.len() ==> (#[trigger] slices[i]).0 < (#[trigger] slices[j]).0
    &&& forall|i: int| 0 <= i < slices.len() ==> (#[trigger] slices[i]).0 < total
}

/// The tile grid has at least two tiles, none empty, and nothing that tiles
/// exclude is asked for.
pub open spec fn tiles_ok(opts: Shape, width: int, height: int) -> bool {
    match opts.tiles {
        Some((cols, rows)) => {
            &&& cols > 0
            &&& rows > 0
            &&& cols * rows >= 2
            &&& cols <= width / 16
            &&& rows <= height / 16
            &&& opts.segments == 1
            &&& opts.independent_slices.len() == 0
            &&& !sao_on(opts)
        },
        None => true,
    }
}

/// The dimensions are nonzero multiples of the CTB size.
pub open spec fn dimensions_ok(width: int, height: int) -> bool {
    width > 0 && height > 0 && width % 16 == 0 && height % 16 == 0
}

/// The options fit the picture.
pub open spec fn options_ok(opts: Shape, width: int, height: int) -> bool {
    let total = (width / 16) * (height / 16);
    &&& opts.independent_slices.len() == 0 ==> 0 < opts.segments <= total
    &&& starts_ok(opts.independent_slices, total)
    &&& !(opts.sao_luma_band && opts.sao_luma_eo_vertical)
    &&& tiles_ok(opts, width, height)
}

/// Where there is more than one segment, addresses fit their 32-bit field.
pub open spec fn segments_fit(opts: Shape, width: int, height: int) -> bool {
    plan_of(opts, (width / 16) * (height / 16)).len() > 1 ==> (width / 16) * (height / 16) <= u32::MAX
}

/// A plan whose segments cover the picture in order, none of them empty.
pub open spec fn plan_ok(plan: Seq<(int, Option<bool>)>, total: int) -> bool {
    &&& plan.len() > 0
    &&& plan[0].0 == 0
    &&& forall|k: int|
        0 <= k < plan.len() ==> 0 <= (#[trigger] plan[k]).0 < segment_end(plan, k, total) && segment_end(plan, k, total)
            <= total
}

/// An even split starts at the first block, and every segment starts before the next, or
/// before the end.
proof fn lemma_even_start(total: int, n: int, i: int)
    requires
        0 <= i < n <= total,
    ensures
        even_start(total, n, 0) == 0,
        0 <= even_start(total, n, i) < total,
        i + 1 < n ==> even_start(total, n, i) < even_start(total, n, i + 1),
{
    let len = run_length(total, n);
    assert(total / n >= 1) by (nonlinear_arith)
        requires
            0 < n <= total,
    ;
    if (n - 1) * len < total {
        assert(0 * len == 0 && 0 <= i * len <= (n - 1) * len && (i + 1) * len == i * len + len) by (nonlinear_arith)
            requires
                0 <= i <= n - 1,
                len >= 1,
        ;
    } else {
        assert(0 * total / n == 0) by (nonlinear_arith)
            requires
                n > 0,
        ;
        lemma_uniform(i, n, total);
        if i + 1 < n {
            lemma_uniform(i + 1, n, total);
        }
    }
}

/// Every segment of a picture holds a CTB: it ends behind its start, inside the picture,
/// and where it ends the next one starts.
pub proof fn law_no_segment_is_empty(opts: Shape, width: int, height: int)
    requires
        dimensions_ok(width, height),
        options_ok(opts, width, height),
    ensures
        plan_ok(plan_of(opts, (width / 16) * (height / 16)), (width / 16) * (height / 16)),
{
    let total = (width / 16) * (height / 16);
    let plan = plan_of(opts, total);
    assert(total > 0) by (nonlinear_arith)
        requires
            width / 16 > 0,
            height / 16 > 0,
            total == (width / 16) * (height / 16),
    ;
    if opts.independent_slices.len() == 0 {
        let n = opts.segments as int;
        lemma_even_start(total, n, 0);
        assert forall|k: int| 0 <= k < plan.len() implies 0 <= (#[trigger] plan[k]).0 < segment_end(plan, k, total)
            && segment_end(plan, k, total) <= total by {
            lemma_even_start(total, n, k);
            if k + 1 < n {
                lemma_even_start(total, n, k + 1);
            }
        }
    } else {
        let s = opts.independent_slices;
        assert forall|k: int| 0 <= k < plan.len() implies 0 <= (#[trigger] plan[k]).0 < segment_end(plan, k, total)
            && segment_end(plan, k, total) <= total by {
            assert(s[k].0 < total);
            if k + 1 < plan.len() {
                assert(s[k].0 < s[k + 1].0);
                assert(s[k + 1].0 < total);
            }
        }
    }
}

/// The values of a plan in use.
spec fn plan_view(plan: Seq<(usize, Option<bool>)>) -> Seq<(int, Option<bool>)> {
    Seq::new(plan.len(), |i: int| (plan[i].0 as int, plan[i].1))
}

/// The slice segments of the picture.
fn make_plan(opts: &PcmAuOptions, total: usize) -> (plan: Vec<(usize, Option<bool>)>)
    requires
        opts@.independent_slices.len() == 0 ==> 0 < opts.segments <= total,
    ensures
        plan_view(plan@) == plan_of(opts@, total as int),
{
    let ghost goal = plan_of(opts@, total as int);
    let mut plan: Vec<(usize, Option<bool>)> = Vec::new();
    if opts.independent_slices.len() == 0 {
        // Even split; segment 0 independent, the rest dependent.
        let n: usize = opts.segments;
        proof {
            lemma_even_start(total as int, n as int, 0);
            assert(total as int / n as int <= total) by (nonlinear_arith)
                requires
                    0 < n,
                    0 < total,
            ;
            if total as int % n as int != 0 && n == 1 {
                assert(total as int % 1 == 0);
            }
            assert(n >= 2 ==> total as int / n as int <= total / 2) by (nonlinear_arith)
                requires
                    0 < n,
                    0 < total,
            ;
        }
        let len: usize = total / n + if total % n != 0 {
            1
        } else {
            0
        };
        assert(0 <= (n - 1) * len <= 0xffff_ffff_ffff_ffff * 0xffff_ffff_ffff_ffff) by (nonlinear_arith)
            requires
                1 <= n <= 0xffff_ffff_ffff_ffff,
                0 <= len <= 0xffff_ffff_ffff_ffff,
        ;
        let runs: bool = ((n - 1) as u128 * len as u128) < total as u128;
        let mut i: usize = 0;
        while i < n
            invariant
                i <= n,
                0 < n <= total,
                len == run_length(total as int, n as int),
                runs == ((n - 1) * len < total),
                n == opts.segments,
                opts@.independent_slices.len() == 0,
                goal == plan_of(opts@, total as int),
                plan@.len() == i,
                plan_view(plan@) == goal.take(i as int),
            decreases n - i,
        {
            assert(0 <= i * total <= 0xffff_ffff_ffff_ffff * 0xffff_ffff_ffff_ffff) by (nonlinear_arith)
                requires
                    0 <= i <= 0xffff_ffff_ffff_ffff,
                    0 <= total <= 0xffff_ffff_ffff_ffff,
            ;
            proof {
                lemma_even_start(total as int, n as int, i as int);
            }
            let start: usize = if runs {
                i * len
            } else {
                (i as u128 * total as u128 / n as u128) as usize
            };
            plan.push(
                (
                    start,
                    if i == 0 {
                        Some(true)
                    } else {
                        None
                    },
                ),
            );
            i = i + 1;
            assert(plan_view(plan@) =~= goal.take(i as int));
        }
        assert(goal.take(n as int) =~= goal);
    } else {
        let mut i: usize = 0;
        while i < opts.independent_slices.len()
            invariant
                i <= opts@.independent_slices.len(),
                opts@.independent_slices.len() > 0,
                goal == plan_of(opts@, total as int),
                plan@.len() == i,
                plan_view(plan@) == goal.take(i as int),
            decreases opts.independent_slices.len() - i,
        {
            let (start, across) = opts.independent_slices[i];
            plan.push((start, Some(across)));
            i = i + 1;
            assert(plan_view(plan@) =~= goal.take(i as int));
        }
        assert(goal.take(i as int) =~= goal);
    }
    plan
}

/// The header of segment `k`.
fn write_segment_header(
    w: &mut BitWriter,
    opts: &PcmAuOptions,
    start: usize,
    independent: Option<bool>,
    k: usize,
    total: usize,
    Ghost(plan): Ghost<Seq<(int, Option<bool>)>>,
)
    requires
        old(w).wf(),
        old(w)@ == Seq::<bool>::empty(),
        0 <= k < plan.len(),
        plan[k as int] == (start as int, independent),
        total >= 1,
        k > 0 ==> total <= u32::MAX && start <= total,
    ensures
        final(w).wf(),
        final(w)@ == segment_header(opts@, plan, k as int, total as int),
{
    let sao: bool = opts.sao_luma_band || opts.sao_luma_eo_vertical;
    w.put_bit(flag(k == 0));  // first_slice_segment_in_pic_flag
    w.put_bit(0);  // no_output_of_prior_pics_flag
    w.ue(0);  // slice_pic_parameter_set_id
    if k > 0 {
        if opts.independent_slices.len() == 0 && opts.segments > 1 {
            w.put_bit(1);  // dependent_slice_segment_flag
        }
        let addr_bits: u8 = if total == 1 {
            1
        } else {
            bit_width((total - 1) as u32)
        };
        assert(addr_bits == address_bits(total as int)) by {
            if total == 1 {
                assert(digits(0) == 0);
            }
        }
        w.put_bits(start as u32, addr_bits);  // slice_segment_address
    }
    if let Some(across) = independent {
        w.ue(2);  // slice_type = I
        if sao {
            w.put_bit(1);  // slice_sao_luma_flag
            w.put_bit(0);  // slice_sao_chroma_flag
        }
        w.se(SLICE_QP - 26);  // slice_qp_delta
        if opts.deblocking || sao {
            w.put_bit(flag(across));  // slice_loop_filter_across_slices_enabled_flag
        }
    }
    w.rbsp_trailing_bits();  // byte_alignment() before slice data
}

/// The contents of the payloads written so far.
pub open spec fn payloads(v: Seq<Vec<u8>>) -> Seq<Seq<u8>> {
    contents(v)
}

/// The picture's slice segments: one independent intra segment followed by
/// dependent ones, or several independent ones, every CTB a PCM coding unit.
///
/// The context variables carry across a dependent segment's boundary; each
/// segment gets a fresh arithmetic engine.
fn write_idr_slice_segments(
    y: &[u8],
    cb: &[u8],
    cr: &[u8],
    width: usize,
    height: usize,
    opts: &PcmAuOptions,
    Ghost(pl): Ghost<Planes>,
) -> (out: Vec<Vec<u8>>)
    requires
        pl == (Planes { y: y@, cb: cb@, cr: cr@, width: width as int, height: height as int }),
        pl.wf(),
        width * height <= usize::MAX,
        options_ok(opts@, width as int, height as int),
        segments_fit(opts@, width as int, height as int),
    ensures
        payloads(out@) == slice_segments(pl, opts@),
{
    let sao: bool = opts.sao_luma_band || opts.sao_luma_eo_vertical;
    let ctbs_x: usize = width / CTB;
    let ctbs_y: usize = height / CTB;
    proof {
        assert(ctbs_x * ctbs_y <= width * height) by (nonlinear_arith)
            requires
                ctbs_x <= width,
                ctbs_y <= height,
        ;
        law_no_segment_is_empty(opts@, width as int, height as int);
    }
    let total: usize = ctbs_x * ctbs_y;
    let plan_vec: Vec<(usize, Option<bool>)> = make_plan(opts, total);
    let ghost plan = plan_of(opts@, total as int);
    let mut ctxs = SliceContexts::init(SLICE_QP);
    // Merge candidates are denied across independent slices.
    let mut cur_slice_start: usize = 0;
    let mut out: Vec<Vec<u8>> = Vec::new();
    let ghost goal = slice_segments(pl, opts@);
    let mut k: usize = 0;
    assert(payloads(out@) =~= Seq::<Seq<u8>>::empty());
    while k < plan_vec.len()
        invariant
            k <= plan_vec@.len(),
            pl == (Planes { y: y@, cb: cb@, cr: cr@, width: width as int, height: height as int }),
            pl.wf(),
            width * height <= usize::MAX,
            ctbs_x == width / 16,
            ctbs_y == height / 16,
            ctbs_x > 0,
            total == ctbs_x * ctbs_y,
            total == pl.ctbs(),
            total >= 1,
            sao == sao_on(opts@),
            plan == plan_of(opts@, total as int),
            plan_view(plan_vec@) == plan,
            plan_ok(plan, total as int),
            plan.len() > 1 ==> total <= u32::MAX,
            ctxs.wf(),
            segments_from(payloads(out@), pl, opts@, plan, k as int, ctxs@, cur_slice_start as int) == goal,
        decreases plan_vec.len() - k,
    {
        let (start, independent) = plan_vec[k];
        assert(plan[k as int] == (start as int, independent));
        let end: usize = if k + 1 < plan_vec.len() {
            plan_vec[k + 1].0
        } else {
            total
        };
        assert(k + 1 < plan_vec@.len() ==> plan[k + 1] == (plan_vec@[k + 1].0 as int, plan_vec@[k + 1].1));
        assert(end == segment_end(plan, k as int, total as int));
        let ghost before = payloads(out@);
        let ghost entry_ctxs = ctxs@;
        let ghost entry_start = cur_slice_start as int;
        let mut w = BitWriter::new();
        write_segment_header(&mut w, opts, start, independent, k, total, Ghost(plan));
        if independent.is_some() {
            ctxs = SliceContexts::init(SLICE_QP);
            cur_slice_start = start;
        }
        let mut cabac = CabacEncoder::new();
        let ghost first = SliceState::of(cabac, w@, ctxs@);
        assert(first =~= segment_start(opts@, plan, k as int, total as int, entry_ctxs));
        let ghost done = ctbs_coded(pl, opts@, first, cur_slice_start as int, start as int, end as int);
        let mut addr: usize = start;
        while addr < end
            invariant
                start <= addr <= end,
                end <= total,
                pl == (Planes { y: y@, cb: cb@, cr: cr@, width: width as int, height: height as int }),
                pl.wf(),
                width * height <= usize::MAX,
                ctbs_x == width / 16,
                ctbs_y == height / 16,
                ctbs_x > 0,
                total == ctbs_x * ctbs_y,
                sao == sao_on(opts@),
                w.wf(),
                cabac.wf(),
                ctxs.wf(),
                ctbs_coded(
                    pl,
                    opts@,
                    SliceState::of(cabac, w@, ctxs@),
                    cur_slice_start as int,
                    addr as int,
                    end as int,
                ) == done,
            decreases end - addr,
        {
            let rx: usize = addr % ctbs_x;
            let ry: usize = addr / ctbs_x;
            let ghost entry = SliceState::of(cabac, w@, ctxs@);
            proof {
                lemma_ungrid(addr as int, ctbs_x as int, ctbs_y as int);
            }
            if sao {
                // Decline the available merges: left and above must lie in the
                // same slice.
                let left: bool = rx > 0 && addr > cur_slice_start;
                let mut up: bool = false;
                if ry > 0 {
                    assert(addr >= ctbs_x) by (nonlinear_arith)
                        requires
                            addr == ry * ctbs_x + rx,
                            ry >= 1,
                            rx >= 0,
                            ctbs_x >= 0,
                    ;
                    up = addr - ctbs_x >= cur_slice_start;
                }
                let bins: Vec<Bin> = sao_syntax(opts.sao_luma_band, left, up);
                code_bins(&mut w, &mut cabac, &mut ctxs, bins.as_slice());
            }
            let ghost with_sao = SliceState::of(cabac, w@, ctxs@);
            assert(with_sao =~= entry.with(ctb_sao_bins(opts@, ctbs_x as int, cur_slice_start as int, addr as int)));
            write_pcm_ctu(&mut w, &mut cabac, &mut ctxs, y, cb, cr, width, rx, ry, Ghost(pl));
            let ghost with_pcm = SliceState::of(cabac, w@, ctxs@);
            let stop: [Bin; 1] = [Bin::Terminate { end: addr == end - 1 }];
            assert(stop@ =~= seq![Bin::Terminate { end: addr == end - 1 }]);
            code_bins(&mut w, &mut cabac, &mut ctxs, stop.as_slice());
            assert(SliceState::of(cabac, w@, ctxs@) =~= with_pcm.with(seq![Bin::Terminate { end: addr == end - 1 }]));
            addr = addr + 1;
        }
        // The final flush wrote the stop bit; alignment zeros follow.
        w.align_zero();
        out.push(w.finish());
        proof {
            assert(payloads(out@) =~= before.push(pack(aligned(done.coder.out))));
            assert(slice_start_of(plan, k as int, entry_start) == cur_slice_start);
        }
        k = k + 1;
    }
    out
}

/// How many coded bytes `bytes` take when `zero_run` zeros precede them, and how
/// many zeros they end in.
pub open spec fn coded_len(bytes: Seq<u8>, zero_run: nat) -> (nat, nat)
    decreases bytes.len(),
{
    if bytes.len() == 0 {
        (0, zero_run)
    } else {
        let (len, run) = coded_len(bytes.drop_last(), zero_run);
        let b = bytes.last();
        let stuffed = run >= 2 && b <= 3;
        (
            len + if stuffed {
                2nat
            } else {
                1nat
            },
            if b != 0 {
                0
            } else if stuffed {
                1
            } else {
                run + 1
            },
        )
    }
}

/// The coded (emulation-prevention-escaped) length of `bytes`, given the zero run
/// carried in from the preceding coded bytes, and the zero run carried out.
pub fn escaped_len(bytes: &[u8], zero_run: u32) -> (r: (usize, u32))
    requires
        2 * bytes@.len() <= usize::MAX,
        zero_run <= 2,
    ensures
        coded_len(bytes@, zero_run as nat) == (r.0 as nat, r.1 as nat),
        r.1 <= 2,
        bytes@.len() <= r.0 <= 2 * bytes@.len(),
{
    let mut len: usize = 0;
    let mut run: u32 = zero_run;
    let mut i: usize = 0;
    while i < bytes.len()
        invariant
            i <= bytes@.len(),
            run <= 2,
            i <= len <= 2 * i,
            2 * bytes@.len() <= usize::MAX,
            coded_len(bytes@.take(i as int), zero_run as nat) == (len as nat, run as nat),
        decreases bytes.len() - i,
    {
        let b: u8 = bytes[i];
        assert(bytes@.take(i + 1).drop_last() =~= bytes@.take(i as int));
        if run >= 2 && b <= 0x03 {
            len = len + 1;
            run = 0;
        }
        len = len + 1;
        if b == 0 {
            run = run + 1;
        } else {
            run = 0;
        }
        i = i + 1;
    }
    assert(bytes@.take(i as int) =~= bytes@);
    (len, run)
}

/// The coded length is the number of bytes by which the escaped payload grows:
/// entry point offsets count what stands in the stream.
pub proof fn law_coded_len_counts_escaped_bytes(before: Seq<u8>, bytes: Seq<u8>)
    ensures
        ({
            let (out, run) = crate::nal::escaping(before);
            let (len, after) = coded_len(bytes, run);
            &&& crate::nal::escaping(before + bytes).0.len() == out.len() + len
            &&& crate::nal::escaping(before + bytes).1 == after
        }),
    decreases bytes.len(),
{
    if bytes.len() == 0 {
        assert(before + bytes =~= before);
    } else {
        assert((before + bytes).drop_last() =~= before + bytes.drop_last());
        law_coded_len_counts_escaped_bytes(before, bytes.drop_last());
    }
}

/// A tile of a uniform grid: CTB columns `x0..x1` and rows `y0..y1`.
pub struct Tile {
    pub x0: int,
    pub x1: int,
    pub y0: int,
    pub y1: int,
}

impl Tile {
    pub open spec fn columns(self) -> int {
        self.x1 - self.x0
    }

    pub open spec fn ctbs(self) -> int {
        (self.x1 - self.x0) * (self.y1 - self.y0)
    }
}

/// Tile `k` of a uniform grid, in raster order: column `i` of `n` starts at
/// `i * size / n`.
pub open spec fn tile_of(pl: Planes, cols: int, rows: int, k: int) -> Tile {
    let c = k % cols;
    let r = k / cols;
    let w = pl.width / 16;
    let h = pl.height / 16;
    Tile { x0: c * w / cols, x1: (c + 1) * w / cols, y0: r * h / rows, y1: (r + 1) * h / rows }
}

/// CTBs `t` on of a tile, in raster order inside it. The last one of the picture
/// ends the segment.
pub open spec fn tile_ctbs_coded(pl: Planes, tile: Tile, s: SliceState, t: int, last_tile: bool) -> SliceState
    decreases tile.ctbs() - t,
{
    if t >= tile.ctbs() {
        s
    } else {
        let coded = s.with_pcm(pl.samples(tile.x0 + t % tile.columns(), tile.y0 + t / tile.columns())).with(
            seq![Bin::Terminate { end: last_tile && t == tile.ctbs() - 1 }],
        );
        tile_ctbs_coded(pl, tile, coded, t + 1, last_tile)
    }
}

/// The coded subset of a tile: fresh context variables and engine, and behind
/// every tile but the last `end_of_subset_one_bit`.
pub open spec fn tile_subset(pl: Planes, tile: Tile, last_tile: bool) -> Seq<u8> {
    let s = tile_ctbs_coded(
        pl,
        tile,
        SliceState { coder: Coder::start(Seq::empty()), ctxs: initial_contexts(SLICE_QP as int) },
        0,
        last_tile,
    );
    let end = if last_tile {
        s
    } else {
        s.with(seq![Bin::Terminate { end: true }])
    };
    pack(aligned(end.coder.out))
}

/// The subsets of all tiles, in tile scan.
pub open spec fn tile_subsets(pl: Planes, cols: int, rows: int) -> Seq<Seq<u8>> {
    Seq::new(
        (cols * rows) as nat,
        |k: int| tile_subset(pl, tile_of(pl, cols, rows, k), k == cols * rows - 1),
    )
}

/// `entry_point_offset_minus1[]`: the coded length of each subset but the last,
/// minus one. Zero runs thread across subset boundaries.
pub open spec fn entry_points(subsets: Seq<Seq<u8>>, n: nat) -> (Seq<nat>, nat)
    decreases n,
{
    if n == 0 {
        (Seq::empty(), 0)
    } else {
        let (offsets, run) = entry_points(subsets, (n - 1) as nat);
        let (len, after) = coded_len(subsets[n - 1], run);
        (offsets.push((len - 1) as nat), after)
    }
}

/// How many bits the widest offset takes.
pub open spec fn offset_bits(offsets: Seq<nat>, n: nat) -> int
    decreases n,
{
    if n == 0 {
        1
    } else {
        max(offset_bits(offsets, (n - 1) as nat), digits(offsets[n - 1]) as int)
    }
}

/// The offsets as fixed-length fields behind `b`.
pub open spec fn offsets_behind(b: Seq<bool>, offsets: Seq<nat>, bits: nat, n: nat) -> Seq<bool>
    decreases n,
{
    if n == 0 {
        b
    } else {
        offsets_behind(b, offsets, bits, (n - 1) as nat) + be_bits(offsets[n - 1], bits)
    }
}

/// The header of a tiled slice.
pub open spec fn tiled_header(opts: Shape, offsets: Seq<nat>) -> Seq<bool> {
    let head = Seq::<bool>::empty().push(true).push(false) + ue_bits(0) + ue_bits(2) + se_bits(SLICE_QP - 26);
    let filtered = if opts.deblocking {
        head.push(true)
    } else {
        head
    };
    let counted = filtered + ue_bits(offsets.len());
    let bits = offset_bits(offsets, offsets.len());
    let listed = if offsets.len() > 0 {
        offsets_behind(counted + ue_bits((bits - 1) as nat), offsets, bits as nat, offsets.len())
    } else {
        counted
    };
    aligned(listed.push(true))
}

/// Byte strings one after another.
pub open spec fn joined(parts: Seq<Seq<u8>>, n: nat) -> Seq<u8>
    decreases n,
{
    if n == 0 {
        Seq::empty()
    } else {
        joined(parts, (n - 1) as nat) + parts[n - 1]
    }
}

/// The payload of a tiled slice.
pub open spec fn tiled_slice(pl: Planes, opts: Shape, cols: int, rows: int) -> Seq<u8> {
    let subsets = tile_subsets(pl, cols, rows);
    let offsets = entry_points(subsets, (subsets.len() - 1) as nat).0;
    pack(tiled_header(opts, offsets) + bytes_bits(joined(subsets, subsets.len())))
}

/// The bits written and those still outstanding.
pub open spec fn span(c: Coder) -> nat {
    c.out.len() + c.outstanding
}

/// Scaling up adds at most one bit a step.
proof fn lemma_renorm_span(c: Coder, n: nat)
    requires
        c.range >= 1,
        c.range * pow2(n) >= 256,
    ensures
        span(c.renorm()) <= span(c) + n,
    decreases n,
{
    if c.range < 256 {
        lemma2_to64();
        if n == 0 {
            assert(c.range * 1 < 256);
        } else {
            vstd::arithmetic::power2::lemma_pow2_unfold(n);
            let p = pow2((n - 1) as nat) as int;
            assert(c.range * (2 * p) == (2 * c.range) * p) by (nonlinear_arith);
            lemma_renorm_span(c.shift(), (n - 1) as nat);
        }
    }
}

pub(crate) proof fn lemma_bin_span(c: Coder, ctxs: Seq<ContextModel>, b: Bin)
    requires
        c.wf(),
        contexts_wf(ctxs),
        b matches Bin::Decision { ctx, bin } ==> ctx < ctxs.len(),
        !(b is Bypass),
    ensures
        span(encode_bins(c, ctxs, seq![b])) <= span(c) + 10,
        b != (Bin::Terminate { end: true }) ==> span(encode_bins(c, ctxs, seq![b])) <= span(c) + 7,
        b == (Bin::Terminate { end: true }) ==> encode_bins(c, ctxs, seq![b]).outstanding == 0,
{
    lemma2_to64();
    reveal_with_fuel(encode_bins, 2);
    assert(seq![b].skip(1).len() == 0);
    let d = crate::bins::encode_bin(c, ctxs, b);
    assert(encode_bins(c, ctxs, seq![b]) == d);
    match b {
        Bin::Decision { ctx, bin } => {
            let m = ctxs[ctx as int];
            crate::cabac::lemma_lps_range(m, c.range as int);
            let lps = crate::cabac::lps_range(m, c.range as int);
            lemma_renorm_span(c.narrowed(0, c.range - lps), 7);
            lemma_renorm_span(c.narrowed(c.range - lps, lps), 7);
        },
        Bin::Bypass { bit } => {},
        Bin::Terminate { end } => {
            lemma_renorm_span(c.narrowed(0, c.range - 2), 7);
            let n = c.narrowed(c.range - 2, 2);
            assert(Coder { range: 2, ..n } == n);
            lemma_renorm_span(n, 7);
        },
    }
}

/// A PCM coding unit adds its samples and a few bits.
pub(crate) proof fn lemma_pcm_span(s: SliceState, samples: Seq<u8>)
    requires
        s.coder.wf(),
        contexts_wf(s.ctxs),
        s.ctxs.len() == CONTEXTS,
        samples.len() == 384,
    ensures
        span(s.with_pcm(samples).coder) <= span(s.coder) + 3096,
{
    let b0 = decision_bin(CTX_PART_MODE as int, 0, true);
    let b1 = Bin::Terminate { end: true };
    let c1 = encode_bins(s.coder, s.ctxs, seq![b0]);
    let m1 = contexts_after_all(s.ctxs, seq![b0]);
    assert(pcm_bins() =~= seq![b0] + seq![b1]);
    crate::bins::lemma_encode_bins_concat(s.coder, s.ctxs, seq![b0], seq![b1]);
    lemma_bin_span(s.coder, s.ctxs, b0);
    reveal_with_fuel(encode_bins, 2);
    assert(seq![b0].skip(1).len() == 0);
    crate::cabac_encoder::lemma_decision_wf(s.coder, s.ctxs[CTX_PART_MODE as int], 1);
    crate::bins::lemma_contexts_after_all_wf(s.ctxs, seq![b0]);
    lemma_bin_span(c1, m1, b1);
}

/// The most blocks of a tile: its coded length, of at most 777 bytes a block, then fits a
/// 32-bit entry point.
pub const MAX_TILE_BLOCKS: usize = 5_500_000;

/// The most tiles whose entry points are listed.
pub const MAX_TILES: usize = 0x1000_0000;

/// The entry points of a tiled picture fit 32 bits: there are not too many, and the largest
/// tile of the uniform grid is not too large.
pub open spec fn tiles_fit(opts: Shape, width: int, height: int) -> bool {
    match opts.tiles {
        Some((cols, rows)) => {
            &&& cols * rows <= MAX_TILES
            &&& run_length(width / 16, cols as int) * run_length(height / 16, rows as int) <= MAX_TILE_BLOCKS
        },
        None => true,
    }
}

/// No part of a uniform grid is longer than its run length.
pub(crate) proof fn lemma_part_length(i: int, n: int, size: int)
    requires
        0 <= i < n,
        n <= size,
    ensures
        (i + 1) * size / n - i * size / n <= run_length(size, n),
{
    let (a, b) = (i * size, (i + 1) * size);
    assert(b == a + size) by (nonlinear_arith)
        requires
            a == i * size,
            b == (i + 1) * size,
    ;
    vstd::arithmetic::div_mod::lemma_fundamental_div_mod(a, n);
    vstd::arithmetic::div_mod::lemma_fundamental_div_mod(b, n);
    vstd::arithmetic::div_mod::lemma_fundamental_div_mod(size, n);
    let (qa, qb, q) = (a / n, b / n, size / n);
    let (ra, rb, r) = (a % n, b % n, size % n);
    assert(qb - qa <= q + if r != 0 {
        1int
    } else {
        0int
    }) by (nonlinear_arith)
        requires
            a == n * qa + ra,
            b == n * qb + rb,
            size == n * q + r,
            b == a + size,
            0 <= ra < n,
            0 <= rb < n,
            0 <= r < n,
    ;
}

pub(crate) proof fn lemma_uniform(i: int, n: int, size: int)
    requires
        0 <= i < n,
        n <= size,
    ensures
        0 <= i * size / n < (i + 1) * size / n <= size,
{
    let a = i * size;
    let b = (i + 1) * size;
    assert(b == a + size && 0 <= a && b <= n * size) by (nonlinear_arith)
        requires
            a == i * size,
            b == (i + 1) * size,
            0 <= i < n,
            n <= size,
    ;
    vstd::arithmetic::div_mod::lemma_fundamental_div_mod(a, n);
    vstd::arithmetic::div_mod::lemma_fundamental_div_mod(b, n);
    let qa = a / n;
    let qb = b / n;
    assert(0 <= qa < qb <= size) by (nonlinear_arith)
        requires
            a == n * qa + a % n,
            b == n * qb + b % n,
            0 <= a % n < n,
            0 <= b % n < n,
            b == a + size,
            a >= 0,
            b <= n * size,
            0 < n <= size,
    ;
}

fn uniform_boundary(i: usize, n: usize, size: usize) -> (b: usize)
    requires
        0 < n <= size,
        i <= n,
    ensures
        b == i * size / n as int,
{
    assert(0 <= i * size <= 0xffff_ffff_ffff_ffff * 0xffff_ffff_ffff_ffff) by (nonlinear_arith)
        requires
            0 <= i <= 0xffff_ffff_ffff_ffff,
            0 <= size <= 0xffff_ffff_ffff_ffff,
    ;
    proof {
        let q = (i * size) / n as int;
        vstd::arithmetic::div_mod::lemma_fundamental_div_mod(i * size, n as int);
        assert(0 <= q <= size) by (nonlinear_arith)
            requires
                i * size == n * q + (i * size) % n as int,
                0 <= (i * size) % n as int,
                (i * size) % n as int <= n - 1,
                0 <= i <= n,
                0 < n,
                0 <= size,
        ;
    }
    (i as u128 * size as u128 / n as u128) as usize
}

/// The coded subset of one tile.
fn write_tile_subset(
    y: &[u8],
    cb: &[u8],
    cr: &[u8],
    width: usize,
    x0: usize,
    x1: usize,
    y0: usize,
    y1: usize,
    last_tile: bool,
    Ghost(pl): Ghost<Planes>,
) -> (out: Vec<u8>)
    requires
        pl.wf(),
        pl.y == y@,
        pl.cb == cb@,
        pl.cr == cr@,
        pl.width == width,
        pl.width * pl.height <= usize::MAX,
        x0 < x1 <= pl.width / 16,
        y0 < y1 <= pl.height / 16,
        (x1 - x0) * (y1 - y0) <= MAX_TILE_BLOCKS,
    ensures
        out@ == tile_subset(
            pl,
            (Tile { x0: x0 as int, x1: x1 as int, y0: y0 as int, y1: y1 as int }),
            last_tile,
        ),
        0 < out@.len() < 0x8000_0000,
{
    let ghost tile = Tile { x0: x0 as int, x1: x1 as int, y0: y0 as int, y1: y1 as int };
    let mut w = BitWriter::new();
    let mut cabac = CabacEncoder::new();
    let mut ctxs = SliceContexts::init(SLICE_QP);
    let columns: usize = x1 - x0;
    let rows: usize = y1 - y0;
    assert(columns * rows >= 1) by (nonlinear_arith)
        requires
            1 <= columns,
            1 <= rows,
    ;
    let count: usize = columns * rows;
    let ghost start = SliceState::of(cabac, w@, ctxs@);
    let ghost goal = tile_ctbs_coded(pl, tile, start, 0, last_tile);
    assert(start =~= (SliceState {
        coder: Coder::start(Seq::empty()),
        ctxs: initial_contexts(SLICE_QP as int),
    }));
    let mut t: usize = 0;
    while t < count
        invariant
            t <= count,
            count == columns * rows,
            count <= MAX_TILE_BLOCKS,
            columns == x1 - x0,
            rows == y1 - y0,
            columns >= 1,
            tile == (Tile { x0: x0 as int, x1: x1 as int, y0: y0 as int, y1: y1 as int }),
            pl.wf(),
            pl.y == y@,
            pl.cb == cb@,
            pl.cr == cr@,
            pl.width == width,
            pl.width * pl.height <= usize::MAX,
            x1 <= pl.width / 16,
            y1 <= pl.height / 16,
            w.wf(),
            cabac.wf(),
            ctxs.wf(),
            tile_ctbs_coded(pl, tile, SliceState::of(cabac, w@, ctxs@), t as int, last_tile) == goal,
            span(coder(cabac, w@)) <= 3106 * t,
            t > 0 ==> w@.len() > 0,
        decreases count - t,
    {
        let dx: usize = t % columns;
        let dy: usize = t / columns;
        proof {
            lemma_ungrid(t as int, columns as int, rows as int);
        }
        let ghost entry = SliceState::of(cabac, w@, ctxs@);
        let ghost samples = pl.samples(tile.x0 + t as int % tile.columns(), tile.y0 + t as int / tile.columns());
        write_pcm_ctu(&mut w, &mut cabac, &mut ctxs, y, cb, cr, width, x0 + dx, y0 + dy, Ghost(pl));
        let ghost with_pcm = SliceState::of(cabac, w@, ctxs@);
        let stop: [Bin; 1] = [Bin::Terminate { end: last_tile && t == count - 1 }];
        assert(stop@ =~= seq![Bin::Terminate { end: last_tile && t == count - 1 }]);
        proof {
            lemma_pcm_span(entry, samples);
            lemma_bin_span(with_pcm.coder, with_pcm.ctxs, stop@[0]);
        }
        code_bins(&mut w, &mut cabac, &mut ctxs, stop.as_slice());
        proof {
            assert(SliceState::of(cabac, w@, ctxs@) =~= with_pcm.with(stop@));
            lemma_out_grows(with_pcm.coder, with_pcm.ctxs, stop@[0]);
        }
        t = t + 1;
    }
    if !last_tile {
        let stop: [Bin; 1] = [Bin::Terminate { end: true }];
        assert(stop@ =~= seq![Bin::Terminate { end: true }]);
        let ghost before = SliceState::of(cabac, w@, ctxs@);
        proof {
            lemma_bin_span(before.coder, before.ctxs, stop@[0]);
            lemma_out_grows(before.coder, before.ctxs, stop@[0]);
        }
        code_bins(&mut w, &mut cabac, &mut ctxs, stop.as_slice());
        assert(SliceState::of(cabac, w@, ctxs@) =~= before.with(stop@));
    }
    w.align_zero();
    proof {
        crate::bits::lemma_pack_bits(w@);
    }
    w.finish()
}

/// A bin never takes bits back.
proof fn lemma_out_grows(c: Coder, ctxs: Seq<ContextModel>, b: Bin)
    requires
        !(b is Bypass),
    ensures
        encode_bins(c, ctxs, seq![b]).out.len() >= c.out.len(),
{
    reveal_with_fuel(encode_bins, 2);
    assert(seq![b].skip(1).len() == 0);
    match b {
        Bin::Decision { ctx, bin } => {
            let lps = crate::cabac::lps_range(ctxs[ctx as int], c.range as int);
            lemma_renorm_grows(c.narrowed(0, c.range - lps));
            lemma_renorm_grows(c.narrowed(c.range - lps, lps));
        },
        Bin::Bypass { bit } => {},
        Bin::Terminate { end } => {
            lemma_renorm_grows(c.narrowed(0, c.range - 2));
            let n = c.narrowed(c.range - 2, 2);
            assert(Coder { range: 2, ..n } == n);
            lemma_renorm_grows(n);
        },
    }
}

proof fn lemma_renorm_grows(c: Coder)
    ensures
        c.renorm().out.len() >= c.out.len(),
    decreases 512 - c.range,
{
    if 0 < c.range < 256 {
        lemma_renorm_grows(c.shift());
    }
}

/// The values of the offsets.
spec fn offset_view(v: Seq<u32>) -> Seq<nat> {
    Seq::new(v.len(), |i: int| v[i] as nat)
}

proof fn lemma_entry_points_prefix(a: Seq<Seq<u8>>, n: nat)
    ensures
        entry_points(a, n).0.len() == n,
    decreases n,
{
    if n > 0 {
        lemma_entry_points_prefix(a, (n - 1) as nat);
    }
}

/// The header of a tiled slice, with the entry points.
fn write_tiled_header(opts: &PcmAuOptions, offsets: &Vec<u32>) -> (h: BitWriter)
    requires
        offsets@.len() <= 0x1000_0000,
    ensures
        h.wf(),
        h@ == tiled_header(opts@, offset_view(offsets@)),
        h@.len() % 8 == 0,
{
    let ghost os = offset_view(offsets@);
    let mut offset_len: u8 = 1;
    let mut i: usize = 0;
    while i < offsets.len()
        invariant
            i <= offsets@.len(),
            os == offset_view(offsets@),
            offset_len == offset_bits(os, i as nat),
            1 <= offset_len <= 32,
        decreases offsets.len() - i,
    {
        let n: u8 = if offsets[i] == 0 {
            0
        } else {
            bit_width(offsets[i])
        };
        assert(os[i as int] == offsets@[i as int] as nat);
        assert(n == digits(os[i as int]));
        if n > offset_len {
            offset_len = n;
        }
        i = i + 1;
    }
    let mut h = BitWriter::new();
    h.put_bit(1);  // first_slice_segment_in_pic_flag
    h.put_bit(0);  // no_output_of_prior_pics_flag
    h.ue(0);  // slice_pic_parameter_set_id
    h.ue(2);  // slice_type = I
    h.se(SLICE_QP - 26);  // slice_qp_delta
    if opts.deblocking {
        h.put_bit(1);  // slice_loop_filter_across_slices_enabled_flag
    }
    h.ue(offsets.len() as u32);  // num_entry_point_offsets
    if offsets.len() > 0 {
        h.ue(offset_len as u32 - 1);  // offset_len_minus1
        let ghost base = h@;
        let mut j: usize = 0;
        while j < offsets.len()
            invariant
                j <= offsets@.len(),
                os == offset_view(offsets@),
                1 <= offset_len <= 32,
                h.wf(),
                h@ == offsets_behind(base, os, offset_len as nat, j as nat),
            decreases offsets.len() - j,
        {
            assert(os[j as int] == offsets@[j as int] as nat);
            h.put_bits(offsets[j], offset_len);  // entry_point_offset_minus1[ j ]
            j = j + 1;
        }
    }
    h.rbsp_trailing_bits();  // byte_alignment() before slice data
    h
}

/// The tiled picture as one independent intra slice segment whose CTBs walk the
/// tile scan. Every tile is its own subset, and the slice header lists where each
/// starts, in coded bytes.
fn write_tiled_idr_slice(
    y: &[u8],
    cb: &[u8],
    cr: &[u8],
    width: usize,
    height: usize,
    opts: &PcmAuOptions,
    cols: u32,
    rows: u32,
    Ghost(pl): Ghost<Planes>,
) -> (out: Vec<u8>)
    requires
        pl == (Planes { y: y@, cb: cb@, cr: cr@, width: width as int, height: height as int }),
        pl.wf(),
        width * height <= usize::MAX,
        0 < cols <= width / 16,
        0 < rows <= height / 16,
        2 <= cols * rows <= MAX_TILES,
        run_length(width as int / 16, cols as int) * run_length(height as int / 16, rows as int) <= MAX_TILE_BLOCKS,
    ensures
        out@ == tiled_slice(pl, opts@, cols as int, rows as int),
{
    let ctbs_x: usize = width / CTB;
    let ctbs_y: usize = height / CTB;
    let c: usize = cols as usize;
    let r: usize = rows as usize;
    let total: usize = c * r;
    let ghost goal = tile_subsets(pl, cols as int, rows as int);

    // slice_segment_data(), one coded subset per tile
    let mut subsets: Vec<Vec<u8>> = Vec::new();
    let mut k: usize = 0;
    while k < total
        invariant
            k <= total,
            total == c * r,
            total == cols * rows,
            c == cols,
            r == rows,
            total <= MAX_TILES,
            pl == (Planes { y: y@, cb: cb@, cr: cr@, width: width as int, height: height as int }),
            pl.wf(),
            width * height <= usize::MAX,
            ctbs_x == width / 16,
            ctbs_y == height / 16,
            1 <= c <= ctbs_x,
            1 <= r <= ctbs_y,
            run_length(width as int / 16, cols as int) * run_length(height as int / 16, rows as int) <= MAX_TILE_BLOCKS,
            goal == tile_subsets(pl, cols as int, rows as int),
            contents(subsets@) == goal.take(k as int),
            forall|j: int| 0 <= j < k ==> 0 < (#[trigger] subsets@[j])@.len() < 0x8000_0000,
        decreases total - k,
    {
        let tc: usize = k % c;
        let tr: usize = k / c;
        proof {
            lemma_ungrid(k as int, c as int, r as int);
            lemma_uniform(tc as int, c as int, ctbs_x as int);
            lemma_uniform(tr as int, r as int, ctbs_y as int);
        }
        let x0: usize = uniform_boundary(tc, c, ctbs_x);
        let x1: usize = uniform_boundary(tc + 1, c, ctbs_x);
        let y0: usize = uniform_boundary(tr, r, ctbs_y);
        let y1: usize = uniform_boundary(tr + 1, r, ctbs_y);
        proof {
            lemma_part_length(tc as int, c as int, ctbs_x as int);
            lemma_part_length(tr as int, r as int, ctbs_y as int);
            let (a, b) = (run_length(ctbs_x as int, c as int), run_length(ctbs_y as int, r as int));
            assert((x1 - x0) * (y1 - y0) <= a * b) by (nonlinear_arith)
                requires
                    0 <= x1 - x0 <= a,
                    0 <= y1 - y0 <= b,
            ;
        }
        let subset: Vec<u8> = write_tile_subset(y, cb, cr, width, x0, x1, y0, y1, k == total - 1, Ghost(pl));
        assert(subset@ == goal[k as int]);
        let ghost before = subsets@;
        subsets.push(subset);
        proof {
            lemma_contents_push(before, subset);
            assert(goal.take(k + 1) =~= goal.take(k as int).push(goal[k as int]));
        }
        k = k + 1;
    }
    assert(goal.take(total as int) =~= goal);
    assert(contents(subsets@) == goal);

    // entry_point_offset_minus1[ i ] counts coded bytes; the zero run threads
    // across subset boundaries. The header's last byte is nonzero, so the first
    // subset starts with no zeros before it.
    let mut offsets: Vec<u32> = Vec::new();
    let mut zero_run: u32 = 0;
    let mut i: usize = 0;
    assert(offset_view(offsets@) =~= Seq::<nat>::empty());
    while i < total - 1
        invariant
            i <= total - 1,
            2 <= total <= MAX_TILES,
            subsets@.len() == total,
            contents(subsets@) == goal,
            zero_run <= 2,
            forall|j: int| 0 <= j < total ==> 0 < (#[trigger] subsets@[j])@.len() < 0x8000_0000,
            offsets@.len() == i,
            entry_points(goal, i as nat) == (offset_view(offsets@), zero_run as nat),
        decreases total - i,
    {
        assert(goal[i as int] == subsets@[i as int]@);
        let (len, run) = escaped_len_fits(subsets[i].as_slice(), zero_run);
        let ghost before = offset_view(offsets@);
        zero_run = run;
        offsets.push((len - 1) as u32);
        assert(offset_view(offsets@) =~= before.push((len - 1) as nat));
        i = i + 1;
    }
    let mut h: BitWriter = write_tiled_header(opts, &offsets);
    let ghost head = h@;
    let mut j: usize = 0;
    assert(h@ =~= head + bytes_bits(joined(goal, 0)));
    while j < total
        invariant
            j <= total,
            subsets@.len() == total,
            contents(subsets@) == goal,
            h.wf(),
            h@ == head + bytes_bits(joined(goal, j as nat)),
        decreases total - j,
    {
        assert(goal[j as int] == subsets@[j as int]@);
        h.put_bytes(subsets[j].as_slice());
        proof {
            crate::bits::lemma_bytes_bits_concat(joined(goal, j as nat), goal[j as int]);
            assert(h@ =~= head + bytes_bits(joined(goal, (j + 1) as nat)));
        }
        j = j + 1;
    }
    h.finish()
}

/// [`escaped_len`] of a subset whose length fits 31 bits.
fn escaped_len_fits(bytes: &[u8], zero_run: u32) -> (r: (u64, u32))
    requires
        0 < bytes@.len() < 0x8000_0000,
        zero_run <= 2,
    ensures
        coded_len(bytes@, zero_run as nat) == (r.0 as nat, r.1 as nat),
        r.1 <= 2,
        0 < r.0 <= 0xffff_ffff,
{
    let (len, run) = escaped_len(bytes, zero_run);
    (len as u64, run)
}

proof fn lemma_contents_push(v: Seq<Vec<u8>>, u: Vec<u8>)
    ensures
        contents(v.push(u)) == contents(v).push(u@),
{
    assert(contents(v.push(u)) =~= contents(v).push(u@));
}

/// What refuses a picture, if anything: its dimensions, the options, then the
/// planes in order.
pub open spec fn pcm_error(
    opts: Shape,
    width: usize,
    height: usize,
    y: nat,
    cb: nat,
    cr: nat,
) -> Option<PcmEncodeError> {
    let luma = width * height;
    if !dimensions_ok(width as int, height as int) || !options_ok(opts, width as int, height as int) {
        Some(PcmEncodeError::BadDimensions { width, height })
    } else if y != luma {
        Some(PcmEncodeError::PlaneSize { plane: "y", expected: luma as usize, got: y as usize })
    } else if cb != luma / 4 {
        Some(PcmEncodeError::PlaneSize { plane: "cb", expected: (luma / 4) as usize, got: cb as usize })
    } else if cr != luma / 4 {
        Some(PcmEncodeError::PlaneSize { plane: "cr", expected: (luma / 4) as usize, got: cr as usize })
    } else {
        None
    }
}

/// The level that covers the picture and its tiles.
pub open spec fn level_of(opts: Shape, luma: int) -> u8 {
    match opts.tiles {
        Some((c, r)) => max(level_for(luma) as int, level_for_tiles(c as int, r as int) as int) as u8,
        None => level_for(luma),
    }
}

/// The slice payloads of a picture.
pub open spec fn slice_payloads(pl: Planes, opts: Shape) -> Seq<Seq<u8>> {
    match opts.tiles {
        Some((c, r)) => seq![tiled_slice(pl, opts, c as int, r as int)],
        None => slice_segments(pl, opts),
    }
}

/// Coded NAL units of type `nal_unit_type` around payloads.
pub open spec fn units_around(nal_unit_type: int, rbsps: Seq<Seq<u8>>) -> Seq<Seq<u8>> {
    Seq::new(rbsps.len(), |i: int| unit_bytes(nal_unit_type, 0, 0, rbsps[i]))
}

/// The NAL units of an access unit: VPS, SPS, PPS, then the slice segments.
pub open spec fn pcm_units(pl: Planes, opts: Shape, width: usize, height: usize) -> Seq<Seq<u8>> {
    parameter_set_units(opts, width, height) + units_around(20, slice_payloads(pl, opts))
}

/// The machine limits of an access unit: sample counts fit a `usize`, and where the
/// picture is not refused, segment addresses and entry points fit 32 bits.
pub open spec fn au_fits(opts: Shape, width: usize, height: usize, y: nat, cb: nat, cr: nat) -> bool {
    dimensions_ok(width as int, height as int) ==> {
        &&& width * height <= usize::MAX
        &&& pcm_error(opts, width, height, y, cb, cr) is None ==> segments_fit(opts, width as int, height as int) && tiles_fit(
            opts,
            width as int,
            height as int,
        )
    }
}

/// What encoding a picture gives: the refusal, or the stream of its NAL units.
pub open spec fn au_outcome(
    opts: Shape,
    y: Seq<u8>,
    cb: Seq<u8>,
    cr: Seq<u8>,
    width: usize,
    height: usize,
) -> Result<Seq<u8>, PcmEncodeError> {
    match pcm_error(opts, width, height, y.len(), cb.len(), cr.len()) {
        Some(e) => Err(e),
        None => Ok(
            stream_of(
                pcm_units(
                    Planes { y, cb, cr, width: width as int, height: height as int },
                    opts,
                    width,
                    height,
                ),
            ),
        ),
    }
}

/// The contents of a result.
pub open spec fn result_view(r: Result<Vec<u8>, PcmEncodeError>) -> Result<Seq<u8>, PcmEncodeError> {
    match r {
        Ok(v) => Ok(v@),
        Err(e) => Err(e),
    }
}

/// Encode one 4:2:0 8-bit frame as a self-contained IDR access unit (VPS, SPS, PPS
/// and IDR slice in Annex B form). Decoding is bit-exact.
pub fn encode_idr_pcm_au(y: &[u8], cb: &[u8], cr: &[u8], width: usize, height: usize) -> (r: Result<
    Vec<u8>,
    PcmEncodeError,
>)
    requires
        dimensions_ok(width as int, height as int) ==> width * height <= usize::MAX,
    ensures
        result_view(r) == au_outcome(even_shape(1), y@, cb@, cr@, width, height),
{
    encode_au(y, cb, cr, width, height, PcmAuOptions::default())
}

/// As [`encode_idr_pcm_au`], with the picture split into `segments` slice segments:
/// the first independent, the rest dependent.
pub fn encode_idr_pcm_au_segmented(
    y: &[u8],
    cb: &[u8],
    cr: &[u8],
    width: usize,
    height: usize,
    segments: usize,
) -> (r: Result<Vec<u8>, PcmEncodeError>)
    requires
        au_fits(even_shape(segments), width, height, y@.len(), cb@.len(), cr@.len()),
    ensures
        result_view(r) == au_outcome(even_shape(segments), y@, cb@, cr@, width, height),
{
    let mut opts = PcmAuOptions::default();
    opts.segments = segments;
    assert(opts@ =~= even_shape(segments));
    encode_au(y, cb, cr, width, height, opts)
}

/// As [`encode_idr_pcm_au`], with full control of the shape.
pub fn encode_idr_pcm_au_opts(
    y: &[u8],
    cb: &[u8],
    cr: &[u8],
    width: usize,
    height: usize,
    opts: PcmAuOptions,
) -> (r: Result<Vec<u8>, PcmEncodeError>)
    requires
        au_fits(opts@, width, height, y@.len(), cb@.len(), cr@.len()),
    ensures
        result_view(r) == au_outcome(opts@, y@, cb@, cr@, width, height),
{
    encode_au(y, cb, cr, width, height, opts)
}

/// Whether the independent slices are in order and inside the picture.
fn check_starts(slices: &Vec<(usize, bool)>, total: usize) -> (b: bool)
    ensures
        b == starts_ok(slices@, total as int),
{
    if slices.len() > 0 && slices[0].0 != 0 {
        return false;
    }
    let mut i: usize = 0;
    while i < slices.len()
        invariant
            i <= slices@.len(),
            slices@.len() > 0 ==> slices@[0].0 == 0,
            forall|a: int, b: int| 0 <= a < b < i ==> (#[trigger] slices@[a]).0 < (#[trigger] slices@[b]).0,
            forall|j: int| 0 <= j < i ==> (#[trigger] slices@[j]).0 < total,
        decreases slices.len() - i,
    {
        if slices[i].0 >= total {
            assert(!(slices@[i as int].0 < total));
            return false;
        }
        if i > 0 && slices[i].0 <= slices[i - 1].0 {
            assert(!(slices@[i - 1].0 < slices@[i as int].0));
            return false;
        }
        proof {
            assert forall|a: int, b: int| 0 <= a < b < i + 1 implies (#[trigger] slices@[a]).0 < (#[trigger] slices@[b]).0 by {
                if b == i && a < i - 1 {
                    assert(slices@[a].0 < slices@[i - 1].0);
                }
            }
        }
        i = i + 1;
    }
    true
}

/// Whether the options fit a picture of valid dimensions.
fn check_options(opts: &PcmAuOptions, width: usize, height: usize) -> (b: bool)
    requires
        dimensions_ok(width as int, height as int),
        width * height <= usize::MAX,
    ensures
        b == options_ok(opts@, width as int, height as int),
{
    let ctbs_x: usize = width / CTB;
    let ctbs_y: usize = height / CTB;
    assert(ctbs_x * ctbs_y <= width * height) by (nonlinear_arith)
        requires
            ctbs_x <= width,
            ctbs_y <= height,
    ;
    let total: usize = ctbs_x * ctbs_y;
    if opts.independent_slices.len() == 0 && (opts.segments == 0 || opts.segments > total) {
        return false;
    }
    if !check_starts(&opts.independent_slices, total) {
        return false;
    }
    if opts.sao_luma_band && opts.sao_luma_eo_vertical {
        return false;
    }
    if let Some((cols, rows)) = opts.tiles {
        let sao: bool = opts.sao_luma_band || opts.sao_luma_eo_vertical;
        assert(0 <= cols * rows <= 0xffff_ffff * 0xffff_ffff) by (nonlinear_arith)
            requires
                0 <= cols <= 0xffff_ffff,
                0 <= rows <= 0xffff_ffff,
        ;
        if cols == 0 || rows == 0 || (cols as u64 * rows as u64) < 2 || cols as usize > ctbs_x || rows as usize > ctbs_y
            || opts.segments != 1 || opts.independent_slices.len() != 0 || sao {
            return false;
        }
    }
    true
}

/// The parameter set units of an access unit.
pub open spec fn parameter_set_units(opts: Shape, width: usize, height: usize) -> Seq<Seq<u8>> {
    let level = level_of(opts, width * height);
    seq![
        unit_bytes(32, 0, 0, pack(vps_bits(level, 1, 0))),
        unit_bytes(33, 0, 0, pack(sps_bits(width, height, level, sao_on(opts), opts.pcm_loop_filter_disabled))),
        unit_bytes(34, 0, 0, pack(pps_bits(dependent_mode(opts), opts.deblocking, false, opts.tiles, false))),
    ]
}

fn parameter_units(opts: &PcmAuOptions, width: usize, height: usize) -> (units: Vec<Vec<u8>>)
    requires
        dimensions_ok(width as int, height as int),
        width * height <= usize::MAX,
        opts@.tiles matches Some((c, r)) ==> c >= 1 && r >= 1,
    ensures
        contents(units@) == parameter_set_units(opts@, width, height),
{
    let base: u8 = level_idc_for(width * height);
    let level_idc: u8 = match opts.tiles {
        Some((c, r)) => {
            let grid: u8 = level_idc_for_tiles(c, r);
            if grid > base {
                grid
            } else {
                base
            }
        },
        None => base,
    };
    assert(level_idc == level_of(opts@, width * height));
    let dependent: bool = opts.independent_slices.len() == 0 && opts.segments > 1;
    let sao: bool = opts.sao_luma_band || opts.sao_luma_eo_vertical;
    proof {
        assert(crate::parameter_sets::dimension_field(width) % 16 == 0);
        assert(crate::parameter_sets::dimension_field(height) % 16 == 0);
    }
    let vps: Vec<u8> = write_vps(level_idc);
    let vps_unit: Vec<u8> = nal_unit(32, 0, 0, vps.as_slice());  // VPS_NUT
    let sps: Vec<u8> = write_sps(width, height, level_idc, sao, opts.pcm_loop_filter_disabled);
    let sps_unit: Vec<u8> = nal_unit(33, 0, 0, sps.as_slice());  // SPS_NUT
    let pps: Vec<u8> = write_pps(dependent, opts.deblocking, opts.tiles);
    let pps_unit: Vec<u8> = nal_unit(34, 0, 0, pps.as_slice());  // PPS_NUT
    let mut units: Vec<Vec<u8>> = Vec::new();
    units.push(vps_unit);
    units.push(sps_unit);
    units.push(pps_unit);
    assert(contents(units@) =~= seq![vps_unit@, sps_unit@, pps_unit@]);
    units
}

/// Wrap payloads into NAL units and append them.
pub fn append_units(units: &mut Vec<Vec<u8>>, rbsps: &Vec<Vec<u8>>, nal_unit_type: u8)
    requires
        nal_unit_type < 64,
    ensures
        contents(final(units)@) == contents(old(units)@) + units_around(nal_unit_type as int, contents(rbsps@)),
{
    let ghost head = contents(units@);
    let ghost wrapped = units_around(nal_unit_type as int, contents(rbsps@));
    let mut i: usize = 0;
    assert(contents(units@) =~= head + wrapped.take(0));
    while i < rbsps.len()
        invariant
            i <= rbsps@.len(),
            nal_unit_type < 64,
            wrapped == units_around(nal_unit_type as int, contents(rbsps@)),
            contents(units@) == head + wrapped.take(i as int),
        decreases rbsps.len() - i,
    {
        let ghost before = units@;
        let unit: Vec<u8> = nal_unit(nal_unit_type, 0, 0, rbsps[i].as_slice());
        assert(contents(rbsps@)[i as int] == rbsps@[i as int]@);
        assert(unit@ == wrapped[i as int]);
        units.push(unit);
        proof {
            lemma_contents_push(before, unit);
            assert((head + wrapped.take(i as int)).push(wrapped[i as int]) =~= head + wrapped.take(i + 1));
        }
        i = i + 1;
    }
    assert(wrapped.take(i as int) =~= wrapped);
}

fn encode_au(y: &[u8], cb: &[u8], cr: &[u8], width: usize, height: usize, opts: PcmAuOptions) -> (r: Result<
    Vec<u8>,
    PcmEncodeError,
>)
    requires
        au_fits(opts@, width, height, y@.len(), cb@.len(), cr@.len()),
    ensures
        result_view(r) == au_outcome(opts@, y@, cb@, cr@, width, height),
{
    if width == 0 || height == 0 || width % CTB != 0 || height % CTB != 0 {
        return Err(PcmEncodeError::BadDimensions { width, height });
    }
    if !check_options(&opts, width, height) {
        return Err(PcmEncodeError::BadDimensions { width, height });
    }
    let luma: usize = width * height;
    if y.len() != luma {
        return Err(PcmEncodeError::PlaneSize { plane: "y", expected: luma, got: y.len() });
    }
    if cb.len() != luma / 4 {
        return Err(PcmEncodeError::PlaneSize { plane: "cb", expected: luma / 4, got: cb.len() });
    }
    if cr.len() != luma / 4 {
        return Err(PcmEncodeError::PlaneSize { plane: "cr", expected: luma / 4, got: cr.len() });
    }
    let ghost pl = Planes { y: y@, cb: cb@, cr: cr@, width: width as int, height: height as int };
    let mut units: Vec<Vec<u8>> = parameter_units(&opts, width, height);
    let rbsps: Vec<Vec<u8>> = match opts.tiles {
        Some((cols, rows)) => {
            let rbsp: Vec<u8> = write_tiled_idr_slice(y, cb, cr, width, height, &opts, cols, rows, Ghost(pl));
            let mut v: Vec<Vec<u8>> = Vec::new();
            v.push(rbsp);
            assert(contents(v@) =~= seq![rbsp@]);
            v
        },
        None => write_idr_slice_segments(y, cb, cr, width, height, &opts, Ghost(pl)),
    };
    assert(contents(rbsps@) == slice_payloads(pl, opts@));
    append_units(&mut units, &rbsps, 20);  // IDR_N_LP
    Ok(annexb(units.as_slice()))
}

} // verus!
