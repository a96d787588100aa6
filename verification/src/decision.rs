//! The decision pass of the residual writer: every coding unit's intra modes are
//! searched, its blocks coded, and the samples a decoder will hold are built up for
//! the units that follow.
use vstd::prelude::*;
use vstd::slice::slice_subrange;
use crate::cabac::clip3;
use crate::coded_block::{block_levels, code_residual, round_trip, CodedResidual, MAX_BLOCK_QP};
use crate::intra::{is_samples, is_side, predict, prediction, reference_samples, references, INTRA_DC};
use crate::modes::{
    candidate_modes, chroma_mode_bins, chroma_mode_bit_cost, chroma_mode_of, derive_intra_pred_mode_c,
    intra_luma_cand_mode_list, CHROMA_MODE_DERIVED,
};
use crate::picture::{Frame, ReconstructedPicture, SourcePlanes, MAX_SIDE};
use crate::rdcost::holds_block;
use crate::rdo::{
    intra_mode_bit_cost, lambda_of, lambda_q8, mode_bits, predictions_of, shortlist_intra_luma_modes, shortlist_of,
    DistortionBackend, IntraModeDecision,
};
use crate::bins::{lemma_appended, Bin};
use crate::residual::{has_coded_levels, write_residual_coding, ResidualWriteParams};
use crate::scan::area;
use crate::slice::{chroma_params, coded_bins, luma_params, records_of, CtbRecord, Record};
use crate::transform::{chroma_qp, chroma_qp_of, luma_qp, Component, PredMode};

verus! {

/// How many of the ranked modes are judged again on their quantized reconstruction.
pub const MODE_SHORTLIST: usize = 4;

/// What the intra decision optimizes.
#[derive(Clone, Copy, Debug, PartialEq, Eq, Structural)]
pub enum ModeSearch {
    /// Distortion against the signalling of the mode.
    Rdo,
    /// The same, with the bins of the residual charged too.
    RateDistortion,
    /// Every unit flat, chroma following luma.
    DcOnly,
}

/// Where a block stands in a plane.
pub struct Place {
    pub x0: int,
    pub y0: int,
    pub n: int,
}

/// The residual of a block against a prediction.
pub open spec fn residual_against(source: Seq<u8>, stride: int, at: Place, pred: Seq<i32>) -> Seq<i32> {
    Seq::new(
        (at.n * at.n) as nat,
        |i: int| (source[(at.y0 + i / at.n) * stride + (at.x0 + i % at.n)] - pred[i]) as i32,
    )
}

/// A coded block: its levels and the samples that a decoder will hold.
pub struct Coded {
    pub levels: Seq<i32>,
    pub samples: Seq<u8>,
}

/// A block coded against a prediction.
#[verifier::opaque]
pub open spec fn coded_against(
    source: Seq<u8>,
    stride: int,
    at: Place,
    q_p: int,
    component: Component,
    pred: Seq<i32>,
) -> Coded {
    let r = residual_against(source, stride, at, pred);
    let back = round_trip(r, at.n, q_p, component, PredMode::Intra);
    Coded {
        levels: block_levels(r, at.n, q_p, component, PredMode::Intra),
        samples: Seq::new((at.n * at.n) as nat, |i: int| clip3(0, 255, pred[i] + back[i]) as u8),
    }
}

/// Squared error of the first `k` samples of a block.
pub open spec fn squared_error(source: Seq<u8>, stride: int, at: Place, samples: Seq<u8>, k: nat) -> int
    decreases k,
{
    if k == 0 {
        0
    } else {
        let d = source[(at.y0 + (k - 1) / at.n) * stride + (at.x0 + (k - 1) % at.n)] - samples[k - 1];
        squared_error(source, stride, at, samples, (k - 1) as nat) + d * d
    }
}

/// A plane with the samples of a block written into it.
pub open spec fn written_back(plane: Seq<u8>, stride: int, at: Place, samples: Seq<u8>) -> Seq<u8> {
    Seq::new(
        plane.len(),
        |i: int| {
            let x = i % stride - at.x0;
            let y = i / stride - at.y0;
            if 0 <= x < at.n && 0 <= y < at.n {
                samples[y * at.n + x]
            } else {
                plane[i]
            }
        },
    )
}

/// The block lies inside a plane.
pub open spec fn place_fits(at: Place, stride: int, height: int, len: int) -> bool {
    &&& is_side(at.n)
    &&& 0 < stride <= MAX_SIDE
    &&& 0 < height <= MAX_SIDE
    &&& len == stride * height
    &&& 0 <= at.x0
    &&& 0 <= at.y0
    &&& at.x0 + at.n <= stride
    &&& at.y0 + at.n <= height
}

/// A coded block: its levels and its reconstructed samples, row by row.
pub struct CodedBlock {
    pub levels: Vec<i32>,
    pub samples: Vec<u8>,
}

impl View for CodedBlock {
    type V = Coded;

    open spec fn view(&self) -> Coded {
        Coded { levels: self.levels@, samples: self.samples@ }
    }
}

proof fn lemma_place(at: Place, stride: int, height: int, len: int, i: int)
    requires
        place_fits(at, stride, height, len),
        0 <= i < at.n * at.n,
    ensures
        0 <= i / at.n < at.n,
        0 <= i % at.n < at.n,
        i / at.n * at.n + i % at.n == i,
        0 <= (at.y0 + i / at.n) * stride,
        (at.y0 + i / at.n) * stride + (at.x0 + i % at.n) < len,
{
    crate::arith::lemma_ungrid(i, at.n, at.n);
    crate::arith::lemma_grid(at.y0 + i / at.n, at.x0 + i % at.n, stride, height);
    assert(0 <= (at.y0 + i / at.n) * stride) by (nonlinear_arith)
        requires
            at.y0 + i / at.n >= 0,
            stride >= 0,
    ;
}

/// The source sample at entry `i` of a block.
fn source_at(
    source: &[u8],
    stride: usize,
    height: usize,
    x0: usize,
    y0: usize,
    n: usize,
    i: usize,
) -> (v: u8)
    requires
        place_fits((Place { x0: x0 as int, y0: y0 as int, n: n as int }), stride as int, height as int, source@.len() as int),
        i < n * n,
    ensures
        v == source@[(y0 + i as int / n as int) * stride + (x0 + i as int % n as int)],
{
    let len: usize = source.len();
    proof {
        lemma_place(
            Place { x0: x0 as int, y0: y0 as int, n: n as int },
            stride as int,
            height as int,
            len as int,
            i as int,
        );
    }
    source[(y0 + i / n) * stride + (x0 + i % n)]
}

/// Codes one transform block against the prediction of a candidate mode, without
/// touching the picture.
pub fn code_block(
    source: &[u8],
    stride: usize,
    height: usize,
    x0: usize,
    y0: usize,
    n: usize,
    q_p: u32,
    component: Component,
    pred: &Vec<i32>,
) -> (c: CodedBlock)
    requires
        place_fits((Place { x0: x0 as int, y0: y0 as int, n: n as int }), stride as int, height as int, source@.len() as int),
        q_p <= MAX_BLOCK_QP,
        pred@.len() == n * n,
        is_samples(pred@),
    ensures
        c@ == coded_against(
            source@,
            stride as int,
            (Place { x0: x0 as int, y0: y0 as int, n: n as int }),
            q_p as int,
            component,
            pred@,
        ),
        c.levels@.len() == n * n,
        c.samples@.len() == n * n,
{
    let ghost at = Place { x0: x0 as int, y0: y0 as int, n: n as int };
    let ghost goal = residual_against(source@, stride as int, at, pred@);
    let area: usize = pred.len();
    let mut residual: Vec<i32> = Vec::new();
    let mut i: usize = 0;
    while i < area
        invariant
            i <= area,
            area == n * n,
            at == (Place { x0: x0 as int, y0: y0 as int, n: n as int }),
            place_fits(at, stride as int, height as int, source@.len() as int),
            pred@.len() == area,
            is_samples(pred@),
            goal == residual_against(source@, stride as int, at, pred@),
            residual@.len() == i,
            forall|j: int| 0 <= j < i ==> #[trigger] residual@[j] == goal[j],
        decreases area - i,
    {
        let s: u8 = source_at(source, stride, height, x0, y0, n, i);
        assert(0 <= pred@[i as int] <= 255);
        residual.push(s as i32 - pred[i]);
        i = i + 1;
    }
    assert(residual@ =~= goal);
    let coded: CodedResidual = code_residual(residual.as_slice(), n, q_p, component, PredMode::Intra);
    let mut samples: Vec<u8> = Vec::new();
    i = 0;
    while i < area
        invariant
            i <= area,
            area == n * n,
            pred@.len() == area,
            is_samples(pred@),
            coded.residual@.len() == area,
            crate::coded_block::is_residual(coded.residual@),
            samples@.len() == i,
            forall|j: int| 0 <= j < i ==> #[trigger] samples@[j] == clip3(0, 255, pred@[j] + coded.residual@[j]),
        decreases area - i,
    {
        assert(0 <= pred@[i as int] <= 255);
        assert(-0x1000_0000 <= coded.residual@[i as int] <= 0x1000_0000);
        let v: i32 = pred[i] + coded.residual[i];
        samples.push(
            if v < 0 {
                0
            } else if v > 255 {
                255
            } else {
                v as u8
            },
        );
        i = i + 1;
    }
    proof {
        reveal(coded_against);
        let c = coded_against(source@, stride as int, at, q_p as int, component, pred@);
        assert(samples@ =~= c.samples);
    }
    CodedBlock { levels: coded.levels, samples }
}

/// Squared error between a coded block and its source.
pub fn sum_squared_error(
    source: &[u8],
    stride: usize,
    height: usize,
    x0: usize,
    y0: usize,
    n: usize,
    samples: &Vec<u8>,
) -> (e: u64)
    requires
        place_fits((Place { x0: x0 as int, y0: y0 as int, n: n as int }), stride as int, height as int, source@.len() as int),
        samples@.len() == n * n,
    ensures
        e == squared_error(
            source@,
            stride as int,
            (Place { x0: x0 as int, y0: y0 as int, n: n as int }),
            samples@,
            (n * n) as nat,
        ),
        e <= 66_585_600,
{
    let ghost at = Place { x0: x0 as int, y0: y0 as int, n: n as int };
    let area: usize = samples.len();
    proof {
        assert(n * n <= 1024) by (nonlinear_arith)
            requires
                0 <= n <= 32,
        ;
    }
    let mut e: u64 = 0;
    let mut i: usize = 0;
    while i < area
        invariant
            i <= area,
            area == n * n,
            area <= 1024,
            at == (Place { x0: x0 as int, y0: y0 as int, n: n as int }),
            place_fits(at, stride as int, height as int, source@.len() as int),
            samples@.len() == area,
            e == squared_error(source@, stride as int, at, samples@, i as nat),
            e <= 65025 * i,
        decreases area - i,
    {
        let d: i64 = source_at(source, stride, height, x0, y0, n, i) as i64 - samples[i] as i64;
        assert(0 <= d * d <= 65025) by (nonlinear_arith)
            requires
                -255 <= d <= 255,
        ;
        e = e + (d * d) as u64;
        i = i + 1;
    }
    e
}

/// Writes the samples of a block into the picture.
pub fn write_back(plane: &mut Vec<u8>, stride: usize, height: usize, x0: usize, y0: usize, n: usize, samples: &Vec<u8>)
    requires
        place_fits(
            (Place { x0: x0 as int, y0: y0 as int, n: n as int }),
            stride as int,
            height as int,
            old(plane)@.len() as int,
        ),
        samples@.len() == n * n,
    ensures
        final(plane)@ == written_back(
            old(plane)@,
            stride as int,
            (Place { x0: x0 as int, y0: y0 as int, n: n as int }),
            samples@,
        ),
{
    let ghost before = plane@;
    let ghost at = Place { x0: x0 as int, y0: y0 as int, n: n as int };
    let ghost goal = written_back(before, stride as int, at, samples@);
    let len: usize = plane.len();
    let area: usize = samples.len();
    let mut i: usize = 0;
    while i < area
        invariant
            i <= area,
            area == n * n,
            samples@.len() == area,
            at == (Place { x0: x0 as int, y0: y0 as int, n: n as int }),
            place_fits(at, stride as int, height as int, len as int),
            goal == written_back(before, stride as int, at, samples@),
            before.len() == len,
            plane@.len() == len,
            forall|j: int|
                0 <= j < len ==> {
                    let x = j % (stride as int) - at.x0;
                    let y = j / (stride as int) - at.y0;
                    #[trigger] plane@[j] == if 0 <= x < at.n && 0 <= y < at.n && y * at.n + x < i {
                        samples@[y * at.n + x]
                    } else {
                        before[j]
                    }
                },
        decreases area - i,
    {
        let y: usize = i / n;
        let x: usize = i % n;
        proof {
            lemma_place(at, stride as int, height as int, len as int, i as int);
            crate::arith::lemma_grid(y0 + y, x0 + x, stride as int, height as int);
        }
        let ghost mid = plane@;
        let j0: usize = (y0 + y) * stride + (x0 + x);
        plane[j0] = samples[i];
        proof {
            assert forall|j: int| 0 <= j < len implies {
                let x = j % (stride as int) - at.x0;
                let y = j / (stride as int) - at.y0;
                #[trigger] plane@[j] == if 0 <= x < at.n && 0 <= y < at.n && y * at.n + x < i + 1 {
                    samples@[y * at.n + x]
                } else {
                    before[j]
                }
            } by {
                let jx = j % (stride as int) - at.x0;
                let jy = j / (stride as int) - at.y0;
                if j == j0 {
                    assert(jx == x && jy == y);
                } else {
                    assert(plane@[j] == mid[j]);
                    if 0 <= jx < at.n && 0 <= jy < at.n && jy * at.n + jx == i {
                        crate::arith::lemma_index(jy, jx, at.n);
                        vstd::arithmetic::div_mod::lemma_fundamental_div_mod(j, stride as int);
                        assert(stride * (j / (stride as int)) == (y0 + y) * stride) by (nonlinear_arith)
                            requires
                                j / (stride as int) == y0 + y,
                        ;
                        assert(false);
                    }
                }
            }
        }
        i = i + 1;
    }
    proof {
        assert forall|j: int| 0 <= j < len implies #[trigger] plane@[j] == goal[j] by {
            let x = j % (stride as int) - at.x0;
            let y = j / (stride as int) - at.y0;
            if 0 <= x < at.n && 0 <= y < at.n {
                crate::arith::lemma_index(y, x, at.n);
            }
        }
        assert(plane@ =~= goal);
    }
}

/// The bins that a search charges a candidate for its residual, held at the largest
/// 32-bit number.
pub open spec fn rate_of(search: ModeSearch, params: ResidualWriteParams, levels: Seq<i32>) -> int {
    if search == ModeSearch::RateDistortion {
        crate::arith::min(coded_bins(params, levels).len() as int, u32::MAX as int)
    } else {
        0
    }
}

/// The number of bins of a block's residual.
pub fn residual_rate_bits(levels: &[i32], params: &ResidualWriteParams) -> (b: u32)
    requires
        params.wf(),
        levels@.len() == area(params.log2_trafo_size as int),
    ensures
        b == crate::arith::min(coded_bins(*params, levels@).len() as int, u32::MAX as int),
{
    if !has_coded_levels(levels) {
        return 0;
    }
    let mut sink: Vec<Bin> = Vec::new();
    write_residual_coding(&mut sink, params, levels);
    proof {
        lemma_appended(Seq::empty(), sink@, coded_bins(*params, levels@));
    }
    let n: usize = sink.len();
    if n > u32::MAX as usize {
        u32::MAX
    } else {
        n as u32
    }
}

fn residual_rate(search: ModeSearch, params: &ResidualWriteParams, levels: &[i32]) -> (r: u64)
    requires
        params.wf(),
        levels@.len() == area(params.log2_trafo_size as int),
    ensures
        r == rate_of(search, *params, levels@),
        r <= u32::MAX,
{
    match search {
        ModeSearch::RateDistortion => residual_rate_bits(levels, params) as u64,
        _ => 0,
    }
}

/// A luma block coded with a mode.
pub open spec fn luma_coded(src: Frame, refs: Seq<i32>, at: Place, q_p: int, mode: int) -> Coded {
    coded_against(src.y, src.width, at, q_p, Component::Luma, prediction(refs, 16, mode, true))
}

/// What coding a luma block with a mode costs.
pub open spec fn luma_cost(
    src: Frame,
    refs: Seq<i32>,
    at: Place,
    qp: int,
    q_p: int,
    candidates: Seq<u8>,
    search: ModeSearch,
    mode: u8,
) -> int {
    let c = luma_coded(src, refs, at, q_p, mode as int);
    squared_error(src.y, src.width, at, c.samples, 256) + (mode_bits(mode, candidates) + rate_of(
        search,
        luma_params(),
        c.levels,
    )) * lambda_of(qp) / 256
}

/// What every mode predicts.
pub open spec fn luma_predictions(refs: Seq<i32>) -> Seq<Seq<i32>> {
    Seq::new(35, |m: int| prediction(refs, 16, m, true))
}

/// The source from a block on.
pub open spec fn source_from(src: Frame, at: Place) -> Seq<u8> {
    src.y.subrange(at.y0 * src.width + at.x0, src.y.len() as int)
}

/// The modes that are judged on their reconstruction.
pub open spec fn luma_shortlist(src: Frame, refs: Seq<i32>, at: Place, qp: int, candidates: Seq<u8>) -> Seq<
    IntraModeDecision,
> {
    shortlist_of(
        source_from(src, at),
        src.width,
        16,
        candidates,
        qp,
        luma_predictions(refs),
        MODE_SHORTLIST as int,
    )
}

/// The first of the cheapest among the first `n` modes of a list.
pub open spec fn cheapest_luma(
    src: Frame,
    refs: Seq<i32>,
    at: Place,
    qp: int,
    q_p: int,
    candidates: Seq<u8>,
    search: ModeSearch,
    list: Seq<IntraModeDecision>,
    n: nat,
) -> u8
    decreases n,
{
    if n <= 1 {
        list[0].mode
    } else {
        let best = cheapest_luma(src, refs, at, qp, q_p, candidates, search, list, (n - 1) as nat);
        let new = list[n - 1].mode;
        if luma_cost(src, refs, at, qp, q_p, candidates, search, new) < luma_cost(
            src,
            refs,
            at,
            qp,
            q_p,
            candidates,
            search,
            best,
        ) {
            new
        } else {
            best
        }
    }
}

/// The luma mode of a coding unit.
#[verifier::opaque]
pub open spec fn luma_mode(
    src: Frame,
    refs: Seq<i32>,
    at: Place,
    qp: int,
    q_p: int,
    candidates: Seq<u8>,
    search: ModeSearch,
) -> u8 {
    if search == ModeSearch::DcOnly {
        INTRA_DC
    } else {
        let list = luma_shortlist(src, refs, at, qp, candidates);
        cheapest_luma(src, refs, at, qp, q_p, candidates, search, list, list.len())
    }
}

/// The predictions of all modes.
fn all_predictions(refs: &Vec<i32>) -> (p: Vec<Vec<i32>>)
    requires
        refs@.len() == 65,
        is_samples(refs@),
    ensures
        predictions_of(p@) == luma_predictions(refs@),
        p@.len() == 35,
        forall|m: int| 0 <= m < 35 ==> (#[trigger] p@[m])@.len() == 256 && is_samples(p@[m]@),
{
    let mut p: Vec<Vec<i32>> = Vec::new();
    let mut m: u8 = 0;
    while m < 35
        invariant
            m <= 35,
            refs@.len() == 65,
            is_samples(refs@),
            p@.len() == m,
            forall|k: int|
                0 <= k < m ==> (#[trigger] p@[k])@ == prediction(refs@, 16, k, true) && p@[k]@.len() == 256
                    && is_samples(p@[k]@),
        decreases 35 - m,
    {
        p.push(predict(refs, 16, m, true));
        m = m + 1;
    }
    assert(predictions_of(p@) =~= luma_predictions(refs@));
    p
}

proof fn lemma_source_block(src: Frame, at: Place)
    requires
        src.wf(),
        at.n == 16,
        place_fits(at, src.width, src.height, src.y.len() as int),
    ensures
        0 <= at.y0 * src.width,
        at.y0 * src.width + at.x0 <= src.y.len(),
        holds_block(source_from(src, at), src.width, 16, 16),
{
    crate::arith::lemma_grid(at.y0 + 15, at.x0 + 15, src.width, src.height);
    assert(0 <= at.y0 * src.width) by (nonlinear_arith)
        requires
            at.y0 >= 0,
            src.width >= 0,
    ;
    assert((at.y0 + 15) * src.width == at.y0 * src.width + 15 * src.width) by (nonlinear_arith);
}

/// What coding a luma block with a mode costs, with the block.
fn judge_luma(
    src: &SourcePlanes<'_>,
    refs: &Vec<i32>,
    x0: usize,
    y0: usize,
    qp: i32,
    q_p: u32,
    candidates: [u8; 3],
    search: ModeSearch,
    mode: u8,
    Ghost(at): Ghost<Place>,
) -> (r: (u64, CodedBlock))
    requires
        src@.wf(),
        at == (Place { x0: x0 as int, y0: y0 as int, n: 16 }),
        place_fits(at, src@.width, src@.height, src@.y.len() as int),
        refs@.len() == 65,
        is_samples(refs@),
        q_p <= MAX_BLOCK_QP,
        mode <= 34,
    ensures
        r.0 == luma_cost(src@, refs@, at, qp as int, q_p as int, candidates@, search, mode),
        r.1@ == luma_coded(src@, refs@, at, q_p as int, mode as int),
        r.1.levels@.len() == 256,
        r.1.samples@.len() == 256,
{
    let pred: Vec<i32> = predict(refs, 16, mode, true);
    let coded: CodedBlock = code_block(src.y, src.width, src.height, x0, y0, 16, q_p, Component::Luma, &pred);
    let params: ResidualWriteParams = ResidualWriteParams {
        log2_trafo_size: 4,
        is_chroma: false,
        scan_idx: crate::scan::ScanIdx::Diagonal,
    };
    assert(area(4) == 256);
    let bits: u64 = intra_mode_bit_cost(mode, candidates) as u64 + residual_rate(
        search,
        &params,
        coded.levels.as_slice(),
    );
    let lambda: u64 = lambda_q8(qp) as u64;
    assert(0 <= bits * lambda <= 0x2_0000_0000_0000_0) by (nonlinear_arith)
        requires
            0 <= bits <= 0x1_0000_0010,
            0 <= lambda <= 1_195_377,
    ;
    let e: u64 = sum_squared_error(src.y, src.width, src.height, x0, y0, 16, &coded.samples);
    (e + bits * lambda / 256, coded)
}

/// Picks the luma mode of one coding unit: the modes are ranked on their predictions,
/// and the best few judged on what they reconstruct to.
fn decide_luma_mode(
    src: &SourcePlanes<'_>,
    refs: &Vec<i32>,
    x0: usize,
    y0: usize,
    qp: i32,
    q_p: u32,
    candidates: [u8; 3],
    search: ModeSearch,
    Ghost(at): Ghost<Place>,
) -> (r: (u8, CodedBlock))
    requires
        src@.wf(),
        at == (Place { x0: x0 as int, y0: y0 as int, n: 16 }),
        place_fits(at, src@.width, src@.height, src@.y.len() as int),
        refs@.len() == 65,
        is_samples(refs@),
        q_p <= MAX_BLOCK_QP,
    ensures
        r.0 == luma_mode(src@, refs@, at, qp as int, q_p as int, candidates@, search),
        r.1@ == luma_coded(src@, refs@, at, q_p as int, r.0 as int),
        r.0 <= 34,
        r.1.levels@.len() == 256,
        r.1.samples@.len() == 256,
{
    proof {
        reveal(luma_mode);
    }
    match search {
        ModeSearch::DcOnly => {
            let (_, coded) = judge_luma(src, refs, x0, y0, qp, q_p, candidates, search, INTRA_DC, Ghost(at));
            return (INTRA_DC, coded);
        },
        _ => {},
    }
    let predictions: Vec<Vec<i32>> = all_predictions(refs);
    let len: usize = src.y.len();
    proof {
        lemma_source_block(src@, at);
    }
    let tail: &[u8] = slice_subrange(src.y, y0 * src.width + x0, len);
    let list: Vec<IntraModeDecision> = shortlist_intra_luma_modes(
        tail,
        src.width,
        16,
        candidates,
        qp,
        DistortionBackend::Dispatched,
        MODE_SHORTLIST,
        &predictions,
    );
    let ghost goal = luma_shortlist(src@, refs@, at, qp as int, candidates@);
    assert(list@ == goal);
    assert(list@[0].mode < 35);
    let mut mode: u8 = list[0].mode;
    let (mut cost, mut coded) = judge_luma(src, refs, x0, y0, qp, q_p, candidates, search, mode, Ghost(at));
    let mut i: usize = 1;
    while i < list.len()
        invariant
            1 <= i <= list@.len(),
            list@ == goal,
            forall|k: int| 0 <= k < list@.len() ==> (#[trigger] list@[k]).mode < 35,
            src@.wf(),
            at == (Place { x0: x0 as int, y0: y0 as int, n: 16 }),
            place_fits(at, src@.width, src@.height, src@.y.len() as int),
            refs@.len() == 65,
            is_samples(refs@),
            q_p <= MAX_BLOCK_QP,
            mode <= 34,
            mode == cheapest_luma(src@, refs@, at, qp as int, q_p as int, candidates@, search, goal, i as nat),
            cost == luma_cost(src@, refs@, at, qp as int, q_p as int, candidates@, search, mode),
            coded@ == luma_coded(src@, refs@, at, q_p as int, mode as int),
            coded.levels@.len() == 256,
            coded.samples@.len() == 256,
        decreases list.len() - i,
    {
        assert(list@[i as int].mode < 35);
        let new: u8 = list[i].mode;
        let (new_cost, new_coded) = judge_luma(src, refs, x0, y0, qp, q_p, candidates, search, new, Ghost(at));
        if new_cost < cost {
            cost = new_cost;
            coded = new_coded;
            mode = new;
        }
        i = i + 1;
    }
    (mode, coded)
}

/// A chroma block coded with a mode. `c` is 1 for Cb and 2 for Cr.
pub open spec fn chroma_coded(src: Frame, refs: Seq<i32>, c: int, at: Place, q_p: int, mode: int) -> Coded {
    coded_against(
        src.plane(c),
        src.width / 2,
        at,
        q_p,
        if c == 1 {
            Component::Cb
        } else {
            Component::Cr
        },
        prediction(refs, 8, mode, false),
    )
}

/// Squared error of a chroma block coded with a mode, and the bins of its residual.
pub open spec fn chroma_error(src: Frame, refs: Seq<i32>, c: int, at: Place, q_p: int, mode: int) -> int {
    squared_error(src.plane(c), src.width / 2, at, chroma_coded(src, refs, c, at, q_p, mode).samples, 64)
}

pub open spec fn chroma_rate(
    src: Frame,
    refs: Seq<i32>,
    c: int,
    at: Place,
    q_p: int,
    mode: int,
    search: ModeSearch,
) -> int {
    rate_of(search, chroma_params(), chroma_coded(src, refs, c, at, q_p, mode).levels)
}

/// What a signalled chroma mode costs.
pub open spec fn chroma_cost(
    src: Frame,
    cb: Seq<i32>,
    cr: Seq<i32>,
    at: Place,
    qp: int,
    q_p: int,
    luma: int,
    search: ModeSearch,
    signalled: u8,
) -> int {
    let mode = chroma_mode_of(signalled as int, luma);
    chroma_error(src, cb, 1, at, q_p, mode) + chroma_error(src, cr, 2, at, q_p, mode) + (chroma_mode_bins(
        signalled,
    ).len() + chroma_rate(src, cb, 1, at, q_p, mode, search) + chroma_rate(src, cr, 2, at, q_p, mode, search))
        * lambda_of(qp) / 256
}

/// The first of the cheapest among the first `n` signalled chroma modes.
pub open spec fn cheapest_chroma(
    src: Frame,
    cb: Seq<i32>,
    cr: Seq<i32>,
    at: Place,
    qp: int,
    q_p: int,
    luma: int,
    search: ModeSearch,
    n: nat,
) -> u8
    decreases n,
{
    if n <= 1 {
        0
    } else {
        let best = cheapest_chroma(src, cb, cr, at, qp, q_p, luma, search, (n - 1) as nat);
        let new = (n - 1) as u8;
        if chroma_cost(src, cb, cr, at, qp, q_p, luma, search, new) < chroma_cost(
            src,
            cb,
            cr,
            at,
            qp,
            q_p,
            luma,
            search,
            best,
        ) {
            new
        } else {
            best
        }
    }
}

/// The signalled chroma mode of a coding unit.
#[verifier::opaque]
pub open spec fn chroma_mode(
    src: Frame,
    cb: Seq<i32>,
    cr: Seq<i32>,
    at: Place,
    qp: int,
    q_p: int,
    luma: int,
    search: ModeSearch,
) -> u8 {
    if search == ModeSearch::DcOnly {
        CHROMA_MODE_DERIVED
    } else {
        cheapest_chroma(src, cb, cr, at, qp, q_p, luma, search, 5)
    }
}

/// Both chroma blocks coded with a mode.
struct ChromaPair {
    cost: u64,
    cb: CodedBlock,
    cr: CodedBlock,
}

/// The reference samples of both chroma blocks.
pub struct ChromaRefs {
    pub cb: Vec<i32>,
    pub cr: Vec<i32>,
}

impl ChromaRefs {
    pub open spec fn wf(self) -> bool {
        self.cb@.len() == 33 && self.cr@.len() == 33 && is_samples(self.cb@) && is_samples(self.cr@)
    }
}

/// What a signalled chroma mode costs, with the blocks.
fn judge_chroma(
    src: &SourcePlanes<'_>,
    refs: &ChromaRefs,
    x0: usize,
    y0: usize,
    qp: i32,
    q_p: u32,
    luma: u8,
    search: ModeSearch,
    signalled: u8,
    Ghost(at): Ghost<Place>,
) -> (r: ChromaPair)
    requires
        src@.wf(),
        at == (Place { x0: x0 as int, y0: y0 as int, n: 8 }),
        place_fits(at, src@.width / 2, src@.height / 2, src@.cb.len() as int),
        refs.wf(),
        q_p <= MAX_BLOCK_QP,
        luma <= 34,
    ensures
        r.cost == chroma_cost(
            src@,
            refs.cb@,
            refs.cr@,
            at,
            qp as int,
            q_p as int,
            luma as int,
            search,
            signalled,
        ),
        r.cb@ == chroma_coded(src@, refs.cb@, 1, at, q_p as int, chroma_mode_of(signalled as int, luma as int)),
        r.cr@ == chroma_coded(src@, refs.cr@, 2, at, q_p as int, chroma_mode_of(signalled as int, luma as int)),
        r.cb.levels@.len() == 64,
        r.cb.samples@.len() == 64,
        r.cr.levels@.len() == 64,
        r.cr.samples@.len() == 64,
{
    let w: usize = src.width / 2;
    let h: usize = src.height / 2;
    let mode: u8 = derive_intra_pred_mode_c(signalled, luma);
    let pred_cb: Vec<i32> = predict(&refs.cb, 8, mode, false);
    let pred_cr: Vec<i32> = predict(&refs.cr, 8, mode, false);
    let cb: CodedBlock = code_block(src.cb, w, h, x0, y0, 8, q_p, Component::Cb, &pred_cb);
    let cr: CodedBlock = code_block(src.cr, w, h, x0, y0, 8, q_p, Component::Cr, &pred_cr);
    let params: ResidualWriteParams = ResidualWriteParams {
        log2_trafo_size: 3,
        is_chroma: true,
        scan_idx: crate::scan::ScanIdx::Diagonal,
    };
    assert(area(3) == 64);
    let bits: u64 = chroma_mode_bit_cost(signalled) as u64 + residual_rate(search, &params, cb.levels.as_slice())
        + residual_rate(search, &params, cr.levels.as_slice());
    let lambda: u64 = lambda_q8(qp) as u64;
    assert(0 <= bits * lambda <= 0x4_0000_0000_0000_0) by (nonlinear_arith)
        requires
            0 <= bits <= 0x2_0000_0010,
            0 <= lambda <= 1_195_377,
    ;
    let e_cb: u64 = sum_squared_error(src.cb, w, h, x0, y0, 8, &cb.samples);
    let e_cr: u64 = sum_squared_error(src.cr, w, h, x0, y0, 8, &cr.samples);
    ChromaPair { cost: e_cb + e_cr + bits * lambda / 256, cb, cr }
}

/// Picks the chroma mode of one coding unit on the joint cost of both chroma blocks.
fn decide_chroma_mode(
    src: &SourcePlanes<'_>,
    refs: &ChromaRefs,
    x0: usize,
    y0: usize,
    qp: i32,
    q_p: u32,
    luma: u8,
    search: ModeSearch,
    Ghost(at): Ghost<Place>,
) -> (r: (u8, CodedBlock, CodedBlock))
    requires
        src@.wf(),
        at == (Place { x0: x0 as int, y0: y0 as int, n: 8 }),
        place_fits(at, src@.width / 2, src@.height / 2, src@.cb.len() as int),
        refs.wf(),
        q_p <= MAX_BLOCK_QP,
        luma <= 34,
    ensures
        r.0 == chroma_mode(src@, refs.cb@, refs.cr@, at, qp as int, q_p as int, luma as int, search),
        r.1@ == chroma_coded(src@, refs.cb@, 1, at, q_p as int, chroma_mode_of(r.0 as int, luma as int)),
        r.2@ == chroma_coded(src@, refs.cr@, 2, at, q_p as int, chroma_mode_of(r.0 as int, luma as int)),
        r.0 <= CHROMA_MODE_DERIVED,
        r.1.levels@.len() == 64,
        r.1.samples@.len() == 64,
        r.2.levels@.len() == 64,
        r.2.samples@.len() == 64,
{
    proof {
        reveal(chroma_mode);
    }
    match search {
        ModeSearch::DcOnly => {
            let pair = judge_chroma(src, refs, x0, y0, qp, q_p, luma, search, CHROMA_MODE_DERIVED, Ghost(at));
            return (CHROMA_MODE_DERIVED, pair.cb, pair.cr);
        },
        _ => {},
    }
    let mut best: u8 = 0;
    let mut pair: ChromaPair = judge_chroma(src, refs, x0, y0, qp, q_p, luma, search, 0, Ghost(at));
    let mut signalled: u8 = 1;
    while signalled <= CHROMA_MODE_DERIVED
        invariant
            1 <= signalled <= 5,
            src@.wf(),
            at == (Place { x0: x0 as int, y0: y0 as int, n: 8 }),
            place_fits(at, src@.width / 2, src@.height / 2, src@.cb.len() as int),
            refs.wf(),
            q_p <= MAX_BLOCK_QP,
            luma <= 34,
            best <= CHROMA_MODE_DERIVED,
            best == cheapest_chroma(
                src@,
                refs.cb@,
                refs.cr@,
                at,
                qp as int,
                q_p as int,
                luma as int,
                search,
                signalled as nat,
            ),
            pair.cost == chroma_cost(
                src@,
                refs.cb@,
                refs.cr@,
                at,
                qp as int,
                q_p as int,
                luma as int,
                search,
                best,
            ),
            pair.cb@ == chroma_coded(src@, refs.cb@, 1, at, q_p as int, chroma_mode_of(best as int, luma as int)),
            pair.cr@ == chroma_coded(src@, refs.cr@, 2, at, q_p as int, chroma_mode_of(best as int, luma as int)),
            pair.cb.levels@.len() == 64,
            pair.cb.samples@.len() == 64,
            pair.cr.levels@.len() == 64,
            pair.cr.samples@.len() == 64,
        decreases 5 - signalled,
    {
        let new: ChromaPair = judge_chroma(src, refs, x0, y0, qp, q_p, luma, search, signalled, Ghost(at));
        if new.cost < pair.cost {
            pair = new;
            best = signalled;
        }
        signalled = signalled + 1;
    }
    (best, pair.cb, pair.cr)
}

/// How far a decision pass has come: the samples a decoder will hold, the luma mode of
/// the last unit, and the decisions.
pub struct Pass {
    pub frame: Frame,
    pub left: u8,
    pub records: Seq<Record>,
}

/// A decision pass before its first unit.
pub open spec fn pass_start(width: int, height: int) -> Pass {
    Pass {
        frame: Frame {
            y: Seq::new((width * height) as nat, |i: int| 0u8),
            cb: Seq::new(((width / 2) * (height / 2)) as nat, |i: int| 0u8),
            cr: Seq::new(((width / 2) * (height / 2)) as nat, |i: int| 0u8),
            width,
            height,
        },
        left: INTRA_DC,
        records: Seq::empty(),
    }
}

/// The most probable modes of a unit: the unit above lies in another row of tree
/// blocks and counts as flat, and so does the left neighbour of the first column.
pub open spec fn unit_candidates(left: u8, x0: int) -> Seq<u8> {
    let c = candidate_modes(
        if x0 > 0 {
            left as int
        } else {
            INTRA_DC as int
        },
        INTRA_DC as int,
    );
    seq![c.0 as u8, c.1 as u8, c.2 as u8]
}

/// What a unit is decided on and decided to.
pub struct Unit {
    pub at: Place,
    pub chroma_at: Place,
    pub record: Record,
    pub luma: Coded,
    pub cb: Coded,
    pub cr: Coded,
}

/// The decision for the unit at `addr`.
#[verifier::opaque]
pub open spec fn decided_unit(pass: Pass, src: Frame, qp: int, search: ModeSearch, addr: int) -> Unit {
    let columns = src.width / 16;
    let x0 = addr % columns * 16;
    let y0 = addr / columns * 16;
    let at = Place { x0, y0, n: 16 };
    let chroma_at = Place { x0: x0 / 2, y0: y0 / 2, n: 8 };
    let f = pass.frame;
    let candidates = unit_candidates(pass.left, x0);
    let luma_q = crate::arith::max(0, qp);
    let chroma_q = chroma_qp_of(qp, 0, 8, 1);
    let refs = references(f.y, f.width, f.height, x0, y0, 16);
    let mode = luma_mode(src, refs, at, qp, luma_q, candidates, search);
    let refs_cb = references(f.cb, f.width / 2, f.height / 2, x0 / 2, y0 / 2, 8);
    let refs_cr = references(f.cr, f.width / 2, f.height / 2, x0 / 2, y0 / 2, 8);
    let signalled = chroma_mode(src, refs_cb, refs_cr, chroma_at, qp, chroma_q, mode as int, search);
    let c_mode = chroma_mode_of(signalled as int, mode as int);
    let luma = luma_coded(src, refs, at, luma_q, mode as int);
    let cb = chroma_coded(src, refs_cb, 1, chroma_at, chroma_q, c_mode);
    let cr = chroma_coded(src, refs_cr, 2, chroma_at, chroma_q, c_mode);
    Unit {
        at,
        chroma_at,
        record: Record {
            mode,
            candidates,
            chroma_mode: signalled,
            luma: luma.levels,
            cb: cb.levels,
            cr: cr.levels,
        },
        luma,
        cb,
        cr,
    }
}

/// A decision pass with one more unit committed.
pub open spec fn committed(pass: Pass, u: Unit) -> Pass {
    let f = pass.frame;
    Pass {
        frame: Frame {
            y: written_back(f.y, f.width, u.at, u.luma.samples),
            cb: written_back(f.cb, f.width / 2, u.chroma_at, u.cb.samples),
            cr: written_back(f.cr, f.width / 2, u.chroma_at, u.cr.samples),
            width: f.width,
            height: f.height,
        },
        left: u.record.mode,
        records: pass.records.push(u.record),
    }
}

/// A decision pass after `n` units.
pub open spec fn pass_after(src: Frame, qp: int, search: ModeSearch, n: nat) -> Pass
    decreases n,
{
    if n == 0 {
        pass_start(src.width, src.height)
    } else {
        let before = pass_after(src, qp, search, (n - 1) as nat);
        committed(before, decided_unit(before, src, qp, search, n - 1))
    }
}

/// A whole decision pass.
pub open spec fn decision_pass(src: Frame, qp: int, search: ModeSearch) -> Pass {
    pass_after(src, qp, search, ((src.width / 16) * (src.height / 16)) as nat)
}

/// What a decision pass holds so far.
struct Progress {
    recon: ReconstructedPicture,
    left: u8,
    records: Vec<CtbRecord>,
}

impl Progress {
    spec fn model(self) -> Pass {
        Pass { frame: self.recon@, left: self.left, records: records_of(self.records@) }
    }

    spec fn wf(self, src: Frame) -> bool {
        &&& self.recon@.wf()
        &&& self.recon@.width == src.width
        &&& self.recon@.height == src.height
        &&& self.left <= 34
        &&& forall|i: int| 0 <= i < self.records@.len() ==> (#[trigger] self.records@[i])@.wf()
    }
}

/// The place of a unit fits both grids.
proof fn lemma_unit_place(width: int, height: int, addr: int)
    requires
        crate::picture::whole_blocks(width, height),
        0 <= addr < (width / 16) * (height / 16),
    ensures
        ({
            let x0 = addr % (width / 16) * 16;
            let y0 = addr / (width / 16) * 16;
            &&& place_fits(Place { x0, y0, n: 16 }, width, height, width * height)
            &&& place_fits(
                Place { x0: x0 / 2, y0: y0 / 2, n: 8 },
                width / 2,
                height / 2,
                (width / 2) * (height / 2),
            )
        }),
{
    crate::arith::lemma_ungrid(addr, width / 16, height / 16);
}

/// Decides and commits one unit.
#[verifier::rlimit(40)]
fn decide_unit(p: &mut Progress, src: &SourcePlanes<'_>, qp: i32, search: ModeSearch, addr: usize)
    requires
        src@.wf(),
        old(p).wf(src@),
        addr < (src@.width / 16) * (src@.height / 16),
        qp <= 215,
    ensures
        final(p).wf(src@),
        final(p).model() == committed(
            old(p).model(),
            decided_unit(old(p).model(), src@, qp as int, search, addr as int),
        ),
{
    let ghost before = p.model();
    let ghost u = decided_unit(before, src@, qp as int, search, addr as int);
    let width: usize = src.width;
    let height: usize = src.height;
    let cw: usize = width / 2;
    let ch: usize = height / 2;
    let columns: usize = width / 16;
    let qp_luma: u32 = luma_qp(qp, 8);
    let qp_chroma: u32 = chroma_qp(qp, 0, 8, 1);
    proof {
        lemma_unit_place(width as int, height as int, addr as int);
        reveal(decided_unit);
    }
    let x0: usize = addr % columns * 16;
    let y0: usize = addr / columns * 16;
    let cx: usize = x0 / 2;
    let cy: usize = y0 / 2;
    let ghost at = Place { x0: x0 as int, y0: y0 as int, n: 16 };
    let ghost chroma_at = Place { x0: cx as int, y0: cy as int, n: 8 };
    let cand_a: u8 = if x0 > 0 {
        p.left
    } else {
        INTRA_DC
    };
    let candidates: [u8; 3] = intra_luma_cand_mode_list(cand_a, INTRA_DC);
    assert(candidates@ =~= unit_candidates(p.left, x0 as int));
    let refs: Vec<i32> = reference_samples(p.recon.y.as_slice(), width, height, x0, y0, 16);
    let (mode, luma) = decide_luma_mode(src, &refs, x0, y0, qp, qp_luma, candidates, search, Ghost(at));
    let chroma_refs: ChromaRefs = ChromaRefs {
        cb: reference_samples(p.recon.cb.as_slice(), cw, ch, cx, cy, 8),
        cr: reference_samples(p.recon.cr.as_slice(), cw, ch, cx, cy, 8),
    };
    let (chroma_mode, cb, cr) = decide_chroma_mode(
        src,
        &chroma_refs,
        cx,
        cy,
        qp,
        qp_chroma,
        mode,
        search,
        Ghost(chroma_at),
    );
    let record: CtbRecord = CtbRecord {
        mode,
        candidates,
        chroma_mode,
        luma: luma.levels,
        cb: cb.levels,
        cr: cr.levels,
    };
    assert(area(4) == 256 && area(3) == 64);
    assert(record@ == u.record);
    write_back(&mut p.recon.y, width, height, x0, y0, 16, &luma.samples);
    write_back(&mut p.recon.cb, cw, ch, cx, cy, 8, &cb.samples);
    write_back(&mut p.recon.cr, cw, ch, cx, cy, 8, &cr.samples);
    p.left = mode;
    let ghost rs = p.records@;
    p.records.push(record);
    proof {
        assert(records_of(p.records@) =~= records_of(rs).push(u.record));
    }
}

/// Runs the decision pass over a picture: the decisions, and the reconstruction before
/// the loop filters.
pub fn run_decision_pass(src: &SourcePlanes<'_>, qp: i32, search: ModeSearch) -> (r: (
    Vec<CtbRecord>,
    ReconstructedPicture,
))
    requires
        src@.wf(),
        qp <= 215,
    ensures
        records_of(r.0@) == decision_pass(src@, qp as int, search).records,
        r.1@ == decision_pass(src@, qp as int, search).frame,
        r.1@.wf(),
        r.1@.width == src@.width,
        r.1@.height == src@.height,
        r.0@.len() == (src@.width / 16) * (src@.height / 16),
        forall|i: int| 0 <= i < r.0@.len() ==> (#[trigger] r.0@[i])@.wf(),
{
    let ylen: usize = src.y.len();
    let clen: usize = src.cb.len();
    let width: usize = src.width;
    let height: usize = src.height;
    let ghost start = pass_start(width as int, height as int);
    let mut p: Progress = Progress {
        recon: ReconstructedPicture { y: vec![0u8; ylen], cb: vec![0u8; clen], cr: vec![0u8; clen], width, height },
        left: INTRA_DC,
        records: Vec::new(),
    };
    assert(p.recon.y@ =~= start.frame.y);
    assert(p.recon.cb@ =~= start.frame.cb);
    assert(p.recon.cr@ =~= start.frame.cr);
    assert(records_of(p.records@) =~= start.records);
    proof {
        assert((width as int / 16) * (height as int / 16) <= width * height) by (nonlinear_arith)
            requires
                width >= 0,
                height >= 0,
        ;
    }
    assert(0 <= (width as int / 16) * (height as int / 16)) by (nonlinear_arith)
        requires
            width >= 0,
            height >= 0,
    ;
    assert((width as int / 16) * (height as int / 16) <= ylen);
    let total: usize = (width / 16) * (height / 16);
    let mut addr: usize = 0;
    while addr < total
        invariant
            addr <= total,
            total == (src@.width / 16) * (src@.height / 16),
            src@.wf(),
            qp <= 215,
            p.wf(src@),
            p.records@.len() == addr,
            p.model() == pass_after(src@, qp as int, search, addr as nat),
        decreases total - addr,
    {
        decide_unit(&mut p, src, qp, search, addr);
        proof {
            assert(records_of(p.records@).len() == addr + 1);
        }
        addr = addr + 1;
    }
    (p.records, p.recon)
}

/// No mode of the list costs less than the one that is taken.
pub proof fn law_luma_mode_is_cheapest(
    src: Frame,
    refs: Seq<i32>,
    at: Place,
    qp: int,
    q_p: int,
    candidates: Seq<u8>,
    search: ModeSearch,
    list: Seq<IntraModeDecision>,
    n: nat,
)
    requires
        1 <= n <= list.len(),
    ensures
        forall|i: int|
            0 <= i < n ==> luma_cost(
                src,
                refs,
                at,
                qp,
                q_p,
                candidates,
                search,
                cheapest_luma(src, refs, at, qp, q_p, candidates, search, list, n),
            ) <= luma_cost(src, refs, at, qp, q_p, candidates, search, (#[trigger] list[i]).mode),
    decreases n,
{
    if n > 1 {
        law_luma_mode_is_cheapest(src, refs, at, qp, q_p, candidates, search, list, (n - 1) as nat);
    }
}

/// No signalled chroma mode costs less than the one that is taken.
pub proof fn law_chroma_mode_is_cheapest(
    src: Frame,
    cb: Seq<i32>,
    cr: Seq<i32>,
    at: Place,
    qp: int,
    q_p: int,
    luma: int,
    search: ModeSearch,
    n: nat,
)
    requires
        1 <= n <= 5,
    ensures
        forall|i: u8|
            i < n ==> chroma_cost(
                src,
                cb,
                cr,
                at,
                qp,
                q_p,
                luma,
                search,
                cheapest_chroma(src, cb, cr, at, qp, q_p, luma, search, n),
            ) <= #[trigger] chroma_cost(src, cb, cr, at, qp, q_p, luma, search, i),
    decreases n,
{
    if n > 1 {
        law_chroma_mode_is_cheapest(src, cb, cr, at, qp, q_p, luma, search, (n - 1) as nat);
        assert forall|i: u8| i < n implies chroma_cost(
            src,
            cb,
            cr,
            at,
            qp,
            q_p,
            luma,
            search,
            cheapest_chroma(src, cb, cr, at, qp, q_p, luma, search, n),
        ) <= #[trigger] chroma_cost(src, cb, cr, at, qp, q_p, luma, search, i) by {
            if i == n - 1 {
                assert(i == (n - 1) as u8);
            }
        }
    } else {
        assert forall|i: u8| i < n implies chroma_cost(
            src,
            cb,
            cr,
            at,
            qp,
            q_p,
            luma,
            search,
            cheapest_chroma(src, cb, cr, at, qp, q_p, luma, search, n),
        ) <= #[trigger] chroma_cost(src, cb, cr, at, qp, q_p, luma, search, i) by {
            assert(i == 0);
        }
    }
}

} // verus!
