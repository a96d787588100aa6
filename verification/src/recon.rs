//! Encoder-side reconstruction and in-loop filtering: the picture that a decoder
//! will hold, which is what the next picture is predicted from.
use vstd::prelude::*;
use crate::arith::max;
use crate::deblock::{deblock_plane, deblocked, is_cell_map};
use crate::partition::{reconstruct_component, Part, PartitionJob, RefModel, ReferencePlane};
use crate::picture::{
    narrowed_frame, widened_frame, whole_blocks, Frame, Picture, ReconstructedPicture, Samples, SourcePlanes, MAX_SIDE,
};
use crate::rdo::{
    covers, follows_shape, law_decided_block_follows_a_shape, law_partitions_tile_the_block, shapes, BlockDecision,
    PartitionDecision, PictureDecision, Search,
};
use crate::sao::{apply_sao_plane, cells, sao_plane, ResolvedSao, SaoCell};
use crate::sao_search::{estimate_sao, estimated_grid, SaoLambda};
use crate::transform::{chroma_qp, chroma_qp_of, luma_qp, Component};

verus! {

/// The side of a coding tree block.
pub const CTB: usize = 16;

/// The loop-filter shape of the access unit being written.
#[derive(Clone, Copy, Debug, PartialEq, Eq, Structural)]
pub struct ReconConfig {
    /// Run the deblocking filter.
    pub deblocking: bool,
    /// Run the sample-adaptive offset on luma.
    pub sao_luma: bool,
    /// Run the sample-adaptive offset on chroma.
    pub sao_chroma: bool,
    /// The loop filters leave PCM blocks alone. Every coding unit counts as one.
    pub pcm_loop_filter_disabled: bool,
    /// The slice QP.
    pub qp: i32,
    /// Code the residual through the transform and the quantizer at [`Self::qp`]
    /// rather than exactly.
    pub quantized_residual: bool,
}

impl Default for ReconConfig {
    /// Both filters neutralized and an exact residual.
    fn default() -> (c: Self)
        ensures
            c == (ReconConfig {
                deblocking: false,
                sao_luma: false,
                sao_chroma: false,
                pcm_loop_filter_disabled: true,
                qp: 26,
                quantized_residual: false,
            }),
    {
        ReconConfig {
            deblocking: false,
            sao_luma: false,
            sao_chroma: false,
            pcm_loop_filter_disabled: true,
            qp: 26,
            quantized_residual: false,
        }
    }
}

/// Half of a number, rounded towards zero.
pub open spec fn half(v: int) -> int {
    if v >= 0 {
        v / 2
    } else {
        -((-v) / 2)
    }
}

/// A plane of a reference picture.
pub open spec fn reference_plane(reference: Option<Frame>, c: int) -> Option<RefModel> {
    match reference {
        Some(f) => Some(
            RefModel {
                samples: f.plane(c),
                width: if c == 0 { f.width } else { f.width / 2 },
                height: if c == 0 { f.height } else { f.height / 2 },
            },
        ),
        None => None,
    }
}

/// What a partition is in plane `c`: the chroma planes and their vectors are half of
/// the luma ones.
pub open spec fn plane_part(
    src: Frame,
    reference: Option<Frame>,
    c: int,
    p: PartitionDecision,
    mv_x: int,
    mv_y: int,
    quant: Option<int>,
) -> Part {
    if c == 0 {
        Part {
            source: src.y,
            stride: src.width,
            height: src.height,
            reference: reference_plane(reference, 0),
            x: p.x as int,
            y: p.y as int,
            w: p.w as int,
            h: p.h as int,
            mv_x,
            mv_y,
            quant: match quant {
                Some(q) => Some(max(0, q)),
                None => None,
            },
            component: Component::Luma,
        }
    } else {
        Part {
            source: src.plane(c),
            stride: src.width / 2,
            height: src.height / 2,
            reference: reference_plane(reference, c),
            x: p.x as int / 2,
            y: p.y as int / 2,
            w: max(p.w as int / 2, 1),
            h: max(p.h as int / 2, 1),
            mv_x: half(mv_x),
            mv_y: half(mv_y),
            quant: match quant {
                Some(q) => Some(chroma_qp_of(q, 0, 8, 1)),
                None => None,
            },
            component: if c == 1 {
                Component::Cb
            } else {
                Component::Cr
            },
        }
    }
}

/// A picture once one partition has been reconstructed into it.
pub open spec fn with_partition(
    s: Samples,
    src: Frame,
    reference: Option<Frame>,
    p: PartitionDecision,
    mv_x: int,
    mv_y: int,
    quant: Option<int>,
) -> Samples {
    Samples {
        y: plane_part(src, reference, 0, p, mv_x, mv_y, quant).painted(s.y),
        cb: plane_part(src, reference, 1, p, mv_x, mv_y, quant).painted(s.cb),
        cr: plane_part(src, reference, 2, p, mv_x, mv_y, quant).painted(s.cr),
        width: s.width,
        height: s.height,
    }
}

/// The partition lies inside the picture.
pub open spec fn partition_fits(p: PartitionDecision, width: int, height: int) -> bool {
    p.w > 0 && p.h > 0 && p.x + p.w <= width && p.y + p.h <= height
}

/// A flag per 4x4 cell once the cells of a partition are set to `value`.
pub open spec fn with_cells(intra: Seq<bool>, columns: int, p: PartitionDecision, value: bool) -> Seq<bool> {
    Seq::new(
        intra.len(),
        |i: int|
            if p.x as int / 4 <= i % columns < (p.x + p.w + 3) / 4 && p.y as int / 4 <= i / columns < (p.y + p.h + 3)
                / 4 {
                value
            } else {
                intra[i]
            },
    )
}

/// A picture under reconstruction and which of its 4x4 cells are intra coded.
pub struct State {
    pub samples: Samples,
    pub intra: Seq<bool>,
}

/// Whether a block is coded as an intra PCM block: there is no reference, or PCM won
/// the search.
pub open spec fn coded_as_pcm(reference: Option<Frame>, block: BlockDecision) -> bool {
    reference is None || block.rd_cost >= block.pcm_cost
}

/// The state once one partition of a block is reconstructed.
pub open spec fn after_partition(
    s: State,
    src: Frame,
    reference: Option<Frame>,
    block: BlockDecision,
    p: PartitionDecision,
    quant: Option<int>,
) -> State {
    let pcm = coded_as_pcm(reference, block);
    State {
        samples: if pcm {
            with_partition(s.samples, src, None, p, 0, 0, quant)
        } else {
            with_partition(s.samples, src, reference, p, p.mv_x as int, p.mv_y as int, quant)
        },
        intra: with_cells(s.intra, src.width / 4, p, pcm),
    }
}

/// The state once the first `n` partitions of a block are reconstructed.
pub open spec fn after_partitions(
    s: State,
    src: Frame,
    reference: Option<Frame>,
    block: BlockDecision,
    quant: Option<int>,
    n: nat,
) -> State
    decreases n,
{
    if n == 0 {
        s
    } else {
        after_partition(
            after_partitions(s, src, reference, block, quant, (n - 1) as nat),
            src,
            reference,
            block,
            block.partitions@[n - 1],
            quant,
        )
    }
}

/// The state once the first `n` blocks are reconstructed.
pub open spec fn after_blocks(
    s: State,
    src: Frame,
    reference: Option<Frame>,
    blocks: Seq<BlockDecision>,
    quant: Option<int>,
    n: nat,
) -> State
    decreases n,
{
    if n == 0 {
        s
    } else {
        let block = blocks[n - 1];
        after_partitions(
            after_blocks(s, src, reference, blocks, quant, (n - 1) as nat),
            src,
            reference,
            block,
            quant,
            block.partitions@.len(),
        )
    }
}

/// An empty picture, all of it intra.
pub open spec fn blank(width: int, height: int) -> State {
    State {
        samples: Samples {
            y: Seq::new((width * height) as nat, |i: int| 0i32),
            cb: Seq::new(((width / 2) * (height / 2)) as nat, |i: int| 0i32),
            cr: Seq::new(((width / 2) * (height / 2)) as nat, |i: int| 0i32),
            width,
            height,
        },
        intra: Seq::new(((width / 4) * (height / 4)) as nat, |i: int| true),
    }
}

/// A deblocked picture.
pub open spec fn deblocked_picture(s: Samples, intra: Seq<bool>, qp: int) -> Samples {
    Samples {
        y: deblocked(s.y, s.width, s.height, true, intra, qp),
        cb: deblocked(s.cb, s.width / 2, s.height / 2, false, intra, qp),
        cr: deblocked(s.cr, s.width / 2, s.height / 2, false, intra, qp),
        width: s.width,
        height: s.height,
    }
}

/// A picture after its offsets have been added.
pub open spec fn offset_picture(s: Samples, grid: Seq<SaoCell>) -> Samples {
    let columns = s.width / 16;
    Samples {
        y: sao_plane(s.y, s.width, s.height, 0, 16, columns, grid),
        cb: sao_plane(s.cb, s.width / 2, s.height / 2, 1, 8, columns, grid),
        cr: sao_plane(s.cr, s.width / 2, s.height / 2, 2, 8, columns, grid),
        width: s.width,
        height: s.height,
    }
}

/// The prices of a search that codes no syntax.
pub open spec fn free() -> SaoLambda {
    SaoLambda { mode_q8: 0, band_q8: 0 }
}

/// The reconstruction of a picture before the loop filters.
pub open spec fn unfiltered(
    src: Frame,
    reference: Option<Frame>,
    blocks: Seq<BlockDecision>,
    cfg: ReconConfig,
) -> State {
    let quant = if cfg.quantized_residual {
        Some(cfg.qp as int)
    } else {
        None
    };
    after_blocks(blank(src.width, src.height), src, reference, blocks, quant, blocks.len())
}

/// The reconstruction of a picture.
pub open spec fn reconstructed(
    src: Frame,
    reference: Option<Frame>,
    blocks: Seq<BlockDecision>,
    cfg: ReconConfig,
) -> Frame {
    let s = unfiltered(src, reference, blocks, cfg);
    let d = if cfg.deblocking && !cfg.pcm_loop_filter_disabled {
        deblocked_picture(s.samples, s.intra, cfg.qp as int)
    } else {
        s.samples
    };
    let o = if (cfg.sao_luma || cfg.sao_chroma) && !cfg.pcm_loop_filter_disabled {
        offset_picture(d, estimated_grid(d, src, cfg.sao_luma, cfg.sao_chroma, free()))
    } else {
        d
    };
    narrowed_frame(o)
}

/// A reference counts only where it has the sides of the source.
pub open spec fn usable(reference: Option<&ReconstructedPicture>, width: int, height: int) -> Option<Frame> {
    match reference {
        Some(r) => if r@.width == width && r@.height == height {
            Some(r@)
        } else {
            None
        },
        None => None,
    }
}

/// Every partition of a plan lies inside the picture.
pub open spec fn plan_fits(blocks: Seq<BlockDecision>, width: int, height: int) -> bool {
    forall|b: int, i: int|
        0 <= b < blocks.len() && 0 <= i < blocks[b].partitions@.len() ==> partition_fits(
            #[trigger] blocks[b].partitions@[i],
            width,
            height,
        )
}

fn half_of(v: i32) -> (h: i32)
    ensures
        h == half(v as int),
{
    if v >= 0 {
        v / 2
    } else {
        (0 - ((0 - v as i64) / 2)) as i32
    }
}

proof fn lemma_part_wf(
    src: Frame,
    reference: Option<Frame>,
    c: int,
    p: PartitionDecision,
    mv_x: int,
    mv_y: int,
    quant: Option<int>,
)
    requires
        src.wf(),
        match reference {
            Some(f) => f.wf(),
            None => true,
        },
        0 <= c < 3,
        partition_fits(p, src.width, src.height),
        i32::MIN <= mv_x <= i32::MAX,
        i32::MIN <= mv_y <= i32::MAX,
        match quant {
            Some(q) => q <= 215,
            None => true,
        },
    ensures
        plane_part(src, reference, c, p, mv_x, mv_y, quant).wf(),
{
}

/// A plane of a reference picture.
fn reference_of<'a>(reference: Option<&'a ReconstructedPicture>, c: usize) -> (r: Option<ReferencePlane<'a>>)
    requires
        c < 3,
    ensures
        (match r {
            Some(p) => Some(p@),
            None => None,
        }) == reference_plane(
            (match reference {
                Some(f) => Some(f@),
                None => None,
            }),
            c as int,
        ),
{
    match reference {
        Some(f) => {
            if c == 0 {
                Some(ReferencePlane { samples: f.y.as_slice(), width: f.width, height: f.height })
            } else if c == 1 {
                Some(ReferencePlane { samples: f.cb.as_slice(), width: f.width / 2, height: f.height / 2 })
            } else {
                Some(ReferencePlane { samples: f.cr.as_slice(), width: f.width / 2, height: f.height / 2 })
            }
        },
        None => None,
    }
}

/// Reconstructs one partition in all three planes.
#[verifier::rlimit(30)]
pub fn reconstruct_partition(
    pic: &mut Picture,
    src: &SourcePlanes<'_>,
    reference: Option<&ReconstructedPicture>,
    p: &PartitionDecision,
    mv_x: i32,
    mv_y: i32,
    quant: Option<i32>,
)
    requires
        old(pic)@.wf(),
        src@.wf(),
        old(pic)@.width == src@.width,
        old(pic)@.height == src@.height,
        match reference {
            Some(r) => r@.wf(),
            None => true,
        },
        partition_fits(*p, src@.width, src@.height),
        match quant {
            Some(q) => q <= 215,
            None => true,
        },
    ensures
        final(pic)@ == with_partition(
            old(pic)@,
            src@,
            (match reference {
                Some(r) => Some(r@),
                None => None,
            }),
            *p,
            mv_x as int,
            mv_y as int,
            (match quant {
                Some(q) => Some(q as int),
                None => None,
            }),
        ),
        final(pic)@.wf(),
{
    let ghost rf: Option<Frame> = match reference {
        Some(r) => Some(r@),
        None => None,
    };
    let ghost qf: Option<int> = match quant {
        Some(q) => Some(q as int),
        None => None,
    };
    proof {
        lemma_part_wf(src@, rf, 0, *p, mv_x as int, mv_y as int, qf);
        lemma_part_wf(src@, rf, 1, *p, mv_x as int, mv_y as int, qf);
        lemma_part_wf(src@, rf, 2, *p, mv_x as int, mv_y as int, qf);
    }
    let luma: PartitionJob<'_> = PartitionJob {
        source: src.y,
        stride: src.width,
        height: src.height,
        reference: reference_of(reference, 0),
        x: p.x,
        y: p.y,
        w: p.w,
        h: p.h,
        mv_x,
        mv_y,
        quant: match quant {
            Some(q) => Some(luma_qp(q, 8)),
            None => None,
        },
        component: Component::Luma,
    };
    assert(luma@ == plane_part(src@, rf, 0, *p, mv_x as int, mv_y as int, qf));
    reconstruct_component(&mut pic.y, &luma);
    let w: usize = if p.w / 2 < 1 {
        1
    } else {
        p.w / 2
    };
    let h: usize = if p.h / 2 < 1 {
        1
    } else {
        p.h / 2
    };
    let chroma_quant: Option<u32> = match quant {
        Some(q) => Some(chroma_qp(q, 0, 8, 1)),
        None => None,
    };
    let cb: PartitionJob<'_> = PartitionJob {
        source: src.cb,
        stride: src.width / 2,
        height: src.height / 2,
        reference: reference_of(reference, 1),
        x: p.x / 2,
        y: p.y / 2,
        w,
        h,
        mv_x: half_of(mv_x),
        mv_y: half_of(mv_y),
        quant: chroma_quant,
        component: Component::Cb,
    };
    assert(cb@ == plane_part(src@, rf, 1, *p, mv_x as int, mv_y as int, qf));
    reconstruct_component(&mut pic.cb, &cb);
    let cr: PartitionJob<'_> = PartitionJob {
        source: src.cr,
        reference: reference_of(reference, 2),
        component: Component::Cr,
        ..cb
    };
    assert(cr@ == plane_part(src@, rf, 2, *p, mv_x as int, mv_y as int, qf));
    reconstruct_component(&mut pic.cr, &cr);
}

/// Sets the cells of a partition.
fn fill_cells(intra: &mut Vec<bool>, columns: usize, rows: usize, p: &PartitionDecision, value: bool)
    requires
        old(intra)@.len() == columns * rows,
        0 < columns <= MAX_SIDE,
        rows <= MAX_SIDE,
        p.x + p.w <= 4 * columns,
        p.y + p.h <= 4 * rows,
    ensures
        final(intra)@ == with_cells(old(intra)@, columns as int, *p, value),
        final(intra)@.len() == old(intra)@.len(),
{
    let ghost before = intra@;
    let len: usize = intra.len();
    let x0: usize = p.x / 4;
    let y0: usize = p.y / 4;
    let x1: usize = (p.x + p.w + 3) / 4;
    let y1: usize = (p.y + p.h + 3) / 4;
    let mut i: usize = 0;
    while i < len
        invariant
            i <= len,
            len == before.len(),
            intra@.len() == len,
            columns > 0,
            x0 == p.x as int / 4,
            y0 == p.y as int / 4,
            x1 == (p.x + p.w + 3) / 4,
            y1 == (p.y + p.h + 3) / 4,
            forall|j: int| 0 <= j < i ==> #[trigger] intra@[j] == with_cells(before, columns as int, *p, value)[j],
            forall|j: int| i <= j < len ==> #[trigger] intra@[j] == before[j],
        decreases len - i,
    {
        let x: usize = i % columns;
        let y: usize = i / columns;
        if x0 <= x && x < x1 && y0 <= y && y < y1 {
            intra[i] = value;
        }
        i = i + 1;
    }
    assert(intra@ =~= with_cells(before, columns as int, *p, value));
}

/// Deblocks a picture.
fn deblock_samples(pic: &Picture, intra: &Vec<bool>, qp: i32) -> (out: Picture)
    requires
        pic@.wf(),
        is_cell_map(intra@, pic@.width, pic@.height),
    ensures
        out@ == deblocked_picture(pic@, intra@, qp as int),
        out@.wf(),
{
    let w: usize = pic.width;
    let h: usize = pic.height;
    assert(2 * (w as int / 2) == w && 2 * (h as int / 2) == h);
    assert((w as int / 2) % 8 == 0 && (h as int / 2) % 8 == 0);
    Picture {
        y: deblock_plane(&pic.y, w, h, true, intra, qp),
        cb: deblock_plane(&pic.cb, w / 2, h / 2, false, intra, qp),
        cr: deblock_plane(&pic.cr, w / 2, h / 2, false, intra, qp),
        width: w,
        height: h,
    }
}

/// Adds the offsets of a grid to a picture.
fn offset_samples(pic: &Picture, grid: &Vec<ResolvedSao>) -> (out: Picture)
    requires
        pic@.wf(),
        grid@.len() == (pic@.width / 16) * (pic@.height / 16),
        forall|i: int| 0 <= i < grid@.len() ==> (#[trigger] grid@[i])@.wf(),
    ensures
        out@ == offset_picture(pic@, cells(grid@)),
        out@.wf(),
{
    let w: usize = pic.width;
    let h: usize = pic.height;
    let columns: usize = w / 16;
    assert((h + 15) / 16 == h as int / 16);
    assert((h as int / 2 + 7) / 8 == h as int / 16);
    Picture {
        y: apply_sao_plane(&pic.y, w, h, 0, 16, columns, grid),
        cb: apply_sao_plane(&pic.cb, w / 2, h / 2, 1, 8, columns, grid),
        cr: apply_sao_plane(&pic.cr, w / 2, h / 2, 2, 8, columns, grid),
        width: w,
        height: h,
    }
}

proof fn lemma_blank(width: int, height: int)
    requires
        whole_blocks(width, height),
    ensures
        blank(width, height).samples.wf(),
        is_cell_map(blank(width, height).intra, width, height),
{
    assert(0 <= width * height) by (nonlinear_arith)
        requires
            width >= 0,
            height >= 0,
    ;
    assert(0 <= (width / 2) * (height / 2)) by (nonlinear_arith)
        requires
            width >= 0,
            height >= 0,
    ;
    assert(0 <= (width / 4) * (height / 4)) by (nonlinear_arith)
        requires
            width >= 0,
            height >= 0,
    ;
}

/// Every cell of a picture is intra coded.
pub open spec fn all_intra(width: int, height: int) -> Seq<bool> {
    Seq::new(((width / 4) * (height / 4)) as nat, |i: int| true)
}

/// A flag for every cell of a picture, all set.
fn intra_cells(width: usize, height: usize) -> (m: Vec<bool>)
    requires
        whole_blocks(width as int, height as int),
        width * height <= usize::MAX,
    ensures
        m@ == all_intra(width as int, height as int),
        is_cell_map(m@, width as int, height as int),
{
    proof {
        assert(0 <= (width as int / 4) * (height as int / 4) <= width * height) by (nonlinear_arith)
            requires
                width >= 0,
                height >= 0,
        ;
    }
    let m: Vec<bool> = vec![true; (width / 4) * (height / 4)];
    assert(m@ =~= all_intra(width as int, height as int));
    m
}

/// Reconstructs one coded picture and runs the in-loop filters over it.
///
/// `decision` is the plan for the picture, and `reference` the previous reconstructed
/// picture; one with other sides than the source is passed over.
#[verifier::rlimit(40)]
pub fn reconstruct_picture(
    src: &SourcePlanes<'_>,
    reference: Option<&ReconstructedPicture>,
    decision: &PictureDecision,
    cfg: ReconConfig,
) -> (out: ReconstructedPicture)
    requires
        src@.wf(),
        usable(reference, src@.width, src@.height) matches Some(r) ==> r.wf(),
        plan_fits(decision.blocks@, src@.width, src@.height),
        cfg.quantized_residual ==> cfg.qp <= 215,
    ensures
        out@ == reconstructed(src@, usable(reference, src@.width, src@.height), decision.blocks@, cfg),
        out@.wf(),
{
    let width: usize = src.width;
    let height: usize = src.height;
    let ylen: usize = src.y.len();
    let clen: usize = src.cb.len();
    let used: Option<&ReconstructedPicture> = match reference {
        Some(r) => if r.width == width && r.height == height {
            Some(r)
        } else {
            None
        },
        None => None,
    };
    let ghost rf: Option<Frame> = match used {
        Some(r) => Some(r@),
        None => None,
    };
    let quant: Option<i32> = if cfg.quantized_residual {
        Some(cfg.qp)
    } else {
        None
    };
    let ghost qf: Option<int> = match quant {
        Some(q) => Some(q as int),
        None => None,
    };
    proof {
        assert(rf == usable(reference, src@.width, src@.height));
        lemma_blank(width as int, height as int);
    }
    let mut pic: Picture = Picture {
        y: vec![0i32; ylen],
        cb: vec![0i32; clen],
        cr: vec![0i32; clen],
        width,
        height,
    };
    let mut intra: Vec<bool> = intra_cells(width, height);
    let ghost start = blank(width as int, height as int);
    assert(pic.y@ =~= start.samples.y);
    assert(pic.cb@ =~= start.samples.cb);
    assert(pic.cr@ =~= start.samples.cr);
    assert(intra@ =~= start.intra);
    let mut b: usize = 0;
    while b < decision.blocks.len()
        invariant
            b <= decision.blocks@.len(),
            src@.wf(),
            width == src@.width,
            height == src@.height,
            rf == (match used {
                Some(r) => Some(r@),
                None => None,
            }),
            qf == (match quant {
                Some(q) => Some(q as int),
                None => None,
            }),
            match used {
                Some(r) => r@.wf(),
                None => true,
            },
            match quant {
                Some(q) => q <= 215,
                None => true,
            },
            plan_fits(decision.blocks@, src@.width, src@.height),
            pic@.wf(),
            pic@.width == width,
            pic@.height == height,
            is_cell_map(intra@, width as int, height as int),
            (State { samples: pic@, intra: intra@ }) == after_blocks(start, src@, rf, decision.blocks@, qf, b as nat),
        decreases decision.blocks.len() - b,
    {
        let block: &BlockDecision = &decision.blocks[b];
        let pcm: bool = used.is_none() || block.rd_cost >= block.pcm_cost;
        let ghost before = State { samples: pic@, intra: intra@ };
        let mut i: usize = 0;
        while i < block.partitions.len()
            invariant
                i <= block.partitions@.len(),
                b < decision.blocks@.len(),
                *block == decision.blocks@[b as int],
                src@.wf(),
                width == src@.width,
                height == src@.height,
                rf == (match used {
                    Some(r) => Some(r@),
                    None => None,
                }),
                qf == (match quant {
                    Some(q) => Some(q as int),
                    None => None,
                }),
                match used {
                    Some(r) => r@.wf(),
                    None => true,
                },
                match quant {
                    Some(q) => q <= 215,
                    None => true,
                },
                pcm == coded_as_pcm(rf, *block),
                plan_fits(decision.blocks@, src@.width, src@.height),
                pic@.wf(),
                pic@.width == width,
                pic@.height == height,
                is_cell_map(intra@, width as int, height as int),
                (State { samples: pic@, intra: intra@ }) == after_partitions(before, src@, rf, *block, qf, i as nat),
            decreases block.partitions.len() - i,
        {
            let p: &PartitionDecision = &block.partitions[i];
            assert(partition_fits(decision.blocks@[b as int].partitions@[i as int], src@.width, src@.height));
            if pcm {
                reconstruct_partition(&mut pic, src, None, p, 0, 0, quant);
            } else {
                reconstruct_partition(&mut pic, src, used, p, p.mv_x, p.mv_y, quant);
            }
            fill_cells(&mut intra, width / 4, height / 4, p, pcm);
            i = i + 1;
        }
        b = b + 1;
    }
    if cfg.deblocking && !cfg.pcm_loop_filter_disabled {
        pic = deblock_samples(&pic, &intra, cfg.qp);
    }
    if (cfg.sao_luma || cfg.sao_chroma) && !cfg.pcm_loop_filter_disabled {
        let grid: Vec<ResolvedSao> = estimate_sao(
            &pic,
            src,
            cfg.sao_luma,
            cfg.sao_chroma,
            SaoLambda::closed_form(0),
        );
        pic = offset_samples(&pic, &grid);
    }
    pic.to_frame()
}

/// The coding unit of a coding tree block, as the deblocking filter sees it: where it
/// stands, its QP, and which of its edges are filtered.
#[derive(Clone, Copy, Debug, PartialEq, Eq, Structural)]
pub struct DeblockUnit {
    pub x_cb: usize,
    pub y_cb: usize,
    pub qp_y: i32,
    pub filter_left: bool,
    pub filter_top: bool,
}

/// One descriptor per coding unit, in raster order. Only the edges of the picture
/// are left out.
pub fn deblock_descriptors(width: usize, height: usize, qp: i32) -> (cus: Vec<DeblockUnit>)
    requires
        whole_blocks(width as int, height as int),
        width * height <= usize::MAX,
    ensures
        cus@.len() == (width as int / 16) * (height as int / 16),
        forall|i: int|
            0 <= i < cus@.len() ==> {
                let x = i % (width as int / 16) * 16;
                let y = i / (width as int / 16) * 16;
                #[trigger] cus@[i] == (DeblockUnit {
                    x_cb: x as usize,
                    y_cb: y as usize,
                    qp_y: qp,
                    filter_left: x > 0,
                    filter_top: y > 0,
                })
            },
{
    let columns: usize = width / CTB;
    let rows: usize = height / CTB;
    let mut cus: Vec<DeblockUnit> = Vec::new();
    let mut r: usize = 0;
    while r < rows
        invariant
            r <= rows,
            whole_blocks(width as int, height as int),
            columns == width as int / 16,
            rows == height as int / 16,
            cus@.len() == r * columns,
            forall|i: int|
                0 <= i < cus@.len() ==> {
                    let x = i % (columns as int) * 16;
                    let y = i / (columns as int) * 16;
                    #[trigger] cus@[i] == (DeblockUnit {
                        x_cb: x as usize,
                        y_cb: y as usize,
                        qp_y: qp,
                        filter_left: x > 0,
                        filter_top: y > 0,
                    })
                },
        decreases rows - r,
    {
        let mut c: usize = 0;
        while c < columns
            invariant
                r < rows,
                c <= columns,
                whole_blocks(width as int, height as int),
                columns == width as int / 16,
                rows == height as int / 16,
                cus@.len() == r * columns + c,
                forall|i: int|
                    0 <= i < cus@.len() ==> {
                        let x = i % (columns as int) * 16;
                        let y = i / (columns as int) * 16;
                        #[trigger] cus@[i] == (DeblockUnit {
                            x_cb: x as usize,
                            y_cb: y as usize,
                            qp_y: qp,
                            filter_left: x > 0,
                            filter_top: y > 0,
                        })
                    },
            decreases columns - c,
        {
            proof {
                crate::arith::lemma_grid(r as int, c as int, columns as int, rows as int);
            }
            cus.push(
                DeblockUnit { x_cb: c * CTB, y_cb: r * CTB, qp_y: qp, filter_left: c > 0, filter_top: r > 0 },
            );
            c = c + 1;
        }
        proof {
            assert((r + 1) * columns == r * columns + columns) by (nonlinear_arith);
        }
        r = r + 1;
    }
    proof {
        assert(rows * columns == columns * rows) by (nonlinear_arith);
    }
    cus
}

/// A finished intra reconstruction after the deblocking filter.
pub open spec fn deblocked_frame(f: Frame, qp: int) -> Frame {
    narrowed_frame(deblocked_picture(widened_frame(f), all_intra(f.width, f.height), qp))
}

/// Runs the deblocking filter over a finished intra reconstruction.
pub fn deblock_reconstruction(recon: &ReconstructedPicture, qp: i32) -> (out: ReconstructedPicture)
    requires
        recon@.wf(),
    ensures
        out@ == deblocked_frame(recon@, qp as int),
        out@.wf(),
{
    let ylen: usize = recon.y.len();
    let pic: Picture = Picture::from_frame(recon);
    let intra: Vec<bool> = intra_cells(recon.width, recon.height);
    deblock_samples(&pic, &intra, qp).to_frame()
}

/// The offsets that the search takes for a deblocked reconstruction.
pub open spec fn frame_grid(f: Frame, src: Frame, lambda: SaoLambda) -> Seq<SaoCell> {
    estimated_grid(widened_frame(f), src, true, true, lambda)
}

/// A deblocked reconstruction after the offsets that the search takes for it.
pub open spec fn offset_frame(f: Frame, src: Frame, lambda: SaoLambda) -> Frame {
    narrowed_frame(offset_picture(widened_frame(f), frame_grid(f, src, lambda)))
}

/// Searches the offsets of a finished, already deblocked reconstruction, and returns
/// the picture with them added and the parameters of each coding tree block.
pub fn sao_reconstruction(recon: &ReconstructedPicture, src: &SourcePlanes<'_>, lambda: SaoLambda) -> (out: (
    ReconstructedPicture,
    Vec<ResolvedSao>,
))
    requires
        recon@.wf(),
        src@.wf(),
        src@.width == recon@.width,
        src@.height == recon@.height,
    ensures
        out.0@ == offset_frame(recon@, src@, lambda),
        out.0@.wf(),
        cells(out.1@) == frame_grid(recon@, src@, lambda),
        out.1@.len() == (recon@.width / 16) * (recon@.height / 16),
        forall|i: int| 0 <= i < out.1@.len() ==> (#[trigger] out.1@[i])@.wf(),
{
    let pic: Picture = Picture::from_frame(recon);
    let grid: Vec<ResolvedSao> = estimate_sao(&pic, src, true, true, lambda);
    (offset_samples(&pic, &grid).to_frame(), grid)
}

/// A luma sample lies in a partition.
pub open spec fn covered(p: PartitionDecision, x: int, y: int) -> bool {
    p.x <= x < p.x + p.w && p.y <= y < p.y + p.h
}

/// Every side of a partition is even, so that its chroma half is exact.
pub open spec fn is_even(p: PartitionDecision) -> bool {
    p.x % 2 == 0 && p.y % 2 == 0 && p.w % 2 == 0 && p.h % 2 == 0
}

/// The partitions of a plan are even and cover every sample of the picture.
pub open spec fn plan_covers(blocks: Seq<BlockDecision>, width: int, height: int) -> bool {
    &&& forall|b: int, i: int|
        0 <= b < blocks.len() && 0 <= i < blocks[b].partitions@.len() ==> is_even(#[trigger] blocks[b].partitions@[i])
    &&& forall|x: int, y: int|
        #![trigger covered_by_plan(blocks, x, y)]
        0 <= x < width && 0 <= y < height ==> covered_by_plan(blocks, x, y)
}

/// Some partition of a plan covers a sample.
pub open spec fn covered_by_plan(blocks: Seq<BlockDecision>, x: int, y: int) -> bool {
    exists|b: int, i: int|
        0 <= b < blocks.len() && 0 <= i < blocks[b].partitions@.len() && covered(
            #[trigger] blocks[b].partitions@[i],
            x,
            y,
        )
}

/// With an exact residual and neutral filters, the reconstruction of a picture whose
/// plan covers it is the source, whatever it was predicted from.
pub proof fn law_exact_reconstruction_is_the_source(
    src: Frame,
    reference: Option<Frame>,
    blocks: Seq<BlockDecision>,
    cfg: ReconConfig,
)
    requires
        src.wf(),
        plan_fits(blocks, src.width, src.height),
        plan_covers(blocks, src.width, src.height),
        !cfg.quantized_residual,
        cfg.pcm_loop_filter_disabled || !(cfg.deblocking || cfg.sao_luma || cfg.sao_chroma),
    ensures
        reconstructed(src, reference, blocks, cfg) == src,
{
    let s = unfiltered(src, reference, blocks, cfg);
    lemma_blank(src.width, src.height);
    lemma_plane_exact(src, reference, blocks, cfg, 0);
    lemma_plane_exact(src, reference, blocks, cfg, 1);
    lemma_plane_exact(src, reference, blocks, cfg, 2);
    let f = narrowed_frame(s.samples);
    lemma_sides(blank(src.width, src.height), src, reference, blocks, blocks.len());
    assert(f.y =~= src.y);
    assert(f.cb =~= src.cb);
    assert(f.cr =~= src.cr);
}

proof fn lemma_sides(s: State, src: Frame, reference: Option<Frame>, blocks: Seq<BlockDecision>, n: nat)
    requires
        n <= blocks.len(),
    ensures
        after_blocks(s, src, reference, blocks, None, n).samples.width == s.samples.width,
        after_blocks(s, src, reference, blocks, None, n).samples.height == s.samples.height,
    decreases n,
{
    if n > 0 {
        lemma_sides(s, src, reference, blocks, (n - 1) as nat);
        lemma_partition_sides(
            after_blocks(s, src, reference, blocks, None, (n - 1) as nat),
            src,
            reference,
            blocks[n - 1],
            blocks[n - 1].partitions@.len(),
        );
    }
}

proof fn lemma_partition_sides(s: State, src: Frame, reference: Option<Frame>, block: BlockDecision, n: nat)
    ensures
        after_partitions(s, src, reference, block, None, n).samples.width == s.samples.width,
        after_partitions(s, src, reference, block, None, n).samples.height == s.samples.height,
    decreases n,
{
    if n > 0 {
        lemma_partition_sides(s, src, reference, block, (n - 1) as nat);
    }
}

proof fn lemma_plane_exact(
    src: Frame,
    reference: Option<Frame>,
    blocks: Seq<BlockDecision>,
    cfg: ReconConfig,
    c: int,
)
    requires
        src.wf(),
        plan_fits(blocks, src.width, src.height),
        plan_covers(blocks, src.width, src.height),
        !cfg.quantized_residual,
        0 <= c < 3,
    ensures
        unfiltered(src, reference, blocks, cfg).samples.plane(c).len() == src.plane(c).len(),
        forall|j: int|
            0 <= j < src.plane(c).len() ==> #[trigger] unfiltered(src, reference, blocks, cfg).samples.plane(c)[j]
                == src.plane(c)[j],
{
    let start = blank(src.width, src.height);
    lemma_blank(src.width, src.height);
    let s = unfiltered(src, reference, blocks, cfg);
    let scale = if c == 0 { 1int } else { 2int };
    let w = src.width / scale;
    let h = src.height / scale;
    assert(src.plane(c).len() == w * h);
    assert(start.samples.plane(c).len() == w * h);
    assert forall|j: int| 0 <= j < w * h implies #[trigger] s.samples.plane(c)[j] == src.plane(c)[j] by {
        crate::arith::lemma_ungrid(j, w, h);
        let x = j % w * scale;
        let y = j / w * scale;
        assert(covered_by_plan(blocks, x, y));
        let (b, i) = choose|b: int, i: int|
            0 <= b < blocks.len() && 0 <= i < blocks[b].partitions@.len() && covered(
                #[trigger] blocks[b].partitions@[i],
                x,
                y,
            );
        lemma_blocks_exact(start, src, reference, blocks, blocks.len(), c, j, b, i);
    }
    lemma_lengths(start, src, reference, blocks, blocks.len(), c);
}

spec fn is_source(s: State, src: Frame, c: int, j: int) -> bool {
    s.samples.plane(c).len() == src.plane(c).len() && s.samples.plane(c)[j] == src.plane(c)[j]
}

/// The part of plane `c` that a partition covers.
spec fn part_of(src: Frame, c: int, p: PartitionDecision) -> Part {
    plane_part(src, None, c, p, 0, 0, None)
}

proof fn lemma_partition_exact(
    s: State,
    src: Frame,
    reference: Option<Frame>,
    block: BlockDecision,
    p: PartitionDecision,
    c: int,
    j: int,
)
    requires
        0 <= c < 3,
        0 <= j < src.plane(c).len(),
        s.samples.plane(c).len() == src.plane(c).len(),
        part_of(src, c, p).stride > 0,
    ensures
        after_partition(s, src, reference, block, p, None).samples.plane(c).len() == src.plane(c).len(),
        is_source(s, src, c, j) || part_of(src, c, p).covers(j) ==> is_source(
            after_partition(s, src, reference, block, p, None),
            src,
            c,
            j,
        ),
{
    let stride = part_of(src, c, p).stride;
    vstd::arithmetic::div_mod::lemma_fundamental_div_mod(j, stride);
    assert((j / stride) * stride + j % stride == j) by (nonlinear_arith)
        requires
            j == stride * (j / stride) + j % stride,
    ;
}

proof fn lemma_partitions_exact(
    s: State,
    src: Frame,
    reference: Option<Frame>,
    block: BlockDecision,
    n: nat,
    c: int,
    j: int,
)
    requires
        src.wf(),
        0 <= c < 3,
        0 <= j < src.plane(c).len(),
        s.samples.plane(c).len() == src.plane(c).len(),
        n <= block.partitions@.len(),
    ensures
        after_partitions(s, src, reference, block, None, n).samples.plane(c).len() == src.plane(c).len(),
        is_source(s, src, c, j) || (exists|i: int|
            0 <= i < n && part_of(src, c, #[trigger] block.partitions@[i]).covers(j)) ==> is_source(
            after_partitions(s, src, reference, block, None, n),
            src,
            c,
            j,
        ),
    decreases n,
{
    if n > 0 {
        lemma_partitions_exact(s, src, reference, block, (n - 1) as nat, c, j);
        let t = after_partitions(s, src, reference, block, None, (n - 1) as nat);
        lemma_partition_exact(t, src, reference, block, block.partitions@[n - 1], c, j);
    }
}

proof fn lemma_lengths(s: State, src: Frame, reference: Option<Frame>, blocks: Seq<BlockDecision>, n: nat, c: int)
    requires
        src.wf(),
        0 <= c < 3,
        s.samples.plane(c).len() == src.plane(c).len(),
        n <= blocks.len(),
    ensures
        after_blocks(s, src, reference, blocks, None, n).samples.plane(c).len() == src.plane(c).len(),
    decreases n,
{
    if n > 0 {
        lemma_lengths(s, src, reference, blocks, (n - 1) as nat, c);
        let t = after_blocks(s, src, reference, blocks, None, (n - 1) as nat);
        assert(src.plane(c).len() > 0) by {
            assert(src.width * src.height > 0) by (nonlinear_arith)
                requires
                    src.width > 0,
                    src.height > 0,
            ;
            assert((src.width / 2) * (src.height / 2) > 0) by (nonlinear_arith)
                requires
                    src.width >= 2,
                    src.height >= 2,
            ;
        }
        lemma_partitions_exact(t, src, reference, blocks[n - 1], blocks[n - 1].partitions@.len(), c, 0);
    }
}

proof fn lemma_blocks_exact(
    s: State,
    src: Frame,
    reference: Option<Frame>,
    blocks: Seq<BlockDecision>,
    n: nat,
    c: int,
    j: int,
    b: int,
    i: int,
)
    requires
        src.wf(),
        0 <= c < 3,
        0 <= j < src.plane(c).len(),
        s.samples.plane(c).len() == src.plane(c).len(),
        n <= blocks.len(),
        0 <= b < blocks.len(),
        0 <= i < blocks[b].partitions@.len(),
        is_even(blocks[b].partitions@[i]),
        covered(
            blocks[b].partitions@[i],
            if c == 0 { j % src.width } else { j % (src.width / 2) * 2 },
            if c == 0 { j / src.width } else { j / (src.width / 2) * 2 },
        ),
    ensures
        b < n ==> is_source(after_blocks(s, src, reference, blocks, None, n), src, c, j),
    decreases n,
{
    if n > 0 {
        lemma_blocks_exact(s, src, reference, blocks, (n - 1) as nat, c, j, b, i);
        lemma_lengths(s, src, reference, blocks, (n - 1) as nat, c);
        let t = after_blocks(s, src, reference, blocks, None, (n - 1) as nat);
        lemma_partitions_exact(t, src, reference, blocks[n - 1], blocks[n - 1].partitions@.len(), c, j);
        if b == n - 1 {
            assert(part_of(src, c, blocks[n - 1].partitions@[i]).covers(j));
        }
    }
}

/// The plan that the search makes fits the picture and covers it.
pub proof fn law_searched_plan_covers_the_picture(s: Search, blocks: Seq<BlockDecision>)
    requires
        whole_blocks(s.width, s.height),
        blocks.len() == (s.width / 16) * (s.height / 16),
        forall|i: int|
            0 <= i < blocks.len() ==> s.decides_block(
                #[trigger] blocks[i],
                i % (s.width / 16) * 16,
                i / (s.width / 16) * 16,
            ),
    ensures
        plan_fits(blocks, s.width, s.height),
        plan_covers(blocks, s.width, s.height),
{
    let columns = s.width / 16;
    let rows = s.height / 16;
    assert forall|b: int, i: int| 0 <= b < blocks.len() && 0 <= i < blocks[b].partitions@.len() implies partition_fits(
        #[trigger] blocks[b].partitions@[i],
        s.width,
        s.height,
    ) && is_even(blocks[b].partitions@[i]) by {
        crate::arith::lemma_ungrid(b, columns, rows);
        let x = b % columns * 16;
        let y = b / columns * 16;
        assert(s.decides_block(blocks[b], x, y));
        law_decided_block_follows_a_shape(s, blocks[b], x, y);
        lemma_shape_fits(blocks[b], x, y, i);
    }
    assert forall|x: int, y: int| 0 <= x < s.width && 0 <= y < s.height implies #[trigger] covered_by_plan(
        blocks,
        x,
        y,
    ) by {
        let bx = x / 16;
        let by = y / 16;
        crate::arith::lemma_grid(by, bx, columns, rows);
        let b = by * columns + bx;
        assert(s.decides_block(blocks[b], bx * 16, by * 16));
        law_decided_block_follows_a_shape(s, blocks[b], bx * 16, by * 16);
        lemma_shape_covers(blocks[b], bx * 16, by * 16, x, y);
    }
}

proof fn lemma_shape_fits(d: BlockDecision, x: int, y: int, i: int)
    requires
        exists|k: int| follows_shape(d, x, y, k),
        x % 16 == 0,
        y % 16 == 0,
        0 <= i < d.partitions@.len(),
    ensures
        d.partitions@[i].w > 0,
        d.partitions@[i].h > 0,
        d.partitions@[i].x + d.partitions@[i].w <= x + 16,
        d.partitions@[i].y + d.partitions@[i].h <= y + 16,
        is_even(d.partitions@[i]),
{
    let k = choose|k: int| follows_shape(d, x, y, k);
    let r = shapes(16)[k][i];
    assert(d.partitions@[i].x == x + r.0);
}

proof fn lemma_shape_covers(d: BlockDecision, bx: int, by: int, x: int, y: int)
    requires
        exists|k: int| follows_shape(d, bx, by, k),
        bx <= x < bx + 16,
        by <= y < by + 16,
    ensures
        exists|i: int| 0 <= i < d.partitions@.len() && covered(#[trigger] d.partitions@[i], x, y),
{
    let k = choose|k: int| follows_shape(d, bx, by, k);
    law_partitions_tile_the_block(16, k, x - bx, y - by);
    let i = choose|i: int| 0 <= i < shapes(16)[k].len() && #[trigger] covers(shapes(16)[k][i], x - bx, y - by);
    assert(covered(d.partitions@[i], x, y));
}

} // verus!
