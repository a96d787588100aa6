//! Laws of reconstruction: what is predicted exactly comes back whatever the quantizer, and
//! the loop filters follow the reconstruction.
use vstd::prelude::*;
use vstd::arithmetic::div_mod::lemma_fundamental_div_mod_converse;
use vstd::arithmetic::power2::{lemma2_to64, lemma_pow2_pos, lemma_pow2_unfold, pow2};
use crate::arith::{max, min};
use crate::cabac::clip3;
use crate::coded_block::{block_levels, block_residual, code_residual, round_trip, CodedResidual};
use crate::intra::is_samples;
use crate::matrix::{analysis, basis, block_side, sample};
use crate::partition::{tile_of, transform_block_size, Part};
use crate::picture::{
    narrowed, narrowed_frame, whole_blocks, widened, widened_frame, Frame, ReconstructedPicture, Samples, SourcePlanes,
};
use crate::rdo::{BlockDecision, PartitionDecision, PictureDecision};
use crate::recon::{
    after_blocks, after_partition, after_partitions, all_intra, blank, coded_as_pcm, covered, covered_by_plan,
    deblock_descriptors, deblock_reconstruction, is_even, plan_covers, plan_fits, plane_part, reconstruct_picture,
    reconstructed, sao_reconstruction, unfiltered, usable, DeblockUnit, ReconConfig, State,
};
use crate::residual::has_levels;
use crate::sao::ResolvedSao;
use crate::sao_search::SaoLambda;
use crate::transform::{
    chroma_qp, coefficients_of, columns_transformed, level_at, log2_of, luma_qp, quant_shift, rounding, row_pass,
    takes_dst, Component, PredMode,
};

verus! {

proof fn lemma_nothing_analyses(data: Seq<i32>, start: int, step: int, dst: bool, n: int, u: int, k: nat)
    requires
        forall|j: int| 0 <= j < k ==> #[trigger] sample(data, start, step, j) == 0,
    ensures
        analysis(data, start, step, dst, n, u, k) == 0,
    decreases k,
{
    if k > 0 {
        lemma_nothing_analyses(data, start, step, dst, n, u, (k - 1) as nat);
        assert(sample(data, start, step, k - 1) == 0);
        assert(basis(dst, n, u, k - 1) * 0 == 0) by (nonlinear_arith);
    }
}

proof fn lemma_half_rounds_away(shift: nat)
    requires
        shift >= 1,
    ensures
        crate::arith::round_shift(0, shift) == 0,
{
    lemma_pow2_pos((shift - 1) as nat);
    lemma_pow2_unfold(shift);
    vstd::arithmetic::div_mod::lemma_basic_div(pow2((shift - 1) as nat) as int, pow2(shift) as int);
}

/// A residual of zeros has no coefficients.
proof fn lemma_nothing_transforms(r: Seq<i32>, n: int, dst: bool, i: int)
    requires
        block_side(false, n),
        dst ==> n == 4,
        r.len() == n * n,
        forall|j: int| 0 <= j < r.len() ==> #[trigger] r[j] == 0,
        0 <= i < n * n,
    ensures
        coefficients_of(r, n, dst, 8, false)[i] == 0,
{
    lemma2_to64();
    let mid = columns_transformed(r, n, dst, 8);
    assert forall|k: int| 0 <= k < n * n implies #[trigger] mid[k] == 0 by {
        crate::arith::lemma_ungrid(k, n, n);
        assert forall|j: int| 0 <= j < n implies #[trigger] sample(r, k % n, n, j) == 0 by {
            crate::arith::lemma_grid(j, k % n, n, n);
            assert(r[k % n + j * n] == 0);
        }
        lemma_nothing_analyses(r, k % n, n, dst, n, k / n, n as nat);
        lemma_half_rounds_away((log2_of(n) + 8 - 9) as nat);
    }
    crate::arith::lemma_ungrid(i, n, n);
    let u = i / n;
    assert forall|j: int| 0 <= j < n implies #[trigger] sample(mid, u * n, 1, j) == 0 by {
        crate::arith::lemma_grid(u, j, n, n);
        assert(u * n + j * 1 == u * n + j);
        assert(mid[u * n + j] == 0);
    }
    lemma_nothing_analyses(mid, u * n, 1, dst, n, i % n, n as nat);
    lemma_half_rounds_away((log2_of(n) + 6) as nat);
    assert(row_pass(mid, n, dst, 8, false, u, i % n) == 0);
}

/// A residual of zeros is coded as nothing, and nothing comes back.
proof fn lemma_nothing_comes_back(r: Seq<i32>, n: int, q_p: int, component: Component, mode: PredMode)
    requires
        block_side(false, n),
        q_p >= 0,
        r.len() == n * n,
        forall|j: int| 0 <= j < r.len() ==> #[trigger] r[j] == 0,
    ensures
        round_trip(r, n, q_p, component, mode) == Seq::new((n * n) as nat, |i: int| 0i32),
{
    reveal(block_levels);
    reveal(block_residual);
    let dst = takes_dst(n, mode, component);
    let c = coefficients_of(r, n, dst, 8, false);
    let levels = block_levels(r, n, q_p, component, mode);
    assert forall|i: int| 0 <= i < levels.len() implies #[trigger] levels[i] == 0 by {
        lemma_nothing_transforms(r, n, dst, i);
        let shift = quant_shift(q_p, 8, n, false) as nat;
        let p = pow2(shift) as int;
        lemma_pow2_pos(shift);
        let add = rounding(shift, mode == PredMode::Intra);
        let part: int = if mode == PredMode::Intra {
            171
        } else {
            85
        };
        assert(add == part * p / 512);
        assert(0 <= part * p <= 171 * p) by (nonlinear_arith)
            requires
                0 <= part <= 171,
                p > 0,
        ;
        assert(0 <= add < p);
        vstd::arithmetic::div_mod::lemma_basic_div(add, p);
        let f = crate::transform::quant_factor(q_p, None, i);
        assert(0 * f == 0) by (nonlinear_arith);
        lemma2_to64();
        assert(level_at(c, n, q_p, 8, false, mode == PredMode::Intra, None, i) == 0);
    }
    assert(!has_levels(levels));
}

/// The part of plane `c` that a partition is reconstructed as.
spec fn used_part(
    src: Frame,
    reference: Option<Frame>,
    block: BlockDecision,
    p: PartitionDecision,
    c: int,
    quant: Option<int>,
) -> Part {
    if coded_as_pcm(reference, block) {
        plane_part(src, None, c, p, 0, 0, quant)
    } else {
        plane_part(src, reference, c, p, p.mv_x as int, p.mv_y as int, quant)
    }
}

/// The part is predicted exactly.
spec fn exact(part: Part) -> bool {
    forall|x: int, y: int|
        part.x <= x < part.x + part.w && part.y <= y < part.y + part.h ==> part.source[y * part.stride + x]
            == #[trigger] part.predicted(x, y)
}

proof fn lemma_exact_value(part: Part, x: int, y: int)
    requires
        exact(part),
        part.x <= x < part.x + part.w,
        part.y <= y < part.y + part.h,
        part.quant matches Some(q) ==> q >= 0,
    ensures
        part.value(x, y) == part.source[y * part.stride + x],
{
    if let Some(q) = part.quant {
        let n = tile_of(part.w, part.h);
        let (dx, dy) = (x - part.x, y - part.y);
        let (bx, by) = (dx / n * n, dy / n * n);
        let r = part.residual(bx, by);
        assert(bx >= 0 && by >= 0) by (nonlinear_arith)
            requires
                bx == dx / n * n,
                by == dy / n * n,
                dx >= 0,
                dy >= 0,
                n > 0,
        ;
        assert(0 < n * n) by (nonlinear_arith)
            requires
                n > 0,
        ;
        assert forall|i: int| 0 <= i < r.len() implies #[trigger] r[i] == 0 by {
            crate::arith::lemma_ungrid(i, n, n);
            if bx + i % n < part.w && by + i / n < part.h {
                let (px, py) = (part.x + bx + i % n, part.y + by + i / n);
                assert(part.source[py * part.stride + px] == part.predicted(px, py));
            }
        }
        lemma_nothing_comes_back(r, n, q, part.component, part.mode());
        crate::arith::lemma_grid(dy % n, dx % n, n, n);
        assert(part.coded(bx, by, q)[(dy % n) * n + dx % n] == 0);
        assert(part.source[y * part.stride + x] == part.predicted(x, y));
    }
}

/// Every part of a partition is predicted exactly.
spec fn partition_exact(
    src: Frame,
    reference: Option<Frame>,
    block: BlockDecision,
    p: PartitionDecision,
    quant: Option<int>,
) -> bool {
    forall|c: int| 0 <= c < 3 ==> exact(#[trigger] used_part(src, reference, block, p, c, quant))
}

spec fn is_source(s: State, src: Frame, c: int, j: int) -> bool {
    s.samples.plane(c).len() == src.plane(c).len() && s.samples.plane(c)[j] == src.plane(c)[j]
}

/// The part of plane `c` that a partition covers.
spec fn place_of(src: Frame, c: int, p: PartitionDecision) -> Part {
    plane_part(src, None, c, p, 0, 0, None)
}

proof fn lemma_partition(
    s: State,
    src: Frame,
    reference: Option<Frame>,
    block: BlockDecision,
    p: PartitionDecision,
    quant: Option<int>,
    c: int,
    j: int,
)
    requires
        0 <= c < 3,
        0 <= j < src.plane(c).len(),
        s.samples.plane(c).len() == src.plane(c).len(),
        place_of(src, c, p).stride > 0,
        quant matches Some(q) ==> -1000 <= q <= 1000,
        partition_exact(src, reference, block, p, quant),
    ensures
        after_partition(s, src, reference, block, p, quant).samples.plane(c).len() == src.plane(c).len(),
        is_source(s, src, c, j) || place_of(src, c, p).covers(j) ==> is_source(
            after_partition(s, src, reference, block, p, quant),
            src,
            c,
            j,
        ),
{
    let part = used_part(src, reference, block, p, c, quant);
    let stride = part.stride;
    vstd::arithmetic::div_mod::lemma_fundamental_div_mod(j, stride);
    assert((j / stride) * stride + j % stride == j) by (nonlinear_arith)
        requires
            j == stride * (j / stride) + j % stride,
    ;
    assert(exact(part));
    if part.covers(j) {
        lemma_exact_value(part, j % stride, j / stride);
    }
    assert(part.source == src.plane(c));
    assert(place_of(src, c, p).covers(j) == part.covers(j));
}

proof fn lemma_partitions(
    s: State,
    src: Frame,
    reference: Option<Frame>,
    block: BlockDecision,
    quant: Option<int>,
    n: nat,
    c: int,
    j: int,
)
    requires
        src.wf(),
        0 <= c < 3,
        0 <= j < src.plane(c).len(),
        s.samples.plane(c).len() == src.plane(c).len(),
        n <= block.partitions@.len(),
        quant matches Some(q) ==> -1000 <= q <= 1000,
        forall|i: int|
            0 <= i < block.partitions@.len() ==> partition_exact(
                src,
                reference,
                block,
                #[trigger] block.partitions@[i],
                quant,
            ),
    ensures
        after_partitions(s, src, reference, block, quant, n).samples.plane(c).len() == src.plane(c).len(),
        is_source(s, src, c, j) || (exists|i: int|
            0 <= i < n && place_of(src, c, #[trigger] block.partitions@[i]).covers(j)) ==> is_source(
            after_partitions(s, src, reference, block, quant, n),
            src,
            c,
            j,
        ),
    decreases n,
{
    if n > 0 {
        lemma_partitions(s, src, reference, block, quant, (n - 1) as nat, c, j);
        let t = after_partitions(s, src, reference, block, quant, (n - 1) as nat);
        assert(partition_exact(src, reference, block, block.partitions@[n - 1], quant));
        lemma_partition(t, src, reference, block, block.partitions@[n - 1], quant, c, j);
    }
}

/// Every partition of a plan is predicted exactly.
spec fn plan_exact(src: Frame, reference: Option<Frame>, blocks: Seq<BlockDecision>, quant: Option<int>) -> bool {
    forall|b: int, i: int|
        0 <= b < blocks.len() && 0 <= i < blocks[b].partitions@.len() ==> partition_exact(
            src,
            reference,
            blocks[b],
            #[trigger] blocks[b].partitions@[i],
            quant,
        )
}

proof fn lemma_blocks(
    s: State,
    src: Frame,
    reference: Option<Frame>,
    blocks: Seq<BlockDecision>,
    quant: Option<int>,
    n: nat,
    c: int,
    j: int,
)
    requires
        src.wf(),
        0 <= c < 3,
        0 <= j < src.plane(c).len(),
        s.samples.plane(c).len() == src.plane(c).len(),
        n <= blocks.len(),
        quant matches Some(q) ==> -1000 <= q <= 1000,
        plan_exact(src, reference, blocks, quant),
    ensures
        after_blocks(s, src, reference, blocks, quant, n).samples.plane(c).len() == src.plane(c).len(),
        forall|b: int, i: int|
            0 <= b < n && 0 <= i < blocks[b].partitions@.len() && place_of(
                src,
                c,
                #[trigger] blocks[b].partitions@[i],
            ).covers(j) ==> is_source(after_blocks(s, src, reference, blocks, quant, n), src, c, j),
    decreases n,
{
    if n > 0 {
        let m = (n - 1) as nat;
        lemma_blocks(s, src, reference, blocks, quant, m, c, j);
        let t = after_blocks(s, src, reference, blocks, quant, m);
        lemma_partitions(t, src, reference, blocks[n - 1], quant, blocks[n - 1].partitions@.len(), c, j);
        assert forall|b: int, i: int|
            0 <= b < n && 0 <= i < blocks[b].partitions@.len() && place_of(
                src,
                c,
                #[trigger] blocks[b].partitions@[i],
            ).covers(j) implies is_source(after_blocks(s, src, reference, blocks, quant, n), src, c, j) by {
            if b < m {
                assert(is_source(t, src, c, j));
            }
        }
    }
}

proof fn lemma_sides(
    s: State,
    src: Frame,
    reference: Option<Frame>,
    blocks: Seq<BlockDecision>,
    quant: Option<int>,
    n: nat,
)
    requires
        n <= blocks.len(),
    ensures
        after_blocks(s, src, reference, blocks, quant, n).samples.width == s.samples.width,
        after_blocks(s, src, reference, blocks, quant, n).samples.height == s.samples.height,
    decreases n,
{
    if n > 0 {
        lemma_sides(s, src, reference, blocks, quant, (n - 1) as nat);
        lemma_partition_sides(
            after_blocks(s, src, reference, blocks, quant, (n - 1) as nat),
            src,
            reference,
            blocks[n - 1],
            quant,
            blocks[n - 1].partitions@.len(),
        );
    }
}

proof fn lemma_partition_sides(
    s: State,
    src: Frame,
    reference: Option<Frame>,
    block: BlockDecision,
    quant: Option<int>,
    n: nat,
)
    ensures
        after_partitions(s, src, reference, block, quant, n).samples.width == s.samples.width,
        after_partitions(s, src, reference, block, quant, n).samples.height == s.samples.height,
    decreases n,
{
    if n > 0 {
        lemma_partition_sides(s, src, reference, block, quant, (n - 1) as nat);
    }
}

/// `h` is half of `v`, towards zero.
pub open spec fn halves(v: int, h: int) -> bool {
    (v >= 0 ==> 2 * h <= v <= 2 * h + 1) && (v <= 0 ==> 2 * h - 1 <= v <= 2 * h)
}

/// Every sample of a plane that a partition covers is the one that the reference holds `dx`
/// columns and `dy` rows further on, the sides repeated; without a reference it is 128.
pub open spec fn found_at(
    plane: Seq<u8>,
    width: int,
    height: int,
    reference: Option<Seq<u8>>,
    x0: int,
    y0: int,
    x1: int,
    y1: int,
    dx: int,
    dy: int,
) -> bool {
    forall|x: int, y: int|
        #![trigger plane[y * width + x]]
        x0 <= x < x1 && y0 <= y < y1 ==> plane[y * width + x] == (match reference {
            Some(r) => r[clip3(0, height - 1, y + dy) * width + clip3(0, width - 1, x + dx)],
            None => 128u8,
        })
}

/// A partition of the source is what its vector finds in the reference: luma at the vector,
/// both chroma planes at half of it; a block that is coded without a reference is grey.
pub open spec fn motion_explains(
    src: Frame,
    reference: Option<Frame>,
    block: BlockDecision,
    p: PartitionDecision,
    hx: int,
    hy: int,
) -> bool {
    let alone = reference is None || block.rd_cost >= block.pcm_cost;
    let planes: (Option<Seq<u8>>, Option<Seq<u8>>, Option<Seq<u8>>) = if alone {
        (None, None, None)
    } else {
        (Some(reference->0.y), Some(reference->0.cb), Some(reference->0.cr))
    };
    let (w, h) = (src.width, src.height);
    let (x0, y0, x1, y1) = (p.x as int, p.y as int, p.x + p.w, p.y + p.h);
    &&& halves(p.mv_x as int, hx) && halves(p.mv_y as int, hy)
    &&& found_at(src.y, w, h, planes.0, x0, y0, x1, y1, p.mv_x as int, p.mv_y as int)
    &&& found_at(src.cb, w / 2, h / 2, planes.1, x0 / 2, y0 / 2, x1 / 2, y1 / 2, hx, hy)
    &&& found_at(src.cr, w / 2, h / 2, planes.2, x0 / 2, y0 / 2, x1 / 2, y1 / 2, hx, hy)
}

proof fn lemma_found(part: Part, plane: Seq<u8>, r: Option<Seq<u8>>, w: int, h: int, x1: int, y1: int, dx: int, dy: int)
    requires
        part.source == plane,
        part.stride == w,
        part.x + part.w == x1,
        part.y + part.h == y1,
        part.reference matches Some(m) ==> r == Some(m.samples) && m.width == w && m.height == h && part.mv_x == dx
            && part.mv_y == dy,
        part.reference is None ==> r is None,
        found_at(plane, w, h, r, part.x, part.y, x1, y1, dx, dy),
    ensures
        exact(part),
{
    assert forall|x: int, y: int|
        part.x <= x < part.x + part.w && part.y <= y < part.y + part.h implies part.source[y * part.stride + x]
        == #[trigger] part.predicted(x, y) by {
        assert(plane[y * w + x] == plane[y * w + x]);
    }
}

proof fn lemma_explained(
    src: Frame,
    reference: Option<Frame>,
    block: BlockDecision,
    p: PartitionDecision,
    hx: int,
    hy: int,
    quant: Option<int>,
)
    requires
        src.wf(),
        is_even(p),
        p.w > 0,
        p.h > 0,
        reference matches Some(r) ==> r.width == src.width && r.height == src.height,
        motion_explains(src, reference, block, p, hx, hy),
    ensures
        partition_exact(src, reference, block, p, quant),
{
    let (w, h) = (src.width, src.height);
    let (x1, y1) = (p.x + p.w, p.y + p.h);
    let alone = coded_as_pcm(reference, block);
    let (dx, dy) = (p.mv_x as int, p.mv_y as int);
    assert(crate::recon::half(dx) == hx && crate::recon::half(dy) == hy);
    let refs: (Option<Seq<u8>>, Option<Seq<u8>>, Option<Seq<u8>>) = if alone {
        (None, None, None)
    } else {
        (Some(reference->0.y), Some(reference->0.cb), Some(reference->0.cr))
    };
    lemma_found(used_part(src, reference, block, p, 0, quant), src.y, refs.0, w, h, x1, y1, dx, dy);
    lemma_found(used_part(src, reference, block, p, 1, quant), src.cb, refs.1, w / 2, h / 2, x1 / 2, y1 / 2, hx, hy);
    lemma_found(used_part(src, reference, block, p, 2, quant), src.cr, refs.2, w / 2, h / 2, x1 / 2, y1 / 2, hx, hy);
    assert forall|c: int| 0 <= c < 3 implies exact(#[trigger] used_part(src, reference, block, p, c, quant)) by {
        if c == 0 {
        } else if c == 1 {
        } else {
            assert(c == 2);
        }
    }
}

/// A picture that its motion explains comes back as it is, at every QP and quantized or not:
/// where every partition of the plan is what its vector finds in the reference, luma at the
/// vector and chroma at half of it, there is no residual to lose.
pub proof fn law_explained_picture_comes_back(
    src: &SourcePlanes<'_>,
    reference: Option<&ReconstructedPicture>,
    decision: &PictureDecision,
    cfg: ReconConfig,
    out: ReconstructedPicture,
)
    requires
        src@.wf(),
        usable(reference, src@.width, src@.height) matches Some(r) ==> r.wf(),
        plan_fits(decision.blocks@, src@.width, src@.height),
        plan_covers(decision.blocks@, src@.width, src@.height),
        0 <= cfg.qp <= 51,
        cfg.pcm_loop_filter_disabled || !(cfg.deblocking || cfg.sao_luma || cfg.sao_chroma),
        call_ensures(reconstruct_picture, (src, reference, decision, cfg), out),
        forall|b: int, i: int|
            0 <= b < decision.blocks@.len() && 0 <= i < decision.blocks@[b].partitions@.len() ==> exists|hx: int, hy: int|
                motion_explains(
                    src@,
                    usable(reference, src@.width, src@.height),
                    decision.blocks@[b],
                    #[trigger] decision.blocks@[b].partitions@[i],
                    hx,
                    hy,
                ),
    ensures
        out@ == src@,
{
    let (f, rf, blocks) = (src@, usable(reference, src@.width, src@.height), decision.blocks@);
    let quant = if cfg.quantized_residual {
        Some(cfg.qp as int)
    } else {
        None
    };
    assert(plan_exact(f, rf, blocks, quant)) by {
        assert forall|b: int, i: int|
            0 <= b < blocks.len() && 0 <= i < blocks[b].partitions@.len() implies partition_exact(
            f,
            rf,
            blocks[b],
            #[trigger] blocks[b].partitions@[i],
            quant,
        ) by {
            let p = blocks[b].partitions@[i];
            let (hx, hy) = choose|hx: int, hy: int| motion_explains(f, rf, blocks[b], p, hx, hy);
            assert(crate::recon::partition_fits(p, f.width, f.height));
            lemma_explained(f, rf, blocks[b], p, hx, hy, quant);
        }
    }
    let s = unfiltered(f, rf, blocks, cfg);
    let start = blank(f.width, f.height);
    lemma_plane(f, rf, blocks, quant, 0);
    lemma_plane(f, rf, blocks, quant, 1);
    lemma_plane(f, rf, blocks, quant, 2);
    lemma_sides(start, f, rf, blocks, quant, blocks.len());
    let n = narrowed_frame(s.samples);
    assert(n.y =~= f.y);
    assert(n.cb =~= f.cb);
    assert(n.cr =~= f.cr);
}

proof fn lemma_plane(src: Frame, reference: Option<Frame>, blocks: Seq<BlockDecision>, quant: Option<int>, c: int)
    requires
        src.wf(),
        plan_covers(blocks, src.width, src.height),
        plan_exact(src, reference, blocks, quant),
        quant matches Some(q) ==> -1000 <= q <= 1000,
        0 <= c < 3,
    ensures
        ({
            let s = after_blocks(blank(src.width, src.height), src, reference, blocks, quant, blocks.len());
            &&& s.samples.plane(c).len() == src.plane(c).len()
            &&& forall|j: int| 0 <= j < src.plane(c).len() ==> #[trigger] s.samples.plane(c)[j] == src.plane(c)[j]
        }),
{
    let start = blank(src.width, src.height);
    let s = after_blocks(start, src, reference, blocks, quant, blocks.len());
    let scale: int = if c == 0 {
        1
    } else {
        2
    };
    let w = src.width / scale;
    let h = src.height / scale;
    assert(0 <= src.width * src.height && 0 < w * h) by (nonlinear_arith)
        requires
            src.width >= 0,
            src.height >= 0,
            w > 0,
            h > 0,
    ;
    assert(0 <= (src.width / 2) * (src.height / 2)) by (nonlinear_arith)
        requires
            src.width >= 0,
            src.height >= 0,
    ;
    assert(src.plane(c).len() == w * h);
    assert(start.samples.plane(c).len() == w * h);
    lemma_blocks(start, src, reference, blocks, quant, blocks.len(), c, 0);
    assert forall|j: int| 0 <= j < w * h implies #[trigger] s.samples.plane(c)[j] == src.plane(c)[j] by {
        crate::arith::lemma_ungrid(j, w, h);
        let x = j % w * scale;
        let y = j / w * scale;
        assert(covered_by_plan(blocks, x, y));
        let (b, i) = choose|b: int, i: int|
            0 <= b < blocks.len() && 0 <= i < blocks[b].partitions@.len() && covered(
                #[trigger] blocks[b].partitions@[i],
                x,
                y,
            );
        lemma_blocks(start, src, reference, blocks, quant, blocks.len(), c, j);
        assert(is_even(blocks[b].partitions@[i]));
        assert(place_of(src, c, blocks[b].partitions@[i]).covers(j));
    }
}

/// Luma is quantized at the QP of the slice and both chroma planes at the one that 4:2:0
/// derives from it.
pub proof fn law_planes_quantize_at_their_qp(
    src: Frame,
    reference: Option<Frame>,
    p: PartitionDecision,
    mv_x: int,
    mv_y: int,
    qp: i32,
    luma: u32,
    chroma: u32,
)
    requires
        call_ensures(luma_qp, (qp, 8u8), luma),
        call_ensures(chroma_qp, (qp, 0i32, 8u8, 1u8), chroma),
    ensures
        ({
            let q = Some(qp as int);
            let parts = |c: int| plane_part(src, reference, c, p, mv_x, mv_y, q);
            &&& parts(0).quant == Some(luma as int) && parts(0).component == Component::Luma
            &&& parts(1).quant == Some(chroma as int) && parts(1).component == Component::Cb
            &&& parts(2).quant == Some(chroma as int) && parts(2).component == Component::Cr
        }),
{
}

proof fn lemma_partition_bounded(s: State, src: Frame, block: BlockDecision, quant: Option<int>, n: nat)
    requires
        n <= block.partitions@.len(),
        is_samples(s.samples.y),
        is_samples(s.samples.cb),
        is_samples(s.samples.cr),
    ensures
        ({
            let t = after_partitions(s, src, None, block, quant, n);
            &&& is_samples(t.samples.y) && is_samples(t.samples.cb) && is_samples(t.samples.cr)
            &&& (forall|i: int| 0 <= i < s.intra.len() ==> #[trigger] s.intra[i]) ==> t.intra == s.intra
        }),
    decreases n,
{
    if n > 0 {
        lemma_partition_bounded(s, src, block, quant, (n - 1) as nat);
        let t = after_partitions(s, src, None, block, quant, (n - 1) as nat);
        let u = after_partitions(s, src, None, block, quant, n);
        if forall|i: int| 0 <= i < s.intra.len() ==> #[trigger] s.intra[i] {
            assert(u.intra =~= s.intra);
        }
    }
}

proof fn lemma_bounded(src: Frame, blocks: Seq<BlockDecision>, quant: Option<int>, n: nat)
    requires
        n <= blocks.len(),
    ensures
        ({
            let t = after_blocks(blank(src.width, src.height), src, None, blocks, quant, n);
            &&& is_samples(t.samples.y) && is_samples(t.samples.cb) && is_samples(t.samples.cr)
            &&& t.intra == all_intra(src.width, src.height)
        }),
    decreases n,
{
    let start = blank(src.width, src.height);
    if n > 0 {
        lemma_bounded(src, blocks, quant, (n - 1) as nat);
        let t = after_blocks(start, src, None, blocks, quant, (n - 1) as nat);
        lemma_partition_bounded(t, src, blocks[n - 1], quant, blocks[n - 1].partitions@.len());
    } else {
        assert(start.intra =~= all_intra(src.width, src.height));
    }
}

proof fn lemma_widened_back(s: Samples)
    requires
        is_samples(s.y),
        is_samples(s.cb),
        is_samples(s.cr),
    ensures
        widened_frame(narrowed_frame(s)) == s,
{
    assert(widened(narrowed(s.y)) =~= s.y);
    assert(widened(narrowed(s.cb)) =~= s.cb);
    assert(widened(narrowed(s.cr)) =~= s.cr);
}

/// The same reconstruction with other filters.
pub open spec fn with_filters(cfg: ReconConfig, deblocking: bool, sao: bool) -> ReconConfig {
    ReconConfig { deblocking, sao_luma: sao, sao_chroma: sao, pcm_loop_filter_disabled: false, ..cfg }
}

/// The loop filters of an intra picture follow its reconstruction: deblocking while
/// reconstructing is deblocking the plain reconstruction afterwards, at the QP of the slice;
/// and offsets alone are those that the search finds for the plain reconstruction at no charge
/// for syntax.
pub proof fn law_filters_follow_the_reconstruction(
    src: &SourcePlanes<'_>,
    decision: &PictureDecision,
    cfg: ReconConfig,
    plain: &ReconstructedPicture,
    deblocked: ReconstructedPicture,
    deblocked_after: ReconstructedPicture,
    offset: ReconstructedPicture,
    offset_after: (ReconstructedPicture, Vec<ResolvedSao>),
)
    requires
        src@.wf(),
        plan_fits(decision.blocks@, src@.width, src@.height),
        cfg.quantized_residual ==> cfg.qp <= 215,
        call_ensures(reconstruct_picture, (src, None, decision, with_filters(cfg, false, false)), *plain),
        call_ensures(reconstruct_picture, (src, None, decision, with_filters(cfg, true, false)), deblocked),
        call_ensures(deblock_reconstruction, (plain, cfg.qp), deblocked_after),
        call_ensures(reconstruct_picture, (src, None, decision, with_filters(cfg, false, true)), offset),
        call_ensures(sao_reconstruction, (plain, src, SaoLambda { mode_q8: 0, band_q8: 0 }), offset_after),
    ensures
        deblocked@ == deblocked_after@,
        offset@ == offset_after.0@,
{
    let f = src@;
    let blocks = decision.blocks@;
    let quant = if cfg.quantized_residual {
        Some(cfg.qp as int)
    } else {
        None
    };
    let none: Option<&ReconstructedPicture> = None;
    assert(usable(none, f.width, f.height) is None);
    let s = unfiltered(f, None, blocks, with_filters(cfg, false, false));
    assert(s == unfiltered(f, None, blocks, with_filters(cfg, true, false)));
    assert(s == unfiltered(f, None, blocks, with_filters(cfg, false, true)));
    lemma_bounded(f, blocks, quant, blocks.len());
    lemma_sides(blank(f.width, f.height), f, None, blocks, quant, blocks.len());
    lemma_widened_back(s.samples);
}

/// The deblocking filter sees one unit for each 16x16 block: a sample stands in the unit that
/// the blocks before it count up to, every unit has the QP of the slice, and all edges are
/// filtered but those of the picture.
pub proof fn law_deblocking_units_tile_the_picture(
    width: usize,
    height: usize,
    qp: i32,
    cus: Vec<DeblockUnit>,
    x: int,
    y: int,
)
    requires
        whole_blocks(width as int, height as int),
        width * height <= usize::MAX,
        call_ensures(deblock_descriptors, (width, height, qp), cus),
        0 <= x < width,
        0 <= y < height,
    ensures
        cus@.len() * 256 == width * height,
        ({
            let i = (y / 16) * (width as int / 16) + x / 16;
            let u = cus@[i];
            &&& 0 <= i < cus@.len()
            &&& u.x_cb <= x < u.x_cb + 16 && u.x_cb % 16 == 0
            &&& u.y_cb <= y < u.y_cb + 16 && u.y_cb % 16 == 0
            &&& u.qp_y == qp
            &&& u.filter_left == (x >= 16)
            &&& u.filter_top == (y >= 16)
        }),
{
    let (c, r) = (width as int / 16, height as int / 16);
    crate::arith::lemma_grid(y / 16, x / 16, c, r);
    let i = (y / 16) * c + x / 16;
    assert(c * r == r * c) by (nonlinear_arith);
    let u = cus@[i];
    assert(i % c == x / 16 && i / c == y / 16);
    assert((c * r) * 256 == width * height) by (nonlinear_arith)
        requires
            width == 16 * c,
            height == 16 * r,
    ;
}

/// A partition is coded in square tiles of the largest side that both of its own allow, from
/// its corner on: each sample is its prediction and what the coder hands back at its place in
/// the tile for the differences of the tile, confined to a byte. What hangs over the partition
/// counts as no difference.
pub proof fn law_partitions_are_coded_in_tiles(
    part: Part,
    q: u32,
    n: usize,
    column: int,
    row: int,
    r: &[i32],
    c: CodedResidual,
    i: int,
    j: int,
)
    requires
        part.w > 0 && part.w <= usize::MAX,
        part.h > 0 && part.h <= usize::MAX,
        part.quant == Some(q as int),
        q <= 215,
        call_ensures(transform_block_size, (part.w as usize, part.h as usize), n),
        column >= 0,
        row >= 0,
        r@.len() == n * n,
        forall|y: int, x: int|
            0 <= y < n && 0 <= x < n ==> #[trigger] r@[y * n + x] == (if n * column + x < part.w && n * row + y < part.h {
                part.source[(part.y + n * row + y) * part.stride + (part.x + n * column + x)] - part.predicted(
                    part.x + n * column + x,
                    part.y + n * row + y,
                )
            } else {
                0
            }),
        call_ensures(code_residual, (r, n, q, part.component, part.mode()), c),
        0 <= i < n,
        0 <= j < n,
        n * column + i < part.w,
        n * row + j < part.h,
    ensures
        part.value(part.x + n * column + i, part.y + n * row + j) == clip3(
            0,
            255,
            part.predicted(part.x + n * column + i, part.y + n * row + j) + c.residual@[j * n + i],
        ),
        n == 4 || n == 8 || n == 16 || n == 32,
        n <= max(4, min(part.w, part.h)),
        n < 32 ==> 2 * n > min(part.w, part.h),
{
    let m = n as int;
    let (dx, dy) = (m * column + i, m * row + j);
    lemma_fundamental_div_mod_converse(dx, m, column, i);
    lemma_fundamental_div_mod_converse(dy, m, row, j);
    assert(column * m == m * column && row * m == m * row) by (nonlinear_arith);
    let want = part.residual(m * column, m * row);
    assert(m * m >= 0) by (nonlinear_arith)
        requires
            m >= 0,
    ;
    assert forall|k: int| 0 <= k < m * m implies want[k] == r@[k] by {
        crate::arith::lemma_ungrid(k, m, m);
        let (y, x) = (k / m, k % m);
        assert(y * m + x == k);
        assert(r@[y * m + x] == r@[k]);
    }
    assert(want =~= r@);
}

} // verus!
