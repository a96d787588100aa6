//! Sums over a picture, sample by sample and block by block, and what they say of the
//! sample-adaptive offsets of a whole picture.
use vstd::prelude::*;
use crate::arith::{lemma_grid, max, min};
use crate::bits::pack;
use crate::decision::{decision_pass, ModeSearch};
use crate::intra::is_samples;
use crate::lossy::{
    base_frame, countable, curve, decides, frame_sse, header_bits, offset_recon, plane_sse, question, search_prices, slice_rbsp,
    slice_recon, write_idr_residual_slice, CurvePoint, LoopFilter, SaoQuestion, MAX_PICTURE_SAMPLES,
};
use crate::picture::{
    narrowed, plane_side, whole_blocks, widened, widened_frame, Frame, ReconstructedPicture, SourcePlanes,
};
use crate::rebuild::{law_reconstruction_follows_the_records, law_records_are_linked, lemma_rebuilt_size, rebuilt};
use crate::recon::{frame_grid, offset_frame};
use crate::sao::{sao_plane, sao_sample, SaoModel};
use crate::sao_laws::{
    error_before, error_with, law_chroma_offsets_lower_the_error, law_luma_offsets_lower_the_error, row_after,
    row_before,
};
use crate::sao_search::{block_region, estimated_cell, Region, SaoLambda};
use crate::slice::Record;

verus! {

/// The sum of `d` over `n` places from `base` on.
pub open spec fn run_sum(d: spec_fn(int) -> int, base: int, n: nat) -> int
    decreases n,
{
    if n == 0 {
        0
    } else {
        run_sum(d, base, (n - 1) as nat) + d(base + n - 1)
    }
}

/// The sum over the first `n` rows of a plane of width `w`, from row `y0` on, `len`
/// places each from column `x0` on.
pub open spec fn rows_sum(d: spec_fn(int) -> int, w: int, x0: int, y0: int, len: nat, n: nat) -> int
    decreases n,
{
    if n == 0 {
        0
    } else {
        rows_sum(d, w, x0, y0, len, (n - 1) as nat) + run_sum(d, (y0 + n - 1) * w + x0, len)
    }
}

/// The sum over the first `k` blocks of side `u` of a row of blocks that starts in
/// row `y0`.
pub open spec fn strip_sum(d: spec_fn(int) -> int, w: int, y0: int, u: nat, k: nat) -> int
    decreases k,
{
    if k == 0 {
        0
    } else {
        strip_sum(d, w, y0, u, (k - 1) as nat) + rows_sum(d, w, u * (k - 1), y0, u, u)
    }
}

/// The sum over the first `m` rows of blocks of side `u`, `k` blocks each.
pub open spec fn blocks_sum(d: spec_fn(int) -> int, w: int, u: nat, k: nat, m: nat) -> int
    decreases m,
{
    if m == 0 {
        0
    } else {
        blocks_sum(d, w, u, k, (m - 1) as nat) + strip_sum(d, w, u * (m - 1), u, k)
    }
}

proof fn lemma_run_split(d: spec_fn(int) -> int, base: int, m: nat, n: nat)
    ensures
        run_sum(d, base, m + n) == run_sum(d, base, m) + run_sum(d, base + m, n),
    decreases n,
{
    if n > 0 {
        lemma_run_split(d, base, m, (n - 1) as nat);
        assert(base + m + n - 1 == base + (m + n) - 1);
    }
}

/// Rows one after another are one run.
proof fn lemma_rows_are_a_run(d: spec_fn(int) -> int, w: nat, h: nat)
    ensures
        run_sum(d, 0, w * h) == rows_sum(d, w as int, 0, 0, w, h),
    decreases h,
{
    if h == 0 {
        assert(w * 0 == 0) by (nonlinear_arith);
    } else {
        let k = (h - 1) as nat;
        lemma_rows_are_a_run(d, w, k);
        assert(w * h == w * k + w) by (nonlinear_arith)
            requires
                h == k + 1,
        ;
        lemma_run_split(d, 0, w * k, w);
        assert(k * w == w * k) by (nonlinear_arith);
    }
}

/// More rows are summed behind those before.
proof fn lemma_rows_split(d: spec_fn(int) -> int, w: int, x0: int, y0: int, len: nat, m: nat, n: nat)
    ensures
        rows_sum(d, w, x0, y0, len, m + n) == rows_sum(d, w, x0, y0, len, m) + rows_sum(d, w, x0, y0 + m, len, n),
    decreases n,
{
    if n > 0 {
        lemma_rows_split(d, w, x0, y0, len, m, (n - 1) as nat);
        assert(y0 + m + n - 1 == y0 + (m + n) - 1);
    }
}

/// Wider rows are the rows beside one another.
proof fn lemma_rows_beside(d: spec_fn(int) -> int, w: int, y0: int, a: nat, b: nat, n: nat)
    ensures
        rows_sum(d, w, 0, y0, a + b, n) == rows_sum(d, w, 0, y0, a, n) + rows_sum(d, w, a as int, y0, b, n),
    decreases n,
{
    if n > 0 {
        lemma_rows_beside(d, w, y0, a, b, (n - 1) as nat);
        lemma_run_split(d, (y0 + n - 1) * w, a, b);
    }
}

/// A row of blocks is its rows.
proof fn lemma_strip(d: spec_fn(int) -> int, w: int, y0: int, u: nat, k: nat)
    ensures
        strip_sum(d, w, y0, u, k) == rows_sum(d, w, 0, y0, u * k, u),
    decreases k,
{
    if k == 0 {
        assert(u * 0 == 0) by (nonlinear_arith);
        lemma_empty_rows(d, w, y0, u);
    } else {
        let j = (k - 1) as nat;
        lemma_strip(d, w, y0, u, j);
        assert(u * k == u * j + u) by (nonlinear_arith)
            requires
                k == j + 1,
        ;
        lemma_rows_beside(d, w, y0, u * j, u, u);
    }
}

proof fn lemma_empty_rows(d: spec_fn(int) -> int, w: int, y0: int, n: nat)
    ensures
        rows_sum(d, w, 0, y0, 0, n) == 0,
    decreases n,
{
    if n > 0 {
        lemma_empty_rows(d, w, y0, (n - 1) as nat);
    }
}

/// Blocks are rows.
proof fn lemma_blocks(d: spec_fn(int) -> int, w: int, u: nat, k: nat, m: nat)
    ensures
        blocks_sum(d, w, u, k, m) == rows_sum(d, w, 0, 0, u * k, u * m),
    decreases m,
{
    if m == 0 {
        assert(u * 0 == 0) by (nonlinear_arith);
    } else {
        let j = (m - 1) as nat;
        lemma_blocks(d, w, u, k, j);
        assert(u * m == u * j + u) by (nonlinear_arith)
            requires
                m == j + 1,
        ;
        lemma_rows_split(d, w, 0, 0, u * k, u * j, u);
        lemma_strip(d, w, (u * j) as int, u, k);
    }
}

/// The sum over a plane is the sum over its blocks.
pub proof fn law_plane_sum_is_block_sum(d: spec_fn(int) -> int, u: nat, k: nat, m: nat)
    ensures
        run_sum(d, 0, (u * k) * (u * m)) == blocks_sum(d, (u * k) as int, u, k, m),
{
    lemma_rows_are_a_run(d, u * k, u * m);
    lemma_blocks(d, (u * k) as int, u, k, m);
}

/// The squared error of a plane against another, place by place.
pub open spec fn squares(a: Seq<u8>, b: Seq<u8>) -> spec_fn(int) -> int {
    |i: int| (a[i] - b[i]) * (a[i] - b[i])
}

proof fn lemma_plane_sse(a: Seq<u8>, b: Seq<u8>, n: nat)
    ensures
        plane_sse(a, b, n) == run_sum(squares(a, b), 0, n),
    decreases n,
{
    if n > 0 {
        lemma_plane_sse(a, b, (n - 1) as nat);
    }
}

/// In the block in column `i` and row `j`, `a` and `b` together sum to no more than `c`
/// and `d`.
spec fn block_at_most(
    a: spec_fn(int) -> int,
    b: spec_fn(int) -> int,
    c: spec_fn(int) -> int,
    d: spec_fn(int) -> int,
    w: int,
    u: nat,
    i: int,
    j: int,
) -> bool {
    rows_sum(a, w, u * i, u * j, u, u) + rows_sum(b, w, u * i, u * j, u, u) <= rows_sum(c, w, u * i, u * j, u, u)
        + rows_sum(d, w, u * i, u * j, u, u)
}

proof fn lemma_strip_at_most(
    a: spec_fn(int) -> int,
    b: spec_fn(int) -> int,
    c: spec_fn(int) -> int,
    d: spec_fn(int) -> int,
    w: int,
    u: nat,
    j: int,
    k: nat,
)
    requires
        forall|i: int| 0 <= i < k ==> #[trigger] block_at_most(a, b, c, d, w, u, i, j),
    ensures
        strip_sum(a, w, u * j, u, k) + strip_sum(b, w, u * j, u, k) <= strip_sum(c, w, u * j, u, k) + strip_sum(
            d,
            w,
            u * j,
            u,
            k,
        ),
    decreases k,
{
    if k > 0 {
        lemma_strip_at_most(a, b, c, d, w, u, j, (k - 1) as nat);
        assert(block_at_most(a, b, c, d, w, u, k - 1, j));
    }
}

proof fn lemma_blocks_at_most(
    a: spec_fn(int) -> int,
    b: spec_fn(int) -> int,
    c: spec_fn(int) -> int,
    d: spec_fn(int) -> int,
    w: int,
    u: nat,
    k: nat,
    m: nat,
)
    requires
        forall|i: int, j: int| 0 <= i < k && 0 <= j < m ==> #[trigger] block_at_most(a, b, c, d, w, u, i, j),
    ensures
        blocks_sum(a, w, u, k, m) + blocks_sum(b, w, u, k, m) <= blocks_sum(c, w, u, k, m) + blocks_sum(d, w, u, k, m),
    decreases m,
{
    if m > 0 {
        lemma_blocks_at_most(a, b, c, d, w, u, k, (m - 1) as nat);
        lemma_strip_at_most(a, b, c, d, w, u, m - 1, k);
    }
}

/// A region of one plane against another of the same size.
spec fn region_over(r: Region, a: Seq<u8>, b: Seq<u8>) -> bool {
    &&& r.wf()
    &&& r.s == widened(a)
    &&& r.src == b
    &&& r.stride == r.w
    &&& b.len() == a.len()
}

proof fn lemma_row_before(r: Region, a: Seq<u8>, b: Seq<u8>, y: int, n: nat)
    requires
        region_over(r, a, b),
        r.y0 <= y < r.y1,
        n <= r.x1 - r.x0,
    ensures
        row_before(r, y, n) == run_sum(squares(a, b), y * r.w + r.x0, n),
    decreases n,
{
    if n > 0 {
        lemma_row_before(r, a, b, y, (n - 1) as nat);
        let x = r.x0 + n - 1;
        lemma_grid(y, x, r.w, r.h);
        let i = y * r.w + x;
        assert(r.s[i] == a[i]);
        let (p, q) = (a[i] as int, b[i] as int);
        assert((q - p) * (q - p) == (p - q) * (p - q)) by (nonlinear_arith);
        assert(y * r.w + r.x0 + n - 1 == i);
    }
}

proof fn lemma_before(r: Region, a: Seq<u8>, b: Seq<u8>, n: nat)
    requires
        region_over(r, a, b),
        n <= r.y1 - r.y0,
    ensures
        error_before(r, n) == rows_sum(squares(a, b), r.w, r.x0, r.y0, (r.x1 - r.x0) as nat, n),
    decreases n,
{
    if n > 0 {
        lemma_before(r, a, b, (n - 1) as nat);
        lemma_row_before(r, a, b, r.y0 + n - 1, (r.x1 - r.x0) as nat);
    }
}

/// In the region, `o` is the plane with the offsets of `m` added.
spec fn offset_in(r: Region, m: SaoModel, o: Seq<u8>) -> bool {
    forall|x: int, y: int|
        r.x0 <= x < r.x1 && r.y0 <= y < r.y1 ==> o[#[trigger] (y * r.w + x)] == sao_sample(r.s, r.w, r.h, m, x, y)
}

proof fn lemma_row_after(r: Region, m: SaoModel, a: Seq<u8>, b: Seq<u8>, o: Seq<u8>, y: int, n: nat)
    requires
        region_over(r, a, b),
        offset_in(r, m, o),
        r.y0 <= y < r.y1,
        n <= r.x1 - r.x0,
    ensures
        row_after(r, m, y, n) == run_sum(squares(o, b), y * r.w + r.x0, n),
    decreases n,
{
    if n > 0 {
        lemma_row_after(r, m, a, b, o, y, (n - 1) as nat);
        let x = r.x0 + n - 1;
        let i = y * r.w + x;
        let (p, q) = (o[i] as int, b[i] as int);
        assert(o[y * r.w + x] == sao_sample(r.s, r.w, r.h, m, x, y));
        assert((q - p) * (q - p) == (p - q) * (p - q)) by (nonlinear_arith);
        assert(y * r.w + r.x0 + n - 1 == i);
    }
}

proof fn lemma_after(r: Region, m: SaoModel, a: Seq<u8>, b: Seq<u8>, o: Seq<u8>, n: nat)
    requires
        region_over(r, a, b),
        offset_in(r, m, o),
        n <= r.y1 - r.y0,
    ensures
        error_with(r, m, n) == rows_sum(squares(o, b), r.w, r.x0, r.y0, (r.x1 - r.x0) as nat, n),
    decreases n,
{
    if n > 0 {
        lemma_after(r, m, a, b, o, (n - 1) as nat);
        lemma_row_after(r, m, a, b, o, r.y0 + n - 1, (r.x1 - r.x0) as nat);
    }
}

/// The side of a block in plane `c`.
spec fn unit_of_plane(c: int) -> int {
    if c == 0 {
        16
    } else {
        8
    }
}

proof fn lemma_unit_inside(u: int, i: int, k: int)
    by (nonlinear_arith)
    requires
        u > 0,
        0 <= i < k,
    ensures
        i * u == u * i,
        0 <= u * i,
        u * i + u <= u * k,
{
}

proof fn lemma_whole_units(side: int, c: int)
    requires
        side % 16 == 0,
    ensures
        plane_side(side, c) == unit_of_plane(c) * (side / 16),
{
    let k = side / 16;
    assert(side == 16 * k);
    if c == 0 {
        assert(unit_of_plane(c) * k == 16 * k);
    } else {
        assert(unit_of_plane(c) * k == 8 * k);
    }
}

/// The block in column `i` and row `j` of plane `c` lies inside it.
proof fn lemma_block_region(f: Frame, src: Frame, c: int, i: int, j: int)
    requires
        f.wf(),
        src.wf(),
        src.width == f.width,
        src.height == f.height,
        0 <= c <= 2,
        0 <= i < f.width / 16,
        0 <= j < f.height / 16,
    ensures
        ({
            let r = block_region(widened_frame(f), src, c, i, j);
            let u = unit_of_plane(c);
            &&& region_over(r, f.plane(c), src.plane(c))
            &&& r.w == plane_side(f.width, c)
            &&& r.x0 == u * i
            &&& r.y0 == u * j
            &&& r.x1 == r.x0 + u
            &&& r.y1 == r.y0 + u
        }),
{
    let u = unit_of_plane(c);
    let r = block_region(widened_frame(f), src, c, i, j);
    lemma_whole_units(f.width, c);
    lemma_whole_units(f.height, c);
    lemma_unit_inside(u, i, f.width / 16);
    lemma_unit_inside(u, j, f.height / 16);
    assert(r.s.len() == r.w * r.h);
    assert((r.h - 1) * r.w + r.w == r.w * r.h) by (nonlinear_arith);
    assert(is_samples(r.s));
}

/// Inside its block, the picture with its offsets is the picture with the offsets of the
/// block.
proof fn lemma_offset_in(f: Frame, src: Frame, lambda: SaoLambda, c: int, i: int, j: int)
    requires
        f.wf(),
        src.wf(),
        src.width == f.width,
        src.height == f.height,
        0 <= c <= 2,
        0 <= i < f.width / 16,
        0 <= j < f.height / 16,
    ensures
        offset_in(
            block_region(widened_frame(f), src, c, i, j),
            estimated_cell(widened_frame(f), src, true, true, lambda, i, j).component(c),
            offset_frame(f, src, lambda).plane(c),
        ),
{
    let pic = widened_frame(f);
    let r = block_region(pic, src, c, i, j);
    let u = unit_of_plane(c);
    let columns = f.width / 16;
    let grid = frame_grid(f, src, lambda);
    let m = estimated_cell(pic, src, true, true, lambda, i, j).component(c);
    let o = offset_frame(f, src, lambda).plane(c);
    lemma_block_region(f, src, c, i, j);
    lemma_grid(j, i, columns, f.height / 16);
    assert(grid[j * columns + i].component(c) == m);
    let plane = sao_plane(r.s, r.w, r.h, c, u, columns, grid);
    assert(o == narrowed(plane));
    assert forall|x: int, y: int| r.x0 <= x < r.x1 && r.y0 <= y < r.y1 implies o[#[trigger] (y * r.w + x)] == sao_sample(
        r.s,
        r.w,
        r.h,
        m,
        x,
        y,
    ) by {
        lemma_grid(y, x, r.w, r.h);
        let k = y * r.w + x;
        assert(k / r.w == y && k % r.w == x);
        assert(y / u == j && x / u == i) by {
            if c == 0 {
                assert(y / 16 == j && x / 16 == i);
            } else {
                assert(y / 8 == j && x / 8 == i);
            }
        }
        assert(0 <= r.s[k] <= 255);
        let v = sao_sample(r.s, r.w, r.h, m, x, y);
        assert(0 <= v <= 255);
        assert(plane[k] == v as i32);
    }
}

/// The offsets of a picture never raise its squared error against the source.
pub proof fn law_offsets_never_raise_the_error(f: Frame, src: Frame, lambda: SaoLambda)
    requires
        f.wf(),
        src.wf(),
        src.width == f.width,
        src.height == f.height,
    ensures
        frame_sse(offset_frame(f, src, lambda), src) <= frame_sse(f, src),
{
    let o = offset_frame(f, src, lambda);
    lemma_luma_error(f, src, lambda);
    lemma_chroma_error(f, src, lambda);
    lemma_offset_sizes(f, src, lambda);
}

proof fn lemma_offset_sizes(f: Frame, src: Frame, lambda: SaoLambda)
    requires
        f.wf(),
    ensures
        offset_frame(f, src, lambda).y.len() == f.y.len(),
        offset_frame(f, src, lambda).cb.len() == f.cb.len(),
        offset_frame(f, src, lambda).cr.len() == f.cr.len(),
{
}

/// The squared error of plane `c` is the sum over its blocks.
proof fn lemma_plane_error(a: Seq<u8>, b: Seq<u8>, width: int, height: int, c: int)
    requires
        width > 0,
        height > 0,
        width % 16 == 0,
        height % 16 == 0,
        0 <= c <= 2,
        a.len() == plane_side(width, c) * plane_side(height, c),
    ensures
        plane_sse(a, b, a.len()) == blocks_sum(
            squares(a, b),
            plane_side(width, c),
            unit_of_plane(c) as nat,
            (width / 16) as nat,
            (height / 16) as nat,
        ),
{
    let u = unit_of_plane(c) as nat;
    let (k, m) = ((width / 16) as nat, (height / 16) as nat);
    lemma_whole_units(width, c);
    lemma_whole_units(height, c);
    lemma_plane_sse(a, b, a.len());
    law_plane_sum_is_block_sum(squares(a, b), u, k, m);
}

proof fn lemma_luma_error(f: Frame, src: Frame, lambda: SaoLambda)
    requires
        f.wf(),
        src.wf(),
        src.width == f.width,
        src.height == f.height,
    ensures
        plane_sse(offset_frame(f, src, lambda).y, src.y, f.y.len()) <= plane_sse(f.y, src.y, f.y.len()),
{
    let o = offset_frame(f, src, lambda);
    lemma_offset_sizes(f, src, lambda);
    lemma_plane_error(f.y, src.y, f.width, f.height, 0);
    lemma_plane_error(o.y, src.y, f.width, f.height, 0);
    let (after, before) = (squares(o.y, src.y), squares(f.y, src.y));
    let (k, m) = ((f.width / 16) as nat, (f.height / 16) as nat);
    assert forall|i: int, j: int| 0 <= i < k && 0 <= j < m implies #[trigger] block_at_most(
        after,
        after,
        before,
        before,
        f.width,
        16,
        i,
        j,
    ) by {
        let r = block_region(widened_frame(f), src, 0, i, j);
        let cell = estimated_cell(widened_frame(f), src, true, true, lambda, i, j);
        lemma_block_region(f, src, 0, i, j);
        lemma_offset_in(f, src, lambda, 0, i, j);
        lemma_before(r, f.y, src.y, 16);
        lemma_after(r, cell.luma, f.y, src.y, o.y, 16);
        law_luma_offsets_lower_the_error(r, lambda);
    }
    lemma_blocks_at_most(after, after, before, before, f.width, 16, k, m);
}

proof fn lemma_chroma_error(f: Frame, src: Frame, lambda: SaoLambda)
    requires
        f.wf(),
        src.wf(),
        src.width == f.width,
        src.height == f.height,
    ensures
        plane_sse(offset_frame(f, src, lambda).cb, src.cb, f.cb.len()) + plane_sse(
            offset_frame(f, src, lambda).cr,
            src.cr,
            f.cr.len(),
        ) <= plane_sse(f.cb, src.cb, f.cb.len()) + plane_sse(f.cr, src.cr, f.cr.len()),
{
    let o = offset_frame(f, src, lambda);
    let w = f.width / 2;
    lemma_offset_sizes(f, src, lambda);
    lemma_plane_error(f.cb, src.cb, f.width, f.height, 1);
    lemma_plane_error(o.cb, src.cb, f.width, f.height, 1);
    lemma_plane_error(f.cr, src.cr, f.width, f.height, 2);
    lemma_plane_error(o.cr, src.cr, f.width, f.height, 2);
    let (a, b) = (squares(o.cb, src.cb), squares(o.cr, src.cr));
    let (c, d) = (squares(f.cb, src.cb), squares(f.cr, src.cr));
    let (k, m) = ((f.width / 16) as nat, (f.height / 16) as nat);
    assert forall|i: int, j: int| 0 <= i < k && 0 <= j < m implies #[trigger] block_at_most(a, b, c, d, w, 8, i, j) by {
        let pic = widened_frame(f);
        let rb = block_region(pic, src, 1, i, j);
        let rr = block_region(pic, src, 2, i, j);
        let cell = estimated_cell(pic, src, true, true, lambda, i, j);
        lemma_block_region(f, src, 1, i, j);
        lemma_block_region(f, src, 2, i, j);
        lemma_offset_in(f, src, lambda, 1, i, j);
        lemma_offset_in(f, src, lambda, 2, i, j);
        lemma_before(rb, f.cb, src.cb, 8);
        lemma_before(rr, f.cr, src.cr, 8);
        lemma_after(rb, cell.cb, f.cb, src.cb, o.cb, 8);
        lemma_after(rr, cell.cr, f.cr, src.cr, o.cr, 8);
        law_chroma_offsets_lower_the_error(rb, rr, lambda);
    }
    lemma_blocks_at_most(a, b, c, d, w, 8, k, m);
}

proof fn lemma_rebuilt_wf(records: Seq<Record>, width: int, height: int, qp: int, n: nat)
    requires
        whole_blocks(width, height),
    ensures
        rebuilt(records, width, height, qp, n).wf(),
        rebuilt(records, width, height, qp, n).width == width,
        rebuilt(records, width, height, qp, n).height == height,
    decreases n,
{
    if n == 0 {
        assert(width * height >= 0 && (width / 2) * (height / 2) >= 0) by (nonlinear_arith)
            requires
                width > 0,
                height > 0,
        ;
    } else {
        lemma_rebuilt_wf(records, width, height, qp, (n - 1) as nat);
    }
}

/// The offsets never cost the writer quality: with them its reconstruction is at least as
/// close to the source as without.
pub proof fn law_offsets_never_cost_quality(src: Frame, qp: int, search: ModeSearch)
    requires
        src.wf(),
    ensures
        frame_sse(offset_recon(src, qp, search), src) <= frame_sse(base_frame(src, qp, search, true), src),
{
    let pass = decision_pass(src, qp, search);
    law_reconstruction_follows_the_records(src, qp, search);
    lemma_rebuilt_wf(pass.records, src.width, src.height, qp, pass.records.len());
    let base = base_frame(src, qp, search, true);
    assert(base.wf());
    law_offsets_never_raise_the_error(base, src, search_prices(qp));
}

proof fn lemma_plane_sse_bound(a: Seq<u8>, b: Seq<u8>, n: nat)
    ensures
        0 <= plane_sse(a, b, n) <= 65025 * n,
    decreases n,
{
    if n > 0 {
        lemma_plane_sse_bound(a, b, (n - 1) as nat);
        let d = a[n - 1] - b[n - 1];
        assert(0 <= d * d <= 65025) by (nonlinear_arith)
            requires
                -255 <= d <= 255,
        ;
    }
}

/// The squared error of a picture that can be counted fits 64 bits.
proof fn lemma_frame_sse_fits(f: Frame, src: Frame)
    requires
        f.wf(),
        f.width * f.height <= MAX_PICTURE_SAMPLES,
    ensures
        0 <= frame_sse(f, src) <= u64::MAX,
{
    lemma_plane_sse_bound(f.y, src.y, f.y.len());
    lemma_plane_sse_bound(f.cb, src.cb, f.cb.len());
    lemma_plane_sse_bound(f.cr, src.cr, f.cr.len());
    let (w, h) = (f.width, f.height);
    assert((w / 2) * (h / 2) <= w * h) by (nonlinear_arith)
        requires
            w >= 0,
            h >= 0,
    ;
}

/// Offsets are kept only where they lower the error.
proof fn lemma_kept_for_a_gain<A: Fn(SaoQuestion) -> bool>(accepts: A, src: Frame, qp: int, search: ModeSearch, keep: bool)
    requires
        countable(src),
        decides(accepts, src, qp, search, LoopFilter::DeblockSao, keep),
    ensures
        keep ==> frame_sse(offset_recon(src, qp, search), src) < frame_sse(base_frame(src, qp, search, true), src),
{
    let pass = decision_pass(src, qp, search);
    law_reconstruction_follows_the_records(src, qp, search);
    lemma_rebuilt_wf(pass.records, src.width, src.height, qp, pass.records.len());
    lemma_rebuilt_size(pass.records, src.width, src.height, qp, pass.records.len());
    let base = base_frame(src, qp, search, true);
    assert(base.wf() && base.width == src.width && base.height == src.height);
    lemma_frame_sse_fits(base, src);
    let q = question(src, qp, search);
    if keep {
        assert(q.gain > 0);
    }
}

/// Searching the offsets never costs the writer quality: beside the writer that deblocks
/// alone it takes the same luma modes, one for each block, its picture is no further from
/// the source, and where it is no nearer it is the same picture.
pub proof fn law_the_search_never_costs_the_writer_quality<A: Fn(SaoQuestion) -> bool>(
    src: &SourcePlanes<'_>,
    qp: i32,
    search: ModeSearch,
    accepts: A,
    plain: (Vec<u8>, ReconstructedPicture, Vec<u8>),
    searched: (Vec<u8>, ReconstructedPicture, Vec<u8>),
)
    requires
        countable(src@),
        0 <= qp <= 51,
        call_ensures(write_idr_residual_slice::<A>, (src, qp, search, LoopFilter::Deblock, accepts), plain),
        call_ensures(write_idr_residual_slice::<A>, (src, qp, search, LoopFilter::DeblockSao, accepts), searched),
    ensures
        plain.2@ == searched.2@,
        plain.2@.len() == (src@.width / 16) * (src@.height / 16),
        frame_sse(searched.1@, src@) <= frame_sse(plain.1@, src@),
        frame_sse(searched.1@, src@) == frame_sse(plain.1@, src@) ==> searched.1@ == plain.1@,
{
    law_records_are_linked(src@, qp as int, search);
    let keep = choose|keep: bool|
        {
            &&& #[trigger] decides(accepts, src@, qp as int, search, LoopFilter::DeblockSao, keep)
            &&& searched.0@ == slice_rbsp(src@, qp as int, search, LoopFilter::DeblockSao, keep)
            &&& searched.1@ == slice_recon(src@, qp as int, search, LoopFilter::DeblockSao, keep)
        };
    lemma_kept_for_a_gain(accepts, src@, qp as int, search, keep);
}

/// The squared error of what a writer without offsets reconstructs, and the bits of its slice
/// data.
pub open spec fn measured(c: CurvePoint, src: Frame, qp: int, w: (Vec<u8>, ReconstructedPicture, Vec<u8>)) -> bool {
    &&& c.sse == frame_sse(w.1@, src)
    &&& c.bits == min(8 * (w.0@.len() - pack(header_bits(LoopFilter::Deblock, false, qp)).len()), u64::MAX as int)
}

proof fn lemma_measured<A: Fn(SaoQuestion) -> bool>(
    src: &SourcePlanes<'_>,
    qp: i32,
    search: ModeSearch,
    accepts: A,
    w: (Vec<u8>, ReconstructedPicture, Vec<u8>),
)
    requires
        countable(src@),
        0 <= qp <= 51,
        call_ensures(write_idr_residual_slice::<A>, (src, qp, search, LoopFilter::Deblock, accepts), w),
    ensures
        measured(curve(src@, qp as int, search, true), src@, qp as int, w),
        w.1@ == base_frame(src@, qp as int, search, true),
        frame_sse(w.1@, src@) <= u64::MAX,
{
    let keep = choose|keep: bool|
        {
            &&& #[trigger] decides(accepts, src@, qp as int, search, LoopFilter::Deblock, keep)
            &&& w.0@ == slice_rbsp(src@, qp as int, search, LoopFilter::Deblock, keep)
            &&& w.1@ == slice_recon(src@, qp as int, search, LoopFilter::Deblock, keep)
        };
    assert(!keep);
    law_reconstruction_follows_the_records(src@, qp as int, search);
    let records = decision_pass(src@, qp as int, search).records;
    lemma_rebuilt_size(records, src@.width, src@.height, qp as int, records.len());
    lemma_frame_sse_fits(w.1@, src@);
}

/// What the judge is asked of: the point of the writer at this QP and the one a QP finer, each
/// as the writer without offsets reaches it, in squared error over all planes and in bits of
/// slice data; and the error that the offsets remove. At QP 0 the other point is the one a QP
/// coarser.
pub proof fn law_question_measures_neighbouring_writes<A: Fn(SaoQuestion) -> bool>(
    src: &SourcePlanes<'_>,
    qp: i32,
    search: ModeSearch,
    accepts: A,
    here: (Vec<u8>, ReconstructedPicture, Vec<u8>),
    next: (Vec<u8>, ReconstructedPicture, Vec<u8>),
)
    requires
        countable(src@),
        0 <= qp <= 51,
        call_ensures(write_idr_residual_slice::<A>, (src, qp, search, LoopFilter::Deblock, accepts), here),
        call_ensures(
            write_idr_residual_slice::<A>,
            (
                src,
                if qp > 0 {
                    (qp - 1) as i32
                } else {
                    1i32
                },
                search,
                LoopFilter::Deblock,
                accepts,
            ),
            next,
        ),
    ensures
        ({
            let q = question(src@, qp as int, search);
            let (mine, other, at) = if qp > 0 {
                (q.coarse, q.fine, qp - 1)
            } else {
                (q.fine, q.coarse, 1)
            };
            &&& q.qp == qp
            &&& measured(mine, src@, qp as int, here)
            &&& measured(other, src@, at, next)
            &&& q.gain <= frame_sse(here.1@, src@)
        }),
{
    let at: i32 = if qp > 0 {
        (qp - 1) as i32
    } else {
        1i32
    };
    lemma_measured(src, qp, search, accepts, here);
    lemma_measured(src, at, search, accepts, next);
    let f = offset_recon(src@, qp as int, search);
    let q = question(src@, qp as int, search);
    let base = curve(src@, qp as int, search, true);
    lemma_sse_not_negative(f, src@);
    assert(q.gain == max(0, base.sse - frame_sse(f, src@)));
}

proof fn lemma_sse_not_negative(f: Frame, src: Frame)
    ensures
        frame_sse(f, src) >= 0,
{
    lemma_plane_sse_bound(f.y, src.y, f.y.len());
    lemma_plane_sse_bound(f.cb, src.cb, f.cb.len());
    lemma_plane_sse_bound(f.cr, src.cr, f.cr.len());
}

} // verus!
