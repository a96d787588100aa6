//! Reconstruction of one prediction partition of one plane: the prediction, the
//! coded residual added back onto it, and the clip to a sample.
use vstd::prelude::*;
use vstd::slice::slice_subrange;
use crate::arith::min;
use crate::cabac::clip3;
use crate::coded_block::{code_residual, is_residual, round_trip, CodedResidual, MAX_BLOCK_QP};
use crate::intra::is_samples;
use crate::picture::MAX_SIDE;
use crate::recon_simd::{add_clip_row, reconstruct_row};
use crate::transform::{Component, PredMode};

verus! {

/// What an intra partition without reconstructed neighbours is predicted from.
pub const NEUTRAL_SAMPLE: u8 = 128;

/// A reference plane and its sides.
#[derive(Clone, Copy, Debug)]
pub struct ReferencePlane<'a> {
    pub samples: &'a [u8],
    pub width: usize,
    pub height: usize,
}

/// One partition of one plane to reconstruct.
#[derive(Clone, Copy, Debug)]
pub struct PartitionJob<'a> {
    /// The source plane, its width (which is also its stride) and its height.
    pub source: &'a [u8],
    pub stride: usize,
    pub height: usize,
    /// What the partition is predicted from; a neutral block where there is none.
    pub reference: Option<ReferencePlane<'a>>,
    pub x: usize,
    pub y: usize,
    pub w: usize,
    pub h: usize,
    pub mv_x: i32,
    pub mv_y: i32,
    /// The `qP` that the residual is quantized at; none codes it exactly.
    pub quant: Option<u32>,
    pub component: Component,
}

/// The mathematical value of a reference plane.
pub struct RefModel {
    pub samples: Seq<u8>,
    pub width: int,
    pub height: int,
}

/// The mathematical value of a partition to reconstruct.
pub struct Part {
    pub source: Seq<u8>,
    pub stride: int,
    pub height: int,
    pub reference: Option<RefModel>,
    pub x: int,
    pub y: int,
    pub w: int,
    pub h: int,
    pub mv_x: int,
    pub mv_y: int,
    pub quant: Option<int>,
    pub component: Component,
}

impl<'a> View for ReferencePlane<'a> {
    type V = RefModel;

    open spec fn view(&self) -> RefModel {
        RefModel { samples: self.samples@, width: self.width as int, height: self.height as int }
    }
}

impl<'a> View for PartitionJob<'a> {
    type V = Part;

    open spec fn view(&self) -> Part {
        Part {
            source: self.source@,
            stride: self.stride as int,
            height: self.height as int,
            reference: match self.reference {
                Some(r) => Some(r@),
                None => None,
            },
            x: self.x as int,
            y: self.y as int,
            w: self.w as int,
            h: self.h as int,
            mv_x: self.mv_x as int,
            mv_y: self.mv_y as int,
            quant: match self.quant {
                Some(q) => Some(q as int),
                None => None,
            },
            component: self.component,
        }
    }
}

/// The side of the square transform blocks of a partition: the largest power of two
/// no greater than either side, from 4 to 32.
pub open spec fn tile_of(w: int, h: int) -> int {
    let m = min(w, h);
    if m >= 32 {
        32
    } else if m >= 16 {
        16
    } else if m >= 8 {
        8
    } else {
        4
    }
}

impl Part {
    /// The partition lies inside the planes.
    pub open spec fn wf(self) -> bool {
        &&& 0 < self.stride <= MAX_SIDE
        &&& 0 < self.height <= MAX_SIDE
        &&& self.source.len() == self.stride * self.height
        &&& 0 <= self.x
        &&& 0 <= self.y
        &&& 0 < self.w
        &&& 0 < self.h
        &&& self.x + self.w <= self.stride
        &&& self.y + self.h <= self.height
        &&& i32::MIN <= self.mv_x <= i32::MAX
        &&& i32::MIN <= self.mv_y <= i32::MAX
        &&& match self.reference {
            Some(r) => {
                &&& 0 < r.width <= MAX_SIDE
                &&& 0 < r.height <= MAX_SIDE
                &&& r.samples.len() == r.width * r.height
            },
            None => true,
        }
        &&& match self.quant {
            Some(q) => 0 <= q <= MAX_BLOCK_QP,
            None => true,
        }
    }

    /// The prediction of a sample: the reference displaced by the motion vector, its
    /// edges extended outwards.
    pub open spec fn predicted(self, x: int, y: int) -> int {
        match self.reference {
            Some(r) => r.samples[clip3(0, r.height - 1, y + self.mv_y) * r.width + clip3(0, r.width - 1, x + self.mv_x)]
                as int,
            None => NEUTRAL_SAMPLE as int,
        }
    }

    pub open spec fn mode(self) -> PredMode {
        match self.reference {
            Some(_) => PredMode::Inter,
            None => PredMode::Intra,
        }
    }

    /// The residual of the transform block whose top-left lies at (`bx`, `by`) of the
    /// partition. What hangs over its edges is zero.
    pub open spec fn residual(self, bx: int, by: int) -> Seq<i32> {
        let n = tile_of(self.w, self.h);
        Seq::new(
            (n * n) as nat,
            |i: int|
                if bx + i % n < self.w && by + i / n < self.h {
                    (self.source[(self.y + by + i / n) * self.stride + (self.x + bx + i % n)] - self.predicted(
                        self.x + bx + i % n,
                        self.y + by + i / n,
                    )) as i32
                } else {
                    0i32
                },
        )
    }

    /// The residual that a decoder holds for that block.
    pub open spec fn coded(self, bx: int, by: int, q_p: int) -> Seq<i32> {
        round_trip(self.residual(bx, by), tile_of(self.w, self.h), q_p, self.component, self.mode())
    }

    /// The reconstruction of a sample of the partition.
    pub open spec fn value(self, x: int, y: int) -> int {
        match self.quant {
            None => self.source[y * self.stride + x] as int,
            Some(q) => {
                let n = tile_of(self.w, self.h);
                let dx = x - self.x;
                let dy = y - self.y;
                clip3(
                    0,
                    255,
                    self.predicted(x, y) + self.coded(dx / n * n, dy / n * n, q)[(dy % n) * n + dx % n],
                )
            },
        }
    }

    /// Whether an index of the plane lies in the partition.
    pub open spec fn covers(self, i: int) -> bool {
        self.x <= i % self.stride < self.x + self.w && self.y <= i / self.stride < self.y + self.h
    }

    /// A plane once the partition has been reconstructed into it.
    pub open spec fn painted(self, plane: Seq<i32>) -> Seq<i32> {
        Seq::new(
            plane.len(),
            |i: int|
                if self.covers(i) {
                    self.value(i % self.stride, i / self.stride) as i32
                } else {
                    plane[i]
                },
        )
    }
}

/// The largest legal square transform block for a partition.
pub fn transform_block_size(w: usize, h: usize) -> (n: usize)
    requires
        w > 0,
        h > 0,
    ensures
        n == tile_of(w as int, h as int),
        n == 4 || n == 8 || n == 16 || n == 32,
{
    let m: usize = if w < h {
        w
    } else {
        h
    };
    if m >= 32 {
        32
    } else if m >= 16 {
        16
    } else if m >= 8 {
        8
    } else {
        4
    }
}

fn confine(lo: i64, hi: i64, v: i64) -> (r: i64)
    ensures
        r == clip3(lo as int, hi as int, v as int),
{
    if v < lo {
        lo
    } else if v > hi {
        hi
    } else {
        v
    }
}

/// The prediction of one sample.
fn predict_one(job: &PartitionJob<'_>, x: usize, y: usize) -> (v: u8)
    requires
        job@.wf(),
        x <= MAX_SIDE,
        y <= MAX_SIDE,
    ensures
        v == job@.predicted(x as int, y as int),
{
    match job.reference {
        Some(r) => {
            let ry: i64 = confine(0, r.height as i64 - 1, y as i64 + job.mv_y as i64);
            let rx: i64 = confine(0, r.width as i64 - 1, x as i64 + job.mv_x as i64);
            let len: usize = r.samples.len();
            proof {
                crate::arith::lemma_grid(ry as int, rx as int, r.width as int, r.height as int);
                assert(0 <= ry * r.width) by (nonlinear_arith)
                    requires
                        ry >= 0,
                        r.width >= 0,
                ;
            }
            assert(ry * r.width + rx < len);
            r.samples[ry as usize * r.width + rx as usize]
        },
        None => NEUTRAL_SAMPLE,
    }
}

/// The predictions of one row of a partition, from column `x` on.
pub fn gather_prediction_row(job: &PartitionJob<'_>, x: usize, y: usize, n: usize) -> (row: Vec<u8>)
    requires
        job@.wf(),
        x + n <= MAX_SIDE,
        y <= MAX_SIDE,
    ensures
        row@.len() == n,
        forall|i: int| 0 <= i < n ==> #[trigger] row@[i] == job@.predicted(x + i, y as int),
{
    let mut row: Vec<u8> = Vec::new();
    let mut i: usize = 0;
    while i < n
        invariant
            i <= n,
            job@.wf(),
            x + n <= MAX_SIDE,
            y <= MAX_SIDE,
            row@.len() == i,
            forall|j: int| 0 <= j < i ==> #[trigger] row@[j] == job@.predicted(x + j, y as int),
        decreases n - i,
    {
        row.push(predict_one(job, x + i, y));
        i = i + 1;
    }
    row
}

/// Reconstructs a row exactly.
fn copy_row(plane: &mut Vec<i32>, start: usize, source: &[u8], prediction: &[u8])
    requires
        start + source@.len() <= old(plane).len(),
        source@.len() == prediction@.len(),
    ensures
        final(plane)@.len() == old(plane)@.len(),
        forall|i: int|
            0 <= i < final(plane)@.len() ==> #[trigger] final(plane)@[i] == if start <= i < start + source@.len() {
                source@[i - start] as i32
            } else {
                old(plane)@[i]
            },
{
    let n: usize = source.len();
    let (_, tail) = plane.as_mut_slice().split_at_mut(start);
    let (row, _) = tail.split_at_mut(n);
    reconstruct_row(row, source, prediction);
}

/// Adds a coded residual to the predictions of a row.
fn add_row(plane: &mut Vec<i32>, start: usize, prediction: &[i32], coded: &[i32])
    requires
        start + prediction@.len() <= old(plane).len(),
        prediction@.len() == coded@.len(),
        is_samples(prediction@),
        is_residual(coded@),
    ensures
        final(plane)@.len() == old(plane)@.len(),
        forall|i: int|
            0 <= i < final(plane)@.len() ==> #[trigger] final(plane)@[i] == if start <= i < start + prediction@.len() {
                clip3(0, 255, prediction@[i - start] + coded@[i - start])
            } else {
                old(plane)@[i] as int
            },
{
    let n: usize = prediction.len();
    proof {
        assert forall|i: int| 0 <= i < n implies i32::MIN <= #[trigger] prediction@[i] + coded@[i] <= i32::MAX by {
            assert(0 <= prediction@[i] <= 255);
            assert(-0x1000_0000 <= coded@[i] <= 0x1000_0000);
        }
    }
    let (_, tail) = plane.as_mut_slice().split_at_mut(start);
    let (row, _) = tail.split_at_mut(n);
    add_clip_row(row, prediction, coded);
}

/// An index lies in a run of one row exactly where its row and column do.
proof fn lemma_row_range(i: int, stride: int, y: int, x: int, w: int)
    requires
        stride > 0,
        0 <= x,
        x + w <= stride,
    ensures
        (y * stride + x <= i < y * stride + x + w) <==> (i / stride == y && x <= i % stride < x + w),
{
    vstd::arithmetic::div_mod::lemma_fundamental_div_mod(i, stride);
    assert(i == (i / stride) * stride + i % stride) by (nonlinear_arith)
        requires
            i == stride * (i / stride) + i % stride,
    ;
    if y * stride + x <= i < y * stride + x + w {
        let k = i - y * stride;
        vstd::arithmetic::div_mod::lemma_fundamental_div_mod_converse(i, stride, y, k);
    }
}

/// The plane that a partition is reconstructed into.
pub open spec fn fits_plane(plane: Seq<i32>, part: Part) -> bool {
    part.wf() && plane.len() == part.stride * part.height && is_samples(plane)
}

/// A row of a partition lies inside the plane.
proof fn lemma_row_fits(part: Part, y: int, x: int, w: int)
    requires
        part.wf(),
        0 <= y < part.height,
        0 <= x,
        0 <= w,
        x + w <= part.stride,
    ensures
        0 <= y * part.stride,
        y * part.stride + x + w <= part.stride * part.height,
{
    crate::arith::lemma_grid(y, part.stride - 1, part.stride, part.height);
    assert(0 <= y * part.stride) by (nonlinear_arith)
        requires
            y >= 0,
            part.stride >= 0,
    ;
}

/// Reconstructs a partition whose residual is coded exactly: every sample is the
/// source sample.
fn paint_exact(plane: &mut Vec<i32>, job: &PartitionJob<'_>)
    requires
        fits_plane(old(plane)@, job@),
        job.quant is None,
    ensures
        final(plane)@ == job@.painted(old(plane)@),
        fits_plane(final(plane)@, job@),
{
    let len: usize = plane.len();
    let ghost before = plane@;
    let ghost part = job@;
    let mut row: usize = 0;
    while row < job.h
        invariant
            row <= job.h,
            part == job@,
            part.wf(),
            part.quant is None,
            len == part.stride * part.height,
            plane@.len() == len,
            before.len() == len,
            forall|i: int|
                0 <= i < len ==> #[trigger] plane@[i] == if part.covers(i) && i / part.stride < part.y + row {
                    part.value(i % part.stride, i / part.stride)
                } else {
                    before[i] as int
                },
        decreases job.h - row,
    {
        let y: usize = job.y + row;
        proof {
            lemma_row_fits(part, y as int, part.x, part.w);
            assert(part.source.len() == len);
        }
        let start: usize = y * job.stride + job.x;
        let prediction: Vec<u8> = gather_prediction_row(job, job.x, y, job.w);
        let source: &[u8] = slice_subrange(job.source, start, start + job.w);
        let ghost mid = plane@;
        copy_row(plane, start, source, prediction.as_slice());
        proof {
            assert forall|i: int| 0 <= i < len implies #[trigger] plane@[i] == if part.covers(i) && i / part.stride
                < part.y + row + 1 {
                part.value(i % part.stride, i / part.stride)
            } else {
                before[i] as int
            } by {
                lemma_row_range(i, part.stride, y as int, part.x, part.w);
                if start <= i < start + part.w {
                    vstd::arithmetic::div_mod::lemma_fundamental_div_mod(i, part.stride);
                    assert(i == (i / part.stride) * part.stride + i % part.stride) by (nonlinear_arith)
                        requires
                            i == part.stride * (i / part.stride) + i % part.stride,
                    ;
                    assert(source@[i - start] == part.source[i]);
                } else {
                    assert(plane@[i] == mid[i]);
                }
            }
        }
        row = row + 1;
    }
    proof {
        assert forall|i: int| 0 <= i < len implies #[trigger] plane@[i] == part.painted(before)[i] && 0 <= plane@[i]
            <= 255 by {
            assert(0 <= before[i] <= 255);
        }
        assert(plane@ =~= part.painted(before));
    }
}

/// The predictions and the coded residual of one transform block.
struct Tile {
    prediction: Vec<i32>,
    coded: Vec<i32>,
}

/// Codes the transform block at (`bx`, `by`) of a partition.
fn code_tile(job: &PartitionJob<'_>, q_p: u32, n: usize, bx: usize, by: usize) -> (t: Tile)
    requires
        job@.wf(),
        job.quant == Some(q_p),
        n == tile_of(job.w as int, job.h as int),
        bx < job.w,
        by < job.h,
    ensures
        t.prediction@.len() == n * n,
        t.coded@ == job@.coded(bx as int, by as int, q_p as int),
        t.coded@.len() == n * n,
        is_samples(t.prediction@),
        is_residual(t.coded@),
        forall|i: int|
            0 <= i < n * n && bx + i % (n as int) < job.w && by + i / (n as int) < job.h ==> #[trigger] t.prediction@[i]
                == job@.predicted(job.x + bx + i % (n as int), job.y + by + i / (n as int)),
{
    let ghost part = job@;
    let ghost goal = part.residual(bx as int, by as int);
    let len: usize = job.source.len();
    let mut prediction: Vec<i32> = Vec::new();
    let mut residual: Vec<i32> = Vec::new();
    let mut row: usize = 0;
    while row < n
        invariant
            row <= n,
            part == job@,
            part.wf(),
            len == part.source.len(),
            n == tile_of(job.w as int, job.h as int),
            bx < job.w,
            by < job.h,
            goal == part.residual(bx as int, by as int),
            prediction@.len() == row * n,
            residual@.len() == row * n,
            is_samples(prediction@),
            forall|i: int| 0 <= i < residual@.len() ==> #[trigger] residual@[i] == goal[i],
            forall|i: int|
                0 <= i < prediction@.len() && bx + i % (n as int) < job.w && by + i / (n as int) < job.h
                    ==> #[trigger] prediction@[i] == part.predicted(
                    part.x + bx + i % (n as int),
                    part.y + by + i / (n as int),
                ),
        decreases n - row,
    {
        let mut col: usize = 0;
        while col < n
            invariant
                row < n,
                col <= n,
                part == job@,
                part.wf(),
                len == part.source.len(),
                n == tile_of(job.w as int, job.h as int),
                bx < job.w,
                by < job.h,
                goal == part.residual(bx as int, by as int),
                prediction@.len() == row * n + col,
                residual@.len() == row * n + col,
                is_samples(prediction@),
                forall|i: int| 0 <= i < residual@.len() ==> #[trigger] residual@[i] == goal[i],
                forall|i: int|
                    0 <= i < prediction@.len() && bx + i % (n as int) < job.w && by + i / (n as int) < job.h
                        ==> #[trigger] prediction@[i] == part.predicted(
                        part.x + bx + i % (n as int),
                        part.y + by + i / (n as int),
                    ),
            decreases n - col,
        {
            proof {
                crate::arith::lemma_index(row as int, col as int, n as int);
            }
            if bx + col < job.w && by + row < job.h {
                let sx: usize = job.x + bx + col;
                let sy: usize = job.y + by + row;
                proof {
                    lemma_row_fits(part, sy as int, sx as int, 1);
                }
                let p: i32 = predict_one(job, sx, sy) as i32;
                prediction.push(p);
                residual.push(job.source[sy * job.stride + sx] as i32 - p);
            } else {
                prediction.push(0);
                residual.push(0);
            }
            col = col + 1;
        }
        proof {
            assert((row + 1) * n == row * n + n) by (nonlinear_arith);
        }
        row = row + 1;
    }
    proof {
        assert(residual@ =~= goal);
    }
    let mode: PredMode = match job.reference {
        Some(_) => PredMode::Inter,
        None => PredMode::Intra,
    };
    let c: CodedResidual = code_residual(residual.as_slice(), n, q_p, job.component, mode);
    Tile { prediction, coded: c.residual }
}

/// Whether an index of the plane lies in the transform block at (`bx`, `by`).
spec fn in_tile(part: Part, bx: int, by: int, i: int) -> bool {
    let n = tile_of(part.w, part.h);
    &&& part.covers(i)
    &&& part.x + bx <= i % part.stride < part.x + bx + n
    &&& part.y + by <= i / part.stride < part.y + by + n
}

/// Where a sample stands in its transform block.
proof fn lemma_in_tile(part: Part, t: int, d: int)
    requires
        part.wf(),
        t >= 0,
        t * tile_of(part.w, part.h) <= d < t * tile_of(part.w, part.h) + tile_of(part.w, part.h),
    ensures
        d / tile_of(part.w, part.h) == t,
        d % tile_of(part.w, part.h) == d - t * tile_of(part.w, part.h),
{
    let n = tile_of(part.w, part.h);
    vstd::arithmetic::div_mod::lemma_fundamental_div_mod_converse(d, n, t, d - t * n);
}

/// Reconstructs one transform block of a partition.
#[verifier::rlimit(40)]
fn paint_tile(plane: &mut Vec<i32>, job: &PartitionJob<'_>, q_p: u32, n: usize, tx: usize, ty: usize)
    requires
        fits_plane(old(plane)@, job@),
        job.quant == Some(q_p),
        n == tile_of(job.w as int, job.h as int),
        tx * n < job.w,
        ty * n < job.h,
    ensures
        fits_plane(final(plane)@, job@),
        forall|i: int|
            0 <= i < final(plane)@.len() ==> #[trigger] final(plane)@[i] == if in_tile(
                job@,
                tx * n,
                ty * n,
                i,
            ) {
                job@.value(i % (job.stride as int), i / (job.stride as int))
            } else {
                old(plane)@[i] as int
            },
{
    let ghost part = job@;
    let bx: usize = tx * n;
    let by: usize = ty * n;
    let len: usize = plane.len();
    let ghost before = plane@;
    let t: Tile = code_tile(job, q_p, n, bx, by);
    let block_h: usize = if job.h - by < n {
        job.h - by
    } else {
        n
    };
    let block_w: usize = if job.w - bx < n {
        job.w - bx
    } else {
        n
    };
    let mut row: usize = 0;
    while row < block_h
        invariant
            row <= block_h,
            part == job@,
            part.wf(),
            job.quant == Some(q_p),
            n == tile_of(job.w as int, job.h as int),
            bx == tx * n,
            by == ty * n,
            bx < job.w,
            by < job.h,
            block_h == min(job.h - by, n as int),
            block_w == min(job.w - bx, n as int),
            len == part.stride * part.height,
            plane@.len() == len,
            before.len() == len,
            is_samples(before),
            is_samples(plane@),
            t.prediction@.len() == n * n,
            t.coded@ == part.coded(bx as int, by as int, q_p as int),
            t.coded@.len() == n * n,
            is_samples(t.prediction@),
            is_residual(t.coded@),
            forall|i: int|
                0 <= i < n * n && bx + i % (n as int) < job.w && by + i / (n as int) < job.h
                    ==> #[trigger] t.prediction@[i] == part.predicted(
                    part.x + bx + i % (n as int),
                    part.y + by + i / (n as int),
                ),
            forall|i: int|
                0 <= i < len ==> #[trigger] plane@[i] == if in_tile(part, bx as int, by as int, i) && i / part.stride
                    < part.y + by + row {
                    part.value(i % part.stride, i / part.stride)
                } else {
                    before[i] as int
                },
        decreases block_h - row,
    {
        let y: usize = job.y + by + row;
        let x: usize = job.x + bx;
        proof {
            lemma_row_fits(part, y as int, x as int, block_w as int);
            crate::arith::lemma_index(row as int, block_w - 1, n as int);
            crate::arith::lemma_index(row as int, 0, n as int);
        }
        let start: usize = y * job.stride + x;
        let area: usize = t.prediction.len();
        let prediction: &[i32] = slice_subrange(t.prediction.as_slice(), row * n, row * n + block_w);
        let coded: &[i32] = slice_subrange(t.coded.as_slice(), row * n, row * n + block_w);
        proof {
            assert forall|k: int| 0 <= k < block_w implies 0 <= #[trigger] prediction@[k] <= 255 by {
                assert(0 <= t.prediction@[row * n + k] <= 255);
            }
            assert forall|k: int| 0 <= k < block_w implies -0x1000_0000 <= #[trigger] coded@[k] <= 0x1000_0000 by {
                assert(-0x1000_0000 <= t.coded@[row * n + k] <= 0x1000_0000);
            }
        }
        let ghost mid = plane@;
        add_row(plane, start, prediction, coded);
        proof {
            assert forall|i: int| 0 <= i < len implies #[trigger] plane@[i] == (if in_tile(
                part,
                bx as int,
                by as int,
                i,
            ) && i / part.stride < part.y + by + row + 1 {
                part.value(i % part.stride, i / part.stride)
            } else {
                before[i] as int
            }) && 0 <= plane@[i] <= 255 by {
                lemma_row_range(i, part.stride, y as int, x as int, block_w as int);
                assert(0 <= mid[i] <= 255);
                if start <= i < start + block_w {
                    let k = i - start;
                    let sx = i % part.stride;
                    let sy = i / part.stride;
                    assert(sy == y);
                    vstd::arithmetic::div_mod::lemma_fundamental_div_mod(i, part.stride);
                    assert(part.stride * sy == y * part.stride) by (nonlinear_arith)
                        requires
                            sy == y,
                    ;
                    assert(sx == x + k);
                    lemma_in_tile(part, tx as int, sx - part.x);
                    lemma_in_tile(part, ty as int, sy - part.y);
                    crate::arith::lemma_index(row as int, k, n as int);
                    assert(prediction@[k] == t.prediction@[row * n + k]);
                    assert(coded@[k] == t.coded@[row * n + k]);
                    assert(t.prediction@[row * n + k] == part.predicted(sx, sy));
                    assert(part.value(sx, sy) == clip3(0, 255, part.predicted(sx, sy) + t.coded@[row * n + k]));
                } else {
                    assert(plane@[i] == mid[i]);
                }
            }
        }
        row = row + 1;
    }
}

/// Reconstructs one partition of one plane.
#[verifier::rlimit(40)]
pub fn reconstruct_component(plane: &mut Vec<i32>, job: &PartitionJob<'_>)
    requires
        fits_plane(old(plane)@, job@),
    ensures
        final(plane)@ == job@.painted(old(plane)@),
        fits_plane(final(plane)@, job@),
{
    let q_p: u32 = match job.quant {
        None => {
            paint_exact(plane, job);
            return;
        },
        Some(q) => q,
    };
    let ghost part = job@;
    let ghost before = plane@;
    let len: usize = plane.len();
    let n: usize = transform_block_size(job.w, job.h);
    let columns: usize = (job.w + n - 1) / n;
    let rows: usize = (job.h + n - 1) / n;
    proof {
        lemma_tiles(part.w, n as int);
        lemma_tiles(part.h, n as int);
    }
    let mut ty: usize = 0;
    while ty < rows
        invariant
            ty <= rows,
            part == job@,
            fits_plane(plane@, part),
            job.quant == Some(q_p),
            n == tile_of(job.w as int, job.h as int),
            columns == (job.w + n - 1) / (n as int),
            rows == (job.h + n - 1) / (n as int),
            forall|t: int| 0 <= t < columns ==> #[trigger] (t * n) < job.w,
            forall|t: int| 0 <= t < rows ==> #[trigger] (t * n) < job.h,
            columns * n >= job.w,
            rows * n >= job.h,
            len == part.stride * part.height,
            before.len() == len,
            forall|i: int|
                0 <= i < len ==> #[trigger] plane@[i] == if part.covers(i) && i / part.stride - part.y < ty * n {
                    part.value(i % part.stride, i / part.stride)
                } else {
                    before[i] as int
                },
        decreases rows - ty,
    {
        let mut tx: usize = 0;
        proof {
            assert((ty + 1) * n == ty * n + n) by (nonlinear_arith);
            assert(0 * (n as int) == 0);
        }
        while tx < columns
            invariant
                ty < rows,
                tx <= columns,
                part == job@,
                fits_plane(plane@, part),
                job.quant == Some(q_p),
                n == tile_of(job.w as int, job.h as int),
                columns == (job.w + n - 1) / (n as int),
                rows == (job.h + n - 1) / (n as int),
                forall|t: int| 0 <= t < columns ==> #[trigger] (t * n) < job.w,
                forall|t: int| 0 <= t < rows ==> #[trigger] (t * n) < job.h,
                len == part.stride * part.height,
                before.len() == len,
                forall|i: int|
                    0 <= i < len ==> #[trigger] plane@[i] == if part.covers(i) && (i / part.stride - part.y < ty * n || (
                    i / part.stride - part.y < ty * n + n && i % part.stride - part.x < tx * n)) {
                        part.value(i % part.stride, i / part.stride)
                    } else {
                        before[i] as int
                    },
            decreases columns - tx,
        {
            assert(tx * n < job.w && ty * n < job.h);
            let ghost mid = plane@;
            paint_tile(plane, job, q_p, n, tx, ty);
            proof {
                assert((tx + 1) * n == tx * n + n) by (nonlinear_arith);
            }
            tx = tx + 1;
        }
        ty = ty + 1;
    }
    proof {
        assert(plane@ =~= part.painted(before));
    }
}

proof fn lemma_tiles(w: int, n: int)
    requires
        w > 0,
        n == 4 || n == 8 || n == 16 || n == 32,
    ensures
        forall|t: int| 0 <= t < (w + n - 1) / n ==> #[trigger] (t * n) < w,
        (w + n - 1) / n * n >= w,
{
    if n == 4 {
    } else if n == 8 {
    } else if n == 16 {
    } else {
    }
}

} // verus!
