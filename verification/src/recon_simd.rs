//! The per-sample loops of encoder-side reconstruction: adding a residual to its
//! prediction, and the two classifications of the SAO parameter search.
use vstd::prelude::*;
use crate::cabac::clip3;

verus! {

/// The largest 8-bit sample.
pub const BIT_DEPTH_MAX: i32 = 255;

/// One row of lossless reconstruction: `dst = Clip1( pred + ( src - pred ) )`. The
/// residual that is added back is exact, so each sample is the source sample.
pub fn reconstruct_row(dst: &mut [i32], src: &[u8], pred: &[u8])
    requires
        old(dst)@.len() == src@.len(),
        old(dst)@.len() == pred@.len(),
    ensures
        final(dst)@.len() == src@.len(),
        forall|i: int| 0 <= i < src@.len() ==> #[trigger] final(dst)@[i] == src@[i],
{
    reconstruct_row_scalar(dst, src, pred);
}

/// The portable form of [`reconstruct_row`].
pub fn reconstruct_row_scalar(dst: &mut [i32], src: &[u8], pred: &[u8])
    requires
        old(dst)@.len() == src@.len(),
        old(dst)@.len() == pred@.len(),
    ensures
        final(dst)@.len() == src@.len(),
        forall|i: int| 0 <= i < src@.len() ==> #[trigger] final(dst)@[i] == src@[i],
{
    let n: usize = src.len();
    let mut i: usize = 0;
    while i < n
        invariant
            i <= n,
            n == src@.len(),
            n == dst@.len(),
            n == pred@.len(),
            forall|j: int| 0 <= j < i ==> #[trigger] dst@[j] == src@[j],
        decreases n - i,
    {
        let predicted: i32 = pred[i] as i32;
        let residual: i32 = src[i] as i32 - predicted;
        dst[i] = clip_sample(predicted + residual);
        i = i + 1;
    }
}

fn clip_sample(v: i32) -> (r: i32)
    ensures
        r == clip3(0, 255, v as int),
{
    if v < 0 {
        0
    } else if v > BIT_DEPTH_MAX {
        BIT_DEPTH_MAX
    } else {
        v
    }
}

/// One row of reconstruction from a coded residual: `dst = Clip1( pred + coded )`.
pub fn add_clip_row(dst: &mut [i32], pred: &[i32], coded: &[i32])
    requires
        old(dst)@.len() == pred@.len(),
        old(dst)@.len() == coded@.len(),
        forall|i: int| 0 <= i < pred@.len() ==> i32::MIN <= #[trigger] pred@[i] + coded@[i] <= i32::MAX,
    ensures
        final(dst)@.len() == pred@.len(),
        forall|i: int| 0 <= i < pred@.len() ==> #[trigger] final(dst)@[i] == clip3(0, 255, pred@[i] + coded@[i]),
{
    add_clip_row_scalar(dst, pred, coded);
}

/// The portable form of [`add_clip_row`].
pub fn add_clip_row_scalar(dst: &mut [i32], pred: &[i32], coded: &[i32])
    requires
        old(dst)@.len() == pred@.len(),
        old(dst)@.len() == coded@.len(),
        forall|i: int| 0 <= i < pred@.len() ==> i32::MIN <= #[trigger] pred@[i] + coded@[i] <= i32::MAX,
    ensures
        final(dst)@.len() == pred@.len(),
        forall|i: int| 0 <= i < pred@.len() ==> #[trigger] final(dst)@[i] == clip3(0, 255, pred@[i] + coded@[i]),
{
    let n: usize = pred.len();
    let mut i: usize = 0;
    while i < n
        invariant
            i <= n,
            n == pred@.len(),
            n == dst@.len(),
            n == coded@.len(),
            forall|i: int| 0 <= i < pred@.len() ==> i32::MIN <= #[trigger] pred@[i] + coded@[i] <= i32::MAX,
            forall|j: int| 0 <= j < i ==> #[trigger] dst@[j] == clip3(0, 255, pred@[j] + coded@[j]),
        decreases n - i,
    {
        let p: i32 = pred[i];
        let c: i32 = coded[i];
        assert(i32::MIN <= pred@[i as int] + coded@[i as int] <= i32::MAX);
        dst[i] = clip_sample(p + c);
        i = i + 1;
    }
}

/// Per-category error sums and sample counts of the edge-offset classification,
/// indexed by category 1..=4. Index 0 is unused.
#[derive(Clone, Copy, Debug, PartialEq, Eq)]
pub struct EdgeStats {
    /// Summed `source - reconstruction` error per category.
    pub sums: [i64; 5],
    /// Number of samples per category.
    pub counts: [i64; 5],
}

impl Default for EdgeStats {
    fn default() -> (s: Self)
        ensures
            forall|k: int| 0 <= k < 5 ==> s.sums@[k] == 0 && s.counts@[k] == 0,
    {
        EdgeStats { sums: [0, 0, 0, 0, 0], counts: [0, 0, 0, 0, 0] }
    }
}

/// The sign of `v`.
pub open spec fn sign(v: int) -> int {
    if v < 0 {
        -1
    } else if v > 0 {
        1
    } else {
        0
    }
}

/// The edge category of a sample between two neighbours: 1 for a local minimum, 2
/// and 3 for concave and convex corners, 4 for a local maximum, 0 for none.
pub open spec fn edge_category(here: int, a: int, b: int) -> int {
    let e = sign(here - a) + sign(here - b);
    if e == -2 {
        1
    } else if e == -1 {
        2
    } else if e == 1 {
        3
    } else if e == 2 {
        4
    } else {
        0
    }
}

fn category(here: i32, a: i32, b: i32) -> (c: usize)
    ensures
        c == edge_category(here as int, a as int, b as int),
        c <= 4,
{
    if here < a {
        if here < b {
            1
        } else if here == b {
            2
        } else {
            0
        }
    } else if here == a {
        if here < b {
            2
        } else if here == b {
            0
        } else {
            3
        }
    } else {
        if here < b {
            0
        } else if here == b {
            3
        } else {
            4
        }
    }
}

/// Summed error of the samples of category `c` among the first `n` of a run.
pub open spec fn edge_sum(here: Seq<i32>, a: Seq<i32>, b: Seq<i32>, src: Seq<u8>, c: int, n: nat) -> int
    decreases n,
{
    if n == 0 {
        0
    } else {
        edge_sum(here, a, b, src, c, (n - 1) as nat) + if edge_category(
            here[n - 1] as int,
            a[n - 1] as int,
            b[n - 1] as int,
        ) == c {
            src[n - 1] - here[n - 1]
        } else {
            0
        }
    }
}

/// How many of the first `n` samples of a run are of category `c`.
pub open spec fn edge_count(here: Seq<i32>, a: Seq<i32>, b: Seq<i32>, c: int, n: nat) -> int
    decreases n,
{
    if n == 0 {
        0
    } else {
        edge_count(here, a, b, c, (n - 1) as nat) + if edge_category(
            here[n - 1] as int,
            a[n - 1] as int,
            b[n - 1] as int,
        ) == c {
            1int
        } else {
            0int
        }
    }
}

/// The largest run that a classification takes at once, and how large the
/// statistics may be when it starts: the sums then stay inside 64 bits.
pub const MAX_RUN: usize = 0x4000_0000;

/// Every entry lies within `2^62` of zero.
pub open spec fn bounded(v: Seq<i64>) -> bool {
    forall|k: int| 0 <= k < v.len() ==> -0x4000_0000_0000_0000 <= #[trigger] v[k] <= 0x4000_0000_0000_0000
}

/// Classifies one horizontal run of samples into edge categories and accumulates
/// the source-versus-reconstruction error of each into `stats`. `a` and `b` are
/// the co-located neighbour runs that the edge-offset class selects.
pub fn edge_offset_row(here: &[i32], a: &[i32], b: &[i32], src: &[u8], stats: &mut EdgeStats)
    requires
        here@.len() == a@.len(),
        here@.len() == b@.len(),
        here@.len() == src@.len(),
        here@.len() <= MAX_RUN,
        bounded(old(stats).sums@),
        bounded(old(stats).counts@),
    ensures
        final(stats).sums@[0] == old(stats).sums@[0],
        final(stats).counts@[0] == old(stats).counts@[0],
        forall|c: int|
            1 <= c < 5 ==> #[trigger] final(stats).sums@[c] == old(stats).sums@[c] + edge_sum(
                here@,
                a@,
                b@,
                src@,
                c,
                here@.len(),
            ),
        forall|c: int|
            1 <= c < 5 ==> #[trigger] final(stats).counts@[c] == old(stats).counts@[c] + edge_count(
                here@,
                a@,
                b@,
                c,
                here@.len(),
            ),
{
    edge_offset_row_scalar(here, a, b, src, stats);
}

/// The portable form of [`edge_offset_row`].
pub fn edge_offset_row_scalar(here: &[i32], a: &[i32], b: &[i32], src: &[u8], stats: &mut EdgeStats)
    requires
        here@.len() == a@.len(),
        here@.len() == b@.len(),
        here@.len() == src@.len(),
        here@.len() <= MAX_RUN,
        bounded(old(stats).sums@),
        bounded(old(stats).counts@),
    ensures
        final(stats).sums@[0] == old(stats).sums@[0],
        final(stats).counts@[0] == old(stats).counts@[0],
        forall|c: int|
            1 <= c < 5 ==> #[trigger] final(stats).sums@[c] == old(stats).sums@[c] + edge_sum(
                here@,
                a@,
                b@,
                src@,
                c,
                here@.len(),
            ),
        forall|c: int|
            1 <= c < 5 ==> #[trigger] final(stats).counts@[c] == old(stats).counts@[c] + edge_count(
                here@,
                a@,
                b@,
                c,
                here@.len(),
            ),
{
    let n: usize = here.len();
    let mut i: usize = 0;
    while i < n
        invariant
            i <= n,
            n == here@.len(),
            n == a@.len(),
            n == b@.len(),
            n == src@.len(),
            n <= MAX_RUN,
            bounded(old(stats).sums@),
            bounded(old(stats).counts@),
            stats.sums@[0] == old(stats).sums@[0],
            stats.counts@[0] == old(stats).counts@[0],
            forall|c: int|
                1 <= c < 5 ==> #[trigger] stats.sums@[c] == old(stats).sums@[c] + edge_sum(here@, a@, b@, src@, c, i as nat),
            forall|c: int|
                1 <= c < 5 ==> #[trigger] stats.counts@[c] == old(stats).counts@[c] + edge_count(
                    here@,
                    a@,
                    b@,
                    c,
                    i as nat,
                ),
        decreases n - i,
    {
        let c: usize = category(here[i], a[i], b[i]);
        if c != 0 {
            let error: i64 = src[i] as i64 - here[i] as i64;
            proof {
                lemma_edge_bounds(here@, a@, b@, src@, c as int, i as nat);
            }
            assert(stats.sums@[c as int] == old(stats).sums@[c as int] + edge_sum(
                here@,
                a@,
                b@,
                src@,
                c as int,
                i as nat,
            ));
            assert(stats.counts@[c as int] == old(stats).counts@[c as int] + edge_count(
                here@,
                a@,
                b@,
                c as int,
                i as nat,
            ));
            stats.sums[c] = stats.sums[c] + error;
            stats.counts[c] = stats.counts[c] + 1;
        }
        i = i + 1;
    }
}

/// Per-band error sums and sample counts of the band-offset classification,
/// indexed by the five top bits of the sample.
#[derive(Clone, Copy, Debug, PartialEq, Eq)]
pub struct BandStats {
    /// Summed `source - reconstruction` error per band.
    pub sums: [i64; 32],
    /// Number of samples per band.
    pub counts: [i64; 32],
}

impl Default for BandStats {
    fn default() -> (s: Self)
        ensures
            forall|k: int| 0 <= k < 32 ==> s.sums@[k] == 0 && s.counts@[k] == 0,
    {
        let zeros: [i64; 32] = [0; 32];
        BandStats { sums: zeros, counts: zeros }
    }
}

/// The band of a sample: the sample is confined to 8 bits first.
pub open spec fn band_of(sample: int) -> int {
    clip3(0, 255, sample) / 8
}

/// Summed error of the samples of band `k` among the first `n` of a run.
pub open spec fn band_sum(here: Seq<i32>, src: Seq<u8>, k: int, n: nat) -> int
    decreases n,
{
    if n == 0 {
        0
    } else {
        band_sum(here, src, k, (n - 1) as nat) + if band_of(here[n - 1] as int) == k {
            src[n - 1] - here[n - 1]
        } else {
            0
        }
    }
}

/// How many of the first `n` samples of a run are of band `k`.
pub open spec fn band_count(here: Seq<i32>, k: int, n: nat) -> int
    decreases n,
{
    if n == 0 {
        0
    } else {
        band_count(here, k, (n - 1) as nat) + if band_of(here[n - 1] as int) == k {
            1int
        } else {
            0int
        }
    }
}

/// Classifies one horizontal run of reconstructed samples into bands and
/// accumulates the source-versus-reconstruction error of each into `stats`. Every
/// sample lands in exactly one band; the error is that of the unconfined sample.
pub fn band_offset_row(here: &[i32], src: &[u8], stats: &mut BandStats)
    requires
        here@.len() == src@.len(),
        here@.len() <= MAX_RUN,
        bounded(old(stats).sums@),
        bounded(old(stats).counts@),
    ensures
        forall|k: int|
            0 <= k < 32 ==> #[trigger] final(stats).sums@[k] == old(stats).sums@[k] + band_sum(
                here@,
                src@,
                k,
                here@.len(),
            ),
        forall|k: int|
            0 <= k < 32 ==> #[trigger] final(stats).counts@[k] == old(stats).counts@[k] + band_count(
                here@,
                k,
                here@.len(),
            ),
{
    band_offset_row_scalar(here, src, stats);
}

/// The portable form of [`band_offset_row`].
pub fn band_offset_row_scalar(here: &[i32], src: &[u8], stats: &mut BandStats)
    requires
        here@.len() == src@.len(),
        here@.len() <= MAX_RUN,
        bounded(old(stats).sums@),
        bounded(old(stats).counts@),
    ensures
        forall|k: int|
            0 <= k < 32 ==> #[trigger] final(stats).sums@[k] == old(stats).sums@[k] + band_sum(
                here@,
                src@,
                k,
                here@.len(),
            ),
        forall|k: int|
            0 <= k < 32 ==> #[trigger] final(stats).counts@[k] == old(stats).counts@[k] + band_count(
                here@,
                k,
                here@.len(),
            ),
{
    let n: usize = here.len();
    let mut i: usize = 0;
    while i < n
        invariant
            i <= n,
            n == here@.len(),
            n == src@.len(),
            n <= MAX_RUN,
            bounded(old(stats).sums@),
            bounded(old(stats).counts@),
            forall|k: int|
                0 <= k < 32 ==> #[trigger] stats.sums@[k] == old(stats).sums@[k] + band_sum(here@, src@, k, i as nat),
            forall|k: int|
                0 <= k < 32 ==> #[trigger] stats.counts@[k] == old(stats).counts@[k] + band_count(here@, k, i as nat),
        decreases n - i,
    {
        let recon: i32 = here[i];
        let band: usize = (clip_sample(recon) / 8) as usize;
        let error: i64 = src[i] as i64 - recon as i64;
        proof {
            lemma_band_bounds(here@, src@, band as int, i as nat);
        }
        assert(stats.sums@[band as int] == old(stats).sums@[band as int] + band_sum(here@, src@, band as int, i as nat));
        assert(stats.counts@[band as int] == old(stats).counts@[band as int] + band_count(here@, band as int, i as nat));
        stats.sums[band] = stats.sums[band] + error;
        stats.counts[band] = stats.counts[band] + 1;
        i = i + 1;
    }
}

/// Row `y` of a rectangle inside a plane.
pub open spec fn rect_row<T>(plane: Seq<T>, stride: int, width: int, y: int) -> Seq<T> {
    plane.subrange(y * stride, y * stride + width)
}

/// Summed error of band `k` over the first `rows` rows of a rectangle.
pub open spec fn rect_sum(
    here: Seq<i32>,
    here_stride: int,
    src: Seq<u8>,
    src_stride: int,
    width: int,
    k: int,
    rows: nat,
) -> int
    decreases rows,
{
    if rows == 0 {
        0
    } else {
        rect_sum(here, here_stride, src, src_stride, width, k, (rows - 1) as nat) + band_sum(
            rect_row(here, here_stride, width, rows - 1),
            rect_row(src, src_stride, width, rows - 1),
            k,
            width as nat,
        )
    }
}

/// How many samples of the first `rows` rows of a rectangle are of band `k`.
pub open spec fn rect_count(here: Seq<i32>, here_stride: int, width: int, k: int, rows: nat) -> int
    decreases rows,
{
    if rows == 0 {
        0
    } else {
        rect_count(here, here_stride, width, k, (rows - 1) as nat) + band_count(
            rect_row(here, here_stride, width, rows - 1),
            k,
            width as nat,
        )
    }
}

/// The rectangle lies inside a plane of `len` samples.
pub open spec fn rect_fits(len: int, stride: int, width: int, height: int) -> bool {
    width > 0 && height > 0 ==> len >= (height - 1) * stride + width
}

/// The band classification of a whole rectangle.
pub fn band_offset_rect(
    here: &[i32],
    here_stride: usize,
    src: &[u8],
    src_stride: usize,
    width: usize,
    height: usize,
    stats: &mut BandStats,
)
    requires
        rect_fits(here@.len() as int, here_stride as int, width as int, height as int),
        rect_fits(src@.len() as int, src_stride as int, width as int, height as int),
        width * height <= 0x2000_0000,
        forall|k: int| 0 <= k < 32 ==> -0x1000_0000_0000_0000 <= #[trigger] old(stats).sums@[k] <= 0x1000_0000_0000_0000,
        forall|k: int|
            0 <= k < 32 ==> -0x1000_0000_0000_0000 <= #[trigger] old(stats).counts@[k] <= 0x1000_0000_0000_0000,
    ensures
        width > 0 ==> forall|k: int|
            0 <= k < 32 ==> #[trigger] final(stats).sums@[k] == old(stats).sums@[k] + rect_sum(
                here@,
                here_stride as int,
                src@,
                src_stride as int,
                width as int,
                k,
                height as nat,
            ),
        width > 0 ==> forall|k: int|
            0 <= k < 32 ==> #[trigger] final(stats).counts@[k] == old(stats).counts@[k] + rect_count(
                here@,
                here_stride as int,
                width as int,
                k,
                height as nat,
            ),
        width == 0 ==> *final(stats) == *old(stats),
{
    if width == 0 || height == 0 {
        return;
    }
    assert(width <= 0x2000_0000) by (nonlinear_arith)
        requires
            width * height <= 0x2000_0000,
            height >= 1,
            width >= 0,
    ;
    let mut y: usize = 0;
    while y < height
        invariant
            y <= height,
            width > 0,
            width <= 0x2000_0000,
            height > 0,
            width * height <= 0x2000_0000,
            rect_fits(here.len() as int, here_stride as int, width as int, height as int),
            rect_fits(src.len() as int, src_stride as int, width as int, height as int),
            forall|k: int|
                0 <= k < 32 ==> -0x1000_0000_0000_0000 <= #[trigger] old(stats).sums@[k] <= 0x1000_0000_0000_0000,
            forall|k: int|
                0 <= k < 32 ==> -0x1000_0000_0000_0000 <= #[trigger] old(stats).counts@[k] <= 0x1000_0000_0000_0000,
            forall|k: int|
                0 <= k < 32 ==> #[trigger] stats.sums@[k] == old(stats).sums@[k] + rect_sum(
                    here@,
                    here_stride as int,
                    src@,
                    src_stride as int,
                    width as int,
                    k,
                    y as nat,
                ),
            forall|k: int|
                0 <= k < 32 ==> #[trigger] stats.counts@[k] == old(stats).counts@[k] + rect_count(
                    here@,
                    here_stride as int,
                    width as int,
                    k,
                    y as nat,
                ),
        decreases height - y,
    {
        proof {
            lemma_row_inside(here.len() as int, here_stride as int, width as int, height as int, y as int);
            lemma_row_inside(src.len() as int, src_stride as int, width as int, height as int, y as int);
            assert(0 <= y * width <= 0x2000_0000) by (nonlinear_arith)
                requires
                    0 <= y <= height,
                    width * height <= 0x2000_0000,
                    width >= 0,
            ;
            assert forall|k: int| 0 <= k < 32 implies -0x4000_0000_0000_0000 <= #[trigger] stats.sums@[k]
                <= 0x4000_0000_0000_0000 by {
                lemma_rect_bounds(here@, here_stride as int, src@, src_stride as int, width as int, k, y as nat);
                assert(-0x1000_0000_0000_0000 <= old(stats).sums@[k] <= 0x1000_0000_0000_0000);
            }
            assert forall|k: int| 0 <= k < 32 implies -0x4000_0000_0000_0000 <= #[trigger] stats.counts@[k]
                <= 0x4000_0000_0000_0000 by {
                lemma_rect_bounds(here@, here_stride as int, src@, src_stride as int, width as int, k, y as nat);
                assert(-0x1000_0000_0000_0000 <= old(stats).counts@[k] <= 0x1000_0000_0000_0000);
            }
        }
        band_offset_row_scalar(
            vstd::slice::slice_subrange(here, y * here_stride, y * here_stride + width),
            vstd::slice::slice_subrange(src, y * src_stride, y * src_stride + width),
            stats,
        );
        y = y + 1;
    }
}

proof fn lemma_row_inside(len: int, stride: int, width: int, height: int, y: int)
    requires
        width > 0,
        0 <= y < height,
        stride >= 0,
        len >= (height - 1) * stride + width,
    ensures
        0 <= y * stride,
        y * stride + width <= len,
{
    assert(0 <= y * stride <= (height - 1) * stride) by (nonlinear_arith)
        requires
            0 <= y <= height - 1,
            stride >= 0,
    ;
}

proof fn lemma_edge_bounds(here: Seq<i32>, a: Seq<i32>, b: Seq<i32>, src: Seq<u8>, c: int, n: nat)
    ensures
        -(n * 0x8000_0100) <= edge_sum(here, a, b, src, c, n) <= n * 0x8000_0100,
        0 <= edge_count(here, a, b, c, n) <= n,
    decreases n,
{
    if n > 0 {
        lemma_edge_bounds(here, a, b, src, c, (n - 1) as nat);
    }
}

proof fn lemma_rect_bounds(
    here: Seq<i32>,
    here_stride: int,
    src: Seq<u8>,
    src_stride: int,
    width: int,
    k: int,
    rows: nat,
)
    requires
        width >= 0,
    ensures
        -(rows * width * 0x8000_0100) <= rect_sum(here, here_stride, src, src_stride, width, k, rows) <= rows * width
            * 0x8000_0100,
        0 <= rect_count(here, here_stride, width, k, rows) <= rows * width,
    decreases rows,
{
    if rows > 0 {
        lemma_rect_bounds(here, here_stride, src, src_stride, width, k, (rows - 1) as nat);
        lemma_band_bounds(
            rect_row(here, here_stride, width, rows - 1),
            rect_row(src, src_stride, width, rows - 1),
            k,
            width as nat,
        );
        assert(rows * width == (rows - 1) * width + width) by (nonlinear_arith);
    }
}

proof fn lemma_band_bounds(here: Seq<i32>, src: Seq<u8>, k: int, n: nat)
    ensures
        -(n * 0x8000_0100) <= band_sum(here, src, k, n) <= n * 0x8000_0100,
        0 <= band_count(here, k, n) <= n,
    decreases n,
{
    if n > 0 {
        lemma_band_bounds(here, src, k, (n - 1) as nat);
    }
}

/// Every sample is counted once: the counts of all bands add up to the length of
/// the run.
pub proof fn law_bands_count_every_sample(here: Seq<i32>, n: nat)
    ensures
        total_bands(here, n, 32) == n,
    decreases n,
{
    if n == 0 {
        lemma_no_bands(here, 32);
    } else {
        law_bands_count_every_sample(here, (n - 1) as nat);
        lemma_one_more_band(here, n, 32);
    }
}

/// The counts of bands below `k` over the first `n` samples.
pub open spec fn total_bands(here: Seq<i32>, n: nat, k: nat) -> int
    decreases k,
{
    if k == 0 {
        0
    } else {
        total_bands(here, n, (k - 1) as nat) + band_count(here, k - 1, n)
    }
}

proof fn lemma_no_bands(here: Seq<i32>, k: nat)
    ensures
        total_bands(here, 0, k) == 0,
    decreases k,
{
    if k > 0 {
        lemma_no_bands(here, (k - 1) as nat);
    }
}

proof fn lemma_one_more_band(here: Seq<i32>, n: nat, k: nat)
    requires
        n > 0,
    ensures
        total_bands(here, n, k) == total_bands(here, (n - 1) as nat, k) + if band_of(here[n - 1] as int) < k {
            1int
        } else {
            0int
        },
    decreases k,
{
    if k > 0 {
        lemma_one_more_band(here, n, (k - 1) as nat);
    }
}

} // verus!
