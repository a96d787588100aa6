//! The encoder's search for sample-adaptive offsets: for each coding tree block the
//! edge classes and the band positions are scored against each other and against no
//! offsets, by the squared error they remove less what they cost to signal.
use vstd::prelude::*;
use vstd::slice::slice_subrange;
use crate::arith::{abs, min};
use crate::cabac::clip3;
use crate::intra::is_samples;
use crate::recon_simd::{
    band_count, band_offset_row, band_sum, edge_category, edge_count, edge_offset_row, edge_sum, BandStats, EdgeStats,
};
use crate::picture::{plane_side, Frame, Picture, Samples, SourcePlanes, MAX_SIDE};
use crate::sao::{
    category_at, cells, eo_offsets, eo_pos, inside, sao_off, ResolvedSao, ResolvedSaoComponent, SaoCell, SaoModel,
    SAO_OFFSET_MAX,
};

verus! {

/// The widest that the multiplier of the slice-level decision may depart from the
/// closed form, as a factor either way.
pub const SAO_LAMBDA_BAND: u64 = 4;

/// What the syntax of band offsets is charged per bin, as a fraction of the closed
/// form.
pub const BAND_SYNTAX_CHARGE_NUM: u32 = 5;
pub const BAND_SYNTAX_CHARGE_DEN: u32 = 2;

/// The weights that the search prices syntax with, in Q8.
#[derive(Clone, Copy, PartialEq, Eq, Debug, Structural)]
pub struct SaoLambda {
    /// What the type and class bins and the bins of the offsets cost.
    pub mode_q8: u32,
    /// What the bins of a band position and of the signs cost.
    pub band_q8: u32,
}

impl SaoLambda {
    /// Both prices at the closed form.
    pub fn closed_form(lambda_q8: u32) -> (l: Self)
        ensures
            l == (SaoLambda { mode_q8: lambda_q8, band_q8: lambda_q8 }),
    {
        SaoLambda { mode_q8: lambda_q8, band_q8: lambda_q8 }
    }

    /// The prices the writer searches with: the closed form, and two and a half times
    /// that, rounded up, for the syntax of band offsets.
    pub fn for_search(lambda_q8: u32) -> (l: Self)
        requires
            5 * lambda_q8 <= u32::MAX,
        ensures
            l.mode_q8 == lambda_q8,
            l.band_q8 == (5 * lambda_q8 + 1) / 2,
    {
        let charge: u32 = lambda_q8 * BAND_SYNTAX_CHARGE_NUM;
        SaoLambda {
            mode_q8: lambda_q8,
            band_q8: charge / BAND_SYNTAX_CHARGE_DEN + charge % BAND_SYNTAX_CHARGE_DEN,
        }
    }
}

/// Division rounded to the nearest integer, halves away from zero.
pub open spec fn mean(sum: int, count: int) -> int {
    if sum >= 0 {
        (sum + count / 2) / count
    } else {
        -((-sum + count / 2) / count)
    }
}

fn div_round(numerator: i64, denominator: i64) -> (r: i32)
    requires
        0 < denominator <= 4096,
        -1_044_480 <= numerator <= 1_044_480,
    ensures
        r == mean(numerator as int, denominator as int),
        -1_048_576 <= r <= 1_048_576,
{
    let half: i64 = denominator / 2;
    if numerator >= 0 {
        let q: i64 = (numerator + half) / denominator;
        assert(0 <= q <= numerator + half) by (nonlinear_arith)
            requires
                q == (numerator + half) as int / denominator as int,
                denominator >= 1,
                numerator + half >= 0,
        ;
        q as i32
    } else {
        let up: i64 = -numerator + half;
        let q: i64 = up / denominator;
        assert(0 <= q <= up) by (nonlinear_arith)
            requires
                q == up as int / denominator as int,
                denominator >= 1,
                up >= 0,
        ;
        -(q as i32)
    }
}

/// The squared error that adding `o` to `n` samples of summed error `s` removes.
pub open spec fn gain_of(o: int, s: int, n: int) -> int {
    2 * o * s - n * o * o
}

fn offset_gain(o: i32, s: i64, n: i64) -> (g: i64)
    requires
        -7 <= o <= 7,
        -1_044_480 <= s <= 1_044_480,
        0 <= n <= 4096,
    ensures
        g == gain_of(o as int, s as int, n as int),
        -20_000_000 <= g <= 20_000_000,
{
    assert(-14_622_720 <= 2 * o * s <= 14_622_720) by (nonlinear_arith)
        requires
            -7 <= o <= 7,
            -1_044_480 <= s <= 1_044_480,
    ;
    assert(-28672 <= n * o <= 28672) by (nonlinear_arith)
        requires
            -7 <= o <= 7,
            0 <= n <= 4096,
    ;
    assert(-200_704 <= n * o * o <= 200_704) by (nonlinear_arith)
        requires
            -28672 <= n * o <= 28672,
            -7 <= o <= 7,
    ;
    2 * (o as i64) * s - n * (o as i64) * (o as i64)
}

/// Part of a plane and the source it stands for: columns `x0..x1`, rows `y0..y1`.
pub struct Region {
    pub s: Seq<i32>,
    pub w: int,
    pub h: int,
    pub src: Seq<u8>,
    pub stride: int,
    pub x0: int,
    pub y0: int,
    pub x1: int,
    pub y1: int,
}

impl Region {
    /// At most a coding tree block, inside both planes.
    pub open spec fn wf(self) -> bool {
        &&& is_samples(self.s)
        &&& self.s.len() == self.w * self.h
        &&& 0 < self.w <= 0x4000_0000
        &&& 0 < self.h <= 0x4000_0000
        &&& self.stride >= self.w
        &&& self.src.len() >= (self.h - 1) * self.stride + self.w
        &&& 0 <= self.x0 <= self.x1 <= self.w
        &&& 0 <= self.y0 <= self.y1 <= self.h
        &&& self.x1 - self.x0 <= 16
        &&& self.y1 - self.y0 <= 16
    }

    /// How far the source lies above the plane at a sample.
    pub open spec fn error(self, x: int, y: int) -> int {
        self.src[y * self.stride + x] - self.s[y * self.w + x]
    }

    /// Summed error of the samples of category `c` among the first `n` of row `y`.
    pub open spec fn row_error(self, class: int, c: int, y: int, n: nat) -> int
        decreases n,
    {
        if n == 0 {
            0
        } else {
            self.row_error(class, c, y, (n - 1) as nat) + if category_at(
                self.s,
                self.w,
                self.h,
                class,
                self.x0 + n - 1,
                y,
            ) == c {
                self.error(self.x0 + n - 1, y)
            } else {
                0
            }
        }
    }

    /// How many of the first `n` samples of row `y` are of category `c`.
    pub open spec fn row_hits(self, class: int, c: int, y: int, n: nat) -> int
        decreases n,
    {
        if n == 0 {
            0
        } else {
            self.row_hits(class, c, y, (n - 1) as nat) + if category_at(
                self.s,
                self.w,
                self.h,
                class,
                self.x0 + n - 1,
                y,
            ) == c {
                1int
            } else {
                0int
            }
        }
    }

    /// Summed error of category `c` over the first `rows` rows.
    pub open spec fn edge_error(self, class: int, c: int, rows: nat) -> int
        decreases rows,
    {
        if rows == 0 {
            0
        } else {
            self.edge_error(class, c, (rows - 1) as nat) + self.row_error(
                class,
                c,
                self.y0 + rows - 1,
                (self.x1 - self.x0) as nat,
            )
        }
    }

    /// How many samples of the first `rows` rows are of category `c`.
    pub open spec fn edge_hits(self, class: int, c: int, rows: nat) -> int
        decreases rows,
    {
        if rows == 0 {
            0
        } else {
            self.edge_hits(class, c, (rows - 1) as nat) + self.row_hits(
                class,
                c,
                self.y0 + rows - 1,
                (self.x1 - self.x0) as nat,
            )
        }
    }

    pub open spec fn rows(self) -> nat {
        (self.y1 - self.y0) as nat
    }

    /// The offset of category `c`: the mean error of its samples, confined to what
    /// can be signalled with the sign that the category implies.
    pub open spec fn edge_offset(self, class: int, c: int) -> int {
        let n = self.edge_hits(class, c, self.rows());
        let m = mean(self.edge_error(class, c, self.rows()), n);
        if n == 0 {
            0
        } else if c <= 2 {
            clip3(0, SAO_OFFSET_MAX as int, m)
        } else {
            clip3(-SAO_OFFSET_MAX as int, 0, m)
        }
    }

    /// The offsets of an edge class.
    pub open spec fn edge_offsets(self, class: int) -> Seq<i32> {
        seq![
            0i32,
            self.edge_offset(class, 1) as i32,
            self.edge_offset(class, 2) as i32,
            self.edge_offset(class, 3) as i32,
            self.edge_offset(class, 4) as i32,
        ]
    }

    /// What category `c` gains.
    pub open spec fn category_gain(self, class: int, c: int) -> int {
        gain_of(
            self.edge_offset(class, c),
            self.edge_error(class, c, self.rows()),
            self.edge_hits(class, c, self.rows()),
        )
    }

    /// What an edge class gains.
    pub open spec fn edge_gain(self, class: int) -> int {
        self.category_gain(class, 1) + self.category_gain(class, 2) + self.category_gain(class, 3)
            + self.category_gain(class, 4)
    }

    /// The samples of row `y`, and the source beside them.
    pub open spec fn here_row(self, y: int) -> Seq<i32> {
        self.s.subrange(y * self.w + self.x0, y * self.w + self.x1)
    }

    pub open spec fn src_row(self, y: int) -> Seq<u8> {
        self.src.subrange(y * self.stride + self.x0, y * self.stride + self.x1)
    }

    /// Summed error of band `k` over the first `rows` rows.
    pub open spec fn band_error(self, k: int, rows: nat) -> int
        decreases rows,
    {
        if rows == 0 {
            0
        } else {
            self.band_error(k, (rows - 1) as nat) + band_sum(
                self.here_row(self.y0 + rows - 1),
                self.src_row(self.y0 + rows - 1),
                k,
                (self.x1 - self.x0) as nat,
            )
        }
    }

    /// How many samples of the first `rows` rows are of band `k`.
    pub open spec fn band_hits(self, k: int, rows: nat) -> int
        decreases rows,
    {
        if rows == 0 {
            0
        } else {
            self.band_hits(k, (rows - 1) as nat) + band_count(
                self.here_row(self.y0 + rows - 1),
                k,
                (self.x1 - self.x0) as nat,
            )
        }
    }

    /// The offset of a band: the mean error of its samples, confined to what can be
    /// signalled.
    pub open spec fn band_offset(self, k: int) -> int {
        let n = self.band_hits(k, self.rows());
        if n == 0 {
            0
        } else {
            clip3(-SAO_OFFSET_MAX as int, SAO_OFFSET_MAX as int, mean(self.band_error(k, self.rows()), n))
        }
    }

    /// What a band gains.
    pub open spec fn one_band_gain(self, k: int) -> int {
        gain_of(self.band_offset(k), self.band_error(k, self.rows()), self.band_hits(k, self.rows()))
    }

    /// The offsets of the four bands from `first` on, which wrap around.
    pub open spec fn band_offsets(self, first: int) -> Seq<i32> {
        seq![
            0i32,
            self.band_offset(first % 32) as i32,
            self.band_offset((first + 1) % 32) as i32,
            self.band_offset((first + 2) % 32) as i32,
            self.band_offset((first + 3) % 32) as i32,
        ]
    }

    /// What the four bands from `first` on gain.
    pub open spec fn band_gain(self, first: int) -> int {
        self.one_band_gain(first % 32) + self.one_band_gain((first + 1) % 32) + self.one_band_gain((first + 2) % 32)
            + self.one_band_gain((first + 3) % 32)
    }
}

/// Bins of one offset magnitude: truncated unary of at most seven.
pub open spec fn abs_bins(o: int) -> int {
    if abs(o) < SAO_OFFSET_MAX {
        abs(o) + 1
    } else {
        SAO_OFFSET_MAX as int
    }
}

/// Bins of the four offset magnitudes of a component.
pub open spec fn offset_bins(o: Seq<i32>) -> int {
    abs_bins(o[1] as int) + abs_bins(o[2] as int) + abs_bins(o[3] as int) + abs_bins(o[4] as int)
}

/// Bins of a band position, and of the sign of each offset that is not zero.
pub open spec fn band_bins(o: Seq<i32>) -> int {
    5 + (if o[1] != 0 {
        1int
    } else {
        0
    }) + (if o[2] != 0 {
        1int
    } else {
        0
    }) + (if o[3] != 0 {
        1int
    } else {
        0
    }) + (if o[4] != 0 {
        1int
    } else {
        0
    })
}

/// What a candidate is worth: the error it removes less what its bins cost.
pub open spec fn score(gain: int, bins: int, band: int, lambda: SaoLambda) -> int {
    gain - (bins * lambda.mode_q8 + band * lambda.band_q8) / 256
}

fn one_abs_bins(o: i32) -> (b: u64)
    requires
        -7 <= o <= 7,
    ensures
        b == abs_bins(o as int),
        1 <= b <= 7,
{
    let v: u64 = if o < 0 {
        (0 - o) as u64
    } else {
        o as u64
    };
    if v < 7 {
        v + 1
    } else {
        v
    }
}

/// Every offset can be signalled.
pub open spec fn offsets_wf(o: Seq<i32>) -> bool {
    o.len() == 5 && o[0] == 0 && forall|i: int| 0 <= i < 5 ==> -7 <= #[trigger] o[i] <= 7
}

fn offset_abs_bins(o: &[i32; 5]) -> (b: u64)
    requires
        offsets_wf(o@),
    ensures
        b == offset_bins(o@),
        4 <= b <= 28,
{
    assert(-7 <= o@[1] <= 7 && -7 <= o@[2] <= 7 && -7 <= o@[3] <= 7 && -7 <= o@[4] <= 7);
    one_abs_bins(o[1]) + one_abs_bins(o[2]) + one_abs_bins(o[3]) + one_abs_bins(o[4])
}

fn band_syntax_bins(o: &[i32; 5]) -> (b: u64)
    ensures
        b == band_bins(o@),
        5 <= b <= 9,
{
    let mut b: u64 = 5;
    if o[1] != 0 {
        b = b + 1;
    }
    if o[2] != 0 {
        b = b + 1;
    }
    if o[3] != 0 {
        b = b + 1;
    }
    if o[4] != 0 {
        b = b + 1;
    }
    b
}

fn rd_score(gain: i64, bins: u64, band: u64, lambda: SaoLambda) -> (s: i64)
    requires
        -200_000_000 <= gain <= 200_000_000,
        bins <= 100,
        band <= 100,
    ensures
        s == score(gain as int, bins as int, band as int, lambda),
        -0x1_0000_0000 <= s <= 200_000_000,
{
    assert(0 <= bins * lambda.mode_q8 <= 429_496_729_500) by (nonlinear_arith)
        requires
            0 <= bins <= 100,
            0 <= lambda.mode_q8 <= 4_294_967_295,
    ;
    assert(0 <= band * lambda.band_q8 <= 429_496_729_500) by (nonlinear_arith)
        requires
            0 <= band <= 100,
            0 <= lambda.band_q8 <= 4_294_967_295,
    ;
    let rate: u64 = bins * lambda.mode_q8 as u64 + band * lambda.band_q8 as u64;
    gain - (rate / 256) as i64
}

/// The region that a call stands for.
pub open spec fn region(
    s: Seq<i32>,
    w: usize,
    h: usize,
    src: Seq<u8>,
    stride: usize,
    rect: (usize, usize, usize, usize),
) -> Region {
    Region {
        s,
        w: w as int,
        h: h as int,
        src,
        stride: stride as int,
        x0: rect.0 as int,
        y0: rect.1 as int,
        x1: rect.2 as int,
        y1: rect.3 as int,
    }
}

proof fn lemma_row_start(r: Region, y: int)
    requires
        r.wf(),
        0 <= y < r.h,
    ensures
        0 <= y * r.w,
        y * r.w + r.w <= r.s.len(),
        0 <= y * r.stride,
        y * r.stride + r.w <= r.src.len(),
{
    assert(0 <= y * r.w) by (nonlinear_arith)
        requires
            y >= 0,
            r.w >= 0,
    ;
    crate::arith::lemma_grid(y, r.w - 1, r.w, r.h);
    assert(0 <= y * r.stride <= (r.h - 1) * r.stride) by (nonlinear_arith)
        requires
            0 <= y <= r.h - 1,
            r.stride >= 0,
    ;
}

proof fn lemma_error_bound(r: Region, x: int, y: int)
    requires
        r.wf(),
        0 <= y < r.h,
        0 <= x < r.w,
    ensures
        -255 <= r.error(x, y) <= 255,
{
    lemma_row_start(r, y);
    assert(0 <= r.s[y * r.w + x] <= 255);
}

proof fn lemma_row_bounds(r: Region, class: int, c: int, y: int, n: nat)
    requires
        r.wf(),
        0 <= y < r.h,
        n <= r.x1 - r.x0,
    ensures
        -(255 * n) <= r.row_error(class, c, y, n) <= 255 * n,
        0 <= r.row_hits(class, c, y, n) <= n,
    decreases n,
{
    if n > 0 {
        lemma_row_bounds(r, class, c, y, (n - 1) as nat);
        lemma_error_bound(r, r.x0 + n - 1, y);
    }
}

proof fn lemma_edge_bounds(r: Region, class: int, c: int, rows: nat)
    requires
        r.wf(),
        rows <= r.rows(),
    ensures
        -(4080 * rows) <= r.edge_error(class, c, rows) <= 4080 * rows,
        0 <= r.edge_hits(class, c, rows) <= 16 * rows,
    decreases rows,
{
    if rows > 0 {
        lemma_edge_bounds(r, class, c, (rows - 1) as nat);
        lemma_row_bounds(r, class, c, r.y0 + rows - 1, (r.x1 - r.x0) as nat);
    }
}

/// The kernel's run of `m` samples from `lo` on holds every sample of a row that has
/// a category.
spec fn run_matches(
    r: Region,
    class: int,
    y: int,
    lo: int,
    m: int,
    here: Seq<i32>,
    a: Seq<i32>,
    b: Seq<i32>,
    src: Seq<u8>,
) -> bool {
    &&& r.x0 <= lo
    &&& forall|x: int| r.x0 <= x < r.x1 && !(lo <= x < lo + m) ==> #[trigger] category_at(r.s, r.w, r.h, class, x, y) == 0
    &&& forall|x: int|
        lo <= x < lo + m ==> #[trigger] category_at(r.s, r.w, r.h, class, x, y) == edge_category(
            here[x - lo] as int,
            a[x - lo] as int,
            b[x - lo] as int,
        ) && r.error(x, y) == src[x - lo] - here[x - lo]
}

proof fn lemma_run(
    r: Region,
    class: int,
    c: int,
    y: int,
    lo: int,
    m: int,
    here: Seq<i32>,
    a: Seq<i32>,
    b: Seq<i32>,
    src: Seq<u8>,
    n: nat,
)
    requires
        c != 0,
        m >= 0,
        n <= r.x1 - r.x0,
        run_matches(r, class, y, lo, m, here, a, b, src),
    ensures
        r.row_error(class, c, y, n) == edge_sum(here, a, b, src, c, clip3(0, m, r.x0 + n - lo) as nat),
        r.row_hits(class, c, y, n) == edge_count(here, a, b, c, clip3(0, m, r.x0 + n - lo) as nat),
    decreases n,
{
    if n > 0 {
        lemma_run(r, class, c, y, lo, m, here, a, b, src, (n - 1) as nat);
        let x = r.x0 + n - 1;
        assert(category_at(r.s, r.w, r.h, class, x, y) == category_at(r.s, r.w, r.h, class, x, y));
        if lo <= x < lo + m {
            assert(clip3(0, m, r.x0 + n - lo) == x - lo + 1);
            assert(clip3(0, m, r.x0 + n - 1 - lo) == x - lo);
        } else {
            assert(category_at(r.s, r.w, r.h, class, x, y) == 0);
        }
    }
}

/// A row whose neighbours lie outside, or whose run is empty, has no categories.
proof fn lemma_empty_row(r: Region, class: int, y: int, lo: int, hi: int)
    requires
        r.wf(),
        0 <= y < r.h,
        ({
            let o = eo_offsets(class);
            &&& lo == crate::arith::max(r.x0, crate::arith::max(-o.0, -o.2))
            &&& hi == min(r.x1, min(r.w - o.0, r.w - o.2))
            &&& y + o.1 < 0 || y + o.3 < 0 || y + o.1 >= r.h || y + o.3 >= r.h || hi <= lo
        }),
    ensures
        forall|c: int| c != 0 ==> #[trigger] r.row_error(class, c, y, (r.x1 - r.x0) as nat) == 0,
        forall|c: int| c != 0 ==> #[trigger] r.row_hits(class, c, y, (r.x1 - r.x0) as nat) == 0,
{
    let e = Seq::<i32>::empty();
    let eb = Seq::<u8>::empty();
    assert(run_matches(r, class, y, r.x0, 0, e, e, e, eb));
    assert forall|c: int| c != 0 implies #[trigger] r.row_error(class, c, y, (r.x1 - r.x0) as nat) == 0 by {
        lemma_run(r, class, c, y, r.x0, 0, e, e, e, eb, (r.x1 - r.x0) as nat);
    }
    assert forall|c: int| c != 0 implies #[trigger] r.row_hits(class, c, y, (r.x1 - r.x0) as nat) == 0 by {
        lemma_run(r, class, c, y, r.x0, 0, e, e, e, eb, (r.x1 - r.x0) as nat);
    }
}

/// The samples of a row that have both neighbours are one run.
proof fn lemma_full_row(
    r: Region,
    class: int,
    y: int,
    lo: int,
    hi: int,
    here: Seq<i32>,
    a: Seq<i32>,
    b: Seq<i32>,
    src: Seq<u8>,
)
    requires
        r.wf(),
        0 <= y < r.h,
        ({
            let o = eo_offsets(class);
            &&& lo == crate::arith::max(r.x0, crate::arith::max(-o.0, -o.2))
            &&& hi == min(r.x1, min(r.w - o.0, r.w - o.2))
            &&& 0 <= y + o.1 < r.h
            &&& 0 <= y + o.3 < r.h
            &&& lo < hi
            &&& here == r.s.subrange(y * r.w + lo, y * r.w + hi)
            &&& a == r.s.subrange((y + o.1) * r.w + (lo + o.0), (y + o.1) * r.w + (hi + o.0))
            &&& b == r.s.subrange((y + o.3) * r.w + (lo + o.2), (y + o.3) * r.w + (hi + o.2))
            &&& src == r.src.subrange(y * r.stride + lo, y * r.stride + hi)
        }),
    ensures
        forall|c: int|
            c != 0 ==> #[trigger] r.row_error(class, c, y, (r.x1 - r.x0) as nat) == edge_sum(
                here,
                a,
                b,
                src,
                c,
                (hi - lo) as nat,
            ),
        forall|c: int|
            c != 0 ==> #[trigger] r.row_hits(class, c, y, (r.x1 - r.x0) as nat) == edge_count(
                here,
                a,
                b,
                c,
                (hi - lo) as nat,
            ),
{
    let o = eo_offsets(class);
    lemma_row_start(r, y);
    lemma_row_start(r, y + o.1);
    lemma_row_start(r, y + o.3);
    assert forall|x: int| lo <= x < hi implies #[trigger] category_at(r.s, r.w, r.h, class, x, y) == edge_category(
        here[x - lo] as int,
        a[x - lo] as int,
        b[x - lo] as int,
    ) && r.error(x, y) == src[x - lo] - here[x - lo] by {
        assert(here[x - lo] == r.s[y * r.w + x]);
        assert(a[x - lo] == r.s[(y + o.1) * r.w + (x + o.0)]);
        assert(b[x - lo] == r.s[(y + o.3) * r.w + (x + o.2)]);
        assert(src[x - lo] == r.src[y * r.stride + x]);
    }
    assert(run_matches(r, class, y, lo, hi - lo, here, a, b, src));
    assert forall|c: int| c != 0 implies #[trigger] r.row_error(class, c, y, (r.x1 - r.x0) as nat) == edge_sum(
        here,
        a,
        b,
        src,
        c,
        (hi - lo) as nat,
    ) by {
        lemma_run(r, class, c, y, lo, hi - lo, here, a, b, src, (r.x1 - r.x0) as nat);
    }
    assert forall|c: int| c != 0 implies #[trigger] r.row_hits(class, c, y, (r.x1 - r.x0) as nat) == edge_count(
        here,
        a,
        b,
        c,
        (hi - lo) as nat,
    ) by {
        lemma_run(r, class, c, y, lo, hi - lo, here, a, b, src, (r.x1 - r.x0) as nat);
    }
}

/// A run of samples of one row of a plane.
fn plane_run<'a>(s: &'a Vec<i32>, w: usize, h: usize, x: usize, y: usize, run: usize) -> (t: &'a [i32])
    requires
        s@.len() == w * h,
        y < h,
        x + run <= w,
        run > 0,
    ensures
        t@ == s@.subrange(y * w + x, y * w + (x + run)),
        t@.len() == run,
{
    let len: usize = s.len();
    proof {
        crate::arith::lemma_grid(y as int, x + run - 1, w as int, h as int);
        assert(0 <= y * w) by (nonlinear_arith)
            requires
                y >= 0,
                w >= 0,
        ;
    }
    assert(y * w + (x + run) <= len);
    slice_subrange(s.as_slice(), y * w + x, y * w + (x + run))
}

/// A run of samples of one row of a source plane.
fn source_run<'a>(src: &'a [u8], stride: usize, w: usize, h: usize, x: usize, y: usize, run: usize) -> (t: &'a [u8])
    requires
        src@.len() >= (h - 1) * stride + w,
        stride >= w,
        y < h,
        x + run <= w,
    ensures
        t@ == src@.subrange(y * stride + x, y * stride + (x + run)),
        t@.len() == run,
{
    let len: usize = src.len();
    proof {
        assert(0 <= y * stride <= (h - 1) * stride) by (nonlinear_arith)
            requires
                0 <= y <= h - 1,
                stride >= 0,
        ;
    }
    assert(y * stride + (x + run) <= len);
    slice_subrange(src, y * stride + x, y * stride + (x + run))
}

/// Adds one row of a region to the statistics of an edge class.
fn edge_row(
    s: &Vec<i32>,
    w: usize,
    h: usize,
    src: &[u8],
    stride: usize,
    rect: (usize, usize, usize, usize),
    class: u8,
    y: usize,
    stats: &mut EdgeStats,
)
    requires
        region(s@, w, h, src@, stride, rect).wf(),
        y < h,
        forall|c: int| 0 <= c < 5 ==> -0x10000 <= #[trigger] old(stats).sums@[c] <= 0x10000,
        forall|c: int| 0 <= c < 5 ==> 0 <= #[trigger] old(stats).counts@[c] <= 256,
    ensures
        final(stats).sums@[0] == old(stats).sums@[0],
        final(stats).counts@[0] == old(stats).counts@[0],
        forall|c: int|
            1 <= c < 5 ==> #[trigger] final(stats).sums@[c] == old(stats).sums@[c] + region(
                s@,
                w,
                h,
                src@,
                stride,
                rect,
            ).row_error(class as int, c, y as int, (rect.2 - rect.0) as nat),
        forall|c: int|
            1 <= c < 5 ==> #[trigger] final(stats).counts@[c] == old(stats).counts@[c] + region(
                s@,
                w,
                h,
                src@,
                stride,
                rect,
            ).row_hits(class as int, c, y as int, (rect.2 - rect.0) as nat),
{
    let ghost r = region(s@, w, h, src@, stride, rect);
    let (h0, v0, h1, v1): (i32, i32, i32, i32) = eo_pos(class);
    let ay: i64 = y as i64 + v0 as i64;
    let by: i64 = y as i64 + v1 as i64;
    let mut lo: i64 = rect.0 as i64;
    if lo < 0 - h0 as i64 {
        lo = 0 - h0 as i64;
    }
    if lo < 0 - h1 as i64 {
        lo = 0 - h1 as i64;
    }
    let mut hi: i64 = rect.2 as i64;
    if hi > w as i64 - h0 as i64 {
        hi = w as i64 - h0 as i64;
    }
    if hi > w as i64 - h1 as i64 {
        hi = w as i64 - h1 as i64;
    }
    if ay < 0 || by < 0 || ay >= h as i64 || by >= h as i64 || hi <= lo {
        proof {
            lemma_empty_row(r, class as int, y as int, lo as int, hi as int);
        }
        return;
    }
    let run: usize = (hi - lo) as usize;
    let here: &[i32] = plane_run(s, w, h, lo as usize, y, run);
    let a: &[i32] = plane_run(s, w, h, (lo + h0 as i64) as usize, ay as usize, run);
    let b: &[i32] = plane_run(s, w, h, (lo + h1 as i64) as usize, by as usize, run);
    let src_run: &[u8] = source_run(src, stride, w, h, lo as usize, y, run);
    proof {
        lemma_full_row(r, class as int, y as int, lo as int, hi as int, here@, a@, b@, src_run@);
    }
    edge_offset_row(here, a, b, src_run, stats);
}

/// Gathers the per-category error of one edge class over a region.
fn edge_stats(
    s: &Vec<i32>,
    w: usize,
    h: usize,
    src: &[u8],
    stride: usize,
    rect: (usize, usize, usize, usize),
    class: u8,
) -> (stats: EdgeStats)
    requires
        region(s@, w, h, src@, stride, rect).wf(),
    ensures
        forall|c: int|
            1 <= c < 5 ==> #[trigger] stats.sums@[c] == region(s@, w, h, src@, stride, rect).edge_error(
                class as int,
                c,
                region(s@, w, h, src@, stride, rect).rows(),
            ),
        forall|c: int|
            1 <= c < 5 ==> #[trigger] stats.counts@[c] == region(s@, w, h, src@, stride, rect).edge_hits(
                class as int,
                c,
                region(s@, w, h, src@, stride, rect).rows(),
            ),
{
    let ghost r = region(s@, w, h, src@, stride, rect);
    let y0: usize = rect.1;
    let y1: usize = rect.3;
    let mut stats: EdgeStats = EdgeStats::default();
    let mut y: usize = y0;
    while y < y1
        invariant
            r == region(s@, w, h, src@, stride, rect),
            r.wf(),
            y0 == rect.1,
            y1 == rect.3,
            y0 <= y <= y1,
            stats.sums@[0] == 0,
            stats.counts@[0] == 0,
            forall|c: int|
                1 <= c < 5 ==> #[trigger] stats.sums@[c] == r.edge_error(class as int, c, (y - y0) as nat),
            forall|c: int|
                1 <= c < 5 ==> #[trigger] stats.counts@[c] == r.edge_hits(class as int, c, (y - y0) as nat),
        decreases y1 - y,
    {
        proof {
            assert forall|c: int| 0 <= c < 5 implies -0x10000 <= #[trigger] stats.sums@[c] <= 0x10000 by {
                lemma_edge_bounds(r, class as int, c, (y - y0) as nat);
            }
            assert forall|c: int| 0 <= c < 5 implies 0 <= #[trigger] stats.counts@[c] <= 256 by {
                lemma_edge_bounds(r, class as int, c, (y - y0) as nat);
            }
        }
        edge_row(s, w, h, src, stride, rect, class, y, &mut stats);
        y = y + 1;
    }
    stats
}

/// The offsets one edge class would take on a region, and the squared error that
/// they remove.
pub fn class_offsets(
    s: &Vec<i32>,
    w: usize,
    h: usize,
    src: &[u8],
    stride: usize,
    rect: (usize, usize, usize, usize),
    class: u8,
) -> (r: (i64, [i32; 5]))
    requires
        region(s@, w, h, src@, stride, rect).wf(),
    ensures
        r.0 == region(s@, w, h, src@, stride, rect).edge_gain(class as int),
        r.1@ == region(s@, w, h, src@, stride, rect).edge_offsets(class as int),
        offsets_wf(r.1@),
        -80_000_000 <= r.0 <= 80_000_000,
{
    let ghost g = region(s@, w, h, src@, stride, rect);
    let stats: EdgeStats = edge_stats(s, w, h, src, stride, rect, class);
    let mut offsets: [i32; 5] = [0; 5];
    let mut gains: [i64; 5] = [0; 5];
    let mut c: usize = 1;
    while c < 5
        invariant
            1 <= c <= 5,
            g == region(s@, w, h, src@, stride, rect),
            g.wf(),
            forall|c: int| 1 <= c < 5 ==> #[trigger] stats.sums@[c] == g.edge_error(class as int, c, g.rows()),
            forall|c: int| 1 <= c < 5 ==> #[trigger] stats.counts@[c] == g.edge_hits(class as int, c, g.rows()),
            offsets_wf(offsets@),
            forall|j: int| 1 <= j < c ==> #[trigger] offsets@[j] == g.edge_offset(class as int, j),
            forall|j: int|
                1 <= j < c ==> #[trigger] gains@[j] == g.category_gain(class as int, j) && -20_000_000 <= gains@[j]
                    <= 20_000_000,
        decreases 5 - c,
    {
        let count: i64 = stats.counts[c];
        let sum: i64 = stats.sums[c];
        proof {
            assert(stats.sums@[c as int] == g.edge_error(class as int, c as int, g.rows()));
            assert(stats.counts@[c as int] == g.edge_hits(class as int, c as int, g.rows()));
            lemma_edge_bounds(g, class as int, c as int, g.rows());
        }
        let mut offset: i32 = 0;
        if count != 0 {
            let m: i32 = div_round(sum, count);
            offset = if c <= 2 {
                confine(0, SAO_OFFSET_MAX, m)
            } else {
                confine(-SAO_OFFSET_MAX, 0, m)
            };
        }
        offsets[c] = offset;
        let gain: i64 = offset_gain(offset, sum, count);
        gains[c] = gain;
        c = c + 1;
    }
    assert(offsets@ =~= g.edge_offsets(class as int));
    assert(-20_000_000 <= gains@[1] <= 20_000_000 && -20_000_000 <= gains@[2] <= 20_000_000 && -20_000_000 <= gains@[3]
        <= 20_000_000 && -20_000_000 <= gains@[4] <= 20_000_000);
    (gains[1] + gains[2] + gains[3] + gains[4], offsets)
}

fn confine(lo: i32, hi: i32, v: i32) -> (r: i32)
    ensures
        r == clip3(lo as int, hi as int, v as int),
{
    if v < lo {
        lo
    } else if v > hi {
        hi
    } else {
        v
    }
}

proof fn lemma_band_row(r: Region, k: int, y: int, n: nat)
    requires
        r.wf(),
        0 <= y < r.h,
        n <= r.x1 - r.x0,
    ensures
        -(255 * n) <= band_sum(r.here_row(y), r.src_row(y), k, n) <= 255 * n,
        0 <= band_count(r.here_row(y), k, n) <= n,
    decreases n,
{
    if n > 0 {
        lemma_band_row(r, k, y, (n - 1) as nat);
        lemma_row_start(r, y);
        assert(0 <= r.s[y * r.w + r.x0 + n - 1] <= 255);
        assert(r.here_row(y)[n - 1] == r.s[y * r.w + r.x0 + n - 1]);
    }
}

proof fn lemma_band_row_error(r: Region, k: int, y: int, n: nat)
    requires
        r.wf(),
        0 <= y < r.h,
        n <= r.x1 - r.x0,
    ensures
        -(255 * band_count(r.here_row(y), k, n)) <= band_sum(r.here_row(y), r.src_row(y), k, n) <= 255 * band_count(
            r.here_row(y),
            k,
            n,
        ),
    decreases n,
{
    if n > 0 {
        lemma_band_row_error(r, k, y, (n - 1) as nat);
        lemma_row_start(r, y);
        assert(0 <= r.s[y * r.w + r.x0 + n - 1] <= 255);
        assert(r.here_row(y)[n - 1] == r.s[y * r.w + r.x0 + n - 1]);
    }
}

proof fn lemma_band_bounds(r: Region, k: int, rows: nat)
    requires
        r.wf(),
        rows <= r.rows(),
    ensures
        -(4080 * rows) <= r.band_error(k, rows) <= 4080 * rows,
        0 <= r.band_hits(k, rows) <= 16 * rows,
    decreases rows,
{
    if rows > 0 {
        lemma_band_bounds(r, k, (rows - 1) as nat);
        lemma_band_row(r, k, r.y0 + rows - 1, (r.x1 - r.x0) as nat);
    }
}

/// An error is at most 255 a sample.
proof fn lemma_band_error_bound(r: Region, k: int, rows: nat)
    requires
        r.wf(),
        rows <= r.rows(),
    ensures
        -(255 * r.band_hits(k, rows)) <= r.band_error(k, rows) <= 255 * r.band_hits(k, rows),
    decreases rows,
{
    if rows > 0 {
        lemma_band_error_bound(r, k, (rows - 1) as nat);
        lemma_band_row_error(r, k, r.y0 + rows - 1, (r.x1 - r.x0) as nat);
    }
}

/// The per-band error of a region, gathered once for all band positions.
pub fn band_stats(
    s: &Vec<i32>,
    w: usize,
    h: usize,
    src: &[u8],
    stride: usize,
    rect: (usize, usize, usize, usize),
) -> (stats: BandStats)
    requires
        region(s@, w, h, src@, stride, rect).wf(),
    ensures
        forall|k: int|
            0 <= k < 32 ==> #[trigger] stats.sums@[k] == region(s@, w, h, src@, stride, rect).band_error(
                k,
                region(s@, w, h, src@, stride, rect).rows(),
            ),
        forall|k: int|
            0 <= k < 32 ==> #[trigger] stats.counts@[k] == region(s@, w, h, src@, stride, rect).band_hits(
                k,
                region(s@, w, h, src@, stride, rect).rows(),
            ),
{
    let ghost r = region(s@, w, h, src@, stride, rect);
    let (x0, y0, x1, y1): (usize, usize, usize, usize) = rect;
    let mut stats: BandStats = BandStats::default();
    let samples: &[i32] = s.as_slice();
    let slen: usize = s.len();
    let srclen: usize = src.len();
    let mut y: usize = y0;
    while y < y1
        invariant
            r == region(s@, w, h, src@, stride, rect),
            r.wf(),
            rect == (x0, y0, x1, y1),
            samples@ == s@,
            slen == s@.len(),
            srclen == src@.len(),
            y0 <= y <= y1,
            forall|k: int| 0 <= k < 32 ==> #[trigger] stats.sums@[k] == r.band_error(k, (y - y0) as nat),
            forall|k: int| 0 <= k < 32 ==> #[trigger] stats.counts@[k] == r.band_hits(k, (y - y0) as nat),
        decreases y1 - y,
    {
        proof {
            lemma_row_start(r, y as int);
            assert forall|k: int| 0 <= k < 32 implies -0x10000 <= #[trigger] stats.sums@[k] <= 0x10000 by {
                lemma_band_bounds(r, k, (y - y0) as nat);
            }
            assert forall|k: int| 0 <= k < 32 implies 0 <= #[trigger] stats.counts@[k] <= 256 by {
                lemma_band_bounds(r, k, (y - y0) as nat);
            }
        }
        let here: &[i32] = slice_subrange(samples, y * w + x0, y * w + x1);
        let src_run: &[u8] = slice_subrange(src, y * stride + x0, y * stride + x1);
        assert(here@ == r.here_row(y as int));
        assert(src_run@ == r.src_row(y as int));
        band_offset_row(here, src_run, &mut stats);
        y = y + 1;
    }
    stats
}

/// The sums and counts are ones that bands of at most 4096 samples each can have.
pub open spec fn countable(stats: BandStats) -> bool {
    forall|k: int|
        0 <= k < 32 ==> 0 <= #[trigger] stats.counts@[k] <= 4096 && -(255 * stats.counts@[k]) <= stats.sums@[k] <= 255
            * stats.counts@[k]
}

/// The offset of a band of `n` samples of summed error `s`: their mean error, confined to
/// what can be signalled; none for an empty band.
pub open spec fn mean_offset(s: int, n: int) -> int {
    if n == 0 {
        0
    } else {
        clip3(-SAO_OFFSET_MAX as int, SAO_OFFSET_MAX as int, mean(s, n))
    }
}

/// The summed error and the samples of the band that offset `k` of four applies to, when
/// they start at `first`.
pub open spec fn band_at(stats: BandStats, first: int, k: int) -> (int, int) {
    let b = (first + k - 1) % 32;
    (stats.sums@[b] as int, stats.counts@[b] as int)
}

/// What four offsets gain on the bands from `first` on.
pub open spec fn offsets_gain(stats: BandStats, first: int, o: Seq<i32>) -> int {
    gain_of(o[1] as int, band_at(stats, first, 1).0, band_at(stats, first, 1).1) + gain_of(
        o[2] as int,
        band_at(stats, first, 2).0,
        band_at(stats, first, 2).1,
    ) + gain_of(o[3] as int, band_at(stats, first, 3).0, band_at(stats, first, 3).1) + gain_of(
        o[4] as int,
        band_at(stats, first, 4).0,
        band_at(stats, first, 4).1,
    )
}

/// The mean, rounded, lies within half of the mean.
proof fn lemma_mean(s: int, n: int)
    requires
        n > 0,
    ensures
        -n <= 2 * (s - mean(s, n) * n) <= n,
{
    let up = if s >= 0 {
        s + n / 2
    } else {
        -s + n / 2
    };
    let q = up / n;
    vstd::arithmetic::div_mod::lemma_fundamental_div_mod(up, n);
    assert(n * q == q * n && (-q) * n == -(q * n)) by (nonlinear_arith);
}

proof fn lemma_gain_difference(o: int, v: int, s: int, n: int)
    ensures
        gain_of(o, s, n) - gain_of(v, s, n) == (o - v) * (2 * s - n * (o + v)),
{
    let d = o - v;
    let t = o + v;
    assert(d * (2 * s - n * t) == d * (2 * s) - d * (n * t)) by (nonlinear_arith);
    assert(d * (2 * s) == 2 * o * s - 2 * v * s) by (nonlinear_arith)
        requires
            d == o - v,
    ;
    let p = d * t;
    assert(d * (n * t) == n * p) by (nonlinear_arith)
        requires
            p == d * t,
    ;
    assert(p == o * o - v * v) by (nonlinear_arith)
        requires
            p == d * t,
            d == o - v,
            t == o + v,
    ;
    assert(n * p == n * o * o - n * v * v) by (nonlinear_arith)
        requires
            p == o * o - v * v,
    ;
}

/// No offset that can be signalled gains more than the mean, confined.
proof fn lemma_mean_is_best(s: int, n: int, v: int)
    requires
        n >= 0,
        n == 0 ==> s == 0,
        -7 <= v <= 7,
    ensures
        gain_of(v, s, n) <= gain_of(mean_offset(s, n), s, n),
{
    let o = mean_offset(s, n);
    if n == 0 {
        assert(2 * v * 0 - 0 * v * v == 0 && 2 * o * 0 - 0 * o * o == 0) by (nonlinear_arith);
    } else {
        lemma_mean(s, n);
        let m = mean(s, n);
        // The gain falls off on both sides of s / n, by steps that only grow.
        lemma_gain_difference(o, v, s, n);
        let d = o - v;
        let w = 2 * s - n * (o + v);
        assert(w == 2 * (s - m * n) + n * (2 * m - o - v)) by (nonlinear_arith)
            requires
                w == 2 * s - n * (o + v),
        ;
        if d > 0 {
            // v lies below o, and o is not above the mean unless it is the mean.
            assert(2 * m - o - v >= 1);
            assert(n * (2 * m - o - v) >= n) by (nonlinear_arith)
                requires
                    2 * m - o - v >= 1,
                    n >= 1,
            ;
            assert(d * w >= 0) by (nonlinear_arith)
                requires
                    d > 0,
                    w >= 0,
            ;
        } else if d < 0 {
            assert(2 * m - o - v <= -1);
            assert(n * (2 * m - o - v) <= -n) by (nonlinear_arith)
                requires
                    2 * m - o - v <= -1,
                    n >= 1,
            ;
            assert(d * w >= 0) by (nonlinear_arith)
                requires
                    d < 0,
                    w <= 0,
            ;
        } else {
            assert(d * w == 0) by (nonlinear_arith)
                requires
                    d == 0,
            ;
        }
    }
}

/// The mean error of up to 4096 samples, and what its offset gains.
fn one_band(stats: &BandStats, band: usize) -> (o: (i32, i64))
    requires
        countable(*stats),
        band < 32,
    ensures
        o.0 == mean_offset(stats.sums@[band as int] as int, stats.counts@[band as int] as int),
        o.1 == gain_of(o.0 as int, stats.sums@[band as int] as int, stats.counts@[band as int] as int),
        -7 <= o.0 <= 7,
        -20_000_000 <= o.1 <= 20_000_000,
{
    let count: i64 = stats.counts[band];
    let sum: i64 = stats.sums[band];
    assert(0 <= count <= 4096 && -(255 * count) <= sum <= 255 * count);
    let mut offset: i32 = 0;
    if count != 0 {
        offset = confine(-SAO_OFFSET_MAX, SAO_OFFSET_MAX, div_round(sum, count));
    }
    (offset, offset_gain(offset, sum, count))
}

/// The offsets of the four bands from `first` on, and what they gain. No other four
/// offsets gain more.
pub fn band_offsets(stats: &BandStats, first: u8) -> (o: (i64, [i32; 5]))
    requires
        countable(*stats),
        first < 32,
    ensures
        o.1@[0] == 0,
        forall|k: int|
            1 <= k <= 4 ==> #[trigger] o.1@[k] == mean_offset(
                band_at(*stats, first as int, k).0,
                band_at(*stats, first as int, k).1,
            ),
        o.0 == offsets_gain(*stats, first as int, o.1@),
        offsets_wf(o.1@),
        forall|v: Seq<i32>| #[trigger] offsets_wf(v) ==> offsets_gain(*stats, first as int, v) <= o.0,
        0 <= o.0 <= 80_000_000,
{
    let f: usize = first as usize;
    let (a, ga): (i32, i64) = one_band(stats, f % 32);
    let (b, gb): (i32, i64) = one_band(stats, (f + 1) % 32);
    let (c, gc): (i32, i64) = one_band(stats, (f + 2) % 32);
    let (d, gd): (i32, i64) = one_band(stats, (f + 3) % 32);
    let offsets: [i32; 5] = [0, a, b, c, d];
    proof {
        assert forall|v: Seq<i32>| #[trigger] offsets_wf(v) implies offsets_gain(*stats, first as int, v) <= ga + gb + gc
            + gd by {
            lemma_offsets_best(*stats, first as int, v);
        }
        let none = seq![0i32, 0, 0, 0, 0];
        assert(offsets_wf(none));
        lemma_none_gains_none(*stats, first as int, none);
    }
    (ga + gb + gc + gd, offsets)
}

proof fn lemma_none_gains_none(stats: BandStats, first: int, o: Seq<i32>)
    requires
        o == seq![0i32, 0, 0, 0, 0],
    ensures
        offsets_gain(stats, first, o) == 0,
{
    let (s1, n1) = band_at(stats, first, 1);
    let (s2, n2) = band_at(stats, first, 2);
    let (s3, n3) = band_at(stats, first, 3);
    let (s4, n4) = band_at(stats, first, 4);
    assert(2 * 0 * s1 - n1 * 0 * 0 == 0) by (nonlinear_arith);
    assert(2 * 0 * s2 - n2 * 0 * 0 == 0) by (nonlinear_arith);
    assert(2 * 0 * s3 - n3 * 0 * 0 == 0) by (nonlinear_arith);
    assert(2 * 0 * s4 - n4 * 0 * 0 == 0) by (nonlinear_arith);
}

/// No four offsets gain more than the confined means.
proof fn lemma_offsets_best(stats: BandStats, first: int, v: Seq<i32>)
    requires
        countable(stats),
        offsets_wf(v),
        0 <= first < 32,
    ensures
        offsets_gain(stats, first, v) <= gain_of(
            mean_offset(band_at(stats, first, 1).0, band_at(stats, first, 1).1),
            band_at(stats, first, 1).0,
            band_at(stats, first, 1).1,
        ) + gain_of(
            mean_offset(band_at(stats, first, 2).0, band_at(stats, first, 2).1),
            band_at(stats, first, 2).0,
            band_at(stats, first, 2).1,
        ) + gain_of(
            mean_offset(band_at(stats, first, 3).0, band_at(stats, first, 3).1),
            band_at(stats, first, 3).0,
            band_at(stats, first, 3).1,
        ) + gain_of(
            mean_offset(band_at(stats, first, 4).0, band_at(stats, first, 4).1),
            band_at(stats, first, 4).0,
            band_at(stats, first, 4).1,
        ),
{
    let b = first;
    assert(0 <= stats.counts@[b % 32] <= 4096);
    assert(0 <= stats.counts@[(b + 1) % 32] <= 4096);
    assert(0 <= stats.counts@[(b + 2) % 32] <= 4096);
    assert(0 <= stats.counts@[(b + 3) % 32] <= 4096);
    lemma_mean_is_best(band_at(stats, first, 1).0, band_at(stats, first, 1).1, v[1] as int);
    lemma_mean_is_best(band_at(stats, first, 2).0, band_at(stats, first, 2).1, v[2] as int);
    lemma_mean_is_best(band_at(stats, first, 3).0, band_at(stats, first, 3).1, v[3] as int);
    lemma_mean_is_best(band_at(stats, first, 4).0, band_at(stats, first, 4).1, v[4] as int);
}

/// Whether statistics are those of a region.
pub open spec fn stats_of(r: Region, stats: BandStats) -> bool {
    &&& r.wf()
    &&& forall|k: int| 0 <= k < 32 ==> #[trigger] stats.sums@[k] == r.band_error(k, r.rows())
    &&& forall|k: int| 0 <= k < 32 ==> #[trigger] stats.counts@[k] == r.band_hits(k, r.rows())
}

/// The offsets of the four bands from `first` on in a region, and what they gain.
fn region_band_offsets(stats: &BandStats, first: u8, Ghost(r): Ghost<Region>) -> (o: (i64, [i32; 5]))
    requires
        stats_of(r, *stats),
        first < 32,
    ensures
        o.0 == r.band_gain(first as int),
        o.1@ == r.band_offsets(first as int),
        offsets_wf(o.1@),
        -80_000_000 <= o.0 <= 80_000_000,
{
    proof {
        assert forall|k: int| 0 <= k < 32 implies 0 <= #[trigger] stats.counts@[k] <= 4096 && -(255 * stats.counts@[k])
            <= stats.sums@[k] <= 255 * stats.counts@[k] by {
            assert(stats.sums@[k] == r.band_error(k, r.rows()));
            assert(stats.counts@[k] == r.band_hits(k, r.rows()));
            lemma_band_bounds(r, k, r.rows());
            lemma_band_error_bound(r, k, r.rows());
        }
    }
    let (gain, offsets): (i64, [i32; 5]) = band_offsets(stats, first);
    proof {
        let f = first as int;
        assert forall|k: int| 1 <= k <= 4 implies band_at(*stats, f, k) == (
            r.band_error((f + k - 1) % 32, r.rows()),
            r.band_hits((f + k - 1) % 32, r.rows()),
        ) by {
            let b = (f + k - 1) % 32;
            assert(stats.sums@[b] == r.band_error(b, r.rows()));
            assert(stats.counts@[b] == r.band_hits(b, r.rows()));
        }
        assert(band_at(*stats, f, 1).1 == r.band_hits(f % 32, r.rows()));
        assert(offsets@[1] == r.band_offset(f % 32));
        assert(offsets@[2] == r.band_offset((f + 1) % 32));
        assert(offsets@[3] == r.band_offset((f + 2) % 32));
        assert(offsets@[4] == r.band_offset((f + 3) % 32));
        assert(offsets@ =~= r.band_offsets(f));
    }
    (gain, offsets)
}

/// A candidate and what it is worth.
pub struct Choice {
    pub score: int,
    pub model: SaoModel,
}

/// A candidate for both chroma components and what it is worth.
pub struct PairChoice {
    pub score: int,
    pub cb: SaoModel,
    pub cr: SaoModel,
}

impl Region {
    /// What an edge class is worth alone.
    pub open spec fn edge_choice(self, lambda: SaoLambda, class: int) -> Choice {
        let o = self.edge_offsets(class);
        Choice {
            score: score(self.edge_gain(class), 3 + offset_bins(o), 0, lambda),
            model: SaoModel { kind: 2, offsets: o, band: 0, class },
        }
    }

    /// What a band position is worth alone.
    pub open spec fn band_choice(self, lambda: SaoLambda, first: int) -> Choice {
        let o = self.band_offsets(first);
        Choice {
            score: score(self.band_gain(first), 1 + offset_bins(o), band_bins(o), lambda),
            model: SaoModel { kind: 1, offsets: o, band: first, class: 0 },
        }
    }

    /// The best of no offsets and the first `n` candidates: the four edge classes, then
    /// the 32 band positions. The first of equals wins.
    pub open spec fn luma_choice(self, lambda: SaoLambda, n: nat) -> Choice
        decreases n,
    {
        if n == 0 {
            Choice { score: 0, model: sao_off() }
        } else {
            let best = self.luma_choice(lambda, (n - 1) as nat);
            let new = if n <= 4 {
                self.edge_choice(lambda, n - 1)
            } else {
                self.band_choice(lambda, n - 5)
            };
            if new.score > best.score {
                new
            } else {
                best
            }
        }
    }

    /// What a band position is worth as one half of a pair.
    pub open spec fn half_score(self, lambda: SaoLambda, first: int) -> int {
        let o = self.band_offsets(first);
        score(self.band_gain(first), offset_bins(o), band_bins(o), lambda)
    }

    /// The best of the first `n` band positions as one half of a pair.
    pub open spec fn best_band(self, lambda: SaoLambda, n: nat) -> int
        decreases n,
    {
        if n <= 1 {
            0
        } else {
            let best = self.best_band(lambda, (n - 1) as nat);
            if self.half_score(lambda, n - 1) > self.half_score(lambda, best) {
                n - 1
            } else {
                best
            }
        }
    }
}

/// What an edge class is worth for both chroma components together.
#[verifier::opaque]
pub open spec fn edge_pair(cb: Region, cr: Region, lambda: SaoLambda, class: int) -> PairChoice {
    let ob = cb.edge_offsets(class);
    let or = cr.edge_offsets(class);
    PairChoice {
        score: score(cb.edge_gain(class) + cr.edge_gain(class), 3 + offset_bins(ob) + offset_bins(or), 0, lambda),
        cb: SaoModel { kind: 2, offsets: ob, band: 0, class },
        cr: SaoModel { kind: 2, offsets: or, band: 0, class },
    }
}

/// What the best band position of each chroma component is worth.
#[verifier::opaque]
pub open spec fn band_pair(cb: Region, cr: Region, lambda: SaoLambda) -> PairChoice {
    let fb = cb.best_band(lambda, 32);
    let fr = cr.best_band(lambda, 32);
    let ob = cb.band_offsets(fb);
    let or = cr.band_offsets(fr);
    PairChoice {
        score: score(
            cb.band_gain(fb) + cr.band_gain(fr),
            1 + offset_bins(ob) + offset_bins(or),
            band_bins(ob) + band_bins(or),
            lambda,
        ),
        cb: SaoModel { kind: 1, offsets: ob, band: fb, class: 0 },
        cr: SaoModel { kind: 1, offsets: or, band: fr, class: 0 },
    }
}

/// The best of no offsets and the first `n` shared candidates: the four edge classes,
/// then band offsets.
pub open spec fn chroma_choice(cb: Region, cr: Region, lambda: SaoLambda, n: nat) -> PairChoice
    decreases n,
{
    if n == 0 {
        PairChoice { score: 0, cb: sao_off(), cr: sao_off() }
    } else {
        let best = chroma_choice(cb, cr, lambda, (n - 1) as nat);
        let new = if n <= 4 {
            edge_pair(cb, cr, lambda, n - 1)
        } else {
            band_pair(cb, cr, lambda)
        };
        if new.score > best.score {
            new
        } else {
            best
        }
    }
}

/// The offsets that the search takes for the luma of a region.
#[verifier::opaque]
pub open spec fn luma_sao(r: Region, lambda: SaoLambda) -> SaoModel {
    r.luma_choice(lambda, 36).model
}

/// The offsets that the search takes for both chroma components of a region.
#[verifier::opaque]
pub open spec fn chroma_sao(cb: Region, cr: Region, lambda: SaoLambda) -> (SaoModel, SaoModel) {
    let best = chroma_choice(cb, cr, lambda, 5);
    (best.cb, best.cr)
}

/// The offsets for the luma of one region.
pub fn best_luma_sao(
    s: &Vec<i32>,
    w: usize,
    h: usize,
    src: &[u8],
    stride: usize,
    rect: (usize, usize, usize, usize),
    lambda: SaoLambda,
) -> (c: ResolvedSaoComponent)
    requires
        region(s@, w, h, src@, stride, rect).wf(),
    ensures
        c@ == luma_sao(region(s@, w, h, src@, stride, rect), lambda),
        c@.wf(),
{
    let ghost r = region(s@, w, h, src@, stride, rect);
    let mut best: ResolvedSaoComponent = ResolvedSaoComponent::off();
    let mut best_score: i64 = 0;
    let mut class: u8 = 0;
    while class < 4
        invariant
            class <= 4,
            r == region(s@, w, h, src@, stride, rect),
            r.wf(),
            best_score == r.luma_choice(lambda, class as nat).score,
            best@ == r.luma_choice(lambda, class as nat).model,
            best@.wf(),
        decreases 4 - class,
    {
        let (gain, offsets): (i64, [i32; 5]) = class_offsets(s, w, h, src, stride, rect, class);
        let value: i64 = rd_score(gain, 3 + offset_abs_bins(&offsets), 0, lambda);
        if value > best_score {
            best_score = value;
            best = ResolvedSaoComponent { sao_type_idx: 2, offset_val: offsets, band_position: 0, eo_class: class };
        }
        class = class + 1;
    }
    let stats: BandStats = band_stats(s, w, h, src, stride, rect);
    let mut first: u8 = 0;
    while first < 32
        invariant
            first <= 32,
            r == region(s@, w, h, src@, stride, rect),
            stats_of(r, stats),
            best_score == r.luma_choice(lambda, (first + 4) as nat).score,
            best@ == r.luma_choice(lambda, (first + 4) as nat).model,
            best@.wf(),
        decreases 32 - first,
    {
        let (gain, offsets): (i64, [i32; 5]) = region_band_offsets(&stats, first, Ghost(r));
        let value: i64 = rd_score(gain, 1 + offset_abs_bins(&offsets), band_syntax_bins(&offsets), lambda);
        if value > best_score {
            best_score = value;
            best = ResolvedSaoComponent { sao_type_idx: 1, offset_val: offsets, band_position: first, eo_class: 0 };
        }
        first = first + 1;
    }
    proof {
        reveal(luma_sao);
    }
    best
}

/// The band position of one chroma component that is worth most as its half of a
/// pair, with what it gains.
pub fn best_band_component(
    s: &Vec<i32>,
    w: usize,
    h: usize,
    src: &[u8],
    stride: usize,
    rect: (usize, usize, usize, usize),
    lambda: SaoLambda,
) -> (b: (i64, [i32; 5], u8))
    requires
        region(s@, w, h, src@, stride, rect).wf(),
    ensures
        b.2 == region(s@, w, h, src@, stride, rect).best_band(lambda, 32),
        b.0 == region(s@, w, h, src@, stride, rect).band_gain(b.2 as int),
        b.1@ == region(s@, w, h, src@, stride, rect).band_offsets(b.2 as int),
        b.2 < 32,
        offsets_wf(b.1@),
        -80_000_000 <= b.0 <= 80_000_000,
{
    let ghost r = region(s@, w, h, src@, stride, rect);
    let stats: BandStats = band_stats(s, w, h, src, stride, rect);
    let (gain, offsets): (i64, [i32; 5]) = region_band_offsets(&stats, 0, Ghost(r));
    let mut best_score: i64 = rd_score(gain, offset_abs_bins(&offsets), band_syntax_bins(&offsets), lambda);
    let mut best: (i64, [i32; 5], u8) = (gain, offsets, 0);
    let mut first: u8 = 1;
    while first < 32
        invariant
            1 <= first <= 32,
            r == region(s@, w, h, src@, stride, rect),
            stats_of(r, stats),
            best.2 == r.best_band(lambda, first as nat),
            best.0 == r.band_gain(best.2 as int),
            best.1@ == r.band_offsets(best.2 as int),
            best_score == r.half_score(lambda, best.2 as int),
            best.2 < 32,
            offsets_wf(best.1@),
            -80_000_000 <= best.0 <= 80_000_000,
        decreases 32 - first,
    {
        let (gain, offsets): (i64, [i32; 5]) = region_band_offsets(&stats, first, Ghost(r));
        let value: i64 = rd_score(gain, offset_abs_bins(&offsets), band_syntax_bins(&offsets), lambda);
        if value > best_score {
            best_score = value;
            best = (gain, offsets, first);
        }
        first = first + 1;
    }
    best
}

/// A candidate for both chroma components.
#[derive(Clone, Copy)]
struct SharedSao {
    score: i64,
    cb: ResolvedSaoComponent,
    cr: ResolvedSaoComponent,
}

impl SharedSao {
    spec fn is(self, c: PairChoice) -> bool {
        self.score == c.score && self.cb@ == c.cb && self.cr@ == c.cr
    }

    spec fn wf(self) -> bool {
        self.cb@.wf() && self.cr@.wf() && self.cb@.kind == self.cr@.kind && self.cb@.class == self.cr@.class
    }
}

/// An edge class for both chroma components together.
fn shared_edge(
    cb: &Vec<i32>,
    cr: &Vec<i32>,
    w: usize,
    h: usize,
    src_cb: &[u8],
    src_cr: &[u8],
    stride: usize,
    rect: (usize, usize, usize, usize),
    lambda: SaoLambda,
    class: u8,
) -> (p: SharedSao)
    requires
        region(cb@, w, h, src_cb@, stride, rect).wf(),
        region(cr@, w, h, src_cr@, stride, rect).wf(),
        class < 4,
    ensures
        p.is(
            edge_pair(
                region(cb@, w, h, src_cb@, stride, rect),
                region(cr@, w, h, src_cr@, stride, rect),
                lambda,
                class as int,
            ),
        ),
        p.wf(),
{
    let (gain_b, offsets_b): (i64, [i32; 5]) = class_offsets(cb, w, h, src_cb, stride, rect, class);
    let (gain_r, offsets_r): (i64, [i32; 5]) = class_offsets(cr, w, h, src_cr, stride, rect, class);
    let bins: u64 = 3 + offset_abs_bins(&offsets_b) + offset_abs_bins(&offsets_r);
    proof {
        reveal(edge_pair);
    }
    SharedSao {
        score: rd_score(gain_b + gain_r, bins, 0, lambda),
        cb: ResolvedSaoComponent { sao_type_idx: 2, offset_val: offsets_b, band_position: 0, eo_class: class },
        cr: ResolvedSaoComponent { sao_type_idx: 2, offset_val: offsets_r, band_position: 0, eo_class: class },
    }
}

/// The best band position of each chroma component.
fn shared_band(
    cb: &Vec<i32>,
    cr: &Vec<i32>,
    w: usize,
    h: usize,
    src_cb: &[u8],
    src_cr: &[u8],
    stride: usize,
    rect: (usize, usize, usize, usize),
    lambda: SaoLambda,
) -> (p: SharedSao)
    requires
        region(cb@, w, h, src_cb@, stride, rect).wf(),
        region(cr@, w, h, src_cr@, stride, rect).wf(),
    ensures
        p.is(
            band_pair(
                region(cb@, w, h, src_cb@, stride, rect),
                region(cr@, w, h, src_cr@, stride, rect),
                lambda,
            ),
        ),
        p.wf(),
{
    let (gain_b, offsets_b, first_b): (i64, [i32; 5], u8) = best_band_component(
        cb,
        w,
        h,
        src_cb,
        stride,
        rect,
        lambda,
    );
    let (gain_r, offsets_r, first_r): (i64, [i32; 5], u8) = best_band_component(
        cr,
        w,
        h,
        src_cr,
        stride,
        rect,
        lambda,
    );
    let bins: u64 = 1 + offset_abs_bins(&offsets_b) + offset_abs_bins(&offsets_r);
    let band: u64 = band_syntax_bins(&offsets_b) + band_syntax_bins(&offsets_r);
    proof {
        reveal(band_pair);
    }
    SharedSao {
        score: rd_score(gain_b + gain_r, bins, band, lambda),
        cb: ResolvedSaoComponent { sao_type_idx: 1, offset_val: offsets_b, band_position: first_b, eo_class: 0 },
        cr: ResolvedSaoComponent { sao_type_idx: 1, offset_val: offsets_r, band_position: first_r, eo_class: 0 },
    }
}

/// The offsets for both chroma components of one region, which share their type
/// and, for edges, their class.
pub fn best_chroma_sao(
    cb: &Vec<i32>,
    cr: &Vec<i32>,
    w: usize,
    h: usize,
    src_cb: &[u8],
    src_cr: &[u8],
    stride: usize,
    rect: (usize, usize, usize, usize),
    lambda: SaoLambda,
) -> (p: (ResolvedSaoComponent, ResolvedSaoComponent))
    requires
        region(cb@, w, h, src_cb@, stride, rect).wf(),
        region(cr@, w, h, src_cr@, stride, rect).wf(),
    ensures
        (p.0@, p.1@) == chroma_sao(
            region(cb@, w, h, src_cb@, stride, rect),
            region(cr@, w, h, src_cr@, stride, rect),
            lambda,
        ),
        p.0@.wf(),
        p.1@.wf(),
        p.0@.kind == p.1@.kind,
        p.0@.class == p.1@.class,
{
    let ghost rb = region(cb@, w, h, src_cb@, stride, rect);
    let ghost rr = region(cr@, w, h, src_cr@, stride, rect);
    let mut best: SharedSao = SharedSao {
        score: 0,
        cb: ResolvedSaoComponent::off(),
        cr: ResolvedSaoComponent::off(),
    };
    let mut n: u8 = 0;
    while n < 5
        invariant
            n <= 5,
            rb == region(cb@, w, h, src_cb@, stride, rect),
            rr == region(cr@, w, h, src_cr@, stride, rect),
            rb.wf(),
            rr.wf(),
            best.is(chroma_choice(rb, rr, lambda, n as nat)),
            best.wf(),
        decreases 5 - n,
    {
        let new: SharedSao = if n < 4 {
            shared_edge(cb, cr, w, h, src_cb, src_cr, stride, rect, lambda, n)
        } else {
            shared_band(cb, cr, w, h, src_cb, src_cr, stride, rect, lambda)
        };
        if new.score > best.score {
            best = new;
        }
        n = n + 1;
    }
    proof {
        reveal(chroma_sao);
    }
    (best.cb, best.cr)
}

/// The coding tree block at (`rx`, `ry`) of plane `c`.
pub open spec fn block_region(pic: Samples, src: Frame, c: int, rx: int, ry: int) -> Region {
    let unit = if c == 0 { 16int } else { 8int };
    let w = plane_side(pic.width, c);
    let h = plane_side(pic.height, c);
    Region {
        s: pic.plane(c),
        w,
        h,
        src: src.plane(c),
        stride: w,
        x0: rx * unit,
        y0: ry * unit,
        x1: min(rx * unit + unit, w),
        y1: min(ry * unit + unit, h),
    }
}

/// What the search decides for the block at (`rx`, `ry`).
pub open spec fn estimated_cell(
    pic: Samples,
    src: Frame,
    luma: bool,
    chroma: bool,
    lambda: SaoLambda,
    rx: int,
    ry: int,
) -> SaoCell {
    let pair = chroma_sao(block_region(pic, src, 1, rx, ry), block_region(pic, src, 2, rx, ry), lambda);
    SaoCell {
        luma: if luma {
            luma_sao(block_region(pic, src, 0, rx, ry), lambda)
        } else {
            sao_off()
        },
        cb: if chroma {
            pair.0
        } else {
            sao_off()
        },
        cr: if chroma {
            pair.1
        } else {
            sao_off()
        },
    }
}

/// What the search decides for every block, in raster order.
pub open spec fn estimated_grid(pic: Samples, src: Frame, luma: bool, chroma: bool, lambda: SaoLambda) -> Seq<SaoCell> {
    let columns = pic.width / 16;
    Seq::new(
        (columns * (pic.height / 16)) as nat,
        |i: int| estimated_cell(pic, src, luma, chroma, lambda, i % columns, i / columns),
    )
}

/// The rectangle of the coding tree block at (`rx`, `ry`) in a plane of `pw` by `ph`
/// samples whose blocks are `unit` wide, clipped to the plane.
fn ctb_rect(pw: usize, ph: usize, unit: usize, rx: usize, ry: usize) -> (r: (usize, usize, usize, usize))
    requires
        unit == 8 || unit == 16,
        rx * unit < pw <= MAX_SIDE,
        ry * unit < ph <= MAX_SIDE,
    ensures
        r.0 == rx * unit,
        r.1 == ry * unit,
        r.2 == min(rx * unit + unit, pw as int),
        r.3 == min(ry * unit + unit, ph as int),
{
    let x0: usize = rx * unit;
    let y0: usize = ry * unit;
    let x1: usize = if x0 + unit < pw {
        x0 + unit
    } else {
        pw
    };
    let y1: usize = if y0 + unit < ph {
        y0 + unit
    } else {
        ph
    };
    (x0, y0, x1, y1)
}

proof fn lemma_block_region(pic: Samples, src: Frame, c: int, rx: int, ry: int)
    requires
        pic.wf(),
        src.wf(),
        src.width == pic.width,
        src.height == pic.height,
        0 <= c < 3,
        0 <= rx < pic.width / 16,
        0 <= ry < pic.height / 16,
    ensures
        block_region(pic, src, c, rx, ry).wf(),
{
    let w = plane_side(pic.width, c);
    let h = plane_side(pic.height, c);
    assert((h - 1) * w + w == w * h) by (nonlinear_arith);
}

/// The offsets of one coding tree block.
fn estimate_cell(
    pic: &Picture,
    src: &SourcePlanes<'_>,
    luma: bool,
    chroma: bool,
    lambda: SaoLambda,
    rx: usize,
    ry: usize,
) -> (cell: ResolvedSao)
    requires
        pic@.wf(),
        src@.wf(),
        src@.width == pic@.width,
        src@.height == pic@.height,
        rx < pic@.width / 16,
        ry < pic@.height / 16,
    ensures
        cell@ == estimated_cell(pic@, src@, luma, chroma, lambda, rx as int, ry as int),
        cell@.wf(),
{
    let width: usize = pic.width;
    let height: usize = pic.height;
    proof {
        lemma_block_region(pic@, src@, 0, rx as int, ry as int);
        lemma_block_region(pic@, src@, 1, rx as int, ry as int);
        lemma_block_region(pic@, src@, 2, rx as int, ry as int);
    }
    let mut l: ResolvedSaoComponent = ResolvedSaoComponent::off();
    let mut b: ResolvedSaoComponent = ResolvedSaoComponent::off();
    let mut r: ResolvedSaoComponent = ResolvedSaoComponent::off();
    if luma {
        let rect: (usize, usize, usize, usize) = ctb_rect(width, height, 16, rx, ry);
        assert(region(pic.y@, width, height, src.y@, width, rect) == block_region(pic@, src@, 0, rx as int, ry as int));
        l = best_luma_sao(&pic.y, width, height, src.y, width, rect, lambda);
    }
    if chroma {
        let cw: usize = width / 2;
        let ch: usize = height / 2;
        let rect: (usize, usize, usize, usize) = ctb_rect(cw, ch, 8, rx, ry);
        assert(region(pic.cb@, cw, ch, src.cb@, cw, rect) == block_region(pic@, src@, 1, rx as int, ry as int));
        assert(region(pic.cr@, cw, ch, src.cr@, cw, rect) == block_region(pic@, src@, 2, rx as int, ry as int));
        let pair: (ResolvedSaoComponent, ResolvedSaoComponent) = best_chroma_sao(
            &pic.cb,
            &pic.cr,
            cw,
            ch,
            src.cb,
            src.cr,
            cw,
            rect,
            lambda,
        );
        b = pair.0;
        r = pair.1;
    }
    ResolvedSao { components: [l, b, r] }
}

/// Searches the offsets of every coding tree block of a picture.
pub fn estimate_sao(
    pic: &Picture,
    src: &SourcePlanes<'_>,
    sao_luma: bool,
    sao_chroma: bool,
    lambda: SaoLambda,
) -> (grid: Vec<ResolvedSao>)
    requires
        pic@.wf(),
        src@.wf(),
        src@.width == pic@.width,
        src@.height == pic@.height,
    ensures
        cells(grid@) == estimated_grid(pic@, src@, sao_luma, sao_chroma, lambda),
        forall|i: int| 0 <= i < grid@.len() ==> (#[trigger] grid@[i])@.wf(),
        grid@.len() == (pic@.width / 16) * (pic@.height / 16),
{
    let columns: usize = pic.width / 16;
    let rows: usize = pic.height / 16;
    let ghost goal = estimated_grid(pic@, src@, sao_luma, sao_chroma, lambda);
    let mut grid: Vec<ResolvedSao> = Vec::new();
    let mut ry: usize = 0;
    while ry < rows
        invariant
            ry <= rows,
            pic@.wf(),
            src@.wf(),
            src@.width == pic@.width,
            src@.height == pic@.height,
            columns == pic@.width / 16,
            rows == pic@.height / 16,
            goal == estimated_grid(pic@, src@, sao_luma, sao_chroma, lambda),
            grid@.len() == ry * columns,
            forall|i: int| 0 <= i < grid@.len() ==> (#[trigger] grid@[i])@.wf() && grid@[i]@ == goal[i],
        decreases rows - ry,
    {
        let mut rx: usize = 0;
        while rx < columns
            invariant
                ry < rows,
                rx <= columns,
                pic@.wf(),
                src@.wf(),
                src@.width == pic@.width,
                src@.height == pic@.height,
                columns == pic@.width / 16,
                rows == pic@.height / 16,
                goal == estimated_grid(pic@, src@, sao_luma, sao_chroma, lambda),
                grid@.len() == ry * columns + rx,
                forall|i: int| 0 <= i < grid@.len() ==> (#[trigger] grid@[i])@.wf() && grid@[i]@ == goal[i],
            decreases columns - rx,
        {
            proof {
                crate::arith::lemma_grid(ry as int, rx as int, columns as int, rows as int);
            }
            let cell: ResolvedSao = estimate_cell(pic, src, sao_luma, sao_chroma, lambda, rx, ry);
            assert(goal[ry * columns + rx] == cell@);
            grid.push(cell);
            rx = rx + 1;
        }
        proof {
            assert((ry + 1) * columns == ry * columns + columns) by (nonlinear_arith);
        }
        ry = ry + 1;
    }
    proof {
        assert(rows * columns == columns * rows) by (nonlinear_arith);
        assert(cells(grid@) =~= goal);
    }
    grid
}

} // verus!
