//! Intra prediction: the reference samples around a transform block and the
//! prediction that each of the 35 modes forms from them.
//!
//! The reference samples of a block of side `n` are one run of `4 n + 1`: the left
//! column from its lower end up, the corner at index `2 n`, then the row above from
//! left to right.
use vstd::prelude::*;
use crate::cabac::clip3;

verus! {

/// The planar mode.
pub const INTRA_PLANAR: u8 = 0;

/// The flat mode.
pub const INTRA_DC: u8 = 1;

/// The horizontal and vertical modes.
pub const INTRA_HORIZONTAL: u8 = 10;
pub const INTRA_VERTICAL: u8 = 26;

/// The displacement of each mode per row or column, in 32nds of a sample.
pub const INTRA_ANGLE: [i32; 35] = [
    0, 0, 32, 26, 21, 17, 13, 9, 5, 2, 0, -2, -5, -9, -13, -17, -21, -26, -32, -26, -21, -17, -13, -9, -5, -2, 0, 2, 5,
    9, 13, 17, 21, 26, 32,
];

/// `8192` over the displacement, for the modes that project the second side onto
/// the first; 0 for the others.
pub const INVERSE_ANGLE: [i32; 35] = [
    0, 0, 0, 0, 0, 0, 0, 0, 0, 0, 0, -4096, -1638, -910, -630, -482, -390, -315, -256, -315, -390, -482, -630, -910,
    -1638, -4096, 0, 0, 0, 0, 0, 0, 0, 0, 0,
];

/// Side of a transform block.
pub open spec fn is_side(n: int) -> bool {
    n == 4 || n == 8 || n == 16 || n == 32
}

/// What stands at index `i` of the reference run of the block of side `n` at
/// (`x0`, `y0`), where one coding unit fills each tree block and they are coded in
/// raster order: the left column beside the block, the row above it and to its
/// right inside the picture, and the corner.
pub open spec fn marked(recon: Seq<u8>, width: int, height: int, x0: int, y0: int, n: int, i: int) -> Option<i32> {
    if i < 2 * n {
        let y = 2 * n - 1 - i;
        if x0 > 0 && y < n && y0 + y < height {
            Some(recon[(y0 + y) * width + x0 - 1] as i32)
        } else {
            None
        }
    } else if i == 2 * n {
        if x0 > 0 && y0 > 0 {
            Some(recon[(y0 - 1) * width + x0 - 1] as i32)
        } else {
            None
        }
    } else {
        let x = i - 2 * n - 1;
        if y0 > 0 && x0 + x < width && (x < n || y0 >= n) {
            Some(recon[(y0 - 1) * width + x0 + x] as i32)
        } else {
            None
        }
    }
}

/// The whole reference run.
pub open spec fn marked_run(recon: Seq<u8>, width: int, height: int, x0: int, y0: int, n: int) -> Seq<Option<i32>> {
    Seq::new((4 * n + 1) as nat, |i: int| marked(recon, width, height, x0, y0, n, i))
}

/// The first sample of a run from `i` on, or the middle grey where there is none.
pub open spec fn first_from(m: Seq<Option<i32>>, i: int) -> i32
    decreases m.len() - i,
{
    if i >= m.len() {
        128
    } else {
        match m[i] {
            Some(v) => v,
            None => first_from(m, i + 1),
        }
    }
}

/// Entry `i` of a run once its gaps are filled: each takes the sample before it,
/// and those before the first sample take that one.
pub open spec fn filled(m: Seq<Option<i32>>, i: int) -> i32
    decreases i,
{
    match m[i] {
        Some(v) => v,
        None => if i <= 0 {
            first_from(m, 0)
        } else {
            filled(m, i - 1)
        },
    }
}

/// The substituted reference samples of a block.
pub open spec fn references(recon: Seq<u8>, width: int, height: int, x0: int, y0: int, n: int) -> Seq<i32> {
    Seq::new((4 * n + 1) as nat, |i: int| filled(marked_run(recon, width, height, x0, y0, n), i))
}

/// Every entry is an 8-bit sample.
pub open spec fn is_samples(r: Seq<i32>) -> bool {
    forall|i: int| 0 <= i < r.len() ==> 0 <= #[trigger] r[i] <= 255
}

proof fn lemma_first_range(m: Seq<Option<i32>>, i: int)
    requires
        0 <= i,
        forall|j: int| 0 <= j < m.len() && (#[trigger] m[j]) is Some ==> 0 <= m[j]->Some_0 <= 255,
    ensures
        0 <= first_from(m, i) <= 255,
    decreases m.len() - i,
{
    if i < m.len() && m[i] is None {
        lemma_first_range(m, i + 1);
    }
}

proof fn lemma_filled_range(m: Seq<Option<i32>>, i: int)
    requires
        0 <= i < m.len(),
        forall|j: int| 0 <= j < m.len() && (#[trigger] m[j]) is Some ==> 0 <= m[j]->Some_0 <= 255,
    ensures
        0 <= filled(m, i) <= 255,
    decreases i,
{
    if m[i] is None {
        if i <= 0 {
            lemma_first_range(m, 0);
        } else {
            lemma_filled_range(m, i - 1);
        }
    }
}

/// The reference samples of a block are 8-bit samples.
pub proof fn lemma_references(recon: Seq<u8>, width: int, height: int, x0: int, y0: int, n: int)
    requires
        n >= 0,
    ensures
        references(recon, width, height, x0, y0, n).len() == 4 * n + 1,
        is_samples(references(recon, width, height, x0, y0, n)),
{
    let m = marked_run(recon, width, height, x0, y0, n);
    assert forall|i: int| 0 <= i < 4 * n + 1 implies 0 <= #[trigger] references(
        recon,
        width,
        height,
        x0,
        y0,
        n,
    )[i] <= 255 by {
        lemma_filled_range(m, i);
    }
}

/// One entry of the reference run before substitution.
fn marked_sample(recon: &[u8], width: usize, height: usize, x0: usize, y0: usize, n: usize, i: usize) -> (v: Option<i32>)
    requires
        n <= 32,
        i <= 4 * n,
        x0 < width,
        y0 < height,
        x0 + 4 * n <= usize::MAX,
        y0 + 4 * n <= usize::MAX,
        recon@.len() == width * height,
    ensures
        v == marked(recon@, width as int, height as int, x0 as int, y0 as int, n as int, i as int),
{
    let len: usize = recon.len();
    if i < 2 * n {
        let y: usize = 2 * n - 1 - i;
        if x0 > 0 && y < n && y0 + y < height {
            proof {
                crate::arith::lemma_grid(y0 + y, x0 - 1, width as int, height as int);
            }
            assert((y0 + y) * width + x0 - 1 < len);
            assert((y0 + y) * width >= 0) by (nonlinear_arith)
                requires
                    y0 >= 0,
                    y >= 0,
                    width >= 0,
            ;
            Some(recon[(y0 + y) * width + (x0 - 1)] as i32)
        } else {
            None
        }
    } else if i == 2 * n {
        if x0 > 0 && y0 > 0 {
            proof {
                crate::arith::lemma_grid(y0 - 1, x0 - 1, width as int, height as int);
            }
            assert((y0 - 1) * width + x0 - 1 < len);
            assert((y0 - 1) * width >= 0) by (nonlinear_arith)
                requires
                    y0 >= 1,
                    width >= 0,
            ;
            Some(recon[(y0 - 1) * width + (x0 - 1)] as i32)
        } else {
            None
        }
    } else {
        let x: usize = i - 2 * n - 1;
        if y0 > 0 && x0 + x < width && (x < n || y0 >= n) {
            proof {
                crate::arith::lemma_grid(y0 - 1, x0 + x, width as int, height as int);
            }
            assert((y0 - 1) * width + x0 + x < len);
            assert((y0 - 1) * width >= 0) by (nonlinear_arith)
                requires
                    y0 >= 1,
                    width >= 0,
            ;
            Some(recon[(y0 - 1) * width + (x0 + x)] as i32)
        } else {
            None
        }
    }
}

/// The substituted reference samples for one transform block, read out of the
/// partially reconstructed plane.
pub fn reference_samples(recon: &[u8], width: usize, height: usize, x0: usize, y0: usize, n: usize) -> (r: Vec<i32>)
    requires
        n <= 32,
        x0 < width,
        y0 < height,
        x0 + 4 * n <= usize::MAX,
        y0 + 4 * n <= usize::MAX,
        recon@.len() == width * height,
    ensures
        r@ == references(recon@, width as int, height as int, x0 as int, y0 as int, n as int),
        r@.len() == 4 * n + 1,
        is_samples(r@),
{
    let ghost m = marked_run(recon@, width as int, height as int, x0 as int, y0 as int, n as int);
    let total: usize = 4 * n + 1;
    let mut first: i32 = 128;
    let mut k: usize = total;
    while k > 0
        invariant
            k <= total,
            total == 4 * n + 1,
            m == marked_run(recon@, width as int, height as int, x0 as int, y0 as int, n as int),
            n <= 32,
            x0 < width,
            y0 < height,
            x0 + 4 * n <= usize::MAX,
            y0 + 4 * n <= usize::MAX,
            recon@.len() == width * height,
            first == first_from(m, k as int),
        decreases k,
    {
        k = k - 1;
        if let Some(v) = marked_sample(recon, width, height, x0, y0, n, k) {
            first = v;
        }
    }
    let mut r: Vec<i32> = Vec::new();
    let mut last: i32 = first;
    let mut i: usize = 0;
    while i < total
        invariant
            i <= total,
            total == 4 * n + 1,
            m == marked_run(recon@, width as int, height as int, x0 as int, y0 as int, n as int),
            n <= 32,
            x0 < width,
            y0 < height,
            x0 + 4 * n <= usize::MAX,
            y0 + 4 * n <= usize::MAX,
            recon@.len() == width * height,
            i == 0 ==> last == first_from(m, 0),
            i > 0 ==> last == filled(m, i - 1),
            r@.len() == i,
            forall|j: int| 0 <= j < i ==> #[trigger] r@[j] == filled(m, j),
        decreases total - i,
    {
        if let Some(v) = marked_sample(recon, width, height, x0, y0, n, i) {
            last = v;
        }
        r.push(last);
        i = i + 1;
    }
    proof {
        lemma_references(recon@, width as int, height as int, x0 as int, y0 as int, n as int);
        assert(r@ =~= references(recon@, width as int, height as int, x0 as int, y0 as int, n as int));
    }
    r
}

/// Whether the reference samples of a luma block are smoothed for a mode: the mode
/// lies far enough from the horizontal and the vertical for the size of the block.
pub open spec fn smooths(mode: int, n: int) -> bool {
    let dv = if mode < 26 { 26 - mode } else { mode - 26 };
    let dh = if mode < 10 { 10 - mode } else { mode - 10 };
    let d = if dv < dh { dv } else { dh };
    mode != INTRA_DC && ((n == 8 && d > 7) || (n == 16 && d > 1) || (n == 32 && d > 0))
}

/// The run smoothed: each entry but the two ends with its neighbours.
pub open spec fn smoothed(r: Seq<i32>) -> Seq<i32> {
    Seq::new(
        r.len(),
        |i: int|
            if 0 < i < r.len() - 1 {
                ((r[i - 1] + 2 * r[i] + r[i + 1] + 2) / 4) as i32
            } else {
                r[i]
            },
    )
}

/// The reference samples that a mode predicts from.
pub open spec fn filtered(r: Seq<i32>, n: int, mode: int, luma: bool) -> Seq<i32> {
    if luma && smooths(mode, n) {
        smoothed(r)
    } else {
        r
    }
}

/// The sample beside row `y` on the left, and that above column `x`.
pub open spec fn left(r: Seq<i32>, n: int, y: int) -> int {
    r[2 * n - 1 - y] as int
}

pub open spec fn above(r: Seq<i32>, n: int, x: int) -> int {
    r[2 * n + 1 + x] as int
}

/// The sum of the first `k` samples on both sides.
pub open spec fn side_sum(r: Seq<i32>, n: int, k: nat) -> int
    decreases k,
{
    if k == 0 {
        0
    } else {
        side_sum(r, n, (k - 1) as nat) + left(r, n, k - 1) + above(r, n, k - 1)
    }
}

/// The mean of both sides.
pub open spec fn flat_value(r: Seq<i32>, n: int) -> int {
    (side_sum(r, n, n as nat) + n) / (2 * n)
}

/// The planar prediction.
pub open spec fn planar(r: Seq<i32>, n: int, x: int, y: int) -> int {
    ((n - 1 - x) * left(r, n, y) + (x + 1) * above(r, n, n) + (n - 1 - y) * above(r, n, x) + (y + 1) * left(r, n, n) + n)
        / (2 * n)
}

/// The flat prediction, whose first row and column of a small luma block lean on
/// their neighbours.
pub open spec fn flat(r: Seq<i32>, n: int, luma: bool, x: int, y: int) -> int {
    let dc = flat_value(r, n);
    if luma && n < 32 && x == 0 && y == 0 {
        (left(r, n, 0) + 2 * dc + above(r, n, 0) + 2) / 4
    } else if luma && n < 32 && y == 0 {
        (above(r, n, x) + 3 * dc + 2) / 4
    } else if luma && n < 32 && x == 0 {
        (left(r, n, y) + 3 * dc + 2) / 4
    } else {
        dc
    }
}

/// Where entry `k` of the projected reference of an angular mode stands in the run.
pub open spec fn projected(n: int, mode: int, k: int) -> int {
    let away = if k >= 0 {
        k
    } else {
        -((k * INVERSE_ANGLE[mode] + 128) / 256)
    };
    if mode >= 18 {
        2 * n + away
    } else {
        2 * n - away
    }
}

/// An angular prediction: `along` runs along the side that the mode reads, `depth`
/// away from it.
pub open spec fn angled(r: Seq<i32>, n: int, mode: int, along: int, depth: int) -> int {
    let shift = (depth + 1) * INTRA_ANGLE[mode];
    let whole = shift / 32;
    let part = shift % 32;
    let a = r[projected(n, mode, along + whole + 1)] as int;
    if part != 0 {
        ((32 - part) * a + part * r[projected(n, mode, along + whole + 2)] + 16) / 32
    } else {
        a
    }
}

/// The prediction of an angular mode; the exact horizontal and vertical ones lean
/// on the other side along their edge in a small luma block.
pub open spec fn angular(r: Seq<i32>, n: int, mode: int, luma: bool, x: int, y: int) -> int {
    if mode >= 18 {
        if mode == INTRA_VERTICAL && luma && n < 32 && x == 0 {
            clip3(0, 255, above(r, n, 0) + (left(r, n, y) - r[2 * n]) / 2)
        } else {
            angled(r, n, mode, x, y)
        }
    } else {
        if mode == INTRA_HORIZONTAL && luma && n < 32 && y == 0 {
            clip3(0, 255, left(r, n, 0) + (above(r, n, x) - r[2 * n]) / 2)
        } else {
            angled(r, n, mode, y, x)
        }
    }
}

/// The prediction of a sample by a mode from substituted reference samples.
pub open spec fn predicted(r: Seq<i32>, n: int, mode: int, luma: bool, x: int, y: int) -> int {
    let p = filtered(r, n, mode, luma);
    if mode == INTRA_PLANAR {
        planar(p, n, x, y)
    } else if mode == INTRA_DC {
        flat(p, n, luma, x, y)
    } else {
        angular(p, n, mode, luma, x, y)
    }
}

/// The prediction of a whole block, row by row.
pub open spec fn prediction(r: Seq<i32>, n: int, mode: int, luma: bool) -> Seq<i32> {
    Seq::new((n * n) as nat, |i: int| predicted(r, n, mode, luma, i % n, i / n) as i32)
}

proof fn lemma_smoothed(r: Seq<i32>)
    requires
        is_samples(r),
    ensures
        is_samples(smoothed(r)),
        smoothed(r).len() == r.len(),
{
}

fn smooth(r: &Vec<i32>) -> (s: Vec<i32>)
    requires
        is_samples(r@),
    ensures
        s@ == smoothed(r@),
        is_samples(s@),
{
    let n: usize = r.len();
    let mut s: Vec<i32> = Vec::new();
    let mut i: usize = 0;
    while i < n
        invariant
            i <= n,
            n == r@.len(),
            is_samples(r@),
            s@.len() == i,
            forall|j: int| 0 <= j < i ==> #[trigger] s@[j] == smoothed(r@)[j],
        decreases n - i,
    {
        assert(0 <= r@[i as int] <= 255);
        let v: i32 = if i > 0 && i < n - 1 {
            assert(0 <= r@[i - 1] <= 255 && 0 <= r@[i + 1] <= 255);
            (r[i - 1] + 2 * r[i] + r[i + 1] + 2) / 4
        } else {
            r[i]
        };
        s.push(v);
        i = i + 1;
    }
    proof {
        lemma_smoothed(r@);
        assert(s@ =~= smoothed(r@));
    }
    s
}

fn smooths_exec(mode: u8, n: usize) -> (b: bool)
    requires
        mode <= 34,
    ensures
        b == smooths(mode as int, n as int),
{
    let dv: u8 = if mode < 26 {
        26 - mode
    } else {
        mode - 26
    };
    let dh: u8 = if mode < 10 {
        10 - mode
    } else {
        mode - 10
    };
    let d: u8 = if dv < dh {
        dv
    } else {
        dh
    };
    mode != INTRA_DC && ((n == 8 && d > 7) || (n == 16 && d > 1) || (n == 32 && d > 0))
}

proof fn lemma_side_sum(r: Seq<i32>, n: int, k: nat)
    requires
        is_side(n),
        k <= n,
        r.len() == 4 * n + 1,
        is_samples(r),
    ensures
        0 <= side_sum(r, n, k) <= 510 * k,
    decreases k,
{
    if k > 0 {
        lemma_side_sum(r, n, (k - 1) as nat);
        assert(0 <= r[2 * n - k] <= 255 && 0 <= r[2 * n + k] <= 255);
    }
}

proof fn lemma_mean(total: int, n: int)
    requires
        n > 0,
        0 <= total <= 511 * n,
    ensures
        0 <= total / (2 * n) <= 255,
{
    assert(0 <= total / (2 * n) <= 255) by (nonlinear_arith)
        requires
            n > 0,
            0 <= total <= 511 * n,
    ;
}

/// The mean of both sides.
fn flat_sample(r: &Vec<i32>, n: usize) -> (dc: i32)
    requires
        is_side(n as int),
        r@.len() == 4 * n + 1,
        is_samples(r@),
    ensures
        dc == flat_value(r@, n as int),
        0 <= dc <= 255,
{
    let mut sum: i32 = 0;
    let mut k: usize = 0;
    while k < n
        invariant
            k <= n,
            is_side(n as int),
            r@.len() == 4 * n + 1,
            is_samples(r@),
            sum == side_sum(r@, n as int, k as nat),
            0 <= sum <= 510 * k,
        decreases n - k,
    {
        assert(0 <= r@[2 * n - 1 - k] <= 255 && 0 <= r@[2 * n + 1 + k] <= 255);
        sum = sum + r[2 * n - 1 - k] + r[2 * n + 1 + k];
        k = k + 1;
    }
    let total: i32 = sum + n as i32;
    let both: i32 = 2 * n as i32;
    proof {
        lemma_mean(total as int, n as int);
    }
    total / both
}

fn planar_sample(r: &Vec<i32>, n: usize, x: usize, y: usize) -> (v: i32)
    requires
        is_side(n as int),
        r@.len() == 4 * n + 1,
        is_samples(r@),
        x < n,
        y < n,
    ensures
        v == planar(r@, n as int, x as int, y as int),
        0 <= v <= 255,
{
    let a: i32 = r[2 * n - 1 - y];
    let b: i32 = r[3 * n + 1];
    let c: i32 = r[2 * n + 1 + x];
    let d: i32 = r[n - 1];
    assert(0 <= r@[2 * n - 1 - y] <= 255 && 0 <= r@[3 * n + 1] <= 255 && 0 <= r@[2 * n + 1 + x] <= 255 && 0 <= r@[n - 1]
        <= 255);
    let s: i32 = n as i32;
    let xi: i32 = x as i32;
    let yi: i32 = y as i32;
    assert(0 <= (s - 1 - xi) * a <= (s - 1 - xi) * 255) by (nonlinear_arith)
        requires
            0 <= xi < s,
            0 <= a <= 255,
    ;
    assert(0 <= (xi + 1) * b <= (xi + 1) * 255) by (nonlinear_arith)
        requires
            0 <= xi,
            0 <= b <= 255,
    ;
    assert(0 <= (s - 1 - yi) * c <= (s - 1 - yi) * 255) by (nonlinear_arith)
        requires
            0 <= yi < s,
            0 <= c <= 255,
    ;
    assert(0 <= (yi + 1) * d <= (yi + 1) * 255) by (nonlinear_arith)
        requires
            0 <= yi,
            0 <= d <= 255,
    ;
    let total: i32 = (s - 1 - xi) * a + (xi + 1) * b + (s - 1 - yi) * c + (yi + 1) * d + s;
    proof {
        lemma_mean(total as int, n as int);
    }
    total / (2 * s)
}

/// What the projection of an angular mode reads stays inside the run.
pub(crate) proof fn lemma_projection(n: int, mode: int, along: int, depth: int)
    requires
        is_side(n),
        2 <= mode <= 34,
        0 <= along < n,
        0 <= depth < n,
    ensures
        ({
            let shift = (depth + 1) * INTRA_ANGLE[mode];
            let k = along + shift / 32 + 1;
            &&& -n <= shift / 32 <= n
            &&& 0 <= projected(n, mode, k) <= 4 * n
            &&& shift % 32 != 0 ==> 0 <= projected(n, mode, k + 1) <= 4 * n
        }),
{
    let a = INTRA_ANGLE[mode] as int;
    let inv = INVERSE_ANGLE[mode] as int;
    let shift = (depth + 1) * a;
    let k = along + shift / 32 + 1;
    assert(a == 0 ==> shift == 0) by {
        assert((depth + 1) * 0 == 0);
    }
    if a >= 0 {
        assert(0 <= shift <= n * 32) by (nonlinear_arith)
            requires
                shift == (depth + 1) * a,
                0 <= depth < n,
                0 <= a <= 32,
        ;
    } else {
        assert(n * a <= shift <= a) by (nonlinear_arith)
            requires
                shift == (depth + 1) * a,
                0 <= depth < n,
                a <= 0,
        ;
        assert(-32 <= a <= -2);
        lemma_inverse(n, a, inv, k, shift);
        if k + 1 < 0 {
            lemma_inverse(n, a, inv, k + 1, shift);
        }
    }
}

proof fn lemma_inverse(n: int, a: int, inv: int, k: int, shift: int)
    requires
        is_side(n),
        (a == -2 && inv == -4096) || (a == -5 && inv == -1638) || (a == -9 && inv == -910) || (a == -13 && inv == -630)
            || (a == -17 && inv == -482) || (a == -21 && inv == -390) || (a == -26 && inv == -315) || (a == -32 && inv
            == -256),
        n * a <= shift,
        k >= shift / 32 + 1,
    ensures
        k < 0 ==> 0 <= (k * inv + 128) / 256 <= 2 * n,
        n * a == a * n,
        shift >= -(32 * n),
{
    assert(n * a == a * n) by (nonlinear_arith);
    assert(a * n >= -(32 * n)) by (nonlinear_arith)
        requires
            a >= -32,
            n >= 0,
    ;
    if a == -2 {
        assert(a * n == -2 * n);
        assert(k * inv == -4096 * k);
    } else if a == -5 {
        assert(a * n == -5 * n);
        assert(k * inv == -1638 * k);
    } else if a == -9 {
        assert(a * n == -9 * n);
        assert(k * inv == -910 * k);
    } else if a == -13 {
        assert(a * n == -13 * n);
        assert(k * inv == -630 * k);
    } else if a == -17 {
        assert(a * n == -17 * n);
        assert(k * inv == -482 * k);
    } else if a == -21 {
        assert(a * n == -21 * n);
        assert(k * inv == -390 * k);
    } else if a == -26 {
        assert(a * n == -26 * n);
        assert(k * inv == -315 * k);
    } else {
        assert(a * n == -32 * n);
        assert(k * inv == -256 * k);
    }
}

/// Where entry `k` of a projected reference stands in the run.
fn projected_index(n: usize, mode: u8, k: i32) -> (i: usize)
    requires
        is_side(n as int),
        2 <= mode <= 34,
        -32 <= k <= 100,
        0 <= projected(n as int, mode as int, k as int) <= 4 * n,
    ensures
        i == projected(n as int, mode as int, k as int),
{
    let away: i32 = if k >= 0 {
        k
    } else {
        let inv: i32 = INVERSE_ANGLE[mode as usize];
        assert(-4096 <= inv <= 0);
        assert(0 <= k * inv <= 131072) by (nonlinear_arith)
            requires
                -32 <= k <= 0,
                -4096 <= inv <= 0,
        ;
        -((k * inv + 128) / 256)
    };
    if mode >= 18 {
        (2 * n as i32 + away) as usize
    } else {
        (2 * n as i32 - away) as usize
    }
}

fn angled_sample(r: &Vec<i32>, n: usize, mode: u8, along: usize, depth: usize) -> (v: i32)
    requires
        is_side(n as int),
        r@.len() == 4 * n + 1,
        is_samples(r@),
        2 <= mode <= 34,
        along < n,
        depth < n,
    ensures
        v == angled(r@, n as int, mode as int, along as int, depth as int),
        0 <= v <= 255,
{
    let angle: i32 = INTRA_ANGLE[mode as usize];
    assert(-32 <= angle <= 32);
    assert(-1024 <= (depth + 1) * angle <= 1024) by (nonlinear_arith)
        requires
            0 <= depth < 32,
            -32 <= angle <= 32,
    ;
    let shift: i32 = (depth as i32 + 1) * angle;
    // Floor division, on an operand that is not negative.
    let whole: i32 = (shift + 1024) / 32 - 32;
    let part: i32 = (shift + 1024) % 32;
    assert(whole == (shift as int) / 32 && part == (shift as int) % 32);
    proof {
        lemma_projection(n as int, mode as int, along as int, depth as int);
    }
    let k: i32 = along as i32 + whole + 1;
    let i: usize = projected_index(n, mode, k);
    let a: i32 = r[i];
    assert(0 <= r@[i as int] <= 255);
    if part != 0 {
        let j: usize = projected_index(n, mode, k + 1);
        let b: i32 = r[j];
        assert(0 <= r@[j as int] <= 255);
        assert(0 <= (32 - part) * a <= (32 - part) * 255) by (nonlinear_arith)
            requires
                0 <= part < 32,
                0 <= a <= 255,
        ;
        assert(0 <= part * b <= part * 255) by (nonlinear_arith)
            requires
                0 <= part < 32,
                0 <= b <= 255,
        ;
        ((32 - part) * a + part * b + 16) / 32
    } else {
        a
    }
}

/// `base + difference / 2`, rounded down and confined to a sample.
fn leaned(base: i32, difference: i32) -> (v: i32)
    requires
        0 <= base <= 255,
        -255 <= difference <= 255,
    ensures
        v == clip3(0, 255, base + (difference as int) / 2),
        0 <= v <= 255,
{
    let half: i32 = (difference + 256) / 2 - 128;
    let s: i32 = base + half;
    if s < 0 {
        0
    } else if s > 255 {
        255
    } else {
        s
    }
}

/// Predicts one sample from filtered reference samples. `dc` is the mean of both
/// sides, which only the flat mode reads.
fn predict_sample(r: &Vec<i32>, n: usize, mode: u8, luma: bool, dc: i32, x: usize, y: usize) -> (v: i32)
    requires
        is_side(n as int),
        r@.len() == 4 * n + 1,
        is_samples(r@),
        mode <= 34,
        x < n,
        y < n,
        mode == INTRA_DC ==> dc == flat_value(r@, n as int) && 0 <= dc <= 255,
    ensures
        v == (if mode == INTRA_PLANAR {
            planar(r@, n as int, x as int, y as int)
        } else if mode == INTRA_DC {
            flat(r@, n as int, luma, x as int, y as int)
        } else {
            angular(r@, n as int, mode as int, luma, x as int, y as int)
        }),
        0 <= v <= 255,
{
    assert(0 <= r@[2 * n - 1 - y] <= 255 && 0 <= r@[2 * n + 1 + x] <= 255 && 0 <= r@[2 * n as int] <= 255);
    assert(0 <= r@[2 * n - 1] <= 255 && 0 <= r@[2 * n + 1] <= 255);
    if mode == INTRA_PLANAR {
        planar_sample(r, n, x, y)
    } else if mode == INTRA_DC {
        if luma && n < 32 && x == 0 && y == 0 {
            (r[2 * n - 1] + 2 * dc + r[2 * n + 1] + 2) / 4
        } else if luma && n < 32 && y == 0 {
            (r[2 * n + 1 + x] + 3 * dc + 2) / 4
        } else if luma && n < 32 && x == 0 {
            (r[2 * n - 1 - y] + 3 * dc + 2) / 4
        } else {
            dc
        }
    } else if mode >= 18 {
        if mode == INTRA_VERTICAL && luma && n < 32 && x == 0 {
            leaned(r[2 * n + 1], r[2 * n - 1 - y] - r[2 * n])
        } else {
            angled_sample(r, n, mode, x, y)
        }
    } else {
        if mode == INTRA_HORIZONTAL && luma && n < 32 && y == 0 {
            leaned(r[2 * n - 1], r[2 * n + 1 + x] - r[2 * n])
        } else {
            angled_sample(r, n, mode, y, x)
        }
    }
}

/// The prediction one mode produces from an already substituted reference run.
pub fn predict(r: &Vec<i32>, n: usize, mode: u8, luma: bool) -> (p: Vec<i32>)
    requires
        is_side(n as int),
        r@.len() == 4 * n + 1,
        is_samples(r@),
        mode <= 34,
    ensures
        p@ == prediction(r@, n as int, mode as int, luma),
        p@.len() == n * n,
        is_samples(p@),
{
    let smooth_first: bool = luma && smooths_exec(mode, n);
    let held: Vec<i32>;
    let f: &Vec<i32> = if smooth_first {
        held = smooth(r);
        &held
    } else {
        r
    };
    let dc: i32 = if mode == INTRA_DC {
        flat_sample(f, n)
    } else {
        0
    };
    let mut p: Vec<i32> = Vec::new();
    let mut y: usize = 0;
    while y < n
        invariant
            y <= n,
            is_side(n as int),
            f@ == filtered(r@, n as int, mode as int, luma),
            f@.len() == 4 * n + 1,
            is_samples(f@),
            mode <= 34,
            mode == INTRA_DC ==> dc == flat_value(f@, n as int) && 0 <= dc <= 255,
            p@.len() == y * n,
            is_samples(p@),
            forall|i: int|
                0 <= i < p@.len() ==> #[trigger] p@[i] == predicted(
                    r@,
                    n as int,
                    mode as int,
                    luma,
                    i % (n as int),
                    i / (n as int),
                ),
        decreases n - y,
    {
        let mut x: usize = 0;
        while x < n
            invariant
                x <= n,
                y < n,
                is_side(n as int),
                f@ == filtered(r@, n as int, mode as int, luma),
                f@.len() == 4 * n + 1,
                is_samples(f@),
                mode <= 34,
                mode == INTRA_DC ==> dc == flat_value(f@, n as int) && 0 <= dc <= 255,
                p@.len() == y * n + x,
                is_samples(p@),
                forall|i: int|
                    0 <= i < p@.len() ==> #[trigger] p@[i] == predicted(
                        r@,
                        n as int,
                        mode as int,
                        luma,
                        i % (n as int),
                        i / (n as int),
                    ),
            decreases n - x,
        {
            proof {
                crate::arith::lemma_index(y as int, x as int, n as int);
            }
            let v: i32 = predict_sample(f, n, mode, luma, dc, x, y);
            p.push(v);
            x = x + 1;
        }
        proof {
            assert((y + 1) * n == y * n + n) by (nonlinear_arith);
        }
        y = y + 1;
    }
    proof {
        assert(p@ =~= prediction(r@, n as int, mode as int, luma));
    }
    p
}

} // verus!
