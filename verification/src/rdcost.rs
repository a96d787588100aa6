//! Block distortion metrics: the sum of absolute differences, and the sum of
//! absolute Hadamard-transformed differences.
use vstd::prelude::*;
use crate::arith::abs;

verus! {

/// The largest side of a block that the metrics take.
pub const MAX_BLOCK: usize = 64;

/// A source block and a prediction block, each the head of a plane with its own
/// stride.
pub struct Pair {
    pub src: Seq<u8>,
    pub src_stride: int,
    pub pred: Seq<u8>,
    pub pred_stride: int,
}

impl Pair {
    /// The difference of the two blocks at row `y`, column `x`.
    pub open spec fn diff(self, y: int, x: int) -> int {
        self.src[y * self.src_stride + x] - self.pred[y * self.pred_stride + x]
    }

    /// Both planes hold a block of `w` by `h` samples.
    pub open spec fn holds(self, w: int, h: int) -> bool {
        holds_block(self.src, self.src_stride, w, h) && holds_block(self.pred, self.pred_stride, w, h)
    }
}

/// A plane holds a block of `w` by `h` samples at `stride`.
pub open spec fn holds_block(plane: Seq<u8>, stride: int, w: int, h: int) -> bool {
    &&& 4 <= w <= MAX_BLOCK
    &&& 4 <= h <= MAX_BLOCK
    &&& stride >= w
    &&& plane.len() >= (h - 1) * stride + w
}

/// Absolute differences summed over the first `n` samples of row `y`.
pub open spec fn row_sad(p: Pair, y: int, n: nat) -> int
    decreases n,
{
    if n == 0 {
        0
    } else {
        row_sad(p, y, (n - 1) as nat) + abs(p.diff(y, n - 1))
    }
}

/// Absolute differences summed over the first `rows` rows of a block `w` wide.
pub open spec fn block_sad(p: Pair, w: nat, rows: nat) -> int
    decreases rows,
{
    if rows == 0 {
        0
    } else {
        block_sad(p, w, (rows - 1) as nat) + row_sad(p, rows - 1, w)
    }
}

proof fn lemma_inside(len: int, stride: int, w: int, h: int, y: int, x: int)
    requires
        0 <= y < h,
        0 <= x < w,
        stride >= w,
        len >= (h - 1) * stride + w,
    ensures
        0 <= y * stride,
        y * stride + x < len,
{
    assert(0 <= y * stride <= (h - 1) * stride) by (nonlinear_arith)
        requires
            0 <= y <= h - 1,
            stride >= 0,
    ;
}

/// The difference of two samples.
fn sample_difference(
    src: &[u8],
    src_stride: usize,
    pred: &[u8],
    pred_stride: usize,
    w: usize,
    h: usize,
    y: usize,
    x: usize,
) -> (d: i32)
    requires
        (Pair { src: src@, src_stride: src_stride as int, pred: pred@, pred_stride: pred_stride as int }).holds(
            w as int,
            h as int,
        ),
        y < h,
        x < w,
    ensures
        d == (Pair { src: src@, src_stride: src_stride as int, pred: pred@, pred_stride: pred_stride as int }).diff(
            y as int,
            x as int,
        ),
        -255 <= d <= 255,
{
    let s: usize = src.len();
    let p: usize = pred.len();
    proof {
        lemma_inside(s as int, src_stride as int, w as int, h as int, y as int, x as int);
        lemma_inside(p as int, pred_stride as int, w as int, h as int, y as int, x as int);
    }
    src[y * src_stride + x] as i32 - pred[y * pred_stride + x] as i32
}

/// The sum of absolute differences between a source block of `w` by `h` samples
/// and a prediction block.
pub fn sad(src: &[u8], src_stride: usize, pred: &[u8], pred_stride: usize, w: usize, h: usize) -> (cost: u32)
    requires
        (Pair { src: src@, src_stride: src_stride as int, pred: pred@, pred_stride: pred_stride as int }).holds(
            w as int,
            h as int,
        ),
    ensures
        cost == block_sad(
            (Pair { src: src@, src_stride: src_stride as int, pred: pred@, pred_stride: pred_stride as int }),
            w as nat,
            h as nat,
        ),
        cost <= 1_044_480,
{
    sad_scalar(src, src_stride, pred, pred_stride, w, h)
}

/// The portable form of [`sad`].
pub fn sad_scalar(
    src: &[u8],
    src_stride: usize,
    pred: &[u8],
    pred_stride: usize,
    w: usize,
    h: usize,
) -> (cost: u32)
    requires
        (Pair { src: src@, src_stride: src_stride as int, pred: pred@, pred_stride: pred_stride as int }).holds(
            w as int,
            h as int,
        ),
    ensures
        cost == block_sad(
            (Pair { src: src@, src_stride: src_stride as int, pred: pred@, pred_stride: pred_stride as int }),
            w as nat,
            h as nat,
        ),
        cost <= 1_044_480,
{
    let ghost p = Pair { src: src@, src_stride: src_stride as int, pred: pred@, pred_stride: pred_stride as int };
    let mut sum: u32 = 0;
    let mut y: usize = 0;
    while y < h
        invariant
            y <= h,
            p == (Pair { src: src@, src_stride: src_stride as int, pred: pred@, pred_stride: pred_stride as int }),
            p.holds(w as int, h as int),
            sum == block_sad(p, w as nat, y as nat),
            sum <= 16_320 * y,
        decreases h - y,
    {
        let before: u32 = sum;
        let mut x: usize = 0;
        while x < w
            invariant
                x <= w,
                y < h,
                p == (Pair { src: src@, src_stride: src_stride as int, pred: pred@, pred_stride: pred_stride as int }),
                p.holds(w as int, h as int),
                before <= 1_044_480,
                sum == before + row_sad(p, y as int, x as nat),
                sum <= before + 255 * x,
            decreases w - x,
        {
            let d: i32 = sample_difference(src, src_stride, pred, pred_stride, w, h, y, x);
            sum = sum + magnitude(d);
            x = x + 1;
        }
        y = y + 1;
    }
    sum
}

fn magnitude(v: i32) -> (m: u32)
    requires
        v > i32::MIN,
    ensures
        m == abs(v as int),
{
    if v < 0 {
        (0 - v) as u32
    } else {
        v as u32
    }
}

/// Whether entry `x` of the Hadamard basis vector `k` is -1: whether `k` and `x`
/// share an odd number of set bits.
pub open spec fn negative(k: int, x: int) -> bool
    decreases k,
{
    if k <= 0 || x <= 0 {
        false
    } else {
        (k % 2 == 1 && x % 2 == 1) != negative(k / 2, x / 2)
    }
}

/// `v` with the sign of entry `x` of the basis vector `k`.
pub open spec fn signed(k: int, x: int, v: int) -> int {
    if negative(k, x) {
        -v
    } else {
        v
    }
}

/// The product of the basis vector `k` with the first `n` entries of `v`.
pub open spec fn hadamard(v: Seq<i32>, k: int, n: nat) -> int
    decreases n,
{
    if n == 0 {
        0
    } else {
        hadamard(v, k, (n - 1) as nat) + signed(k, n - 1, v[n - 1] as int)
    }
}

/// Row `y` of the differences from column `x0` on, against the basis vector `k`.
pub open spec fn row_coefficient(p: Pair, y: int, x0: int, k: int, n: nat) -> int
    decreases n,
{
    if n == 0 {
        0
    } else {
        row_coefficient(p, y, x0, k, (n - 1) as nat) + signed(k, n - 1, p.diff(y, x0 + n - 1))
    }
}

/// The coefficient at vertical frequency `u`, horizontal frequency `k`, of the
/// tile of side `side` at (`y0`, `x0`), summed over its first `n` rows.
pub open spec fn coefficient(p: Pair, y0: int, x0: int, side: nat, u: int, k: int, n: nat) -> int
    decreases n,
{
    if n == 0 {
        0
    } else {
        coefficient(p, y0, x0, side, u, k, (n - 1) as nat) + signed(
            u,
            n - 1,
            row_coefficient(p, y0 + n - 1, x0, k, side),
        )
    }
}

/// Absolute coefficients of horizontal frequency `k`, over the first `n` vertical
/// ones.
pub open spec fn column_energy(p: Pair, y0: int, x0: int, side: nat, k: int, n: nat) -> int
    decreases n,
{
    if n == 0 {
        0
    } else {
        column_energy(p, y0, x0, side, k, (n - 1) as nat) + abs(coefficient(p, y0, x0, side, n - 1, k, side))
    }
}

/// Absolute coefficients over the first `n` horizontal frequencies.
pub open spec fn tile_energy(p: Pair, y0: int, x0: int, side: nat, n: nat) -> int
    decreases n,
{
    if n == 0 {
        0
    } else {
        tile_energy(p, y0, x0, side, (n - 1) as nat) + column_energy(p, y0, x0, side, n - 1, side)
    }
}

/// What a tile costs: its energy over half its side, rounded.
pub open spec fn tile_cost(p: Pair, y0: int, x0: int, side: nat) -> int {
    (tile_energy(p, y0, x0, side, side) + side as int / 4) / (side as int / 2)
}

/// What the first `n` tiles of a row of tiles cost.
pub open spec fn tile_row_cost(p: Pair, y0: int, side: nat, n: nat) -> int
    decreases n,
{
    if n == 0 {
        0
    } else {
        tile_row_cost(p, y0, side, (n - 1) as nat) + tile_cost(p, y0, (n - 1) * side, side)
    }
}

/// What the first `rows` rows of `columns` tiles cost.
pub open spec fn tiles_cost(p: Pair, side: nat, columns: nat, rows: nat) -> int
    decreases rows,
{
    if rows == 0 {
        0
    } else {
        tiles_cost(p, side, columns, (rows - 1) as nat) + tile_row_cost(p, (rows - 1) * side, side, columns)
    }
}

/// The side of the tiles of a block: 8 where both dimensions allow it, else 4.
pub open spec fn tile_side(w: int, h: int) -> nat {
    if w % 8 == 0 && h % 8 == 0 {
        8
    } else {
        4
    }
}

/// The sum of absolute transformed differences of a block.
pub open spec fn block_satd(p: Pair, w: int, h: int) -> int {
    let side = tile_side(w, h);
    tiles_cost(p, side, (w / (side as int)) as nat, (h / (side as int)) as nat)
}

/// Every entry is at most `m` in magnitude.
pub open spec fn within(v: Seq<i32>, m: int) -> bool {
    forall|i: int| 0 <= i < v.len() ==> -m <= #[trigger] v[i] <= m
}

/// The four-point Hadamard transform, by butterflies.
fn hadamard4(v: [i32; 4]) -> (t: [i32; 4])
    requires
        within(v@, 0x10_0000),
    ensures
        forall|k: int| 0 <= k < 4 ==> #[trigger] t@[k] == hadamard(v@, k, 4),
{
    let a0: i32 = v[0] + v[1];
    let a1: i32 = v[2] + v[3];
    let a2: i32 = v[0] - v[1];
    let a3: i32 = v[2] - v[3];
    let t: [i32; 4] = [a0 + a1, a2 + a3, a0 - a1, a2 - a3];
    proof {
        reveal_with_fuel(hadamard, 5);
        reveal_with_fuel(negative, 4);
    }
    t
}

/// The eight-point Hadamard transform, by butterflies.
fn hadamard8(v: [i32; 8]) -> (t: [i32; 8])
    requires
        within(v@, 0x10_0000),
    ensures
        forall|k: int| 0 <= k < 8 ==> #[trigger] t@[k] == hadamard(v@, k, 8),
{
    let a0: i32 = v[0] + v[1];
    let a1: i32 = v[2] + v[3];
    let a2: i32 = v[4] + v[5];
    let a3: i32 = v[6] + v[7];
    let a4: i32 = v[0] - v[1];
    let a5: i32 = v[2] - v[3];
    let a6: i32 = v[4] - v[5];
    let a7: i32 = v[6] - v[7];
    let b0: i32 = a0 + a1;
    let b1: i32 = a2 + a3;
    let b2: i32 = a0 - a1;
    let b3: i32 = a2 - a3;
    let b4: i32 = a4 + a5;
    let b5: i32 = a6 + a7;
    let b6: i32 = a4 - a5;
    let b7: i32 = a6 - a7;
    let t: [i32; 8] = [b0 + b1, b4 + b5, b2 + b3, b6 + b7, b0 - b1, b4 - b5, b2 - b3, b6 - b7];
    proof {
        reveal_with_fuel(hadamard, 9);
        reveal_with_fuel(negative, 5);
    }
    t
}

proof fn lemma_hadamard_bound(v: Seq<i32>, k: int, n: nat, m: int)
    requires
        n <= v.len(),
        within(v, m),
    ensures
        -(n * m) <= hadamard(v, k, n) <= n * m,
    decreases n,
{
    if n == 0 {
        assert(0 * m == 0) by (nonlinear_arith);
    } else {
        lemma_hadamard_bound(v, k, (n - 1) as nat, m);
        assert(n * m == (n - 1) * m + m) by (nonlinear_arith);
    }
}

proof fn lemma_row_is_hadamard(p: Pair, y: int, x0: int, v: Seq<i32>, k: int, n: nat)
    requires
        n <= v.len(),
        forall|x: int| 0 <= x < n ==> #[trigger] v[x] == p.diff(y, x0 + x),
    ensures
        hadamard(v, k, n) == row_coefficient(p, y, x0, k, n),
    decreases n,
{
    if n > 0 {
        lemma_row_is_hadamard(p, y, x0, v, k, (n - 1) as nat);
        assert(v[n - 1] == p.diff(y, x0 + (n - 1)));
    }
}

proof fn lemma_column_is_hadamard(p: Pair, y0: int, x0: int, side: nat, v: Seq<i32>, u: int, k: int, n: nat)
    requires
        n <= v.len(),
        forall|y: int| 0 <= y < n ==> #[trigger] v[y] == row_coefficient(p, y0 + y, x0, k, side),
    ensures
        hadamard(v, u, n) == coefficient(p, y0, x0, side, u, k, n),
    decreases n,
{
    if n > 0 {
        lemma_column_is_hadamard(p, y0, x0, side, v, u, k, (n - 1) as nat);
        assert(v[n - 1] == row_coefficient(p, y0 + (n - 1), x0, k, side));
    }
}

/// The cost of one tile of side four.
fn satd_4x4_scalar(
    src: &[u8],
    src_stride: usize,
    pred: &[u8],
    pred_stride: usize,
    w: usize,
    h: usize,
    y0: usize,
    x0: usize,
) -> (cost: u32)
    requires
        (Pair { src: src@, src_stride: src_stride as int, pred: pred@, pred_stride: pred_stride as int }).holds(
            w as int,
            h as int,
        ),
        y0 + 4 <= h,
        x0 + 4 <= w,
    ensures
        cost == tile_cost(
            (Pair { src: src@, src_stride: src_stride as int, pred: pred@, pred_stride: pred_stride as int }),
            y0 as int,
            x0 as int,
            4,
        ),
        cost <= 32640,
{
    let ghost p = Pair { src: src@, src_stride: src_stride as int, pred: pred@, pred_stride: pred_stride as int };
    let mut rows: Vec<[i32; 4]> = Vec::new();
    let mut y: usize = 0;
    while y < 4
        invariant
            y <= 4,
            y0 + 4 <= h,
            x0 + 4 <= w,
            p == (Pair { src: src@, src_stride: src_stride as int, pred: pred@, pred_stride: pred_stride as int }),
            p.holds(w as int, h as int),
            rows@.len() == y,
            forall|r: int, k: int|
                0 <= r < y && 0 <= k < 4 ==> #[trigger] rows@[r]@[k] == row_coefficient(p, y0 + r, x0 as int, k, 4),
            forall|r: int| 0 <= r < y ==> within(#[trigger] rows@[r]@, 1020),
        decreases 4 - y,
    {
        let mut d: [i32; 4] = [0; 4];
        let mut x: usize = 0;
        while x < 4
            invariant
                x <= 4,
                y < 4,
                y0 + 4 <= h,
                x0 + 4 <= w,
                p == (Pair { src: src@, src_stride: src_stride as int, pred: pred@, pred_stride: pred_stride as int }),
                p.holds(w as int, h as int),
                within(d@, 255),
                forall|i: int| 0 <= i < x ==> #[trigger] d@[i] == p.diff(y0 + y, x0 + i),
            decreases 4 - x,
        {
            let v: i32 = sample_difference(src, src_stride, pred, pred_stride, w, h, y0 + y, x0 + x);
            d[x] = v;
            x = x + 1;
        }
        let t: [i32; 4] = hadamard4(d);
        proof {
            assert forall|k: int| 0 <= k < 4 implies #[trigger] t@[k] == row_coefficient(p, y0 + y, x0 as int, k, 4)
                && -1020 <= t@[k] <= 1020 by {
                lemma_row_is_hadamard(p, y0 + y, x0 as int, d@, k, 4);
                lemma_hadamard_bound(d@, k, 4, 255);
            }
        }
        rows.push(t);
        y = y + 1;
    }
    let mut sum: u32 = 0;
    let mut k: usize = 0;
    while k < 4
        invariant
            k <= 4,
            rows@.len() == 4,
            forall|r: int, k: int|
                0 <= r < 4 && 0 <= k < 4 ==> #[trigger] rows@[r]@[k] == row_coefficient(p, y0 + r, x0 as int, k, 4),
            forall|r: int| 0 <= r < 4 ==> within(#[trigger] rows@[r]@, 1020),
            sum == tile_energy(p, y0 as int, x0 as int, 4, k as nat),
            sum <= 16320 * k,
        decreases 4 - k,
    {
        assert(within(rows@[0]@, 1020) && within(rows@[1]@, 1020) && within(rows@[2]@, 1020) && within(rows@[3]@, 1020));
        let c: [i32; 4] = [rows[0][k], rows[1][k], rows[2][k], rows[3][k]];
        assert(within(c@, 1020));
        let t: [i32; 4] = hadamard4(c);
        let before: u32 = sum;
        let mut u: usize = 0;
        proof {
            assert forall|u: int| 0 <= u < 4 implies #[trigger] t@[u] == coefficient(
                p,
                y0 as int,
                x0 as int,
                4,
                u,
                k as int,
                4,
            ) && -4080 <= t@[u] <= 4080 by {
                lemma_column_is_hadamard(p, y0 as int, x0 as int, 4, c@, u, k as int, 4);
                lemma_hadamard_bound(c@, u, 4, 1020);
            }
        }
        while u < 4
            invariant
                u <= 4,
                k < 4,
                before <= 16320 * k,
                forall|u: int|
                    0 <= u < 4 ==> #[trigger] t@[u] == coefficient(p, y0 as int, x0 as int, 4, u, k as int, 4) && -4080
                        <= t@[u] <= 4080,
                sum == before + column_energy(p, y0 as int, x0 as int, 4, k as int, u as nat),
                sum <= before + 4080 * u,
            decreases 4 - u,
        {
            assert(-4080 <= t@[u as int] <= 4080);
            sum = sum + magnitude(t[u]);
            u = u + 1;
        }
        k = k + 1;
    }
    (sum + 1) / 2
}

/// The cost of one tile of side eight.
fn satd_8x8_scalar(
    src: &[u8],
    src_stride: usize,
    pred: &[u8],
    pred_stride: usize,
    w: usize,
    h: usize,
    y0: usize,
    x0: usize,
) -> (cost: u32)
    requires
        (Pair { src: src@, src_stride: src_stride as int, pred: pred@, pred_stride: pred_stride as int }).holds(
            w as int,
            h as int,
        ),
        y0 + 8 <= h,
        x0 + 8 <= w,
    ensures
        cost == tile_cost(
            (Pair { src: src@, src_stride: src_stride as int, pred: pred@, pred_stride: pred_stride as int }),
            y0 as int,
            x0 as int,
            8,
        ),
        cost <= 261120,
{
    let ghost p = Pair { src: src@, src_stride: src_stride as int, pred: pred@, pred_stride: pred_stride as int };
    let mut rows: Vec<[i32; 8]> = Vec::new();
    let mut y: usize = 0;
    while y < 8
        invariant
            y <= 8,
            y0 + 8 <= h,
            x0 + 8 <= w,
            p == (Pair { src: src@, src_stride: src_stride as int, pred: pred@, pred_stride: pred_stride as int }),
            p.holds(w as int, h as int),
            rows@.len() == y,
            forall|r: int, k: int|
                0 <= r < y && 0 <= k < 8 ==> #[trigger] rows@[r]@[k] == row_coefficient(p, y0 + r, x0 as int, k, 8),
            forall|r: int| 0 <= r < y ==> within(#[trigger] rows@[r]@, 2040),
        decreases 8 - y,
    {
        let mut d: [i32; 8] = [0; 8];
        let mut x: usize = 0;
        while x < 8
            invariant
                x <= 8,
                y < 8,
                y0 + 8 <= h,
                x0 + 8 <= w,
                p == (Pair { src: src@, src_stride: src_stride as int, pred: pred@, pred_stride: pred_stride as int }),
                p.holds(w as int, h as int),
                within(d@, 255),
                forall|i: int| 0 <= i < x ==> #[trigger] d@[i] == p.diff(y0 + y, x0 + i),
            decreases 8 - x,
        {
            let v: i32 = sample_difference(src, src_stride, pred, pred_stride, w, h, y0 + y, x0 + x);
            d[x] = v;
            x = x + 1;
        }
        let t: [i32; 8] = hadamard8(d);
        proof {
            assert forall|k: int| 0 <= k < 8 implies #[trigger] t@[k] == row_coefficient(p, y0 + y, x0 as int, k, 8)
                && -2040 <= t@[k] <= 2040 by {
                lemma_row_is_hadamard(p, y0 + y, x0 as int, d@, k, 8);
                lemma_hadamard_bound(d@, k, 8, 255);
            }
        }
        rows.push(t);
        y = y + 1;
    }
    let mut sum: u32 = 0;
    let mut k: usize = 0;
    while k < 8
        invariant
            k <= 8,
            rows@.len() == 8,
            forall|r: int, k: int|
                0 <= r < 8 && 0 <= k < 8 ==> #[trigger] rows@[r]@[k] == row_coefficient(p, y0 + r, x0 as int, k, 8),
            forall|r: int| 0 <= r < 8 ==> within(#[trigger] rows@[r]@, 2040),
            sum == tile_energy(p, y0 as int, x0 as int, 8, k as nat),
            sum <= 130560 * k,
        decreases 8 - k,
    {
        assert(within(rows@[0]@, 2040) && within(rows@[1]@, 2040) && within(rows@[2]@, 2040) && within(rows@[3]@, 2040));
        assert(within(rows@[4]@, 2040) && within(rows@[5]@, 2040) && within(rows@[6]@, 2040) && within(rows@[7]@, 2040));
        let c: [i32; 8] = [
            rows[0][k],
            rows[1][k],
            rows[2][k],
            rows[3][k],
            rows[4][k],
            rows[5][k],
            rows[6][k],
            rows[7][k],
        ];
        assert(within(c@, 2040));
        let t: [i32; 8] = hadamard8(c);
        let before: u32 = sum;
        let mut u: usize = 0;
        proof {
            assert forall|u: int| 0 <= u < 8 implies #[trigger] t@[u] == coefficient(
                p,
                y0 as int,
                x0 as int,
                8,
                u,
                k as int,
                8,
            ) && -16320 <= t@[u] <= 16320 by {
                lemma_column_is_hadamard(p, y0 as int, x0 as int, 8, c@, u, k as int, 8);
                lemma_hadamard_bound(c@, u, 8, 2040);
            }
        }
        while u < 8
            invariant
                u <= 8,
                k < 8,
                before <= 130560 * k,
                forall|u: int|
                    0 <= u < 8 ==> #[trigger] t@[u] == coefficient(p, y0 as int, x0 as int, 8, u, k as int, 8) && -16320
                        <= t@[u] <= 16320,
                sum == before + column_energy(p, y0 as int, x0 as int, 8, k as int, u as nat),
                sum <= before + 16320 * u,
            decreases 8 - u,
        {
            assert(-16320 <= t@[u as int] <= 16320);
            sum = sum + magnitude(t[u]);
            u = u + 1;
        }
        k = k + 1;
    }
    (sum + 2) / 4
}

/// The sum of absolute transformed differences between a source block of `w` by
/// `h` samples and a prediction block. The block is tiled into 8x8 Hadamard
/// transforms where both dimensions are multiples of 8, and into 4x4 transforms
/// otherwise.
pub fn satd(src: &[u8], src_stride: usize, pred: &[u8], pred_stride: usize, w: usize, h: usize) -> (cost: u32)
    requires
        (Pair { src: src@, src_stride: src_stride as int, pred: pred@, pred_stride: pred_stride as int }).holds(
            w as int,
            h as int,
        ),
        w % 4 == 0,
        h % 4 == 0,
    ensures
        cost == block_satd(
            (Pair { src: src@, src_stride: src_stride as int, pred: pred@, pred_stride: pred_stride as int }),
            w as int,
            h as int,
        ),
        cost <= 16_711_680,
{
    satd_scalar(src, src_stride, pred, pred_stride, w, h)
}

/// The portable form of [`satd`].
pub fn satd_scalar(
    src: &[u8],
    src_stride: usize,
    pred: &[u8],
    pred_stride: usize,
    w: usize,
    h: usize,
) -> (cost: u32)
    requires
        (Pair { src: src@, src_stride: src_stride as int, pred: pred@, pred_stride: pred_stride as int }).holds(
            w as int,
            h as int,
        ),
        w % 4 == 0,
        h % 4 == 0,
    ensures
        cost == block_satd(
            (Pair { src: src@, src_stride: src_stride as int, pred: pred@, pred_stride: pred_stride as int }),
            w as int,
            h as int,
        ),
        cost <= 16_711_680,
{
    let ghost p = Pair { src: src@, src_stride: src_stride as int, pred: pred@, pred_stride: pred_stride as int };
    let eight: bool = w % 8 == 0 && h % 8 == 0;
    let side: usize = if eight {
        8
    } else {
        4
    };
    let columns: usize = w / side;
    let rows: usize = h / side;
    let mut sum: u32 = 0;
    let mut ty: usize = 0;
    while ty < rows
        invariant
            ty <= rows,
            p == (Pair { src: src@, src_stride: src_stride as int, pred: pred@, pred_stride: pred_stride as int }),
            p.holds(w as int, h as int),
            eight ==> side == 8 && columns <= 8 && rows <= 8,
            !eight ==> side == 4 && columns <= 16 && rows <= 16,
            columns * side == w,
            rows * side == h,
            sum == tiles_cost(p, side as nat, columns as nat, ty as nat),
            eight ==> sum <= 2_088_960 * ty,
            !eight ==> sum <= 522_240 * ty,
        decreases rows - ty,
    {
        let before: u32 = sum;
        let mut tx: usize = 0;
        while tx < columns
            invariant
                tx <= columns,
                ty < rows,
                p == (Pair { src: src@, src_stride: src_stride as int, pred: pred@, pred_stride: pred_stride as int }),
                p.holds(w as int, h as int),
                eight ==> side == 8 && columns <= 8 && rows <= 8,
                !eight ==> side == 4 && columns <= 16 && rows <= 16,
                columns * side == w,
                rows * side == h,
                before <= 16_711_680,
                sum == before + tile_row_cost(p, ty * side, side as nat, tx as nat),
                eight ==> sum <= before + 261120 * tx,
                !eight ==> sum <= before + 32640 * tx,
            decreases columns - tx,
        {
            let cost: u32 = if eight {
                satd_8x8_scalar(src, src_stride, pred, pred_stride, w, h, ty * 8, tx * 8)
            } else {
                satd_4x4_scalar(src, src_stride, pred, pred_stride, w, h, ty * 4, tx * 4)
            };
            sum = sum + cost;
            tx = tx + 1;
        }
        ty = ty + 1;
    }
    sum
}

/// A block costs nothing under SAD exactly where it equals its prediction.
pub proof fn law_sad_is_zero_on_equal_blocks(p: Pair, w: nat, h: nat)
    ensures
        block_sad(p, w, h) >= 0,
        block_sad(p, w, h) == 0 <==> forall|y: int, x: int| 0 <= y < h && 0 <= x < w ==> #[trigger] p.diff(y, x) == 0,
    decreases h,
{
    if h > 0 {
        law_sad_is_zero_on_equal_blocks(p, w, (h - 1) as nat);
        lemma_row_sad_zero(p, h - 1, w);
    }
}

proof fn lemma_row_sad_zero(p: Pair, y: int, n: nat)
    ensures
        row_sad(p, y, n) >= 0,
        row_sad(p, y, n) == 0 <==> forall|x: int| 0 <= x < n ==> #[trigger] p.diff(y, x) == 0,
    decreases n,
{
    if n > 0 {
        lemma_row_sad_zero(p, y, (n - 1) as nat);
        if row_sad(p, y, n) == 0 {
            assert(p.diff(y, n - 1) == 0);
            assert forall|x: int| 0 <= x < n implies #[trigger] p.diff(y, x) == 0 by {
                if x < n - 1 {
                }
            }
        }
    }
}

/// A block that equals its prediction costs nothing under SATD.
pub proof fn law_satd_of_equal_blocks(p: Pair, w: int, h: int)
    requires
        w >= 0,
        h >= 0,
        forall|y: int, x: int| 0 <= y < h && 0 <= x < w ==> #[trigger] p.diff(y, x) == 0,
    ensures
        block_satd(p, w, h) == 0,
{
    let side = tile_side(w, h);
    lemma_tiles_zero(p, side, (w / (side as int)) as nat, (h / (side as int)) as nat, w, h);
}

proof fn lemma_row_coefficient_zero(p: Pair, y: int, x0: int, k: int, n: nat)
    requires
        forall|x: int| x0 <= x < x0 + n ==> #[trigger] p.diff(y, x) == 0,
    ensures
        row_coefficient(p, y, x0, k, n) == 0,
    decreases n,
{
    if n > 0 {
        lemma_row_coefficient_zero(p, y, x0, k, (n - 1) as nat);
        assert(p.diff(y, x0 + n - 1) == 0);
    }
}

proof fn lemma_coefficient_zero(p: Pair, y0: int, x0: int, side: nat, u: int, k: int, n: nat)
    requires
        n <= side,
        forall|y: int, x: int| y0 <= y < y0 + side && x0 <= x < x0 + side ==> #[trigger] p.diff(y, x) == 0,
    ensures
        coefficient(p, y0, x0, side, u, k, n) == 0,
    decreases n,
{
    if n > 0 {
        lemma_coefficient_zero(p, y0, x0, side, u, k, (n - 1) as nat);
        lemma_row_coefficient_zero(p, y0 + n - 1, x0, k, side);
    }
}

proof fn lemma_energy_zero(p: Pair, y0: int, x0: int, side: nat, n: nat)
    requires
        forall|y: int, x: int| y0 <= y < y0 + side && x0 <= x < x0 + side ==> #[trigger] p.diff(y, x) == 0,
    ensures
        tile_energy(p, y0, x0, side, n) == 0,
    decreases n,
{
    if n > 0 {
        lemma_energy_zero(p, y0, x0, side, (n - 1) as nat);
        lemma_column_zero(p, y0, x0, side, n - 1, side);
    }
}

proof fn lemma_column_zero(p: Pair, y0: int, x0: int, side: nat, k: int, n: nat)
    requires
        forall|y: int, x: int| y0 <= y < y0 + side && x0 <= x < x0 + side ==> #[trigger] p.diff(y, x) == 0,
    ensures
        column_energy(p, y0, x0, side, k, n) == 0,
    decreases n,
{
    if n > 0 {
        lemma_column_zero(p, y0, x0, side, k, (n - 1) as nat);
        lemma_coefficient_zero(p, y0, x0, side, n - 1, k, side);
    }
}

proof fn lemma_tile_row_zero(p: Pair, y0: int, side: nat, n: nat, w: int)
    requires
        side == 4 || side == 8,
        n * side <= w,
        forall|y: int, x: int| y0 <= y < y0 + side && 0 <= x < w ==> #[trigger] p.diff(y, x) == 0,
    ensures
        tile_row_cost(p, y0, side, n) == 0,
    decreases n,
{
    if n > 0 {
        assert((n - 1) * side == n * side - side) by (nonlinear_arith);
        assert(0 <= (n - 1) * side) by (nonlinear_arith)
            requires
                n >= 1,
                side >= 0,
        ;
        lemma_tile_row_zero(p, y0, side, (n - 1) as nat, w);
        lemma_energy_zero(p, y0, (n - 1) * side, side, side);
    }
}

proof fn lemma_tiles_zero(p: Pair, side: nat, columns: nat, rows: nat, w: int, h: int)
    requires
        side == 4 || side == 8,
        columns * side <= w,
        rows * side <= h,
        forall|y: int, x: int| 0 <= y < h && 0 <= x < w ==> #[trigger] p.diff(y, x) == 0,
    ensures
        tiles_cost(p, side, columns, rows) == 0,
    decreases rows,
{
    if rows > 0 {
        assert((rows - 1) * side == rows * side - side) by (nonlinear_arith);
        assert(0 <= (rows - 1) * side) by (nonlinear_arith)
            requires
                rows >= 1,
                side >= 0,
        ;
        lemma_tiles_zero(p, side, columns, (rows - 1) as nat, w, h);
        lemma_tile_row_zero(p, (rows - 1) * side, side, columns, w);
    }
}

} // verus!
