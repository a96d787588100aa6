//! Laws of the distortion metrics.
use vstd::prelude::*;
use crate::arith::abs;
use crate::rdcost::{
    block_sad, coefficient, column_energy, negative, row_coefficient, row_sad, sad, satd, signed, tile_energy,
    tile_row_cost, tile_side, tiles_cost, Pair,
};

verus! {

/// The first `n` terms of the product of two basis vectors of the Hadamard transform.
pub open spec fn overlap(k: int, l: int, n: nat) -> int
    decreases n,
{
    if n == 0 {
        0
    } else {
        overlap(k, l, (n - 1) as nat) + signed(k, n - 1, signed(l, n - 1, 1))
    }
}

spec fn negative_bits(k: int, x: int) -> bool {
    ((k % 2 == 1 && x % 2 == 1) != (k / 2 % 2 == 1 && x / 2 % 2 == 1)) != (k / 4 % 2 == 1 && x / 4 % 2 == 1)
}

proof fn lemma_negative(k: int, x: int)
    requires
        0 <= k < 8,
        0 <= x < 8,
    ensures
        negative(k, x) == negative_bits(k, x),
{
    reveal_with_fuel(negative, 5);
}

proof fn lemma_overlap(k: int, l: int)
    requires
        0 <= k < 8,
        0 <= l < 8,
    ensures
        overlap(k, l, 8) == (if k == l {
            8int
        } else {
            0
        }),
        k < 4 && l < 4 ==> overlap(k, l, 4) == (if k == l {
            4int
        } else {
            0
        }),
{
    reveal_with_fuel(overlap, 9);
    lemma_negative(k, 0);
    lemma_negative(l, 0);
    lemma_negative(k, 1);
    lemma_negative(l, 1);
    lemma_negative(k, 2);
    lemma_negative(l, 2);
    lemma_negative(k, 3);
    lemma_negative(l, 3);
    lemma_negative(k, 4);
    lemma_negative(l, 4);
    lemma_negative(k, 5);
    lemma_negative(l, 5);
    lemma_negative(k, 6);
    lemma_negative(l, 6);
    lemma_negative(k, 7);
    lemma_negative(l, 7);
    assert(k == 4 * (k / 4 % 2) + 2 * (k / 2 % 2) + k % 2);
    assert(l == 4 * (l / 4 % 2) + 2 * (l / 2 % 2) + l % 2);
}

/// The transform is orthogonal: the product of two different basis vectors vanishes and that of
/// one with itself is its length, over four samples and over eight; and the first basis vector
/// adds all samples up.
pub proof fn law_hadamard_is_orthogonal(k: int, l: int, x: int)
    requires
        0 <= k < 8,
        0 <= l < 8,
        0 <= x < 8,
    ensures
        overlap(k, l, 8) == (if k == l {
            8int
        } else {
            0
        }),
        k < 4 && l < 4 ==> overlap(k, l, 4) == (if k == l {
            4int
        } else {
            0
        }),
        !negative(0, x),
{
    lemma_overlap(k, l);
}

/// The same blocks the other way round.
pub open spec fn swapped(p: Pair) -> Pair {
    Pair { src: p.pred, src_stride: p.pred_stride, pred: p.src, pred_stride: p.src_stride }
}

proof fn lemma_row_swapped(p: Pair, y: int, n: nat)
    ensures
        row_sad(swapped(p), y, n) == row_sad(p, y, n),
    decreases n,
{
    if n > 0 {
        lemma_row_swapped(p, y, (n - 1) as nat);
    }
}

proof fn lemma_sad_swapped(p: Pair, w: nat, h: nat)
    ensures
        block_sad(swapped(p), w, h) == block_sad(p, w, h),
    decreases h,
{
    if h > 0 {
        lemma_sad_swapped(p, w, (h - 1) as nat);
        lemma_row_swapped(p, h - 1, w);
    }
}

proof fn lemma_row_coefficient_swapped(p: Pair, y: int, x0: int, k: int, n: nat)
    ensures
        row_coefficient(swapped(p), y, x0, k, n) == -row_coefficient(p, y, x0, k, n),
    decreases n,
{
    if n > 0 {
        lemma_row_coefficient_swapped(p, y, x0, k, (n - 1) as nat);
    }
}

proof fn lemma_coefficient_swapped(p: Pair, y0: int, x0: int, side: nat, u: int, k: int, n: nat)
    ensures
        coefficient(swapped(p), y0, x0, side, u, k, n) == -coefficient(p, y0, x0, side, u, k, n),
    decreases n,
{
    if n > 0 {
        lemma_coefficient_swapped(p, y0, x0, side, u, k, (n - 1) as nat);
        lemma_row_coefficient_swapped(p, y0 + n - 1, x0, k, side);
    }
}

proof fn lemma_column_swapped(p: Pair, y0: int, x0: int, side: nat, k: int, n: nat)
    ensures
        column_energy(swapped(p), y0, x0, side, k, n) == column_energy(p, y0, x0, side, k, n),
    decreases n,
{
    if n > 0 {
        lemma_column_swapped(p, y0, x0, side, k, (n - 1) as nat);
        lemma_coefficient_swapped(p, y0, x0, side, n - 1, k, side);
    }
}

proof fn lemma_tile_swapped(p: Pair, y0: int, x0: int, side: nat, n: nat)
    ensures
        tile_energy(swapped(p), y0, x0, side, n) == tile_energy(p, y0, x0, side, n),
    decreases n,
{
    if n > 0 {
        lemma_tile_swapped(p, y0, x0, side, (n - 1) as nat);
        lemma_column_swapped(p, y0, x0, side, n - 1, side);
    }
}

proof fn lemma_tile_row_swapped(p: Pair, y0: int, side: nat, n: nat)
    ensures
        tile_row_cost(swapped(p), y0, side, n) == tile_row_cost(p, y0, side, n),
    decreases n,
{
    if n > 0 {
        lemma_tile_row_swapped(p, y0, side, (n - 1) as nat);
        lemma_tile_swapped(p, y0, (n - 1) * side, side, side);
    }
}

proof fn lemma_tiles_swapped(p: Pair, side: nat, columns: nat, rows: nat)
    ensures
        tiles_cost(swapped(p), side, columns, rows) == tiles_cost(p, side, columns, rows),
    decreases rows,
{
    if rows > 0 {
        lemma_tiles_swapped(p, side, columns, (rows - 1) as nat);
        lemma_tile_row_swapped(p, (rows - 1) * side, side, columns);
    }
}

/// Neither metric knows which block is the source: it costs as much the other way round.
pub proof fn law_distortion_is_symmetric(
    a: &[u8],
    a_stride: usize,
    b: &[u8],
    b_stride: usize,
    w: usize,
    h: usize,
    sums: (u32, u32),
    transformed: (u32, u32),
)
    requires
        (Pair { src: a@, src_stride: a_stride as int, pred: b@, pred_stride: b_stride as int }).holds(
            w as int,
            h as int,
        ),
        w % 4 == 0,
        h % 4 == 0,
        call_ensures(sad, (a, a_stride, b, b_stride, w, h), sums.0),
        call_ensures(sad, (b, b_stride, a, a_stride, w, h), sums.1),
        call_ensures(satd, (a, a_stride, b, b_stride, w, h), transformed.0),
        call_ensures(satd, (b, b_stride, a, a_stride, w, h), transformed.1),
    ensures
        sums.0 == sums.1,
        transformed.0 == transformed.1,
{
    let p = Pair { src: a@, src_stride: a_stride as int, pred: b@, pred_stride: b_stride as int };
    lemma_sad_swapped(p, w as nat, h as nat);
    let side = tile_side(w as int, h as int);
    lemma_tiles_swapped(p, side, (w as int / (side as int)) as nat, (h as int / (side as int)) as nat);
}

proof fn lemma_even_row(p: Pair, y: int, n: nat, d: int)
    requires
        forall|x: int| 0 <= x < n ==> #[trigger] p.diff(y, x) == d,
    ensures
        row_sad(p, y, n) == n * abs(d),
    decreases n,
{
    if n > 0 {
        lemma_even_row(p, y, (n - 1) as nat, d);
        assert(p.diff(y, n - 1) == d);
        assert(n * abs(d) == (n - 1) * abs(d) + abs(d)) by (nonlinear_arith);
    } else {
        assert(0 * abs(d) == 0) by (nonlinear_arith);
    }
}

proof fn lemma_even_rows(p: Pair, w: nat, h: nat, d: int)
    requires
        forall|y: int, x: int| 0 <= y < h && 0 <= x < w ==> #[trigger] p.diff(y, x) == d,
    ensures
        block_sad(p, w, h) == h * (w * abs(d)),
    decreases h,
{
    let row = w * abs(d);
    if h > 0 {
        lemma_even_rows(p, w, (h - 1) as nat, d);
        lemma_even_row(p, h - 1, w, d);
        assert(h * row == (h - 1) * row + row) by (nonlinear_arith);
    } else {
        assert(0 * row == 0) by (nonlinear_arith);
    }
}

/// Blocks that lie the same way apart everywhere cost that distance at every sample.
pub proof fn law_even_difference_costs_every_sample(
    src: &[u8],
    src_stride: usize,
    pred: &[u8],
    pred_stride: usize,
    w: usize,
    h: usize,
    d: int,
    cost: u32,
)
    requires
        ({
            let p = Pair { src: src@, src_stride: src_stride as int, pred: pred@, pred_stride: pred_stride as int };
            p.holds(w as int, h as int)
        }),
        forall|y: int, x: int|
            0 <= y < h && 0 <= x < w ==> #[trigger] src@[y * src_stride + x] - pred@[y * pred_stride + x] == d,
        call_ensures(sad, (src, src_stride, pred, pred_stride, w, h), cost),
    ensures
        cost == h * (w * abs(d)),
{
    let p = Pair { src: src@, src_stride: src_stride as int, pred: pred@, pred_stride: pred_stride as int };
    assert forall|y: int, x: int| 0 <= y < h && 0 <= x < w implies #[trigger] p.diff(y, x) == d by {
        assert(src@[y * src_stride + x] - pred@[y * pred_stride + x] == d);
    }
    lemma_even_rows(p, w as nat, h as nat, d);
}

} // verus!
