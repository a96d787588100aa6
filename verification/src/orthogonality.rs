//! How far the transform matrices are from orthogonal.
//!
//! Their entries are rounded, so the products of their columns miss those of an orthogonal
//! matrix by a little. A cosine matrix of twice the side is the smaller one in its even
//! rows, unfolded, and an odd part in the others; so what it misses by, and what its rows
//! and columns weigh, follow from the smaller one and the odd part.
use vstd::prelude::*;
use vstd::arithmetic::div_mod::lemma_fundamental_div_mod_converse;
use crate::arith::{abs, max};
use crate::matrix::{basis, COSINE};
use crate::transform_laws::lemma_cosine_mirrored;

verus! {

/// The first `k` terms of the product of columns `x` and `y` of the matrix.
pub open spec fn gram(dst: bool, n: int, x: int, y: int, k: nat) -> int
    decreases k,
{
    if k == 0 {
        0
    } else {
        gram(dst, n, x, y, (k - 1) as nat) + basis(dst, n, k - 1, x) * basis(dst, n, k - 1, y)
    }
}

/// The sum of the sizes of the first `k` entries of row `u`.
pub open spec fn weight(dst: bool, n: int, u: int, k: nat) -> int
    decreases k,
{
    if k == 0 {
        0
    } else {
        weight(dst, n, u, (k - 1) as nat) + abs(basis(dst, n, u, k - 1))
    }
}

/// The product of two columns of an orthogonal matrix of this scale.
pub open spec fn scale(n: int, same: bool) -> int {
    if same {
        4096 * n
    } else {
        0
    }
}

/// The sum of the sizes of the first `k` entries of column `x`.
pub open spec fn column_weight(dst: bool, n: int, x: int, k: nat) -> int
    decreases k,
{
    if k == 0 {
        0
    } else {
        column_weight(dst, n, x, (k - 1) as nat) + abs(basis(dst, n, k - 1, x))
    }
}

/// How far the product of columns `x` and `y` lies from that of an orthogonal matrix.
pub open spec fn miss(dst: bool, n: int, x: int, y: int) -> int {
    gram(dst, n, x, y, n as nat) - scale(n, x == y)
}

/// The odd part of the matrix of side `2 * h`: row `2 * v + 1`, of which the columns from
/// `h` on mirror those before with the sign changed.
spec fn odd(h: int, v: int, x: int) -> int {
    basis(false, 2 * h, 2 * v + 1, x)
}

/// The first `k` terms of the product of columns `x` and `y` of the odd part.
spec fn odd_gram(h: int, x: int, y: int, k: nat) -> int
    decreases k,
{
    if k == 0 {
        0
    } else {
        odd_gram(h, x, y, (k - 1) as nat) + odd(h, k - 1, x) * odd(h, k - 1, y)
    }
}

/// How far that product lies from that of an orthogonal matrix.
spec fn odd_miss(h: int, x: int, y: int) -> int {
    odd_gram(h, x, y, h as nat) - scale(h, x == y)
}

/// The sum of the sizes of the first `k` entries of column `x` of the odd part.
spec fn odd_column(h: int, x: int, k: nat) -> int
    decreases k,
{
    if k == 0 {
        0
    } else {
        odd_column(h, x, (k - 1) as nat) + abs(odd(h, k - 1, x))
    }
}

/// The sum of the sizes of the first `k` entries of row `v` of the odd part.
spec fn odd_row(h: int, v: int, k: nat) -> int
    decreases k,
{
    if k == 0 {
        0
    } else {
        odd_row(h, v, (k - 1) as nat) + abs(odd(h, v, k - 1))
    }
}

/// A column of the first half, or the one that mirrors a column of the second.
spec fn folded(h: int, x: int) -> int {
    if x < h {
        x
    } else {
        2 * h - 1 - x
    }
}

/// How far the products of the columns of the odd part of the 16x16 DCT lie from orthogonal.
const ODD_LEAK_8: [i32; 64] = [
    5, 94, 44, 79, 79, 94, 44, 0,
    94, 5, 79, 44, 94, 79, 0, 44,
    44, 79, 5, 44, 94, 0, 79, 94,
    79, 44, 44, 5, 0, 94, 94, 79,
    79, 94, 94, 0, 5, 44, 44, 79,
    94, 79, 0, 94, 44, 5, 79, 44,
    44, 0, 79, 94, 44, 79, 5, 94,
    0, 44, 94, 79, 79, 44, 94, 5,
];

/// The same for the odd part of the 32x32 DCT.
const ODD_LEAK_16: [i32; 256] = [
    86, 64, 6, 106, 106, 20, 6, 185, 185, 52, 64, 80, 80, 52, 20, 0,
    64, 86, 80, 52, 64, 80, 185, 6, 52, 185, 106, 20, 6, 106, 0, 20,
    6, 80, 86, 52, 20, 185, 80, 64, 20, 106, 185, 64, 6, 0, 106, 52,
    106, 52, 52, 86, 185, 20, 20, 106, 80, 64, 64, 185, 0, 6, 6, 80,
    106, 64, 20, 185, 86, 6, 52, 80, 106, 6, 52, 0, 185, 64, 20, 80,
    20, 80, 185, 20, 6, 86, 106, 6, 52, 80, 0, 52, 64, 185, 106, 64,
    6, 185, 80, 20, 52, 106, 86, 20, 64, 0, 80, 6, 64, 106, 185, 52,
    185, 6, 64, 106, 80, 6, 20, 86, 0, 64, 52, 106, 80, 20, 52, 185,
    185, 52, 20, 80, 106, 52, 64, 0, 86, 20, 6, 80, 106, 64, 6, 185,
    52, 185, 106, 64, 6, 80, 0, 64, 20, 86, 106, 52, 20, 80, 185, 6,
    64, 106, 185, 64, 52, 0, 80, 52, 6, 106, 86, 6, 20, 185, 80, 20,
    80, 20, 64, 185, 0, 52, 6, 106, 80, 52, 6, 86, 185, 20, 64, 106,
    80, 6, 6, 0, 185, 64, 64, 80, 106, 20, 20, 185, 86, 52, 52, 106,
    52, 106, 0, 6, 64, 185, 106, 20, 64, 80, 185, 20, 52, 86, 80, 6,
    20, 0, 106, 6, 20, 106, 185, 52, 6, 185, 80, 64, 52, 80, 86, 64,
    0, 20, 52, 80, 80, 64, 52, 185, 185, 6, 20, 106, 106, 6, 64, 86,
];

/// The most that the product of columns `x` and `y` of the odd part misses by.
spec fn odd_leak(h: int, x: int, y: int) -> int {
    if h == 4 {
        if x == y {
            14
        } else if x + y == 3 {
            0
        } else {
            25
        }
    } else if h == 8 {
        ODD_LEAK_8@[8 * x + y] as int
    } else {
        ODD_LEAK_16@[16 * x + y] as int
    }
}

/// The most that the product of columns `x` and `y` misses by.
spec fn leak(dst: bool, n: int, x: int, y: int) -> int
    decreases n,
{
    if dst {
        if x == 2 && y == 2 {
            44
        } else if x == 2 || y == 2 {
            0
        } else {
            15
        }
    } else if n <= 4 {
        if x == y || x + y == 3 {
            7
        } else {
            0
        }
    } else {
        let h = n / 2;
        let (a, b) = (folded(h, x), folded(h, y));
        leak(false, h, a, b) + odd_leak(h, a, b)
    }
}

/// The sum of what the products of column `x` with the first `k` columns miss by.
pub open spec fn misses(dst: bool, n: int, x: int, k: nat) -> int
    decreases k,
{
    if k == 0 {
        0
    } else {
        misses(dst, n, x, (k - 1) as nat) + abs(miss(dst, n, x, k - 1))
    }
}

/// The most that the products of a column with all columns miss by.
pub open spec fn leak_limit(dst: bool, n: int) -> int {
    if dst {
        45
    } else if n == 4 {
        14
    } else if n == 8 {
        142
    } else if n == 16 {
        952
    } else {
        3236
    }
}

/// The most that the entries of a column weigh.
pub open spec fn column_limit_of(n: int) -> int {
    if n == 4 {
        247
    } else if n == 8 {
        479
    } else if n == 16 {
        940
    } else {
        1862
    }
}

/// The entries of the basis by its angle.
proof fn lemma_cosines()
    ensures
        COSINE@[0] == 64 && COSINE@[1] == 90 && COSINE@[2] == 90 && COSINE@[3] == 90 && COSINE@[4] == 89
            && COSINE@[5] == 88 && COSINE@[6] == 87 && COSINE@[7] == 85 && COSINE@[8] == 83 && COSINE@[9] == 82
            && COSINE@[10] == 80 && COSINE@[11] == 78 && COSINE@[12] == 75 && COSINE@[13] == 73 && COSINE@[14] == 70
            && COSINE@[15] == 67 && COSINE@[16] == 64 && COSINE@[17] == 61 && COSINE@[18] == 57 && COSINE@[19] == 54
            && COSINE@[20] == 50 && COSINE@[21] == 46 && COSINE@[22] == 43 && COSINE@[23] == 38 && COSINE@[24] == 36
            && COSINE@[25] == 31 && COSINE@[26] == 25 && COSINE@[27] == 22 && COSINE@[28] == 18 && COSINE@[29] == 13
            && COSINE@[30] == 9 && COSINE@[31] == 4 && COSINE@[32] == 0,
{
}

/// The entries of the 4x4 DCT.
proof fn lemma_table_four()
    ensures
        basis(false, 4, 0, 0) == 64 && basis(false, 4, 0, 1) == 64 && basis(false, 4, 0, 2) == 64
            && basis(false, 4, 0, 3) == 64,
        basis(false, 4, 1, 0) == 83 && basis(false, 4, 1, 1) == 36 && basis(false, 4, 1, 2) == -36
            && basis(false, 4, 1, 3) == -83,
        basis(false, 4, 2, 0) == 64 && basis(false, 4, 2, 1) == -64 && basis(false, 4, 2, 2) == -64
            && basis(false, 4, 2, 3) == 64,
        basis(false, 4, 3, 0) == 36 && basis(false, 4, 3, 1) == -83 && basis(false, 4, 3, 2) == 83
            && basis(false, 4, 3, 3) == -36,
{
    lemma_cosines();
}

/// The products of the columns of the 4x4 DCT.
proof fn lemma_gram_four(x: int, y: int)
    requires
        0 <= x < 4,
        0 <= y < 4,
    ensures
        abs(miss(false, 4, x, y)) <= leak(false, 4, x, y),
{
    lemma_table_four();
    reveal_with_fuel(gram, 5);
    let (a0, b0) = (basis(false, 4, 0, x), basis(false, 4, 0, y));
    let (a1, b1) = (basis(false, 4, 1, x), basis(false, 4, 1, y));
    let (a2, b2) = (basis(false, 4, 2, x), basis(false, 4, 2, y));
    let (a3, b3) = (basis(false, 4, 3, x), basis(false, 4, 3, y));
    assert(gram(false, 4, x, y, 4) == a0 * b0 + a1 * b1 + a2 * b2 + a3 * b3);
    if x == 0 {
        assert(a0 * b0 + a1 * b1 + a2 * b2 + a3 * b3
            == 64 * b0 + 83 * b1 + 64 * b2 + 36 * b3) by (nonlinear_arith)
            requires
                a0 == 64 && a1 == 83 && a2 == 64 && a3 == 36,
        ;
    } else if x == 1 {
        assert(a0 * b0 + a1 * b1 + a2 * b2 + a3 * b3
            == 64 * b0 + 36 * b1 + (-64) * b2 + (-83) * b3) by (nonlinear_arith)
            requires
                a0 == 64 && a1 == 36 && a2 == -64 && a3 == -83,
        ;
    } else if x == 2 {
        assert(a0 * b0 + a1 * b1 + a2 * b2 + a3 * b3
            == 64 * b0 + (-36) * b1 + (-64) * b2 + 83 * b3) by (nonlinear_arith)
            requires
                a0 == 64 && a1 == -36 && a2 == -64 && a3 == 83,
        ;
    } else if x == 3 {
        assert(a0 * b0 + a1 * b1 + a2 * b2 + a3 * b3
            == 64 * b0 + (-83) * b1 + 64 * b2 + (-36) * b3) by (nonlinear_arith)
            requires
                a0 == 64 && a1 == -83 && a2 == 64 && a3 == -36,
        ;
    }
    assert(y == 0 || y == 1 || y == 2 || y == 3);
}

/// What the products of a column of the 4x4 DCT miss by in all, and the weights of its rows and columns.
proof fn lemma_sums_four(x: int)
    requires
        0 <= x < 4,
    ensures
        misses(false, 4, x, 4) <= leak_limit(false, 4),
        weight(false, 4, x, 4) <= 256,
        column_weight(false, 4, x, 4) <= 247,
{
    lemma_table_four();
    reveal_with_fuel(misses, 5);
    reveal_with_fuel(weight, 5);
    reveal_with_fuel(column_weight, 5);
    lemma_gram_four(x, 0);
    lemma_gram_four(x, 1);
    lemma_gram_four(x, 2);
    lemma_gram_four(x, 3);
    assert(x == 0 || x == 1 || x == 2 || x == 3);
}

/// The entries of the DST.
proof fn lemma_table_sine()
    ensures
        basis(true, 4, 0, 0) == 29 && basis(true, 4, 0, 1) == 55 && basis(true, 4, 0, 2) == 74
            && basis(true, 4, 0, 3) == 84,
        basis(true, 4, 1, 0) == 74 && basis(true, 4, 1, 1) == 74 && basis(true, 4, 1, 2) == 0
            && basis(true, 4, 1, 3) == -74,
        basis(true, 4, 2, 0) == 84 && basis(true, 4, 2, 1) == -29 && basis(true, 4, 2, 2) == -74
            && basis(true, 4, 2, 3) == 55,
        basis(true, 4, 3, 0) == 55 && basis(true, 4, 3, 1) == -84 && basis(true, 4, 3, 2) == 74
            && basis(true, 4, 3, 3) == -29,
{
}

/// The products of the columns of the DST.
proof fn lemma_gram_sine(x: int, y: int)
    requires
        0 <= x < 4,
        0 <= y < 4,
    ensures
        abs(miss(true, 4, x, y)) <= leak(true, 4, x, y),
{
    lemma_table_sine();
    reveal_with_fuel(gram, 5);
    let (a0, b0) = (basis(true, 4, 0, x), basis(true, 4, 0, y));
    let (a1, b1) = (basis(true, 4, 1, x), basis(true, 4, 1, y));
    let (a2, b2) = (basis(true, 4, 2, x), basis(true, 4, 2, y));
    let (a3, b3) = (basis(true, 4, 3, x), basis(true, 4, 3, y));
    assert(gram(true, 4, x, y, 4) == a0 * b0 + a1 * b1 + a2 * b2 + a3 * b3);
    if x == 0 {
        assert(a0 * b0 + a1 * b1 + a2 * b2 + a3 * b3
            == 29 * b0 + 74 * b1 + 84 * b2 + 55 * b3) by (nonlinear_arith)
            requires
                a0 == 29 && a1 == 74 && a2 == 84 && a3 == 55,
        ;
    } else if x == 1 {
        assert(a0 * b0 + a1 * b1 + a2 * b2 + a3 * b3
            == 55 * b0 + 74 * b1 + (-29) * b2 + (-84) * b3) by (nonlinear_arith)
            requires
                a0 == 55 && a1 == 74 && a2 == -29 && a3 == -84,
        ;
    } else if x == 2 {
        assert(a0 * b0 + a1 * b1 + a2 * b2 + a3 * b3
            == 74 * b0 + 0 * b1 + (-74) * b2 + 74 * b3) by (nonlinear_arith)
            requires
                a0 == 74 && a1 == 0 && a2 == -74 && a3 == 74,
        ;
    } else if x == 3 {
        assert(a0 * b0 + a1 * b1 + a2 * b2 + a3 * b3
            == 84 * b0 + (-74) * b1 + 55 * b2 + (-29) * b3) by (nonlinear_arith)
            requires
                a0 == 84 && a1 == -74 && a2 == 55 && a3 == -29,
        ;
    }
    assert(y == 0 || y == 1 || y == 2 || y == 3);
}

/// What the products of a column of the DST miss by in all, and the weights of its rows and columns.
proof fn lemma_sums_sine(x: int)
    requires
        0 <= x < 4,
    ensures
        misses(true, 4, x, 4) <= leak_limit(true, 4),
        weight(true, 4, x, 4) <= 256,
        column_weight(true, 4, x, 4) <= 247,
{
    lemma_table_sine();
    reveal_with_fuel(misses, 5);
    reveal_with_fuel(weight, 5);
    reveal_with_fuel(column_weight, 5);
    lemma_gram_sine(x, 0);
    lemma_gram_sine(x, 1);
    lemma_gram_sine(x, 2);
    lemma_gram_sine(x, 3);
    assert(x == 0 || x == 1 || x == 2 || x == 3);
}

/// Entries of the odd part of the 8x8 DCT.
proof fn lemma_odd_four()
    ensures
        odd(4, 0, 0) == 89 && odd(4, 0, 1) == 75 && odd(4, 0, 2) == 50 && odd(4, 0, 3) == 18,
        odd(4, 1, 0) == 75 && odd(4, 1, 1) == -18 && odd(4, 1, 2) == -89 && odd(4, 1, 3) == -50,
        odd(4, 2, 0) == 50 && odd(4, 2, 1) == -89 && odd(4, 2, 2) == 18 && odd(4, 2, 3) == 75,
        odd(4, 3, 0) == 18 && odd(4, 3, 1) == -50 && odd(4, 3, 2) == 75 && odd(4, 3, 3) == -89,
{
    lemma_cosines();
}

/// Products of the columns of that part.
proof fn lemma_odd_gram_four(x: int, y: int)
    requires
        0 <= x < 4,
        0 <= y < 4,
    ensures
        abs(odd_miss(4, x, y)) <= odd_leak(4, x, y),
{
    lemma_odd_four();
    reveal_with_fuel(odd_gram, 5);
    let (a0, b0) = (odd(4, 0, x), odd(4, 0, y));
    let (a1, b1) = (odd(4, 1, x), odd(4, 1, y));
    let (a2, b2) = (odd(4, 2, x), odd(4, 2, y));
    let (a3, b3) = (odd(4, 3, x), odd(4, 3, y));
    let sum = a0 * b0 + a1 * b1 + a2 * b2 + a3 * b3;
    assert(odd_gram(4, x, y, 4) == sum);
    if x == 0 {
        assert(sum == 89 * b0 + 75 * b1 + 50 * b2 + 18 * b3) by (nonlinear_arith)
            requires
                sum == a0 * b0 + a1 * b1 + a2 * b2 + a3 * b3,
                a0 == 89 && a1 == 75 && a2 == 50 && a3 == 18,
        ;
    } else if x == 1 {
        assert(sum == 75 * b0 + (-18) * b1 + (-89) * b2 + (-50) * b3) by (nonlinear_arith)
            requires
                sum == a0 * b0 + a1 * b1 + a2 * b2 + a3 * b3,
                a0 == 75 && a1 == -18 && a2 == -89 && a3 == -50,
        ;
    } else if x == 2 {
        assert(sum == 50 * b0 + (-89) * b1 + 18 * b2 + 75 * b3) by (nonlinear_arith)
            requires
                sum == a0 * b0 + a1 * b1 + a2 * b2 + a3 * b3,
                a0 == 50 && a1 == -89 && a2 == 18 && a3 == 75,
        ;
    } else if x == 3 {
        assert(sum == 18 * b0 + (-50) * b1 + 75 * b2 + (-89) * b3) by (nonlinear_arith)
            requires
                sum == a0 * b0 + a1 * b1 + a2 * b2 + a3 * b3,
                a0 == 18 && a1 == -50 && a2 == 75 && a3 == -89,
        ;
    }
    assert(y == 0 || y == 1 || y == 2 || y == 3);
}

/// The weights of the rows and the columns of that part.
proof fn lemma_odd_weights_four(x: int)
    requires
        0 <= x < 4,
    ensures
        odd_row(4, x, 4) == 232,
        odd_column(4, x, 4) == 232,
{
    lemma_odd_four();
    reveal_with_fuel(odd_row, 5);
    reveal_with_fuel(odd_column, 5);
    assert(x == 0 || x == 1 || x == 2 || x == 3);
}

/// Entries of the odd part of the 16x16 DCT.
proof fn lemma_odd_eight()
    ensures
        odd(8, 0, 0) == 90 && odd(8, 0, 1) == 87 && odd(8, 0, 2) == 80 && odd(8, 0, 3) == 70 && odd(8, 0, 4) == 57
            && odd(8, 0, 5) == 43 && odd(8, 0, 6) == 25 && odd(8, 0, 7) == 9,
        odd(8, 1, 0) == 87 && odd(8, 1, 1) == 57 && odd(8, 1, 2) == 9 && odd(8, 1, 3) == -43 && odd(8, 1, 4) == -80
            && odd(8, 1, 5) == -90 && odd(8, 1, 6) == -70 && odd(8, 1, 7) == -25,
        odd(8, 2, 0) == 80 && odd(8, 2, 1) == 9 && odd(8, 2, 2) == -70 && odd(8, 2, 3) == -87 && odd(8, 2, 4) == -25
            && odd(8, 2, 5) == 57 && odd(8, 2, 6) == 90 && odd(8, 2, 7) == 43,
        odd(8, 3, 0) == 70 && odd(8, 3, 1) == -43 && odd(8, 3, 2) == -87 && odd(8, 3, 3) == 9 && odd(8, 3, 4) == 90
            && odd(8, 3, 5) == 25 && odd(8, 3, 6) == -80 && odd(8, 3, 7) == -57,
        odd(8, 4, 0) == 57 && odd(8, 4, 1) == -80 && odd(8, 4, 2) == -25 && odd(8, 4, 3) == 90 && odd(8, 4, 4) == -9
            && odd(8, 4, 5) == -87 && odd(8, 4, 6) == 43 && odd(8, 4, 7) == 70,
        odd(8, 5, 0) == 43 && odd(8, 5, 1) == -90 && odd(8, 5, 2) == 57 && odd(8, 5, 3) == 25 && odd(8, 5, 4) == -87
            && odd(8, 5, 5) == 70 && odd(8, 5, 6) == 9 && odd(8, 5, 7) == -80,
        odd(8, 6, 0) == 25 && odd(8, 6, 1) == -70 && odd(8, 6, 2) == 90 && odd(8, 6, 3) == -80 && odd(8, 6, 4) == 43
            && odd(8, 6, 5) == 9 && odd(8, 6, 6) == -57 && odd(8, 6, 7) == 87,
        odd(8, 7, 0) == 9 && odd(8, 7, 1) == -25 && odd(8, 7, 2) == 43 && odd(8, 7, 3) == -57 && odd(8, 7, 4) == 70
            && odd(8, 7, 5) == -80 && odd(8, 7, 6) == 87 && odd(8, 7, 7) == -90,
{
    lemma_cosines();
}

/// Products of the columns of that part.
#[verifier::spinoff_prover]
#[verifier::rlimit(100)]
proof fn lemma_odd_gram_eight(x: int, y: int)
    requires
        0 <= x < 8,
        0 <= y < 8,
    ensures
        abs(odd_miss(8, x, y)) <= odd_leak(8, x, y),
{
    lemma_odd_eight();
    reveal_with_fuel(odd_gram, 9);
    let (a0, b0) = (odd(8, 0, x), odd(8, 0, y));
    let (a1, b1) = (odd(8, 1, x), odd(8, 1, y));
    let (a2, b2) = (odd(8, 2, x), odd(8, 2, y));
    let (a3, b3) = (odd(8, 3, x), odd(8, 3, y));
    let (a4, b4) = (odd(8, 4, x), odd(8, 4, y));
    let (a5, b5) = (odd(8, 5, x), odd(8, 5, y));
    let (a6, b6) = (odd(8, 6, x), odd(8, 6, y));
    let (a7, b7) = (odd(8, 7, x), odd(8, 7, y));
    let sum = a0 * b0 + a1 * b1 + a2 * b2 + a3 * b3 + a4 * b4 + a5 * b5 + a6 * b6 + a7 * b7;
    assert(odd_gram(8, x, y, 8) == sum);
    if x == 0 {
        assert(sum == 90 * b0 + 87 * b1 + 80 * b2 + 70 * b3 + 57 * b4 + 43 * b5 + 25 * b6 + 9 * b7) by (nonlinear_arith)
            requires
                sum == a0 * b0 + a1 * b1 + a2 * b2 + a3 * b3 + a4 * b4 + a5 * b5 + a6 * b6 + a7 * b7,
                a0 == 90 && a1 == 87 && a2 == 80 && a3 == 70 && a4 == 57 && a5 == 43 && a6 == 25 && a7 == 9,
        ;
    } else if x == 1 {
        assert(sum == 87 * b0 + 57 * b1 + 9 * b2 + (-43) * b3 + (-80) * b4 + (-90) * b5 + (-70) * b6 + (-25) * b7) by (nonlinear_arith)
            requires
                sum == a0 * b0 + a1 * b1 + a2 * b2 + a3 * b3 + a4 * b4 + a5 * b5 + a6 * b6 + a7 * b7,
                a0 == 87 && a1 == 57 && a2 == 9 && a3 == -43 && a4 == -80 && a5 == -90 && a6 == -70 && a7 == -25,
        ;
    } else if x == 2 {
        assert(sum == 80 * b0 + 9 * b1 + (-70) * b2 + (-87) * b3 + (-25) * b4 + 57 * b5 + 90 * b6 + 43 * b7) by (nonlinear_arith)
            requires
                sum == a0 * b0 + a1 * b1 + a2 * b2 + a3 * b3 + a4 * b4 + a5 * b5 + a6 * b6 + a7 * b7,
                a0 == 80 && a1 == 9 && a2 == -70 && a3 == -87 && a4 == -25 && a5 == 57 && a6 == 90 && a7 == 43,
        ;
    } else if x == 3 {
        assert(sum == 70 * b0 + (-43) * b1 + (-87) * b2 + 9 * b3 + 90 * b4 + 25 * b5 + (-80) * b6 + (-57) * b7) by (nonlinear_arith)
            requires
                sum == a0 * b0 + a1 * b1 + a2 * b2 + a3 * b3 + a4 * b4 + a5 * b5 + a6 * b6 + a7 * b7,
                a0 == 70 && a1 == -43 && a2 == -87 && a3 == 9 && a4 == 90 && a5 == 25 && a6 == -80 && a7 == -57,
        ;
    } else if x == 4 {
        assert(sum == 57 * b0 + (-80) * b1 + (-25) * b2 + 90 * b3 + (-9) * b4 + (-87) * b5 + 43 * b6 + 70 * b7) by (nonlinear_arith)
            requires
                sum == a0 * b0 + a1 * b1 + a2 * b2 + a3 * b3 + a4 * b4 + a5 * b5 + a6 * b6 + a7 * b7,
                a0 == 57 && a1 == -80 && a2 == -25 && a3 == 90 && a4 == -9 && a5 == -87 && a6 == 43 && a7 == 70,
        ;
    } else if x == 5 {
        assert(sum == 43 * b0 + (-90) * b1 + 57 * b2 + 25 * b3 + (-87) * b4 + 70 * b5 + 9 * b6 + (-80) * b7) by (nonlinear_arith)
            requires
                sum == a0 * b0 + a1 * b1 + a2 * b2 + a3 * b3 + a4 * b4 + a5 * b5 + a6 * b6 + a7 * b7,
                a0 == 43 && a1 == -90 && a2 == 57 && a3 == 25 && a4 == -87 && a5 == 70 && a6 == 9 && a7 == -80,
        ;
    } else if x == 6 {
        assert(sum == 25 * b0 + (-70) * b1 + 90 * b2 + (-80) * b3 + 43 * b4 + 9 * b5 + (-57) * b6 + 87 * b7) by (nonlinear_arith)
            requires
                sum == a0 * b0 + a1 * b1 + a2 * b2 + a3 * b3 + a4 * b4 + a5 * b5 + a6 * b6 + a7 * b7,
                a0 == 25 && a1 == -70 && a2 == 90 && a3 == -80 && a4 == 43 && a5 == 9 && a6 == -57 && a7 == 87,
        ;
    } else if x == 7 {
        assert(sum == 9 * b0 + (-25) * b1 + 43 * b2 + (-57) * b3 + 70 * b4 + (-80) * b5 + 87 * b6 + (-90) * b7) by (nonlinear_arith)
            requires
                sum == a0 * b0 + a1 * b1 + a2 * b2 + a3 * b3 + a4 * b4 + a5 * b5 + a6 * b6 + a7 * b7,
                a0 == 9 && a1 == -25 && a2 == 43 && a3 == -57 && a4 == 70 && a5 == -80 && a6 == 87 && a7 == -90,
        ;
    }
    assert(y == 0 || y == 1 || y == 2 || y == 3 || y == 4 || y == 5 || y == 6 || y == 7);
}

/// The weights of the rows and the columns of that part.
proof fn lemma_odd_weights_eight(x: int)
    requires
        0 <= x < 8,
    ensures
        odd_row(8, x, 8) == 461,
        odd_column(8, x, 8) == 461,
{
    lemma_odd_eight();
    reveal_with_fuel(odd_row, 9);
    reveal_with_fuel(odd_column, 9);
    assert(x == 0 || x == 1 || x == 2 || x == 3 || x == 4 || x == 5 || x == 6 || x == 7);
}

/// Entries of the odd part of the 32x32 DCT.
#[verifier::spinoff_prover]
#[verifier::rlimit(100)]
proof fn lemma_odd_sixteen_first()
    ensures
        odd(16, 0, 0) == 90 && odd(16, 0, 1) == 90 && odd(16, 0, 2) == 88 && odd(16, 0, 3) == 85
            && odd(16, 0, 4) == 82 && odd(16, 0, 5) == 78 && odd(16, 0, 6) == 73 && odd(16, 0, 7) == 67
            && odd(16, 0, 8) == 61 && odd(16, 0, 9) == 54 && odd(16, 0, 10) == 46 && odd(16, 0, 11) == 38
            && odd(16, 0, 12) == 31 && odd(16, 0, 13) == 22 && odd(16, 0, 14) == 13 && odd(16, 0, 15) == 4,
        odd(16, 1, 0) == 90 && odd(16, 1, 1) == 82 && odd(16, 1, 2) == 67 && odd(16, 1, 3) == 46
            && odd(16, 1, 4) == 22 && odd(16, 1, 5) == -4 && odd(16, 1, 6) == -31 && odd(16, 1, 7) == -54
            && odd(16, 1, 8) == -73 && odd(16, 1, 9) == -85 && odd(16, 1, 10) == -90 && odd(16, 1, 11) == -88
            && odd(16, 1, 12) == -78 && odd(16, 1, 13) == -61 && odd(16, 1, 14) == -38 && odd(16, 1, 15) == -13,
        odd(16, 2, 0) == 88 && odd(16, 2, 1) == 67 && odd(16, 2, 2) == 31 && odd(16, 2, 3) == -13
            && odd(16, 2, 4) == -54 && odd(16, 2, 5) == -82 && odd(16, 2, 6) == -90 && odd(16, 2, 7) == -78
            && odd(16, 2, 8) == -46 && odd(16, 2, 9) == -4 && odd(16, 2, 10) == 38 && odd(16, 2, 11) == 73
            && odd(16, 2, 12) == 90 && odd(16, 2, 13) == 85 && odd(16, 2, 14) == 61 && odd(16, 2, 15) == 22,
        odd(16, 3, 0) == 85 && odd(16, 3, 1) == 46 && odd(16, 3, 2) == -13 && odd(16, 3, 3) == -67
            && odd(16, 3, 4) == -90 && odd(16, 3, 5) == -73 && odd(16, 3, 6) == -22 && odd(16, 3, 7) == 38
            && odd(16, 3, 8) == 82 && odd(16, 3, 9) == 88 && odd(16, 3, 10) == 54 && odd(16, 3, 11) == -4
            && odd(16, 3, 12) == -61 && odd(16, 3, 13) == -90 && odd(16, 3, 14) == -78 && odd(16, 3, 15) == -31,
{
    lemma_cosines();
}

/// Entries of the odd part of the 32x32 DCT.
#[verifier::spinoff_prover]
#[verifier::rlimit(100)]
proof fn lemma_odd_sixteen_second()
    ensures
        odd(16, 4, 0) == 82 && odd(16, 4, 1) == 22 && odd(16, 4, 2) == -54 && odd(16, 4, 3) == -90
            && odd(16, 4, 4) == -61 && odd(16, 4, 5) == 13 && odd(16, 4, 6) == 78 && odd(16, 4, 7) == 85
            && odd(16, 4, 8) == 31 && odd(16, 4, 9) == -46 && odd(16, 4, 10) == -90 && odd(16, 4, 11) == -67
            && odd(16, 4, 12) == 4 && odd(16, 4, 13) == 73 && odd(16, 4, 14) == 88 && odd(16, 4, 15) == 38,
        odd(16, 5, 0) == 78 && odd(16, 5, 1) == -4 && odd(16, 5, 2) == -82 && odd(16, 5, 3) == -73
            && odd(16, 5, 4) == 13 && odd(16, 5, 5) == 85 && odd(16, 5, 6) == 67 && odd(16, 5, 7) == -22
            && odd(16, 5, 8) == -88 && odd(16, 5, 9) == -61 && odd(16, 5, 10) == 31 && odd(16, 5, 11) == 90
            && odd(16, 5, 12) == 54 && odd(16, 5, 13) == -38 && odd(16, 5, 14) == -90 && odd(16, 5, 15) == -46,
        odd(16, 6, 0) == 73 && odd(16, 6, 1) == -31 && odd(16, 6, 2) == -90 && odd(16, 6, 3) == -22
            && odd(16, 6, 4) == 78 && odd(16, 6, 5) == 67 && odd(16, 6, 6) == -38 && odd(16, 6, 7) == -90
            && odd(16, 6, 8) == -13 && odd(16, 6, 9) == 82 && odd(16, 6, 10) == 61 && odd(16, 6, 11) == -46
            && odd(16, 6, 12) == -88 && odd(16, 6, 13) == -4 && odd(16, 6, 14) == 85 && odd(16, 6, 15) == 54,
        odd(16, 7, 0) == 67 && odd(16, 7, 1) == -54 && odd(16, 7, 2) == -78 && odd(16, 7, 3) == 38
            && odd(16, 7, 4) == 85 && odd(16, 7, 5) == -22 && odd(16, 7, 6) == -90 && odd(16, 7, 7) == 4
            && odd(16, 7, 8) == 90 && odd(16, 7, 9) == 13 && odd(16, 7, 10) == -88 && odd(16, 7, 11) == -31
            && odd(16, 7, 12) == 82 && odd(16, 7, 13) == 46 && odd(16, 7, 14) == -73 && odd(16, 7, 15) == -61,
{
    lemma_cosines();
}

/// Entries of the odd part of the 32x32 DCT.
#[verifier::spinoff_prover]
#[verifier::rlimit(100)]
proof fn lemma_odd_sixteen_third()
    ensures
        odd(16, 8, 0) == 61 && odd(16, 8, 1) == -73 && odd(16, 8, 2) == -46 && odd(16, 8, 3) == 82
            && odd(16, 8, 4) == 31 && odd(16, 8, 5) == -88 && odd(16, 8, 6) == -13 && odd(16, 8, 7) == 90
            && odd(16, 8, 8) == -4 && odd(16, 8, 9) == -90 && odd(16, 8, 10) == 22 && odd(16, 8, 11) == 85
            && odd(16, 8, 12) == -38 && odd(16, 8, 13) == -78 && odd(16, 8, 14) == 54 && odd(16, 8, 15) == 67,
        odd(16, 9, 0) == 54 && odd(16, 9, 1) == -85 && odd(16, 9, 2) == -4 && odd(16, 9, 3) == 88
            && odd(16, 9, 4) == -46 && odd(16, 9, 5) == -61 && odd(16, 9, 6) == 82 && odd(16, 9, 7) == 13
            && odd(16, 9, 8) == -90 && odd(16, 9, 9) == 38 && odd(16, 9, 10) == 67 && odd(16, 9, 11) == -78
            && odd(16, 9, 12) == -22 && odd(16, 9, 13) == 90 && odd(16, 9, 14) == -31 && odd(16, 9, 15) == -73,
        odd(16, 10, 0) == 46 && odd(16, 10, 1) == -90 && odd(16, 10, 2) == 38 && odd(16, 10, 3) == 54
            && odd(16, 10, 4) == -90 && odd(16, 10, 5) == 31 && odd(16, 10, 6) == 61 && odd(16, 10, 7) == -88
            && odd(16, 10, 8) == 22 && odd(16, 10, 9) == 67 && odd(16, 10, 10) == -85 && odd(16, 10, 11) == 13
            && odd(16, 10, 12) == 73 && odd(16, 10, 13) == -82 && odd(16, 10, 14) == 4 && odd(16, 10, 15) == 78,
        odd(16, 11, 0) == 38 && odd(16, 11, 1) == -88 && odd(16, 11, 2) == 73 && odd(16, 11, 3) == -4
            && odd(16, 11, 4) == -67 && odd(16, 11, 5) == 90 && odd(16, 11, 6) == -46 && odd(16, 11, 7) == -31
            && odd(16, 11, 8) == 85 && odd(16, 11, 9) == -78 && odd(16, 11, 10) == 13 && odd(16, 11, 11) == 61
            && odd(16, 11, 12) == -90 && odd(16, 11, 13) == 54 && odd(16, 11, 14) == 22 && odd(16, 11, 15) == -82,
{
    lemma_cosines();
}

/// Entries of the odd part of the 32x32 DCT.
#[verifier::spinoff_prover]
#[verifier::rlimit(100)]
proof fn lemma_odd_sixteen_fourth()
    ensures
        odd(16, 12, 0) == 31 && odd(16, 12, 1) == -78 && odd(16, 12, 2) == 90 && odd(16, 12, 3) == -61
            && odd(16, 12, 4) == 4 && odd(16, 12, 5) == 54 && odd(16, 12, 6) == -88 && odd(16, 12, 7) == 82
            && odd(16, 12, 8) == -38 && odd(16, 12, 9) == -22 && odd(16, 12, 10) == 73 && odd(16, 12, 11) == -90
            && odd(16, 12, 12) == 67 && odd(16, 12, 13) == -13 && odd(16, 12, 14) == -46 && odd(16, 12, 15) == 85,
        odd(16, 13, 0) == 22 && odd(16, 13, 1) == -61 && odd(16, 13, 2) == 85 && odd(16, 13, 3) == -90
            && odd(16, 13, 4) == 73 && odd(16, 13, 5) == -38 && odd(16, 13, 6) == -4 && odd(16, 13, 7) == 46
            && odd(16, 13, 8) == -78 && odd(16, 13, 9) == 90 && odd(16, 13, 10) == -82 && odd(16, 13, 11) == 54
            && odd(16, 13, 12) == -13 && odd(16, 13, 13) == -31 && odd(16, 13, 14) == 67 && odd(16, 13, 15) == -88,
        odd(16, 14, 0) == 13 && odd(16, 14, 1) == -38 && odd(16, 14, 2) == 61 && odd(16, 14, 3) == -78
            && odd(16, 14, 4) == 88 && odd(16, 14, 5) == -90 && odd(16, 14, 6) == 85 && odd(16, 14, 7) == -73
            && odd(16, 14, 8) == 54 && odd(16, 14, 9) == -31 && odd(16, 14, 10) == 4 && odd(16, 14, 11) == 22
            && odd(16, 14, 12) == -46 && odd(16, 14, 13) == 67 && odd(16, 14, 14) == -82 && odd(16, 14, 15) == 90,
        odd(16, 15, 0) == 4 && odd(16, 15, 1) == -13 && odd(16, 15, 2) == 22 && odd(16, 15, 3) == -31
            && odd(16, 15, 4) == 38 && odd(16, 15, 5) == -46 && odd(16, 15, 6) == 54 && odd(16, 15, 7) == -61
            && odd(16, 15, 8) == 67 && odd(16, 15, 9) == -73 && odd(16, 15, 10) == 78 && odd(16, 15, 11) == -82
            && odd(16, 15, 12) == 85 && odd(16, 15, 13) == -88 && odd(16, 15, 14) == 90 && odd(16, 15, 15) == -90,
{
    lemma_cosines();
}

/// Products of the columns of that part.
#[verifier::spinoff_prover]
#[verifier::rlimit(100)]
proof fn lemma_odd_gram_sixteen_first(x: int, y: int)
    requires
        0 <= x < 4,
        0 <= y < 16,
    ensures
        abs(odd_miss(16, x, y)) <= odd_leak(16, x, y),
{
    lemma_odd_sixteen_first();
    lemma_odd_sixteen_second();
    lemma_odd_sixteen_third();
    lemma_odd_sixteen_fourth();
    reveal_with_fuel(odd_gram, 17);
    let (a0, b0) = (odd(16, 0, x), odd(16, 0, y));
    let (a1, b1) = (odd(16, 1, x), odd(16, 1, y));
    let (a2, b2) = (odd(16, 2, x), odd(16, 2, y));
    let (a3, b3) = (odd(16, 3, x), odd(16, 3, y));
    let (a4, b4) = (odd(16, 4, x), odd(16, 4, y));
    let (a5, b5) = (odd(16, 5, x), odd(16, 5, y));
    let (a6, b6) = (odd(16, 6, x), odd(16, 6, y));
    let (a7, b7) = (odd(16, 7, x), odd(16, 7, y));
    let (a8, b8) = (odd(16, 8, x), odd(16, 8, y));
    let (a9, b9) = (odd(16, 9, x), odd(16, 9, y));
    let (a10, b10) = (odd(16, 10, x), odd(16, 10, y));
    let (a11, b11) = (odd(16, 11, x), odd(16, 11, y));
    let (a12, b12) = (odd(16, 12, x), odd(16, 12, y));
    let (a13, b13) = (odd(16, 13, x), odd(16, 13, y));
    let (a14, b14) = (odd(16, 14, x), odd(16, 14, y));
    let (a15, b15) = (odd(16, 15, x), odd(16, 15, y));
    let sum = a0 * b0 + a1 * b1 + a2 * b2 + a3 * b3 + a4 * b4 + a5 * b5 + a6 * b6 + a7 * b7 + a8 * b8 + a9 * b9
        + a10 * b10 + a11 * b11 + a12 * b12 + a13 * b13 + a14 * b14 + a15 * b15;
    assert(odd_gram(16, x, y, 16) == sum);
    if x == 0 {
        assert(sum == 90 * b0 + 90 * b1 + 88 * b2 + 85 * b3 + 82 * b4 + 78 * b5 + 73 * b6 + 67 * b7 + 61 * b8
            + 54 * b9 + 46 * b10 + 38 * b11 + 31 * b12 + 22 * b13 + 13 * b14 + 4 * b15) by (nonlinear_arith)
            requires
                sum == a0 * b0 + a1 * b1 + a2 * b2 + a3 * b3 + a4 * b4 + a5 * b5 + a6 * b6 + a7 * b7 + a8 * b8
                    + a9 * b9 + a10 * b10 + a11 * b11 + a12 * b12 + a13 * b13 + a14 * b14 + a15 * b15,
                a0 == 90 && a1 == 90 && a2 == 88 && a3 == 85 && a4 == 82 && a5 == 78 && a6 == 73 && a7 == 67
                    && a8 == 61 && a9 == 54 && a10 == 46 && a11 == 38 && a12 == 31 && a13 == 22 && a14 == 13
                    && a15 == 4,
        ;
    } else if x == 1 {
        assert(sum == 90 * b0 + 82 * b1 + 67 * b2 + 46 * b3 + 22 * b4 + (-4) * b5 + (-31) * b6 + (-54) * b7
            + (-73) * b8 + (-85) * b9 + (-90) * b10 + (-88) * b11 + (-78) * b12 + (-61) * b13 + (-38) * b14
            + (-13) * b15) by (nonlinear_arith)
            requires
                sum == a0 * b0 + a1 * b1 + a2 * b2 + a3 * b3 + a4 * b4 + a5 * b5 + a6 * b6 + a7 * b7 + a8 * b8
                    + a9 * b9 + a10 * b10 + a11 * b11 + a12 * b12 + a13 * b13 + a14 * b14 + a15 * b15,
                a0 == 90 && a1 == 82 && a2 == 67 && a3 == 46 && a4 == 22 && a5 == -4 && a6 == -31 && a7 == -54
                    && a8 == -73 && a9 == -85 && a10 == -90 && a11 == -88 && a12 == -78 && a13 == -61 && a14 == -38
                    && a15 == -13,
        ;
    } else if x == 2 {
        assert(sum == 88 * b0 + 67 * b1 + 31 * b2 + (-13) * b3 + (-54) * b4 + (-82) * b5 + (-90) * b6 + (-78) * b7
            + (-46) * b8 + (-4) * b9 + 38 * b10 + 73 * b11 + 90 * b12 + 85 * b13 + 61 * b14 + 22 * b15) by (nonlinear_arith)
            requires
                sum == a0 * b0 + a1 * b1 + a2 * b2 + a3 * b3 + a4 * b4 + a5 * b5 + a6 * b6 + a7 * b7 + a8 * b8
                    + a9 * b9 + a10 * b10 + a11 * b11 + a12 * b12 + a13 * b13 + a14 * b14 + a15 * b15,
                a0 == 88 && a1 == 67 && a2 == 31 && a3 == -13 && a4 == -54 && a5 == -82 && a6 == -90 && a7 == -78
                    && a8 == -46 && a9 == -4 && a10 == 38 && a11 == 73 && a12 == 90 && a13 == 85 && a14 == 61
                    && a15 == 22,
        ;
    } else if x == 3 {
        assert(sum == 85 * b0 + 46 * b1 + (-13) * b2 + (-67) * b3 + (-90) * b4 + (-73) * b5 + (-22) * b6 + 38 * b7
            + 82 * b8 + 88 * b9 + 54 * b10 + (-4) * b11 + (-61) * b12 + (-90) * b13 + (-78) * b14 + (-31) * b15) by (nonlinear_arith)
            requires
                sum == a0 * b0 + a1 * b1 + a2 * b2 + a3 * b3 + a4 * b4 + a5 * b5 + a6 * b6 + a7 * b7 + a8 * b8
                    + a9 * b9 + a10 * b10 + a11 * b11 + a12 * b12 + a13 * b13 + a14 * b14 + a15 * b15,
                a0 == 85 && a1 == 46 && a2 == -13 && a3 == -67 && a4 == -90 && a5 == -73 && a6 == -22 && a7 == 38
                    && a8 == 82 && a9 == 88 && a10 == 54 && a11 == -4 && a12 == -61 && a13 == -90 && a14 == -78
                    && a15 == -31,
        ;
    }
    assert(y == 0 || y == 1 || y == 2 || y == 3 || y == 4 || y == 5 || y == 6 || y == 7 || y == 8 || y == 9
        || y == 10 || y == 11 || y == 12 || y == 13 || y == 14 || y == 15);
}

/// Products of the columns of that part.
#[verifier::spinoff_prover]
#[verifier::rlimit(100)]
proof fn lemma_odd_gram_sixteen_second(x: int, y: int)
    requires
        4 <= x < 8,
        0 <= y < 16,
    ensures
        abs(odd_miss(16, x, y)) <= odd_leak(16, x, y),
{
    lemma_odd_sixteen_first();
    lemma_odd_sixteen_second();
    lemma_odd_sixteen_third();
    lemma_odd_sixteen_fourth();
    reveal_with_fuel(odd_gram, 17);
    let (a0, b0) = (odd(16, 0, x), odd(16, 0, y));
    let (a1, b1) = (odd(16, 1, x), odd(16, 1, y));
    let (a2, b2) = (odd(16, 2, x), odd(16, 2, y));
    let (a3, b3) = (odd(16, 3, x), odd(16, 3, y));
    let (a4, b4) = (odd(16, 4, x), odd(16, 4, y));
    let (a5, b5) = (odd(16, 5, x), odd(16, 5, y));
    let (a6, b6) = (odd(16, 6, x), odd(16, 6, y));
    let (a7, b7) = (odd(16, 7, x), odd(16, 7, y));
    let (a8, b8) = (odd(16, 8, x), odd(16, 8, y));
    let (a9, b9) = (odd(16, 9, x), odd(16, 9, y));
    let (a10, b10) = (odd(16, 10, x), odd(16, 10, y));
    let (a11, b11) = (odd(16, 11, x), odd(16, 11, y));
    let (a12, b12) = (odd(16, 12, x), odd(16, 12, y));
    let (a13, b13) = (odd(16, 13, x), odd(16, 13, y));
    let (a14, b14) = (odd(16, 14, x), odd(16, 14, y));
    let (a15, b15) = (odd(16, 15, x), odd(16, 15, y));
    let sum = a0 * b0 + a1 * b1 + a2 * b2 + a3 * b3 + a4 * b4 + a5 * b5 + a6 * b6 + a7 * b7 + a8 * b8 + a9 * b9
        + a10 * b10 + a11 * b11 + a12 * b12 + a13 * b13 + a14 * b14 + a15 * b15;
    assert(odd_gram(16, x, y, 16) == sum);
    if x == 4 {
        assert(sum == 82 * b0 + 22 * b1 + (-54) * b2 + (-90) * b3 + (-61) * b4 + 13 * b5 + 78 * b6 + 85 * b7
            + 31 * b8 + (-46) * b9 + (-90) * b10 + (-67) * b11 + 4 * b12 + 73 * b13 + 88 * b14 + 38 * b15) by (nonlinear_arith)
            requires
                sum == a0 * b0 + a1 * b1 + a2 * b2 + a3 * b3 + a4 * b4 + a5 * b5 + a6 * b6 + a7 * b7 + a8 * b8
                    + a9 * b9 + a10 * b10 + a11 * b11 + a12 * b12 + a13 * b13 + a14 * b14 + a15 * b15,
                a0 == 82 && a1 == 22 && a2 == -54 && a3 == -90 && a4 == -61 && a5 == 13 && a6 == 78 && a7 == 85
                    && a8 == 31 && a9 == -46 && a10 == -90 && a11 == -67 && a12 == 4 && a13 == 73 && a14 == 88
                    && a15 == 38,
        ;
    } else if x == 5 {
        assert(sum == 78 * b0 + (-4) * b1 + (-82) * b2 + (-73) * b3 + 13 * b4 + 85 * b5 + 67 * b6 + (-22) * b7
            + (-88) * b8 + (-61) * b9 + 31 * b10 + 90 * b11 + 54 * b12 + (-38) * b13 + (-90) * b14 + (-46) * b15) by (nonlinear_arith)
            requires
                sum == a0 * b0 + a1 * b1 + a2 * b2 + a3 * b3 + a4 * b4 + a5 * b5 + a6 * b6 + a7 * b7 + a8 * b8
                    + a9 * b9 + a10 * b10 + a11 * b11 + a12 * b12 + a13 * b13 + a14 * b14 + a15 * b15,
                a0 == 78 && a1 == -4 && a2 == -82 && a3 == -73 && a4 == 13 && a5 == 85 && a6 == 67 && a7 == -22
                    && a8 == -88 && a9 == -61 && a10 == 31 && a11 == 90 && a12 == 54 && a13 == -38 && a14 == -90
                    && a15 == -46,
        ;
    } else if x == 6 {
        assert(sum == 73 * b0 + (-31) * b1 + (-90) * b2 + (-22) * b3 + 78 * b4 + 67 * b5 + (-38) * b6 + (-90) * b7
            + (-13) * b8 + 82 * b9 + 61 * b10 + (-46) * b11 + (-88) * b12 + (-4) * b13 + 85 * b14 + 54 * b15) by (nonlinear_arith)
            requires
                sum == a0 * b0 + a1 * b1 + a2 * b2 + a3 * b3 + a4 * b4 + a5 * b5 + a6 * b6 + a7 * b7 + a8 * b8
                    + a9 * b9 + a10 * b10 + a11 * b11 + a12 * b12 + a13 * b13 + a14 * b14 + a15 * b15,
                a0 == 73 && a1 == -31 && a2 == -90 && a3 == -22 && a4 == 78 && a5 == 67 && a6 == -38 && a7 == -90
                    && a8 == -13 && a9 == 82 && a10 == 61 && a11 == -46 && a12 == -88 && a13 == -4 && a14 == 85
                    && a15 == 54,
        ;
    } else if x == 7 {
        assert(sum == 67 * b0 + (-54) * b1 + (-78) * b2 + 38 * b3 + 85 * b4 + (-22) * b5 + (-90) * b6 + 4 * b7
            + 90 * b8 + 13 * b9 + (-88) * b10 + (-31) * b11 + 82 * b12 + 46 * b13 + (-73) * b14 + (-61) * b15) by (nonlinear_arith)
            requires
                sum == a0 * b0 + a1 * b1 + a2 * b2 + a3 * b3 + a4 * b4 + a5 * b5 + a6 * b6 + a7 * b7 + a8 * b8
                    + a9 * b9 + a10 * b10 + a11 * b11 + a12 * b12 + a13 * b13 + a14 * b14 + a15 * b15,
                a0 == 67 && a1 == -54 && a2 == -78 && a3 == 38 && a4 == 85 && a5 == -22 && a6 == -90 && a7 == 4
                    && a8 == 90 && a9 == 13 && a10 == -88 && a11 == -31 && a12 == 82 && a13 == 46 && a14 == -73
                    && a15 == -61,
        ;
    }
    assert(y == 0 || y == 1 || y == 2 || y == 3 || y == 4 || y == 5 || y == 6 || y == 7 || y == 8 || y == 9
        || y == 10 || y == 11 || y == 12 || y == 13 || y == 14 || y == 15);
}

/// Products of the columns of that part.
#[verifier::spinoff_prover]
#[verifier::rlimit(100)]
proof fn lemma_odd_gram_sixteen_third(x: int, y: int)
    requires
        8 <= x < 12,
        0 <= y < 16,
    ensures
        abs(odd_miss(16, x, y)) <= odd_leak(16, x, y),
{
    lemma_odd_sixteen_first();
    lemma_odd_sixteen_second();
    lemma_odd_sixteen_third();
    lemma_odd_sixteen_fourth();
    reveal_with_fuel(odd_gram, 17);
    let (a0, b0) = (odd(16, 0, x), odd(16, 0, y));
    let (a1, b1) = (odd(16, 1, x), odd(16, 1, y));
    let (a2, b2) = (odd(16, 2, x), odd(16, 2, y));
    let (a3, b3) = (odd(16, 3, x), odd(16, 3, y));
    let (a4, b4) = (odd(16, 4, x), odd(16, 4, y));
    let (a5, b5) = (odd(16, 5, x), odd(16, 5, y));
    let (a6, b6) = (odd(16, 6, x), odd(16, 6, y));
    let (a7, b7) = (odd(16, 7, x), odd(16, 7, y));
    let (a8, b8) = (odd(16, 8, x), odd(16, 8, y));
    let (a9, b9) = (odd(16, 9, x), odd(16, 9, y));
    let (a10, b10) = (odd(16, 10, x), odd(16, 10, y));
    let (a11, b11) = (odd(16, 11, x), odd(16, 11, y));
    let (a12, b12) = (odd(16, 12, x), odd(16, 12, y));
    let (a13, b13) = (odd(16, 13, x), odd(16, 13, y));
    let (a14, b14) = (odd(16, 14, x), odd(16, 14, y));
    let (a15, b15) = (odd(16, 15, x), odd(16, 15, y));
    let sum = a0 * b0 + a1 * b1 + a2 * b2 + a3 * b3 + a4 * b4 + a5 * b5 + a6 * b6 + a7 * b7 + a8 * b8 + a9 * b9
        + a10 * b10 + a11 * b11 + a12 * b12 + a13 * b13 + a14 * b14 + a15 * b15;
    assert(odd_gram(16, x, y, 16) == sum);
    if x == 8 {
        assert(sum == 61 * b0 + (-73) * b1 + (-46) * b2 + 82 * b3 + 31 * b4 + (-88) * b5 + (-13) * b6 + 90 * b7
            + (-4) * b8 + (-90) * b9 + 22 * b10 + 85 * b11 + (-38) * b12 + (-78) * b13 + 54 * b14 + 67 * b15) by (nonlinear_arith)
            requires
                sum == a0 * b0 + a1 * b1 + a2 * b2 + a3 * b3 + a4 * b4 + a5 * b5 + a6 * b6 + a7 * b7 + a8 * b8
                    + a9 * b9 + a10 * b10 + a11 * b11 + a12 * b12 + a13 * b13 + a14 * b14 + a15 * b15,
                a0 == 61 && a1 == -73 && a2 == -46 && a3 == 82 && a4 == 31 && a5 == -88 && a6 == -13 && a7 == 90
                    && a8 == -4 && a9 == -90 && a10 == 22 && a11 == 85 && a12 == -38 && a13 == -78 && a14 == 54
                    && a15 == 67,
        ;
    } else if x == 9 {
        assert(sum == 54 * b0 + (-85) * b1 + (-4) * b2 + 88 * b3 + (-46) * b4 + (-61) * b5 + 82 * b6 + 13 * b7
            + (-90) * b8 + 38 * b9 + 67 * b10 + (-78) * b11 + (-22) * b12 + 90 * b13 + (-31) * b14 + (-73) * b15) by (nonlinear_arith)
            requires
                sum == a0 * b0 + a1 * b1 + a2 * b2 + a3 * b3 + a4 * b4 + a5 * b5 + a6 * b6 + a7 * b7 + a8 * b8
                    + a9 * b9 + a10 * b10 + a11 * b11 + a12 * b12 + a13 * b13 + a14 * b14 + a15 * b15,
                a0 == 54 && a1 == -85 && a2 == -4 && a3 == 88 && a4 == -46 && a5 == -61 && a6 == 82 && a7 == 13
                    && a8 == -90 && a9 == 38 && a10 == 67 && a11 == -78 && a12 == -22 && a13 == 90 && a14 == -31
                    && a15 == -73,
        ;
    } else if x == 10 {
        assert(sum == 46 * b0 + (-90) * b1 + 38 * b2 + 54 * b3 + (-90) * b4 + 31 * b5 + 61 * b6 + (-88) * b7
            + 22 * b8 + 67 * b9 + (-85) * b10 + 13 * b11 + 73 * b12 + (-82) * b13 + 4 * b14 + 78 * b15) by (nonlinear_arith)
            requires
                sum == a0 * b0 + a1 * b1 + a2 * b2 + a3 * b3 + a4 * b4 + a5 * b5 + a6 * b6 + a7 * b7 + a8 * b8
                    + a9 * b9 + a10 * b10 + a11 * b11 + a12 * b12 + a13 * b13 + a14 * b14 + a15 * b15,
                a0 == 46 && a1 == -90 && a2 == 38 && a3 == 54 && a4 == -90 && a5 == 31 && a6 == 61 && a7 == -88
                    && a8 == 22 && a9 == 67 && a10 == -85 && a11 == 13 && a12 == 73 && a13 == -82 && a14 == 4
                    && a15 == 78,
        ;
    } else if x == 11 {
        assert(sum == 38 * b0 + (-88) * b1 + 73 * b2 + (-4) * b3 + (-67) * b4 + 90 * b5 + (-46) * b6 + (-31) * b7
            + 85 * b8 + (-78) * b9 + 13 * b10 + 61 * b11 + (-90) * b12 + 54 * b13 + 22 * b14 + (-82) * b15) by (nonlinear_arith)
            requires
                sum == a0 * b0 + a1 * b1 + a2 * b2 + a3 * b3 + a4 * b4 + a5 * b5 + a6 * b6 + a7 * b7 + a8 * b8
                    + a9 * b9 + a10 * b10 + a11 * b11 + a12 * b12 + a13 * b13 + a14 * b14 + a15 * b15,
                a0 == 38 && a1 == -88 && a2 == 73 && a3 == -4 && a4 == -67 && a5 == 90 && a6 == -46 && a7 == -31
                    && a8 == 85 && a9 == -78 && a10 == 13 && a11 == 61 && a12 == -90 && a13 == 54 && a14 == 22
                    && a15 == -82,
        ;
    }
    assert(y == 0 || y == 1 || y == 2 || y == 3 || y == 4 || y == 5 || y == 6 || y == 7 || y == 8 || y == 9
        || y == 10 || y == 11 || y == 12 || y == 13 || y == 14 || y == 15);
}

/// Products of the columns of that part.
#[verifier::spinoff_prover]
#[verifier::rlimit(100)]
proof fn lemma_odd_gram_sixteen_fourth(x: int, y: int)
    requires
        12 <= x < 16,
        0 <= y < 16,
    ensures
        abs(odd_miss(16, x, y)) <= odd_leak(16, x, y),
{
    lemma_odd_sixteen_first();
    lemma_odd_sixteen_second();
    lemma_odd_sixteen_third();
    lemma_odd_sixteen_fourth();
    reveal_with_fuel(odd_gram, 17);
    let (a0, b0) = (odd(16, 0, x), odd(16, 0, y));
    let (a1, b1) = (odd(16, 1, x), odd(16, 1, y));
    let (a2, b2) = (odd(16, 2, x), odd(16, 2, y));
    let (a3, b3) = (odd(16, 3, x), odd(16, 3, y));
    let (a4, b4) = (odd(16, 4, x), odd(16, 4, y));
    let (a5, b5) = (odd(16, 5, x), odd(16, 5, y));
    let (a6, b6) = (odd(16, 6, x), odd(16, 6, y));
    let (a7, b7) = (odd(16, 7, x), odd(16, 7, y));
    let (a8, b8) = (odd(16, 8, x), odd(16, 8, y));
    let (a9, b9) = (odd(16, 9, x), odd(16, 9, y));
    let (a10, b10) = (odd(16, 10, x), odd(16, 10, y));
    let (a11, b11) = (odd(16, 11, x), odd(16, 11, y));
    let (a12, b12) = (odd(16, 12, x), odd(16, 12, y));
    let (a13, b13) = (odd(16, 13, x), odd(16, 13, y));
    let (a14, b14) = (odd(16, 14, x), odd(16, 14, y));
    let (a15, b15) = (odd(16, 15, x), odd(16, 15, y));
    let sum = a0 * b0 + a1 * b1 + a2 * b2 + a3 * b3 + a4 * b4 + a5 * b5 + a6 * b6 + a7 * b7 + a8 * b8 + a9 * b9
        + a10 * b10 + a11 * b11 + a12 * b12 + a13 * b13 + a14 * b14 + a15 * b15;
    assert(odd_gram(16, x, y, 16) == sum);
    if x == 12 {
        assert(sum == 31 * b0 + (-78) * b1 + 90 * b2 + (-61) * b3 + 4 * b4 + 54 * b5 + (-88) * b6 + 82 * b7
            + (-38) * b8 + (-22) * b9 + 73 * b10 + (-90) * b11 + 67 * b12 + (-13) * b13 + (-46) * b14 + 85 * b15) by (nonlinear_arith)
            requires
                sum == a0 * b0 + a1 * b1 + a2 * b2 + a3 * b3 + a4 * b4 + a5 * b5 + a6 * b6 + a7 * b7 + a8 * b8
                    + a9 * b9 + a10 * b10 + a11 * b11 + a12 * b12 + a13 * b13 + a14 * b14 + a15 * b15,
                a0 == 31 && a1 == -78 && a2 == 90 && a3 == -61 && a4 == 4 && a5 == 54 && a6 == -88 && a7 == 82
                    && a8 == -38 && a9 == -22 && a10 == 73 && a11 == -90 && a12 == 67 && a13 == -13 && a14 == -46
                    && a15 == 85,
        ;
    } else if x == 13 {
        assert(sum == 22 * b0 + (-61) * b1 + 85 * b2 + (-90) * b3 + 73 * b4 + (-38) * b5 + (-4) * b6 + 46 * b7
            + (-78) * b8 + 90 * b9 + (-82) * b10 + 54 * b11 + (-13) * b12 + (-31) * b13 + 67 * b14 + (-88) * b15) by (nonlinear_arith)
            requires
                sum == a0 * b0 + a1 * b1 + a2 * b2 + a3 * b3 + a4 * b4 + a5 * b5 + a6 * b6 + a7 * b7 + a8 * b8
                    + a9 * b9 + a10 * b10 + a11 * b11 + a12 * b12 + a13 * b13 + a14 * b14 + a15 * b15,
                a0 == 22 && a1 == -61 && a2 == 85 && a3 == -90 && a4 == 73 && a5 == -38 && a6 == -4 && a7 == 46
                    && a8 == -78 && a9 == 90 && a10 == -82 && a11 == 54 && a12 == -13 && a13 == -31 && a14 == 67
                    && a15 == -88,
        ;
    } else if x == 14 {
        assert(sum == 13 * b0 + (-38) * b1 + 61 * b2 + (-78) * b3 + 88 * b4 + (-90) * b5 + 85 * b6 + (-73) * b7
            + 54 * b8 + (-31) * b9 + 4 * b10 + 22 * b11 + (-46) * b12 + 67 * b13 + (-82) * b14 + 90 * b15) by (nonlinear_arith)
            requires
                sum == a0 * b0 + a1 * b1 + a2 * b2 + a3 * b3 + a4 * b4 + a5 * b5 + a6 * b6 + a7 * b7 + a8 * b8
                    + a9 * b9 + a10 * b10 + a11 * b11 + a12 * b12 + a13 * b13 + a14 * b14 + a15 * b15,
                a0 == 13 && a1 == -38 && a2 == 61 && a3 == -78 && a4 == 88 && a5 == -90 && a6 == 85 && a7 == -73
                    && a8 == 54 && a9 == -31 && a10 == 4 && a11 == 22 && a12 == -46 && a13 == 67 && a14 == -82
                    && a15 == 90,
        ;
    } else if x == 15 {
        assert(sum == 4 * b0 + (-13) * b1 + 22 * b2 + (-31) * b3 + 38 * b4 + (-46) * b5 + 54 * b6 + (-61) * b7
            + 67 * b8 + (-73) * b9 + 78 * b10 + (-82) * b11 + 85 * b12 + (-88) * b13 + 90 * b14 + (-90) * b15) by (nonlinear_arith)
            requires
                sum == a0 * b0 + a1 * b1 + a2 * b2 + a3 * b3 + a4 * b4 + a5 * b5 + a6 * b6 + a7 * b7 + a8 * b8
                    + a9 * b9 + a10 * b10 + a11 * b11 + a12 * b12 + a13 * b13 + a14 * b14 + a15 * b15,
                a0 == 4 && a1 == -13 && a2 == 22 && a3 == -31 && a4 == 38 && a5 == -46 && a6 == 54 && a7 == -61
                    && a8 == 67 && a9 == -73 && a10 == 78 && a11 == -82 && a12 == 85 && a13 == -88 && a14 == 90
                    && a15 == -90,
        ;
    }
    assert(y == 0 || y == 1 || y == 2 || y == 3 || y == 4 || y == 5 || y == 6 || y == 7 || y == 8 || y == 9
        || y == 10 || y == 11 || y == 12 || y == 13 || y == 14 || y == 15);
}

/// The weights of the rows and the columns of that part.
#[verifier::spinoff_prover]
#[verifier::rlimit(100)]
proof fn lemma_odd_weights_sixteen(x: int)
    requires
        0 <= x < 16,
    ensures
        odd_row(16, x, 16) == 922,
        odd_column(16, x, 16) == 922,
{
    lemma_odd_sixteen_first();
    lemma_odd_sixteen_second();
    lemma_odd_sixteen_third();
    lemma_odd_sixteen_fourth();
    reveal_with_fuel(odd_row, 17);
    reveal_with_fuel(odd_column, 17);
    assert(x == 0 || x == 1 || x == 2 || x == 3 || x == 4 || x == 5 || x == 6 || x == 7 || x == 8 || x == 9
        || x == 10 || x == 11 || x == 12 || x == 13 || x == 14 || x == 15);
}

/// The sides that the matrices have.
spec fn half_side(h: int) -> bool {
    h == 4 || h == 8 || h == 16
}

proof fn lemma_odd_miss(h: int, x: int, y: int)
    requires
        half_side(h),
        0 <= x < h,
        0 <= y < h,
    ensures
        abs(odd_miss(h, x, y)) <= odd_leak(h, x, y),
{
    if h == 4 {
        lemma_odd_gram_four(x, y);
    } else if h == 8 {
        lemma_odd_gram_eight(x, y);
    } else if x < 4 {
        lemma_odd_gram_sixteen_first(x, y);
    } else if x < 8 {
        lemma_odd_gram_sixteen_second(x, y);
    } else if x < 12 {
        lemma_odd_gram_sixteen_third(x, y);
    } else {
        lemma_odd_gram_sixteen_fourth(x, y);
    }
}

proof fn lemma_odd_weights(h: int, x: int)
    requires
        half_side(h),
        0 <= x < h,
    ensures
        odd_row(h, x, h as nat) <= 64 * h,
        odd_column(h, x, h as nat) == column_limit_of(2 * h) - column_limit_of(h),
{
    if h == 4 {
        lemma_odd_weights_four(x);
    } else if h == 8 {
        lemma_odd_weights_eight(x);
    } else {
        lemma_odd_weights_sixteen(x);
    }
}

/// The angle between basis functions halves as the side doubles.
proof fn lemma_angle_step(h: int)
    requires
        half_side(h),
    ensures
        ({
            let s = 32int / (2 * h);
            32int / h == 2 * s && s * h == 16
        }),
{
    let s: int = if h == 4 {
        4
    } else if h == 8 {
        2
    } else {
        1
    };
    assert(s * h == 16 && 32 == s * (2 * h) + 0 && 32 == (2 * s) * h + 0);
    lemma_fundamental_div_mod_converse(32, 2 * h, s, 0);
    lemma_fundamental_div_mod_converse(32, h, 2 * s, 0);
}

/// The even rows are those of the smaller matrix, unfolded.
proof fn lemma_even_rows(h: int, v: int, x: int)
    requires
        half_side(h),
        0 <= x < 2 * h,
    ensures
        basis(false, 2 * h, 2 * v, x) == basis(false, h, v, folded(h, x)),
{
    let s = 32int / (2 * h);
    lemma_angle_step(h);
    let a = v * (2 * s) * (2 * folded(h, x) + 1);
    if x < h {
        assert(2 * v * s * (2 * x + 1) == v * (2 * s) * (2 * x + 1)) by (nonlinear_arith);
    } else {
        let z = 2 * h - 1 - x;
        assert(2 * v * s * (2 * x + 1) == 64 * (2 * v) - v * (2 * s) * (2 * z + 1)) by (nonlinear_arith)
            requires
                x == 2 * h - 1 - z,
                s * h == 16,
        ;
        lemma_cosine_mirrored(a, 2 * v);
    }
}

/// The odd rows mirror their first half with the sign changed.
proof fn lemma_odd_rows(h: int, v: int, x: int)
    requires
        half_side(h),
        0 <= x < 2 * h,
    ensures
        basis(false, 2 * h, 2 * v + 1, x) == if x < h {
            odd(h, v, folded(h, x))
        } else {
            -odd(h, v, folded(h, x))
        },
{
    if x >= h {
        let s = 32int / (2 * h);
        let z = 2 * h - 1 - x;
        let u = 2 * v + 1;
        lemma_angle_step(h);
        assert(u * s * (2 * x + 1) == 64 * u - u * s * (2 * z + 1)) by (nonlinear_arith)
            requires
                x == 2 * h - 1 - z,
                s * h == 16,
        ;
        lemma_cosine_mirrored(u * s * (2 * z + 1), u);
    }
}

/// The products of columns, of the even rows and of the odd ones.
proof fn lemma_gram_folds(h: int, x: int, y: int, k: nat)
    requires
        half_side(h),
        0 <= x < 2 * h,
        0 <= y < 2 * h,
    ensures
        ({
            let (a, b) = (folded(h, x), folded(h, y));
            gram(false, 2 * h, x, y, 2 * k) == gram(false, h, a, b, k) + if (x < h) == (y < h) {
                odd_gram(h, a, b, k)
            } else {
                -odd_gram(h, a, b, k)
            }
        }),
    decreases k,
{
    if k > 0 {
        let m = (k - 1) as nat;
        let (a, b) = (folded(h, x), folded(h, y));
        lemma_gram_folds(h, x, y, m);
        lemma_even_rows(h, k - 1, x);
        lemma_even_rows(h, k - 1, y);
        lemma_odd_rows(h, k - 1, x);
        lemma_odd_rows(h, k - 1, y);
        let n = (2 * k - 1) as nat;
        assert(gram(false, 2 * h, x, y, 2 * k) == gram(false, 2 * h, x, y, n) + basis(false, 2 * h, 2 * (k - 1) + 1, x)
            * basis(false, 2 * h, 2 * (k - 1) + 1, y));
        assert(gram(false, 2 * h, x, y, n) == gram(false, 2 * h, x, y, 2 * m) + basis(false, 2 * h, 2 * (k - 1), x)
            * basis(false, 2 * h, 2 * (k - 1), y));
        let (p, q) = (odd(h, k - 1, a), odd(h, k - 1, b));
        assert((-p) * (-q) == p * q && (-p) * q == -(p * q) && p * (-q) == -(p * q)) by (nonlinear_arith);
    }
}

/// What the products miss by is what the smaller matrix and the odd part miss by.
proof fn lemma_miss_folds(h: int, x: int, y: int)
    requires
        half_side(h),
        0 <= x < 2 * h,
        0 <= y < 2 * h,
    ensures
        ({
            let (a, b) = (folded(h, x), folded(h, y));
            miss(false, 2 * h, x, y) == miss(false, h, a, b) + if (x < h) == (y < h) {
                odd_miss(h, a, b)
            } else {
                -odd_miss(h, a, b)
            }
        }),
{
    lemma_gram_folds(h, x, y, h as nat);
}

/// The sides that the bound is proved for.
pub open spec fn bounded_side(dst: bool, n: int) -> bool {
    n == 4 || (!dst && (n == 8 || n == 16 || n == 32))
}

proof fn lemma_miss(dst: bool, n: int, x: int, y: int)
    requires
        bounded_side(dst, n),
        0 <= x < n,
        0 <= y < n,
    ensures
        abs(miss(dst, n, x, y)) <= leak(dst, n, x, y),
    decreases n,
{
    if dst {
        lemma_gram_sine(x, y);
    } else if n == 4 {
        lemma_gram_four(x, y);
    } else {
        let h = n / 2;
        let (a, b) = (folded(h, x), folded(h, y));
        lemma_miss_folds(h, x, y);
        lemma_miss(false, h, a, b);
        lemma_odd_miss(h, a, b);
    }
}

/// The sum over the first `k` columns of what the smaller matrix and the odd part, or its
/// negative, miss by together.
spec fn half_misses(h: int, x: int, negated: bool, k: nat) -> int
    decreases k,
{
    if k == 0 {
        0
    } else {
        half_misses(h, x, negated, (k - 1) as nat) + abs(
            miss(false, h, x, k - 1) + if negated {
                -odd_miss(h, x, k - 1)
            } else {
                odd_miss(h, x, k - 1)
            },
        )
    }
}

/// The columns of the first half, and then those of the second in turn.
proof fn lemma_misses_fold(h: int, x: int, k: nat)
    requires
        half_side(h),
        0 <= x < 2 * h,
        k <= h,
    ensures
        misses(false, 2 * h, x, k) == half_misses(h, folded(h, x), x >= h, k),
        misses(false, 2 * h, x, (h + k) as nat) == half_misses(h, folded(h, x), x >= h, h as nat) + half_misses(
            h,
            folded(h, x),
            x < h,
            h as nat,
        ) - half_misses(h, folded(h, x), x < h, (h - k) as nat),
    decreases k,
{
    if k > 0 {
        let m = (k - 1) as nat;
        lemma_misses_fold(h, x, m);
        lemma_miss_folds(h, x, k - 1);
        lemma_miss_folds(h, x, h + k - 1);
        assert(folded(h, h + k - 1) == h - k);
        assert(((h + k) as nat - 1) as nat == (h + m) as nat);
        assert(((h - m) as nat - 1) as nat == (h - k) as nat);
    } else {
        lemma_misses_first(h, x, h as nat);
    }
}

proof fn lemma_misses_first(h: int, x: int, k: nat)
    requires
        half_side(h),
        0 <= x < 2 * h,
        k <= h,
    ensures
        misses(false, 2 * h, x, k) == half_misses(h, folded(h, x), x >= h, k),
    decreases k,
{
    if k > 0 {
        lemma_misses_first(h, x, (k - 1) as nat);
        lemma_miss_folds(h, x, k - 1);
    }
}

/// The larger of what the smaller matrix and the odd part miss by, twice, over the first `k`
/// columns.
spec fn pairs(h: int, x: int, k: nat) -> int
    decreases k,
{
    if k == 0 {
        0
    } else {
        pairs(h, x, (k - 1) as nat) + 2 * max(leak(false, h, x, k - 1), odd_leak(h, x, k - 1))
    }
}

proof fn lemma_pairs(h: int, x: int, k: nat)
    requires
        half_side(h),
        0 <= x < h,
        k <= h,
    ensures
        half_misses(h, x, false, k) + half_misses(h, x, true, k) <= pairs(h, x, k),
    decreases k,
{
    if k > 0 {
        lemma_pairs(h, x, (k - 1) as nat);
        lemma_miss(false, h, x, k - 1);
        lemma_odd_miss(h, x, k - 1);
    }
}

proof fn lemma_pairs_four(x: int)
    requires
        0 <= x < 4,
    ensures
        pairs(4, x, 4) <= leak_limit(false, 8),
{
    reveal_with_fuel(pairs, 5);
    reveal_with_fuel(leak, 4);
    assert(x == 0 || x == 1 || x == 2 || x == 3);
}

#[verifier::spinoff_prover]
#[verifier::rlimit(100)]
proof fn lemma_pairs_eight(x: int)
    requires
        0 <= x < 8,
    ensures
        pairs(8, x, 8) <= leak_limit(false, 16),
{
    reveal_with_fuel(pairs, 9);
    reveal_with_fuel(leak, 4);
    assert(x == 0 || x == 1 || x == 2 || x == 3 || x == 4 || x == 5 || x == 6 || x == 7);
}

#[verifier::spinoff_prover]
#[verifier::rlimit(100)]
proof fn lemma_pairs_sixteen_first(x: int)
    requires
        0 <= x < 4,
    ensures
        pairs(16, x, 16) <= leak_limit(false, 32),
{
    reveal_with_fuel(pairs, 17);
    reveal_with_fuel(leak, 5);
    assert(x == 0 || x == 1 || x == 2 || x == 3);
}

#[verifier::spinoff_prover]
#[verifier::rlimit(100)]
proof fn lemma_pairs_sixteen_second(x: int)
    requires
        4 <= x < 8,
    ensures
        pairs(16, x, 16) <= leak_limit(false, 32),
{
    reveal_with_fuel(pairs, 17);
    reveal_with_fuel(leak, 5);
    assert(x == 4 || x == 5 || x == 6 || x == 7);
}

#[verifier::spinoff_prover]
#[verifier::rlimit(100)]
proof fn lemma_pairs_sixteen_third(x: int)
    requires
        8 <= x < 12,
    ensures
        pairs(16, x, 16) <= leak_limit(false, 32),
{
    reveal_with_fuel(pairs, 17);
    reveal_with_fuel(leak, 5);
    assert(x == 8 || x == 9 || x == 10 || x == 11);
}

#[verifier::spinoff_prover]
#[verifier::rlimit(100)]
proof fn lemma_pairs_sixteen_fourth(x: int)
    requires
        12 <= x < 16,
    ensures
        pairs(16, x, 16) <= leak_limit(false, 32),
{
    reveal_with_fuel(pairs, 17);
    reveal_with_fuel(leak, 5);
    assert(x == 12 || x == 13 || x == 14 || x == 15);
}

pub proof fn lemma_leaks(dst: bool, n: int, x: int)
    requires
        bounded_side(dst, n),
        0 <= x < n,
    ensures
        misses(dst, n, x, n as nat) <= leak_limit(dst, n),
{
    if dst {
        lemma_sums_sine(x);
    } else if n == 4 {
        lemma_sums_four(x);
    } else {
        let h = n / 2;
        let a = folded(h, x);
        lemma_misses_fold(h, x, h as nat);
        assert(half_misses(h, a, x < h, 0) == 0);
        lemma_pairs(h, a, h as nat);
        if n == 8 {
            lemma_pairs_four(a);
        } else if n == 16 {
            lemma_pairs_eight(a);
        } else if a < 4 {
            lemma_pairs_sixteen_first(a);
        } else if a < 8 {
            lemma_pairs_sixteen_second(a);
        } else if a < 12 {
            lemma_pairs_sixteen_third(a);
        } else {
            lemma_pairs_sixteen_fourth(a);
        }
    }
}

/// The weight of an even row is twice that of a row of the smaller matrix.
proof fn lemma_even_weight(h: int, v: int, k: nat)
    requires
        half_side(h),
        k <= h,
    ensures
        weight(false, 2 * h, 2 * v, k) == weight(false, h, v, k),
        weight(false, 2 * h, 2 * v, (h + k) as nat) == 2 * weight(false, h, v, h as nat) - weight(
            false,
            h,
            v,
            (h - k) as nat,
        ),
    decreases k,
{
    if k > 0 {
        let m = (k - 1) as nat;
        lemma_even_weight(h, v, m);
        lemma_even_rows(h, v, k - 1);
        lemma_even_rows(h, v, h + k - 1);
        assert(folded(h, h + k - 1) == h - k);
        assert(((h + k) as nat - 1) as nat == (h + m) as nat);
        assert(((h - m) as nat - 1) as nat == (h - k) as nat);
    } else {
        lemma_even_weight_first(h, v, h as nat);
    }
}

proof fn lemma_even_weight_first(h: int, v: int, k: nat)
    requires
        half_side(h),
        k <= h,
    ensures
        weight(false, 2 * h, 2 * v, k) == weight(false, h, v, k),
    decreases k,
{
    if k > 0 {
        lemma_even_weight_first(h, v, (k - 1) as nat);
        lemma_even_rows(h, v, k - 1);
    }
}

/// The weight of an odd row is twice that of its first half.
proof fn lemma_odd_weight(h: int, v: int, k: nat)
    requires
        half_side(h),
        k <= h,
    ensures
        weight(false, 2 * h, 2 * v + 1, k) == odd_row(h, v, k),
        weight(false, 2 * h, 2 * v + 1, (h + k) as nat) == 2 * odd_row(h, v, h as nat) - odd_row(h, v, (h - k) as nat),
    decreases k,
{
    if k > 0 {
        let m = (k - 1) as nat;
        lemma_odd_weight(h, v, m);
        lemma_odd_rows(h, v, k - 1);
        lemma_odd_rows(h, v, h + k - 1);
        assert(folded(h, h + k - 1) == h - k);
        assert(((h + k) as nat - 1) as nat == (h + m) as nat);
        assert(((h - m) as nat - 1) as nat == (h - k) as nat);
    } else {
        lemma_odd_weight_first(h, v, h as nat);
    }
}

proof fn lemma_odd_weight_first(h: int, v: int, k: nat)
    requires
        half_side(h),
        k <= h,
    ensures
        weight(false, 2 * h, 2 * v + 1, k) == odd_row(h, v, k),
    decreases k,
{
    if k > 0 {
        lemma_odd_weight_first(h, v, (k - 1) as nat);
        lemma_odd_rows(h, v, k - 1);
    }
}

pub proof fn lemma_rows(dst: bool, n: int, u: int)
    requires
        bounded_side(dst, n),
        0 <= u < n,
    ensures
        weight(dst, n, u, n as nat) <= 64 * n,
    decreases n,
{
    if dst {
        lemma_sums_sine(u);
    } else if n == 4 {
        lemma_sums_four(u);
    } else {
        let h = n / 2;
        let v = u / 2;
        assert((h - h) as nat == 0);
        if u % 2 == 0 {
            lemma_even_weight(h, v, h as nat);
            lemma_rows(false, h, v);
            assert(weight(false, h, v, 0) == 0);
        } else {
            lemma_odd_weight(h, v, h as nat);
            lemma_odd_weights(h, v);
            assert(odd_row(h, v, 0) == 0);
        }
    }
}

proof fn lemma_column_folds(h: int, x: int, k: nat)
    requires
        half_side(h),
        0 <= x < 2 * h,
    ensures
        column_weight(false, 2 * h, x, 2 * k) == column_weight(false, h, folded(h, x), k) + odd_column(h, folded(h, x), k),
    decreases k,
{
    if k > 0 {
        let m = (k - 1) as nat;
        lemma_column_folds(h, x, m);
        lemma_even_rows(h, k - 1, x);
        lemma_odd_rows(h, k - 1, x);
        let n = (2 * k - 1) as nat;
        assert(column_weight(false, 2 * h, x, 2 * k) == column_weight(false, 2 * h, x, n) + abs(
            basis(false, 2 * h, 2 * (k - 1) + 1, x),
        ));
        assert(column_weight(false, 2 * h, x, n) == column_weight(false, 2 * h, x, 2 * m) + abs(
            basis(false, 2 * h, 2 * (k - 1), x),
        ));
    }
}

pub proof fn lemma_columns(dst: bool, n: int, x: int)
    requires
        bounded_side(dst, n),
        0 <= x < n,
    ensures
        column_weight(dst, n, x, n as nat) <= column_limit_of(n),
    decreases n,
{
    if dst {
        lemma_sums_sine(x);
    } else if n == 4 {
        lemma_sums_four(x);
    } else {
        let h = n / 2;
        lemma_column_folds(h, x, h as nat);
        lemma_columns(false, h, folded(h, x));
        lemma_odd_weights(h, folded(h, x));
    }
}

} // verus!
