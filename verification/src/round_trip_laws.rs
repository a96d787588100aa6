//! What the transform and its inverse keep of a residual: without quantization between
//! them, they give it back up to a bounded rounding error.
//!
//! How far the matrices are from orthogonal, and what each of the four roundings on the way
//! can add, bounds the error of the pair.
use vstd::prelude::*;
use vstd::arithmetic::div_mod::lemma_fundamental_div_mod;
use vstd::arithmetic::power2::{lemma2_to64, lemma_pow2_pos, lemma_pow2_unfold, pow2};
use crate::arith::{abs, lemma_grid, lemma_ungrid, round_shift};
use crate::inverse::{half_synthesized, residual_shift, rows_first, synthesized};
use crate::matrix::{analysis, basis, sample, synthesis};
use crate::orthogonality::{
    bounded_side, column_limit_of, column_weight, gram, leak_limit, lemma_columns, lemma_leaks, lemma_rows, miss,
    misses, scale, weight,
};
use crate::transform::{coeff_max, coeff_min, coefficients_of, column_pass, columns_transformed, log2_of, row_pass};

verus! {

/// The first `k` terms of basis function `u` against a line of numbers.
spec fn taken(a: spec_fn(int) -> int, dst: bool, n: int, u: int, k: nat) -> int
    decreases k,
{
    if k == 0 {
        0
    } else {
        taken(a, dst, n, u, (k - 1) as nat) + basis(dst, n, u, k - 1) * a(k - 1)
    }
}

/// The first `k` terms of sample `x` from a line of numbers.
spec fn given(a: spec_fn(int) -> int, dst: bool, n: int, x: int, k: nat) -> int
    decreases k,
{
    if k == 0 {
        0
    } else {
        given(a, dst, n, x, (k - 1) as nat) + basis(dst, n, k - 1, x) * a(k - 1)
    }
}

proof fn lemma_mixed(p: int, q: int, s: int, t: int, e: int, v: int, w: int)
    ensures
        p * s + q * t + e * (p * v + q * w) == p * (s + e * v) + q * (t + e * w),
{
    let (a, b) = (e * v, e * w);
    assert(e * (p * v) == p * a) by (nonlinear_arith)
        requires
            a == e * v,
    ;
    assert(e * (q * w) == q * b) by (nonlinear_arith)
        requires
            b == e * w,
    ;
    let (x, y) = (p * v, q * w);
    assert(e * (x + y) == e * x + e * y) by (nonlinear_arith);
    assert(p * (s + a) == p * s + p * a) by (nonlinear_arith);
    assert(q * (t + b) == q * t + q * b) by (nonlinear_arith);
}

proof fn lemma_given_sum(
    a: spec_fn(int) -> int,
    b: spec_fn(int) -> int,
    c: spec_fn(int) -> int,
    p: int,
    q: int,
    dst: bool,
    n: int,
    x: int,
    k: nat,
)
    requires
        forall|u: int| 0 <= u < k ==> #[trigger] c(u) == p * a(u) + q * b(u),
    ensures
        given(c, dst, n, x, k) == p * given(a, dst, n, x, k) + q * given(b, dst, n, x, k),
    decreases k,
{
    if k == 0 {
        assert(p * 0 == 0 && q * 0 == 0) by (nonlinear_arith);
    } else {
        let m = (k - 1) as nat;
        lemma_given_sum(a, b, c, p, q, dst, n, x, m);
        let e = basis(dst, n, k - 1, x);
        let (s, t, v, w) = (given(a, dst, n, x, m), given(b, dst, n, x, m), a(k - 1), b(k - 1));
        assert(c(k - 1) == p * v + q * w);
        lemma_mixed(p, q, s, t, e, v, w);
    }
}

/// Samples from small numbers are bounded by the weight of their column.
proof fn lemma_given_weighed(a: spec_fn(int) -> int, limit: int, dst: bool, n: int, x: int, k: nat)
    requires
        limit >= 0,
        forall|u: int| 0 <= u < k ==> abs(#[trigger] a(u)) <= limit,
    ensures
        abs(given(a, dst, n, x, k)) <= column_weight(dst, n, x, k) * limit,
    decreases k,
{
    if k == 0 {
        assert(0 * limit == 0) by (nonlinear_arith);
    } else {
        lemma_given_weighed(a, limit, dst, n, x, (k - 1) as nat);
        let (e, v) = (basis(dst, n, k - 1, x), a(k - 1));
        let w = column_weight(dst, n, x, (k - 1) as nat);
        let f = abs(e);
        assert(abs(v) <= limit);
        assert(-(f * limit) <= e * v <= f * limit) by (nonlinear_arith)
            requires
                f == e || f == -e,
                f >= 0,
                -limit <= v <= limit,
        ;
        assert((w + f) * limit == w * limit + f * limit) by (nonlinear_arith);
    }
}

/// Samples from small numbers are small.
proof fn lemma_given_bound(a: spec_fn(int) -> int, limit: int, dst: bool, n: int, x: int)
    requires
        bounded_side(dst, n),
        0 <= x < n,
        limit >= 0,
        forall|u: int| 0 <= u < n ==> abs(#[trigger] a(u)) <= limit,
    ensures
        abs(given(a, dst, n, x, n as nat)) <= column_limit_of(n) * limit,
{
    lemma_given_weighed(a, limit, dst, n, x, n as nat);
    lemma_columns(dst, n, x);
    let (w, s) = (column_weight(dst, n, x, n as nat), column_limit_of(n));
    assert(w * limit <= s * limit) by (nonlinear_arith)
        requires
            w <= s,
            limit >= 0,
    ;
}

/// A basis function against small numbers is bounded by its weight.
proof fn lemma_taken_bound(a: spec_fn(int) -> int, limit: int, dst: bool, n: int, u: int, k: nat)
    requires
        limit >= 0,
        forall|x: int| 0 <= x < k ==> abs(#[trigger] a(x)) <= limit,
    ensures
        abs(taken(a, dst, n, u, k)) <= weight(dst, n, u, k) * limit,
    decreases k,
{
    if k == 0 {
        assert(0 * limit == 0) by (nonlinear_arith);
    } else {
        lemma_taken_bound(a, limit, dst, n, u, (k - 1) as nat);
        let (e, v) = (basis(dst, n, u, k - 1), a(k - 1));
        let w = weight(dst, n, u, (k - 1) as nat);
        let f = abs(e);
        assert(abs(v) <= limit);
        assert(-(f * limit) <= e * v <= f * limit) by (nonlinear_arith)
            requires
                f == e || f == -e,
                f >= 0,
                -limit <= v <= limit,
        ;
        assert((w + f) * limit == w * limit + f * limit) by (nonlinear_arith);
    }
}

/// The first `j` terms of a line against column `y`'s products with the others.
spec fn blended(a: spec_fn(int) -> int, dst: bool, n: int, y: int, j: nat, k: nat) -> int
    decreases j,
{
    if j == 0 {
        0
    } else {
        blended(a, dst, n, y, (j - 1) as nat, k) + a(j - 1) * gram(dst, n, y, j - 1, k)
    }
}

/// What a column of the matrix makes of one of its columns.
proof fn lemma_given_column(dst: bool, n: int, y: int, x: int, b: spec_fn(int) -> int, k: nat)
    requires
        forall|u: int| 0 <= u < k ==> #[trigger] b(u) == basis(dst, n, u, x),
    ensures
        given(b, dst, n, y, k) == gram(dst, n, y, x, k),
    decreases k,
{
    if k > 0 {
        lemma_given_column(dst, n, y, x, b, (k - 1) as nat);
        assert(b(k - 1) == basis(dst, n, k - 1, x));
    }
}

/// Synthesis of an analysis is the line against the products of the columns.
proof fn lemma_given_taken(a: spec_fn(int) -> int, dst: bool, n: int, y: int, j: nat, k: nat)
    ensures
        given(|u: int| taken(a, dst, n, u, j), dst, n, y, k) == blended(a, dst, n, y, j, k),
    decreases j,
{
    let c = |u: int| taken(a, dst, n, u, j);
    if j == 0 {
        lemma_given_zero(c, dst, n, y, k);
    } else {
        let m = (j - 1) as nat;
        let s = |u: int| taken(a, dst, n, u, m);
        let b = |u: int| basis(dst, n, u, j - 1);
        let v = a(j - 1);
        assert forall|u: int| 0 <= u < k implies #[trigger] c(u) == 1 * s(u) + v * b(u) by {
            let e = basis(dst, n, u, j - 1);
            assert(e * v == v * e) by (nonlinear_arith);
        }
        lemma_given_sum(s, b, c, 1, v, dst, n, y, k);
        lemma_given_taken(a, dst, n, y, m, k);
        lemma_given_column(dst, n, y, j - 1, b, k);
    }
}

proof fn lemma_given_zero(a: spec_fn(int) -> int, dst: bool, n: int, x: int, k: nat)
    requires
        forall|u: int| 0 <= u < k ==> #[trigger] a(u) == 0,
    ensures
        given(a, dst, n, x, k) == 0,
    decreases k,
{
    if k > 0 {
        lemma_given_zero(a, dst, n, x, (k - 1) as nat);
        let e = basis(dst, n, k - 1, x);
        assert(a(k - 1) == 0);
        assert(e * 0 == 0) by (nonlinear_arith);
    }
}

/// The blend is the line's own sample, scaled, up to what leaks.
proof fn lemma_blended(a: spec_fn(int) -> int, limit: int, dst: bool, n: int, y: int, j: nat)
    requires
        bounded_side(dst, n),
        0 <= y < n,
        j <= n,
        limit >= 0,
        forall|x: int| 0 <= x < n ==> abs(#[trigger] a(x)) <= limit,
    ensures
        abs(
            blended(a, dst, n, y, j, n as nat) - if y < j {
                4096 * n * a(y)
            } else {
                0
            },
        ) <= misses(dst, n, y, j) * limit,
    decreases j,
{
    if j == 0 {
        assert(0 * limit == 0) by (nonlinear_arith);
    } else {
        let m = (j - 1) as nat;
        lemma_blended(a, limit, dst, n, y, m);
        let (v, g) = (a(j - 1), gram(dst, n, y, j - 1, n as nat));
        let d = scale(n, y == j - 1);
        let l = abs(miss(dst, n, y, j - 1));
        assert(abs(v) <= limit);
        let e = g - d;
        assert(-(l * limit) <= v * e <= l * limit) by (nonlinear_arith)
            requires
                -limit <= v <= limit,
                -l <= e <= l,
        ;
        assert(v * g == v * e + v * d) by (nonlinear_arith)
            requires
                e == g - d,
        ;
        let w = misses(dst, n, y, m);
        assert((w + l) * limit == w * limit + l * limit) by (nonlinear_arith);
        if y == j - 1 {
            assert(v * (4096 * n) == 4096 * n * v) by (nonlinear_arith);
        } else {
            assert(v * 0 == 0) by (nonlinear_arith);
        }
    }
}

/// Analysis and synthesis of a line give it back, scaled, up to what leaks.
proof fn lemma_line_round_trip(a: spec_fn(int) -> int, limit: int, dst: bool, n: int, y: int)
    requires
        bounded_side(dst, n),
        0 <= y < n,
        limit >= 0,
        forall|x: int| 0 <= x < n ==> abs(#[trigger] a(x)) <= limit,
    ensures
        abs(given(|u: int| taken(a, dst, n, u, n as nat), dst, n, y, n as nat) - 4096 * n * a(y)) <= leak_limit(dst, n)
            * limit,
{
    lemma_given_taken(a, dst, n, y, n as nat, n as nat);
    lemma_blended(a, limit, dst, n, y, n as nat);
    lemma_leaks(dst, n, y);
    let (l, m) = (misses(dst, n, y, n as nat), leak_limit(dst, n));
    assert(l * limit <= m * limit) by (nonlinear_arith)
        requires
            l <= m,
            limit >= 0,
    ;
}

/// Synthesis across rows and analysis along them can be done in either order.
proof fn lemma_crossed(f: spec_fn(int, int) -> int, dst: bool, n: int, y: int, v: int, j: nat, k: nat)
    ensures
        given(|u: int| taken(|x: int| f(u, x), dst, n, v, j), dst, n, y, k) == taken(
            |x: int| given(|u: int| f(u, x), dst, n, y, k),
            dst,
            n,
            v,
            j,
        ),
    decreases j,
{
    let c = |u: int| taken(|x: int| f(u, x), dst, n, v, j);
    let g = |x: int| given(|u: int| f(u, x), dst, n, y, k);
    if j == 0 {
        lemma_given_zero(c, dst, n, y, k);
    } else {
        let m = (j - 1) as nat;
        let s = |u: int| taken(|x: int| f(u, x), dst, n, v, m);
        let b = |u: int| f(u, j - 1);
        let e = basis(dst, n, v, j - 1);
        assert forall|u: int| 0 <= u < k implies #[trigger] c(u) == 1 * s(u) + e * b(u) by {
            let row = |x: int| f(u, x);
            assert(taken(row, dst, n, v, j) == taken(row, dst, n, v, m) + e * row(j - 1));
        }
        lemma_given_sum(s, b, c, 1, e, dst, n, y, k);
        lemma_crossed(f, dst, n, y, v, m, k);
        assert(g(j - 1) == given(b, dst, n, y, k));
    }
}

/// A number rounded to a multiple of `2^shift` is off by half of that at most.
proof fn lemma_rounded(v: int, shift: nat)
    requires
        shift >= 1,
    ensures
        2 * abs(pow2(shift) * round_shift(v, shift) - v) <= pow2(shift),
{
    let b = pow2(shift) as int;
    let h = pow2((shift - 1) as nat) as int;
    lemma_pow2_unfold(shift);
    lemma_pow2_pos((shift - 1) as nat);
    lemma_fundamental_div_mod(v + h, b);
}

proof fn lemma_analysis_is_taken(
    data: Seq<i32>,
    start: int,
    step: int,
    a: spec_fn(int) -> int,
    dst: bool,
    n: int,
    u: int,
    k: nat,
)
    requires
        forall|j: int| 0 <= j < k ==> #[trigger] a(j) == sample(data, start, step, j),
    ensures
        analysis(data, start, step, dst, n, u, k) == taken(a, dst, n, u, k),
    decreases k,
{
    if k > 0 {
        lemma_analysis_is_taken(data, start, step, a, dst, n, u, (k - 1) as nat);
        assert(a(k - 1) == sample(data, start, step, k - 1));
    }
}

proof fn lemma_synthesis_is_given(
    data: Seq<i32>,
    start: int,
    step: int,
    a: spec_fn(int) -> int,
    dst: bool,
    n: int,
    x: int,
    k: nat,
)
    requires
        forall|j: int| 0 <= j < k ==> #[trigger] a(j) == sample(data, start, step, j),
    ensures
        synthesis(data, start, step, dst, n, x, k) == given(a, dst, n, x, k),
    decreases k,
{
    if k > 0 {
        lemma_synthesis_is_given(data, start, step, a, dst, n, x, (k - 1) as nat);
        assert(a(k - 1) == sample(data, start, step, k - 1));
    }
}

/// The entry in row `y` and column `x` of a block.
spec fn entry(s: Seq<i32>, n: int, y: int, x: int) -> int {
    s[y * n + x] as int
}

/// A blend across rows and a synthesis along them can be done in either order.
proof fn lemma_blend_crossed(f: spec_fn(int, int) -> int, dst: bool, n: int, y: int, x: int, j: nat, k: nat)
    ensures
        given(|u: int| blended(|z: int| f(u, z), dst, n, x, j, k), dst, n, y, k) == blended(
            |z: int| given(|u: int| f(u, z), dst, n, y, k),
            dst,
            n,
            x,
            j,
            k,
        ),
    decreases j,
{
    let c = |u: int| blended(|z: int| f(u, z), dst, n, x, j, k);
    let g = |z: int| given(|u: int| f(u, z), dst, n, y, k);
    if j == 0 {
        lemma_given_zero(c, dst, n, y, k);
    } else {
        let m = (j - 1) as nat;
        let s = |u: int| blended(|z: int| f(u, z), dst, n, x, m, k);
        let b = |u: int| f(u, j - 1);
        let e = gram(dst, n, x, j - 1, k);
        assert forall|u: int| 0 <= u < k implies #[trigger] c(u) == 1 * s(u) + e * b(u) by {
            let row = |z: int| f(u, z);
            assert(blended(row, dst, n, x, j, k) == blended(row, dst, n, x, m, k) + row(j - 1) * e);
            let v = row(j - 1);
            assert(v * e == e * v) by (nonlinear_arith);
        }
        lemma_given_sum(s, b, c, 1, e, dst, n, y, k);
        lemma_blend_crossed(f, dst, n, y, x, m, k);
        let w = given(b, dst, n, y, k);
        assert(g(j - 1) == w);
        assert(e * w == w * e) by (nonlinear_arith);
    }
}

proof fn lemma_blended_same(a: spec_fn(int) -> int, b: spec_fn(int) -> int, dst: bool, n: int, y: int, j: nat, k: nat)
    requires
        forall|x: int| 0 <= x < j ==> #[trigger] a(x) == b(x),
    ensures
        blended(a, dst, n, y, j, k) == blended(b, dst, n, y, j, k),
    decreases j,
{
    if j > 0 {
        lemma_blended_same(a, b, dst, n, y, (j - 1) as nat, k);
        assert(a(j - 1) == b(j - 1));
    }
}

proof fn lemma_taken_same(a: spec_fn(int) -> int, b: spec_fn(int) -> int, dst: bool, n: int, u: int, k: nat)
    requires
        forall|x: int| 0 <= x < k ==> #[trigger] a(x) == b(x),
    ensures
        taken(a, dst, n, u, k) == taken(b, dst, n, u, k),
    decreases k,
{
    if k > 0 {
        lemma_taken_same(a, b, dst, n, u, (k - 1) as nat);
        assert(a(k - 1) == b(k - 1));
    }
}

proof fn lemma_given_same(a: spec_fn(int) -> int, b: spec_fn(int) -> int, dst: bool, n: int, x: int, k: nat)
    requires
        forall|u: int| 0 <= u < k ==> #[trigger] a(u) == b(u),
    ensures
        given(a, dst, n, x, k) == given(b, dst, n, x, k),
    decreases k,
{
    if k > 0 {
        lemma_given_same(a, b, dst, n, x, (k - 1) as nat);
        assert(a(k - 1) == b(k - 1));
    }
}

/// What the first pass divides by.
spec fn first_unit(n: int) -> int {
    if n == 4 {
        2
    } else if n == 8 {
        4
    } else if n == 16 {
        8
    } else {
        16
    }
}

/// What the second pass divides by.
spec fn second_unit(n: int) -> int {
    if n == 4 {
        256
    } else if n == 8 {
        512
    } else if n == 16 {
        1024
    } else {
        2048
    }
}

proof fn lemma_units(n: int)
    requires
        n == 4 || n == 8 || n == 16 || n == 32,
    ensures
        pow2((log2_of(n) + 8 - 9) as nat) == first_unit(n),
        pow2((log2_of(n) + 6) as nat) == second_unit(n),
        pow2(7) == 128,
        pow2(12) == 4096,
        pow2(15) == 32768,
{
    lemma2_to64();
}

/// The products of a number with the scales of a block.
proof fn lemma_scales(n: int, a: int)
    requires
        n == 4 || n == 8 || n == 16 || n == 32,
    ensures
        n == 4 ==> first_unit(n) * a == 2 * a && second_unit(n) * a == 256 * a && 4096 * n * a == 16384 * a,
        n == 4 ==> 128 * second_unit(n) * a == 32768 * a && 64 * n * a == 256 * a && column_limit_of(n) * a == 247 * a,
        n == 8 ==> first_unit(n) * a == 4 * a && second_unit(n) * a == 512 * a && 4096 * n * a == 32768 * a,
        n == 8 ==> 128 * second_unit(n) * a == 65536 * a && 64 * n * a == 512 * a && column_limit_of(n) * a == 479 * a,
        n == 16 ==> first_unit(n) * a == 8 * a && second_unit(n) * a == 1024 * a && 4096 * n * a == 65536 * a,
        n == 16 ==> 128 * second_unit(n) * a == 131072 * a && 64 * n * a == 1024 * a && column_limit_of(n) * a == 940 * a,
        n == 32 ==> first_unit(n) * a == 16 * a && second_unit(n) * a == 2048 * a && 4096 * n * a == 131072 * a,
        n == 32 ==> 128 * second_unit(n) * a == 262144 * a && 64 * n * a == 2048 * a && column_limit_of(n) * a == 1862 * a,
{
    if n == 4 {
    } else if n == 8 {
    } else if n == 16 {
    } else {
    }
}

/// The products of a number with the limits of a matrix.
proof fn lemma_leak_scales(dst: bool, n: int, a: int)
    requires
        bounded_side(dst, n),
    ensures
        leak_limit(dst, n) * a == a * leak_limit(dst, n),
        leak_limit(dst, n) * a == if dst {
            45 * a
        } else if n == 4 {
            14 * a
        } else if n == 8 {
            142 * a
        } else if n == 16 {
            952 * a
        } else {
            3236 * a
        },
{
    let l = leak_limit(dst, n);
    assert(l * a == a * l) by (nonlinear_arith);
    if dst {
    } else if n == 4 {
    } else if n == 8 {
    } else if n == 16 {
    } else {
    }
}

/// A residual of 8-bit samples, of `most` at most.
spec fn small_residual(r: Seq<i32>, n: int, most: int) -> bool {
    &&& r.len() == n * n
    &&& 0 <= most <= 255
    &&& forall|i: int| 0 <= i < r.len() ==> -most <= #[trigger] r[i] <= most
}

/// Column `x` of a block.
spec fn column_of(s: Seq<i32>, n: int, x: int) -> spec_fn(int) -> int {
    |y: int| entry(s, n, y, x)
}

/// Row `y` of a block.
spec fn row_of(s: Seq<i32>, n: int, y: int) -> spec_fn(int) -> int {
    |x: int| entry(s, n, y, x)
}

/// The first pass: the column against the basis function, rounded.
proof fn lemma_first_pass(r: Seq<i32>, most: int, n: int, dst: bool, u: int, x: int)
    requires
        bounded_side(dst, n),
        small_residual(r, n, most),
        0 <= u < n,
        0 <= x < n,
    ensures
        ({
            let m = entry(columns_transformed(r, n, dst, 8), n, u, x);
            &&& 2 * abs(first_unit(n) * m - taken(column_of(r, n, x), dst, n, u, n as nat)) <= first_unit(n)
            &&& abs(m) <= 32641
        }),
{
    let a = column_of(r, n, x);
    lemma_units(n);
    assert forall|j: int| 0 <= j < n implies #[trigger] a(j) == sample(r, x, n, j) && abs(a(j)) <= 255 by {
        lemma_grid(j, x, n, n);
        assert(x + j * n == j * n + x);
    }
    lemma_analysis_is_taken(r, x, n, a, dst, n, u, n as nat);
    lemma_taken_bound(a, 255, dst, n, u, n as nat);
    lemma_rows(dst, n, u);
    let t = taken(a, dst, n, u, n as nat);
    assert(abs(t) <= 64 * n * 255);
    let shift = (log2_of(n) + 8 - 9) as nat;
    let q = round_shift(t, shift);
    lemma_rounded(t, shift);
    lemma_scales(n, q);
    assert(abs(q) <= 32641);
    lemma_grid(u, x, n, n);
    assert(column_pass(r, n, dst, 8, u, x) == q);
    assert(entry(columns_transformed(r, n, dst, 8), n, u, x) == q);
}

/// The second pass: the row against the basis function, rounded.
proof fn lemma_second_pass(r: Seq<i32>, most: int, n: int, dst: bool, ext: bool, u: int, v: int)
    requires
        bounded_side(dst, n),
        small_residual(r, n, most),
        0 <= u < n,
        0 <= v < n,
    ensures
        ({
            let mid = columns_transformed(r, n, dst, 8);
            let c = entry(coefficients_of(r, n, dst, 8, ext), n, u, v);
            2 * abs(second_unit(n) * c - taken(row_of(mid, n, u), dst, n, v, n as nat)) <= second_unit(n)
        }),
{
    let mid = columns_transformed(r, n, dst, 8);
    let a = row_of(mid, n, u);
    lemma_units(n);
    assert forall|j: int| 0 <= j < n implies #[trigger] a(j) == sample(mid, u * n, 1, j) && abs(a(j)) <= 32641 by {
        assert(u * n + j * 1 == u * n + j);
        lemma_first_pass(r, most, n, dst, u, j);
    }
    lemma_analysis_is_taken(mid, u * n, 1, a, dst, n, v, n as nat);
    lemma_taken_bound(a, 32641, dst, n, v, n as nat);
    lemma_rows(dst, n, v);
    let t = taken(a, dst, n, v, n as nat);
    assert(abs(t) <= 64 * n * 32641) by {
        let w = weight(dst, n, v, n as nat);
        assert(w * 32641 <= 64 * n * 32641);
    }
    let shift = (log2_of(n) + 6) as nat;
    let q = round_shift(t, shift);
    lemma_rounded(t, shift);
    lemma_scales(n, q);
    assert(abs(q) <= 32767);
    assert(coeff_min(8, ext) == -32768 && coeff_max(8, ext) == 32767);
    assert(row_pass(mid, n, dst, 8, ext, u, v) == q);
    lemma_grid(u, v, n, n);
    assert(entry(coefficients_of(r, n, dst, 8, ext), n, u, v) == q);
}

/// How far the column sums of the first pass lie from the residual, scaled.
spec fn column_error(most: int, dst: bool, n: int) -> int {
    leak_limit(dst, n) * most + column_limit_of(n) * (first_unit(n) / 2)
}

/// Column sums of the first pass give the residual back, scaled.
proof fn lemma_columns_back(r: Seq<i32>, most: int, n: int, dst: bool, y: int, x: int)
    requires
        bounded_side(dst, n),
        small_residual(r, n, most),
        0 <= y < n,
        0 <= x < n,
    ensures
        abs(
            first_unit(n) * given(column_of(columns_transformed(r, n, dst, 8), n, x), dst, n, y, n as nat) - 4096 * n
                * entry(r, n, y, x),
        ) <= column_error(most, dst, n),
{
    let k = n as nat;
    let p = first_unit(n);
    let a = column_of(r, n, x);
    let m = column_of(columns_transformed(r, n, dst, 8), n, x);
    let t = |u: int| taken(a, dst, n, u, k);
    let e = |u: int| p * m(u) - t(u);
    let c = |u: int| p * m(u);
    assert forall|j: int| 0 <= j < n implies abs(#[trigger] a(j)) <= most by {
        lemma_grid(j, x, n, n);
    }
    assert forall|u: int| 0 <= u < n implies abs(#[trigger] e(u)) <= p / 2 by {
        lemma_first_pass(r, most, n, dst, u, x);
    }
    assert forall|u: int| 0 <= u < k implies #[trigger] c(u) == 1 * t(u) + 1 * e(u) by {}
    assert forall|u: int| 0 <= u < k implies #[trigger] c(u) == p * m(u) + 0 * m(u) by {}
    lemma_given_sum(t, e, c, 1, 1, dst, n, y, k);
    lemma_given_sum(m, m, c, p, 0, dst, n, y, k);
    lemma_line_round_trip(a, most, dst, n, y);
    lemma_given_bound(e, p / 2, dst, n, y);
}

/// The most that a column sum of the first pass can be.
spec fn column_limit(most: int, dst: bool, n: int) -> int {
    (4096 * n * most + column_error(most, dst, n)) / first_unit(n)
}

/// The limits as numbers.
proof fn lemma_limits(most: int, dst: bool, n: int)
    requires
        bounded_side(dst, n),
        0 <= most <= 255,
    ensures
        n == 4 ==> column_error(most, dst, n) == leak_limit(dst, n) * most + 247,
        n == 4 ==> leak_limit(dst, n) * most <= 45 * most,
        n == 4 ==> column_limit(most, dst, n) == (16384 * most + column_error(most, dst, n)) / 2,
        n == 8 ==> column_error(most, dst, n) == 142 * most + 958,
        n == 8 ==> column_limit(most, dst, n) == (32768 * most + column_error(most, dst, n)) / 4,
        n == 16 ==> column_error(most, dst, n) == 952 * most + 3760,
        n == 16 ==> column_limit(most, dst, n) == (65536 * most + column_error(most, dst, n)) / 8,
        n == 32 ==> column_error(most, dst, n) == 3236 * most + 14896,
        n == 32 ==> column_limit(most, dst, n) == (131072 * most + column_error(most, dst, n)) / 16,
        0 <= column_limit(most, dst, n) <= 2_200_000,
{
    lemma_scales(n, most);
    lemma_leak_scales(dst, n, most);
    let e = column_error(most, dst, n);
    if n == 4 {
        assert(first_unit(n) / 2 == 1 && column_limit_of(n) * (first_unit(n) / 2) == 247);
        assert(4096 * n * most + e == 16384 * most + e && (4096 * n * most + e) / first_unit(n) == (16384 * most + e) / 2);
    } else if n == 8 {
        assert(first_unit(n) / 2 == 2 && column_limit_of(n) * (first_unit(n) / 2) == 958);
        assert(4096 * n * most + e == 32768 * most + e && (4096 * n * most + e) / first_unit(n) == (32768 * most + e) / 4);
    } else if n == 16 {
        assert(first_unit(n) / 2 == 4 && column_limit_of(n) * (first_unit(n) / 2) == 3760);
        assert(4096 * n * most + e == 65536 * most + e && (4096 * n * most + e) / first_unit(n) == (65536 * most + e) / 8);
    } else {
        assert(first_unit(n) / 2 == 8 && column_limit_of(n) * (first_unit(n) / 2) == 14896);
        assert(4096 * n * most + e == 131072 * most + e && (4096 * n * most + e) / first_unit(n) == (131072 * most + e) / 16);
    }
}

proof fn lemma_column_limit(r: Seq<i32>, most: int, n: int, dst: bool, y: int, x: int)
    requires
        bounded_side(dst, n),
        small_residual(r, n, most),
        0 <= y < n,
        0 <= x < n,
    ensures
        abs(given(column_of(columns_transformed(r, n, dst, 8), n, x), dst, n, y, n as nat)) <= column_limit(
            most,
            dst,
            n,
        ),
{
    lemma_columns_back(r, most, n, dst, y, x);
    lemma_grid(y, x, n, n);
    let v = entry(r, n, y, x);
    assert(-most <= v <= most);
    let g = given(column_of(columns_transformed(r, n, dst, 8), n, x), dst, n, y, n as nat);
    let whole = column_error(most, dst, n);
    lemma_limits(most, dst, n);
    lemma_scales(n, v);
    lemma_scales(n, g);
    if n == 4 {
        let t = 16384 * most + whole;
        assert(-t <= 2 * g <= t) by (nonlinear_arith)
            requires
                -most <= v <= most,
                -whole <= 2 * g - 16384 * v <= whole,
                t == 16384 * most + whole,
        ;
        assert(column_limit(most, dst, n) == t / 2);
        assert(-(t / 2) <= g <= t / 2) by (nonlinear_arith)
            requires
                -t <= 2 * g <= t,
        ;
    } else if n == 8 {
        let t = 32768 * most + whole;
        assert(-t <= 4 * g <= t) by (nonlinear_arith)
            requires
                -most <= v <= most,
                -whole <= 4 * g - 32768 * v <= whole,
                t == 32768 * most + whole,
        ;
        assert(column_limit(most, dst, n) == t / 4);
        assert(-(t / 4) <= g <= t / 4) by (nonlinear_arith)
            requires
                -t <= 4 * g <= t,
        ;
    } else if n == 16 {
        let t = 65536 * most + whole;
        assert(-t <= 8 * g <= t) by (nonlinear_arith)
            requires
                -most <= v <= most,
                -whole <= 8 * g - 65536 * v <= whole,
                t == 65536 * most + whole,
        ;
        assert(column_limit(most, dst, n) == t / 8);
        assert(-(t / 8) <= g <= t / 8) by (nonlinear_arith)
            requires
                -t <= 8 * g <= t,
        ;
    } else {
        let t = 131072 * most + whole;
        assert(-t <= 16 * g <= t) by (nonlinear_arith)
            requires
                -most <= v <= most,
                -whole <= 16 * g - 131072 * v <= whole,
                t == 131072 * most + whole,
        ;
        assert(column_limit(most, dst, n) == t / 16);
        assert(-(t / 16) <= g <= t / 16) by (nonlinear_arith)
            requires
                -t <= 16 * g <= t,
        ;
    }
}

/// What the second inverse pass may be off by, against the column sums.
spec fn row_error(most: int, dst: bool, n: int) -> int {
    leak_limit(dst, n) * column_limit(most, dst, n) + column_limit_of(n) * row_slack(n)
}

/// What the roundings of the second pass and of the first inverse pass add.
spec fn row_slack(n: int) -> int {
    column_limit_of(n) * (second_unit(n) / 2) + 64 * second_unit(n)
}

/// A column of coefficients gives a row of column sums back, against its basis function.
proof fn lemma_coefficients_back(r: Seq<i32>, most: int, n: int, dst: bool, ext: bool, y: int, v: int)
    requires
        bounded_side(dst, n),
        small_residual(r, n, most),
        0 <= y < n,
        0 <= v < n,
    ensures
        ({
            let mid = columns_transformed(r, n, dst, 8);
            let sums = |x: int| given(column_of(mid, n, x), dst, n, y, n as nat);
            let c = column_of(coefficients_of(r, n, dst, 8, ext), n, v);
            abs(second_unit(n) * given(c, dst, n, y, n as nat) - taken(sums, dst, n, v, n as nat)) <= column_limit_of(n)
                * (second_unit(n) / 2)
        }),
{
    let k = n as nat;
    let p = second_unit(n);
    let mid = columns_transformed(r, n, dst, 8);
    let coef = coefficients_of(r, n, dst, 8, ext);
    let sums = |x: int| given(column_of(mid, n, x), dst, n, y, k);
    let c = column_of(coef, n, v);
    let f = |u: int, x: int| entry(mid, n, u, x);
    let t = |u: int| taken(|x: int| f(u, x), dst, n, v, k);
    let e = |u: int| p * c(u) - t(u);
    let d = |u: int| p * c(u);
    assert forall|u: int| 0 <= u < n implies abs(#[trigger] e(u)) <= p / 2 by {
        lemma_second_pass(r, most, n, dst, ext, u, v);
        lemma_taken_same(row_of(mid, n, u), |x: int| f(u, x), dst, n, v, k);
    }
    assert forall|u: int| 0 <= u < k implies #[trigger] d(u) == 1 * t(u) + 1 * e(u) by {}
    assert forall|u: int| 0 <= u < k implies #[trigger] d(u) == p * c(u) + 0 * c(u) by {}
    lemma_given_sum(t, e, d, 1, 1, dst, n, y, k);
    lemma_given_sum(c, c, d, p, 0, dst, n, y, k);
    lemma_crossed(f, dst, n, y, v, k, k);
    let crossed = |x: int| given(|u: int| f(u, x), dst, n, y, k);
    assert forall|x: int| 0 <= x < k implies #[trigger] crossed(x) == sums(x) by {
        lemma_given_same(|u: int| f(u, x), column_of(mid, n, x), dst, n, y, k);
    }
    lemma_taken_same(crossed, sums, dst, n, v, k);
    lemma_given_bound(e, p / 2, dst, n, y);
}

/// The first inverse pass over columns, rounded. Nothing is clipped.
proof fn lemma_third_pass(r: Seq<i32>, most: int, n: int, dst: bool, ext: bool, y: int, v: int)
    requires
        bounded_side(dst, n),
        !rows_first(n),
        small_residual(r, n, most),
        0 <= y < n,
        0 <= v < n,
    ensures
        ({
            let coef = coefficients_of(r, n, dst, 8, ext);
            let g = entry(half_synthesized(coef, n, dst, 8, ext), n, y, v);
            &&& 2 * abs(128 * g - given(column_of(coef, n, v), dst, n, y, n as nat)) <= 128
            &&& abs(g) <= 32767
        }),
{
    let k = n as nat;
    let mid = columns_transformed(r, n, dst, 8);
    let coef = coefficients_of(r, n, dst, 8, ext);
    let c = column_of(coef, n, v);
    let sums = |x: int| given(column_of(mid, n, x), dst, n, y, k);
    lemma_units(n);
    assert forall|j: int| 0 <= j < n implies #[trigger] c(j) == sample(coef, v, n, j) by {
        assert(v + j * n == j * n + v);
    }
    lemma_synthesis_is_given(coef, v, n, c, dst, n, y, k);
    let limit = column_limit(most, dst, n);
    lemma_limits(most, dst, n);
    assert forall|x: int| 0 <= x < n implies abs(#[trigger] sums(x)) <= limit by {
        lemma_column_limit(r, most, n, dst, y, x);
    }
    lemma_taken_bound(sums, limit, dst, n, v, k);
    lemma_rows(dst, n, v);
    lemma_coefficients_back(r, most, n, dst, ext, y, v);
    let a = given(c, dst, n, y, k);
    let w = weight(dst, n, v, k);
    assert(w * limit <= 64 * n * limit) by (nonlinear_arith)
        requires
            w <= 64 * n,
            limit >= 0,
    ;
    lemma_scales(n, a);
    lemma_scales(n, limit);
    lemma_scales(n, second_unit(n) / 2);
    assert(abs(a) <= 4_194_000);
    lemma_rounded(a, 7);
    lemma_grid(y, v, n, n);
    assert(coeff_min(8, ext) == -32768 && coeff_max(8, ext) == 32767);
}

/// The second inverse pass gives the column sums back, scaled.
proof fn lemma_rows_back(r: Seq<i32>, most: int, n: int, dst: bool, ext: bool, y: int, x: int)
    requires
        bounded_side(dst, n),
        !rows_first(n),
        small_residual(r, n, most),
        0 <= y < n,
        0 <= x < n,
    ensures
        ({
            let mid = columns_transformed(r, n, dst, 8);
            let half = half_synthesized(coefficients_of(r, n, dst, 8, ext), n, dst, 8, ext);
            abs(
                128 * second_unit(n) * given(row_of(half, n, y), dst, n, x, n as nat) - 4096 * n * given(
                    column_of(mid, n, x),
                    dst,
                    n,
                    y,
                    n as nat,
                ),
            ) <= row_error(most, dst, n)
        }),
{
    let k = n as nat;
    let p = second_unit(n);
    let mid = columns_transformed(r, n, dst, 8);
    let coef = coefficients_of(r, n, dst, 8, ext);
    let half = half_synthesized(coef, n, dst, 8, ext);
    let g = row_of(half, n, y);
    let sums = |j: int| given(column_of(mid, n, j), dst, n, y, k);
    let t = |v: int| taken(sums, dst, n, v, k);
    let d = |v: int| 128 * p * g(v);
    let e = |v: int| 128 * p * g(v) - t(v);
    let limit = column_limit(most, dst, n);
    let slack = row_slack(n);
    lemma_limits(most, dst, n);
    assert forall|j: int| 0 <= j < n implies abs(#[trigger] sums(j)) <= limit by {
        lemma_column_limit(r, most, n, dst, y, j);
    }
    assert forall|v: int| 0 <= v < n implies abs(#[trigger] e(v)) <= slack by {
        lemma_third_pass(r, most, n, dst, ext, y, v);
        lemma_coefficients_back(r, most, n, dst, ext, y, v);
        let a = given(column_of(coef, n, v), dst, n, y, k);
        lemma_scales(n, a);
        lemma_scales(n, g(v));
    }
    let q = 128 * p;
    assert forall|v: int| 0 <= v < k implies #[trigger] d(v) == 1 * t(v) + 1 * e(v) by {}
    assert forall|v: int| 0 <= v < k implies #[trigger] d(v) == q * g(v) + 0 * g(v) by {}
    lemma_given_sum(t, e, d, 1, 1, dst, n, x, k);
    lemma_given_sum(g, g, d, q, 0, dst, n, x, k);
    lemma_line_round_trip(sums, limit, dst, n, x);
    lemma_slack_positive(n);
    lemma_given_bound(e, slack, dst, n, x);
}

proof fn lemma_slack_positive(n: int)
    requires
        n == 4 || n == 8 || n == 16 || n == 32,
    ensures
        n == 4 ==> row_slack(n) == 48000 && column_limit_of(n) * row_slack(n) == 11856000,
        n == 8 ==> row_slack(n) == 155392 && column_limit_of(n) * row_slack(n) == 74432768,
        n == 16 ==> row_slack(n) == 546816 && column_limit_of(n) * row_slack(n) == 514007040,
        n == 32 ==> row_slack(n) == 2037760 && column_limit_of(n) * row_slack(n) == 3794309120,
        row_slack(n) >= 0,
{
    if n == 4 {
    } else if n == 8 {
    } else if n == 16 {
    } else {
    }
}

/// A row of coefficients gives the row of the first pass back, scaled, up to what leaks.
proof fn lemma_row_back(r: Seq<i32>, most: int, n: int, dst: bool, ext: bool, u: int, x: int)
    requires
        bounded_side(dst, n),
        small_residual(r, n, most),
        0 <= u < n,
        0 <= x < n,
    ensures
        ({
            let mid = columns_transformed(r, n, dst, 8);
            let c = row_of(coefficients_of(r, n, dst, 8, ext), n, u);
            abs(
                second_unit(n) * given(c, dst, n, x, n as nat) - blended(
                    row_of(mid, n, u),
                    dst,
                    n,
                    x,
                    n as nat,
                    n as nat,
                ),
            ) <= column_limit_of(n) * (second_unit(n) / 2)
        }),
{
    let k = n as nat;
    let p = second_unit(n);
    let mid = columns_transformed(r, n, dst, 8);
    let m = row_of(mid, n, u);
    let c = row_of(coefficients_of(r, n, dst, 8, ext), n, u);
    let t = |v: int| taken(m, dst, n, v, k);
    let e = |v: int| p * c(v) - t(v);
    let d = |v: int| p * c(v);
    assert forall|v: int| 0 <= v < n implies abs(#[trigger] e(v)) <= p / 2 by {
        lemma_second_pass(r, most, n, dst, ext, u, v);
    }
    assert forall|v: int| 0 <= v < k implies #[trigger] d(v) == 1 * t(v) + 1 * e(v) by {}
    assert forall|v: int| 0 <= v < k implies #[trigger] d(v) == p * c(v) + 0 * c(v) by {}
    lemma_given_sum(t, e, d, 1, 1, dst, n, x, k);
    lemma_given_sum(c, c, d, p, 0, dst, n, x, k);
    lemma_given_taken(m, dst, n, x, k, k);
    lemma_given_bound(e, p / 2, dst, n, x);
}

/// The first inverse pass over rows, rounded. Nothing is clipped.
proof fn lemma_third_pass_rows(r: Seq<i32>, most: int, n: int, dst: bool, ext: bool, u: int, x: int)
    requires
        bounded_side(dst, n),
        rows_first(n),
        small_residual(r, n, most),
        0 <= u < n,
        0 <= x < n,
    ensures
        ({
            let coef = coefficients_of(r, n, dst, 8, ext);
            let g = entry(half_synthesized(coef, n, dst, 8, ext), n, u, x);
            &&& 2 * abs(128 * g - given(row_of(coef, n, u), dst, n, x, n as nat)) <= 128
            &&& abs(g) <= 32767
        }),
{
    let k = n as nat;
    let mid = columns_transformed(r, n, dst, 8);
    let coef = coefficients_of(r, n, dst, 8, ext);
    let c = row_of(coef, n, u);
    let m = row_of(mid, n, u);
    lemma_units(n);
    assert forall|j: int| 0 <= j < n implies #[trigger] c(j) == sample(coef, u * n, 1, j) by {
        assert(u * n + j * 1 == u * n + j);
    }
    lemma_synthesis_is_given(coef, u * n, 1, c, dst, n, x, k);
    assert forall|j: int| 0 <= j < n implies abs(#[trigger] m(j)) <= 32641 by {
        lemma_first_pass(r, most, n, dst, u, j);
    }
    lemma_blended(m, 32641, dst, n, x, k);
    lemma_leaks(dst, n, x);
    lemma_row_back(r, most, n, dst, ext, u, x);
    let a = given(c, dst, n, x, k);
    lemma_scales(n, a);
    lemma_scales(n, m(x));
    lemma_scales(n, second_unit(n) / 2);
    let l = misses(dst, n, x, k);
    assert(l * 32641 <= 3236 * 32641);
    assert(abs(a) <= 4_194_000);
    lemma_rounded(a, 7);
    lemma_grid(u, x, n, n);
    assert(coeff_min(8, ext) == -32768 && coeff_max(8, ext) == 32767);
}

/// The second inverse pass over columns gives the column sums back, scaled.
proof fn lemma_columns_back_again(r: Seq<i32>, most: int, n: int, dst: bool, ext: bool, y: int, x: int)
    requires
        bounded_side(dst, n),
        rows_first(n),
        small_residual(r, n, most),
        0 <= y < n,
        0 <= x < n,
    ensures
        ({
            let mid = columns_transformed(r, n, dst, 8);
            let half = half_synthesized(coefficients_of(r, n, dst, 8, ext), n, dst, 8, ext);
            abs(
                128 * second_unit(n) * given(column_of(half, n, x), dst, n, y, n as nat) - 4096 * n * given(
                    column_of(mid, n, x),
                    dst,
                    n,
                    y,
                    n as nat,
                ),
            ) <= row_error(most, dst, n)
        }),
{
    let k = n as nat;
    let p = second_unit(n);
    let mid = columns_transformed(r, n, dst, 8);
    let coef = coefficients_of(r, n, dst, 8, ext);
    let half = half_synthesized(coef, n, dst, 8, ext);
    let g = column_of(half, n, x);
    let f = |u: int, z: int| entry(mid, n, u, z);
    let sums = |z: int| given(|u: int| f(u, z), dst, n, y, k);
    let t = |u: int| blended(|z: int| f(u, z), dst, n, x, k, k);
    let d = |u: int| 128 * p * g(u);
    let e = |u: int| 128 * p * g(u) - t(u);
    let limit = column_limit(most, dst, n);
    let slack = row_slack(n);
    lemma_limits(most, dst, n);
    assert forall|z: int| 0 <= z < n implies abs(#[trigger] sums(z)) <= limit by {
        lemma_column_limit(r, most, n, dst, y, z);
        lemma_given_same(|u: int| f(u, z), column_of(mid, n, z), dst, n, y, k);
    }
    assert forall|u: int| 0 <= u < n implies abs(#[trigger] e(u)) <= slack by {
        lemma_third_pass_rows(r, most, n, dst, ext, u, x);
        lemma_row_back(r, most, n, dst, ext, u, x);
        lemma_blended_same(row_of(mid, n, u), |z: int| f(u, z), dst, n, x, k, k);
        let a = given(row_of(coef, n, u), dst, n, x, k);
        lemma_scales(n, a);
        lemma_scales(n, g(u));
    }
    let q = 128 * p;
    assert forall|u: int| 0 <= u < k implies #[trigger] d(u) == 1 * t(u) + 1 * e(u) by {}
    assert forall|u: int| 0 <= u < k implies #[trigger] d(u) == q * g(u) + 0 * g(u) by {}
    lemma_given_sum(t, e, d, 1, 1, dst, n, y, k);
    lemma_given_sum(g, g, d, q, 0, dst, n, y, k);
    lemma_blend_crossed(f, dst, n, y, x, k, k);
    lemma_blended(sums, limit, dst, n, x, k);
    lemma_leaks(dst, n, x);
    let (l, m) = (misses(dst, n, x, k), leak_limit(dst, n));
    assert(l * limit <= m * limit) by (nonlinear_arith)
        requires
            l <= m,
            limit >= 0,
    ;
    lemma_given_same(|u: int| f(u, x), column_of(mid, n, x), dst, n, y, k);
    lemma_slack_positive(n);
    lemma_given_bound(e, slack, dst, n, y);
}

/// What a residual becomes that is transformed and transformed back.
pub open spec fn transformed_back(r: Seq<i32>, n: int, dst: bool, ext: bool) -> Seq<i32> {
    let out = synthesized(coefficients_of(r, n, dst, 8, ext), n, dst, 8, ext);
    Seq::new((n * n) as nat, |i: int| round_shift(out[i] as int, residual_shift(8, ext) as nat) as i32)
}

proof fn lemma_four_back(most: int, out: int, sum: int, v: int, back: int, limit: int)
    requires
        0 <= most <= 255,
        limit <= (16384 * most + 45 * most + 247) / 2,
        abs(32768 * out - 16384 * sum) <= 45 * limit + 11856000,
        abs(2 * sum - 16384 * v) <= 45 * most + 247,
        2 * abs(4096 * back - out) <= 4096,
    ensures
        abs(v - back) <= 2,
{
}

proof fn lemma_eight_back(most: int, out: int, sum: int, v: int, back: int, limit: int)
    requires
        0 <= most <= 255,
        limit <= (32768 * most + 142 * most + 958) / 4,
        abs(65536 * out - 32768 * sum) <= 142 * limit + 74432768,
        abs(4 * sum - 32768 * v) <= 142 * most + 958,
        2 * abs(4096 * back - out) <= 4096,
    ensures
        abs(v - back) <= 3,
{
}

proof fn lemma_sixteen_back(most: int, out: int, sum: int, v: int, back: int, limit: int)
    requires
        0 <= most <= 255,
        limit <= (65536 * most + 952 * most + 3760) / 8,
        abs(131072 * out - 65536 * sum) <= 952 * limit + 514007040,
        abs(8 * sum - 65536 * v) <= 952 * most + 3760,
        2 * abs(4096 * back - out) <= 4096,
    ensures
        abs(v - back) <= 8,
        most <= 84 ==> abs(v - back) <= 3,
{
}

proof fn lemma_thirty_two_back(most: int, out: int, sum: int, v: int, back: int, limit: int)
    requires
        0 <= most <= 255,
        limit <= (131072 * most + 3236 * most + 14896) / 16,
        abs(262144 * out - 131072 * sum) <= 3236 * limit + 3794309120,
        abs(16 * sum - 131072 * v) <= 3236 * most + 14896,
        2 * abs(4096 * back - out) <= 4096,
    ensures
        abs(v - back) <= 16,
        most <= 17 ==> abs(v - back) <= 4,
{
}

/// The bounds of the passes, side by side with the size of the block.
proof fn lemma_numbers(most: int, dst: bool, n: int, out: int, sum: int, v: int, back: int)
    requires
        bounded_side(dst, n),
        0 <= most <= 255,
        abs(128 * second_unit(n) * out - 4096 * n * sum) <= row_error(most, dst, n),
        abs(first_unit(n) * sum - 4096 * n * v) <= column_error(most, dst, n),
        2 * abs(4096 * back - out) <= 4096,
    ensures
        abs(v - back) <= drift(n, most),
{
    lemma_limits(most, dst, n);
    lemma_slack_positive(n);
    let limit = column_limit(most, dst, n);
    lemma_leak_scales(dst, n, limit);
    lemma_leak_scales(dst, n, most);
    lemma_scales(n, out);
    lemma_scales(n, sum);
    lemma_scales(n, v);
    if n == 4 {
        lemma_four_back(most, out, sum, v, back, limit);
    } else if n == 8 {
        lemma_eight_back(most, out, sum, v, back, limit);
    } else if n == 16 {
        lemma_sixteen_back(most, out, sum, v, back, limit);
    } else {
        lemma_thirty_two_back(most, out, sum, v, back, limit);
    }
}

/// The most that a sample of a residual of `most` at most drifts by in a block of side `n`.
/// The larger the block, the more the rounding of the matrix weighs, and with it the size of
/// the residual.
pub open spec fn drift(n: int, most: int) -> int {
    if n == 4 {
        2
    } else if n == 8 || (n == 16 && most <= 84) {
        3
    } else if n == 16 {
        8
    } else if most <= 17 {
        4
    } else {
        16
    }
}

/// A sample that is transformed back is the second inverse pass, rounded.
proof fn lemma_back_is_rounded(r: Seq<i32>, most: int, n: int, dst: bool, ext: bool, y: int, x: int)
    requires
        bounded_side(dst, n),
        small_residual(r, n, most),
        0 <= y < n,
        0 <= x < n,
    ensures
        ({
            let half = half_synthesized(coefficients_of(r, n, dst, 8, ext), n, dst, 8, ext);
            transformed_back(r, n, dst, ext)[y * n + x] == round_shift(
                if rows_first(n) {
                    given(column_of(half, n, x), dst, n, y, n as nat)
                } else {
                    given(row_of(half, n, y), dst, n, x, n as nat)
                },
                12,
            )
        }),
{
    let k = n as nat;
    let coef = coefficients_of(r, n, dst, 8, ext);
    let half = half_synthesized(coef, n, dst, 8, ext);
    lemma_grid(y, x, n, n);
    lemma_units(n);
    let out = if rows_first(n) {
        let g = column_of(half, n, x);
        assert forall|j: int| 0 <= j < n implies #[trigger] g(j) == sample(half, x, n, j) && abs(g(j)) <= 32767 by {
            assert(x + j * n == j * n + x);
            lemma_third_pass_rows(r, most, n, dst, ext, j, x);
        }
        lemma_synthesis_is_given(half, x, n, g, dst, n, y, k);
        lemma_given_bound(g, 32767, dst, n, y);
        given(g, dst, n, y, k)
    } else {
        let g = row_of(half, n, y);
        assert forall|j: int| 0 <= j < n implies #[trigger] g(j) == sample(half, y * n, 1, j) && abs(g(j)) <= 32767 by {
            assert(y * n + j * 1 == y * n + j);
            lemma_third_pass(r, most, n, dst, ext, y, j);
        }
        lemma_synthesis_is_given(half, y * n, 1, g, dst, n, x, k);
        lemma_given_bound(g, 32767, dst, n, x);
        given(g, dst, n, x, k)
    };
    lemma_scales(n, 32767);
    assert(abs(out) <= 1862 * 32767);
    lemma_rounded(out, 12);
    assert(residual_shift(8, ext) == 12);
}

/// The transform and its inverse give a residual of 8-bit samples back within a bounded
/// drift: within two at side 4, the sine transform's included, and three at side 8. At side
/// 16 a residual of 84 at most comes back within three and any other within eight; at side
/// 32 one of 17 at most within four and any other within sixteen.
pub proof fn law_transform_pair_keeps_the_residual(r: Seq<i32>, most: int, n: int, dst: bool, ext: bool, i: int)
    requires
        n == 4 || (!dst && (n == 8 || n == 16 || n == 32)),
        r.len() == n * n,
        0 <= most <= 255,
        forall|j: int| 0 <= j < r.len() ==> -most <= #[trigger] r[j] <= most,
        0 <= i < n * n,
    ensures
        abs(r[i] - transformed_back(r, n, dst, ext)[i]) <= drift(n, most),
{
    let k = n as nat;
    lemma_ungrid(i, n, n);
    let (y, x) = (i / n, i % n);
    let mid = columns_transformed(r, n, dst, 8);
    let half = half_synthesized(coefficients_of(r, n, dst, 8, ext), n, dst, 8, ext);
    let sum = given(column_of(mid, n, x), dst, n, y, k);
    let out = if rows_first(n) {
        lemma_columns_back_again(r, most, n, dst, ext, y, x);
        given(column_of(half, n, x), dst, n, y, k)
    } else {
        lemma_rows_back(r, most, n, dst, ext, y, x);
        given(row_of(half, n, y), dst, n, x, k)
    };
    lemma_columns_back(r, most, n, dst, y, x);
    lemma_back_is_rounded(r, most, n, dst, ext, y, x);
    lemma_units(n);
    lemma_rounded(out, 12);
    assert(entry(r, n, y, x) == r[i]);
    lemma_numbers(most, dst, n, out, sum, r[i] as int, round_shift(out, 12));
}

} // verus!
