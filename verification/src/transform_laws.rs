//! What the forward transform does to a flat block, and how transform and quantization are
//! put together.
use vstd::prelude::*;
use vstd::arithmetic::div_mod::lemma_fundamental_div_mod_converse;
use vstd::arithmetic::power2::{lemma_pow2_pos, lemma_pow2_unfold, pow2};
use crate::arith::{lemma_grid, lemma_ungrid, round_shift};
use crate::matrix::{analysis, basis, block_side, cosine, sample};
use crate::quant_simd::Backend;
use crate::transform::{
    chroma_qp_of, coeff_max, coeff_min, coefficients_of, column_pass, columns_transformed, forward_transform, log2_of,
    quantize, quantize_with_backend, row_pass, transform_and_quantize, transform_range, Component, ForwardBlockParams, PredMode, ScalingFactorMatrix, TransformError,
};

verus! {

/// The sum of the first `n` values of a function.
spec fn total(f: spec_fn(int) -> int, n: nat) -> int
    decreases n,
{
    if n == 0 {
        0
    } else {
        total(f, (n - 1) as nat) + f(n - 1)
    }
}

/// The first value can be taken out of a sum as well as the last.
proof fn lemma_total_front(f: spec_fn(int) -> int, n: nat)
    requires
        n > 0,
    ensures
        total(f, n) == f(0) + total(|i: int| f(i + 1), (n - 1) as nat),
    decreases n,
{
    if n > 1 {
        lemma_total_front(f, (n - 1) as nat);
    } else {
        assert(total(f, 0) == 0);
        assert(total(|i: int| f(i + 1), 0) == 0);
    }
}

proof fn lemma_total_same(f: spec_fn(int) -> int, g: spec_fn(int) -> int, n: nat)
    requires
        forall|i: int| 0 <= i < n ==> #[trigger] f(i) == g(i),
    ensures
        total(f, n) == total(g, n),
    decreases n,
{
    if n > 0 {
        lemma_total_same(f, g, (n - 1) as nat);
        assert(f(n - 1) == g(n - 1));
    }
}

/// A sum is the same from the other end.
proof fn lemma_total_reversed(f: spec_fn(int) -> int, n: nat)
    ensures
        total(|i: int| f(n - 1 - i), n) == total(f, n),
    decreases n,
{
    if n > 0 {
        let k = (n - 1) as nat;
        let g = |i: int| f(n - 1 - i);
        let h = |i: int| f(k - 1 - i);
        lemma_total_front(g, n);
        lemma_total_reversed(f, k);
        lemma_total_same(|i: int| g(i + 1), h, k);
    }
}

proof fn lemma_total_split(f: spec_fn(int) -> int, m: nat, n: nat)
    ensures
        total(f, m + n) == total(f, m) + total(|i: int| f(m + i), n),
    decreases n,
{
    if n > 0 {
        lemma_total_split(f, m, (n - 1) as nat);
    } else {
        assert(total(|i: int| f(m + i), 0) == 0);
    }
}

proof fn lemma_total_negated(f: spec_fn(int) -> int, n: nat)
    ensures
        total(|i: int| -f(i), n) == -total(f, n),
    decreases n,
{
    if n > 0 {
        lemma_total_negated(f, (n - 1) as nat);
    }
}

/// Half a turn on, or mirrored in it, the cosine changes sign; a whole turn on, or
/// mirrored in it, it does not.
pub(crate) proof fn lemma_cosine_mirrored(m: int, u: int)
    ensures
        u % 2 == 1 ==> cosine(64 * u - m) == -cosine(m),
        u % 2 == 0 ==> cosine(64 * u - m) == cosine(m),
{
    let k = u / 2;
    let turn = m % 128;
    if u % 2 == 0 {
        assert(64 * u == 128 * k);
        assert((64 * u - m) % 128 == (128 - turn) % 128);
    } else {
        assert(64 * u == 128 * k + 64);
        assert((64 * u - m) % 128 == (192 - turn) % 128);
    }
}

/// A row of the cosine matrix with angle step `a`.
spec fn row_of(a: int) -> spec_fn(int) -> int {
    |x: int| cosine(a * (2 * x + 1))
}

/// Every row but the constant one sums to zero.
proof fn lemma_row_sum(a: int, n: nat, u: int)
    requires
        a * n == 32 * u,
        1 <= u < n,
        n == 2 || n == 4 || n == 8 || n == 16 || n == 32,
    ensures
        total(row_of(a), n) == 0,
    decreases u,
{
    let f = row_of(a);
    if u % 2 == 1 {
        let g = |i: int| f(n - 1 - i);
        let h = |i: int| -f(i);
        assert forall|i: int| 0 <= i < n implies #[trigger] g(i) == h(i) by {
            let t = a * (2 * i + 1);
            assert(a * (2 * (n - 1 - i) + 1) == 2 * (a * n) - t) by (nonlinear_arith)
                requires
                    t == a * (2 * i + 1),
            ;
            lemma_cosine_mirrored(t, u);
        }
        lemma_total_reversed(f, n);
        lemma_total_same(g, h, n);
        lemma_total_negated(f, n);
    } else {
        let m = (n / 2) as nat;
        let g = |i: int| f(m + i);
        let h = |i: int| f(m - 1 - i);
        assert(n == 2 * m);
        assert forall|i: int| 0 <= i < m implies #[trigger] g(i) == h(i) by {
            let t = a * (2 * (m - 1 - i) + 1);
            assert(a * (2 * (m + i) + 1) == 2 * (a * n) - t) by (nonlinear_arith)
                requires
                    t == a * (2 * (m - 1 - i) + 1),
                    n == 2 * m,
            ;
            lemma_cosine_mirrored(t, u);
        }
        lemma_total_split(f, m, m);
        lemma_total_reversed(f, m);
        lemma_total_same(g, h, m);
        assert(a * m == 32 * (u / 2)) by (nonlinear_arith)
            requires
                a * n == 32 * u,
                n == 2 * m,
                u == 2 * (u / 2),
        ;
        lemma_row_sum(a, m, u / 2);
    }
}

/// The product of a basis function with a flat line.
proof fn lemma_flat_analysis(data: Seq<i32>, start: int, step: int, n: int, u: int, v: int, k: nat)
    requires
        forall|j: int| 0 <= j < k ==> #[trigger] sample(data, start, step, j) == v,
    ensures
        analysis(data, start, step, false, n, u, k) == total(row_of(u * (32int / n)), k) * v,
    decreases k,
{
    if k > 0 {
        lemma_flat_analysis(data, start, step, n, u, v, (k - 1) as nat);
        assert(sample(data, start, step, k - 1) == v);
        let a = total(row_of(u * (32int / n)), (k - 1) as nat);
        let b = basis(false, n, u, k - 1);
        assert((a + b) * v == a * v + b * v) by (nonlinear_arith);
    } else {
        assert(0 * v == 0) by (nonlinear_arith);
    }
}

/// Every basis function but the constant one is blind to a flat line.
proof fn lemma_flat_vanishes(data: Seq<i32>, start: int, step: int, n: int, u: int, v: int)
    requires
        block_side(false, n),
        1 <= u < n,
        forall|j: int| 0 <= j < n ==> #[trigger] sample(data, start, step, j) == v,
    ensures
        analysis(data, start, step, false, n, u, n as nat) == 0,
{
    lemma_flat_analysis(data, start, step, n, u, v, n as nat);
    let s = 32int / n;
    assert(s * n == 32);
    assert((u * s) * n == 32 * u) by (nonlinear_arith)
        requires
            s * n == 32,
    ;
    lemma_row_sum(u * s, n as nat, u);
    assert(0 * v == 0) by (nonlinear_arith);
}

proof fn lemma_round_zero(shift: nat)
    requires
        shift > 0,
    ensures
        round_shift(0, shift) == 0,
{
    let p = pow2((shift - 1) as nat) as int;
    lemma_pow2_unfold(shift);
    lemma_pow2_pos((shift - 1) as nat);
    lemma_fundamental_div_mod_converse(p, 2 * p, 0, p);
}

/// The first pass leaves a flat block its first row alone, and that one flat.
proof fn lemma_flat_columns(residual: Seq<i32>, n: int, bit_depth: int, v: i32, u: int, x: int)
    requires
        block_side(false, n),
        8 <= bit_depth <= 16,
        residual.len() == n * n,
        forall|i: int| 0 <= i < residual.len() ==> #[trigger] residual[i] == v,
        0 <= u < n,
        0 <= x < n,
    ensures
        u >= 1 ==> column_pass(residual, n, false, bit_depth, u, x) == 0,
        column_pass(residual, n, false, bit_depth, 0, x) == column_pass(residual, n, false, bit_depth, 0, 0),
{
    assert forall|j: int| 0 <= j < n implies #[trigger] sample(residual, x, n, j) == v by {
        lemma_grid(j, x, n, n);
        assert(x + j * n == j * n + x);
    }
    assert forall|j: int| 0 <= j < n implies #[trigger] sample(residual, 0, n, j) == v by {
        lemma_grid(j, 0, n, n);
        assert(0 + j * n == j * n + 0);
    }
    if u >= 1 {
        lemma_flat_vanishes(residual, x, n, n, u, v as int);
        lemma_round_zero((log2_of(n) + bit_depth - 9) as nat);
    }
    lemma_flat_analysis(residual, x, n, n, 0, v as int, n as nat);
    lemma_flat_analysis(residual, 0, n, n, 0, v as int, n as nat);
}

/// A flat residual transforms to a block whose only coefficient is the first.
pub proof fn law_flat_residual_has_one_coefficient(residual: Seq<i32>, n: int, bit_depth: int, ext: bool, v: i32)
    requires
        block_side(false, n),
        8 <= bit_depth <= 16,
        residual.len() == n * n,
        forall|i: int| 0 <= i < residual.len() ==> #[trigger] residual[i] == v,
    ensures
        forall|i: int| 1 <= i < n * n ==> #[trigger] coefficients_of(residual, n, false, bit_depth, ext)[i] == 0,
{
    let mid = columns_transformed(residual, n, false, bit_depth);
    let first = column_pass(residual, n, false, bit_depth, 0, 0) as i32;
    assert forall|i: int| 1 <= i < n * n implies #[trigger] coefficients_of(residual, n, false, bit_depth, ext)[i] == 0 by {
        lemma_ungrid(i, n, n);
        let (u, c) = (i / n, i % n);
        let row = if u == 0 {
            first as int
        } else {
            0
        };
        assert forall|j: int| 0 <= j < n implies #[trigger] sample(mid, u * n, 1, j) == row by {
            lemma_grid(u, j, n, n);
            assert(u * n + j * 1 == u * n + j);
            lemma_flat_columns(residual, n, bit_depth, v, u, j);
        }
        if c >= 1 {
            lemma_flat_vanishes(mid, u * n, 1, n, c, row);
        } else {
            assert(u >= 1);
            lemma_flat_analysis(mid, u * n, 1, n, c, row, n as nat);
            let t = total(row_of(c * (32int / n)), n as nat);
            assert(t * 0 == 0) by (nonlinear_arith);
        }
        lemma_round_zero((log2_of(n) + 6) as nat);
        assert(row_pass(mid, n, false, bit_depth, ext, u, c) == 0) by {
            lemma_coefficient_range(bit_depth, ext);
        }
    }
}

/// Zero lies in the range of a coefficient.
proof fn lemma_coefficient_range(bit_depth: int, ext: bool)
    requires
        8 <= bit_depth <= 16,
    ensures
        coeff_min(bit_depth, ext) <= 0 <= coeff_max(bit_depth, ext),
{
    lemma_pow2_pos(transform_range(bit_depth, ext) as nat);
}

/// The chroma QP follows the sum of the luma QP and the offset alone, never falls as that
/// sum rises, stays codable, and is at its finest in 4:2:0.
pub proof fn law_chroma_qp_follows_the_sum(q1: int, o1: int, q2: int, o2: int, bit_depth: int, chroma_array_type: int)
    requires
        bit_depth >= 8,
        q1 + o1 <= q2 + o2,
    ensures
        ({
            let top = 51 + 6 * (bit_depth - 8);
            let (a, b) = (
                chroma_qp_of(q1, o1, bit_depth, chroma_array_type),
                chroma_qp_of(q2, o2, bit_depth, chroma_array_type),
            );
            &&& a <= b
            &&& q1 + o1 == q2 + o2 ==> a == b
            &&& 0 <= a <= top
            &&& 0 <= b <= top
            &&& chroma_qp_of(q1, o1, bit_depth, 1) <= a
        }),
{
}

/// Quantization gives the same on every instruction set: the levels, and the refusals.
pub proof fn law_backends_quantize_alike(
    backend: Backend,
    coefficients: &[i32],
    n_tbs: usize,
    q_p: u32,
    bit_depth: u8,
    ext: bool,
    intra: bool,
    scaling: Option<&ScalingFactorMatrix>,
    a: Result<Vec<i32>, TransformError>,
    b: Result<Vec<i32>, TransformError>,
)
    requires
        call_ensures(quantize_with_backend, (backend, coefficients, n_tbs, q_p, bit_depth, ext, intra, scaling), a),
        call_ensures(
            quantize_with_backend,
            (Backend::Scalar, coefficients, n_tbs, q_p, bit_depth, ext, intra, scaling),
            b,
        ),
    ensures
        same_outcome(a, b),
{
}

/// The same levels, or the same refusal.
pub open spec fn same_outcome(a: Result<Vec<i32>, TransformError>, b: Result<Vec<i32>, TransformError>) -> bool {
    match (a, b) {
        (Ok(x), Ok(y)) => x@ == y@,
        (Err(x), Err(y)) => x == y,
        _ => false,
    }
}

/// Transforming and quantizing a block is the forward transform and then quantization, with
/// the sine transform for intra luma blocks of side 4 alone; the first refusal is returned.
pub proof fn law_transform_and_quantize_is_both(
    residual: &[i32],
    scaling: Option<&ScalingFactorMatrix>,
    params: ForwardBlockParams,
    whole: Result<Vec<i32>, TransformError>,
    first: Result<Vec<i32>, TransformError>,
    behind: Result<Vec<i32>, TransformError>,
    middle: &[i32],
)
    requires
        call_ensures(transform_and_quantize, (residual, scaling, params), whole),
        call_ensures(
            forward_transform,
            (
                residual,
                params.n_tbs,
                params.n_tbs == 4 && params.pred_mode == PredMode::Intra && params.component == Component::Luma,
                params.bit_depth,
                params.extended_precision,
            ),
            first,
        ),
        first matches Ok(c) ==> middle@ == c@ && call_ensures(
            quantize,
            (
                middle,
                params.n_tbs,
                params.q_p,
                params.bit_depth,
                params.extended_precision,
                params.pred_mode == PredMode::Intra,
                scaling,
            ),
            behind,
        ),
    ensures
        match first {
            Ok(_) => same_outcome(whole, behind),
            Err(_) => same_outcome(whole, first),
        },
{
}

} // verus!
