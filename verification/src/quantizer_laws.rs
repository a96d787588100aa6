//! Laws of the quantizer: its scales, where it rounds, and the QP that chroma takes.
use vstd::prelude::*;
use vstd::arithmetic::div_mod::lemma_fundamental_div_mod;
use vstd::arithmetic::power2::{lemma2_to64, lemma2_to64_rest, lemma_pow2_pos, lemma_pow2_unfold, pow2};
use crate::arith::{abs, lemma_grid, min};
use crate::inverse::LEVEL_SCALE;
use crate::matrix::{analysis, block_side, sample};
use crate::quant::{column_second, deadzone, deadzone_level, q_bits, row_coefficients, row_first, rows_transformed};
use crate::transform::{
    chroma_qp, coeff_max, coefficients_of, column_pass, columns_transformed, level_at, log2_of, luma_qp, quant_factor,
    quant_shift, quantize, rounding, row_pass, takes_dst, transform_range, Component, PredMode, ScalingFactorMatrix, TransformError, QUANT_SCALE,
};

verus! {

/// The sixth power.
pub open spec fn sixth(v: int) -> int {
    (v * v * v) * (v * v * v)
}

/// The scales of both directions: the decoder's grow by the sixth root of two from QP to QP,
/// each the nearest integer to `2 ^ ( ( 32 + k ) / 6 )`, and the quantizer's are their nearest
/// reciprocals out of `2 ^ 20`.
pub proof fn law_scales_are_reciprocal(k: int)
    requires
        0 <= k < 6,
    ensures
        sixth(2 * LEVEL_SCALE@[k] - 1) < 64 * pow2((32 + k) as nat) < sixth(2 * LEVEL_SCALE@[k] + 1),
        2 * abs(QUANT_SCALE@[k] * LEVEL_SCALE@[k] - 0x10_0000) <= LEVEL_SCALE@[k],
{
    lemma2_to64();
    lemma2_to64_rest();
    assert(LEVEL_SCALE@[0] == 40 && LEVEL_SCALE@[1] == 45 && LEVEL_SCALE@[2] == 51 && LEVEL_SCALE@[3] == 57
        && LEVEL_SCALE@[4] == 64 && LEVEL_SCALE@[5] == 72);
    assert(QUANT_SCALE@[0] == 26214 && QUANT_SCALE@[1] == 23302 && QUANT_SCALE@[2] == 20560 && QUANT_SCALE@[3] == 18396
        && QUANT_SCALE@[4] == 16384 && QUANT_SCALE@[5] == 14564);
    assert(sixth(79) < 64 * 0x1_0000_0000 < sixth(81)) by (nonlinear_arith);
    assert(sixth(89) < 64 * 0x2_0000_0000 < sixth(91)) by (nonlinear_arith);
    assert(sixth(101) < 64 * 0x4_0000_0000 < sixth(103)) by (nonlinear_arith);
    assert(sixth(113) < 64 * 0x8_0000_0000 < sixth(115)) by (nonlinear_arith);
    assert(sixth(127) < 64 * 0x10_0000_0000 < sixth(129)) by (nonlinear_arith);
    assert(sixth(143) < 64 * 0x20_0000_0000 < sixth(145)) by (nonlinear_arith);
    if k == 0 {
    } else if k == 1 {
    } else if k == 2 {
    } else if k == 3 {
    } else if k == 4 {
    } else {
    }
}

/// `size` is `scaled / p` rounded down once `part / whole` has been added, unless `most` stops
/// it.
pub open spec fn rounds(size: int, scaled: int, p: int, part: int, whole: int, most: int) -> bool {
    &&& 0 <= size <= most
    &&& whole * (size * p) <= whole * scaled + part * p
    &&& size < most ==> whole * scaled + part * p < whole * ((size + 1) * p)
}

proof fn lemma_rounds(scaled: int, p: int, part: int, whole: int, most: int)
    requires
        scaled >= 0,
        p > 0,
        0 <= part,
        whole > 0,
        most >= 0,
    ensures
        rounds(min(most, (scaled + part * p / whole) / p), scaled, p, part, whole, most),
{
    let kp = part * p;
    let r = kp / whole;
    assert(kp >= 0) by (nonlinear_arith)
        requires
            kp == part * p,
            part >= 0,
            p > 0,
    ;
    lemma_fundamental_div_mod(kp, whole);
    assert(whole * r <= kp < whole * (r + 1)) by (nonlinear_arith)
        requires
            kp == whole * r + kp % whole,
            0 <= kp % whole < whole,
    ;
    assert(r >= 0) by (nonlinear_arith)
        requires
            kp < whole * (r + 1),
            kp >= 0,
            whole > 0,
    ;
    let t = scaled + r;
    let q = t / p;
    lemma_fundamental_div_mod(t, p);
    assert(q >= 0) by (nonlinear_arith)
        requires
            t == p * q + t % p,
            0 <= t % p < p,
            t >= 0,
    ;
    let size = min(most, q);
    assert(size * p <= t) by (nonlinear_arith)
        requires
            size <= q,
            t == p * q + t % p,
            0 <= t % p,
            p > 0,
    ;
    assert(whole * (size * p) <= whole * t) by (nonlinear_arith)
        requires
            size * p <= t,
            whole > 0,
    ;
    assert(whole * t == whole * scaled + whole * r) by (nonlinear_arith)
        requires
            t == scaled + r,
    ;
    if size < most {
        assert(t + 1 <= (size + 1) * p) by (nonlinear_arith)
            requires
                size == q,
                t == p * q + t % p,
                t % p < p,
        ;
        assert(whole * (t + 1) <= whole * ((size + 1) * p)) by (nonlinear_arith)
            requires
                t + 1 <= (size + 1) * p,
                whole > 0,
        ;
        assert(whole * (t + 1) == whole * scaled + whole * (r + 1)) by (nonlinear_arith)
            requires
                t == scaled + r,
        ;
    }
}

/// A level is the scaled coefficient rounded down once a third of a step, 171 parts of 512,
/// has been added for intra blocks, and a sixth, 85 parts of 512, for others. A step is two
/// to the power of 14 and of every sixth QP, less the bits that the transform grew by.
pub proof fn law_levels_round_at_thirds(
    coefficients: &[i32],
    n_tbs: usize,
    q_p: u32,
    bit_depth: u8,
    ext: bool,
    intra: bool,
    r: Result<Vec<i32>, TransformError>,
    i: int,
)
    requires
        block_side(false, n_tbs as int),
        8 <= bit_depth <= 16,
        coefficients@.len() == n_tbs * n_tbs,
        call_ensures(quantize, (coefficients, n_tbs, q_p, bit_depth, ext, intra, None::<&ScalingFactorMatrix>), r),
        0 <= i < n_tbs * n_tbs,
    ensures
        r matches Ok(l) && {
            let c = coefficients@[i] as int;
            let shift = 14 + q_p as int / 6 + transform_range(bit_depth as int, ext) - bit_depth - log2_of(n_tbs as int);
            &&& l@.len() == n_tbs * n_tbs
            &&& c > 0 ==> l@[i] >= 0
            &&& c < 0 ==> l@[i] <= 0
            &&& c == 0 ==> l@[i] == 0
            &&& rounds(
                abs(l@[i] as int),
                abs(c) * QUANT_SCALE@[q_p as int % 6],
                pow2(shift as nat) as int,
                if intra {
                    171
                } else {
                    85
                },
                512,
                pow2(transform_range(bit_depth as int, ext) as nat) - 1,
            )
        },
{
    let c = coefficients@[i] as int;
    let (n, q, b) = (n_tbs as int, q_p as int, bit_depth as int);
    let shift = quant_shift(q, b, n, ext) as nat;
    let p = pow2(shift) as int;
    lemma_pow2_pos(shift);
    lemma_pow2_pos(transform_range(b, ext) as nat);
    let factor = QUANT_SCALE@[q % 6] as int;
    assert(factor > 0);
    assert(quant_factor(q, None, i) == factor);
    let part: int = if intra {
        171
    } else {
        85
    };
    assert(abs(c) * factor >= 0) by (nonlinear_arith)
        requires
            abs(c) >= 0,
            factor > 0,
    ;
    assert(0 * factor == 0) by (nonlinear_arith);
    lemma_rounds(abs(c) * factor, p, part, 512, coeff_max(b, ext));
    let level = level_at(coefficients@, n, q, b, ext, intra, None, i);
    lemma2_to64();
    if ext && b > 9 {
        if b + 6 > 15 && b + 6 < 31 {
            vstd::arithmetic::power2::lemma_pow2_strictly_increases((b + 6) as nat, 31);
        }
    }
    assert(coeff_max(b, ext) <= i32::MAX);
    assert(rounding(shift, intra) == part * p / 512);
    let size = min(coeff_max(b, ext), (abs(c) * factor + part * p / 512) / p);
    assert(abs(level) == size);
    if c == 0 {
        assert(part * p / 512 < p);
        assert((part * p / 512) / p == 0) by {
            vstd::arithmetic::div_mod::lemma_basic_div(part * p / 512, p);
        }
    }
}

/// The second quantizer adds half as much before it rounds down: 171 parts of 1024 for intra
/// blocks and 85 for others.
pub proof fn law_deadzone_levels_round_at_sixths(
    coefficients: &[i32],
    n_tbs: usize,
    q_p: u32,
    bit_depth: u8,
    intra: bool,
    out: Vec<i32>,
    i: int,
)
    requires
        block_side(false, n_tbs as int),
        8 <= bit_depth <= 16,
        coefficients@.len() == n_tbs * n_tbs,
        call_ensures(crate::quant::quantize, (coefficients, n_tbs, q_p, bit_depth, intra), out),
        0 <= i < n_tbs * n_tbs,
    ensures
        ({
            let c = coefficients@[i] as int;
            let shift = 29 + q_p as int / 6 - bit_depth - log2_of(n_tbs as int);
            &&& out@.len() == n_tbs * n_tbs
            &&& c >= 0 ==> out@[i] >= 0
            &&& c <= 0 ==> out@[i] <= 0
            &&& rounds(
                abs(out@[i] as int),
                abs(c) * QUANT_SCALE@[q_p as int % 6],
                pow2(shift as nat) as int,
                if intra {
                    171
                } else {
                    85
                },
                1024,
                32767,
            )
        }),
{
    let c = coefficients@[i] as int;
    let (n, q, b) = (n_tbs as int, q_p as int, bit_depth as int);
    let bits = q_bits(q, b, n) as nat;
    let p = pow2(bits) as int;
    lemma_pow2_pos(bits);
    lemma_pow2_unfold(bits);
    lemma2_to64();
    let factor = QUANT_SCALE@[q % 6] as int;
    assert(factor > 0);
    let part: int = if intra {
        171
    } else {
        85
    };
    assert(abs(c) * factor >= 0) by (nonlinear_arith)
        requires
            abs(c) >= 0,
            factor > 0,
    ;
    lemma_rounds(abs(c) * factor, p, part, 1024, 32767);
    let half = pow2((bits - 1) as nat) as int;
    assert(p == 2 * half);
    assert(half * part == part * half) by (nonlinear_arith);
    assert(part * p == 2 * (part * half)) by (nonlinear_arith)
        requires
            p == 2 * half,
    ;
    assert(part * p / 1024 == deadzone(bits, intra));
    assert(coeff_max(b, false) == 32767);
    assert(out@[i] == deadzone_level(c, n, q, b, intra));
    if c == 0 {
        assert(0 * factor == 0) by (nonlinear_arith);
        assert(part * p / 1024 < p);
        vstd::arithmetic::div_mod::lemma_basic_div(part * p / 1024, p);
    }
}

/// A scaling matrix divides: a flat one of 16 changes nothing, and any other entry `m` takes
/// the place of 16, as `16 / m` of the flat factor rounded down.
pub proof fn law_scaling_matrix_divides(
    q_p: int,
    m: Seq<u16>,
    i: int,
    coefficients: Seq<i32>,
    n: int,
    depth: int,
    ext: bool,
    intra: bool,
)
    requires
        q_p >= 0,
        m[i] >= 1,
    ensures
        m[i] * quant_factor(q_p, Some(m), i) <= 16 * quant_factor(q_p, None, i) < m[i] * (quant_factor(q_p, Some(m), i)
            + 1),
        m[i] == 16 ==> level_at(coefficients, n, q_p, depth, ext, intra, Some(m), i) == level_at(
            coefficients,
            n,
            q_p,
            depth,
            ext,
            intra,
            None,
            i,
        ),
{
    let scale = QUANT_SCALE@[q_p % 6] as int;
    let d = m[i] as int;
    lemma_fundamental_div_mod(scale * 16, d);
    let q = (scale * 16) / d;
    assert(d * q <= 16 * scale < d * (q + 1)) by (nonlinear_arith)
        requires
            scale * 16 == d * q + (scale * 16) % d,
            0 <= (scale * 16) % d < d,
    ;
    if d == 16 {
        assert(q == scale) by (nonlinear_arith)
            requires
                d == 16,
                d * q <= 16 * scale < d * (q + 1),
        ;
        assert(quant_factor(q_p, Some(m), i) == quant_factor(q_p, None, i));
    }
}

/// Chroma in 4:2:0 follows luma up to 29; from there on it stands still at every one of 29,
/// 34, 36, 38, 40 and 42 and rises by one at every other QP, up to 57. The other formats follow
/// luma up to 51. Above 8 bits both shift by six a bit.
pub proof fn law_chroma_qp_steps(qp: i32, depth: u8, kind: u8, here: u32, next: u32, luma: u32)
    requires
        8 <= depth <= 16,
        -6 * (depth - 8) <= qp <= 57,
        call_ensures(chroma_qp, (qp, 0i32, depth, kind), here),
        call_ensures(chroma_qp, ((qp + 1) as i32, 0i32, depth, kind), next),
        call_ensures(luma_qp, (qp, depth), luma),
    ensures
        luma == qp + 6 * (depth - 8),
        kind == 1 && qp <= 29 ==> here == luma,
        kind == 1 ==> (next == here <==> (qp == 29 || qp == 34 || qp == 36 || qp == 38 || qp == 40 || qp == 42 || qp
            == 57)),
        kind != 1 && qp <= 51 ==> here == luma,
        kind != 1 ==> (next == here <==> qp >= 51),
        here <= next <= here + 1,
{
}

proof fn lemma_same_lines(
    a: Seq<i32>,
    a_start: int,
    a_step: int,
    b: Seq<i32>,
    b_start: int,
    b_step: int,
    dst: bool,
    n: int,
    u: int,
    k: nat,
)
    requires
        forall|j: int| 0 <= j < k ==> #[trigger] sample(a, a_start, a_step, j) == sample(b, b_start, b_step, j),
    ensures
        analysis(a, a_start, a_step, dst, n, u, k) == analysis(b, b_start, b_step, dst, n, u, k),
    decreases k,
{
    if k > 0 {
        lemma_same_lines(a, a_start, a_step, b, b_start, b_step, dst, n, u, (k - 1) as nat);
        assert(sample(a, a_start, a_step, k - 1) == sample(b, b_start, b_step, k - 1));
    }
}

/// Rows and columns of a square block exchanged.
pub open spec fn turned(r: Seq<i32>, t: Seq<i32>, n: int) -> bool {
    &&& r.len() == n * n
    &&& t.len() == n * n
    &&& forall|y: int, x: int| 0 <= y < n && 0 <= x < n ==> #[trigger] r[y * n + x] == t[x * n + y]
}

proof fn lemma_first_passes(r: Seq<i32>, t: Seq<i32>, n: int, dst: bool, depth: int, y: int, u: int)
    requires
        block_side(dst, n) || block_side(false, n),
        8 <= depth <= 16,
        turned(r, t, n),
        0 <= y < n,
        0 <= u < n,
    ensures
        rows_transformed(r, n, dst, depth)[y * n + u] == columns_transformed(t, n, dst, depth)[u * n + y],
{
    lemma2_to64();
    lemma_grid(y, u, n, n);
    lemma_grid(u, y, n, n);
    assert forall|j: int| 0 <= j < n implies #[trigger] sample(r, y * n, 1, j) == sample(t, y, n, j) by {
        assert(y * n + j * 1 == y * n + j);
        assert(y + j * n == j * n + y);
        assert(r[y * n + j] == t[j * n + y]);
    }
    lemma_same_lines(r, y * n, 1, t, y, n, dst, n, u, n as nat);
    assert(row_first(r, n, dst, depth, y, u) == column_pass(t, n, dst, depth, u, y));
}

/// The two transforms agree: the one that takes rows first gives, for a block, what the one that
/// takes columns first gives for the block with rows and columns exchanged.
pub proof fn law_row_and_column_transforms_agree(
    residual: &[i32],
    exchanged: &[i32],
    n_tbs: usize,
    pred_mode: PredMode,
    component: Component,
    bit_depth: u8,
    by_rows: Vec<i32>,
    by_columns: Result<Vec<i32>, TransformError>,
)
    requires
        block_side(false, n_tbs as int),
        8 <= bit_depth <= 16,
        turned(residual@, exchanged@, n_tbs as int),
        call_ensures(
            crate::quant::forward_transform,
            (residual, n_tbs, pred_mode, component, bit_depth),
            by_rows,
        ),
        call_ensures(
            crate::transform::forward_transform,
            (
                exchanged,
                n_tbs,
                n_tbs == 4 && pred_mode == PredMode::Intra && component == Component::Luma,
                bit_depth,
                false,
            ),
            by_columns,
        ),
    ensures
        by_columns matches Ok(c) && turned(by_rows@, c@, n_tbs as int),
{
    let (n, depth) = (n_tbs as int, bit_depth as int);
    let dst = takes_dst(n, pred_mode, component);
    let (r, t) = (residual@, exchanged@);
    let mid = rows_transformed(r, n, dst, depth);
    let mid_t = columns_transformed(t, n, dst, depth);
    assert(n * n >= 0) by (nonlinear_arith)
        requires
            n >= 0,
    ;
    assert forall|u: int, x: int| 0 <= u < n && 0 <= x < n implies #[trigger] row_coefficients(r, n, dst, depth)[u * n
        + x] == coefficients_of(t, n, dst, depth, false)[x * n + u] by {
        lemma2_to64();
        lemma_grid(u, x, n, n);
        lemma_grid(x, u, n, n);
        assert forall|j: int| 0 <= j < n implies #[trigger] sample(mid, x, n, j) == sample(mid_t, x * n, 1, j) by {
            lemma_first_passes(r, t, n, dst, depth, j, x);
            assert(x + j * n == j * n + x);
            assert(x * n + j * 1 == x * n + j);
        }
        lemma_same_lines(mid, x, n, mid_t, x * n, 1, dst, n, u, n as nat);
        assert(column_second(mid, n, dst, depth, u, x) == row_pass(mid_t, n, dst, depth, false, x, u));
    }
}

} // verus!
