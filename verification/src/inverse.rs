//! The decoder's scaling and transformation processes, by which the encoder
//! reconstructs: from levels to a residual block.
use vstd::prelude::*;
use vstd::arithmetic::div_mod::{lemma_fundamental_div_mod, lemma_fundamental_div_mod_converse};
use vstd::arithmetic::power2::{lemma2_to64, lemma2_to64_rest, lemma_pow2_pos, pow2};
use crate::arith::{clip, lemma_grid, lemma_pow2_bound, lemma_ungrid, max, power, round_shift, shift_round};
use crate::cabac::clip3;
use crate::matrix::{block_side, synthesis, synthesis_product};
use crate::transform::{
    block_error, coeff_max, coeff_min, coeff_range, log2_of, log2_tbs, matrix_view, quantize_error, takes_dst,
    transform_range, use_dst, Component, PredMode, ScalingFactorMatrix, TransformError,
};

verus! {

/// `levelScale`, indexed by `qP % 6`.
pub const LEVEL_SCALE: [i32; 6] = [40, 45, 51, 57, 64, 72];

/// The scaling factor at a position; 16 where there is no list.
pub open spec fn scaling_factor(scaling: Option<Seq<u16>>, i: int) -> int {
    match scaling {
        Some(m) => m[i] as int,
        None => 16,
    }
}

/// The right shift of the scaling process.
pub open spec fn scaling_shift(bit_depth: int, n: int, ext: bool) -> int {
    bit_depth + log2_of(n) + 10 - transform_range(bit_depth, ext)
}

/// A level scaled back to a coefficient.
pub open spec fn scaled(
    levels: Seq<i32>,
    n: int,
    q_p: int,
    bit_depth: int,
    ext: bool,
    scaling: Option<Seq<u16>>,
    i: int,
) -> int {
    clip3(
        coeff_min(bit_depth, ext),
        coeff_max(bit_depth, ext),
        round_shift(
            levels[i] * scaling_factor(scaling, i) * (LEVEL_SCALE@[q_p % 6] * pow2((q_p / 6) as nat)),
            scaling_shift(bit_depth, n, ext) as nat,
        ),
    )
}

/// The coefficients that levels are scaled back to.
pub open spec fn scaled_block(
    levels: Seq<i32>,
    n: int,
    q_p: int,
    bit_depth: int,
    ext: bool,
    scaling: Option<Seq<u16>>,
) -> Seq<i32> {
    Seq::new((n * n) as nat, |i: int| scaled(levels, n, q_p, bit_depth, ext, scaling, i) as i32)
}

/// Floor division of a wide number by a positive one.
fn div_floor_wide(x: i128, d: i128) -> (q: i128)
    requires
        0 < d <= 0x1_0000_0000_0000_0000_0000,
        -0x1000_0000_0000_0000_0000_0000_0000_0000 <= x <= 0x1000_0000_0000_0000_0000_0000_0000_0000,
    ensures
        q == x as int / d as int,
{
    if x >= 0 {
        (x as u128 / d as u128) as i128
    } else {
        let up: u128 = (-x + (d - 1)) as u128 / d as u128;
        proof {
            let n = -x + (d - 1);
            let q = n as int / d as int;
            let r = n as int % d as int;
            lemma_fundamental_div_mod(n as int, d as int);
            assert(d * q == q * d) by (nonlinear_arith);
            assert((-q) * d == -(q * d)) by (nonlinear_arith);
            lemma_fundamental_div_mod_converse(x as int, d as int, -q, (d - 1) - r);
            vstd::arithmetic::div_mod::lemma_div_pos_is_pos(n as int, d as int);
            vstd::arithmetic::div_mod::lemma_div_is_ordered_by_denominator(n as int, 1, d as int);
        }
        -(up as i128)
    }
}

/// The scaling process: levels back to transform coefficients.
pub fn scale_coefficients(
    levels: &[i32],
    n_tbs: usize,
    q_p: u32,
    bit_depth: u8,
    extended_precision: bool,
    scaling: Option<&ScalingFactorMatrix>,
) -> (r: Result<Vec<i32>, TransformError>)
    requires
        q_p <= 215,
        scaling matches Some(m) ==> m.wf(),
    ensures
        match r {
            Ok(d) => quantize_error(n_tbs, bit_depth, levels@.len(), scaling) is None && d@ == scaled_block(
                levels@,
                n_tbs as int,
                q_p as int,
                bit_depth as int,
                extended_precision,
                matrix_view(scaling),
            ),
            Err(e) => quantize_error(n_tbs, bit_depth, levels@.len(), scaling) == Some(e),
        },
{
    let log2: u32 = match log2_tbs(n_tbs) {
        Some(l) => l,
        None => return Err(TransformError::InvalidBlockSize(n_tbs)),
    };
    if bit_depth < 8 || bit_depth > 16 {
        return Err(TransformError::InvalidBitDepth(bit_depth));
    }
    let count: usize = n_tbs * n_tbs;
    if levels.len() != count {
        return Err(TransformError::LengthMismatch { expected: count, got: levels.len() });
    }
    if let Some(m) = scaling {
        assert(m.dim * m.dim <= 255 * 255) by (nonlinear_arith)
            requires
                0 <= m.dim <= 255,
        ;
        let m_count: usize = m.dim as usize * m.dim as usize;
        if m_count != count {
            return Err(TransformError::LengthMismatch { expected: count, got: m_count });
        }
    }
    let range: u32 = if extended_precision && bit_depth > 9 {
        bit_depth as u32 + 6
    } else {
        15
    };
    let bd_shift: u32 = bit_depth as u32 + log2 + 10 - range;
    let (lowest, highest) = coeff_range(bit_depth, extended_precision);
    let k: usize = (q_p % 6) as usize;
    proof {
        lemma2_to64();
        lemma2_to64_rest();
        lemma_pow2_bound((q_p / 6) as nat, 35);
        lemma_pow2_bound(bd_shift as nat, 16);
        lemma_pow2_bound((bd_shift - 1) as nat, 16);
    }
    let scale: i128 = LEVEL_SCALE[k] as i128;
    let octave: i128 = power(q_p / 6) as i128;
    assert(0 <= scale * octave <= 72 * 0x8_0000_0000) by (nonlinear_arith)
        requires
            40 <= scale <= 72,
            1 <= octave <= 0x8_0000_0000,
    ;
    let factor: i128 = scale * octave;
    let half: i128 = power(bd_shift - 1) as i128;
    let whole: i128 = power(bd_shift) as i128;
    let ghost n = n_tbs as int;
    let ghost list = matrix_view(scaling);
    let mut out: Vec<i32> = Vec::new();
    let mut i: usize = 0;
    while i < count
        invariant
            i <= count,
            count == n * n,
            block_side(false, n),
            n == n_tbs,
            levels@.len() == count,
            list == matrix_view(scaling),
            scaling matches Some(m) ==> m.coef@.len() == count,
            8 <= bit_depth <= 16,
            bd_shift == scaling_shift(bit_depth as int, n, extended_precision),
            half == pow2((bd_shift - 1) as nat),
            whole == pow2(bd_shift as nat),
            0 < half <= 0x1_0000,
            0 < whole <= 0x1_0000,
            factor == LEVEL_SCALE@[q_p as int % 6] * pow2((q_p as int / 6) as nat),
            0 <= factor <= 72 * 0x8_0000_0000,
            lowest == coeff_min(bit_depth as int, extended_precision),
            highest == coeff_max(bit_depth as int, extended_precision),
            lowest <= highest,
            out@.len() == i,
            forall|j: int|
                0 <= j < i ==> #[trigger] out@[j] == scaled(
                    levels@,
                    n,
                    q_p as int,
                    bit_depth as int,
                    extended_precision,
                    list,
                    j,
                ),
        decreases count - i,
    {
        let m: i128 = match scaling {
            Some(s) => s.coef[i] as i128,
            None => 16,
        };
        let l: i128 = levels[i] as i128;
        proof {
            assert(-0x8000_0000_0000 <= l * m <= 0x8000_0000_0000) by (nonlinear_arith)
                requires
                    -0x8000_0000 <= l <= 0x7fff_ffff,
                    0 <= m <= 0xffff,
            ;
            let x = l * m;
            assert(-0x8000_0000_0000 * (72 * 0x8_0000_0000) <= x * factor <= 0x8000_0000_0000 * (72 * 0x8_0000_0000))
                by (nonlinear_arith)
                requires
                    -0x8000_0000_0000 <= x <= 0x8000_0000_0000,
                    0 <= factor <= 72 * 0x8_0000_0000,
            ;
        }
        let value: i128 = div_floor_wide(l * m * factor + half, whole);
        let bounded: i32 = if value < lowest as i128 {
            lowest
        } else if value > highest as i128 {
            highest
        } else {
            value as i32
        };
        out.push(bounded);
        i = i + 1;
    }
    assert(out@ =~= scaled_block(levels@, n, q_p as int, bit_depth as int, extended_precision, list));
    Ok(out)
}

/// Which lines the first synthesis pass runs along: the rows of the largest blocks, the
/// columns of the others.
pub open spec fn rows_first(n: int) -> bool {
    n == 32
}

/// Sample (`x`, `y`) synthesized from its row or from its column.
pub open spec fn line_synthesis(d: Seq<i32>, n: int, dst: bool, row: bool, y: int, x: int) -> int {
    if row {
        synthesis(d, y * n, 1, dst, n, x, n as nat)
    } else {
        synthesis(d, x, n, dst, n, y, n as nat)
    }
}

/// The first synthesis pass at row `y` and column `x`.
pub open spec fn first_synthesis(d: Seq<i32>, n: int, dst: bool, bit_depth: int, ext: bool, y: int, x: int) -> int {
    clip3(
        coeff_min(bit_depth, ext),
        coeff_max(bit_depth, ext),
        round_shift(line_synthesis(d, n, dst, rows_first(n), y, x), 7),
    )
}

/// The first synthesis pass over a block.
pub open spec fn half_synthesized(d: Seq<i32>, n: int, dst: bool, bit_depth: int, ext: bool) -> Seq<i32> {
    Seq::new((n * n) as nat, |i: int| first_synthesis(d, n, dst, bit_depth, ext, i / n, i % n) as i32)
}

/// Both synthesis passes over a block.
pub open spec fn synthesized(d: Seq<i32>, n: int, dst: bool, bit_depth: int, ext: bool) -> Seq<i32> {
    let mid = half_synthesized(d, n, dst, bit_depth, ext);
    Seq::new((n * n) as nat, |i: int| line_synthesis(mid, n, dst, !rows_first(n), i / n, i % n) as i32)
}

/// One sample from its row or from its column.
fn synthesize(data: &[i32], n: usize, dst: bool, row: bool, y: usize, x: usize) -> (r: i64)
    requires
        block_side(dst, n as int),
        data@.len() == n * n,
        y < n,
        x < n,
    ensures
        r == line_synthesis(data@, n as int, dst, row, y as int, x as int),
        -0x1_0000_0000_0000 <= r <= 0x1_0000_0000_0000,
{
    proof {
        lemma_grid(y as int, 0, n as int, n as int);
        assert forall|k: int| 0 <= k < n implies 0 <= #[trigger] (y * n + k * 1) < data.len() by {
            lemma_grid(y as int, k, n as int, n as int);
        }
        assert forall|k: int| 0 <= k < n implies 0 <= #[trigger] (x + k * n) < data.len() by {
            lemma_grid(k, x as int, n as int, n as int);
        }
    }
    if row {
        synthesis_product(data, y * n, 1, dst, n, x)
    } else {
        synthesis_product(data, x, n, dst, n, y)
    }
}

/// A line of bounded values synthesizes to a bounded sample.
proof fn lemma_line_bound(data: Seq<i32>, n: int, dst: bool, row: bool, y: int, x: int, m: int)
    requires
        block_side(dst, n),
        data.len() == n * n,
        0 <= y < n,
        0 <= x < n,
        m >= 0,
        forall|i: int| 0 <= i < data.len() ==> -m <= #[trigger] data[i] <= m,
    ensures
        -(n * (90 * m)) <= line_synthesis(data, n, dst, row, y, x) <= n * (90 * m),
{
    if row {
        assert forall|j: int| 0 <= j < n implies -m <= #[trigger] data[y * n + j * 1] <= m by {
            lemma_grid(y, j, n, n);
        }
        lemma_synthesis_bound(data, y * n, 1, dst, n, x, n as nat, m);
    } else {
        assert forall|j: int| 0 <= j < n implies -m <= #[trigger] data[x + j * n] <= m by {
            lemma_grid(j, x, n, n);
        }
        lemma_synthesis_bound(data, x, n, dst, n, y, n as nat, m);
    }
}

proof fn lemma_synthesis_bound(data: Seq<i32>, start: int, step: int, dst: bool, n: int, x: int, k: nat, m: int)
    requires
        block_side(dst, n),
        0 <= x < n,
        k <= n,
        m >= 0,
        forall|j: int| 0 <= j < k ==> -m <= #[trigger] data[start + j * step] <= m,
    ensures
        -(k * (90 * m)) <= synthesis(data, start, step, dst, n, x, k) <= k * (90 * m),
    decreases k,
{
    if k > 0 {
        lemma_synthesis_bound(data, start, step, dst, n, x, (k - 1) as nat, m);
        crate::matrix::lemma_basis_bound(dst, n, k - 1, x);
        let b = crate::matrix::basis(dst, n, k - 1, x);
        let v = data[start + (k - 1) * step] as int;
        assert(-(90 * m) <= b * v <= 90 * m) by (nonlinear_arith)
            requires
                -90 <= b <= 90,
                -m <= v <= m,
                m >= 0,
        ;
        assert(k * (90 * m) == (k - 1) * (90 * m) + 90 * m) by (nonlinear_arith);
    } else {
        assert(0 * (90 * m) == 0);
    }
}

/// The transformation process, before the final shift.
pub fn inverse_transform(
    coefficients: &[i32],
    n_tbs: usize,
    pred_mode: PredMode,
    component: Component,
    bit_depth: u8,
    extended_precision: bool,
) -> (r: Result<Vec<i32>, TransformError>)
    requires
        transform_range(bit_depth as int, extended_precision) <= 18,
    ensures
        match r {
            Ok(v) => block_error(n_tbs, bit_depth, coefficients@.len()) is None && v@ == synthesized(
                coefficients@,
                n_tbs as int,
                takes_dst(n_tbs as int, pred_mode, component),
                bit_depth as int,
                extended_precision,
            ),
            Err(e) => block_error(n_tbs, bit_depth, coefficients@.len()) == Some(e),
        },
{
    if log2_tbs(n_tbs).is_none() {
        return Err(TransformError::InvalidBlockSize(n_tbs));
    }
    if bit_depth < 8 || bit_depth > 16 {
        return Err(TransformError::InvalidBitDepth(bit_depth));
    }
    let count: usize = n_tbs * n_tbs;
    if coefficients.len() != count {
        return Err(TransformError::LengthMismatch { expected: count, got: coefficients.len() });
    }
    let dst: bool = use_dst(n_tbs, pred_mode, component);
    let (lowest, highest) = coeff_range(bit_depth, extended_precision);
    proof {
        lemma2_to64();
        lemma_pow2_bound(transform_range(bit_depth as int, extended_precision) as nat, 18);
    }
    let ghost n = n_tbs as int;
    let ghost mid = half_synthesized(coefficients@, n, dst, bit_depth as int, extended_precision);
    let rows: bool = n_tbs == 32;
    let mut half: Vec<i32> = Vec::new();
    let mut i: usize = 0;
    while i < count
        invariant
            i <= count,
            count == n_tbs * n_tbs,
            n == n_tbs,
            block_side(dst, n),
            rows == rows_first(n),
            n <= 32,
            coefficients.len() == count,
            lowest == coeff_min(bit_depth as int, extended_precision),
            highest == coeff_max(bit_depth as int, extended_precision),
            -0x4_0000 <= lowest <= highest <= 0x4_0000,
            half@.len() == i,
            forall|j: int|
                0 <= j < i ==> #[trigger] half@[j] == first_synthesis(
                    coefficients@,
                    n,
                    dst,
                    bit_depth as int,
                    extended_precision,
                    j / n,
                    j % n,
                ),
        decreases count - i,
    {
        proof {
            lemma_ungrid(i as int, n, n);
        }
        let sum: i64 = synthesize(coefficients, n_tbs, dst, rows, i / n_tbs, i % n_tbs);
        half.push(clip(lowest as i64, highest as i64, shift_round(sum, 7)) as i32);
        i = i + 1;
    }
    assert(half@ =~= mid);
    let mut out: Vec<i32> = Vec::new();
    i = 0;
    while i < count
        invariant
            i <= count,
            count == n_tbs * n_tbs,
            n == n_tbs,
            block_side(dst, n),
            rows == rows_first(n),
            n <= 32,
            half@ == mid,
            half.len() == count,
            lowest == coeff_min(bit_depth as int, extended_precision),
            highest == coeff_max(bit_depth as int, extended_precision),
            -0x4_0000 <= lowest <= highest <= 0x4_0000,
            mid == half_synthesized(coefficients@, n, dst, bit_depth as int, extended_precision),
            out@.len() == i,
            forall|j: int| 0 <= j < i ==> #[trigger] out@[j] == line_synthesis(mid, n, dst, !rows, j / n, j % n),
        decreases count - i,
    {
        proof {
            lemma_ungrid(i as int, n, n);
            lemma_line_bound(mid, n, dst, !rows, i as int / n, i as int % n, 0x4_0000);
            assert(n * (90 * 0x4_0000) <= 32 * (90 * 0x4_0000)) by (nonlinear_arith)
                requires
                    n <= 32,
            ;
        }
        let sum: i64 = synthesize(half.as_slice(), n_tbs, dst, !rows, i / n_tbs, i % n_tbs);
        out.push(sum as i32);
        i = i + 1;
    }
    assert(out@ =~= synthesized(coefficients@, n, dst, bit_depth as int, extended_precision));
    Ok(out)
}

/// Inputs of the reconstruction of one transform block.
#[derive(Debug, Clone, Copy)]
pub struct BlockParams {
    /// `nTbS`: the transform-block side (4 / 8 / 16 / 32).
    pub n_tbs: usize,
    /// `qP`: the derived quantization parameter.
    pub q_p: u32,
    /// The colour component.
    pub component: Component,
    /// The prediction mode of the coding unit.
    pub pred_mode: PredMode,
    /// The bit depth of the component.
    pub bit_depth: u8,
    /// `extended_precision_processing_flag`.
    pub extended_precision: bool,
}

/// The final shift of the reconstruction.
pub open spec fn residual_shift(bit_depth: int, ext: bool) -> int {
    max(
        20 - bit_depth,
        if ext {
            11
        } else {
            0
        },
    )
}

/// The residual block that levels reconstruct to.
pub open spec fn residual_of(
    levels: Seq<i32>,
    n: int,
    q_p: int,
    component: Component,
    pred_mode: PredMode,
    bit_depth: int,
    ext: bool,
    scaling: Option<Seq<u16>>,
) -> Seq<i32> {
    let d = scaled_block(levels, n, q_p, bit_depth, ext, scaling);
    let r = synthesized(d, n, takes_dst(n, pred_mode, component), bit_depth, ext);
    Seq::new((n * n) as nat, |i: int| round_shift(r[i] as int, residual_shift(bit_depth, ext) as nat) as i32)
}

/// Reconstructs the residual of one transform block from its levels.
pub fn residual_block(levels: &[i32], scaling: Option<&ScalingFactorMatrix>, params: BlockParams) -> (r: Result<
    Vec<i32>,
    TransformError,
>)
    requires
        params.q_p <= 215,
        transform_range(params.bit_depth as int, params.extended_precision) <= 18,
        scaling matches Some(m) ==> m.wf(),
    ensures
        match r {
            Ok(v) => quantize_error(params.n_tbs, params.bit_depth, levels@.len(), scaling) is None && v@
                == residual_of(
                levels@,
                params.n_tbs as int,
                params.q_p as int,
                params.component,
                params.pred_mode,
                params.bit_depth as int,
                params.extended_precision,
                matrix_view(scaling),
            ) && forall|i: int| 0 <= i < v@.len() ==> -0x1000_0000 <= #[trigger] v@[i] <= 0x1000_0000,
            Err(e) => quantize_error(params.n_tbs, params.bit_depth, levels@.len(), scaling) == Some(e),
        },
{
    let d: Vec<i32> = match scale_coefficients(
        levels,
        params.n_tbs,
        params.q_p,
        params.bit_depth,
        params.extended_precision,
        scaling,
    ) {
        Ok(d) => d,
        Err(e) => return Err(e),
    };
    let r: Vec<i32> = match inverse_transform(
        d.as_slice(),
        params.n_tbs,
        params.pred_mode,
        params.component,
        params.bit_depth,
        params.extended_precision,
    ) {
        Ok(r) => r,
        Err(e) => return Err(e),
    };
    let base: u32 = 20 - params.bit_depth as u32;
    let shift: u32 = if params.extended_precision && base < 11 {
        11
    } else {
        base
    };
    let mut out: Vec<i32> = Vec::new();
    let mut i: usize = 0;
    while i < r.len()
        invariant
            i <= r@.len(),
            4 <= shift <= 12,
            shift == residual_shift(params.bit_depth as int, params.extended_precision),
            out@.len() == i,
            forall|j: int| 0 <= j < i ==> #[trigger] out@[j] == round_shift(r@[j] as int, shift as nat),
            forall|j: int| 0 <= j < i ==> -0x1000_0000 <= #[trigger] out@[j] <= 0x1000_0000,
        decreases r.len() - i,
    {
        let v: i64 = shift_round(r[i] as i64, shift);
        proof {
            lemma_rounded_fits(r@[i as int] as int, shift as nat);
        }
        out.push(v as i32);
        i = i + 1;
    }
    assert(out@ =~= residual_of(
        levels@,
        params.n_tbs as int,
        params.q_p as int,
        params.component,
        params.pred_mode,
        params.bit_depth as int,
        params.extended_precision,
        matrix_view(scaling),
    ));
    Ok(out)
}

proof fn lemma_rounded_fits(v: int, shift: nat)
    requires
        4 <= shift <= 12,
        -0x8000_0000 <= v <= 0x7fff_ffff,
    ensures
        -0x1000_0000 <= round_shift(v, shift) <= 0x1000_0000,
{
    lemma2_to64();
    lemma_pow2_bound(shift, 12);
    lemma_pow2_bound((shift - 1) as nat, 12);
    lemma_pow2_bound(4, shift);
    let p = pow2(shift) as int;
    let x = v + pow2((shift - 1) as nat);
    lemma_fundamental_div_mod(x, p);
    let q = x / p;
    let r = x % p;
    assert(-0x1000_0000 <= q <= 0x1000_0000) by (nonlinear_arith)
        requires
            x == p * q + r,
            0 <= r < p,
            16 <= p <= 0x1000,
            -0x8000_0000 <= x <= 0x7fff_ffff + 0x1000,
    ;
}

proof fn lemma_synthesis_zero(data: Seq<i32>, start: int, step: int, dst: bool, n: int, x: int, k: nat)
    requires
        forall|j: int| 0 <= j < k ==> #[trigger] data[start + j * step] == 0,
    ensures
        synthesis(data, start, step, dst, n, x, k) == 0,
    decreases k,
{
    if k > 0 {
        lemma_synthesis_zero(data, start, step, dst, n, x, (k - 1) as nat);
        let b = crate::matrix::basis(dst, n, k - 1, x);
        assert(data[start + (k - 1) * step] == 0);
        assert(b * 0 == 0) by (nonlinear_arith);
    }
}

/// A block without levels reconstructs to no residual at all.
pub proof fn law_no_levels_no_residual(
    levels: Seq<i32>,
    n: int,
    q_p: int,
    component: Component,
    pred_mode: PredMode,
    bit_depth: int,
    scaling: Option<Seq<u16>>,
)
    requires
        block_side(false, n),
        8 <= bit_depth <= 16,
        q_p >= 0,
        levels.len() == n * n,
        forall|i: int| 0 <= i < n * n ==> levels[i] == 0,
    ensures
        forall|i: int|
            0 <= i < n * n ==> #[trigger] residual_of(levels, n, q_p, component, pred_mode, bit_depth, false, scaling)[i]
                == 0,
{
    lemma2_to64();
    let dst = takes_dst(n, pred_mode, component);
    let d = scaled_block(levels, n, q_p, bit_depth, false, scaling);
    let b = scaling_shift(bit_depth, n, false) as nat;
    lemma_round_zero(b);
    lemma_round_zero(7);
    lemma_round_zero(residual_shift(bit_depth, false) as nat);
    assert forall|i: int| 0 <= i < n * n implies #[trigger] d[i] == 0 by {
        let f = LEVEL_SCALE@[q_p % 6] * pow2((q_p / 6) as nat);
        let m = scaling_factor(scaling, i);
        assert(0 * m * f == 0) by (nonlinear_arith);
        assert(levels[i] == 0);
    }
    let mid = half_synthesized(d, n, dst, bit_depth, false);
    assert forall|i: int| 0 <= i < n * n implies #[trigger] mid[i] == 0 by {
        lemma_ungrid(i, n, n);
        lemma_line_zero(d, n, dst, rows_first(n), i / n, i % n);
    }
    let r = synthesized(d, n, dst, bit_depth, false);
    assert forall|i: int| 0 <= i < n * n implies #[trigger] r[i] == 0 by {
        lemma_ungrid(i, n, n);
        lemma_line_zero(mid, n, dst, !rows_first(n), i / n, i % n);
    }
}

/// A line of zeros synthesizes to zero.
proof fn lemma_line_zero(data: Seq<i32>, n: int, dst: bool, row: bool, y: int, x: int)
    requires
        data.len() == n * n,
        0 <= y < n,
        0 <= x < n,
        forall|i: int| 0 <= i < n * n ==> #[trigger] data[i] == 0,
    ensures
        line_synthesis(data, n, dst, row, y, x) == 0,
{
    if row {
        assert forall|j: int| 0 <= j < n implies #[trigger] data[y * n + j * 1] == 0 by {
            lemma_grid(y, j, n, n);
        }
        lemma_synthesis_zero(data, y * n, 1, dst, n, x, n as nat);
    } else {
        assert forall|j: int| 0 <= j < n implies #[trigger] data[x + j * n] == 0 by {
            lemma_grid(j, x, n, n);
        }
        lemma_synthesis_zero(data, x, n, dst, n, y, n as nat);
    }
}

proof fn lemma_round_zero(shift: nat)
    requires
        shift > 0,
    ensures
        round_shift(0, shift) == 0,
{
    lemma_pow2_pos((shift - 1) as nat);
    vstd::arithmetic::power2::lemma_pow2_unfold(shift);
    vstd::arithmetic::div_mod::lemma_basic_div(pow2((shift - 1) as nat) as int, pow2(shift) as int);
}

} // verus!
