//! A second analysis path: rows first, with a narrower deadzone, and the
//! decoder's own reconstruction of what it quantized.
//!
//! The forward transform and the quantizer only decide which levels get coded;
//! [`reconstruct_residual`] is the decoder's own process, so that whatever the
//! quantizer rounded away is reflected identically on both sides.
use vstd::prelude::*;
use vstd::arithmetic::power2::{lemma2_to64, lemma2_to64_rest, lemma_pow2_pos, lemma_pow2_unfold, pow2};
use crate::arith::{abs, clip, div_floor, lemma_grid, lemma_pow2_bound, lemma_ungrid, min, power, round_shift, shift_round};
use crate::cabac::clip3;
use crate::inverse::{residual_block, residual_of, BlockParams};
use crate::matrix::{analysis, analysis_product, block_side};
use crate::transform::{
    block_error, coeff_max, coeff_min, coeff_range, log2_of, log2_tbs, takes_dst, transform_range, use_dst, Component,
    PredMode, TransformError, INTER_ROUND, INTRA_ROUND, QUANT_SCALE,
};

verus! {

/// The first pass at row `y` and column `u`: basis function `u` against the row.
pub open spec fn row_first(residual: Seq<i32>, n: int, dst: bool, bit_depth: int, y: int, u: int) -> int {
    clip3(
        coeff_min(bit_depth, false),
        coeff_max(bit_depth, false),
        round_shift(analysis(residual, y * n, 1, dst, n, u, n as nat), (log2_of(n) + bit_depth - 9) as nat),
    )
}

/// The first pass over a block.
pub open spec fn rows_transformed(residual: Seq<i32>, n: int, dst: bool, bit_depth: int) -> Seq<i32> {
    Seq::new((n * n) as nat, |i: int| row_first(residual, n, dst, bit_depth, i / n, i % n) as i32)
}

/// The second pass at row `u` and column `x`: basis function `u` against the column.
pub open spec fn column_second(mid: Seq<i32>, n: int, dst: bool, bit_depth: int, u: int, x: int) -> int {
    clip3(
        coeff_min(bit_depth, false),
        coeff_max(bit_depth, false),
        round_shift(analysis(mid, x, n, dst, n, u, n as nat), (log2_of(n) + 6) as nat),
    )
}

/// The transform coefficients of a residual block, rows first.
pub open spec fn row_coefficients(residual: Seq<i32>, n: int, dst: bool, bit_depth: int) -> Seq<i32> {
    let mid = rows_transformed(residual, n, dst, bit_depth);
    Seq::new((n * n) as nat, |i: int| column_second(mid, n, dst, bit_depth, i / n, i % n) as i32)
}

/// Turn a residual block into transform coefficients, row-major by `y`.
#[must_use]
pub fn forward_transform(
    residual: &[i32],
    n_tbs: usize,
    pred_mode: PredMode,
    component: Component,
    bit_depth: u8,
) -> (out: Vec<i32>)
    requires
        block_side(false, n_tbs as int),
        residual@.len() == n_tbs * n_tbs,
        8 <= bit_depth <= 16,
    ensures
        out@ == row_coefficients(
            residual@,
            n_tbs as int,
            takes_dst(n_tbs as int, pred_mode, component),
            bit_depth as int,
        ),
{
    let log2: u32 = log2_side(n_tbs);
    let dst: bool = use_dst(n_tbs, pred_mode, component);
    let (lowest, highest) = coeff_range(bit_depth, false);
    let shift1: u32 = log2 + bit_depth as u32 - 9;
    let shift2: u32 = log2 + 6;
    let count: usize = residual.len();
    let ghost n = n_tbs as int;
    let ghost mid = rows_transformed(residual@, n, dst, bit_depth as int);

    // Pass 1: every row through the analysis basis.
    let mut tmp: Vec<i32> = Vec::new();
    let mut i: usize = 0;
    while i < count
        invariant
            i <= count,
            count == n_tbs * n_tbs,
            n == n_tbs,
            block_side(dst, n),
            n <= 32,
            residual.len() == count,
            8 <= bit_depth <= 16,
            shift1 == log2_of(n) + bit_depth - 9,
            lowest == coeff_min(bit_depth as int, false),
            highest == coeff_max(bit_depth as int, false),
            lowest <= highest,
            tmp@.len() == i,
            forall|j: int|
                0 <= j < i ==> #[trigger] tmp@[j] == row_first(residual@, n, dst, bit_depth as int, j / n, j % n),
        decreases count - i,
    {
        let y: usize = i / n_tbs;
        let u: usize = i % n_tbs;
        proof {
            lemma_ungrid(i as int, n, n);
            lemma_grid(y as int, 0, n, n);
            assert forall|k: int| 0 <= k < n_tbs implies 0 <= #[trigger] (y * n_tbs + k * 1) < residual.len() by {
                lemma_grid(y as int, k, n, n);
            }
        }
        let sum: i64 = analysis_product(residual, y * n_tbs, 1, dst, n_tbs, u);
        tmp.push(clip(lowest as i64, highest as i64, shift_round(sum, shift1)) as i32);
        i = i + 1;
    }
    assert(tmp@ =~= mid);

    // Pass 2: every column through the same basis.
    let mut out: Vec<i32> = Vec::new();
    i = 0;
    while i < count
        invariant
            i <= count,
            count == n_tbs * n_tbs,
            n == n_tbs,
            block_side(dst, n),
            n <= 32,
            tmp@ == mid,
            tmp.len() == count,
            shift2 == log2_of(n) + 6,
            lowest == coeff_min(bit_depth as int, false),
            highest == coeff_max(bit_depth as int, false),
            lowest <= highest,
            out@.len() == i,
            forall|j: int|
                0 <= j < i ==> #[trigger] out@[j] == column_second(mid, n, dst, bit_depth as int, j / n, j % n),
        decreases count - i,
    {
        let u: usize = i / n_tbs;
        let x: usize = i % n_tbs;
        proof {
            lemma_ungrid(i as int, n, n);
            assert forall|k: int| 0 <= k < n_tbs implies 0 <= #[trigger] (x + k * n_tbs) < tmp.len() by {
                lemma_grid(k, x as int, n, n);
            }
        }
        let sum: i64 = analysis_product(tmp.as_slice(), x, n_tbs, dst, n_tbs, u);
        out.push(clip(lowest as i64, highest as i64, shift_round(sum, shift2)) as i32);
        i = i + 1;
    }
    assert(out@ =~= row_coefficients(residual@, n, dst, bit_depth as int));
    out
}

fn log2_side(n_tbs: usize) -> (l: u32)
    requires
        block_side(false, n_tbs as int),
    ensures
        l == log2_of(n_tbs as int),
{
    match log2_tbs(n_tbs) {
        Some(l) => l,
        None => 5,
    }
}

/// `qBits`: the right shift of the quantizer.
pub open spec fn q_bits(q_p: int, bit_depth: int, n: int) -> int {
    14 + q_p / 6 + (15 - bit_depth - log2_of(n))
}

/// The deadzone offset, out of half a step.
pub open spec fn deadzone(bits: nat, intra: bool) -> int {
    (pow2((bits - 1) as nat) * (if intra {
        INTRA_ROUND
    } else {
        INTER_ROUND
    })) / 512
}

/// The level of one coefficient.
pub open spec fn deadzone_level(c: int, n: int, q_p: int, bit_depth: int, intra: bool) -> int {
    let bits = q_bits(q_p, bit_depth, n) as nat;
    let scale = QUANT_SCALE@[q_p % 6] as int;
    let size = min(
        (abs(c) * scale + deadzone(bits, intra)) / pow2(bits) as int,
        coeff_max(bit_depth, false),
    );
    if c < 0 {
        -size
    } else {
        size
    }
}

/// Turn transform coefficients into levels. `intra` selects the wider rounding
/// offset.
#[must_use]
pub fn quantize(coefficients: &[i32], n_tbs: usize, q_p: u32, bit_depth: u8, intra: bool) -> (out: Vec<i32>)
    requires
        block_side(false, n_tbs as int),
        coefficients@.len() == n_tbs * n_tbs,
        8 <= bit_depth <= 16,
    ensures
        out@.len() == coefficients@.len(),
        forall|i: int|
            0 <= i < out@.len() ==> #[trigger] out@[i] == deadzone_level(
                coefficients@[i] as int,
                n_tbs as int,
                q_p as int,
                bit_depth as int,
                intra,
            ),
{
    let log2: u32 = log2_side(n_tbs);
    let bits: u32 = 29 + q_p / 6 - bit_depth as u32 - log2;
    let k: usize = (q_p % 6) as usize;
    let scale: i64 = QUANT_SCALE[k] as i64;
    let (lowest, highest) = coeff_range(bit_depth, false);
    let numerator: i64 = if intra {
        INTRA_ROUND
    } else {
        INTER_ROUND
    };
    let vanishing: bool = bits > 54;
    let capped: u32 = if vanishing {
        54
    } else {
        bits
    };
    let step: i64 = power(capped);
    let half: i64 = power(capped - 1);
    proof {
        lemma2_to64();
        lemma2_to64_rest();
        lemma_pow2_bound((capped - 1) as nat, 53);
        lemma_pow2_bound(capped as nat, 54);
        assert(0 <= half * numerator <= 171 * 0x20_0000_0000_0000) by (nonlinear_arith)
            requires
                0 <= numerator <= 171,
                1 <= half <= 0x20_0000_0000_0000,
        ;
    }
    let offset: i64 = (half * numerator) / 512;
    let mut out: Vec<i32> = Vec::new();
    let mut i: usize = 0;
    while i < coefficients.len()
        invariant
            i <= coefficients@.len(),
            block_side(false, n_tbs as int),
            8 <= bit_depth <= 16,
            bits == q_bits(q_p as int, bit_depth as int, n_tbs as int),
            bits >= 8,
            scale == QUANT_SCALE@[q_p as int % 6],
            0 <= scale <= 26214,
            vanishing == (bits > 54),
            !vanishing ==> capped == bits,
            step == pow2(capped as nat),
            1 <= step <= 0x40_0000_0000_0000,
            !vanishing ==> offset == deadzone(bits as nat, intra),
            0 <= offset <= 0x20_0000_0000_0000,
            lowest == coeff_min(bit_depth as int, false),
            highest == coeff_max(bit_depth as int, false),
            lowest < 0 <= highest,
            out@.len() == i,
            forall|j: int|
                0 <= j < i ==> #[trigger] out@[j] == deadzone_level(
                    coefficients@[j] as int,
                    n_tbs as int,
                    q_p as int,
                    bit_depth as int,
                    intra,
                ),
        decreases coefficients.len() - i,
    {
        let c: i64 = coefficients[i] as i64;
        if vanishing {
            // A step this coarse leaves no coefficient standing.
            proof {
                lemma_vanishes(c as int, n_tbs as int, q_p as int, bit_depth as int, intra);
            }
            out.push(0);
        } else {
            let size: i64 = if c < 0 {
                -c
            } else {
                c
            };
            assert(0 <= size * scale <= 0x8000_0000 * 26214) by (nonlinear_arith)
                requires
                    0 <= size <= 0x8000_0000,
                    0 <= scale <= 26214,
            ;
            let quotient: i64 = div_floor(size * scale + offset, step);
            proof {
                vstd::arithmetic::div_mod::lemma_div_pos_is_pos(size * scale + offset, step as int);
            }
            let level: i32 = if quotient > highest as i64 {
                highest
            } else {
                quotient as i32
            };
            out.push(
                if c < 0 {
                    -level
                } else {
                    level
                },
            );
        }
        i = i + 1;
    }
    out
}

proof fn lemma_vanishes(c: int, n: int, q_p: int, bit_depth: int, intra: bool)
    requires
        -0x8000_0000 <= c <= 0x7fff_ffff,
        q_p >= 0,
        q_bits(q_p, bit_depth, n) > 54,
        8 <= bit_depth <= 16,
    ensures
        deadzone_level(c, n, q_p, bit_depth, intra) == 0,
{
    let bits = q_bits(q_p, bit_depth, n) as nat;
    let scale = QUANT_SCALE@[q_p % 6] as int;
    assert(0 <= scale <= 26214);
    lemma2_to64_rest();
    lemma_pow2_bound(55, bits);
    lemma_pow2_unfold(bits);
    let p = pow2(bits) as int;
    let h = pow2((bits - 1) as nat) as int;
    assert(0 <= abs(c) * scale <= 0x8000_0000 * 26214) by (nonlinear_arith)
        requires
            0 <= abs(c) <= 0x8000_0000,
            0 <= scale <= 26214,
    ;
    assert(intra ==> deadzone(bits, intra) == (h * 171) / 512);
    assert(!intra ==> deadzone(bits, intra) == (h * 85) / 512);
    vstd::arithmetic::div_mod::lemma_basic_div(abs(c) * scale + deadzone(bits, intra), p);
    lemma_pow2_pos(transform_range(bit_depth, false) as nat);
}

/// The decoder's own reconstruction of one transform block, over the levels that
/// were quantized for it.
pub fn reconstruct_residual(
    levels: &[i32],
    n_tbs: usize,
    q_p: u32,
    pred_mode: PredMode,
    component: Component,
    bit_depth: u8,
) -> (r: Result<Vec<i32>, TransformError>)
    requires
        q_p <= 215,
    ensures
        match r {
            Ok(v) => block_error(n_tbs, bit_depth, levels@.len()) is None && v@ == residual_of(
                levels@,
                n_tbs as int,
                q_p as int,
                component,
                pred_mode,
                bit_depth as int,
                false,
                None,
            ),
            Err(e) => block_error(n_tbs, bit_depth, levels@.len()) == Some(e),
        },
{
    residual_block(levels, None, BlockParams { n_tbs, q_p, component, pred_mode, bit_depth, extended_precision: false })
}

/// The intra deadzone keeps at least the levels that the inter one keeps.
pub proof fn law_intra_deadzone_keeps_more(c: int, n: int, q_p: int, bit_depth: int)
    requires
        block_side(false, n),
        8 <= bit_depth <= 16,
        q_p >= 0,
    ensures
        abs(deadzone_level(c, n, q_p, bit_depth, true)) >= abs(deadzone_level(c, n, q_p, bit_depth, false)),
{
    let bits = q_bits(q_p, bit_depth, n) as nat;
    let p = pow2(bits) as int;
    let h = pow2((bits - 1) as nat) as int;
    lemma_pow2_pos(bits);
    lemma_pow2_pos((bits - 1) as nat);
    lemma_pow2_pos(transform_range(bit_depth, false) as nat);
    let scale = QUANT_SCALE@[q_p % 6] as int;
    assert(scale > 0);
    let a = abs(c) * scale;
    assert(a >= 0) by (nonlinear_arith)
        requires
            abs(c) >= 0,
            scale > 0,
            a == abs(c) * scale,
    ;
    assert(deadzone(bits, true) == (h * 171) / 512);
    assert(deadzone(bits, false) == (h * 85) / 512);
    assert(0 <= (h * 85) / 512 <= (h * 171) / 512);
    vstd::arithmetic::div_mod::lemma_div_is_ordered(a + deadzone(bits, false), a + deadzone(bits, true), p);
    vstd::arithmetic::div_mod::lemma_div_pos_is_pos(a + deadzone(bits, false), p);
}

} // verus!
