//! Encoder-side forward transform and quantization, the inverse of the
//! decoder's scaling and transformation processes.
//!
//! The forward transform is the separable analysis transform: where the
//! decoder computes `r[ i ] = sum_j transMatrix[ j ][ i ] * d[ j ]`, the encoder
//! computes `c[ u ] = sum_x transMatrix[ u ][ x ] * r[ x ]`. Quantization
//! multiplies by the reciprocal of the decoder's step and shifts right.
use vstd::prelude::*;
use vstd::arithmetic::power2::{lemma2_to64, lemma2_to64_rest, lemma_pow2_pos, pow2};
use crate::arith::{abs, clip, lemma_grid, lemma_pow2_bound, lemma_ungrid, max, min, power, round_shift, shift_round};
use crate::cabac::clip3;
use crate::matrix::{analysis, analysis_product, block_side};
use crate::quant_simd::{factor_at, level, quant_block, Backend, QuantParams};

verus! {

/// The colour component `cIdx`.
#[derive(Debug, Clone, Copy, PartialEq, Eq, Structural)]
pub enum Component {
    Luma,
    Cb,
    Cr,
}

/// `CuPredMode`.
#[derive(Debug, Clone, Copy, PartialEq, Eq, Structural)]
pub enum PredMode {
    Intra,
    Inter,
}

/// Why a block was refused.
#[derive(Debug, Clone, Copy, PartialEq, Eq, Structural)]
pub enum TransformError {
    /// The side is not 4, 8, 16 or 32.
    InvalidBlockSize(usize),
    /// The bit depth is not in 8..=16.
    InvalidBitDepth(u8),
    /// An array is not as long as the block has samples.
    LengthMismatch {
        /// The number of samples of the block.
        expected: usize,
        /// The length of the array.
        got: usize,
    },
}

/// A `ScalingFactor` matrix, row by row.
#[derive(Debug, Clone, PartialEq, Eq)]
pub struct ScalingFactorMatrix {
    /// The side of the matrix.
    pub dim: u8,
    /// Its entries.
    pub coef: Vec<u16>,
}

impl ScalingFactorMatrix {
    /// The matrix has as many entries as its side implies.
    pub open spec fn wf(&self) -> bool {
        self.coef@.len() == self.dim * self.dim
    }
}

impl Component {
    /// Whether this is a chroma component.
    pub fn is_chroma(&self) -> (b: bool)
        ensures
            b == (*self != Component::Luma),
    {
        match self {
            Component::Luma => false,
            _ => true,
        }
    }
}

/// The reciprocal of the decoder's `levelScale`, indexed by `qP % 6`: each
/// entry is close to `2^20 / levelScale[ k ]`.
pub const QUANT_SCALE: [i32; 6] = [26214, 23302, 20560, 18396, 16384, 14564];

/// Rounding offset for intra blocks, in parts of 512.
pub const INTRA_ROUND: i64 = 171;

/// Rounding offset for inter blocks, in parts of 512.
pub const INTER_ROUND: i64 = 85;

/// The range that the forward transform's intermediate pass is clipped to.
pub const INTERMEDIATE_MIN: i64 = -32768;

pub const INTERMEDIATE_MAX: i64 = 32767;

/// `log2( nTbS )` of a transform block side.
pub open spec fn log2_of(n: int) -> int {
    if n == 4 {
        2
    } else if n == 8 {
        3
    } else if n == 16 {
        4
    } else {
        5
    }
}

/// `log2( nTbS )`, for the four transform block sides.
pub fn log2_tbs(n_tbs: usize) -> (r: Option<u32>)
    ensures
        match r {
            Some(l) => block_side(false, n_tbs as int) && l == log2_of(n_tbs as int),
            None => !block_side(false, n_tbs as int),
        },
{
    match n_tbs {
        4 => Some(2),
        8 => Some(3),
        16 => Some(4),
        32 => Some(5),
        _ => None,
    }
}

/// The number of magnitude bits of a transform coefficient.
pub open spec fn transform_range(bit_depth: int, extended_precision: bool) -> int {
    if extended_precision {
        max(15, bit_depth + 6)
    } else {
        15
    }
}

/// The lowest coefficient value.
pub open spec fn coeff_min(bit_depth: int, extended_precision: bool) -> int {
    -(pow2(transform_range(bit_depth, extended_precision) as nat) as int)
}

/// The highest coefficient value.
pub open spec fn coeff_max(bit_depth: int, extended_precision: bool) -> int {
    pow2(transform_range(bit_depth, extended_precision) as nat) - 1
}

fn log2_transform_range(bit_depth: u8, extended_precision: bool) -> (r: u32)
    requires
        bit_depth <= 16,
    ensures
        r == transform_range(bit_depth as int, extended_precision),
        15 <= r <= 22,
{
    if extended_precision && bit_depth > 9 {
        bit_depth as u32 + 6
    } else {
        15
    }
}

/// The range of transform coefficients.
pub fn coeff_range(bit_depth: u8, extended_precision: bool) -> (r: (i32, i32))
    requires
        bit_depth <= 16,
    ensures
        r.0 == coeff_min(bit_depth as int, extended_precision),
        r.1 == coeff_max(bit_depth as int, extended_precision),
        -0x40_0000 <= r.0 <= -0x8000,
        0x7fff <= r.1 < 0x40_0000,
{
    let bits: u32 = log2_transform_range(bit_depth, extended_precision);
    proof {
        lemma2_to64();
        lemma_pow2_bound(bits as nat, 22);
        lemma_pow2_bound(15, bits as nat);
    }
    let p: i64 = power(bits);
    ((0 - p) as i32, (p - 1) as i32)
}

/// What refuses a block of `len` samples, if anything.
pub open spec fn block_error(n_tbs: usize, bit_depth: u8, len: nat) -> Option<TransformError> {
    if !block_side(false, n_tbs as int) {
        Some(TransformError::InvalidBlockSize(n_tbs))
    } else if !(8 <= bit_depth <= 16) {
        Some(TransformError::InvalidBitDepth(bit_depth))
    } else if len != n_tbs * n_tbs {
        Some(TransformError::LengthMismatch { expected: (n_tbs * n_tbs) as usize, got: len as usize })
    } else {
        None
    }
}

fn check_block(n_tbs: usize, bit_depth: u8, len: usize) -> (r: Result<u32, TransformError>)
    ensures
        match r {
            Ok(log2) => block_error(n_tbs, bit_depth, len as nat) is None && log2 == log2_of(n_tbs as int),
            Err(e) => block_error(n_tbs, bit_depth, len as nat) == Some(e),
        },
{
    let log2: u32 = match log2_tbs(n_tbs) {
        Some(l) => l,
        None => return Err(TransformError::InvalidBlockSize(n_tbs)),
    };
    if bit_depth < 8 || bit_depth > 16 {
        return Err(TransformError::InvalidBitDepth(bit_depth));
    }
    let count: usize = n_tbs * n_tbs;
    if len != count {
        return Err(TransformError::LengthMismatch { expected: count, got: len });
    }
    Ok(log2)
}

/// The `trType` selection: the 4x4 alternate transform is used only for intra
/// luma blocks.
#[must_use]
pub fn use_dst(n_tbs: usize, pred_mode: PredMode, component: Component) -> (b: bool)
    ensures
        b == (n_tbs == 4 && pred_mode == PredMode::Intra && component == Component::Luma),
{
    n_tbs == 4 && pred_mode == PredMode::Intra && !component.is_chroma()
}

/// The first pass at row `u` and column `x`: basis function `u` against the
/// column, rounded and clipped.
pub open spec fn column_pass(residual: Seq<i32>, n: int, dst: bool, bit_depth: int, u: int, x: int) -> int {
    clip3(
        INTERMEDIATE_MIN as int,
        INTERMEDIATE_MAX as int,
        round_shift(analysis(residual, x, n, dst, n, u, n as nat), (log2_of(n) + bit_depth - 9) as nat),
    )
}

/// The first pass over a block.
pub open spec fn columns_transformed(residual: Seq<i32>, n: int, dst: bool, bit_depth: int) -> Seq<i32> {
    Seq::new((n * n) as nat, |i: int| column_pass(residual, n, dst, bit_depth, i / n, i % n) as i32)
}

/// The second pass at row `u` and column `v`: basis function `v` against the row,
/// rounded and clipped.
pub open spec fn row_pass(mid: Seq<i32>, n: int, dst: bool, bit_depth: int, ext: bool, u: int, v: int) -> int {
    clip3(
        coeff_min(bit_depth, ext),
        coeff_max(bit_depth, ext),
        round_shift(analysis(mid, u * n, 1, dst, n, v, n as nat), (log2_of(n) + 6) as nat),
    )
}

/// The transform coefficients of a residual block.
pub open spec fn coefficients_of(residual: Seq<i32>, n: int, dst: bool, bit_depth: int, ext: bool) -> Seq<i32> {
    let mid = columns_transformed(residual, n, dst, bit_depth);
    Seq::new((n * n) as nat, |i: int| row_pass(mid, n, dst, bit_depth, ext, i / n, i % n) as i32)
}

/// Forward (analysis) transform for one residual block, row-major by `y`.
pub fn forward_transform(
    residual: &[i32],
    n_tbs: usize,
    tr_type: bool,
    bit_depth: u8,
    extended_precision: bool,
) -> (r: Result<Vec<i32>, TransformError>)
    requires
        tr_type && block_side(false, n_tbs as int) ==> n_tbs == 4,
    ensures
        match r {
            Ok(c) => block_error(n_tbs, bit_depth, residual@.len()) is None && c@ == coefficients_of(
                residual@,
                n_tbs as int,
                tr_type,
                bit_depth as int,
                extended_precision,
            ),
            Err(e) => block_error(n_tbs, bit_depth, residual@.len()) == Some(e),
        },
{
    forward_transform_with_backend(Backend::Scalar, residual, n_tbs, tr_type, bit_depth, extended_precision)
}

/// [`forward_transform`] with an explicitly chosen instruction set.
pub fn forward_transform_with_backend(
    backend: Backend,
    residual: &[i32],
    n_tbs: usize,
    tr_type: bool,
    bit_depth: u8,
    extended_precision: bool,
) -> (r: Result<Vec<i32>, TransformError>)
    requires
        tr_type && block_side(false, n_tbs as int) ==> n_tbs == 4,
    ensures
        match r {
            Ok(c) => block_error(n_tbs, bit_depth, residual@.len()) is None && c@ == coefficients_of(
                residual@,
                n_tbs as int,
                tr_type,
                bit_depth as int,
                extended_precision,
            ),
            Err(e) => block_error(n_tbs, bit_depth, residual@.len()) == Some(e),
        },
{
    let log2: u32 = match check_block(n_tbs, bit_depth, residual.len()) {
        Ok(l) => l,
        Err(e) => return Err(e),
    };
    let count: usize = n_tbs * n_tbs;
    let shift1: u32 = log2 + bit_depth as u32 - 9;
    let shift2: u32 = log2 + 6;
    let (lowest, highest) = coeff_range(bit_depth, extended_precision);
    let ghost n = n_tbs as int;
    let ghost mid = columns_transformed(residual@, n, tr_type, bit_depth as int);

    // Pass 1 transforms the columns.
    let mut intermediate: Vec<i32> = Vec::new();
    let mut i: usize = 0;
    while i < count
        invariant
            i <= count,
            count == n_tbs * n_tbs,
            n == n_tbs,
            block_side(tr_type, n),
            n <= 32,
            residual@.len() == count,
            residual.len() == count,
            8 <= bit_depth <= 16,
            shift1 == log2_of(n) + bit_depth - 9,
            intermediate@.len() == i,
            forall|j: int|
                0 <= j < i ==> #[trigger] intermediate@[j] == column_pass(
                    residual@,
                    n,
                    tr_type,
                    bit_depth as int,
                    j / n,
                    j % n,
                ),
        decreases count - i,
    {
        let u: usize = i / n_tbs;
        let x: usize = i % n_tbs;
        proof {
            lemma_ungrid(i as int, n, n);
            assert forall|k: int| 0 <= k < n_tbs implies 0 <= #[trigger] (x + k * n_tbs) < residual.len() by {
                lemma_grid(k, x as int, n, n);
            }
        }
        let sum: i64 = analysis_product(residual, x, n_tbs, tr_type, n_tbs, u);
        let value: i64 = clip(INTERMEDIATE_MIN, INTERMEDIATE_MAX, shift_round(sum, shift1));
        intermediate.push(value as i32);
        i = i + 1;
    }
    assert(intermediate@ =~= mid);

    // Pass 2 transforms the rows.
    let mut coefficients: Vec<i32> = Vec::new();
    i = 0;
    while i < count
        invariant
            i <= count,
            count == n_tbs * n_tbs,
            n == n_tbs,
            block_side(tr_type, n),
            n <= 32,
            intermediate@ == mid,
            intermediate.len() == count,
            shift2 == log2_of(n) + 6,
            lowest == coeff_min(bit_depth as int, extended_precision),
            highest == coeff_max(bit_depth as int, extended_precision),
            lowest <= highest,
            coefficients@.len() == i,
            forall|j: int|
                0 <= j < i ==> #[trigger] coefficients@[j] == row_pass(
                    mid,
                    n,
                    tr_type,
                    bit_depth as int,
                    extended_precision,
                    j / n,
                    j % n,
                ),
        decreases count - i,
    {
        let u: usize = i / n_tbs;
        let v: usize = i % n_tbs;
        proof {
            lemma_ungrid(i as int, n, n);
            lemma_grid(u as int, 0, n, n);
            assert forall|k: int| 0 <= k < n_tbs implies 0 <= #[trigger] (u * n_tbs + k * 1) < intermediate.len() by {
                lemma_grid(u as int, k, n, n);
            }
        }
        let sum: i64 = analysis_product(intermediate.as_slice(), u * n_tbs, 1, tr_type, n_tbs, v);
        let value: i64 = clip(lowest as i64, highest as i64, shift_round(sum, shift2));
        coefficients.push(value as i32);
        i = i + 1;
    }
    assert(coefficients@ =~= coefficients_of(residual@, n, tr_type, bit_depth as int, extended_precision));
    Ok(coefficients)
}

/// The right shift of quantization, which inverts the decoder's scaling.
pub open spec fn quant_shift(q_p: int, bit_depth: int, n: int, ext: bool) -> int {
    24 + q_p / 6 - (bit_depth + log2_of(n) + 10 - transform_range(bit_depth, ext))
}

/// The rounding offset: a third of a step for intra blocks, a sixth for inter.
pub open spec fn rounding(shift: nat, intra: bool) -> int {
    ((if intra {
        INTRA_ROUND
    } else {
        INTER_ROUND
    }) * pow2(shift)) / 512
}

/// The quantization factor at a position: the reciprocal of the scaling list's
/// entry there, or the flat one.
pub open spec fn quant_factor(q_p: int, scaling: Option<Seq<u16>>, i: int) -> int {
    let scale = QUANT_SCALE@[q_p % 6] as int;
    match scaling {
        Some(m) => (scale * 16) / max(1, m[i] as int),
        None => scale,
    }
}

/// The level at position `i`.
pub open spec fn level_at(
    coefficients: Seq<i32>,
    n: int,
    q_p: int,
    bit_depth: int,
    ext: bool,
    intra: bool,
    scaling: Option<Seq<u16>>,
    i: int,
) -> int {
    let shift = quant_shift(q_p, bit_depth, n, ext) as nat;
    level(coefficients[i] as int, quant_factor(q_p, scaling, i), rounding(shift, intra), shift, coeff_max(bit_depth, ext))
}

/// The levels of a coefficient block.
pub open spec fn levels_of(
    coefficients: Seq<i32>,
    n: int,
    q_p: int,
    bit_depth: int,
    ext: bool,
    intra: bool,
    scaling: Option<Seq<u16>>,
) -> Seq<i32> {
    Seq::new((n * n) as nat, |i: int| level_at(coefficients, n, q_p, bit_depth, ext, intra, scaling, i) as i32)
}

/// The entries behind an optional matrix.
pub open spec fn matrix_view(m: Option<&ScalingFactorMatrix>) -> Option<Seq<u16>> {
    match m {
        Some(m) => Some(m.coef@),
        None => None,
    }
}

/// What refuses a quantization, if anything: the block, or a scaling matrix of
/// another size.
pub open spec fn quantize_error(
    n_tbs: usize,
    bit_depth: u8,
    len: nat,
    scaling: Option<&ScalingFactorMatrix>,
) -> Option<TransformError> {
    match block_error(n_tbs, bit_depth, len) {
        Some(e) => Some(e),
        None => match scaling {
            Some(m) => if m.dim * m.dim != n_tbs * n_tbs {
                Some(
                    TransformError::LengthMismatch {
                        expected: (n_tbs * n_tbs) as usize,
                        got: (m.dim * m.dim) as usize,
                    },
                )
            } else {
                None
            },
            None => None,
        },
    }
}

/// Quantization, the reciprocal of the scaling process. `q_p` is the derived
/// quantization parameter; `scaling` is the matrix that the decoder will
/// dequantize with, `None` for the flat one.
pub fn quantize(
    coefficients: &[i32],
    n_tbs: usize,
    q_p: u32,
    bit_depth: u8,
    extended_precision: bool,
    intra: bool,
    scaling: Option<&ScalingFactorMatrix>,
) -> (r: Result<Vec<i32>, TransformError>)
    requires
        scaling matches Some(m) ==> m.wf(),
    ensures
        match r {
            Ok(l) => quantize_error(n_tbs, bit_depth, coefficients@.len(), scaling) is None && l@ == levels_of(
                coefficients@,
                n_tbs as int,
                q_p as int,
                bit_depth as int,
                extended_precision,
                intra,
                matrix_view(scaling),
            ),
            Err(e) => quantize_error(n_tbs, bit_depth, coefficients@.len(), scaling) == Some(e),
        },
{
    quantize_with_backend(
        Backend::Scalar,
        coefficients,
        n_tbs,
        q_p,
        bit_depth,
        extended_precision,
        intra,
        scaling,
    )
}

/// [`quantize`] with an explicitly chosen instruction set.
pub fn quantize_with_backend(
    backend: Backend,
    coefficients: &[i32],
    n_tbs: usize,
    q_p: u32,
    bit_depth: u8,
    extended_precision: bool,
    intra: bool,
    scaling: Option<&ScalingFactorMatrix>,
) -> (r: Result<Vec<i32>, TransformError>)
    requires
        scaling matches Some(m) ==> m.wf(),
    ensures
        match r {
            Ok(l) => quantize_error(n_tbs, bit_depth, coefficients@.len(), scaling) is None && l@ == levels_of(
                coefficients@,
                n_tbs as int,
                q_p as int,
                bit_depth as int,
                extended_precision,
                intra,
                matrix_view(scaling),
            ),
            Err(e) => quantize_error(n_tbs, bit_depth, coefficients@.len(), scaling) == Some(e),
        },
{
    let log2: u32 = match check_block(n_tbs, bit_depth, coefficients.len()) {
        Ok(l) => l,
        Err(e) => return Err(e),
    };
    let count: usize = n_tbs * n_tbs;
    if let Some(m) = scaling {
        proof {
            assert(m.dim * m.dim <= 255 * 255) by (nonlinear_arith)
                requires
                    0 <= m.dim <= 255,
            ;
        }
        let m_count: usize = m.dim as usize * m.dim as usize;
        if m_count != count {
            return Err(TransformError::LengthMismatch { expected: count, got: m_count });
        }
    }
    let ghost n = n_tbs as int;
    let ghost goal = levels_of(
        coefficients@,
        n,
        q_p as int,
        bit_depth as int,
        extended_precision,
        intra,
        matrix_view(scaling),
    );
    let bd_shift: u32 = bit_depth as u32 + log2 + 10 - log2_transform_range(bit_depth, extended_precision);
    let qbits: u32 = 24 + q_p / 6 - bd_shift;
    let quant_scale: i32 = quant_scale_of(q_p);
    let (lowest, highest) = coeff_range(bit_depth, extended_precision);
    let factors: Option<Vec<i32>> = match scaling {
        Some(m) => Some(reciprocal_factors(quant_scale, &m.coef)),
        None => None,
    };
    let ghost fs: Option<Seq<i32>> = match &factors {
        Some(f) => Some(f@),
        None => None,
    };
    proof {
        assert forall|i: int| 0 <= i < count implies factor_at(fs, quant_scale, i) == quant_factor(
            q_p as int,
            matrix_view(scaling),
            i,
        ) && 0 <= #[trigger] factor_at(fs, quant_scale, i) <= 26214 * 16 by {
        }
    }
    let mut levels: Vec<i32> = Vec::new();
    levels.resize(count, 0);
    if qbits > 54 {
        // A step this coarse leaves no coefficient standing.
        proof {
            assert forall|i: int| 0 <= i < count implies #[trigger] goal[i] == 0 by {
                lemma_vanishing_level(
                    coefficients@[i] as int,
                    quant_factor(q_p as int, matrix_view(scaling), i),
                    qbits as nat,
                    intra,
                    highest as int,
                );
                assert(factor_at(fs, quant_scale, i) == quant_factor(q_p as int, matrix_view(scaling), i));
            }
            assert(levels@ =~= goal);
        }
        return Ok(levels);
    }
    let numerator: i64 = if intra {
        INTRA_ROUND
    } else {
        INTER_ROUND
    };
    let step: i64 = power(qbits);
    proof {
        lemma2_to64();
        lemma2_to64_rest();
        lemma_pow2_bound(qbits as nat, 54);
        assert(numerator * step <= 171 * 0x40_0000_0000_0000 && numerator * step >= 0) by (nonlinear_arith)
            requires
                0 <= numerator <= 171,
                1 <= step <= 0x40_0000_0000_0000,
        ;
    }
    let round_add: i64 = (numerator * step) / 512;
    let params = QuantParams { quant_scale, qbits, round_add, coeff_min: lowest, coeff_max: highest };
    match &factors {
        Some(f) => {
            proof {
                assert forall|i: int| 0 <= i < f@.len() implies #[trigger] f@[i] >= 0 by {
                    assert(0 <= factor_at(fs, quant_scale, i));
                }
            }
            quant_block(backend, levels.as_mut_slice(), coefficients, Some(f.as_slice()), params);
        },
        None => {
            quant_block(backend, levels.as_mut_slice(), coefficients, None, params);
        },
    }
    proof {
        assert forall|i: int| 0 <= i < count implies #[trigger] levels@[i] == goal[i] by {
            assert(factor_at(fs, quant_scale, i) == quant_factor(q_p as int, matrix_view(scaling), i));
        }
        assert(levels@ =~= goal);
    }
    Ok(levels)
}

fn quant_scale_of(q_p: u32) -> (s: i32)
    ensures
        s == QUANT_SCALE@[q_p as int % 6],
        14564 <= s <= 26214,
{
    let k: usize = (q_p % 6) as usize;
    QUANT_SCALE[k]
}

/// `( quantScale << 4 ) / m` at every position.
fn reciprocal_factors(quant_scale: i32, coef: &Vec<u16>) -> (f: Vec<i32>)
    requires
        0 <= quant_scale <= 26214,
    ensures
        f@.len() == coef@.len(),
        forall|i: int|
            0 <= i < f@.len() ==> #[trigger] f@[i] == (quant_scale * 16) / max(1, coef@[i] as int) && 0 <= f@[i]
                <= 26214 * 16,
{
    let mut f: Vec<i32> = Vec::new();
    let mut i: usize = 0;
    while i < coef.len()
        invariant
            i <= coef@.len(),
            0 <= quant_scale <= 26214,
            f@.len() == i,
            forall|j: int|
                0 <= j < i ==> #[trigger] f@[j] == (quant_scale * 16) / max(1, coef@[j] as int) && 0 <= f@[j]
                    <= 26214 * 16,
        decreases coef.len() - i,
    {
        let m: u32 = if coef[i] == 0 {
            1
        } else {
            coef[i] as u32
        };
        let numerator: u32 = quant_scale as u32 * 16;
        proof {
            vstd::arithmetic::div_mod::lemma_div_pos_is_pos(numerator as int, m as int);
            vstd::arithmetic::div_mod::lemma_div_is_ordered_by_denominator(numerator as int, 1, m as int);
        }
        f.push((numerator / m) as i32);
        i = i + 1;
    }
    f
}

/// A coefficient below two thirds of a step has level zero.
proof fn lemma_vanishing_level(c: int, factor: int, shift: nat, intra: bool, highest: int)
    requires
        -0x8000_0000 <= c <= 0x7fff_ffff,
        0 <= factor <= 26214 * 16,
        shift > 54,
        highest >= 0,
    ensures
        level(c, factor, rounding(shift, intra), shift, highest) == 0,
{
    lemma2_to64_rest();
    lemma_pow2_bound(55, shift);
    let p = pow2(shift) as int;
    assert(0 <= abs(c) * factor <= 0x8000_0000 * (26214 * 16)) by (nonlinear_arith)
        requires
            0 <= abs(c) <= 0x8000_0000,
            0 <= factor <= 26214 * 16,
    ;
    let r = rounding(shift, intra);
    assert(intra ==> r == (171 * p) / 512);
    assert(!intra ==> r == (85 * p) / 512);
    assert(0 <= abs(c) * factor + r < p);
    vstd::arithmetic::div_mod::lemma_basic_div(abs(c) * factor + r, p);
}

/// Inputs that the forward transform and quantization share for one block.
#[derive(Debug, Clone, Copy)]
pub struct ForwardBlockParams {
    /// `nTbS`: the transform-block side (4 / 8 / 16 / 32).
    pub n_tbs: usize,
    /// `qP`: the derived quantization parameter for this block.
    pub q_p: u32,
    /// The colour component.
    pub component: Component,
    /// The prediction mode of the coding unit.
    pub pred_mode: PredMode,
    /// `BitDepthY` for luma, `BitDepthC` for chroma.
    pub bit_depth: u8,
    /// `extended_precision_processing_flag`.
    pub extended_precision: bool,
}

/// Whether a block takes the alternate transform.
pub open spec fn takes_dst(n: int, pred_mode: PredMode, component: Component) -> bool {
    n == 4 && pred_mode == PredMode::Intra && component == Component::Luma
}

/// The levels that a residual block is coded with.
pub open spec fn residual_levels(
    residual: Seq<i32>,
    scaling: Option<Seq<u16>>,
    n: int,
    q_p: int,
    component: Component,
    pred_mode: PredMode,
    bit_depth: int,
    ext: bool,
) -> Seq<i32> {
    levels_of(
        coefficients_of(residual, n, takes_dst(n, pred_mode, component), bit_depth, ext),
        n,
        q_p,
        bit_depth,
        ext,
        pred_mode == PredMode::Intra,
        scaling,
    )
}

/// Runs the forward transform and then quantization for one block.
pub fn transform_and_quantize(
    residual: &[i32],
    scaling: Option<&ScalingFactorMatrix>,
    params: ForwardBlockParams,
) -> (r: Result<Vec<i32>, TransformError>)
    requires
        scaling matches Some(m) ==> m.wf(),
    ensures
        match r {
            Ok(l) => quantize_error(params.n_tbs, params.bit_depth, residual@.len(), scaling) is None && l@
                == residual_levels(
                residual@,
                matrix_view(scaling),
                params.n_tbs as int,
                params.q_p as int,
                params.component,
                params.pred_mode,
                params.bit_depth as int,
                params.extended_precision,
            ),
            Err(e) => quantize_error(params.n_tbs, params.bit_depth, residual@.len(), scaling) == Some(e),
        },
{
    transform_and_quantize_with_backend(Backend::Scalar, residual, scaling, params)
}

/// [`transform_and_quantize`] with an explicitly chosen instruction set.
pub fn transform_and_quantize_with_backend(
    backend: Backend,
    residual: &[i32],
    scaling: Option<&ScalingFactorMatrix>,
    params: ForwardBlockParams,
) -> (r: Result<Vec<i32>, TransformError>)
    requires
        scaling matches Some(m) ==> m.wf(),
    ensures
        match r {
            Ok(l) => quantize_error(params.n_tbs, params.bit_depth, residual@.len(), scaling) is None && l@
                == residual_levels(
                residual@,
                matrix_view(scaling),
                params.n_tbs as int,
                params.q_p as int,
                params.component,
                params.pred_mode,
                params.bit_depth as int,
                params.extended_precision,
            ),
            Err(e) => quantize_error(params.n_tbs, params.bit_depth, residual@.len(), scaling) == Some(e),
        },
{
    let tr_type: bool = use_dst(params.n_tbs, params.pred_mode, params.component);
    let coefficients: Vec<i32> = match forward_transform_with_backend(
        backend,
        residual,
        params.n_tbs,
        tr_type,
        params.bit_depth,
        params.extended_precision,
    ) {
        Ok(c) => c,
        Err(e) => return Err(e),
    };
    quantize_with_backend(
        backend,
        coefficients.as_slice(),
        params.n_tbs,
        params.q_p,
        params.bit_depth,
        params.extended_precision,
        params.pred_mode == PredMode::Intra,
        scaling,
    )
}

/// `QpBdOffset` at a bit depth.
pub open spec fn qp_bd_offset_of(bit_depth: int) -> int {
    6 * (bit_depth - 8)
}

fn qp_bd_offset(bit_depth: u8) -> (o: i32)
    ensures
        o == qp_bd_offset_of(bit_depth as int),
        -48 <= o <= 1482,
{
    6 * (bit_depth as i32 - 8)
}

/// The `qP` that a luma transform block quantizes with.
#[must_use]
pub fn luma_qp(qp_y: i32, bit_depth: u8) -> (q: u32)
    requires
        i32::MIN <= qp_y + qp_bd_offset_of(bit_depth as int) <= i32::MAX,
    ensures
        q == max(0, qp_y + qp_bd_offset_of(bit_depth as int)),
{
    let q: i32 = qp_y + qp_bd_offset(bit_depth);
    if q < 0 {
        0
    } else {
        q as u32
    }
}

/// The chroma QP mapping of 4:2:0: the identity below 30, then flattening.
pub open spec fn qpc_420_of(qpi: int) -> int {
    if qpi < 30 {
        qpi
    } else if qpi <= 33 {
        qpi - 1
    } else if qpi <= 43 {
        33 + (qpi - 34) / 2
    } else {
        qpi - 6
    }
}

pub(crate) fn qpc_420(qpi: i32) -> (q: i32)
    ensures
        q == qpc_420_of(qpi as int),
{
    if qpi < 30 {
        return qpi;
    }
    match qpi {
        30 => 29,
        31 => 30,
        32 => 31,
        33 => 32,
        34 | 35 => 33,
        36 | 37 => 34,
        38 | 39 => 35,
        40 | 41 => 36,
        42 | 43 => 37,
        x => x - 6,
    }
}

/// The `qP` that a chroma transform block quantizes with, from the luma QP and
/// the summed offset.
pub open spec fn chroma_qp_of(qp_y: int, offset: int, bit_depth: int, chroma_array_type: int) -> int {
    let qpi = clip3(-qp_bd_offset_of(bit_depth), 57, qp_y + offset);
    let qpc = if chroma_array_type == 1 {
        qpc_420_of(qpi)
    } else {
        min(qpi, 51)
    };
    max(0, qpc + qp_bd_offset_of(bit_depth))
}

/// Derive the `qP` that a chroma transform block quantizes with.
/// `chroma_qp_offset` is the sum of the PPS, slice and CU offsets.
#[must_use]
pub fn chroma_qp(qp_y: i32, chroma_qp_offset: i32, bit_depth_c: u8, chroma_array_type: u8) -> (q: u32)
    requires
        i32::MIN <= qp_y + chroma_qp_offset <= i32::MAX,
    ensures
        q == chroma_qp_of(qp_y as int, chroma_qp_offset as int, bit_depth_c as int, chroma_array_type as int),
{
    let qp_bd_c: i32 = qp_bd_offset(bit_depth_c);
    let sum: i32 = qp_y + chroma_qp_offset;
    let qpi: i32 = if sum < -qp_bd_c {
        -qp_bd_c
    } else if sum > 57 {
        57
    } else {
        sum
    };
    let qpc: i32 = if chroma_array_type == 1 {
        qpc_420(qpi)
    } else if qpi > 51 {
        51
    } else {
        qpi
    };
    let q: i32 = qpc + qp_bd_c;
    if q < 0 {
        0
    } else {
        q as u32
    }
}

/// The intra rounding offset is the larger one: intra quantization never rounds
/// a coefficient further towards zero than inter quantization does.
pub proof fn law_intra_keeps_at_least_as_much(
    coefficients: Seq<i32>,
    n: int,
    q_p: int,
    bit_depth: int,
    ext: bool,
    scaling: Option<Seq<u16>>,
    i: int,
)
    requires
        block_side(false, n),
        8 <= bit_depth <= 16,
        q_p >= 0,
    ensures
        abs(level_at(coefficients, n, q_p, bit_depth, ext, true, scaling, i)) >= abs(
            level_at(coefficients, n, q_p, bit_depth, ext, false, scaling, i),
        ),
{
    let shift = quant_shift(q_p, bit_depth, n, ext) as nat;
    let p = pow2(shift) as int;
    lemma_pow2_pos(shift);
    let c = coefficients[i] as int;
    let f = quant_factor(q_p, scaling, i);
    lemma_factor_nonnegative(q_p, scaling, i);
    let a = abs(c) * f;
    assert(a >= 0) by (nonlinear_arith)
        requires
            abs(c) >= 0,
            f >= 0,
            a == abs(c) * f,
    ;
    assert(rounding(shift, false) <= rounding(shift, true)) by {
        assert(85 * p <= 171 * p);
    }
    vstd::arithmetic::div_mod::lemma_div_is_ordered(a + rounding(shift, false), a + rounding(shift, true), p);
    vstd::arithmetic::div_mod::lemma_div_pos_is_pos(a + rounding(shift, false), p);
    lemma_pow2_pos(transform_range(bit_depth, ext) as nat);
}

proof fn lemma_factor_nonnegative(q_p: int, scaling: Option<Seq<u16>>, i: int)
    requires
        q_p >= 0,
    ensures
        quant_factor(q_p, scaling, i) >= 0,
{
    let scale = QUANT_SCALE@[q_p % 6] as int;
    assert(scale > 0);
    if let Some(m) = scaling {
        vstd::arithmetic::div_mod::lemma_div_pos_is_pos(scale * 16, max(1, m[i] as int));
    }
}

} // verus!
