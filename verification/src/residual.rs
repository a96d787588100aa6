//! `residual_coding()` on the write side: the bins of a block of quantized
//! levels.
//!
//! The writer covers the shape that the encoder emits: no transform skip, no
//! transquant bypass, no RDPCM, no sign-data hiding, no persistent Rice
//! adaptation, no bypass alignment, no extended precision.
use vstd::prelude::*;
use vstd::arithmetic::power2::{lemma2_to64, pow2};
use crate::arith::{abs, lemma_grid, lemma_pow2_bound, lemma_ungrid, min};
use crate::bins::{
    appended, bypass_bins, decision_bin, lemma_append, lemma_append_none, lemma_bypass_concat, put_bypass,
    put_bypass_bits, put_decision, put_ones, Bin, CTX_CODED_SUB_BLOCK, CTX_GREATER1, CTX_GREATER2, CTX_LAST_X, CTX_LAST_Y, CTX_SIG,
};
use crate::bits::{be_bits, lemma_width, width};
use crate::bitwriter::bit_width;
use crate::cabac_encoder::repeated;
use crate::scan::{
    area, law_scan_is_a_permutation, lemma_scan_bounds, scan_position, scan_x, scan_y, side, unscan, ScanIdx,
};

verus! {

/// The inputs of one `residual_coding()` invocation.
#[derive(Debug, Clone, Copy, PartialEq, Eq, Structural)]
pub struct ResidualWriteParams {
    /// `log2TrafoSize` of the transform block, 2..=5.
    pub log2_trafo_size: u32,
    /// `cIdx > 0`.
    pub is_chroma: bool,
    /// The scan order.
    pub scan_idx: ScanIdx,
}

/// The row-major index of coefficient `n` of sub-block `i`, both in scan order.
pub open spec fn coefficient_index(log2: int, idx: ScanIdx, i: int, n: int) -> int {
    let x = 4 * scan_x(log2 - 2, idx, i) + scan_x(2, idx, n);
    let y = 4 * scan_y(log2 - 2, idx, i) + scan_y(2, idx, n);
    y * side(log2) + x
}

/// The 16 levels of sub-block `i`, in scan order.
pub open spec fn sub_levels(levels: Seq<i32>, log2: int, idx: ScanIdx, i: int) -> Seq<i32> {
    Seq::new(16, |n: int| levels[coefficient_index(log2, idx, i, n)])
}

/// Whether the sub-block in column `xs` and row `ys` has a level other than zero.
pub open spec fn sub_block_coded(levels: Seq<i32>, log2: int, xs: int, ys: int) -> bool {
    exists|dx: int, dy: int|
        0 <= dx < 4 && 0 <= dy < 4 && #[trigger] levels[(4 * ys + dy) * side(log2) + (4 * xs + dx)] != 0
}

/// `coded_sub_block_flag` of a neighbour, zero outside the block.
pub open spec fn neighbour_coded(levels: Seq<i32>, log2: int, xs: int, ys: int) -> bool {
    xs < side(log2 - 2) && ys < side(log2 - 2) && sub_block_coded(levels, log2, xs, ys)
}

/// Level `m` in scan order, sub-block after sub-block.
pub open spec fn scanned(levels: Seq<i32>, log2: int, idx: ScanIdx, m: int) -> i32 {
    levels[coefficient_index(log2, idx, m / 16, m % 16)]
}

/// The last nonzero level in scan order at or before `m`, or -1.
pub open spec fn last_significant(levels: Seq<i32>, log2: int, idx: ScanIdx, m: int) -> int
    decreases m + 1,
{
    if m < 0 {
        -1
    } else if scanned(levels, log2, idx, m) != 0 {
        m
    } else {
        last_significant(levels, log2, idx, m - 1)
    }
}

/// `cMax` of the position prefixes.
pub open spec fn prefix_max(log2: int) -> int {
    2 * log2 - 1
}

/// The smallest position that each prefix stands for.
pub const LAST_BASE: [u32; 10] = [0, 1, 2, 3, 4, 6, 8, 12, 16, 24];

/// The prefix of a position.
pub open spec fn last_prefix(position: int) -> int {
    if position <= 3 {
        position
    } else if position < 6 {
        4
    } else if position < 8 {
        5
    } else if position < 12 {
        6
    } else if position < 16 {
        7
    } else if position < 24 {
        8
    } else {
        9
    }
}

/// How many suffix bits a prefix has.
pub open spec fn suffix_bits(prefix: int) -> int {
    if prefix > 3 {
        prefix / 2 - 1
    } else {
        0
    }
}

/// `ctxInc` of prefix bin `i`.
pub open spec fn prefix_ctx(log2: int, chroma: bool, i: int) -> int {
    if chroma {
        15 + i / side(log2 - 2)
    } else {
        3 * (log2 - 2) + (log2 - 1) / 4 + i / (if log2 >= 3 {
            2int
        } else {
            1int
        })
    }
}

/// The truncated unary code of a prefix: ones, then a zero unless at the maximum.
pub open spec fn prefix_bins(base: int, log2: int, chroma: bool, prefix: int) -> Seq<Bin> {
    Seq::new(
        (prefix + if prefix < prefix_max(log2) {
            1int
        } else {
            0int
        }) as nat,
        |i: int| decision_bin(base, prefix_ctx(log2, chroma, i), i < prefix),
    )
}

/// The suffix of a position, as fixed-length bins.
pub open spec fn suffix_bins(position: int) -> Seq<Bin> {
    let p = last_prefix(position);
    bypass_bins(be_bits((position - LAST_BASE@[p]) as nat, suffix_bits(p) as nat))
}

/// The position of the last significant coefficient: both prefixes, then both
/// suffixes. The vertical scan swaps the coordinates.
pub open spec fn last_position_bins(log2: int, chroma: bool, idx: ScanIdx, x: int, y: int) -> Seq<Bin> {
    let (a, b) = if idx == ScanIdx::Vertical {
        (y, x)
    } else {
        (x, y)
    };
    prefix_bins(CTX_LAST_X as int, log2, chroma, last_prefix(a)) + prefix_bins(
        CTX_LAST_Y as int,
        log2,
        chroma,
        last_prefix(b),
    ) + suffix_bins(a) + suffix_bins(b)
}

/// What the significance contexts of a sub-block depend on.
pub struct SigScope {
    pub log2: int,
    pub chroma: bool,
    pub idx: ScanIdx,
    /// The sub-block's column and row.
    pub xs: int,
    pub ys: int,
    /// Whether the sub-blocks to the right and below are coded.
    pub right: bool,
    pub below: bool,
}

/// `ctxIdxMap`: `sigCtx` of the positions of a 4x4 block.
pub const SIG_CTX_4X4: [u8; 16] = [0, 1, 4, 5, 2, 3, 4, 5, 6, 6, 8, 8, 7, 7, 8, 8];

/// The part of `sigCtx` that the neighbouring sub-blocks and the position decide.
pub open spec fn sig_pattern(right: bool, below: bool, xp: int, yp: int) -> int {
    if right && below {
        2
    } else if right {
        if yp == 0 {
            2
        } else if yp == 1 {
            1
        } else {
            0
        }
    } else if below {
        if xp == 0 {
            2
        } else if xp == 1 {
            1
        } else {
            0
        }
    } else if xp + yp == 0 {
        2
    } else if xp + yp < 3 {
        1
    } else {
        0
    }
}

/// `ctxInc` of the significance flag of scan position `n`.
pub open spec fn sig_ctx(s: SigScope, n: int) -> int {
    let xp = scan_x(2, s.idx, n);
    let yp = scan_y(2, s.idx, n);
    let ctx = if s.log2 == 2 {
        SIG_CTX_4X4@[4 * yp + xp] as int
    } else if s.xs == 0 && s.ys == 0 && xp == 0 && yp == 0 {
        0
    } else {
        let pattern = sig_pattern(s.right, s.below, xp, yp);
        if s.chroma {
            pattern + if s.log2 == 3 {
                9int
            } else {
                12int
            }
        } else {
            pattern + (if s.xs > 0 || s.ys > 0 {
                3int
            } else {
                0int
            }) + if s.log2 == 3 {
                if s.idx == ScanIdx::Diagonal {
                    9int
                } else {
                    15int
                }
            } else {
                21int
            }
        }
    };
    if s.chroma {
        27 + ctx
    } else {
        ctx
    }
}

/// Whether no level above scan position 0 is significant.
pub open spec fn only_dc(lv: Seq<i32>) -> bool {
    forall|n: int| 1 <= n < 16 ==> #[trigger] lv[n] == 0
}

/// The significance flags of positions `n - 1` down to 0. The one at position 0
/// is inferred (`infer`) when nothing above it is significant.
pub open spec fn sig_bins(s: SigScope, lv: Seq<i32>, infer: bool, n: int) -> Seq<Bin>
    decreases n,
{
    if n <= 0 {
        Seq::empty()
    } else if n == 1 && infer && only_dc(lv) {
        Seq::empty()
    } else {
        seq![decision_bin(CTX_SIG as int, sig_ctx(s, n - 1), lv[n - 1] != 0)] + sig_bins(s, lv, infer, n - 1)
    }
}

/// `ctxInc` of the greater-than-1 flag that follows `count` others in its
/// sub-block, of which one was set (`seen`) or none.
pub open spec fn greater1_ctx(set: int, chroma: bool, count: int, seen: bool) -> int {
    4 * set + (if seen {
        0
    } else {
        min(3, count + 1)
    }) + if chroma {
        16int
    } else {
        0int
    }
}

/// The greater-than-1 flags of positions `n - 1` down to 0, at most eight in the
/// sub-block.
pub open spec fn greater1_bins(lv: Seq<i32>, set: int, chroma: bool, n: int, count: int, seen: bool) -> Seq<Bin>
    decreases n,
{
    if n <= 0 {
        Seq::empty()
    } else if lv[n - 1] == 0 || count >= 8 {
        greater1_bins(lv, set, chroma, n - 1, count, seen)
    } else {
        let bin = abs(lv[n - 1] as int) > 1;
        seq![decision_bin(CTX_GREATER1 as int, greater1_ctx(set, chroma, count, seen), bin)] + greater1_bins(
            lv,
            set,
            chroma,
            n - 1,
            count + 1,
            seen || bin,
        )
    }
}

/// The first position from `n - 1` down whose greater-than-1 flag is set, or -1.
pub open spec fn first_greater1(lv: Seq<i32>, n: int, count: int) -> int
    decreases n,
{
    if n <= 0 || count >= 8 {
        -1
    } else if lv[n - 1] == 0 {
        first_greater1(lv, n - 1, count)
    } else if abs(lv[n - 1] as int) > 1 {
        n - 1
    } else {
        first_greater1(lv, n - 1, count + 1)
    }
}

/// The greater-than-2 flag, for the first position with a greater-than-1 flag.
pub open spec fn greater2_bins(lv: Seq<i32>, set: int, chroma: bool, first: int) -> Seq<Bin> {
    if first < 0 {
        Seq::empty()
    } else {
        seq![
            decision_bin(
                CTX_GREATER2 as int,
                set + if chroma {
                    4int
                } else {
                    0int
                },
                abs(lv[first] as int) > 2,
            ),
        ]
    }
}

/// The signs of the significant levels at positions `n - 1` down to 0.
pub open spec fn sign_bins(lv: Seq<i32>, n: int) -> Seq<Bin>
    decreases n,
{
    if n <= 0 {
        Seq::empty()
    } else if lv[n - 1] == 0 {
        sign_bins(lv, n - 1)
    } else {
        seq![Bin::Bypass { bit: lv[n - 1] < 0 }] + sign_bins(lv, n - 1)
    }
}

/// The Exp-Golomb code of order `k`: the place of the leading digit of
/// `v + 2^k` in unary, then its remaining digits.
pub open spec fn exp_golomb_bits(v: nat, k: nat) -> Seq<bool> {
    let q = v + pow2(k);
    let p = (width(q) - 1 - k) as nat;
    repeated(true, p) + seq![false] + be_bits(q, p + k)
}

/// The code of a remaining level: Golomb-Rice up to four steps, then Exp-Golomb.
pub open spec fn remaining_bits(v: nat, rice: nat) -> Seq<bool> {
    if v < 4 * pow2(rice) {
        repeated(true, v / pow2(rice)) + seq![false] + be_bits(v, rice)
    } else {
        repeated(true, 4) + exp_golomb_bits((v - 4 * pow2(rice)) as nat, rice + 1)
    }
}

/// The Rice parameter after a level of `last_abs` was coded with `last_rice`.
pub open spec fn next_rice(last_abs: int, last_rice: int) -> int {
    min(
        4,
        last_rice + if last_abs > 3 * pow2(last_rice as nat) {
            1int
        } else {
            0int
        },
    )
}

/// How much of the level at position `n` the flags tell, when `count` levels
/// of the sub-block come before it.
pub open spec fn flagged_level(lv: Seq<i32>, n: int, count: int, first: int) -> int {
    1 + (if count < 8 && abs(lv[n] as int) > 1 {
        1int
    } else {
        0int
    }) + if n == first && abs(lv[n] as int) > 2 {
        1int
    } else {
        0int
    }
}

/// The largest level that the flags can tell; at that level a remainder follows.
pub open spec fn flag_limit(n: int, count: int, first: int) -> int {
    if count >= 8 {
        1
    } else if n == first {
        3
    } else {
        2
    }
}

/// The remaining levels at positions `n - 1` down to 0.
pub open spec fn remaining_bins(
    lv: Seq<i32>,
    first: int,
    n: int,
    count: int,
    last_abs: int,
    last_rice: int,
) -> Seq<Bin>
    decreases n,
{
    if n <= 0 {
        Seq::empty()
    } else if lv[n - 1] == 0 {
        remaining_bins(lv, first, n - 1, count, last_abs, last_rice)
    } else {
        let size = abs(lv[n - 1] as int);
        let told = flagged_level(lv, n - 1, count, first);
        if told == flag_limit(n - 1, count, first) {
            let rice = next_rice(last_abs, last_rice);
            bypass_bins(remaining_bits((size - told) as nat, rice as nat)) + remaining_bins(
                lv,
                first,
                n - 1,
                count + 1,
                size,
                rice,
            )
        } else {
            remaining_bins(lv, first, n - 1, count + 1, last_abs, last_rice)
        }
    }
}

/// Whether a sub-block has a significant level.
pub open spec fn any_significant(lv: Seq<i32>) -> bool {
    exists|n: int| 0 <= n < 16 && #[trigger] lv[n] != 0
}

/// The context set of a sub-block's greater-than-1 flags: luma sub-blocks behind
/// the first use the upper two, and one is added when the sub-block before had a
/// flag set (`carry`).
pub open spec fn context_set(i: int, chroma: bool, carry: bool) -> int {
    (if i == 0 || chroma {
        0int
    } else {
        2int
    }) + if carry {
        1int
    } else {
        0int
    }
}

/// The levels of a sub-block, once its significance is known.
pub open spec fn level_bins(lv: Seq<i32>, set: int, chroma: bool) -> Seq<Bin> {
    let first = first_greater1(lv, 16, 0);
    greater1_bins(lv, set, chroma, 16, 0, false) + greater2_bins(lv, set, chroma, first) + sign_bins(lv, 16)
        + remaining_bins(lv, first, 16, 0, 0, 0)
}

/// The scope of sub-block `i` of a block.
pub open spec fn sig_scope(p: ResidualWriteParams, levels: Seq<i32>, i: int) -> SigScope {
    let log2 = p.log2_trafo_size as int;
    let xs = scan_x(log2 - 2, p.scan_idx, i);
    let ys = scan_y(log2 - 2, p.scan_idx, i);
    SigScope {
        log2,
        chroma: p.is_chroma,
        idx: p.scan_idx,
        xs,
        ys,
        right: neighbour_coded(levels, log2, xs + 1, ys),
        below: neighbour_coded(levels, log2, xs, ys + 1),
    }
}

/// `coded_sub_block_flag`, which the first and the last sub-block do without.
pub open spec fn coded_flag_bins(s: SigScope, explicit: bool, coded: bool) -> Seq<Bin> {
    if explicit {
        seq![
            decision_bin(
                CTX_CODED_SUB_BLOCK as int,
                (if s.chroma {
                    2int
                } else {
                    0int
                }) + if s.right || s.below {
                    1int
                } else {
                    0int
                },
                coded,
            ),
        ]
    } else {
        Seq::empty()
    }
}

/// Sub-block `i`, when level `last` is the last significant one of the block.
pub open spec fn sub_block_bins(p: ResidualWriteParams, levels: Seq<i32>, last: int, i: int, carry: bool) -> Seq<Bin> {
    let log2 = p.log2_trafo_size as int;
    let s = sig_scope(p, levels, i);
    let lv = sub_levels(levels, log2, p.scan_idx, i);
    let explicit = 0 < i < last / 16;
    let coded = !explicit || sub_block_coded(levels, log2, s.xs, s.ys);
    if coded {
        coded_flag_bins(s, explicit, true) + sig_bins(
            s,
            lv,
            explicit,
            if i == last / 16 {
                last % 16
            } else {
                16
            },
        ) + level_bins(lv, context_set(i, p.is_chroma, carry), p.is_chroma)
    } else {
        coded_flag_bins(s, explicit, false)
    }
}

/// What a sub-block hands on to the next: whether one of its greater-than-1
/// flags was set, or what it was handed when it has no flags.
pub open spec fn carry_after(lv: Seq<i32>, carry: bool) -> bool {
    if any_significant(lv) {
        first_greater1(lv, 16, 0) >= 0
    } else {
        carry
    }
}

/// Sub-blocks `i` down to 0.
pub open spec fn sub_blocks_bins(p: ResidualWriteParams, levels: Seq<i32>, last: int, i: int, carry: bool) -> Seq<Bin>
    decreases i + 1,
{
    if i < 0 {
        Seq::empty()
    } else {
        sub_block_bins(p, levels, last, i, carry) + sub_blocks_bins(
            p,
            levels,
            last,
            i - 1,
            carry_after(sub_levels(levels, p.log2_trafo_size as int, p.scan_idx, i), carry),
        )
    }
}

/// The bins of a block of levels.
pub open spec fn residual_bins(p: ResidualWriteParams, levels: Seq<i32>) -> Seq<Bin> {
    let log2 = p.log2_trafo_size as int;
    let last = last_significant(levels, log2, p.scan_idx, area(log2) - 1);
    let index = coefficient_index(log2, p.scan_idx, last / 16, last % 16);
    last_position_bins(log2, p.is_chroma, p.scan_idx, index % side(log2), index / side(log2)) + sub_blocks_bins(
        p,
        levels,
        last,
        last / 16,
        false,
    )
}

impl ResidualWriteParams {
    pub open spec fn wf(&self) -> bool {
        2 <= self.log2_trafo_size <= 5
    }
}

/// Some level is not zero.
pub open spec fn has_levels(levels: Seq<i32>) -> bool {
    exists|i: int| 0 <= i < levels.len() && #[trigger] levels[i] != 0
}

/// Whether `levels` has at least one non-zero coefficient: the `cbf` value that
/// the transform-unit syntax codes for this block.
#[must_use]
pub fn has_coded_levels(levels: &[i32]) -> (b: bool)
    ensures
        b == has_levels(levels@),
{
    let mut i: usize = 0;
    while i < levels.len()
        invariant
            i <= levels@.len(),
            forall|j: int| 0 <= j < i ==> #[trigger] levels@[j] == 0,
        decreases levels.len() - i,
    {
        if levels[i] != 0 {
            return true;
        }
        i = i + 1;
    }
    false
}

/// The bins of one remaining level at the given Rice parameter.
fn write_coeff_abs_level_remaining(sink: &mut Vec<Bin>, value: u32, c_rice_param: u32)
    requires
        c_rice_param <= 4,
    ensures
        appended(old(sink)@, final(sink)@, bypass_bins(remaining_bits(value as nat, c_rice_param as nat))),
{
    let ghost start = sink@;
    proof {
        lemma2_to64();
        lemma_pow2_bound(c_rice_param as nat, 4);
        vstd::bits::lemma_u32_shl_is_mul(1, c_rice_param);
    }
    let unit: u32 = 1u32 << c_rice_param;
    if value < 4 * unit {
        put_ones(sink, value / unit);
        let ghost s1 = sink@;
        put_bypass(sink, false);
        let ghost s2 = sink@;
        put_bypass_bits(sink, value as u64, c_rice_param);
        proof {
            let a = repeated(true, (value / unit) as nat);
            let b = be_bits(value as nat, c_rice_param as nat);
            let stop = seq![Bin::Bypass { bit: false }];
            lemma_bypass_concat(a, seq![false]);
            lemma_bypass_concat(a + seq![false], b);
            assert(bypass_bins(seq![false]) =~= stop);
            lemma_append(start, s1, s2, bypass_bins(a), stop, bypass_bins(a) + stop);
            lemma_append(start, s2, sink@, bypass_bins(a) + stop, bypass_bins(b), bypass_bins(a) + stop + bypass_bins(b));
        }
        return;
    }
    put_ones(sink, 4);
    let ghost s0 = sink@;
    let k: u32 = c_rice_param + 1;
    proof {
        lemma_pow2_bound(k as nat, 5);
        vstd::bits::lemma_u32_shl_is_mul(1, k);
    }
    // The offset by 2^k makes every group of the code an octave.
    let shifted: u32 = (value - 4 * unit) + (1u32 << k);
    let digits: u32 = bit_width(shifted) as u32;
    proof {
        lemma_width(shifted as nat);
        if digits <= k {
            lemma_pow2_bound(digits as nat, k as nat);
        }
    }
    let prefix_ones: u32 = digits - 1 - k;
    put_ones(sink, prefix_ones);
    let ghost s1 = sink@;
    put_bypass(sink, false);
    let ghost s2 = sink@;
    put_bypass_bits(sink, shifted as u64, digits - 1);
    proof {
        let v = (value - 4 * unit) as nat;
        let a = repeated(true, prefix_ones as nat);
        let b = be_bits(shifted as nat, (digits - 1) as nat);
        let stop = seq![Bin::Bypass { bit: false }];
        let ones = repeated(true, 4);
        lemma_bypass_concat(a, seq![false]);
        lemma_bypass_concat(a + seq![false], b);
        lemma_bypass_concat(ones, exp_golomb_bits(v, k as nat));
        assert(bypass_bins(seq![false]) =~= stop);
        let code = bypass_bins(a) + stop + bypass_bins(b);
        lemma_append(s0, s1, s2, bypass_bins(a), stop, bypass_bins(a) + stop);
        lemma_append(s0, s2, sink@, bypass_bins(a) + stop, bypass_bins(b), code);
        assert(code == bypass_bins(exp_golomb_bits(v, k as nat)));
        lemma_append(start, s0, sink@, bypass_bins(ones), code, bypass_bins(ones) + code);
    }
}

/// `cMax` of the position prefixes.
pub fn last_sig_coeff_prefix_cmax(log2_trafo_size: u32) -> (c: u32)
    requires
        2 <= log2_trafo_size <= 5,
    ensures
        c == prefix_max(log2_trafo_size as int),
{
    2 * log2_trafo_size - 1
}

/// How many suffix bits follow a prefix.
pub fn last_sig_coeff_suffix_n_bits(prefix: u32) -> (n: u32)
    requires
        prefix <= 9,
    ensures
        n == suffix_bits(prefix as int),
{
    if prefix > 3 {
        prefix / 2 - 1
    } else {
        0
    }
}

/// The position that a prefix and its suffix stand for.
pub fn last_sig_coeff_position(prefix: u32, suffix: Option<u32>) -> (p: u32)
    requires
        prefix <= 9,
        suffix matches Some(v) ==> v < 8,
    ensures
        p == LAST_BASE@[prefix as int] + match suffix {
            Some(v) => v as int,
            None => 0,
        },
{
    let base: u32 = LAST_BASE[prefix as usize];
    match suffix {
        Some(v) => base + v,
        None => base,
    }
}

/// The prefix and suffix of one coordinate of the last position.
pub fn last_sig_coeff_binarization(position: u32, log2_trafo_size: u32) -> (r: (u32, u32))
    requires
        2 <= log2_trafo_size <= 5,
        position < side(log2_trafo_size as int),
    ensures
        r.0 == last_prefix(position as int),
        r.1 == position - LAST_BASE@[r.0 as int],
        r.0 <= prefix_max(log2_trafo_size as int),
{
    if position <= 3 {
        return (position, 0);
    }
    let c_max: u32 = last_sig_coeff_prefix_cmax(log2_trafo_size);
    let mut prefix: u32 = 4;
    while prefix < c_max && last_sig_coeff_position(prefix + 1, Some(0)) <= position
        invariant
            4 <= prefix <= 9,
            prefix <= c_max <= 9,
            c_max == prefix_max(log2_trafo_size as int),
            2 <= log2_trafo_size <= 5,
            4 <= position < side(log2_trafo_size as int),
            LAST_BASE@[prefix as int] <= position,
        decreases 9 - prefix,
    {
        prefix = prefix + 1;
    }
    (prefix, position - last_sig_coeff_position(prefix, Some(0)))
}

/// Every position binarizes back to itself: its prefix and suffix stand for it,
/// the prefix is within the maximum and the suffix fits its bits.
pub proof fn law_last_position_binarizes_back(position: int, log2: int)
    requires
        2 <= log2 <= 5,
        0 <= position < side(log2),
    ensures
        ({
            let prefix = last_prefix(position);
            let suffix = position - LAST_BASE@[prefix];
            &&& 0 <= prefix <= prefix_max(log2)
            &&& LAST_BASE@[prefix] + suffix == position
            &&& 0 <= suffix < pow2(suffix_bits(prefix) as nat)
        }),
{
    lemma2_to64();
}

pub(crate) proof fn lemma_prefix_ctx_bound(log2: int, chroma: bool, i: int)
    requires
        2 <= log2 <= 5,
        0 <= i < prefix_max(log2),
    ensures
        0 <= prefix_ctx(log2, chroma, i) < 18,
{
    if chroma {
        if log2 == 2 {
            assert(i / side(0) == i / 1);
        } else if log2 == 3 {
            assert(i / side(1) == i / 2);
        } else if log2 == 4 {
            assert(i / side(2) == i / 4);
        } else {
            assert(i / side(3) == i / 8);
        }
    }
}

/// The prefix bins of one coordinate.
fn write_last_sig_prefix(sink: &mut Vec<Bin>, log2: u32, is_chroma: bool, base: usize, prefix: u32)
    requires
        2 <= log2 <= 5,
        base == CTX_LAST_X || base == CTX_LAST_Y,
        prefix <= prefix_max(log2 as int),
    ensures
        appended(old(sink)@, final(sink)@, prefix_bins(base as int, log2 as int, is_chroma, prefix as int)),
{
    let c_max: u32 = last_sig_coeff_prefix_cmax(log2);
    let total: u32 = if prefix < c_max {
        prefix + 1
    } else {
        prefix
    };
    let ghost bins = prefix_bins(base as int, log2 as int, is_chroma, prefix as int);
    let mut i: u32 = 0;
    proof {
        lemma_append_none(sink@, bins.take(0));
    }
    while i < total
        invariant
            i <= total,
            2 <= log2 <= 5,
            base == CTX_LAST_X || base == CTX_LAST_Y,
            prefix <= c_max,
            c_max == prefix_max(log2 as int),
            total == bins.len(),
            total <= c_max,
            bins == prefix_bins(base as int, log2 as int, is_chroma, prefix as int),
            appended(old(sink)@, sink@, bins.take(i as int)),
        decreases total - i,
    {
        let ctx: u32 = if is_chroma {
            let step: u32 = match log2 {
                2 => 1,
                3 => 2,
                4 => 4,
                _ => 8,
            };
            15 + i / step
        } else {
            let step: u32 = if log2 >= 3 {
                2
            } else {
                1
            };
            3 * (log2 - 2) + (log2 - 1) / 4 + i / step
        };
        proof {
            lemma_prefix_ctx_bound(log2 as int, is_chroma, i as int);
        }
        let ghost mid = sink@;
        put_decision(sink, base, ctx as usize, i < prefix);
        proof {
            assert(bins.take(i + 1) =~= bins.take(i as int) + seq![bins[i as int]]);
            lemma_append(old(sink)@, mid, sink@, bins.take(i as int), seq![bins[i as int]], bins.take(i + 1));
        }
        i = i + 1;
    }
    assert(bins.take(total as int) =~= bins);
}

/// The position of the last significant coefficient.
fn write_last_position(sink: &mut Vec<Bin>, p: &ResidualWriteParams, x: u32, y: u32)
    requires
        p.wf(),
        x < side(p.log2_trafo_size as int),
        y < side(p.log2_trafo_size as int),
    ensures
        appended(
            old(sink)@,
            final(sink)@,
            last_position_bins(p.log2_trafo_size as int, p.is_chroma, p.scan_idx, x as int, y as int),
        ),
{
    let log2: u32 = p.log2_trafo_size;
    let (wire_x, wire_y): (u32, u32) = if p.scan_idx == ScanIdx::Vertical {
        (y, x)
    } else {
        (x, y)
    };
    let ghost start = sink@;
    let (prefix_x, suffix_x) = last_sig_coeff_binarization(wire_x, log2);
    let (prefix_y, suffix_y) = last_sig_coeff_binarization(wire_y, log2);
    proof {
        law_last_position_binarizes_back(wire_x as int, log2 as int);
        law_last_position_binarizes_back(wire_y as int, log2 as int);
    }
    write_last_sig_prefix(sink, log2, p.is_chroma, CTX_LAST_X, prefix_x);
    let ghost s1 = sink@;
    write_last_sig_prefix(sink, log2, p.is_chroma, CTX_LAST_Y, prefix_y);
    let ghost s2 = sink@;
    put_bypass_bits(sink, suffix_x as u64, last_sig_coeff_suffix_n_bits(prefix_x));
    let ghost s3 = sink@;
    put_bypass_bits(sink, suffix_y as u64, last_sig_coeff_suffix_n_bits(prefix_y));
    proof {
        let a = prefix_bins(CTX_LAST_X as int, log2 as int, p.is_chroma, prefix_x as int);
        let b = prefix_bins(CTX_LAST_Y as int, log2 as int, p.is_chroma, prefix_y as int);
        let c = suffix_bins(wire_x as int);
        let d = suffix_bins(wire_y as int);
        lemma_append(start, s1, s2, a, b, a + b);
        lemma_append(start, s2, s3, a + b, c, a + b + c);
        lemma_append(start, s3, sink@, a + b + c, d, a + b + c + d);
    }
}

/// Where a sub-block stands, as far as its contexts depend on it.
struct Scope {
    log2: u32,
    chroma: bool,
    idx: ScanIdx,
    xs: usize,
    ys: usize,
    right: bool,
    below: bool,
}

impl View for Scope {
    type V = SigScope;

    closed spec fn view(&self) -> SigScope {
        SigScope {
            log2: self.log2 as int,
            chroma: self.chroma,
            idx: self.idx,
            xs: self.xs as int,
            ys: self.ys as int,
            right: self.right,
            below: self.below,
        }
    }
}

/// A coefficient of a sub-block lies inside its block.
pub proof fn lemma_coefficient_bounds(log2: int, idx: ScanIdx, i: int, n: int)
    requires
        2 <= log2 <= 5,
        0 <= i < area(log2 - 2),
        0 <= n < 16,
    ensures
        ({
            let x = 4 * scan_x(log2 - 2, idx, i) + scan_x(2, idx, n);
            let y = 4 * scan_y(log2 - 2, idx, i) + scan_y(2, idx, n);
            &&& 0 <= x < side(log2)
            &&& 0 <= y < side(log2)
            &&& 0 <= coefficient_index(log2, idx, i, n) < area(log2)
            &&& coefficient_index(log2, idx, i, n) % side(log2) == x
            &&& coefficient_index(log2, idx, i, n) / side(log2) == y
        }),
{
    lemma_scan_bounds(log2 - 2, idx, i);
    lemma_scan_bounds(2, idx, n);
    let x = 4 * scan_x(log2 - 2, idx, i) + scan_x(2, idx, n);
    let y = 4 * scan_y(log2 - 2, idx, i) + scan_y(2, idx, n);
    lemma_grid(y, x, side(log2), side(log2));
    lemma_area(log2);
}

pub proof fn lemma_area(k: int)
    requires
        0 <= k <= 5,
    ensures
        side(k) * side(k) == area(k),
{
    if k == 0 {
        assert(1 * 1 == 1);
    } else if k == 1 {
    } else if k == 2 {
    } else if k == 3 {
    } else if k == 4 {
    } else {
    }
}

fn side_of(k: u32) -> (n: usize)
    requires
        k <= 5,
    ensures
        n == side(k as int),
{
    match k {
        0 => 1,
        1 => 2,
        2 => 4,
        3 => 8,
        4 => 16,
        _ => 32,
    }
}

/// The 16 levels of sub-block `i`, in scan order.
fn read_sub_block(levels: &[i32], log2: u32, idx: ScanIdx, i: usize) -> (lv: Vec<i32>)
    requires
        2 <= log2 <= 5,
        levels@.len() == area(log2 as int),
        i < area(log2 - 2),
    ensures
        lv@ == sub_levels(levels@, log2 as int, idx, i as int),
{
    let size: usize = side_of(log2);
    let (xs, ys) = scan_position(log2 - 2, idx, i);
    let mut lv: Vec<i32> = Vec::new();
    let mut n: usize = 0;
    while n < 16
        invariant
            n <= 16,
            2 <= log2 <= 5,
            size == side(log2 as int),
            levels@.len() == area(log2 as int),
            i < area(log2 - 2),
            xs == scan_x(log2 - 2, idx, i as int),
            ys == scan_y(log2 - 2, idx, i as int),
            lv@ == sub_levels(levels@, log2 as int, idx, i as int).take(n as int),
        decreases 16 - n,
    {
        let (px, py) = scan_position(2, idx, n);
        proof {
            lemma_coefficient_bounds(log2 as int, idx, i as int, n as int);
            lemma_scan_bounds(log2 - 2, idx, i as int);
            assert((4 * ys + py) * size <= 32 * 32) by (nonlinear_arith)
                requires
                    4 * ys + py < 32,
                    size <= 32,
            ;
        }
        let v: i32 = levels[(4 * ys + py) * size + (4 * xs + px)];
        let ghost goal = sub_levels(levels@, log2 as int, idx, i as int);
        lv.push(v);
        assert(goal[n as int] == v);
        assert(lv@ =~= goal.take(n + 1));
        n = n + 1;
    }
    assert(lv@ =~= sub_levels(levels@, log2 as int, idx, i as int));
    lv
}

/// Whether the sub-block in column `xs` and row `ys` has a level other than zero.
fn sub_block_has_level(levels: &[i32], log2: u32, xs: usize, ys: usize) -> (b: bool)
    requires
        2 <= log2 <= 5,
        levels@.len() == area(log2 as int),
        xs < side(log2 - 2),
        ys < side(log2 - 2),
    ensures
        b == sub_block_coded(levels@, log2 as int, xs as int, ys as int),
{
    let size: usize = side_of(log2);
    let mut k: usize = 0;
    while k < 16
        invariant
            k <= 16,
            2 <= log2 <= 5,
            size == side(log2 as int),
            levels@.len() == area(log2 as int),
            xs < side(log2 - 2),
            ys < side(log2 - 2),
            forall|dx: int, dy: int|
                0 <= dx < 4 && 0 <= dy < 4 && 4 * dy + dx < k ==> #[trigger] levels@[(4 * ys + dy) * side(log2 as int) + (4
                    * xs + dx)] == 0,
        decreases 16 - k,
    {
        let dx: usize = k % 4;
        let dy: usize = k / 4;
        proof {
            lemma_grid(4 * ys + dy, 4 * xs + dx, size as int, size as int);
            lemma_area(log2 as int);
        }
        if levels[(4 * ys + dy) * size + (4 * xs + dx)] != 0 {
            assert(levels@[(4 * ys + dy) * side(log2 as int) + (4 * xs + dx)] != 0);
            return true;
        }
        k = k + 1;
    }
    false
}

fn neighbour_has_level(levels: &[i32], log2: u32, xs: usize, ys: usize) -> (b: bool)
    requires
        2 <= log2 <= 5,
        levels@.len() == area(log2 as int),
    ensures
        b == neighbour_coded(levels@, log2 as int, xs as int, ys as int),
{
    let n: usize = side_of(log2 - 2);
    xs < n && ys < n && sub_block_has_level(levels, log2, xs, ys)
}

pub(crate) proof fn lemma_sig_ctx_bound(s: SigScope, n: int)
    requires
        2 <= s.log2 <= 5,
        0 <= n < 16,
    ensures
        0 <= sig_ctx(s, n) < 42,
{
    lemma_scan_bounds(2, s.idx, n);
    let i = 4 * scan_y(2, s.idx, n) + scan_x(2, s.idx, n);
    lemma_sig_table(i);
}

proof fn lemma_sig_table(i: int)
    requires
        0 <= i < 16,
    ensures
        0 <= SIG_CTX_4X4@[i] <= 8,
{
}

/// `ctxInc` of the significance flag of scan position `n`.
fn sig_ctx_inc(s: &Scope, n: usize) -> (c: usize)
    requires
        2 <= s@.log2 <= 5,
        n < 16,
    ensures
        c == sig_ctx(s@, n as int),
        c < 42,
{
    let (xp, yp) = scan_position(2, s.idx, n);
    proof {
        lemma_sig_ctx_bound(s@, n as int);
        lemma_sig_table(4 * yp + xp);
    }
    let ctx: usize = if s.log2 == 2 {
        SIG_CTX_4X4[4 * yp + xp] as usize
    } else if s.xs == 0 && s.ys == 0 && xp == 0 && yp == 0 {
        0
    } else {
        let pattern: usize = if s.right && s.below {
            2
        } else if s.right {
            if yp == 0 {
                2
            } else if yp == 1 {
                1
            } else {
                0
            }
        } else if s.below {
            if xp == 0 {
                2
            } else if xp == 1 {
                1
            } else {
                0
            }
        } else if xp + yp == 0 {
            2
        } else if xp + yp < 3 {
            1
        } else {
            0
        };
        if s.chroma {
            if s.log2 == 3 {
                pattern + 9
            } else {
                pattern + 12
            }
        } else {
            let inner: usize = if s.xs > 0 || s.ys > 0 {
                3
            } else {
                0
            };
            let offset: usize = if s.log2 == 3 {
                if s.idx == ScanIdx::Diagonal {
                    9
                } else {
                    15
                }
            } else {
                21
            };
            pattern + inner + offset
        }
    };
    if s.chroma {
        27 + ctx
    } else {
        ctx
    }
}

/// The significance flags of positions `start - 1` down to 0.
fn write_sig_flags(sink: &mut Vec<Bin>, s: &Scope, lv: &Vec<i32>, infer: bool, start: usize)
    requires
        2 <= s@.log2 <= 5,
        lv@.len() == 16,
        start <= 16,
        infer ==> start == 16,
    ensures
        appended(old(sink)@, final(sink)@, sig_bins(s@, lv@, infer, start as int)),
{
    let ghost goal = sig_bins(s@, lv@, infer, start as int);
    let ghost mut done: Seq<Bin> = Seq::empty();
    let mut n: usize = start;
    // While no flag was set, the one at position 0 is inferred.
    let mut inferring: bool = infer;
    proof {
        lemma_append_none(sink@, done);
        assert(done + goal =~= goal);
    }
    while n > 0
        invariant
            n <= start <= 16,
            2 <= s@.log2 <= 5,
            lv@.len() == 16,
            infer ==> start == 16,
            appended(old(sink)@, sink@, done),
            done + sig_bins(s@, lv@, infer, n as int) == goal,
            inferring == (infer && forall|j: int| n <= j < 16 && j >= 1 ==> #[trigger] lv@[j] == 0),
        decreases n,
    {
        n = n - 1;
        let ghost rest = sig_bins(s@, lv@, infer, n as int);
        if n > 0 || !inferring {
            let significant: bool = lv[n] != 0;
            let ctx: usize = sig_ctx_inc(s, n);
            let ghost mid = sink@;
            put_decision(sink, CTX_SIG, ctx, significant);
            proof {
                let b = seq![decision_bin(CTX_SIG as int, ctx as int, significant)];
                if n == 0 && infer {
                    assert(!only_dc(lv@));
                }
                assert(sig_bins(s@, lv@, infer, n + 1) == b + rest);
                lemma_append(old(sink)@, mid, sink@, done, b, done + b);
                assert((done + b) + rest =~= done + (b + rest));
                done = done + b;
            }
            if significant && n > 0 {
                inferring = false;
            }
        } else {
            proof {
                assert(only_dc(lv@));
                assert(done + rest =~= goal);
            }
        }
    }
    proof {
        assert(done =~= goal);
    }
}

fn magnitude(v: i32) -> (m: u32)
    ensures
        m == abs(v as int),
{
    if v < 0 {
        (0 - v as i64) as u32
    } else {
        v as u32
    }
}

/// The greater-than-1 flags of a sub-block, and the first position with one set.
fn write_greater1_flags(sink: &mut Vec<Bin>, lv: &Vec<i32>, set: usize, chroma: bool) -> (first: i32)
    requires
        lv@.len() == 16,
        if chroma { set <= 1 } else { set <= 3 },
    ensures
        appended(old(sink)@, final(sink)@, greater1_bins(lv@, set as int, chroma, 16, 0, false)),
        first == first_greater1(lv@, 16, 0),
        -1 <= first < 16,
{
    let ghost goal = greater1_bins(lv@, set as int, chroma, 16, 0, false);
    let ghost mut done: Seq<Bin> = Seq::empty();
    let mut n: usize = 16;
    let mut count: usize = 0;
    let mut first: i32 = -1;
    proof {
        lemma_append_none(sink@, done);
        assert(done + goal =~= goal);
    }
    while n > 0
        invariant
            n <= 16,
            count <= 8,
            lv@.len() == 16,
            if chroma { set <= 1 } else { set <= 3 },
            appended(old(sink)@, sink@, done),
            done + greater1_bins(lv@, set as int, chroma, n as int, count as int, first >= 0) == goal,
            -1 <= first < 16,
            first >= 0 ==> first == first_greater1(lv@, 16, 0),
            first < 0 ==> first_greater1(lv@, n as int, count as int) == first_greater1(lv@, 16, 0),
        decreases n,
    {
        n = n - 1;
        if lv[n] != 0 && count < 8 {
            let bin: bool = magnitude(lv[n]) > 1;
            let step: usize = if first >= 0 {
                0
            } else if count >= 2 {
                3
            } else {
                count + 1
            };
            let ctx: usize = 4 * set + step + if chroma {
                16
            } else {
                0
            };
            let ghost mid = sink@;
            let ghost seen = first >= 0;
            put_decision(sink, CTX_GREATER1, ctx, bin);
            proof {
                let b = seq![decision_bin(CTX_GREATER1 as int, ctx as int, bin)];
                let rest = greater1_bins(lv@, set as int, chroma, n as int, count + 1, seen || bin);
                assert(greater1_bins(lv@, set as int, chroma, n + 1, count as int, seen) == b + rest);
                lemma_append(old(sink)@, mid, sink@, done, b, done + b);
                assert((done + b) + rest =~= done + (b + rest));
                done = done + b;
            }
            if bin && first < 0 {
                first = n as i32;
            }
            count = count + 1;
        }
    }
    proof {
        assert(done =~= goal);
    }
    first
}

/// The signs of a sub-block.
fn write_signs(sink: &mut Vec<Bin>, lv: &Vec<i32>)
    requires
        lv@.len() == 16,
    ensures
        appended(old(sink)@, final(sink)@, sign_bins(lv@, 16)),
{
    let ghost goal = sign_bins(lv@, 16);
    let ghost mut done: Seq<Bin> = Seq::empty();
    let mut n: usize = 16;
    proof {
        lemma_append_none(sink@, done);
        assert(done + goal =~= goal);
    }
    while n > 0
        invariant
            n <= 16,
            lv@.len() == 16,
            appended(old(sink)@, sink@, done),
            done + sign_bins(lv@, n as int) == goal,
        decreases n,
    {
        n = n - 1;
        if lv[n] != 0 {
            let bit: bool = lv[n] < 0;
            let ghost mid = sink@;
            put_bypass(sink, bit);
            proof {
                let b = seq![Bin::Bypass { bit }];
                let rest = sign_bins(lv@, n as int);
                lemma_append(old(sink)@, mid, sink@, done, b, done + b);
                assert((done + b) + rest =~= done + (b + rest));
                done = done + b;
            }
        }
    }
    proof {
        assert(done =~= goal);
    }
}

/// The remaining levels of a sub-block.
fn write_remaining_levels(sink: &mut Vec<Bin>, lv: &Vec<i32>, first: i32)
    requires
        lv@.len() == 16,
        first == first_greater1(lv@, 16, 0),
    ensures
        appended(old(sink)@, final(sink)@, remaining_bins(lv@, first as int, 16, 0, 0, 0)),
{
    let ghost goal = remaining_bins(lv@, first as int, 16, 0, 0, 0);
    let ghost mut done: Seq<Bin> = Seq::empty();
    let mut n: usize = 16;
    let mut count: u32 = 0;
    let mut last_abs: u32 = 0;
    let mut last_rice: u32 = 0;
    proof {
        lemma_append_none(sink@, done);
        assert(done + goal =~= goal);
    }
    while n > 0
        invariant
            n <= 16,
            count + n <= 16,
            lv@.len() == 16,
            last_rice <= 4,
            appended(old(sink)@, sink@, done),
            done + remaining_bins(lv@, first as int, n as int, count as int, last_abs as int, last_rice as int) == goal,
        decreases n,
    {
        n = n - 1;
        if lv[n] != 0 {
            let size: u32 = magnitude(lv[n]);
            let mut told: u32 = 1;
            if count < 8 && size > 1 {
                told = told + 1;
            }
            if n as i32 == first && size > 2 {
                told = told + 1;
            }
            let limit: u32 = if count >= 8 {
                1
            } else if n as i32 == first {
                3
            } else {
                2
            };
            if told == limit {
                proof {
                    lemma2_to64();
                    lemma_pow2_bound(last_rice as nat, 4);
                    vstd::bits::lemma_u32_shl_is_mul(1, last_rice);
                }
                let unit: u32 = 1u32 << last_rice;
                let rice: u32 = if last_abs > 3 * unit && last_rice < 4 {
                    last_rice + 1
                } else {
                    last_rice
                };
                let ghost mid = sink@;
                write_coeff_abs_level_remaining(sink, size - told, rice);
                proof {
                    let b = bypass_bins(remaining_bits((size - told) as nat, rice as nat));
                    let rest = remaining_bins(lv@, first as int, n as int, count + 1, size as int, rice as int);
                    assert(rice == next_rice(last_abs as int, last_rice as int));
                    lemma_append(old(sink)@, mid, sink@, done, b, done + b);
                    assert((done + b) + rest =~= done + (b + rest));
                    done = done + b;
                }
                last_abs = size;
                last_rice = rice;
            }
            count = count + 1;
        }
    }
    proof {
        assert(done =~= goal);
    }
}

/// The levels of a sub-block whose significance is known. The result tells
/// whether a greater-than-1 flag was set.
fn write_levels(sink: &mut Vec<Bin>, lv: &Vec<i32>, set: usize, chroma: bool) -> (flagged: bool)
    requires
        lv@.len() == 16,
        if chroma { set <= 1 } else { set <= 3 },
    ensures
        appended(old(sink)@, final(sink)@, level_bins(lv@, set as int, chroma)),
        flagged == (first_greater1(lv@, 16, 0) >= 0),
{
    let ghost s0 = sink@;
    let first: i32 = write_greater1_flags(sink, lv, set, chroma);
    let ghost s1 = sink@;
    if first >= 0 {
        let ctx: usize = set + if chroma {
            4
        } else {
            0
        };
        put_decision(sink, CTX_GREATER2, ctx, magnitude(lv[first as usize]) > 2);
    } else {
        proof {
            lemma_append_none(sink@, greater2_bins(lv@, set as int, chroma, first as int));
        }
    }
    let ghost s2 = sink@;
    write_signs(sink, lv);
    let ghost s3 = sink@;
    write_remaining_levels(sink, lv, first);
    proof {
        let a = greater1_bins(lv@, set as int, chroma, 16, 0, false);
        let b = greater2_bins(lv@, set as int, chroma, first as int);
        let c = sign_bins(lv@, 16);
        let d = remaining_bins(lv@, first as int, 16, 0, 0, 0);
        lemma_append(s0, s1, s2, a, b, a + b);
        lemma_append(s0, s2, s3, a + b, c, a + b + c);
        lemma_append(s0, s3, sink@, a + b + c, d, a + b + c + d);
    }
    first >= 0
}

/// Sub-block `i`. The result is what it hands on to the next.
fn write_sub_block(sink: &mut Vec<Bin>, p: &ResidualWriteParams, levels: &[i32], last: usize, i: usize, carry: bool) -> (next:
    bool)
    requires
        p.wf(),
        levels@.len() == area(p.log2_trafo_size as int),
        i <= last / 16,
        last < area(p.log2_trafo_size as int),
    ensures
        appended(old(sink)@, final(sink)@, sub_block_bins(*p, levels@, last as int, i as int, carry)),
        next == carry_after(sub_levels(levels@, p.log2_trafo_size as int, p.scan_idx, i as int), carry),
{
    let log2: u32 = p.log2_trafo_size;
    let (xs, ys) = scan_position(log2 - 2, p.scan_idx, i);
    let s = Scope {
        log2,
        chroma: p.is_chroma,
        idx: p.scan_idx,
        xs,
        ys,
        right: neighbour_has_level(levels, log2, xs + 1, ys),
        below: neighbour_has_level(levels, log2, xs, ys + 1),
    };
    assert(s@ == sig_scope(*p, levels@, i as int));
    let explicit: bool = i > 0 && i < last / 16;
    let coded: bool = !explicit || sub_block_has_level(levels, log2, xs, ys);
    let ghost s0 = sink@;
    if explicit {
        let base: usize = if s.chroma {
            2
        } else {
            0
        };
        let near: usize = if s.right || s.below {
            1
        } else {
            0
        };
        put_decision(sink, CTX_CODED_SUB_BLOCK, base + near, coded);
    } else {
        proof {
            lemma_append_none(sink@, coded_flag_bins(s@, explicit, coded));
        }
    }
    let lv: Vec<i32> = read_sub_block(levels, log2, p.scan_idx, i);
    if !coded {
        proof {
            lemma_uncoded(levels@, log2 as int, p.scan_idx, i as int);
        }
        return carry;
    }
    let ghost s1 = sink@;
    let start: usize = if i == last / 16 {
        last % 16
    } else {
        16
    };
    write_sig_flags(sink, &s, &lv, explicit, start);
    let ghost s2 = sink@;
    let set: usize = (if i == 0 || p.is_chroma {
        0usize
    } else {
        2usize
    }) + if carry {
        1usize
    } else {
        0usize
    };
    let flagged: bool = write_levels(sink, &lv, set, p.is_chroma);
    let any: bool = has_coded_levels(lv.as_slice());
    proof {
        let a = coded_flag_bins(s@, explicit, coded);
        let b = sig_bins(s@, lv@, explicit, start as int);
        let c = level_bins(lv@, set as int, p.is_chroma);
        lemma_append(s0, s1, s2, a, b, a + b);
        lemma_append(s0, s2, sink@, a + b, c, a + b + c);
        assert(any == any_significant(lv@));
    }
    if any {
        flagged
    } else {
        carry
    }
}

/// A sub-block without levels has none in scan order either.
pub(crate) proof fn lemma_uncoded(levels: Seq<i32>, log2: int, idx: ScanIdx, i: int)
    requires
        2 <= log2 <= 5,
        levels.len() == area(log2),
        0 <= i < area(log2 - 2),
        !sub_block_coded(levels, log2, scan_x(log2 - 2, idx, i), scan_y(log2 - 2, idx, i)),
    ensures
        !any_significant(sub_levels(levels, log2, idx, i)),
{
    let xs = scan_x(log2 - 2, idx, i);
    let ys = scan_y(log2 - 2, idx, i);
    let lv = sub_levels(levels, log2, idx, i);
    assert forall|n: int| 0 <= n < 16 implies #[trigger] lv[n] == 0 by {
        lemma_scan_bounds(2, idx, n);
        let dx = scan_x(2, idx, n);
        let dy = scan_y(2, idx, n);
        assert(levels[(4 * ys + dy) * side(log2) + (4 * xs + dx)] == 0);
    }
}

/// The place in scan order of row-major position `r`.
pub open spec fn scan_step(log2: int, idx: ScanIdx, r: int) -> int {
    let x = r % side(log2);
    let y = r / side(log2);
    16 * unscan(log2 - 2, idx, (y / 4) * side(log2 - 2) + x / 4) + unscan(2, idx, (y % 4) * 4 + x % 4)
}

/// Every position has its place in scan order.
pub proof fn lemma_scan_step(log2: int, idx: ScanIdx, r: int)
    requires
        2 <= log2 <= 5,
        0 <= r < area(log2),
    ensures
        0 <= scan_step(log2, idx, r) < area(log2),
        coefficient_index(log2, idx, scan_step(log2, idx, r) / 16, scan_step(log2, idx, r) % 16) == r,
{
    let n = side(log2);
    let x = r % n;
    let y = r / n;
    lemma_area(log2);
    lemma_area(log2 - 2);
    lemma_ungrid(r, n, n);
    let w = side(log2 - 2);
    assert(n == 4 * w);
    lemma_grid(y / 4, x / 4, w, w);
    let block = (y / 4) * w + x / 4;
    let inner = (y % 4) * 4 + x % 4;
    law_scan_is_a_permutation(log2 - 2, idx, block);
    law_scan_is_a_permutation(2, idx, inner);
    let i = unscan(log2 - 2, idx, block);
    let k = unscan(2, idx, inner);
    assert(scan_step(log2, idx, r) == 16 * i + k);
    assert((16 * i + k) / 16 == i && (16 * i + k) % 16 == k);
    assert(inner % 4 == x % 4 && inner / 4 == y % 4);
    assert(16 * area(log2 - 2) == area(log2));
}

/// A block all of whose scanned levels are zero has none.
pub(crate) proof fn lemma_every_position_scanned(levels: Seq<i32>, log2: int, idx: ScanIdx)
    requires
        2 <= log2 <= 5,
        levels.len() == area(log2),
        forall|j: int| 0 <= j < area(log2) ==> #[trigger] scanned(levels, log2, idx, j) == 0,
    ensures
        !has_levels(levels),
{
    assert forall|r: int| 0 <= r < levels.len() implies #[trigger] levels[r] == 0 by {
        lemma_scan_step(log2, idx, r);
        assert(scanned(levels, log2, idx, scan_step(log2, idx, r)) == 0);
    }
}

/// Append the bins of one `residual_coding()` body for the quantized levels of a
/// block, row-major by `y`.
///
/// The caller has coded the block's `cbf`; a block without levels has no
/// `residual_coding()` at all.
pub fn write_residual_coding(sink: &mut Vec<Bin>, params: &ResidualWriteParams, levels: &[i32])
    requires
        params.wf(),
        levels@.len() == area(params.log2_trafo_size as int),
        has_levels(levels@),
    ensures
        appended(old(sink)@, final(sink)@, residual_bins(*params, levels@)),
{
    let log2: u32 = params.log2_trafo_size;
    let idx: ScanIdx = params.scan_idx;
    let size: usize = side_of(log2);
    let ghost all = area(log2 as int);

    // Locate the last significant coefficient in scan order.
    let mut m: usize = levels.len() - 1;
    let mut i: usize = m / 16;
    let mut lv: Vec<i32> = read_sub_block(levels, log2, idx, i);
    while lv[m % 16] == 0
        invariant
            2 <= log2 <= 5,
            all == area(log2 as int),
            levels@.len() == all,
            m < all,
            i == m / 16,
            lv@ == sub_levels(levels@, log2 as int, idx, i as int),
            last_significant(levels@, log2 as int, idx, all - 1) == last_significant(levels@, log2 as int, idx, m as int),
            has_levels(levels@),
            forall|j: int| m < j < all ==> #[trigger] scanned(levels@, log2 as int, idx, j) == 0,
        decreases m,
    {
        proof {
            if m == 0 {
                lemma_every_position_scanned(levels@, log2 as int, idx);
            }
        }
        m = m - 1;
        if m / 16 != i {
            i = m / 16;
            lv = read_sub_block(levels, log2, idx, i);
        }
    }
    let last: usize = m;
    let (xs, ys) = scan_position(log2 - 2, idx, i);
    let (px, py) = scan_position(2, idx, last % 16);
    proof {
        lemma_coefficient_bounds(log2 as int, idx, i as int, last as int % 16);
    }
    let x: u32 = (4 * xs + px) as u32;
    let y: u32 = (4 * ys + py) as u32;
    let ghost s0 = sink@;
    write_last_position(sink, params, x, y);
    let ghost s1 = sink@;
    let ghost head = last_position_bins(log2 as int, params.is_chroma, idx, x as int, y as int);

    let ghost tail = sub_blocks_bins(*params, levels@, last as int, i as int, false);
    let ghost mut done: Seq<Bin> = Seq::empty();
    let mut carry: bool = false;
    let mut left: usize = i + 1;
    proof {
        lemma_append_none(sink@, done);
        assert(done + tail =~= tail);
    }
    while left > 0
        invariant
            params.wf(),
            log2 == params.log2_trafo_size,
            levels@.len() == area(log2 as int),
            last < area(log2 as int),
            left <= last / 16 + 1,
            appended(s1, sink@, done),
            done + sub_blocks_bins(*params, levels@, last as int, left - 1, carry) == tail,
        decreases left,
    {
        left = left - 1;
        let ghost mid = sink@;
        let ghost before = carry;
        carry = write_sub_block(sink, params, levels, last, left, carry);
        proof {
            let b = sub_block_bins(*params, levels@, last as int, left as int, before);
            let rest = sub_blocks_bins(*params, levels@, last as int, left - 1, carry);
            lemma_append(s1, mid, sink@, done, b, done + b);
            assert((done + b) + rest =~= done + (b + rest));
            done = done + b;
        }
    }
    proof {
        assert(done =~= tail);
        lemma_append(s0, s1, sink@, head, tail, head + tail);
    }
}

} // verus!
