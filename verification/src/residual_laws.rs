//! What the bins of a block of levels tell: the levels themselves.
use vstd::prelude::*;
use vstd::arithmetic::div_mod::{lemma_fundamental_div_mod, lemma_fundamental_div_mod_converse};
use vstd::arithmetic::power2::{lemma2_to64, lemma_pow2_pos, lemma_pow2_unfold, pow2};
use crate::arith::{abs, lemma_grid, lemma_pow2_bound, lemma_ungrid};
use crate::bins::{bypass_bins, decision_bin, Bin, CTX_GREATER1, CTX_LAST_X, CTX_LAST_Y, CTX_SIG};
use crate::bits::{be_bits, lemma_width, width};
use crate::cabac_encoder::repeated;
use crate::forks::{
    fork_at, forks, inner, inner_bin, lemma_fork_bypass, lemma_fork_concat, lemma_fork_first, lemma_inner_bypass,
    lemma_inner_concat, lemma_inner_decision, lemma_part_concat, lemma_part_field, lemma_part_unary, lemma_part_value,
    part_at, parts,
};
use crate::residual::{
    any_significant, carry_after, coded_flag_bins, coefficient_index, context_set, exp_golomb_bits, first_greater1,
    flag_limit, flagged_level, greater1_bins, greater1_ctx, greater2_bins, has_levels, last_position_bins, last_prefix,
    last_significant, law_last_position_binarizes_back, lemma_area, lemma_coefficient_bounds,
    lemma_every_position_scanned, lemma_prefix_ctx_bound, lemma_scan_step, lemma_sig_ctx_bound, lemma_uncoded, level_bins, next_rice, only_dc, prefix_bins,
    prefix_max, remaining_bins, remaining_bits, residual_bins, scan_step, scanned, sig_bins, sig_ctx, sig_scope,
    sign_bins, sub_block_bins, sub_block_coded, sub_blocks_bins, sub_levels, suffix_bins, suffix_bits,
    ResidualWriteParams, SigScope, LAST_BASE,
};
use crate::scan::{
    area, law_scan_is_a_permutation, lemma_scan_bounds, scan_raster, scan_x, scan_y, side, unscan, ScanIdx, DIAGONAL_2,
    DIAGONAL_4, DIAGONAL_8, UNDIAGONAL_2, UNDIAGONAL_4, UNDIAGONAL_8,
};

verus! {

/// Numbers in one octave differ in the digits behind the first.
proof fn lemma_octave(u: nat, v: nat, n: nat)
    requires
        width(u) == n + 1,
        width(v) == n + 1,
        u != v,
    ensures
        u % pow2(n) != v % pow2(n),
{
    lemma_width(u);
    lemma_width(v);
    lemma_pow2_unfold(n + 1);
    lemma_pow2_pos(n);
    let p = pow2(n) as int;
    lemma_fundamental_div_mod_converse(u as int, p, 1, u - p);
    lemma_fundamental_div_mod_converse(v as int, p, 1, v - p);
}

proof fn lemma_exp_golomb_parts(u: nat, v: nat, k: nat)
    requires
        u != v,
    ensures
        parts(exp_golomb_bits(u, k), exp_golomb_bits(v, k)),
{
    let qu = u + pow2(k);
    let qv = v + pow2(k);
    lemma_pow2_pos(k);
    lemma_width(qu);
    lemma_width(qv);
    lemma_prefix_room(qu, k);
    lemma_prefix_room(qv, k);
    let pu = (width(qu) - 1 - k) as nat;
    let pv = (width(qv) - 1 - k) as nat;
    if pu != pv {
        lemma_part_unary(pu, be_bits(qu, pu + k), pv, be_bits(qv, pv + k));
    } else {
        lemma_octave(qu, qv, pu + k);
        lemma_part_field(qu, qv, pu + k);
        lemma_part_concat(
            repeated(true, pu) + seq![false],
            be_bits(qu, pu + k),
            repeated(true, pv) + seq![false],
            be_bits(qv, pv + k),
        );
    }
}

/// A number of at least `2^k` has more than `k` digits.
pub proof fn lemma_prefix_room(q: nat, k: nat)
    requires
        q >= pow2(k),
    ensures
        width(q) >= k + 1,
{
    lemma_width(q);
    lemma_pow2_pos(k);
    if width(q) <= k {
        if width(q) < k {
            vstd::arithmetic::power2::lemma_pow2_strictly_increases(width(q), k);
        }
    }
}

/// The codes of different remaining levels part.
proof fn lemma_remaining_parts(u: nat, v: nat, rice: nat)
    requires
        u != v,
    ensures
        parts(remaining_bits(u, rice), remaining_bits(v, rice)),
{
    lemma_pow2_pos(rice);
    let unit = pow2(rice);
    let qu = u / unit;
    let qv = v / unit;
    lemma_fundamental_div_mod(u as int, unit as int);
    lemma_fundamental_div_mod(v as int, unit as int);
    let low_u = be_bits(u, rice);
    let low_v = be_bits(v, rice);
    if u < 4 * unit && v < 4 * unit {
        if qu != qv {
            lemma_part_unary(qu, low_u, qv, low_v);
        } else {
            lemma_part_field(u, v, rice);
            lemma_part_concat(repeated(true, qu) + seq![false], low_u, repeated(true, qv) + seq![false], low_v);
        }
    } else if u >= 4 * unit && v >= 4 * unit {
        let a = (u - 4 * unit) as nat;
        let b = (v - 4 * unit) as nat;
        lemma_exp_golomb_parts(a, b, rice + 1);
        lemma_part_concat(repeated(true, 4), exp_golomb_bits(a, rice + 1), repeated(true, 4), exp_golomb_bits(b, rice + 1));
    } else if u < 4 * unit {
        lemma_few_steps(u, unit);
        assert(part_at(remaining_bits(u, rice), remaining_bits(v, rice), qu as int));
    } else {
        lemma_few_steps(v, unit);
        assert(part_at(remaining_bits(u, rice), remaining_bits(v, rice), qv as int));
    }
}

proof fn lemma_few_steps(u: nat, unit: nat)
    by (nonlinear_arith)
    requires
        unit > 0,
        u < 4 * unit,
    ensures
        u / unit < 4,
{
}

/// Different prefixes fork.
proof fn lemma_prefix_forks(base: int, log2: int, chroma: bool, p: int, q: int)
    requires
        p != q,
        0 <= p <= prefix_max(log2),
        0 <= q <= prefix_max(log2),
    ensures
        forks(prefix_bins(base, log2, chroma, p), prefix_bins(base, log2, chroma, q)),
{
    let k = if p < q {
        p
    } else {
        q
    };
    assert(fork_at(prefix_bins(base, log2, chroma, p), prefix_bins(base, log2, chroma, q), k));
}

/// Different positions with one prefix have suffixes that fork.
proof fn lemma_suffix_forks(a: int, b: int, log2: int)
    requires
        2 <= log2 <= 5,
        0 <= a < side(log2),
        0 <= b < side(log2),
        a != b,
        last_prefix(a) == last_prefix(b),
    ensures
        forks(suffix_bins(a), suffix_bins(b)),
{
    law_last_position_binarizes_back(a, log2);
    law_last_position_binarizes_back(b, log2);
    let p = last_prefix(a);
    let n = suffix_bits(p) as nat;
    let u = (a - LAST_BASE@[p]) as nat;
    let v = (b - LAST_BASE@[p]) as nat;
    lemma_part_value(u, v, n);
    lemma_fork_bypass(be_bits(u, n), be_bits(v, n));
}

/// Different last positions fork.
proof fn lemma_last_position_forks(log2: int, chroma: bool, idx: ScanIdx, x1: int, y1: int, x2: int, y2: int)
    requires
        2 <= log2 <= 5,
        0 <= x1 < side(log2),
        0 <= y1 < side(log2),
        0 <= x2 < side(log2),
        0 <= y2 < side(log2),
        x1 != x2 || y1 != y2,
    ensures
        forks(last_position_bins(log2, chroma, idx, x1, y1), last_position_bins(log2, chroma, idx, x2, y2)),
{
    let (a1, b1) = if idx == ScanIdx::Vertical {
        (y1, x1)
    } else {
        (x1, y1)
    };
    let (a2, b2) = if idx == ScanIdx::Vertical {
        (y2, x2)
    } else {
        (x2, y2)
    };
    law_last_position_binarizes_back(a1, log2);
    law_last_position_binarizes_back(b1, log2);
    law_last_position_binarizes_back(a2, log2);
    law_last_position_binarizes_back(b2, log2);
    let pa1 = prefix_bins(CTX_LAST_X as int, log2, chroma, last_prefix(a1));
    let pa2 = prefix_bins(CTX_LAST_X as int, log2, chroma, last_prefix(a2));
    let pb1 = prefix_bins(CTX_LAST_Y as int, log2, chroma, last_prefix(b1));
    let pb2 = prefix_bins(CTX_LAST_Y as int, log2, chroma, last_prefix(b2));
    if last_prefix(a1) != last_prefix(a2) {
        lemma_prefix_forks(CTX_LAST_X as int, log2, chroma, last_prefix(a1), last_prefix(a2));
    } else if last_prefix(b1) != last_prefix(b2) {
        lemma_prefix_forks(CTX_LAST_Y as int, log2, chroma, last_prefix(b1), last_prefix(b2));
    } else if a1 != a2 {
        lemma_suffix_forks(a1, a2, log2);
    } else {
        lemma_suffix_forks(b1, b2, log2);
    }
    if last_prefix(a1) != last_prefix(a2) || last_prefix(b1) != last_prefix(b2) {
        lemma_fork_concat(pa1, pb1, pa2, pb2);
    }
    if last_prefix(a1) != last_prefix(a2) || last_prefix(b1) != last_prefix(b2) || a1 != a2 {
        lemma_fork_concat(pa1 + pb1, suffix_bins(a1), pa2 + pb2, suffix_bins(a2));
    }
    lemma_fork_concat(pa1 + pb1 + suffix_bins(a1), suffix_bins(b1), pa2 + pb2 + suffix_bins(a2), suffix_bins(b2));
}

/// Two sub-blocks are significant at the same positions, from `n` up.
pub open spec fn same_significance(a: Seq<i32>, b: Seq<i32>, n: int) -> bool {
    forall|j: int| n <= j < 16 ==> (#[trigger] a[j] != 0) == (b[j] != 0)
}

proof fn lemma_only_dc(a: Seq<i32>, b: Seq<i32>)
    requires
        same_significance(a, b, 1),
    ensures
        only_dc(a) == only_dc(b),
{
    if only_dc(a) {
        assert forall|n: int| 1 <= n < 16 implies #[trigger] b[n] == 0 by {
            assert(a[n] == 0);
        }
    }
    if only_dc(b) {
        assert forall|n: int| 1 <= n < 16 implies #[trigger] a[n] == 0 by {
            assert(b[n] == 0);
        }
    }
}

/// The significance flags below `n` fork, or the sub-blocks are significant at the
/// same positions.
proof fn lemma_sig_forks(s: SigScope, a: Seq<i32>, b: Seq<i32>, infer: bool, n: int)
    requires
        0 <= n <= 16,
        same_significance(a, b, n),
        infer ==> any_significant(a) && any_significant(b),
    ensures
        forks(sig_bins(s, a, infer, n), sig_bins(s, b, infer, n)) || sig_bins(s, a, infer, n) == sig_bins(
            s,
            b,
            infer,
            n,
        ) && same_significance(a, b, 0),
    decreases n,
{
    if n > 0 {
        if n == 1 {
            lemma_only_dc(a, b);
        }
        if n == 1 && infer && only_dc(a) {
            assert(a[0] != 0) by {
                let k = choose|k: int| 0 <= k < 16 && #[trigger] a[k] != 0;
            }
            assert(b[0] != 0) by {
                let k = choose|k: int| 0 <= k < 16 && #[trigger] b[k] != 0;
            }
            assert(same_significance(a, b, 0));
        } else {
            let x = decision_bin(CTX_SIG as int, sig_ctx(s, n - 1), a[n - 1] != 0);
            let y = decision_bin(CTX_SIG as int, sig_ctx(s, n - 1), b[n - 1] != 0);
            let rest_a = sig_bins(s, a, infer, n - 1);
            let rest_b = sig_bins(s, b, infer, n - 1);
            if (a[n - 1] != 0) != (b[n - 1] != 0) {
                lemma_fork_first(x, y, rest_a, rest_b);
            } else {
                lemma_sig_forks(s, a, b, infer, n - 1);
                if forks(rest_a, rest_b) {
                    lemma_fork_concat(seq![x], rest_a, seq![y], rest_b);
                }
            }
        }
    }
}

/// The greater-than-1 flags fork, or they are the same and the same position is
/// the first with one set.
proof fn lemma_greater1_forks(a: Seq<i32>, b: Seq<i32>, set: int, chroma: bool, n: int, count: int, seen: bool)
    requires
        0 <= n <= 16,
        same_significance(a, b, 0),
    ensures
        forks(greater1_bins(a, set, chroma, n, count, seen), greater1_bins(b, set, chroma, n, count, seen)) || (
        greater1_bins(a, set, chroma, n, count, seen) == greater1_bins(b, set, chroma, n, count, seen)
            && first_greater1(a, n, count) == first_greater1(b, n, count)),
    decreases n,
{
    if n > 0 {
        assert((a[n - 1] != 0) == (b[n - 1] != 0));
        if a[n - 1] == 0 || count >= 8 {
            lemma_greater1_forks(a, b, set, chroma, n - 1, count, seen);
        } else {
            let u = abs(a[n - 1] as int) > 1;
            let v = abs(b[n - 1] as int) > 1;
            let x = decision_bin(CTX_GREATER1 as int, greater1_ctx(set, chroma, count, seen), u);
            let y = decision_bin(CTX_GREATER1 as int, greater1_ctx(set, chroma, count, seen), v);
            let rest_a = greater1_bins(a, set, chroma, n - 1, count + 1, seen || u);
            let rest_b = greater1_bins(b, set, chroma, n - 1, count + 1, seen || v);
            if u != v {
                lemma_fork_first(x, y, rest_a, rest_b);
            } else {
                lemma_greater1_forks(a, b, set, chroma, n - 1, count + 1, seen || u);
                if forks(rest_a, rest_b) {
                    lemma_fork_concat(seq![x], rest_a, seq![y], rest_b);
                }
            }
        }
    }
}

/// The levels below `n` have the same signs.
spec fn same_signs(a: Seq<i32>, b: Seq<i32>, n: int) -> bool {
    forall|j: int| 0 <= j < n ==> (#[trigger] a[j] < 0) == (b[j] < 0)
}

/// The signs below `n` fork or are the same.
proof fn lemma_sign_forks(a: Seq<i32>, b: Seq<i32>, n: int)
    requires
        0 <= n <= 16,
        same_significance(a, b, 0),
    ensures
        forks(sign_bins(a, n), sign_bins(b, n)) || sign_bins(a, n) == sign_bins(b, n) && same_signs(a, b, n),
    decreases n,
{
    if n > 0 {
        assert((a[n - 1] != 0) == (b[n - 1] != 0));
        lemma_sign_forks(a, b, n - 1);
        if a[n - 1] != 0 {
            let x = Bin::Bypass { bit: a[n - 1] < 0 };
            let y = Bin::Bypass { bit: b[n - 1] < 0 };
            if x != y {
                lemma_fork_first(x, y, sign_bins(a, n - 1), sign_bins(b, n - 1));
            } else if forks(sign_bins(a, n - 1), sign_bins(b, n - 1)) {
                lemma_fork_concat(seq![x], sign_bins(a, n - 1), seq![y], sign_bins(b, n - 1));
            }
        }
    }
}

/// The levels below `n` have the same size.
spec fn same_sizes(a: Seq<i32>, b: Seq<i32>, n: int) -> bool {
    forall|j: int| 0 <= j < n ==> abs(#[trigger] a[j] as int) == abs(b[j] as int)
}

proof fn lemma_cons(a: Bin, x: Seq<Bin>, b: Bin, y: Seq<Bin>)
    requires
        seq![a] + x == seq![b] + y,
    ensures
        a == b,
        x == y,
{
    assert((seq![a] + x)[0] == a);
    assert((seq![b] + y)[0] == b);
    assert((seq![a] + x).skip(1) =~= x);
    assert((seq![b] + y).skip(1) =~= y);
}

/// What the flags tell of position `n - 1` is the same in both sub-blocks when their
/// flags are, and is the whole level unless a remainder follows.
proof fn lemma_told(a: Seq<i32>, b: Seq<i32>, set: int, chroma: bool, first: int, n: int, count: int, seen: bool)
    requires
        0 < n <= 16,
        a[n - 1] != 0,
        b[n - 1] != 0,
        n <= first || first == first_greater1(a, n, count) && first == first_greater1(b, n, count),
        first >= 0 ==> (abs(a[first] as int) > 2) == (abs(b[first] as int) > 2),
        greater1_bins(a, set, chroma, n, count, seen) == greater1_bins(b, set, chroma, n, count, seen),
    ensures
        flagged_level(a, n - 1, count, first) == flagged_level(b, n - 1, count, first),
        flagged_level(a, n - 1, count, first) <= abs(a[n - 1] as int),
        flagged_level(b, n - 1, count, first) <= abs(b[n - 1] as int),
        flagged_level(a, n - 1, count, first) != flag_limit(n - 1, count, first) ==> abs(a[n - 1] as int)
            == flagged_level(a, n - 1, count, first) && abs(b[n - 1] as int) == flagged_level(b, n - 1, count, first),
        n - 1 <= first || first == first_greater1(a, n - 1, count + 1) && first == first_greater1(b, n - 1, count + 1),
        count < 8 ==> (abs(a[n - 1] as int) > 1) == (abs(b[n - 1] as int) > 1) && greater1_bins(
            a,
            set,
            chroma,
            n - 1,
            count + 1,
            seen || abs(a[n - 1] as int) > 1,
        ) == greater1_bins(b, set, chroma, n - 1, count + 1, seen || abs(b[n - 1] as int) > 1),
{
    if count < 8 {
        let u = abs(a[n - 1] as int) > 1;
        let v = abs(b[n - 1] as int) > 1;
        let ctx = greater1_ctx(set, chroma, count, seen);
        lemma_cons(
            decision_bin(CTX_GREATER1 as int, ctx, u),
            greater1_bins(a, set, chroma, n - 1, count + 1, seen || u),
            decision_bin(CTX_GREATER1 as int, ctx, v),
            greater1_bins(b, set, chroma, n - 1, count + 1, seen || v),
        );
        assert(u == v);
    }
}

proof fn lemma_greater1_none(lv: Seq<i32>, set: int, chroma: bool, n: int, count: int, seen: bool)
    requires
        count >= 8,
    ensures
        greater1_bins(lv, set, chroma, n, count, seen) == Seq::<Bin>::empty(),
    decreases n,
{
    if n > 0 {
        lemma_greater1_none(lv, set, chroma, n - 1, count, seen);
    }
}

/// The remaining levels below `n` fork, or the levels have the same sizes.
proof fn lemma_remaining_forks(
    a: Seq<i32>,
    b: Seq<i32>,
    set: int,
    chroma: bool,
    first: int,
    n: int,
    count: int,
    seen: bool,
    last_abs: int,
    last_rice: int,
)
    requires
        0 <= n <= 16,
        0 <= last_rice <= 4,
        same_significance(a, b, 0),
        n <= first || first == first_greater1(a, n, count) && first == first_greater1(b, n, count),
        first >= 0 ==> (abs(a[first] as int) > 2) == (abs(b[first] as int) > 2),
        greater1_bins(a, set, chroma, n, count, seen) == greater1_bins(b, set, chroma, n, count, seen),
    ensures
        forks(
            remaining_bins(a, first, n, count, last_abs, last_rice),
            remaining_bins(b, first, n, count, last_abs, last_rice),
        ) || remaining_bins(a, first, n, count, last_abs, last_rice) == remaining_bins(
            b,
            first,
            n,
            count,
            last_abs,
            last_rice,
        ) && same_sizes(a, b, n),
    decreases n,
{
    if n > 0 {
        assert((a[n - 1] != 0) == (b[n - 1] != 0));
        if a[n - 1] == 0 {
            lemma_remaining_forks(a, b, set, chroma, first, n - 1, count, seen, last_abs, last_rice);
        } else {
            lemma_told(a, b, set, chroma, first, n, count, seen);
            let size_a = abs(a[n - 1] as int);
            let size_b = abs(b[n - 1] as int);
            let told = flagged_level(a, n - 1, count, first);
            let next_seen = seen || size_a > 1;
            if count >= 8 {
                lemma_greater1_none(a, set, chroma, n - 1, count + 1, next_seen);
                lemma_greater1_none(b, set, chroma, n - 1, count + 1, next_seen);
            }
            if told == flag_limit(n - 1, count, first) {
                let rice = next_rice(last_abs, last_rice);
                let u = (size_a - told) as nat;
                let v = (size_b - told) as nat;
                let head_a = bypass_bins(remaining_bits(u, rice as nat));
                let head_b = bypass_bins(remaining_bits(v, rice as nat));
                let rest_a = remaining_bins(a, first, n - 1, count + 1, size_a, rice);
                let rest_b = remaining_bins(b, first, n - 1, count + 1, size_b, rice);
                if size_a != size_b {
                    lemma_remaining_parts(u, v, rice as nat);
                    lemma_fork_bypass(remaining_bits(u, rice as nat), remaining_bits(v, rice as nat));
                    lemma_fork_concat(head_a, rest_a, head_b, rest_b);
                } else {
                    lemma_remaining_forks(a, b, set, chroma, first, n - 1, count + 1, next_seen, size_a, rice);
                    if forks(rest_a, rest_b) {
                        lemma_fork_concat(head_a, rest_a, head_b, rest_b);
                    }
                }
            } else {
                lemma_remaining_forks(a, b, set, chroma, first, n - 1, count + 1, next_seen, last_abs, last_rice);
            }
        }
    }
}

proof fn lemma_first_is_position(lv: Seq<i32>, n: int, count: int)
    requires
        0 <= n <= 16,
    ensures
        -1 <= first_greater1(lv, n, count) < n,
    decreases n,
{
    if n > 0 && count < 8 {
        if lv[n - 1] == 0 {
            lemma_first_is_position(lv, n - 1, count);
        } else if abs(lv[n - 1] as int) <= 1 {
            lemma_first_is_position(lv, n - 1, count + 1);
        }
    }
}

/// The levels of different sub-blocks that are significant at the same positions fork.
proof fn lemma_level_forks(a: Seq<i32>, b: Seq<i32>, set: int, chroma: bool)
    requires
        a.len() == 16,
        b.len() == 16,
        same_significance(a, b, 0),
        a != b,
    ensures
        forks(level_bins(a, set, chroma), level_bins(b, set, chroma)),
{
    let fa = first_greater1(a, 16, 0);
    let fb = first_greater1(b, 16, 0);
    let g1a = greater1_bins(a, set, chroma, 16, 0, false);
    let g1b = greater1_bins(b, set, chroma, 16, 0, false);
    let g2a = greater2_bins(a, set, chroma, fa);
    let g2b = greater2_bins(b, set, chroma, fb);
    let sa = sign_bins(a, 16);
    let sb = sign_bins(b, 16);
    let ra = remaining_bins(a, fa, 16, 0, 0, 0);
    let rb = remaining_bins(b, fb, 16, 0, 0, 0);
    lemma_greater1_forks(a, b, set, chroma, 16, 0, false);
    lemma_first_is_position(a, 16, 0);
    if forks(g1a, g1b) {
        lemma_fork_concat(g1a, g2a, g1b, g2b);
        lemma_fork_concat(g1a + g2a, sa, g1b + g2b, sb);
        lemma_fork_concat(g1a + g2a + sa, ra, g1b + g2b + sb, rb);
    } else if fa >= 0 && (abs(a[fa] as int) > 2) != (abs(b[fa] as int) > 2) {
        assert(fork_at(g2a, g2b, 0));
        lemma_fork_concat(g1a, g2a, g1b, g2b);
        lemma_fork_concat(g1a + g2a, sa, g1b + g2b, sb);
        lemma_fork_concat(g1a + g2a + sa, ra, g1b + g2b + sb, rb);
    } else {
        assert(g2a == g2b);
        lemma_sign_forks(a, b, 16);
        lemma_remaining_forks(a, b, set, chroma, fa, 16, 0, false, 0, 0);
        if forks(sa, sb) {
            lemma_fork_concat(g1a + g2a, sa, g1b + g2b, sb);
        } else if !forks(ra, rb) {
            assert(a =~= b) by {
                assert forall|j: int| 0 <= j < 16 implies a[j] == b[j] by {
                    assert((a[j] < 0) == (b[j] < 0));
                    assert(abs(a[j] as int) == abs(b[j] as int));
                }
            }
        }
        lemma_fork_concat(g1a + g2a + sa, ra, g1b + g2b + sb, rb);
    }
}

/// The sub-blocks to the right of and below sub-block `i` come later in every scan.
proof fn lemma_neighbours_later(k: int, idx: ScanIdx, i: int)
    requires
        0 <= k <= 3,
        0 <= i < area(k),
    ensures
        scan_x(k, idx, i) + 1 < side(k) ==> unscan(k, idx, scan_y(k, idx, i) * side(k) + scan_x(k, idx, i) + 1) > i,
        scan_y(k, idx, i) + 1 < side(k) ==> unscan(k, idx, (scan_y(k, idx, i) + 1) * side(k) + scan_x(k, idx, i)) > i,
{
    lemma_scan_bounds(k, idx, i);
    if k == 1 {
        lemma_neighbours_in(1, idx, i, 2);
    } else if k == 2 {
        lemma_neighbours_in(2, idx, i, 4);
    } else if k == 3 {
        lemma_neighbours_in(3, idx, i, 8);
    }
}

proof fn lemma_neighbours_in(k: int, idx: ScanIdx, i: int, w: int)
    requires
        k == 1 && w == 2 || k == 2 && w == 4 || k == 3 && w == 8,
        side(k) == w,
        0 <= i < w * w,
    ensures
        scan_x(k, idx, i) + 1 < w ==> unscan(k, idx, scan_y(k, idx, i) * w + scan_x(k, idx, i) + 1) > i,
        scan_y(k, idx, i) + 1 < w ==> unscan(k, idx, (scan_y(k, idx, i) + 1) * w + scan_x(k, idx, i)) > i,
{
    let r = scan_raster(k, idx, i);
    let x = scan_x(k, idx, i);
    let y = scan_y(k, idx, i);
    assert(y * w + x == r && (y + 1) * w + x == r + w) by {
        lemma_fundamental_div_mod(r, w);
        assert(w * y == y * w && (y + 1) * w == y * w + w) by (nonlinear_arith);
    }
    match idx {
        ScanIdx::Diagonal => {
            if k == 1 {
                lemma_diagonal_neighbours_2(i);
            } else if k == 2 {
                lemma_diagonal_neighbours_4(i);
            } else {
                lemma_diagonal_neighbours_8(i);
            }
        },
        ScanIdx::Horizontal => {},
        ScanIdx::Vertical => {
            lemma_vertical_neighbours(i, w);
        },
    }
}

proof fn lemma_vertical_neighbours(i: int, w: int)
    requires
        w == 2 || w == 4 || w == 8,
        0 <= i < w * w,
    ensures
        ({
            let r = (i % w) * w + i / w;
            &&& r % w + 1 < w ==> ((r + 1) % w) * w + (r + 1) / w > i
            &&& r / w + 1 < w ==> ((r + w) % w) * w + (r + w) / w > i
        }),
{
    if w == 2 {
        assert(((i % 2) * 2 + i / 2) % 2 == i / 2);
    } else if w == 4 {
        let r = (i % 4) * 4 + i / 4;
        assert(r % 4 == i / 4 && r / 4 == i % 4);
    } else {
        let r = (i % 8) * 8 + i / 8;
        assert(r % 8 == i / 8 && r / 8 == i % 8);
    }
}

proof fn lemma_diagonal_neighbours_2(i: int)
    ensures
        0 <= i < 4 && DIAGONAL_2@[i] % 2 < 1 ==> UNDIAGONAL_2@[DIAGONAL_2@[i] + 1] > i,
        0 <= i < 4 && DIAGONAL_2@[i] / 2 < 1 ==> UNDIAGONAL_2@[DIAGONAL_2@[i] + 2] > i,
{
}

proof fn lemma_diagonal_neighbours_4(i: int)
    ensures
        0 <= i < 16 && DIAGONAL_4@[i] % 4 < 3 ==> UNDIAGONAL_4@[DIAGONAL_4@[i] + 1] > i,
        0 <= i < 16 && DIAGONAL_4@[i] / 4 < 3 ==> UNDIAGONAL_4@[DIAGONAL_4@[i] + 4] > i,
{
}

proof fn lemma_diagonal_neighbours_8(i: int)
    ensures
        0 <= i < 64 && DIAGONAL_8@[i] % 8 < 7 ==> UNDIAGONAL_8@[DIAGONAL_8@[i] + 1] > i,
        0 <= i < 64 && DIAGONAL_8@[i] / 8 < 7 ==> UNDIAGONAL_8@[DIAGONAL_8@[i] + 8] > i,
{
}

/// Two blocks have the same levels from place `m` of the scan on.
pub open spec fn agree_from(a: Seq<i32>, b: Seq<i32>, log2: int, idx: ScanIdx, m: int) -> bool {
    forall|j: int| m <= j < area(log2) ==> #[trigger] scanned(a, log2, idx, j) == scanned(b, log2, idx, j)
}

/// Where a level of the sub-block in column `xs` and row `ys` stands in its block.
proof fn lemma_place_in_rows(log2: int, xs: int, ys: int, dx: int, dy: int)
    requires
        2 <= log2 <= 5,
        0 <= xs < side(log2 - 2),
        0 <= ys < side(log2 - 2),
        0 <= dx < 4,
        0 <= dy < 4,
    ensures
        ({
            let r = (4 * ys + dy) * side(log2) + (4 * xs + dx);
            let x = r % side(log2);
            let y = r / side(log2);
            &&& 0 <= r < area(log2)
            &&& x / 4 == xs
            &&& x % 4 == dx
            &&& y / 4 == ys
            &&& y % 4 == dy
        }),
{
    lemma_area(log2);
    assert(side(log2) == 4 * side(log2 - 2));
    lemma_grid(4 * ys + dy, 4 * xs + dx, side(log2), side(log2));
}

/// A level of the sub-block in column `xs` and row `ys`, found in scan order.
proof fn lemma_place(log2: int, idx: ScanIdx, xs: int, ys: int, dx: int, dy: int)
    requires
        2 <= log2 <= 5,
        0 <= xs < side(log2 - 2),
        0 <= ys < side(log2 - 2),
        0 <= dx < 4,
        0 <= dy < 4,
    ensures
        ({
            let r = (4 * ys + dy) * side(log2) + (4 * xs + dx);
            let i = unscan(log2 - 2, idx, ys * side(log2 - 2) + xs);
            &&& 0 <= r < area(log2)
            &&& 16 * i <= scan_step(log2, idx, r) < 16 * i + 16
            &&& scan_step(log2, idx, r) < area(log2)
            &&& coefficient_index(log2, idx, scan_step(log2, idx, r) / 16, scan_step(log2, idx, r) % 16) == r
        }),
{
    let r = (4 * ys + dy) * side(log2) + (4 * xs + dx);
    lemma_place_in_rows(log2, xs, ys, dx, dy);
    lemma_scan_step(log2, idx, r);
    assert(0 <= unscan(2, idx, dy * 4 + dx) < 16) by {
        law_scan_is_a_permutation(2, idx, dy * 4 + dx);
    }
}

/// Sub-blocks behind `i` in the scan are coded alike where the levels behind agree.
proof fn lemma_coded_alike(a: Seq<i32>, b: Seq<i32>, log2: int, idx: ScanIdx, i: int, xs: int, ys: int)
    requires
        2 <= log2 <= 5,
        agree_from(a, b, log2, idx, 16 * (i + 1)),
        0 <= xs < side(log2 - 2),
        0 <= ys < side(log2 - 2),
        unscan(log2 - 2, idx, ys * side(log2 - 2) + xs) > i,
    ensures
        sub_block_coded(a, log2, xs, ys) == sub_block_coded(b, log2, xs, ys),
{
    assert forall|dx: int, dy: int| 0 <= dx < 4 && 0 <= dy < 4 implies #[trigger] a[(4 * ys + dy) * side(log2) + (4
        * xs + dx)] == b[(4 * ys + dy) * side(log2) + (4 * xs + dx)] by {
        lemma_place(log2, idx, xs, ys, dx, dy);
        let r = (4 * ys + dy) * side(log2) + (4 * xs + dx);
        assert(scanned(a, log2, idx, scan_step(log2, idx, r)) == scanned(b, log2, idx, scan_step(log2, idx, r)));
    }
    if sub_block_coded(a, log2, xs, ys) {
        let (dx, dy) = choose|dx: int, dy: int|
            0 <= dx < 4 && 0 <= dy < 4 && #[trigger] a[(4 * ys + dy) * side(log2) + (4 * xs + dx)] != 0;
        assert(b[(4 * ys + dy) * side(log2) + (4 * xs + dx)] != 0);
    }
    if sub_block_coded(b, log2, xs, ys) {
        let (dx, dy) = choose|dx: int, dy: int|
            0 <= dx < 4 && 0 <= dy < 4 && #[trigger] b[(4 * ys + dy) * side(log2) + (4 * xs + dx)] != 0;
        assert(a[(4 * ys + dy) * side(log2) + (4 * xs + dx)] != 0);
    }
}

/// The contexts of sub-block `i` depend on the levels behind it alone.
pub proof fn lemma_scope_alike(p: ResidualWriteParams, a: Seq<i32>, b: Seq<i32>, i: int)
    requires
        p.wf(),
        0 <= i < area(p.log2_trafo_size - 2),
        agree_from(a, b, p.log2_trafo_size as int, p.scan_idx, 16 * (i + 1)),
    ensures
        sig_scope(p, a, i) == sig_scope(p, b, i),
{
    let log2 = p.log2_trafo_size as int;
    let k = log2 - 2;
    let idx = p.scan_idx;
    let xs = scan_x(k, idx, i);
    let ys = scan_y(k, idx, i);
    lemma_scan_bounds(k, idx, i);
    lemma_neighbours_later(k, idx, i);
    if xs + 1 < side(k) {
        lemma_coded_alike(a, b, log2, idx, i, xs + 1, ys);
    }
    if ys + 1 < side(k) {
        lemma_coded_alike(a, b, log2, idx, i, xs, ys + 1);
    }
}

/// A sub-block is coded when one of its levels is significant.
pub proof fn lemma_coded_is_significant(levels: Seq<i32>, log2: int, idx: ScanIdx, i: int)
    requires
        2 <= log2 <= 5,
        levels.len() == area(log2),
        0 <= i < area(log2 - 2),
    ensures
        sub_block_coded(levels, log2, scan_x(log2 - 2, idx, i), scan_y(log2 - 2, idx, i)) == any_significant(
            sub_levels(levels, log2, idx, i),
        ),
{
    let k = log2 - 2;
    let xs = scan_x(k, idx, i);
    let ys = scan_y(k, idx, i);
    if !sub_block_coded(levels, log2, xs, ys) {
        lemma_uncoded(levels, log2, idx, i);
    } else {
        let (dx, dy) = choose|dx: int, dy: int|
            0 <= dx < 4 && 0 <= dy < 4 && #[trigger] levels[(4 * ys + dy) * side(log2) + (4 * xs + dx)] != 0;
        let r = (4 * ys + dy) * side(log2) + (4 * xs + dx);
        lemma_scan_bounds(k, idx, i);
        lemma_area(k);
        lemma_ungrid(scan_raster(k, idx, i), side(k), side(k));
        law_scan_is_a_permutation(k, idx, i);
        lemma_place(log2, idx, xs, ys, dx, dy);
        let n = scan_step(log2, idx, r) - 16 * i;
        assert(scan_step(log2, idx, r) / 16 == i && scan_step(log2, idx, r) % 16 == n);
        assert(sub_levels(levels, log2, idx, i)[n] != 0);
    }
}

/// `last` is the last significant place of a block.
pub open spec fn is_last(levels: Seq<i32>, log2: int, idx: ScanIdx, last: int) -> bool {
    &&& 0 <= last < area(log2)
    &&& scanned(levels, log2, idx, last) != 0
    &&& forall|j: int| last < j < area(log2) ==> #[trigger] scanned(levels, log2, idx, j) == 0
}

pub proof fn lemma_last(levels: Seq<i32>, log2: int, idx: ScanIdx, m: int)
    requires
        2 <= log2 <= 5,
        levels.len() == area(log2),
        has_levels(levels),
        -1 <= m < area(log2),
        forall|j: int| m < j < area(log2) ==> #[trigger] scanned(levels, log2, idx, j) == 0,
    ensures
        is_last(levels, log2, idx, last_significant(levels, log2, idx, m)),
    decreases m + 1,
{
    if m < 0 {
        lemma_every_position_scanned(levels, log2, idx);
    } else if scanned(levels, log2, idx, m) == 0 {
        lemma_last(levels, log2, idx, m - 1);
    }
}

/// Different sub-blocks at one place fork, where the levels behind agree.
proof fn lemma_sub_block_forks(p: ResidualWriteParams, a: Seq<i32>, b: Seq<i32>, last: int, i: int, carry: bool)
    requires
        p.wf(),
        a.len() == area(p.log2_trafo_size as int),
        b.len() == area(p.log2_trafo_size as int),
        is_last(a, p.log2_trafo_size as int, p.scan_idx, last),
        is_last(b, p.log2_trafo_size as int, p.scan_idx, last),
        0 <= i <= last / 16,
        agree_from(a, b, p.log2_trafo_size as int, p.scan_idx, 16 * (i + 1)),
    ensures
        ({
            let la = sub_levels(a, p.log2_trafo_size as int, p.scan_idx, i);
            let lb = sub_levels(b, p.log2_trafo_size as int, p.scan_idx, i);
            if la == lb {
                sub_block_bins(p, a, last, i, carry) == sub_block_bins(p, b, last, i, carry)
            } else {
                forks(sub_block_bins(p, a, last, i, carry), sub_block_bins(p, b, last, i, carry))
            }
        }),
{
    let log2 = p.log2_trafo_size as int;
    let idx = p.scan_idx;
    assert(16 * area(log2 - 2) == area(log2));
    assert(i < area(log2 - 2));
    let la = sub_levels(a, log2, idx, i);
    let lb = sub_levels(b, log2, idx, i);
    lemma_scope_alike(p, a, b, i);
    lemma_coded_is_significant(a, log2, idx, i);
    lemma_coded_is_significant(b, log2, idx, i);
    if la != lb {
        let s = sig_scope(p, a, i);
        let explicit = 0 < i < last / 16;
        let set = context_set(i, p.is_chroma, carry);
        let n = if i == last / 16 {
            last % 16
        } else {
            16
        };
        if i == last / 16 {
            assert forall|j: int| last % 16 <= j < 16 implies (#[trigger] la[j] != 0) == (lb[j] != 0) by {
                assert((16 * i + j) / 16 == i && (16 * i + j) % 16 == j);
                assert(scanned(a, log2, idx, 16 * i + j) == la[j]);
                assert(scanned(b, log2, idx, 16 * i + j) == lb[j]);
            }
        }
        let flag_a = coded_flag_bins(s, explicit, any_significant(la));
        let flag_b = coded_flag_bins(s, explicit, any_significant(lb));
        let sig_a = sig_bins(s, la, explicit, n);
        let sig_b = sig_bins(s, lb, explicit, n);
        let level_a = level_bins(la, set, p.is_chroma);
        let level_b = level_bins(lb, set, p.is_chroma);
        if explicit && any_significant(la) != any_significant(lb) {
            assert(fork_at(flag_a, flag_b, 0));
            let none = Seq::<Bin>::empty();
            assert(flag_a + none =~= flag_a);
            assert(flag_b + none =~= flag_b);
            if any_significant(la) {
                lemma_fork_concat(flag_a, sig_a, flag_b, none);
                lemma_fork_concat(flag_a + sig_a, level_a, flag_b, none);
            } else {
                lemma_fork_concat(flag_a, none, flag_b, sig_b);
                lemma_fork_concat(flag_a, none, flag_b + sig_b, level_b);
            }
        } else if explicit && !any_significant(la) {
            assert(la =~= lb) by {
                assert forall|j: int| 0 <= j < 16 implies la[j] == lb[j] by {
                    assert(la[j] == 0 && lb[j] == 0);
                }
            }
        } else {
            lemma_sig_forks(s, la, lb, explicit, n);
            if !forks(sig_a, sig_b) {
                lemma_level_forks(la, lb, set, p.is_chroma);
            } else {
                lemma_fork_concat(flag_a, sig_a, flag_b, sig_b);
            }
            lemma_fork_concat(flag_a + sig_a, level_a, flag_b + sig_b, level_b);
        }
    }
}

proof fn lemma_sub_blocks_fork(p: ResidualWriteParams, a: Seq<i32>, b: Seq<i32>, last: int, i: int, carry: bool)
    requires
        p.wf(),
        a.len() == area(p.log2_trafo_size as int),
        b.len() == area(p.log2_trafo_size as int),
        a != b,
        is_last(a, p.log2_trafo_size as int, p.scan_idx, last),
        is_last(b, p.log2_trafo_size as int, p.scan_idx, last),
        -1 <= i <= last / 16,
        agree_from(a, b, p.log2_trafo_size as int, p.scan_idx, 16 * (i + 1)),
    ensures
        forks(sub_blocks_bins(p, a, last, i, carry), sub_blocks_bins(p, b, last, i, carry)),
    decreases i + 1,
{
    let log2 = p.log2_trafo_size as int;
    let idx = p.scan_idx;
    if i < 0 {
        assert(a =~= b) by {
            assert forall|r: int| 0 <= r < a.len() implies a[r] == b[r] by {
                lemma_scan_step(log2, idx, r);
                assert(scanned(a, log2, idx, scan_step(log2, idx, r)) == scanned(b, log2, idx, scan_step(log2, idx, r)));
            }
        }
    } else {
        let la = sub_levels(a, log2, idx, i);
        let lb = sub_levels(b, log2, idx, i);
        lemma_sub_block_forks(p, a, b, last, i, carry);
        let rest_a = sub_blocks_bins(p, a, last, i - 1, carry_after(la, carry));
        let rest_b = sub_blocks_bins(p, b, last, i - 1, carry_after(lb, carry));
        if la == lb {
            assert forall|j: int| 16 * i <= j < area(log2) implies #[trigger] scanned(a, log2, idx, j) == scanned(
                b,
                log2,
                idx,
                j,
            ) by {
                if j < 16 * (i + 1) {
                    assert(j / 16 == i && j % 16 == j - 16 * i);
                    assert(scanned(a, log2, idx, j) == la[j % 16]);
                    assert(scanned(b, log2, idx, j) == lb[j % 16]);
                }
            }
            lemma_sub_blocks_fork(p, a, b, last, i - 1, carry_after(la, carry));
        }
        lemma_fork_concat(
            sub_block_bins(p, a, last, i, carry),
            rest_a,
            sub_block_bins(p, b, last, i, carry),
            rest_b,
        );
    }
}

/// The bins of a block tell its levels: different blocks of one shape fork, so a
/// reader that knows the shape reads the levels back, and knows at every bin how
/// the next one is coded and where the block ends.
pub proof fn law_residual_bins_tell_the_levels(p: ResidualWriteParams, a: Seq<i32>, b: Seq<i32>)
    requires
        p.wf(),
        a.len() == area(p.log2_trafo_size as int),
        b.len() == area(p.log2_trafo_size as int),
        has_levels(a),
        has_levels(b),
        a != b,
    ensures
        forks(residual_bins(p, a), residual_bins(p, b)),
{
    let log2 = p.log2_trafo_size as int;
    let idx = p.scan_idx;
    lemma_last(a, log2, idx, area(log2) - 1);
    lemma_last(b, log2, idx, area(log2) - 1);
    let ma = last_significant(a, log2, idx, area(log2) - 1);
    let mb = last_significant(b, log2, idx, area(log2) - 1);
    assert(16 * area(log2 - 2) == area(log2));
    lemma_coefficient_bounds(log2, idx, ma / 16, ma % 16);
    lemma_coefficient_bounds(log2, idx, mb / 16, mb % 16);
    let ia = coefficient_index(log2, idx, ma / 16, ma % 16);
    let ib = coefficient_index(log2, idx, mb / 16, mb % 16);
    let head_a = last_position_bins(log2, p.is_chroma, idx, ia % side(log2), ia / side(log2));
    let head_b = last_position_bins(log2, p.is_chroma, idx, ib % side(log2), ib / side(log2));
    let tail_a = sub_blocks_bins(p, a, ma, ma / 16, false);
    let tail_b = sub_blocks_bins(p, b, mb, mb / 16, false);
    if ia % side(log2) != ib % side(log2) || ia / side(log2) != ib / side(log2) {
        lemma_last_position_forks(
            log2,
            p.is_chroma,
            idx,
            ia % side(log2),
            ia / side(log2),
            ib % side(log2),
            ib / side(log2),
        );
    } else {
        lemma_step_of_index(log2, idx, ma);
        lemma_step_of_index(log2, idx, mb);
        assert(ma == mb);
        assert(agree_from(a, b, log2, idx, 16 * (ma / 16 + 1)));
        lemma_sub_blocks_fork(p, a, b, ma, ma / 16, false);
    }
    lemma_fork_concat(head_a, tail_a, head_b, tail_b);
}

/// The scan step of a place's position is the place.
pub proof fn lemma_step_of_index(log2: int, idx: ScanIdx, m: int)
    requires
        2 <= log2 <= 5,
        0 <= m < area(log2),
    ensures
        scan_step(log2, idx, coefficient_index(log2, idx, m / 16, m % 16)) == m,
{
    let i = m / 16;
    let n = m % 16;
    let k = log2 - 2;
    assert(16 * area(k) == area(log2));
    lemma_coefficient_bounds(log2, idx, i, n);
    lemma_scan_bounds(k, idx, i);
    lemma_scan_bounds(2, idx, n);
    let xs = scan_x(k, idx, i);
    let ys = scan_y(k, idx, i);
    let px = scan_x(2, idx, n);
    let py = scan_y(2, idx, n);
    assert((4 * ys + py) / 4 == ys && (4 * ys + py) % 4 == py);
    assert((4 * xs + px) / 4 == xs && (4 * xs + px) % 4 == px);
    lemma_area(k);
    lemma_ungrid(scan_raster(k, idx, i), side(k), side(k));
    law_scan_is_a_permutation(k, idx, i);
    law_scan_is_a_permutation(2, idx, n);
}

proof fn lemma_remaining_len(v: nat, rice: nat)
    requires
        rice <= 4,
        v <= 0x8000_0000,
    ensures
        remaining_bits(v, rice).len() <= 80,
{
    lemma2_to64();
    lemma_pow2_bound(rice, 4);
    lemma_pow2_pos(rice);
    let unit = pow2(rice);
    if v < 4 * unit {
        lemma_few_steps(v, unit);
    } else {
        let k = rice + 1;
        lemma_pow2_bound(k, 5);
        let q = (v - 4 * unit + pow2(k)) as nat;
        lemma_width(q);
        lemma_prefix_room(q, k);
        if width(q) > 32 {
            lemma_pow2_bound(32, (width(q) - 1) as nat);
        }
    }
}

proof fn lemma_sig_inner(s: SigScope, lv: Seq<i32>, infer: bool, n: int)
    requires
        2 <= s.log2 <= 5,
        0 <= n <= 16,
    ensures
        inner(sig_bins(s, lv, infer, n), n),
    decreases n,
{
    if n > 0 {
        lemma_sig_inner(s, lv, infer, n - 1);
        lemma_sig_ctx_bound(s, n - 1);
        lemma_inner_decision(CTX_SIG as int, sig_ctx(s, n - 1), lv[n - 1] != 0);
        lemma_inner_concat(
            seq![decision_bin(CTX_SIG as int, sig_ctx(s, n - 1), lv[n - 1] != 0)],
            1,
            sig_bins(s, lv, infer, n - 1),
            n - 1,
        );
    }
}

proof fn lemma_greater1_inner(lv: Seq<i32>, set: int, chroma: bool, n: int, count: int, seen: bool)
    requires
        0 <= n <= 16,
        count >= 0,
        0 <= set <= 3,
        chroma ==> set <= 1,
    ensures
        inner(greater1_bins(lv, set, chroma, n, count, seen), n),
    decreases n,
{
    if n > 0 {
        let bin = abs(lv[n - 1] as int) > 1;
        lemma_greater1_inner(lv, set, chroma, n - 1, count, seen);
        lemma_greater1_inner(lv, set, chroma, n - 1, count + 1, seen || bin);
        let ctx = greater1_ctx(set, chroma, count, seen);
        lemma_inner_decision(CTX_GREATER1 as int, ctx, bin);
        lemma_inner_concat(
            seq![decision_bin(CTX_GREATER1 as int, ctx, bin)],
            1,
            greater1_bins(lv, set, chroma, n - 1, count + 1, seen || bin),
            n - 1,
        );
    }
}

proof fn lemma_sign_inner(lv: Seq<i32>, n: int)
    requires
        0 <= n <= 16,
    ensures
        inner(sign_bins(lv, n), n),
    decreases n,
{
    if n > 0 {
        lemma_sign_inner(lv, n - 1);
        let b = seq![Bin::Bypass { bit: lv[n - 1] < 0 }];
        assert(inner(b, 1));
        lemma_inner_concat(b, 1, sign_bins(lv, n - 1), n - 1);
    }
}

proof fn lemma_remaining_inner(lv: Seq<i32>, first: int, n: int, count: int, last_abs: int, last_rice: int)
    requires
        0 <= n <= 16,
        0 <= last_rice <= 4,
    ensures
        inner(remaining_bins(lv, first, n, count, last_abs, last_rice), 80 * n),
    decreases n,
{
    if n > 0 {
        let size = abs(lv[n - 1] as int);
        let told = flagged_level(lv, n - 1, count, first);
        let rice = next_rice(last_abs, last_rice);
        lemma_remaining_inner(lv, first, n - 1, count, last_abs, last_rice);
        lemma_remaining_inner(lv, first, n - 1, count + 1, last_abs, last_rice);
        lemma_remaining_inner(lv, first, n - 1, count + 1, size, rice);
        if lv[n - 1] != 0 && told == flag_limit(n - 1, count, first) {
            let v = (size - told) as nat;
            assert(told <= size);
            lemma_remaining_len(v, rice as nat);
            lemma_inner_bypass(remaining_bits(v, rice as nat));
            lemma_inner_concat(
                bypass_bins(remaining_bits(v, rice as nat)),
                80,
                remaining_bins(lv, first, n - 1, count + 1, size, rice),
                80 * (n - 1),
            );
        }
    }
}

proof fn lemma_level_inner(lv: Seq<i32>, set: int, chroma: bool)
    requires
        0 <= set <= 3,
        chroma ==> set <= 1,
    ensures
        inner(level_bins(lv, set, chroma), 1313),
{
    let first = first_greater1(lv, 16, 0);
    let g1 = greater1_bins(lv, set, chroma, 16, 0, false);
    let g2 = greater2_bins(lv, set, chroma, first);
    let s = sign_bins(lv, 16);
    let r = remaining_bins(lv, first, 16, 0, 0, 0);
    lemma_greater1_inner(lv, set, chroma, 16, 0, false);
    assert(inner(g2, 1));
    lemma_sign_inner(lv, 16);
    lemma_remaining_inner(lv, first, 16, 0, 0, 0);
    lemma_inner_concat(g1, 16, g2, 1);
    lemma_inner_concat(g1 + g2, 17, s, 16);
    lemma_inner_concat(g1 + g2 + s, 33, r, 1280);
}

proof fn lemma_sub_block_inner(p: ResidualWriteParams, levels: Seq<i32>, last: int, i: int, carry: bool)
    requires
        p.wf(),
    ensures
        inner(sub_block_bins(p, levels, last, i, carry), 1330),
{
    let log2 = p.log2_trafo_size as int;
    let s = sig_scope(p, levels, i);
    let lv = sub_levels(levels, log2, p.scan_idx, i);
    let explicit = 0 < i < last / 16;
    let n = if i == last / 16 {
        last % 16
    } else {
        16
    };
    let set = context_set(i, p.is_chroma, carry);
    let flag = coded_flag_bins(s, explicit, true);
    assert(inner(flag, 1));
    assert(inner(coded_flag_bins(s, explicit, false), 1));
    lemma_sig_inner(s, lv, explicit, n);
    lemma_level_inner(lv, set, p.is_chroma);
    lemma_inner_concat(flag, 1, sig_bins(s, lv, explicit, n), 16);
    lemma_inner_concat(flag + sig_bins(s, lv, explicit, n), 17, level_bins(lv, set, p.is_chroma), 1313);
}

proof fn lemma_sub_blocks_inner(p: ResidualWriteParams, levels: Seq<i32>, last: int, i: int, carry: bool)
    requires
        p.wf(),
        -1 <= i,
    ensures
        inner(sub_blocks_bins(p, levels, last, i, carry), 1330 * (i + 1)),
    decreases i + 1,
{
    if i >= 0 {
        let next = carry_after(sub_levels(levels, p.log2_trafo_size as int, p.scan_idx, i), carry);
        lemma_sub_block_inner(p, levels, last, i, carry);
        lemma_sub_blocks_inner(p, levels, last, i - 1, next);
        lemma_inner_concat(
            sub_block_bins(p, levels, last, i, carry),
            1330,
            sub_blocks_bins(p, levels, last, i - 1, next),
            1330 * i,
        );
    }
}

proof fn lemma_prefix_inner(base: int, log2: int, chroma: bool, prefix: int)
    requires
        2 <= log2 <= 5,
        base == CTX_LAST_X || base == CTX_LAST_Y,
        0 <= prefix <= prefix_max(log2),
    ensures
        inner(prefix_bins(base, log2, chroma, prefix), 9),
{
    let bins = prefix_bins(base, log2, chroma, prefix);
    assert forall|i: int| 0 <= i < bins.len() implies inner_bin(#[trigger] bins[i]) by {
        lemma_prefix_ctx_bound(log2, chroma, i);
    }
}

/// The bins of a block end no codeword, and there are not many of them.
pub proof fn lemma_residual_inner(p: ResidualWriteParams, levels: Seq<i32>)
    requires
        p.wf(),
        levels.len() == area(p.log2_trafo_size as int),
        has_levels(levels),
    ensures
        inner(residual_bins(p, levels), 90000),
{
    let log2 = p.log2_trafo_size as int;
    let idx = p.scan_idx;
    lemma_last(levels, log2, idx, area(log2) - 1);
    let m = last_significant(levels, log2, idx, area(log2) - 1);
    assert(16 * area(log2 - 2) == area(log2));
    lemma_coefficient_bounds(log2, idx, m / 16, m % 16);
    let index = coefficient_index(log2, idx, m / 16, m % 16);
    let (a, b) = if idx == ScanIdx::Vertical {
        (index / side(log2), index % side(log2))
    } else {
        (index % side(log2), index / side(log2))
    };
    law_last_position_binarizes_back(a, log2);
    law_last_position_binarizes_back(b, log2);
    let pa = prefix_bins(CTX_LAST_X as int, log2, p.is_chroma, last_prefix(a));
    let pb = prefix_bins(CTX_LAST_Y as int, log2, p.is_chroma, last_prefix(b));
    lemma_prefix_inner(CTX_LAST_X as int, log2, p.is_chroma, last_prefix(a));
    lemma_prefix_inner(CTX_LAST_Y as int, log2, p.is_chroma, last_prefix(b));
    assert(inner(suffix_bins(a), 4) && inner(suffix_bins(b), 4));
    lemma_inner_concat(pa, 9, pb, 9);
    lemma_inner_concat(pa + pb, 18, suffix_bins(a), 4);
    lemma_inner_concat(pa + pb + suffix_bins(a), 22, suffix_bins(b), 4);
    lemma_sub_blocks_inner(p, levels, m, m / 16, false);
    lemma_inner_concat(
        last_position_bins(log2, p.is_chroma, idx, index % side(log2), index / side(log2)),
        26,
        sub_blocks_bins(p, levels, m, m / 16, false),
        1330 * (m / 16 + 1),
    );
}

} // verus!
