//! `residual_coding()` on the read side: the levels of a block as a decoder reads
//! them, bin after bin, and the law that it reads what was written.
use vstd::prelude::*;
use vstd::arithmetic::div_mod::{lemma_fundamental_div_mod, lemma_fundamental_div_mod_converse, lemma_small_mod};
use vstd::arithmetic::power2::{lemma2_to64, lemma_pow2_pos, lemma_pow2_unfold, pow2};
use crate::arith::{abs, lemma_ungrid};
use crate::bin_source::{
    lemma_feeds_concat, lemma_feeds_none, lemma_reads_bypass, lemma_reads_decision, lemma_reads_field,
    lemma_reads_terminate, lemma_reads_unary, Source,
};
use crate::bins::{
    bypass_bins, contexts_after_all, contexts_wf, decision_bin, encode_bins, lemma_bypass_concat, Bin, CONTEXTS,
    CTX_CODED_SUB_BLOCK, CTX_GREATER1, CTX_GREATER2, CTX_LAST_X, CTX_LAST_Y, CTX_SIG,
};
use crate::bits::{aligned, be_bits, bytes_bits, lemma_pack_bits, lemma_width, pack, padding, width, zeros};
use crate::cabac::ContextModel;
use crate::cabac_decoder::Decoder;
use crate::cabac_encoder::{repeated, Coder};
use crate::cabac_laws::{codeword, law_decode_inverts_encode, lemma_codeword_shifts_bound};
use crate::residual::{
    any_significant, carry_after, coded_flag_bins, coefficient_index, context_set, first_greater1, flag_limit,
    flagged_level, greater1_bins, greater1_ctx, greater2_bins, has_levels, last_position_bins, last_prefix,
    last_significant, lemma_area, lemma_coefficient_bounds, lemma_scan_step, level_bins, next_rice, only_dc,
    prefix_bins, prefix_ctx, prefix_max, remaining_bins, remaining_bits, residual_bins, scan_step, scanned, sig_bins,
    sig_ctx, sig_scope, sign_bins, sub_block_bins, sub_blocks_bins, sub_levels, suffix_bins, suffix_bits,
    ResidualWriteParams, SigScope, LAST_BASE,
};
use crate::residual_laws::{
    agree_from, is_last, lemma_coded_is_significant, lemma_last, lemma_prefix_room, lemma_residual_inner,
    lemma_scope_alike, lemma_step_of_index,
};
use crate::scan::{area, side, ScanIdx};

verus! {

/// The truncated unary prefix of a position, of which `i` ones have been read.
pub open spec fn read_prefix(s: Source, base: int, log2: int, chroma: bool, i: int) -> Option<(int, Source)>
    decreases prefix_max(log2) - i,
{
    if i >= prefix_max(log2) {
        Some((i, s))
    } else {
        match s.decision(base, prefix_ctx(log2, chroma, i)) {
            Some((true, t)) => read_prefix(t, base, log2, chroma, i + 1),
            Some((false, t)) => Some((i, t)),
            None => None,
        }
    }
}

/// A position: the smallest one of its prefix, and the suffix.
pub open spec fn read_suffix(s: Source, prefix: int) -> Option<(int, Source)> {
    match s.field(suffix_bits(prefix) as nat) {
        Some((v, t)) => Some((LAST_BASE@[prefix] + v, t)),
        None => None,
    }
}

/// The column and row of the last significant coefficient.
pub open spec fn read_last_position(
    s: Source,
    log2: int,
    chroma: bool,
    idx: ScanIdx,
) -> Option<((int, int), Source)> {
    match read_prefix(s, CTX_LAST_X as int, log2, chroma, 0) {
        Some((px, t)) => match read_prefix(t, CTX_LAST_Y as int, log2, chroma, 0) {
            Some((py, u)) => match read_suffix(u, px) {
                Some((a, v)) => match read_suffix(v, py) {
                    Some((b, w)) => Some(
                        (
                            if idx == ScanIdx::Vertical {
                                (b, a)
                            } else {
                                (a, b)
                            },
                            w,
                        ),
                    ),
                    None => None,
                },
                None => None,
            },
            None => None,
        },
        None => None,
    }
}

/// The significance flags of positions `n - 1` down to 0. `any` tells whether one
/// above was set: where none was, the last one may be inferred.
pub open spec fn read_sig(sc: SigScope, s: Source, infer: bool, n: int, any: bool) -> Option<(Seq<bool>, Source)>
    decreases n,
{
    if n <= 0 {
        Some((Seq::empty(), s))
    } else if n == 1 && infer && !any {
        Some((seq![true], s))
    } else {
        match s.decision(CTX_SIG as int, sig_ctx(sc, n - 1)) {
            Some((b, t)) => match read_sig(sc, t, infer, n - 1, any || b) {
                Some((flags, u)) => Some((flags.push(b), u)),
                None => None,
            },
            None => None,
        }
    }
}

/// The greater-than-1 flags of positions `n - 1` down to 0: of the significant ones,
/// up to eight in the sub-block.
pub open spec fn read_greater1(
    s: Source,
    sig: Seq<bool>,
    set: int,
    chroma: bool,
    n: int,
    count: int,
    seen: bool,
) -> Option<(Seq<bool>, Source)>
    decreases n,
{
    if n <= 0 {
        Some((Seq::empty(), s))
    } else if !sig[n - 1] || count >= 8 {
        match read_greater1(s, sig, set, chroma, n - 1, count, seen) {
            Some((flags, t)) => Some((flags.push(false), t)),
            None => None,
        }
    } else {
        match s.decision(CTX_GREATER1 as int, greater1_ctx(set, chroma, count, seen)) {
            Some((b, t)) => match read_greater1(t, sig, set, chroma, n - 1, count + 1, seen || b) {
                Some((flags, u)) => Some((flags.push(b), u)),
                None => None,
            },
            None => None,
        }
    }
}

/// The last position with a flag set, or -1.
pub open spec fn last_set(flags: Seq<bool>) -> int
    decreases flags.len(),
{
    if flags.len() == 0 {
        -1
    } else if flags.last() {
        flags.len() - 1
    } else {
        last_set(flags.drop_last())
    }
}

/// The greater-than-2 flag, if there is a position to carry one.
pub open spec fn read_greater2(s: Source, set: int, chroma: bool, first: int) -> Option<(bool, Source)> {
    if first < 0 {
        Some((false, s))
    } else {
        s.decision(
            CTX_GREATER2 as int,
            set + if chroma {
                4int
            } else {
                0int
            },
        )
    }
}

/// The signs of the significant positions `n - 1` down to 0.
pub open spec fn read_signs(s: Source, sig: Seq<bool>, n: int) -> Option<(Seq<bool>, Source)>
    decreases n,
{
    if n <= 0 {
        Some((Seq::empty(), s))
    } else if !sig[n - 1] {
        match read_signs(s, sig, n - 1) {
            Some((signs, t)) => Some((signs.push(false), t)),
            None => None,
        }
    } else {
        match s.bypass() {
            Some((b, t)) => match read_signs(t, sig, n - 1) {
                Some((signs, u)) => Some((signs.push(b), u)),
                None => None,
            },
            None => None,
        }
    }
}

/// What the flags leave of a level: Golomb-Rice up to four steps, then Exp-Golomb.
pub open spec fn read_remaining(s: Source, rice: nat) -> Option<(int, Source)> {
    match s.unary() {
        Some((p, t)) => if p < 4 {
            match t.field(rice) {
                Some((low, u)) => Some(((p * pow2(rice) + low) as int, u)),
                None => None,
            }
        } else {
            let q = (p - 4) as nat;
            match t.field(q + rice + 1) {
                Some((low, u)) => Some((4 * pow2(rice) + pow2(q + rice + 1) + low - pow2(rice + 1), u)),
                None => None,
            }
        },
        None => None,
    }
}

/// The sizes of the levels at positions `n - 1` down to 0, from their flags and what
/// follows them.
pub open spec fn read_sizes(
    s: Source,
    sig: Seq<bool>,
    greater1: Seq<bool>,
    greater2: bool,
    first: int,
    n: int,
    count: int,
    last_abs: int,
    last_rice: int,
) -> Option<(Seq<int>, Source)>
    decreases n,
{
    if n <= 0 {
        Some((Seq::empty(), s))
    } else if !sig[n - 1] {
        match read_sizes(s, sig, greater1, greater2, first, n - 1, count, last_abs, last_rice) {
            Some((sizes, t)) => Some((sizes.push(0), t)),
            None => None,
        }
    } else {
        let told = 1 + (if count < 8 && greater1[n - 1] {
            1int
        } else {
            0int
        }) + if n - 1 == first && greater2 {
            1int
        } else {
            0int
        };
        if told == flag_limit(n - 1, count, first) {
            let rice = next_rice(last_abs, last_rice);
            match read_remaining(s, rice as nat) {
                Some((v, t)) => match read_sizes(
                    t,
                    sig,
                    greater1,
                    greater2,
                    first,
                    n - 1,
                    count + 1,
                    told + v,
                    rice,
                ) {
                    Some((sizes, u)) => Some((sizes.push(told + v), u)),
                    None => None,
                },
                None => None,
            }
        } else {
            match read_sizes(s, sig, greater1, greater2, first, n - 1, count + 1, last_abs, last_rice) {
                Some((sizes, t)) => Some((sizes.push(told), t)),
                None => None,
            }
        }
    }
}

/// The levels of a sub-block, from the significance flags on.
pub open spec fn read_levels(s: Source, sig: Seq<bool>, set: int, chroma: bool) -> Option<(Seq<i32>, Source)> {
    match read_greater1(s, sig, set, chroma, 16, 0, false) {
        Some((greater1, t)) => {
            let first = last_set(greater1);
            match read_greater2(t, set, chroma, first) {
                Some((greater2, u)) => match read_signs(u, sig, 16) {
                    Some((signs, v)) => match read_sizes(v, sig, greater1, greater2, first, 16, 0, 0, 0) {
                        Some((sizes, w)) => Some(
                            (
                                Seq::new(
                                    16,
                                    |j: int|
                                        if signs[j] {
                                            -sizes[j] as i32
                                        } else {
                                            sizes[j] as i32
                                        },
                                ),
                                w,
                            ),
                        ),
                        None => None,
                    },
                    None => None,
                },
                None => None,
            }
        },
        None => None,
    }
}

proof fn lemma_reads_prefix(s: Source, base: int, log2: int, chroma: bool, prefix: int, i: int)
    requires
        0 <= i <= prefix <= prefix_max(log2),
        s.feeds(prefix_bins(base, log2, chroma, prefix).skip(i)),
    ensures
        read_prefix(s, base, log2, chroma, i) == Some(
            (prefix, s.past(prefix_bins(base, log2, chroma, prefix).skip(i))),
        ),
    decreases prefix - i,
{
    let bins = prefix_bins(base, log2, chroma, prefix);
    if i == prefix_max(log2) {
        assert(bins.skip(i) =~= Seq::<Bin>::empty());
        lemma_feeds_none(s);
    } else {
        let one = seq![decision_bin(base, prefix_ctx(log2, chroma, i), i < prefix)];
        assert(bins.skip(i) =~= one + bins.skip(i + 1));
        lemma_feeds_concat(s, one, bins.skip(i + 1));
        lemma_reads_decision(s, base, prefix_ctx(log2, chroma, i), i < prefix);
        if i < prefix {
            lemma_reads_prefix(s.past(one), base, log2, chroma, prefix, i + 1);
        } else {
            assert(bins.skip(i + 1) =~= Seq::<Bin>::empty());
            lemma_feeds_none(s.past(one));
        }
    }
}

proof fn lemma_reads_suffix(s: Source, position: int)
    requires
        0 <= position < 32,
        s.feeds(suffix_bins(position)),
    ensures
        read_suffix(s, last_prefix(position)) == Some((position, s.past(suffix_bins(position)))),
{
    let p = last_prefix(position);
    let v = (position - LAST_BASE@[p]) as nat;
    lemma2_to64();
    assert(position >= LAST_BASE@[p] && v < pow2(suffix_bits(p) as nat));
    lemma_reads_field(s, v, suffix_bits(p) as nat);
    lemma_small_mod(v, pow2(suffix_bits(p) as nat));
}

/// The significance of the first `n` levels.
pub open spec fn sig_of(lv: Seq<i32>, n: int) -> Seq<bool> {
    Seq::new(n as nat, |j: int| lv[j] != 0)
}

/// A level from position `n` on is significant.
#[verifier::opaque]
spec fn above(lv: Seq<i32>, n: int) -> bool {
    exists|j: int| n <= j < 16 && #[trigger] lv[j] != 0
}

proof fn lemma_above(lv: Seq<i32>, n: int)
    requires
        0 < n <= 16,
    ensures
        above(lv, n - 1) == (above(lv, n) || lv[n - 1] != 0),
        above(lv, 1) == !only_dc(lv),
        above(lv, 0) == any_significant(lv),
        !above(lv, 16),
{
    reveal(above);
    if above(lv, n) {
        let j = choose|j: int| n <= j < 16 && #[trigger] lv[j] != 0;
        assert(n - 1 <= j < 16 && lv[j] != 0);
    }
}

proof fn lemma_reads_sig(sc: SigScope, s: Source, lv: Seq<i32>, infer: bool, n: int, any: bool)
    requires
        0 <= n <= 16,
        any == above(lv, n),
        infer ==> any_significant(lv),
        s.feeds(sig_bins(sc, lv, infer, n)),
    ensures
        read_sig(sc, s, infer, n, any) == Some((sig_of(lv, n), s.past(sig_bins(sc, lv, infer, n)))),
    decreases n,
{
    if n <= 0 {
        assert(sig_of(lv, n) =~= Seq::<bool>::empty());
        lemma_feeds_none(s);
    } else {
        lemma_above(lv, n);
        if n == 1 && infer && !any {
            assert(sig_of(lv, 1) =~= seq![true]);
            lemma_feeds_none(s);
        } else {
            let b = lv[n - 1] != 0;
            let ctx = sig_ctx(sc, n - 1);
            let one = seq![decision_bin(CTX_SIG as int, ctx, b)];
            let rest = sig_bins(sc, lv, infer, n - 1);
            assert(sig_bins(sc, lv, infer, n) == one + rest);
            lemma_feeds_concat(s, one, rest);
            lemma_reads_decision(s, CTX_SIG as int, ctx, b);
            lemma_reads_sig(sc, s.past(one), lv, infer, n - 1, any || b);
            assert(sig_of(lv, n) =~= sig_of(lv, n - 1).push(b));
        }
    }
}

/// The greater-than-1 flags that are told, as [`greater1_bins`] tells them.
spec fn greater1_of(lv: Seq<i32>, n: int, count: int) -> Seq<bool>
    decreases n,
{
    if n <= 0 {
        Seq::empty()
    } else if lv[n - 1] == 0 || count >= 8 {
        greater1_of(lv, n - 1, count).push(false)
    } else {
        greater1_of(lv, n - 1, count + 1).push(abs(lv[n - 1] as int) > 1)
    }
}

proof fn lemma_greater1_of(lv: Seq<i32>, n: int, count: int)
    requires
        n >= 0,
    ensures
        greater1_of(lv, n, count).len() == n,
        last_set(greater1_of(lv, n, count)) == first_greater1(lv, n, count),
    decreases n,
{
    if n > 0 {
        let next = if lv[n - 1] == 0 || count >= 8 {
            count
        } else {
            count + 1
        };
        lemma_greater1_of(lv, n - 1, next);
        assert(greater1_of(lv, n, count).drop_last() =~= greater1_of(lv, n - 1, next));
    }
}

proof fn lemma_reads_greater1(
    s: Source,
    lv: Seq<i32>,
    sig: Seq<bool>,
    set: int,
    chroma: bool,
    n: int,
    count: int,
    seen: bool,
)
    requires
        0 <= n <= sig.len(),
        forall|j: int| 0 <= j < sig.len() ==> #[trigger] sig[j] == (lv[j] != 0),
        s.feeds(greater1_bins(lv, set, chroma, n, count, seen)),
    ensures
        read_greater1(s, sig, set, chroma, n, count, seen) == Some(
            (greater1_of(lv, n, count), s.past(greater1_bins(lv, set, chroma, n, count, seen))),
        ),
    decreases n,
{
    if n <= 0 {
        lemma_feeds_none(s);
    } else if !sig[n - 1] || count >= 8 {
        lemma_reads_greater1(s, lv, sig, set, chroma, n - 1, count, seen);
    } else {
        let b = abs(lv[n - 1] as int) > 1;
        let ctx = greater1_ctx(set, chroma, count, seen);
        let one = seq![decision_bin(CTX_GREATER1 as int, ctx, b)];
        lemma_feeds_concat(s, one, greater1_bins(lv, set, chroma, n - 1, count + 1, seen || b));
        lemma_reads_decision(s, CTX_GREATER1 as int, ctx, b);
        lemma_reads_greater1(s.past(one), lv, sig, set, chroma, n - 1, count + 1, seen || b);
    }
}

proof fn lemma_reads_greater2(s: Source, lv: Seq<i32>, set: int, chroma: bool, first: int)
    requires
        s.feeds(greater2_bins(lv, set, chroma, first)),
    ensures
        read_greater2(s, set, chroma, first) == Some(
            (first >= 0 && abs(lv[first] as int) > 2, s.past(greater2_bins(lv, set, chroma, first))),
        ),
{
    if first < 0 {
        lemma_feeds_none(s);
    } else {
        lemma_reads_decision(
            s,
            CTX_GREATER2 as int,
            set + if chroma {
                4int
            } else {
                0int
            },
            abs(lv[first] as int) > 2,
        );
    }
}

/// Which of the first `n` levels are negative.
spec fn signs_of(lv: Seq<i32>, n: int) -> Seq<bool> {
    Seq::new(n as nat, |j: int| lv[j] < 0)
}

proof fn lemma_reads_signs(s: Source, lv: Seq<i32>, sig: Seq<bool>, n: int)
    requires
        0 <= n <= sig.len(),
        forall|j: int| 0 <= j < sig.len() ==> #[trigger] sig[j] == (lv[j] != 0),
        s.feeds(sign_bins(lv, n)),
    ensures
        read_signs(s, sig, n) == Some((signs_of(lv, n), s.past(sign_bins(lv, n)))),
    decreases n,
{
    if n <= 0 {
        assert(signs_of(lv, n) =~= Seq::<bool>::empty());
        lemma_feeds_none(s);
    } else {
        assert(signs_of(lv, n) =~= signs_of(lv, n - 1).push(lv[n - 1] < 0));
        if !sig[n - 1] {
            lemma_reads_signs(s, lv, sig, n - 1);
        } else {
            let one = seq![Bin::Bypass { bit: lv[n - 1] < 0 }];
            lemma_feeds_concat(s, one, sign_bins(lv, n - 1));
            lemma_reads_bypass(s, lv[n - 1] < 0);
            lemma_reads_signs(s.past(one), lv, sig, n - 1);
        }
    }
}

proof fn lemma_reads_remaining(s: Source, v: nat, rice: nat)
    requires
        s.feeds(bypass_bins(remaining_bits(v, rice))),
    ensures
        read_remaining(s, rice) == Some((v as int, s.past(bypass_bins(remaining_bits(v, rice))))),
{
    let unit = pow2(rice);
    lemma_pow2_pos(rice);
    if v < 4 * unit {
        let p = v / unit;
        let head = repeated(true, p) + seq![false];
        let low = be_bits(v, rice);
        lemma_bypass_concat(head, low);
        lemma_feeds_concat(s, bypass_bins(head), bypass_bins(low));
        lemma_reads_unary(s, p);
        lemma_reads_field(s.past(bypass_bins(head)), v, rice);
        lemma_fundamental_div_mod(v as int, unit as int);
        assert(p < 4) by (nonlinear_arith)
            requires
                unit * p <= v < 4 * unit,
                unit > 0,
        ;
        assert(unit * p == p * unit) by (nonlinear_arith);
    } else {
        let k = rice + 1;
        let q = (v - 4 * unit) as nat + pow2(k);
        lemma_pow2_pos(k);
        lemma_width(q);
        lemma_prefix_room(q, k);
        let p = (width(q) - 1 - k) as nat;
        let n = p + 4;
        let head = repeated(true, n) + seq![false];
        let low = be_bits(q, p + k);
        assert(remaining_bits(v, rice) =~= head + low);
        lemma_bypass_concat(head, low);
        lemma_feeds_concat(s, bypass_bins(head), bypass_bins(low));
        lemma_reads_unary(s, n);
        lemma_reads_field(s.past(bypass_bins(head)), q, p + k);
        lemma_pow2_unfold(p + k + 1);
        lemma_fundamental_div_mod_converse(q as int, pow2(p + k) as int, 1, q - pow2(p + k));
        assert((n - 4) as nat + rice + 1 == p + k);
    }
}

/// The sizes of the first `n` levels.
spec fn sizes_of(lv: Seq<i32>, n: int) -> Seq<int> {
    Seq::new(n as nat, |j: int| abs(lv[j] as int))
}

proof fn lemma_reads_sizes(
    s: Source,
    lv: Seq<i32>,
    sig: Seq<bool>,
    greater1: Seq<bool>,
    first: int,
    n: int,
    count: int,
    last_abs: int,
    last_rice: int,
)
    requires
        0 <= n <= sig.len(),
        n <= greater1.len(),
        forall|j: int| 0 <= j < sig.len() ==> #[trigger] sig[j] == (lv[j] != 0),
        count < 8 ==> greater1.take(n) == greater1_of(lv, n, count),
        first >= n || first == first_greater1(lv, n, count),
        s.feeds(remaining_bins(lv, first, n, count, last_abs, last_rice)),
    ensures
        read_sizes(
            s,
            sig,
            greater1,
            first >= 0 && abs(lv[first] as int) > 2,
            first,
            n,
            count,
            last_abs,
            last_rice,
        ) == Some((sizes_of(lv, n), s.past(remaining_bins(lv, first, n, count, last_abs, last_rice)))),
    decreases n,
{
    if n <= 0 {
        assert(sizes_of(lv, n) =~= Seq::<int>::empty());
        lemma_feeds_none(s);
    } else {
        let size = abs(lv[n - 1] as int);
        assert(sizes_of(lv, n) =~= sizes_of(lv, n - 1).push(size));
        assert(greater1.take(n).drop_last() =~= greater1.take(n - 1));
        assert(greater1.take(n).last() == greater1[n - 1]);
        if !sig[n - 1] {
            if count < 8 {
                assert(greater1_of(lv, n, count).drop_last() =~= greater1_of(lv, n - 1, count));
            }
            lemma_reads_sizes(s, lv, sig, greater1, first, n - 1, count, last_abs, last_rice);
        } else {
            if count < 8 {
                assert(greater1_of(lv, n, count).drop_last() =~= greater1_of(lv, n - 1, count + 1));
                assert(greater1[n - 1] == (size > 1));
            } else {
                assert(first != n - 1);
            }
            let told = flagged_level(lv, n - 1, count, first);
            if told == flag_limit(n - 1, count, first) {
                let rice = next_rice(last_abs, last_rice);
                assert(size >= told);
                let code = bypass_bins(remaining_bits((size - told) as nat, rice as nat));
                lemma_feeds_concat(s, code, remaining_bins(lv, first, n - 1, count + 1, size, rice));
                lemma_reads_remaining(s, (size - told) as nat, rice as nat);
                lemma_reads_sizes(s.past(code), lv, sig, greater1, first, n - 1, count + 1, size, rice);
            } else {
                assert(size == told);
                lemma_reads_sizes(s, lv, sig, greater1, first, n - 1, count + 1, last_abs, last_rice);
            }
        }
    }
}

proof fn lemma_reads_levels(s: Source, lv: Seq<i32>, set: int, chroma: bool)
    requires
        lv.len() == 16,
        s.feeds(level_bins(lv, set, chroma)),
    ensures
        read_levels(s, sig_of(lv, 16), set, chroma) == Some((lv, s.past(level_bins(lv, set, chroma)))),
{
    let sig = sig_of(lv, 16);
    let first = first_greater1(lv, 16, 0);
    let a = greater1_bins(lv, set, chroma, 16, 0, false);
    let b = greater2_bins(lv, set, chroma, first);
    let c = sign_bins(lv, 16);
    let d = remaining_bins(lv, first, 16, 0, 0, 0);
    lemma_feeds_concat(s, a + b + c, d);
    lemma_feeds_concat(s, a + b, c);
    lemma_feeds_concat(s, a, b);
    let greater1 = greater1_of(lv, 16, 0);
    lemma_greater1_of(lv, 16, 0);
    lemma_reads_greater1(s, lv, sig, set, chroma, 16, 0, false);
    lemma_reads_greater2(s.past(a), lv, set, chroma, first);
    lemma_reads_signs(s.past(a + b), lv, sig, 16);
    assert(greater1.take(16) =~= greater1);
    lemma_reads_sizes(s.past(a + b + c), lv, sig, greater1, first, 16, 0, 0, 0);
    let (signs, sizes) = (signs_of(lv, 16), sizes_of(lv, 16));
    assert(lv =~= Seq::new(
        16,
        |j: int|
            if signs[j] {
                -sizes[j] as i32
            } else {
                sizes[j] as i32
            },
    ));
}

/// Whether sub-block `i` is coded, read where it is not known.
pub open spec fn read_coded_flag(sc: SigScope, s: Source, explicit: bool) -> Option<(bool, Source)> {
    if explicit {
        s.decision(
            CTX_CODED_SUB_BLOCK as int,
            (if sc.chroma {
                2int
            } else {
                0int
            }) + if sc.right || sc.below {
                1int
            } else {
                0int
            },
        )
    } else {
        Some((true, s))
    }
}

/// The significance of a whole sub-block: the flags that were read, and above them
/// the last significant level if it stands there.
pub open spec fn whole_sig(flags: Seq<bool>) -> Seq<bool> {
    Seq::new(
        16,
        |j: int|
            if j < flags.len() {
                flags[j]
            } else {
                j == flags.len()
            },
    )
}

/// The levels of sub-block `i`, when those of the sub-blocks behind it are known.
pub open spec fn read_sub_block(
    p: ResidualWriteParams,
    s: Source,
    known: Seq<i32>,
    last: int,
    i: int,
    carry: bool,
) -> Option<(Seq<i32>, Source)> {
    let sc = sig_scope(p, known, i);
    let explicit = 0 < i < last / 16;
    match read_coded_flag(sc, s, explicit) {
        Some((true, t)) => match read_sig(
            sc,
            t,
            explicit,
            if i == last / 16 {
                last % 16
            } else {
                16
            },
            i == last / 16,
        ) {
            Some((flags, u)) => read_levels(u, whole_sig(flags), context_set(i, p.is_chroma, carry), p.is_chroma),
            None => None,
        },
        Some((false, t)) => Some((Seq::new(16, |j: int| 0i32), t)),
        None => None,
    }
}

/// A block with the levels of sub-block `i` put in their places.
pub open spec fn placed(known: Seq<i32>, log2: int, idx: ScanIdx, i: int, lv: Seq<i32>) -> Seq<i32> {
    Seq::new(
        area(log2) as nat,
        |r: int|
            if scan_step(log2, idx, r) / 16 == i {
                lv[scan_step(log2, idx, r) % 16]
            } else {
                known[r]
            },
    )
}

/// Sub-blocks `i` down to 0, when those behind are known.
pub open spec fn read_sub_blocks(
    p: ResidualWriteParams,
    s: Source,
    known: Seq<i32>,
    last: int,
    i: int,
    carry: bool,
) -> Option<(Seq<i32>, Source)>
    decreases i + 1,
{
    if i < 0 {
        Some((known, s))
    } else {
        match read_sub_block(p, s, known, last, i, carry) {
            Some((lv, t)) => read_sub_blocks(
                p,
                t,
                placed(known, p.log2_trafo_size as int, p.scan_idx, i, lv),
                last,
                i - 1,
                carry_after(lv, carry),
            ),
            None => None,
        }
    }
}

/// The levels of a block.
#[verifier::opaque]
pub open spec fn read_residual(p: ResidualWriteParams, s: Source) -> Option<(Seq<i32>, Source)> {
    let log2 = p.log2_trafo_size as int;
    match read_last_position(s, log2, p.is_chroma, p.scan_idx) {
        Some(((x, y), t)) => {
            let last = scan_step(log2, p.scan_idx, y * side(log2) + x);
            read_sub_blocks(p, t, Seq::new(area(log2) as nat, |r: int| 0i32), last, last / 16, false)
        },
        None => None,
    }
}

proof fn lemma_reads_last_position(s: Source, log2: int, chroma: bool, idx: ScanIdx, x: int, y: int)
    requires
        2 <= log2 <= 5,
        0 <= x < side(log2),
        0 <= y < side(log2),
        s.feeds(last_position_bins(log2, chroma, idx, x, y)),
    ensures
        read_last_position(s, log2, chroma, idx) == Some(
            ((x, y), s.past(last_position_bins(log2, chroma, idx, x, y))),
        ),
{
    let (a, b) = if idx == ScanIdx::Vertical {
        (y, x)
    } else {
        (x, y)
    };
    let pa = prefix_bins(CTX_LAST_X as int, log2, chroma, last_prefix(a));
    let pb = prefix_bins(CTX_LAST_Y as int, log2, chroma, last_prefix(b));
    let sa = suffix_bins(a);
    let sb = suffix_bins(b);
    lemma_feeds_concat(s, pa + pb + sa, sb);
    lemma_feeds_concat(s, pa + pb, sa);
    lemma_feeds_concat(s, pa, pb);
    assert(pa.skip(0) =~= pa && pb.skip(0) =~= pb);
    lemma_reads_prefix(s, CTX_LAST_X as int, log2, chroma, last_prefix(a), 0);
    lemma_reads_prefix(s.past(pa), CTX_LAST_Y as int, log2, chroma, last_prefix(b), 0);
    lemma_reads_suffix(s.past(pa + pb), a);
    lemma_reads_suffix(s.past(pa + pb + sa), b);
}

proof fn lemma_reads_coded_flag(sc: SigScope, s: Source, explicit: bool, coded: bool)
    requires
        !explicit ==> coded,
        s.feeds(coded_flag_bins(sc, explicit, coded)),
    ensures
        read_coded_flag(sc, s, explicit) == Some((coded, s.past(coded_flag_bins(sc, explicit, coded)))),
{
    if explicit {
        let ctx = (if sc.chroma {
            2int
        } else {
            0int
        }) + if sc.right || sc.below {
            1int
        } else {
            0int
        };
        lemma_reads_decision(s, CTX_CODED_SUB_BLOCK as int, ctx, coded);
    } else {
        lemma_feeds_none(s);
    }
}

proof fn lemma_reads_sub_block(
    p: ResidualWriteParams,
    s: Source,
    known: Seq<i32>,
    levels: Seq<i32>,
    last: int,
    i: int,
    carry: bool,
)
    requires
        p.wf(),
        levels.len() == area(p.log2_trafo_size as int),
        is_last(levels, p.log2_trafo_size as int, p.scan_idx, last),
        0 <= i <= last / 16,
        agree_from(known, levels, p.log2_trafo_size as int, p.scan_idx, 16 * (i + 1)),
        s.feeds(sub_block_bins(p, levels, last, i, carry)),
    ensures
        read_sub_block(p, s, known, last, i, carry) == Some(
            (
                sub_levels(levels, p.log2_trafo_size as int, p.scan_idx, i),
                s.past(sub_block_bins(p, levels, last, i, carry)),
            ),
        ),
{
    let log2 = p.log2_trafo_size as int;
    let idx = p.scan_idx;
    assert(16 * area(log2 - 2) == area(log2));
    lemma_scope_alike(p, known, levels, i);
    lemma_coded_is_significant(levels, log2, idx, i);
    let sc = sig_scope(p, levels, i);
    let lv = sub_levels(levels, log2, idx, i);
    let explicit = 0 < i < last / 16;
    let coded = !explicit || any_significant(lv);
    let flag = coded_flag_bins(sc, explicit, coded);
    if coded {
        let n = if i == last / 16 {
            last % 16
        } else {
            16
        };
        let sig = sig_bins(sc, lv, explicit, n);
        let rest = level_bins(lv, context_set(i, p.is_chroma, carry), p.is_chroma);
        lemma_feeds_concat(s, flag + sig, rest);
        lemma_feeds_concat(s, flag, sig);
        lemma_reads_coded_flag(sc, s, explicit, coded);
        lemma_above(lv, 16);
        assert(above(lv, n) == (i == last / 16) && whole_sig(sig_of(lv, n)) =~= sig_of(lv, 16)) by {
            reveal(above);
            if i == last / 16 {
                assert forall|j: int| n <= j < 16 implies (#[trigger] lv[j] != 0) == (j == n) by {
                    assert((16 * i + j) / 16 == i && (16 * i + j) % 16 == j);
                    assert(scanned(levels, log2, idx, 16 * i + j) == lv[j]);
                }
                assert(lv[n] != 0);
            }
        }
        lemma_reads_sig(sc, s.past(flag), lv, explicit, n, i == last / 16);
        lemma_reads_levels(s.past(flag + sig), lv, context_set(i, p.is_chroma, carry), p.is_chroma);
    } else {
        lemma_reads_coded_flag(sc, s, explicit, coded);
        assert(lv =~= Seq::new(16, |j: int| 0i32)) by {
            assert forall|j: int| 0 <= j < 16 implies lv[j] == 0 by {}
        }
    }
}

/// Where the levels of a sub-block are put in, the block agrees from there on.
proof fn lemma_placed(known: Seq<i32>, levels: Seq<i32>, log2: int, idx: ScanIdx, i: int)
    requires
        2 <= log2 <= 5,
        levels.len() == area(log2),
        0 <= i < area(log2 - 2),
        agree_from(known, levels, log2, idx, 16 * (i + 1)),
    ensures
        agree_from(placed(known, log2, idx, i, sub_levels(levels, log2, idx, i)), levels, log2, idx, 16 * i),
{
    let lv = sub_levels(levels, log2, idx, i);
    let next = placed(known, log2, idx, i, lv);
    assert forall|j: int| 16 * i <= j < area(log2) implies #[trigger] scanned(next, log2, idx, j) == scanned(
        levels,
        log2,
        idx,
        j,
    ) by {
        lemma_step_of_index(log2, idx, j);
        assert(16 * area(log2 - 2) == area(log2));
        lemma_coefficient_bounds(log2, idx, j / 16, j % 16);
        assert(scanned(known, log2, idx, j) == known[coefficient_index(log2, idx, j / 16, j % 16)]);
    }
}

proof fn lemma_reads_sub_blocks(
    p: ResidualWriteParams,
    s: Source,
    known: Seq<i32>,
    levels: Seq<i32>,
    last: int,
    i: int,
    carry: bool,
)
    requires
        p.wf(),
        levels.len() == area(p.log2_trafo_size as int),
        known.len() == area(p.log2_trafo_size as int),
        is_last(levels, p.log2_trafo_size as int, p.scan_idx, last),
        -1 <= i <= last / 16,
        agree_from(known, levels, p.log2_trafo_size as int, p.scan_idx, 16 * (i + 1)),
        s.feeds(sub_blocks_bins(p, levels, last, i, carry)),
    ensures
        read_sub_blocks(p, s, known, last, i, carry) == Some(
            (levels, s.past(sub_blocks_bins(p, levels, last, i, carry))),
        ),
    decreases i + 1,
{
    let log2 = p.log2_trafo_size as int;
    let idx = p.scan_idx;
    if i < 0 {
        lemma_feeds_none(s);
        assert(known =~= levels) by {
            assert forall|r: int| 0 <= r < levels.len() implies known[r] == levels[r] by {
                lemma_scan_step(log2, idx, r);
                let m = scan_step(log2, idx, r);
                assert(scanned(known, log2, idx, m) == scanned(levels, log2, idx, m));
            }
        }
    } else {
        assert(16 * area(log2 - 2) == area(log2));
        let lv = sub_levels(levels, log2, idx, i);
        let here = sub_block_bins(p, levels, last, i, carry);
        lemma_feeds_concat(s, here, sub_blocks_bins(p, levels, last, i - 1, carry_after(lv, carry)));
        lemma_reads_sub_block(p, s, known, levels, last, i, carry);
        lemma_placed(known, levels, log2, idx, i);
        lemma_reads_sub_blocks(
            p,
            s.past(here),
            placed(known, log2, idx, i, lv),
            levels,
            last,
            i - 1,
            carry_after(lv, carry),
        );
    }
}

/// A source that holds the bins of a block yields its levels.
pub proof fn lemma_reads_residual(p: ResidualWriteParams, s: Source, levels: Seq<i32>)
    requires
        p.wf(),
        levels.len() == area(p.log2_trafo_size as int),
        has_levels(levels),
        s.feeds(residual_bins(p, levels)),
    ensures
        read_residual(p, s) == Some((levels, s.past(residual_bins(p, levels)))),
{
    reveal(read_residual);
    let log2 = p.log2_trafo_size as int;
    let idx = p.scan_idx;
    let last = last_significant(levels, log2, idx, area(log2) - 1);
    lemma_last(levels, log2, idx, area(log2) - 1);
    assert(16 * area(log2 - 2) == area(log2));
    lemma_coefficient_bounds(log2, idx, last / 16, last % 16);
    lemma_step_of_index(log2, idx, last);
    let index = coefficient_index(log2, idx, last / 16, last % 16);
    let n = side(log2);
    let (x, y) = (index % n, index / n);
    lemma_area(log2);
    lemma_ungrid(index, n, n);
    let head = last_position_bins(log2, p.is_chroma, idx, x, y);
    let tail = sub_blocks_bins(p, levels, last, last / 16, false);
    let zero = Seq::new(area(log2) as nat, |r: int| 0i32);
    lemma_feeds_concat(s, head, tail);
    lemma_reads_last_position(s, log2, p.is_chroma, idx, x, y);
    assert(agree_from(zero, levels, log2, idx, 16 * (last / 16 + 1))) by {
        assert forall|j: int| 16 * (last / 16 + 1) <= j < area(log2) implies #[trigger] scanned(zero, log2, idx, j)
            == scanned(levels, log2, idx, j) by {
            lemma_coefficient_bounds(log2, idx, j / 16, j % 16);
        }
    }
    lemma_reads_sub_blocks(p, s.past(head), zero, levels, last, last / 16, false);
}

/// A block of levels decodes to itself: from the codeword that the encoder writes for
/// the levels and a terminating bin behind them, with anything before and after it, a
/// decoder with the same context variables reads the levels, is left with the
/// encoder's context variables, and reads the terminating bin next.
pub proof fn law_residual_decodes_to_the_levels(
    base: Seq<bool>,
    ctxs: Seq<ContextModel>,
    p: ResidualWriteParams,
    levels: Seq<i32>,
    after: Seq<bool>,
)
    requires
        p.wf(),
        levels.len() == area(p.log2_trafo_size as int),
        has_levels(levels),
        contexts_wf(ctxs),
        ctxs.len() == CONTEXTS,
    ensures
        ({
            let bins = residual_bins(p, levels);
            let out = encode_bins(Coder::start(base), ctxs, bins.push(Bin::Terminate { end: true })).out;
            let word = out.skip(base.len() as int);
            &&& out == base + word
            &&& Decoder::start(word + after) matches Ok(decoder)
            &&& read_residual(p, Source { decoder, ctxs }) matches Some((read, s))
            &&& read == levels
            &&& s.ctxs == contexts_after_all(ctxs, bins)
            &&& s.terminate() matches Some((end, t))
            &&& end
            &&& t.decoder.rest == after
        }),
{
    let bins = residual_bins(p, levels);
    let stop = seq![Bin::Terminate { end: true }];
    let all = bins.push(Bin::Terminate { end: true });
    assert(all =~= bins + stop);
    lemma_residual_inner(p, levels);
    assert(codeword(all, ctxs.len()));
    lemma_codeword_shifts_bound(ctxs, all);
    law_decode_inverts_encode(base, ctxs, all, after);
    let out = encode_bins(Coder::start(base), ctxs, all).out;
    let word = out.skip(base.len() as int);
    let s = Source { decoder: Decoder::start(word + after)->Ok_0, ctxs };
    assert(s.feeds(all) && s.past(all).decoder.rest == after && s.past(bins).ctxs == contexts_after_all(ctxs, bins)) by {
        reveal(Source::feeds);
        reveal(Source::past);
    }
    lemma_feeds_concat(s, bins, stop);
    lemma_reads_residual(p, s, levels);
    lemma_reads_terminate(s.past(bins), true);
}

/// The bytes of a block decode to its levels: what is written for the levels and a
/// terminating bin from a fresh encoder, brought up to a byte, yields the levels to a
/// decoder that starts from the same context variables; it is left with those that the
/// encoder ended with, and the terminating bin is next.
pub proof fn law_residual_bytes_decode_to_the_levels(ctxs: Seq<ContextModel>, p: ResidualWriteParams, levels: Seq<i32>)
    requires
        p.wf(),
        levels.len() == area(p.log2_trafo_size as int),
        has_levels(levels),
        contexts_wf(ctxs),
        ctxs.len() == CONTEXTS,
    ensures
        ({
            let bins = residual_bins(p, levels);
            let out = encode_bins(Coder::start(Seq::empty()), ctxs, bins.push(Bin::Terminate { end: true })).out;
            &&& Decoder::start(bytes_bits(pack(aligned(out)))) matches Ok(decoder)
            &&& read_residual(p, Source { decoder, ctxs }) matches Some((read, s))
            &&& read == levels
            &&& s.ctxs == contexts_after_all(ctxs, bins)
            &&& s.terminate() matches Some((end, t))
            &&& end
        }),
{
    let none = Seq::<bool>::empty();
    let bins = residual_bins(p, levels);
    let out = encode_bins(Coder::start(none), ctxs, bins.push(Bin::Terminate { end: true })).out;
    lemma_pack_bits(aligned(out));
    assert(aligned(aligned(out)) =~= aligned(out));
    law_residual_decodes_to_the_levels(none, ctxs, p, levels, zeros(padding(out.len())));
    assert(out.skip(0) =~= out);
}

} // verus!
