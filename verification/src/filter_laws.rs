//! Laws of the deblocking filter.
use vstd::prelude::*;
use crate::arith::lemma_ungrid;
use crate::deblock::{
    beta_at, deblock_plane, decision, filter_pass, filterable, luma_sample, near_edge, strength, tc_at,
    BETA, TC,
};
use crate::recon::ReconConfig;

verus! {

/// The threshold of activity: none below QP 16, from there on ten less than the QP, and twice as
/// steep above 28. A QP outside 0 to 51 counts as the nearest inside.
pub proof fn law_beta_is_two_lines(qp: int)
    ensures
        qp < 16 ==> beta_at(qp) == 0,
        16 <= qp <= 28 ==> beta_at(qp) == qp - 10,
        28 <= qp <= 51 ==> beta_at(qp) == 2 * qp - 38,
        qp > 51 ==> beta_at(qp) == 64,
{
    let q = crate::cabac::clip3(0, 51, qp);
    lemma_beta(q);
}

proof fn lemma_beta(q: int)
    requires
        0 <= q <= 51,
    ensures
        BETA@[q] == (if q < 16 {
            0
        } else if q <= 28 {
            q - 10
        } else {
            2 * q - 38
        }),
{
    if q == 0 {
    } else if q == 1 {
    } else if q == 2 {
    } else if q == 3 {
    } else if q == 4 {
    } else if q == 5 {
    } else if q == 6 {
    } else if q == 7 {
    } else if q == 8 {
    } else if q == 9 {
    } else if q == 10 {
    } else if q == 11 {
    } else if q == 12 {
    } else if q == 13 {
    } else if q == 14 {
    } else if q == 15 {
    } else if q == 16 {
    } else if q == 17 {
    } else if q == 18 {
    } else if q == 19 {
    } else if q == 20 {
    } else if q == 21 {
    } else if q == 22 {
    } else if q == 23 {
    } else if q == 24 {
    } else if q == 25 {
    } else if q == 26 {
    } else if q == 27 {
    } else if q == 28 {
    } else if q == 29 {
    } else if q == 30 {
    } else if q == 31 {
    } else if q == 32 {
    } else if q == 33 {
    } else if q == 34 {
    } else if q == 35 {
    } else if q == 36 {
    } else if q == 37 {
    } else if q == 38 {
    } else if q == 39 {
    } else if q == 40 {
    } else if q == 41 {
    } else if q == 42 {
    } else if q == 43 {
    } else if q == 44 {
    } else if q == 45 {
    } else if q == 46 {
    } else if q == 47 {
    } else if q == 48 {
    } else if q == 49 {
    } else if q == 50 {
    } else if q == 51 {
    }
}

/// The limit of change: none below QP 18, one there, never falling, and twice as much every six
/// QP, give or take two, up to 24.
pub proof fn law_tc_doubles_every_six(qp: int)
    ensures
        qp < 18 ==> tc_at(qp) == 0,
        tc_at(18) == 1,
        tc_at(qp) <= tc_at(qp + 1) <= tc_at(qp) + 2,
        18 <= qp <= 47 ==> 2 * tc_at(qp) - 2 <= tc_at(qp + 6) <= 2 * tc_at(qp) + 1,
        qp >= 53 ==> tc_at(qp) == 24,
{
    if 0 <= qp <= 53 {
        lemma_tc(qp);
    }
}

proof fn lemma_tc(q: int)
    requires
        0 <= q <= 53,
    ensures
        q < 18 ==> TC@[q] == 0,
        TC@[18] == 1,
        TC@[53] == 24,
        q < 53 ==> TC@[q] <= TC@[q + 1] <= TC@[q] + 2,
        18 <= q <= 47 ==> 2 * TC@[q] - 2 <= TC@[q + 6] <= 2 * TC@[q] + 1,
{
    if q == 0 {
    } else if q == 1 {
    } else if q == 2 {
    } else if q == 3 {
    } else if q == 4 {
    } else if q == 5 {
    } else if q == 6 {
    } else if q == 7 {
    } else if q == 8 {
    } else if q == 9 {
    } else if q == 10 {
    } else if q == 11 {
    } else if q == 12 {
    } else if q == 13 {
    } else if q == 14 {
    } else if q == 15 {
    } else if q == 16 {
    } else if q == 17 {
    } else if q == 18 {
    } else if q == 19 {
    } else if q == 20 {
    } else if q == 21 {
    } else if q == 22 {
    } else if q == 23 {
    } else if q == 24 {
    } else if q == 25 {
    } else if q == 26 {
    } else if q == 27 {
    } else if q == 28 {
    } else if q == 29 {
    } else if q == 30 {
    } else if q == 31 {
    } else if q == 32 {
    } else if q == 33 {
    } else if q == 34 {
    } else if q == 35 {
    } else if q == 36 {
    } else if q == 37 {
    } else if q == 38 {
    } else if q == 39 {
    } else if q == 40 {
    } else if q == 41 {
    } else if q == 42 {
    } else if q == 43 {
    } else if q == 44 {
    } else if q == 45 {
    } else if q == 46 {
    } else if q == 47 {
    } else if q == 48 {
    } else if q == 49 {
    } else if q == 50 {
    } else if q == 51 {
    } else if q == 52 {
    } else if q == 53 {
    }
}

#[verifier::spinoff_prover]
proof fn lemma_untouched(
    s: Seq<i32>,
    w: int,
    h: int,
    vertical: bool,
    intra: Seq<bool>,
    qp: int,
    x: int,
    y: int,
)
    requires
        qp < 16,
        0 <= x < w,
        0 <= y < h,
    ensures
        luma_sample(s, w, h, vertical, intra, qp, x, y) == s[y * w + x],
{
    reveal(near_edge);
    law_beta_is_two_lines(qp);
    let along = if vertical { x } else { y };
    let end = if vertical { w } else { h };
    let m = along % 16;
    let far = m < 3;
    let edge = if far { along - m } else { along - m + 16 };
    if (m < 3 && edge > 0) || (m > 12 && edge < end) {
        let step = if vertical { 1 } else { w };
        let base = if vertical { y * w + edge } else { edge * w + x };
        let top = if vertical { (y - y % 4) * w + edge } else { edge * w + (x - x % 4) };
        let cross = if vertical { w } else { 1 };
        let bs = if vertical {
            strength(intra, w / 4, edge - 1, y, edge, y)
        } else {
            strength(intra, w / 4, x, edge - 1, x, edge)
        };
        let tc = tc_at(qp + 2 * (bs - 1));
        let d = decision(s, top, top + 3 * cross, step, 0, tc);
        assert(!d.on);
        let k = if far { m } else { 15 - m };
        assert(0 <= k <= 2);
        if far {
            assert(base + k * step == y * w + x) by {
                if !vertical {
                    assert(edge * w + m * w == y * w) by (nonlinear_arith)
                        requires
                            edge + m == y,
                    ;
                } else {
                    assert(m * 1 == m);
                }
            }
            assert(near_edge(s, base, top, top + 3 * cross, step, bs, qp, far, k) == s[base + k * step]) by {
                assert(0 * step == 0 && 1 * step == step && 2 * step == step * 2);
            }
        } else {
            assert(base - (k + 1) * step == y * w + x) by {
                if !vertical {
                    assert(edge * w - (16 - m) * w == y * w) by (nonlinear_arith)
                        requires
                            edge - (16 - m) == y,
                    ;
                } else {
                    assert((16 - m) * 1 == 16 - m);
                }
            }
            assert(near_edge(s, base, top, top + 3 * cross, step, bs, qp, far, k) == s[base - (k + 1) * step]);
        }
    }
}

/// A fine quantizer needs no deblocking: below QP 16 a luma plane stays as it is.
pub proof fn law_fine_luma_is_left_alone(
    s: &Vec<i32>,
    w: usize,
    h: usize,
    intra: &Vec<bool>,
    qp: i32,
    out: Vec<i32>,
)
    requires
        filterable(s@, w as int, h as int, true, intra@),
        qp < 16,
        call_ensures(deblock_plane, (s, w, h, true, intra, qp), out),
    ensures
        out@ == s@,
{
    lemma_pass_untouched(s@, w as int, h as int, true, intra@, qp as int);
    lemma_pass_untouched(s@, w as int, h as int, false, intra@, qp as int);
}

proof fn lemma_pass_untouched(s: Seq<i32>, w: int, h: int, vertical: bool, intra: Seq<bool>, qp: int)
    requires
        qp < 16,
        w > 0,
        h > 0,
        s.len() == w * h,
    ensures
        filter_pass(s, w, h, true, vertical, intra, qp) == s,
{
    let p = filter_pass(s, w, h, true, vertical, intra, qp);
    assert forall|i: int| 0 <= i < s.len() implies p[i] == s[i] by {
        lemma_ungrid(i, w, h);
        lemma_untouched(s, w, h, vertical, intra, qp, i % w, i / w);
    }
    assert(p =~= s);
}

/// By default a reconstruction is exact: neither filter runs, PCM samples are kept from them, and
/// the residual is not quantized.
pub proof fn law_default_reconstruction(cfg: ReconConfig)
    requires
        call_ensures(<ReconConfig as Default>::default, (), cfg),
    ensures
        !cfg.deblocking && !cfg.sao_luma && !cfg.sao_chroma,
        cfg.pcm_loop_filter_disabled && !cfg.quantized_residual,
        cfg.qp == 26,
{
}

} // verus!
