//! Laws of the mode decision: what a mode is charged, and what it is held against.
use vstd::prelude::*;
use crate::decision::{
    cheapest_luma, chroma_coded, chroma_cost, chroma_mode, law_chroma_mode_is_cheapest, law_luma_mode_is_cheapest,
    luma_coded, luma_cost, luma_mode, luma_predictions, luma_shortlist, source_from, squared_error, ModeSearch, Place,
};
use crate::modes::{chroma_mode_bins, chroma_mode_of, luma_mode_bins};
use crate::picture::Frame;
use crate::rdo::{lambda_of, lambda_q8, mode_decision, ranked_in, ranking, IntraModeDecision};
use crate::rdo_laws::weighs;
use crate::residual::ResidualWriteParams;
use crate::slice::{chroma_params, coded_bins, luma_params};

verus! {

/// The bins that a residual is charged: those that the writer will put, where the search
/// counts them at all.
pub open spec fn charged(search: ModeSearch, params: ResidualWriteParams, levels: Seq<i32>) -> int {
    if search == ModeSearch::RateDistortion {
        coded_bins(params, levels).len() as int
    } else {
        0
    }
}

proof fn lemma_weight(bits: int, qp: int)
    requires
        bits >= 0,
    ensures
        weighs(bits * lambda_of(qp) / 256, bits, lambda_of(qp)),
{
}

/// A luma mode costs the squared error that its block is left with and the weight of the bins
/// that the writer puts for it: those of the mode and, where the search counts them, those of
/// the residual.
pub proof fn law_luma_modes_cost_error_and_bins(
    src: Frame,
    refs: Seq<i32>,
    at: Place,
    qp: i32,
    q_p: int,
    candidates: Seq<u8>,
    search: ModeSearch,
    mode: u8,
    lambda: u32,
)
    requires
        call_ensures(lambda_q8, (qp,), lambda),
        coded_bins(luma_params(), luma_coded(src, refs, at, q_p, mode as int).levels).len() <= u32::MAX,
    ensures
        ({
            let c = luma_coded(src, refs, at, q_p, mode as int);
            let cost = luma_cost(src, refs, at, qp as int, q_p, candidates, search, mode);
            weighs(
                cost - squared_error(src.y, src.width, at, c.samples, 256),
                luma_mode_bins(mode, candidates).len() + charged(search, luma_params(), c.levels),
                lambda as int,
            )
        }),
{
    crate::modes::law_mode_cost_counts_bins(mode, candidates);
    let c = luma_coded(src, refs, at, q_p, mode as int);
    lemma_weight(luma_mode_bins(mode, candidates).len() + charged(search, luma_params(), c.levels), qp as int);
}

/// A chroma mode costs the squared error of both blocks and the weight of the bins that the
/// writer puts for it: those of the mode, once, and where the search counts them those of
/// both residuals.
pub proof fn law_chroma_modes_cost_error_and_bins(
    src: Frame,
    cb: Seq<i32>,
    cr: Seq<i32>,
    at: Place,
    qp: i32,
    q_p: int,
    luma: int,
    search: ModeSearch,
    signalled: u8,
    lambda: u32,
)
    requires
        call_ensures(lambda_q8, (qp,), lambda),
        ({
            let mode = chroma_mode_of(signalled as int, luma);
            &&& coded_bins(chroma_params(), chroma_coded(src, cb, 1, at, q_p, mode).levels).len() <= u32::MAX
            &&& coded_bins(chroma_params(), chroma_coded(src, cr, 2, at, q_p, mode).levels).len() <= u32::MAX
        }),
    ensures
        ({
            let mode = chroma_mode_of(signalled as int, luma);
            let b = chroma_coded(src, cb, 1, at, q_p, mode);
            let r = chroma_coded(src, cr, 2, at, q_p, mode);
            let cost = chroma_cost(src, cb, cr, at, qp as int, q_p, luma, search, signalled);
            let error = squared_error(src.cb, src.width / 2, at, b.samples, 64) + squared_error(
                src.cr,
                src.width / 2,
                at,
                r.samples,
                64,
            );
            weighs(
                cost - error,
                chroma_mode_bins(signalled).len() + charged(search, chroma_params(), b.levels) + charged(
                    search,
                    chroma_params(),
                    r.levels,
                ),
                lambda as int,
            )
        }),
{
    let mode = chroma_mode_of(signalled as int, luma);
    let b = chroma_coded(src, cb, 1, at, q_p, mode);
    let r = chroma_coded(src, cr, 2, at, q_p, mode);
    lemma_weight(
        chroma_mode_bins(signalled).len() + charged(search, chroma_params(), b.levels) + charged(
            search,
            chroma_params(),
            r.levels,
        ),
        qp as int,
    );
}

proof fn lemma_ranked_len(ranked: Seq<IntraModeDecision>, d: IntraModeDecision)
    ensures
        ranked_in(ranked, d).len() == ranked.len() + 1,
    decreases ranked.len(),
{
    if !(ranked.len() == 0 || ranked.last().rd_cost <= d.rd_cost) {
        lemma_ranked_len(ranked.drop_last(), d);
    }
}

proof fn lemma_ranking_len(
    source: Seq<u8>,
    stride: int,
    n_tbs: int,
    candidates: Seq<u8>,
    qp: int,
    predictions: Seq<Seq<i32>>,
    n: nat,
)
    ensures
        ranking(source, stride, n_tbs, candidates, qp, predictions, n).len() == n,
    decreases n,
{
    if n > 0 {
        let m = (n - 1) as nat;
        lemma_ranking_len(source, stride, n_tbs, candidates, qp, predictions, m);
        lemma_ranked_len(
            ranking(source, stride, n_tbs, candidates, qp, predictions, m),
            mode_decision(source, stride, n_tbs, candidates, qp, predictions[n - 1], m as u8),
        );
    }
}

proof fn lemma_one_of(
    src: Frame,
    refs: Seq<i32>,
    at: Place,
    qp: int,
    q_p: int,
    candidates: Seq<u8>,
    search: ModeSearch,
    list: Seq<IntraModeDecision>,
    n: nat,
)
    requires
        1 <= n <= list.len(),
    ensures
        exists|i: int|
            0 <= i < n && (#[trigger] list[i]).mode == cheapest_luma(
                src,
                refs,
                at,
                qp,
                q_p,
                candidates,
                search,
                list,
                n,
            ),
    decreases n,
{
    if n == 1 {
        assert(list[0].mode == cheapest_luma(src, refs, at, qp, q_p, candidates, search, list, n));
    } else {
        lemma_one_of(src, refs, at, qp, q_p, candidates, search, list, (n - 1) as nat);
        assert(list[n - 1].mode == list[n - 1].mode);
    }
}

/// The luma mode is the cheapest of the four that the ranking puts first; a search without
/// modes takes the flat one.
pub proof fn law_luma_mode_is_the_cheapest_of_four(
    src: Frame,
    refs: Seq<i32>,
    at: Place,
    qp: int,
    q_p: int,
    candidates: Seq<u8>,
    search: ModeSearch,
    i: int,
)
    requires
        0 <= i < 4,
    ensures
        ({
            let list = luma_shortlist(src, refs, at, qp, candidates);
            let mode = luma_mode(src, refs, at, qp, q_p, candidates, search);
            &&& list.len() == 4
            &&& search == ModeSearch::DcOnly ==> mode == 1
            &&& search != ModeSearch::DcOnly ==> luma_cost(src, refs, at, qp, q_p, candidates, search, mode)
                <= luma_cost(src, refs, at, qp, q_p, candidates, search, list[i].mode)
            &&& search != ModeSearch::DcOnly ==> mode == list[0].mode || mode == list[1].mode || mode == list[2].mode
                || mode == list[3].mode
        }),
{
    reveal(luma_mode);
    let list = luma_shortlist(src, refs, at, qp, candidates);
    lemma_ranking_len(source_from(src, at), src.width, 16, candidates, qp, luma_predictions(refs), 35);
    assert(list.len() == 4);
    if search != ModeSearch::DcOnly {
        law_luma_mode_is_cheapest(src, refs, at, qp, q_p, candidates, search, list, 4);
        lemma_one_of(src, refs, at, qp, q_p, candidates, search, list, 4);
        let j = choose|j: int|
            0 <= j < 4 && (#[trigger] list[j]).mode == cheapest_luma(
                src,
                refs,
                at,
                qp,
                q_p,
                candidates,
                search,
                list,
                4,
            );
        assert(list[i].mode == list[i].mode);
        assert(j == 0 || j == 1 || j == 2 || j == 3);
    }
}

/// The chroma mode is the cheapest of the five that can be signalled; a search without modes
/// takes the one that follows luma.
pub proof fn law_chroma_mode_is_the_cheapest_of_five(
    src: Frame,
    cb: Seq<i32>,
    cr: Seq<i32>,
    at: Place,
    qp: int,
    q_p: int,
    luma: int,
    search: ModeSearch,
    other: u8,
)
    requires
        other < 5,
    ensures
        ({
            let mode = chroma_mode(src, cb, cr, at, qp, q_p, luma, search);
            &&& search == ModeSearch::DcOnly ==> mode == 4
            &&& search != ModeSearch::DcOnly ==> chroma_cost(src, cb, cr, at, qp, q_p, luma, search, mode)
                <= chroma_cost(src, cb, cr, at, qp, q_p, luma, search, other)
        }),
{
    reveal(chroma_mode);
    law_chroma_mode_is_cheapest(src, cb, cr, at, qp, q_p, luma, search, 5);
}

} // verus!
