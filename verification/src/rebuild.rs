//! The picture that a decoder rebuilds: from the decisions and the offsets of a slice
//! alone, without the source.
use vstd::prelude::*;
use crate::arith::max;
use crate::cabac::clip3;
use crate::coded_block::{block_levels, block_residual};
use crate::decision::{
    cheapest_chroma, cheapest_luma, chroma_mode, coded_against, committed, decided_unit, decision_pass, luma_mode,
    luma_predictions, luma_shortlist, pass_after, pass_start, source_from, unit_candidates, written_back, ModeSearch,
    Pass, Place,
};
use crate::intra::{prediction, references, INTRA_DC};
use crate::modes::{chroma_mode_of, law_candidates_differ};
use crate::picture::Frame;
use crate::rdo::{mode_decision, ranked_in, ranking, IntraModeDecision};
use crate::slice::Record;
use crate::slice_laws::{linked, linked_at};
use crate::transform::{chroma_qp_of, Component, PredMode};

verus! {

/// A block rebuilt from its levels on top of a prediction.
pub open spec fn rebuilt_block(levels: Seq<i32>, n: int, q_p: int, component: Component, pred: Seq<i32>) -> Seq<u8> {
    let back = block_residual(levels, n, q_p, component, PredMode::Intra);
    Seq::new((n * n) as nat, |i: int| clip3(0, 255, pred[i] + back[i]) as u8)
}

/// A picture with the unit at `addr` rebuilt from its record.
pub open spec fn rebuilt_unit(f: Frame, r: Record, qp: int, addr: int) -> Frame {
    let columns = f.width / 16;
    let x0 = addr % columns * 16;
    let y0 = addr / columns * 16;
    let at = Place { x0, y0, n: 16 };
    let chroma_at = Place { x0: x0 / 2, y0: y0 / 2, n: 8 };
    let luma_q = max(0, qp);
    let chroma_q = chroma_qp_of(qp, 0, 8, 1);
    let mode = chroma_mode_of(r.chroma_mode as int, r.mode as int);
    let pred_y = prediction(references(f.y, f.width, f.height, x0, y0, 16), 16, r.mode as int, true);
    let pred_cb = prediction(references(f.cb, f.width / 2, f.height / 2, x0 / 2, y0 / 2, 8), 8, mode, false);
    let pred_cr = prediction(references(f.cr, f.width / 2, f.height / 2, x0 / 2, y0 / 2, 8), 8, mode, false);
    Frame {
        y: written_back(f.y, f.width, at, rebuilt_block(r.luma, 16, luma_q, Component::Luma, pred_y)),
        cb: written_back(f.cb, f.width / 2, chroma_at, rebuilt_block(r.cb, 8, chroma_q, Component::Cb, pred_cb)),
        cr: written_back(f.cr, f.width / 2, chroma_at, rebuilt_block(r.cr, 8, chroma_q, Component::Cr, pred_cr)),
        width: f.width,
        height: f.height,
    }
}

/// A picture rebuilt from its first `n` records, before the loop filters.
pub open spec fn rebuilt(records: Seq<Record>, width: int, height: int, qp: int, n: nat) -> Frame
    decreases n,
{
    if n == 0 {
        pass_start(width, height).frame
    } else {
        rebuilt_unit(rebuilt(records, width, height, qp, (n - 1) as nat), records[n - 1], qp, n - 1)
    }
}

/// The first records alone rebuild the first units.
proof fn lemma_rebuilt_prefix(a: Seq<Record>, b: Seq<Record>, width: int, height: int, qp: int, n: nat)
    requires
        n <= a.len(),
        n <= b.len(),
        forall|i: int| 0 <= i < n ==> #[trigger] a[i] == b[i],
    ensures
        rebuilt(a, width, height, qp, n) == rebuilt(b, width, height, qp, n),
    decreases n,
{
    if n > 0 {
        lemma_rebuilt_prefix(a, b, width, height, qp, (n - 1) as nat);
        assert(a[n - 1] == b[n - 1]);
    }
}

/// Rebuilding keeps the size of the picture.
pub proof fn lemma_rebuilt_size(records: Seq<Record>, width: int, height: int, qp: int, n: nat)
    ensures
        rebuilt(records, width, height, qp, n).width == width,
        rebuilt(records, width, height, qp, n).height == height,
    decreases n,
{
    if n > 0 {
        lemma_rebuilt_size(records, width, height, qp, (n - 1) as nat);
    }
}

/// A coded block is rebuilt from its levels.
proof fn lemma_coded_rebuilds(source: Seq<u8>, stride: int, at: Place, q_p: int, component: Component, pred: Seq<i32>)
    ensures
        coded_against(source, stride, at, q_p, component, pred).samples == rebuilt_block(
            coded_against(source, stride, at, q_p, component, pred).levels,
            at.n,
            q_p,
            component,
            pred,
        ),
{
    reveal(coded_against);
    assert(coded_against(source, stride, at, q_p, component, pred).samples =~= rebuilt_block(
        coded_against(source, stride, at, q_p, component, pred).levels,
        at.n,
        q_p,
        component,
        pred,
    ));
}

/// Committing a decided unit is rebuilding it from its record.
proof fn lemma_commit_rebuilds(pass: Pass, src: Frame, qp: int, search: ModeSearch, addr: int)
    requires
        pass.frame.width == src.width,
    ensures
        ({
            let u = decided_unit(pass, src, qp, search, addr);
            committed(pass, u).frame == rebuilt_unit(pass.frame, u.record, qp, addr)
        }),
{
    reveal(decided_unit);
    let f = pass.frame;
    let u = decided_unit(pass, src, qp, search, addr);
    let x0 = u.at.x0;
    let y0 = u.at.y0;
    let luma_q = max(0, qp);
    let chroma_q = chroma_qp_of(qp, 0, 8, 1);
    let mode = chroma_mode_of(u.record.chroma_mode as int, u.record.mode as int);
    let pred_y = prediction(references(f.y, f.width, f.height, x0, y0, 16), 16, u.record.mode as int, true);
    let pred_cb = prediction(references(f.cb, f.width / 2, f.height / 2, x0 / 2, y0 / 2, 8), 8, mode, false);
    let pred_cr = prediction(references(f.cr, f.width / 2, f.height / 2, x0 / 2, y0 / 2, 8), 8, mode, false);
    lemma_coded_rebuilds(src.y, src.width, u.at, luma_q, Component::Luma, pred_y);
    lemma_coded_rebuilds(src.cb, src.width / 2, u.chroma_at, chroma_q, Component::Cb, pred_cb);
    lemma_coded_rebuilds(src.cr, src.width / 2, u.chroma_at, chroma_q, Component::Cr, pred_cr);
}

proof fn lemma_pass_rebuilds(src: Frame, qp: int, search: ModeSearch, n: nat)
    ensures
        ({
            let pass = pass_after(src, qp, search, n);
            &&& pass.records.len() == n
            &&& pass.frame.width == src.width
            &&& pass.frame.height == src.height
            &&& pass.frame == rebuilt(pass.records, src.width, src.height, qp, n)
        }),
    decreases n,
{
    if n > 0 {
        let m = (n - 1) as nat;
        lemma_pass_rebuilds(src, qp, search, m);
        let before = pass_after(src, qp, search, m);
        let after = pass_after(src, qp, search, n);
        lemma_commit_rebuilds(before, src, qp, search, n - 1);
        lemma_rebuilt_prefix(before.records, after.records, src.width, src.height, qp, m);
    }
}

/// The encoder's reconstruction is what a decoder rebuilds: the samples that the decision
/// pass predicts from and returns follow from its records, whatever the source was.
pub proof fn law_reconstruction_follows_the_records(src: Frame, qp: int, search: ModeSearch)
    ensures
        ({
            let pass = decision_pass(src, qp, search);
            pass.frame == rebuilt(pass.records, src.width, src.height, qp, pass.records.len())
        }),
{
    lemma_pass_rebuilds(src, qp, search, ((src.width / 16) * (src.height / 16)) as nat);
}

/// Every ranked mode exists.
spec fn modes_exist(ranked: Seq<IntraModeDecision>) -> bool {
    forall|i: int| 0 <= i < ranked.len() ==> (#[trigger] ranked[i]).mode <= 34
}

proof fn lemma_ranked_in_exist(ranked: Seq<IntraModeDecision>, d: IntraModeDecision)
    requires
        modes_exist(ranked),
        d.mode <= 34,
    ensures
        modes_exist(ranked_in(ranked, d)),
        ranked_in(ranked, d).len() == ranked.len() + 1,
    decreases ranked.len(),
{
    if ranked.len() > 0 && ranked.last().rd_cost > d.rd_cost {
        lemma_ranked_in_exist(ranked.drop_last(), d);
    }
}

proof fn lemma_ranking_exists(
    source: Seq<u8>,
    stride: int,
    n_tbs: int,
    candidates: Seq<u8>,
    qp: int,
    predictions: Seq<Seq<i32>>,
    n: nat,
)
    requires
        n <= 35,
    ensures
        modes_exist(ranking(source, stride, n_tbs, candidates, qp, predictions, n)),
        ranking(source, stride, n_tbs, candidates, qp, predictions, n).len() == n,
    decreases n,
{
    if n > 0 {
        lemma_ranking_exists(source, stride, n_tbs, candidates, qp, predictions, (n - 1) as nat);
        lemma_ranked_in_exist(
            ranking(source, stride, n_tbs, candidates, qp, predictions, (n - 1) as nat),
            mode_decision(source, stride, n_tbs, candidates, qp, predictions[n - 1], (n - 1) as u8),
        );
    }
}

proof fn lemma_cheapest_luma_exists(
    src: Frame,
    refs: Seq<i32>,
    at: Place,
    qp: int,
    q_p: int,
    candidates: Seq<u8>,
    search: ModeSearch,
    list: Seq<IntraModeDecision>,
    n: nat,
)
    requires
        modes_exist(list),
        1 <= list.len(),
        n <= list.len(),
    ensures
        cheapest_luma(src, refs, at, qp, q_p, candidates, search, list, n) <= 34,
    decreases n,
{
    assert(list[0].mode <= 34);
    if n > 1 {
        assert(list[n - 1].mode <= 34);
        lemma_cheapest_luma_exists(src, refs, at, qp, q_p, candidates, search, list, (n - 1) as nat);
    }
}

proof fn lemma_luma_mode_exists(
    src: Frame,
    refs: Seq<i32>,
    at: Place,
    qp: int,
    q_p: int,
    candidates: Seq<u8>,
    search: ModeSearch,
)
    ensures
        luma_mode(src, refs, at, qp, q_p, candidates, search) <= 34,
{
    reveal(luma_mode);
    let predictions = luma_predictions(refs);
    lemma_ranking_exists(source_from(src, at), src.width, 16, candidates, qp, predictions, 35);
    let list = luma_shortlist(src, refs, at, qp, candidates);
    assert(modes_exist(list)) by {
        let all = ranking(source_from(src, at), src.width, 16, candidates, qp, predictions, 35);
        assert forall|i: int| 0 <= i < list.len() implies (#[trigger] list[i]).mode <= 34 by {
            assert(all[i].mode <= 34);
        }
    }
    lemma_cheapest_luma_exists(src, refs, at, qp, q_p, candidates, search, list, list.len());
}

proof fn lemma_cheapest_chroma_exists(
    src: Frame,
    cb: Seq<i32>,
    cr: Seq<i32>,
    at: Place,
    qp: int,
    q_p: int,
    luma: int,
    search: ModeSearch,
    n: nat,
)
    requires
        n <= 5,
    ensures
        cheapest_chroma(src, cb, cr, at, qp, q_p, luma, search, n) <= 4,
    decreases n,
{
    if n > 1 {
        lemma_cheapest_chroma_exists(src, cb, cr, at, qp, q_p, luma, search, (n - 1) as nat);
    }
}

proof fn lemma_coded_len(source: Seq<u8>, stride: int, at: Place, q_p: int, component: Component, pred: Seq<i32>)
    ensures
        coded_against(source, stride, at, q_p, component, pred).levels.len() == (at.n * at.n) as nat,
{
    reveal(coded_against);
    reveal(block_levels);
}

/// The record of a decided unit is well formed.
proof fn lemma_decided_record(pass: Pass, src: Frame, qp: int, search: ModeSearch, addr: int)
    requires
        pass.left <= 34,
    ensures
        ({
            let r = decided_unit(pass, src, qp, search, addr).record;
            &&& r.wf()
            &&& r.candidates == unit_candidates(pass.left, addr % (src.width / 16) * 16)
        }),
{
    reveal(decided_unit);
    reveal(chroma_mode);
    let f = pass.frame;
    let u = decided_unit(pass, src, qp, search, addr);
    let x0 = u.at.x0;
    let y0 = u.at.y0;
    let luma_q = max(0, qp);
    let chroma_q = chroma_qp_of(qp, 0, 8, 1);
    let refs = references(f.y, f.width, f.height, x0, y0, 16);
    let refs_cb = references(f.cb, f.width / 2, f.height / 2, x0 / 2, y0 / 2, 8);
    let refs_cr = references(f.cr, f.width / 2, f.height / 2, x0 / 2, y0 / 2, 8);
    let mode = chroma_mode_of(u.record.chroma_mode as int, u.record.mode as int);
    lemma_luma_mode_exists(src, refs, u.at, qp, luma_q, u.record.candidates, search);
    lemma_cheapest_chroma_exists(src, refs_cb, refs_cr, u.chroma_at, qp, chroma_q, u.record.mode as int, search, 5);
    lemma_coded_len(src.y, src.width, u.at, luma_q, Component::Luma, prediction(refs, 16, u.record.mode as int, true));
    lemma_coded_len(src.cb, src.width / 2, u.chroma_at, chroma_q, Component::Cb, prediction(refs_cb, 8, mode, false));
    lemma_coded_len(src.cr, src.width / 2, u.chroma_at, chroma_q, Component::Cr, prediction(refs_cr, 8, mode, false));
    let neighbour = if x0 > 0 {
        pass.left as int
    } else {
        INTRA_DC as int
    };
    law_candidates_differ(neighbour, INTRA_DC as int);
}

proof fn lemma_pass_linked(src: Frame, qp: int, search: ModeSearch, n: nat)
    ensures
        ({
            let pass = pass_after(src, qp, search, n);
            &&& pass.records.len() == n
            &&& pass.left <= 34
            &&& pass.left == if n > 0 {
                pass.records[n - 1].mode
            } else {
                INTRA_DC
            }
            &&& linked(pass.records, src.width / 16)
        }),
    decreases n,
{
    if n > 0 {
        let m = (n - 1) as nat;
        lemma_pass_linked(src, qp, search, m);
        let before = pass_after(src, qp, search, m);
        let after = pass_after(src, qp, search, n);
        lemma_decided_record(before, src, qp, search, n - 1);
        assert forall|i: int| 0 <= i < n implies #[trigger] linked_at(after.records, src.width / 16, i) by {
            if i < n - 1 {
                assert(linked_at(before.records, src.width / 16, i));
            }
        }
    }
}

/// The records of a decision pass are well formed, and each is signalled against the most
/// probable modes that a decoder derives from the record before it.
pub proof fn law_records_are_linked(src: Frame, qp: int, search: ModeSearch)
    requires
        src.width >= 0,
        src.height >= 0,
    ensures
        linked(decision_pass(src, qp, search).records, src.width / 16),
        decision_pass(src, qp, search).records.len() == (src.width / 16) * (src.height / 16),
{
    let n = (src.width / 16) * (src.height / 16);
    assert(n >= 0) by (nonlinear_arith)
        requires
            src.width >= 0,
            src.height >= 0,
            n == (src.width / 16) * (src.height / 16),
    ;
    lemma_pass_linked(src, qp, search, n as nat);
}

} // verus!
