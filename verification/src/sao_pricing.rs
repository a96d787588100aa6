//! Laws of the search for sample-adaptive offsets: what offsets are priced at, which are the
//! best, and which are kept.
use vstd::prelude::*;
use vstd::arithmetic::div_mod::lemma_fundamental_div_mod;
use crate::cabac::clip3;
use crate::lossy::settled;
use crate::rdo::lambda_q8;
use crate::picture::{Picture, SourcePlanes};
use crate::sao::{cells, sao_off, ResolvedSao, SaoModel};
use crate::sao_search::{
    band_bins, band_pair, edge_pair, estimate_sao, gain_of, mean, offset_bins, offsets_wf, Region, SaoLambda,
};
use crate::slice::{component_bins, magnitude_bits, magnitudes, signs};

verus! {

/// The bins that a component adds to those of a component without offsets.
pub open spec fn added_bins(m: SaoModel, c: int) -> int {
    component_bins(m, c).len() - component_bins(sao_off(), c).len()
}

/// The bins that are band syntax alone: the position and the signs.
pub open spec fn position_bins(m: SaoModel) -> int {
    if m.kind == 1 {
        5 + signs(m.offsets).len() as int
    } else {
        0
    }
}

/// A worth is the gain less the price of the bins, the bins of band syntax at their own
/// weight.
pub open spec fn worth(gain: int, score: int, bins: int, band: int, lambda: SaoLambda) -> bool {
    256 * (gain - score) <= (bins - band) * lambda.mode_q8 + band * lambda.band_q8 < 256 * (gain - score + 1)
}

proof fn lemma_magnitude(o: int)
    requires
        -7 <= o <= 7,
    ensures
        magnitude_bits(o).len() == crate::sao_search::abs_bins(o),
{
}

proof fn lemma_component(m: SaoModel, c: int)
    requires
        offsets_wf(m.offsets),
        m.kind == 1 || m.kind == 2,
        0 <= c < 3,
    ensures
        magnitudes(m.offsets).len() == offset_bins(m.offsets),
        m.kind == 1 ==> position_bins(m) == band_bins(m.offsets),
        added_bins(m, c) == offset_bins(m.offsets) + position_bins(m) + (if c == 2 {
            0int
        } else if m.kind == 1 {
            1
        } else {
            3
        }),
{
    let o = m.offsets;
    lemma_magnitude(o[1] as int);
    lemma_magnitude(o[2] as int);
    lemma_magnitude(o[3] as int);
    lemma_magnitude(o[4] as int);
}

proof fn lemma_region_offsets(r: Region, class: int, first: int)
    requires
        0 <= class < 4,
        0 <= first < 32,
    ensures
        offsets_wf(r.edge_offsets(class)),
        offsets_wf(r.band_offsets(first)),
{
}

/// Edge offsets of luma are worth what they gain less the price of the bins that they add to
/// the stream.
pub proof fn law_edge_offsets_pay_for_their_bins(r: Region, lambda: SaoLambda, class: int)
    requires
        0 <= class < 4,
    ensures
        ({
            let c = r.edge_choice(lambda, class);
            worth(r.edge_gain(class), c.score, added_bins(c.model, 0), 0, lambda)
        }),
{
    lemma_region_offsets(r, class, 0);
    lemma_component(r.edge_choice(lambda, class).model, 0);
}

/// Band offsets of luma are worth what they gain less the price of the bins that they add:
/// the position and the signs at the weight of band syntax, the others at the common one.
pub proof fn law_band_offsets_pay_for_their_bins(r: Region, lambda: SaoLambda, first: int)
    requires
        0 <= first < 32,
    ensures
        ({
            let c = r.band_choice(lambda, first);
            worth(r.band_gain(first), c.score, added_bins(c.model, 0), position_bins(c.model), lambda)
        }),
{
    lemma_region_offsets(r, 0, first);
    lemma_component(r.band_choice(lambda, first).model, 0);
}

proof fn lemma_best_band(r: Region, lambda: SaoLambda, n: nat)
    requires
        1 <= n <= 32,
    ensures
        0 <= r.best_band(lambda, n) < n,
        forall|k: int| 0 <= k < n ==> #[trigger] r.half_score(lambda, k) <= r.half_score(lambda, r.best_band(lambda, n)),
    decreases n,
{
    if n > 1 {
        lemma_best_band(r, lambda, (n - 1) as nat);
    }
}

/// The offsets of both chroma components are worth what they gain together less the price of
/// the bins that both add; the type and the class are put once.
pub proof fn law_chroma_offsets_pay_for_their_bins(cb: Region, cr: Region, lambda: SaoLambda, class: int)
    requires
        0 <= class < 4,
    ensures
        ({
            let e = edge_pair(cb, cr, lambda, class);
            worth(
                cb.edge_gain(class) + cr.edge_gain(class),
                e.score,
                added_bins(e.cb, 1) + added_bins(e.cr, 2),
                0,
                lambda,
            )
        }),
        ({
            let b = band_pair(cb, cr, lambda);
            worth(
                cb.band_gain(b.cb.band) + cr.band_gain(b.cr.band),
                b.score,
                added_bins(b.cb, 1) + added_bins(b.cr, 2),
                position_bins(b.cb) + position_bins(b.cr),
                lambda,
            )
        }),
{
    reveal(edge_pair);
    reveal(band_pair);
    lemma_best_band(cb, lambda, 32);
    lemma_best_band(cr, lambda, 32);
    lemma_region_offsets(cb, class, cb.best_band(lambda, 32));
    lemma_region_offsets(cr, class, cr.best_band(lambda, 32));
    let e = edge_pair(cb, cr, lambda, class);
    let b = band_pair(cb, cr, lambda);
    lemma_component(e.cb, 1);
    lemma_component(e.cr, 2);
    lemma_component(b.cb, 1);
    lemma_component(b.cr, 2);
}

/// The band that each chroma component takes has no better one.
pub proof fn law_chroma_bands_are_best(r: Region, lambda: SaoLambda, first: int)
    requires
        0 <= first < 32,
    ensures
        0 <= r.best_band(lambda, 32) < 32,
        r.half_score(lambda, first) <= r.half_score(lambda, r.best_band(lambda, 32)),
{
    lemma_best_band(r, lambda, 32);
}

/// The writer prices band syntax at two and a half times the weight of other bins, rounded
/// up; a caller that codes nothing prices both alike.
pub proof fn law_band_syntax_costs_more(lambda_q8: u32, search: SaoLambda, plain: SaoLambda)
    requires
        5 * lambda_q8 <= u32::MAX,
        call_ensures(SaoLambda::for_search, (lambda_q8,), search),
        call_ensures(SaoLambda::closed_form, (lambda_q8,), plain),
    ensures
        search.mode_q8 == lambda_q8,
        5 * lambda_q8 <= 2 * search.band_q8 <= 5 * lambda_q8 + 1,
        plain.mode_q8 == lambda_q8,
        plain.band_q8 == lambda_q8,
{
}

proof fn lemma_clears(gain: int, x: int)
    ensures
        gain > x / 256 <==> 256 * gain > x,
{
}

/// What the writer settles without measuring the curve: offsets that cost nothing are kept
/// where they gain anything; others are kept where they gain more than four times what their
/// bits weigh, and dropped where they gain no more than a quarter of it. Only between the two
/// is the curve asked.
pub proof fn law_only_the_band_of_four_is_open(gain: u64, bits: u64, qp: i32, lambda: u32)
    requires
        call_ensures(lambda_q8, (qp,), lambda),
        4 * (bits * lambda) <= u64::MAX,
    ensures
        ({
            let s = settled(gain as int, bits as int, qp as int);
            &&& bits == 0 ==> s == Some(gain > 0)
            &&& bits > 0 ==> (s == Some(true) <==> 256 * gain > 4 * (bits * lambda))
            &&& bits > 0 && 256 * gain <= 4 * (bits * lambda) ==> (s == Some(false) <==> 256 * gain <= bits * (lambda as int
                / 4))
        }),
{
    assert(bits * (lambda * 4) == 4 * (bits * lambda)) by (nonlinear_arith);
    assert(bits * (lambda as int / 4) <= bits * lambda) by (nonlinear_arith)
        requires
            lambda as int / 4 <= lambda,
            bits >= 0,
    ;
    assert(0 <= bits * lambda) by (nonlinear_arith);
    lemma_clears(gain as int, 4 * (bits * lambda));
    lemma_clears(gain as int, bits * (lambda as int / 4));
}

/// Luma and chroma are searched on their own: what is switched off has no offsets, and what is
/// on has the same ones whether or not the other is.
pub proof fn law_components_are_searched_apart(
    pic: &Picture,
    src: &SourcePlanes<'_>,
    lambda: SaoLambda,
    both: Vec<ResolvedSao>,
    luma: Vec<ResolvedSao>,
    chroma: Vec<ResolvedSao>,
    i: int,
)
    requires
        pic@.wf(),
        src@.wf(),
        src@.width == pic@.width,
        src@.height == pic@.height,
        call_ensures(estimate_sao, (pic, src, true, true, lambda), both),
        call_ensures(estimate_sao, (pic, src, true, false, lambda), luma),
        call_ensures(estimate_sao, (pic, src, false, true, lambda), chroma),
        0 <= i < (pic@.width / 16) * (pic@.height / 16),
    ensures
        both@.len() == luma@.len() && both@.len() == chroma@.len(),
        luma@[i]@.luma == both@[i]@.luma,
        luma@[i]@.cb == sao_off() && luma@[i]@.cr == sao_off(),
        chroma@[i]@.luma == sao_off(),
        chroma@[i]@.cb == both@[i]@.cb && chroma@[i]@.cr == both@[i]@.cr,
        sao_off().kind == 0,
{
    assert(cells(both@)[i] == both@[i]@);
    assert(cells(luma@)[i] == luma@[i]@);
    assert(cells(chroma@)[i] == chroma@[i]@);
}

/// `m` is the nearest integer to `s / n`, and `c` is `m` held between `lo` and `hi`: nothing in
/// between gains more.
proof fn lemma_nearest_gains_most(s: int, n: int, lo: int, hi: int, o: int)
    requires
        n > 0,
        lo <= 0 <= hi,
        lo <= o <= hi,
    ensures
        gain_of(o, s, n) <= gain_of(clip3(lo, hi, mean(s, n)), s, n),
{
    let m = mean(s, n);
    let half = n / 2;
    if s >= 0 {
        lemma_fundamental_div_mod(s + half, n);
        assert(2 * n * m - n <= 2 * s <= 2 * n * m + n) by (nonlinear_arith)
            requires
                s + half == n * m + (s + half) % n,
                0 <= (s + half) % n < n,
                half == n / 2,
                n > 0,
        ;
    } else {
        lemma_fundamental_div_mod(-s + half, n);
        let k = (-s + half) / n;
        assert(2 * n * k - n <= -2 * s <= 2 * n * k + n) by (nonlinear_arith)
            requires
                -s + half == n * k + (-s + half) % n,
                0 <= (-s + half) % n < n,
                half == n / 2,
                n > 0,
        ;
        assert(2 * n * m == -(2 * n * k)) by (nonlinear_arith)
            requires
                m == -k,
        ;
    }
    let c = clip3(lo, hi, m);
    let d = c - o;
    let sum = c + o;
    assert(d * (2 * s - n * sum) == d * (2 * s) - d * (n * sum)) by (nonlinear_arith);
    assert(d * (2 * s) == 2 * c * s - 2 * o * s) by (nonlinear_arith)
        requires
            d == c - o,
    ;
    assert(d * (n * sum) == n * (d * sum)) by (nonlinear_arith);
    assert(d * sum == c * c - o * o) by (nonlinear_arith)
        requires
            d == c - o,
            sum == c + o,
    ;
    assert(n * (c * c - o * o) == n * c * c - n * o * o) by (nonlinear_arith);
    assert(gain_of(c, s, n) - gain_of(o, s, n) == d * (2 * s - n * (c + o)));
    if d > 0 {
        // what is taken does not lie above the nearest
        assert(2 * s >= n * (c + o)) by (nonlinear_arith)
            requires
                2 * s >= 2 * n * m - n,
                m >= c,
                c >= o + 1,
                n > 0,
        ;
        assert(d * (2 * s - n * (c + o)) >= 0) by (nonlinear_arith)
            requires
                d > 0,
                2 * s >= n * (c + o),
        ;
    } else if d < 0 {
        assert(2 * s <= n * (c + o)) by (nonlinear_arith)
            requires
                2 * s <= 2 * n * m + n,
                m <= c,
                c <= o - 1,
                n > 0,
        ;
        assert(d * (2 * s - n * (c + o)) >= 0) by (nonlinear_arith)
            requires
                d < 0,
                2 * s <= n * (c + o),
        ;
    }
}

/// The offsets of a region are the best that can be signalled: no other offset of at most seven
/// either way takes more squared error off a band, and none of the sign that its category
/// implies takes more off an edge category.
pub proof fn law_offsets_are_the_best_that_can_be_signalled(r: Region, class: int, c: int, k: int, o: int)
    requires
        1 <= c <= 4,
        -7 <= o <= 7,
        r.band_hits(k, r.rows()) >= 0,
        r.edge_hits(class, c, r.rows()) >= 0,
    ensures
        gain_of(o, r.band_error(k, r.rows()), r.band_hits(k, r.rows())) <= r.one_band_gain(k) || r.band_hits(k, r.rows())
            == 0,
        (c <= 2 && o >= 0) || (c >= 3 && o <= 0) ==> gain_of(
            o,
            r.edge_error(class, c, r.rows()),
            r.edge_hits(class, c, r.rows()),
        ) <= r.category_gain(class, c) || r.edge_hits(class, c, r.rows()) == 0,
        -7 <= r.band_offset(k) <= 7,
        c <= 2 ==> 0 <= r.edge_offset(class, c) <= 7,
        c >= 3 ==> -7 <= r.edge_offset(class, c) <= 0,
{
    let n = r.band_hits(k, r.rows());
    if n > 0 {
        lemma_nearest_gains_most(r.band_error(k, r.rows()), n, -7, 7, o);
    }
    let m = r.edge_hits(class, c, r.rows());
    if m > 0 {
        if c <= 2 && o >= 0 {
            lemma_nearest_gains_most(r.edge_error(class, c, r.rows()), m, 0, 7, o);
        } else if c >= 3 && o <= 0 {
            lemma_nearest_gains_most(r.edge_error(class, c, r.rows()), m, -7, 0, o);
        }
    }
}

/// What an offset gains is the squared error that it takes off: the sum of the squares of `n`
/// differences that add up to `s`, less that of the same differences each reduced by the offset.
pub proof fn law_gain_is_squared_error(d: Seq<int>, o: int)
    ensures
        gain_of(o, total(d), d.len() as int) == squares(d) - squares(d.map_values(|v: int| v - o)),
    decreases d.len(),
{
    let e = d.map_values(|v: int| v - o);
    if d.len() > 0 {
        let (front, last) = (d.drop_last(), d.last());
        law_gain_is_squared_error(front, o);
        assert(e.drop_last() =~= front.map_values(|v: int| v - o));
        assert(e.last() == last - o);
        let (s, n) = (total(front), front.len() as int);
        assert(gain_of(o, s + last, n + 1) == gain_of(o, s, n) + last * last - (last - o) * (last - o))
            by (nonlinear_arith);
    } else {
        assert(gain_of(o, 0, 0) == 0) by (nonlinear_arith);
    }
}

/// What numbers add up to.
pub open spec fn total(d: Seq<int>) -> int
    decreases d.len(),
{
    if d.len() == 0 {
        0
    } else {
        total(d.drop_last()) + d.last()
    }
}

/// What their squares add up to.
pub open spec fn squares(d: Seq<int>) -> int
    decreases d.len(),
{
    if d.len() == 0 {
        0
    } else {
        squares(d.drop_last()) + d.last() * d.last()
    }
}

} // verus!
