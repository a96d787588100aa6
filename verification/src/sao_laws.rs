//! What the search for sample-adaptive offsets promises: the offsets it takes bring the
//! samples of a block closer to the source, and no candidate is worth more.
use vstd::prelude::*;
use crate::arith::lemma_grid;
use crate::cabac::clip3;
use crate::recon_simd::{band_count, band_of, band_sum};
use crate::sao::{band_index, category_at, sao_off, sao_sample, SaoModel};
use crate::sao_search::{
    band_bins, band_pair, chroma_choice, chroma_sao, edge_pair, gain_of, luma_sao, offset_bins, score, Region,
    SaoLambda,
};

verus! {

/// Which offset a sample of a region takes; 0 for none.
pub open spec fn label_at(r: Region, m: SaoModel, x: int, y: int) -> int {
    if m.kind == 2 {
        category_at(r.s, r.w, r.h, m.class, x, y)
    } else if m.kind == 1 {
        band_index(r.s[y * r.w + x] as int, m.band)
    } else {
        0
    }
}

/// Squared error of the first `n` samples of row `y`.
pub open spec fn row_before(r: Region, y: int, n: nat) -> int
    decreases n,
{
    if n == 0 {
        0
    } else {
        row_before(r, y, (n - 1) as nat) + r.error(r.x0 + n - 1, y) * r.error(r.x0 + n - 1, y)
    }
}

/// How far the source lies above a sample with its offset added.
pub open spec fn error_after(r: Region, m: SaoModel, x: int, y: int) -> int {
    r.src[y * r.stride + x] - sao_sample(r.s, r.w, r.h, m, x, y)
}

/// Squared error of the first `n` samples of row `y`, offsets added.
pub open spec fn row_after(r: Region, m: SaoModel, y: int, n: nat) -> int
    decreases n,
{
    if n == 0 {
        0
    } else {
        row_after(r, m, y, (n - 1) as nat) + error_after(r, m, r.x0 + n - 1, y) * error_after(r, m, r.x0 + n - 1, y)
    }
}

/// Squared error of the first `rows` rows of a region.
pub open spec fn error_before(r: Region, rows: nat) -> int
    decreases rows,
{
    if rows == 0 {
        0
    } else {
        error_before(r, (rows - 1) as nat) + row_before(r, r.y0 + rows - 1, (r.x1 - r.x0) as nat)
    }
}

/// Squared error of the first `rows` rows of a region, offsets added.
pub open spec fn error_with(r: Region, m: SaoModel, rows: nat) -> int
    decreases rows,
{
    if rows == 0 {
        0
    } else {
        error_with(r, m, (rows - 1) as nat) + row_after(r, m, r.y0 + rows - 1, (r.x1 - r.x0) as nat)
    }
}

/// Summed error of the samples labelled `c` among the first `n` of row `y`.
spec fn label_sum(r: Region, m: SaoModel, c: int, y: int, n: nat) -> int
    decreases n,
{
    if n == 0 {
        0
    } else {
        label_sum(r, m, c, y, (n - 1) as nat) + if label_at(r, m, r.x0 + n - 1, y) == c {
            r.error(r.x0 + n - 1, y)
        } else {
            0
        }
    }
}

/// How many of the first `n` samples of row `y` are labelled `c`.
spec fn label_count(r: Region, m: SaoModel, c: int, y: int, n: nat) -> int
    decreases n,
{
    if n == 0 {
        0
    } else {
        label_count(r, m, c, y, (n - 1) as nat) + if label_at(r, m, r.x0 + n - 1, y) == c {
            1int
        } else {
            0int
        }
    }
}

/// What the samples labelled `c` of the first `n` of row `y` gain.
spec fn label_gain(r: Region, m: SaoModel, c: int, y: int, n: nat) -> int {
    gain_of(m.offsets[c] as int, label_sum(r, m, c, y, n), label_count(r, m, c, y, n))
}

/// What the first `n` samples of row `y` gain.
spec fn row_gain(r: Region, m: SaoModel, y: int, n: nat) -> int {
    label_gain(r, m, 1, y, n) + label_gain(r, m, 2, y, n) + label_gain(r, m, 3, y, n) + label_gain(r, m, 4, y, n)
}

proof fn lemma_gain_adds(o: int, s: int, n: int, t: int, k: int)
    ensures
        gain_of(o, s + t, n + k) == gain_of(o, s, n) + gain_of(o, t, k),
{
    assert(2 * o * (s + t) - (n + k) * o * o == (2 * o * s - n * o * o) + (2 * o * t - k * o * o)) by (nonlinear_arith);
}

proof fn lemma_gain_of_none(o: int)
    ensures
        gain_of(o, 0, 0) == 0,
{
    assert(2 * o * 0 - 0 * o * o == 0) by (nonlinear_arith);
}

/// Confining a sample to 8 bits brings it no farther from an 8-bit source.
proof fn lemma_clip_is_closer(src: int, v: int)
    requires
        0 <= src <= 255,
    ensures
        (src - clip3(0, 255, v)) * (src - clip3(0, 255, v)) <= (src - v) * (src - v),
{
    if v < 0 {
        assert(src * src <= (src - v) * (src - v)) by (nonlinear_arith)
            requires
                v < 0,
                src >= 0,
        ;
    } else if v > 255 {
        assert((src - 255) * (src - 255) <= (src - v) * (src - v)) by (nonlinear_arith)
            requires
                v > 255,
                src <= 255,
        ;
    }
}

/// What one sample gains from its offset.
proof fn lemma_sample_gain(r: Region, m: SaoModel, x: int, y: int)
    requires
        r.wf(),
        m.wf(),
        r.x0 <= x < r.x1,
        r.y0 <= y < r.y1,
    ensures
        ({
            let o = m.offsets[label_at(r, m, x, y)] as int;
            &&& 0 <= label_at(r, m, x, y) <= 4
            &&& error_after(r, m, x, y) * error_after(r, m, x, y) <= r.error(x, y) * r.error(x, y) - gain_of(
                o,
                r.error(x, y),
                1,
            )
        }),
{
    let here = r.s[y * r.w + x] as int;
    let src = r.src[y * r.stride + x] as int;
    let e = src - here;
    lemma_grid(y, x, r.w, r.h);
    assert(0 <= here <= 255);
    let o = m.offsets[label_at(r, m, x, y)] as int;
    assert((e - o) * (e - o) == e * e - (2 * o * e - 1 * o * o)) by (nonlinear_arith);
    lemma_clip_is_closer(src, here + o);
}

proof fn lemma_row_gain(r: Region, m: SaoModel, y: int, n: nat)
    requires
        r.wf(),
        m.wf(),
        r.y0 <= y < r.y1,
        n <= r.x1 - r.x0,
    ensures
        row_after(r, m, y, n) <= row_before(r, y, n) - row_gain(r, m, y, n),
    decreases n,
{
    if n == 0 {
        lemma_gain_of_none(m.offsets[1] as int);
        lemma_gain_of_none(m.offsets[2] as int);
        lemma_gain_of_none(m.offsets[3] as int);
        lemma_gain_of_none(m.offsets[4] as int);
    } else {
        let k = (n - 1) as nat;
        let x = r.x0 + k;
        lemma_row_gain(r, m, y, k);
        lemma_sample_gain(r, m, x, y);
        lemma_label_step(r, m, 1, y, n);
        lemma_label_step(r, m, 2, y, n);
        lemma_label_step(r, m, 3, y, n);
        lemma_label_step(r, m, 4, y, n);
        let l = label_at(r, m, x, y);
        if l == 0 {
            let e = r.error(x, y);
            assert(gain_of(0, e, 1) == 0) by {
                assert(2 * 0 * e - 1 * 0 * 0 == 0) by (nonlinear_arith);
            }
        }
    }
}

/// One more sample adds its gain to its label alone.
proof fn lemma_label_step(r: Region, m: SaoModel, c: int, y: int, n: nat)
    requires
        n > 0,
    ensures
        label_gain(r, m, c, y, n) == label_gain(r, m, c, y, (n - 1) as nat) + if label_at(r, m, r.x0 + n - 1, y) == c {
            gain_of(m.offsets[c] as int, r.error(r.x0 + n - 1, y), 1)
        } else {
            0
        },
{
    let k = (n - 1) as nat;
    let o = m.offsets[c] as int;
    if label_at(r, m, r.x0 + n - 1, y) == c {
        lemma_gain_adds(o, label_sum(r, m, c, y, k), label_count(r, m, c, y, k), r.error(r.x0 + n - 1, y), 1);
    }
}

/// What the first `rows` rows of a region gain, by the sums of its labels.
spec fn region_sum(r: Region, m: SaoModel, c: int, rows: nat) -> int
    decreases rows,
{
    if rows == 0 {
        0
    } else {
        region_sum(r, m, c, (rows - 1) as nat) + label_sum(r, m, c, r.y0 + rows - 1, (r.x1 - r.x0) as nat)
    }
}

spec fn region_count(r: Region, m: SaoModel, c: int, rows: nat) -> int
    decreases rows,
{
    if rows == 0 {
        0
    } else {
        region_count(r, m, c, (rows - 1) as nat) + label_count(r, m, c, r.y0 + rows - 1, (r.x1 - r.x0) as nat)
    }
}

spec fn region_gain(r: Region, m: SaoModel, c: int, rows: nat) -> int {
    gain_of(m.offsets[c] as int, region_sum(r, m, c, rows), region_count(r, m, c, rows))
}

proof fn lemma_region_gain(r: Region, m: SaoModel, rows: nat)
    requires
        r.wf(),
        m.wf(),
        rows <= r.y1 - r.y0,
    ensures
        error_with(r, m, rows) <= error_before(r, rows) - (region_gain(r, m, 1, rows) + region_gain(r, m, 2, rows)
            + region_gain(r, m, 3, rows) + region_gain(r, m, 4, rows)),
    decreases rows,
{
    if rows == 0 {
        lemma_gain_of_none(m.offsets[1] as int);
        lemma_gain_of_none(m.offsets[2] as int);
        lemma_gain_of_none(m.offsets[3] as int);
        lemma_gain_of_none(m.offsets[4] as int);
    } else {
        let k = (rows - 1) as nat;
        let y = r.y0 + k;
        let n = (r.x1 - r.x0) as nat;
        lemma_region_gain(r, m, k);
        lemma_row_gain(r, m, y, n);
        lemma_region_step(r, m, 1, rows);
        lemma_region_step(r, m, 2, rows);
        lemma_region_step(r, m, 3, rows);
        lemma_region_step(r, m, 4, rows);
    }
}

proof fn lemma_region_step(r: Region, m: SaoModel, c: int, rows: nat)
    requires
        rows > 0,
    ensures
        region_gain(r, m, c, rows) == region_gain(r, m, c, (rows - 1) as nat) + label_gain(
            r,
            m,
            c,
            r.y0 + rows - 1,
            (r.x1 - r.x0) as nat,
        ),
{
    let k = (rows - 1) as nat;
    let n = (r.x1 - r.x0) as nat;
    let y = r.y0 + rows - 1;
    lemma_gain_adds(
        m.offsets[c] as int,
        region_sum(r, m, c, k),
        region_count(r, m, c, k),
        label_sum(r, m, c, y, n),
        label_count(r, m, c, y, n),
    );
}

proof fn lemma_edge_row(r: Region, m: SaoModel, c: int, y: int, n: nat)
    requires
        m.kind == 2,
    ensures
        label_sum(r, m, c, y, n) == r.row_error(m.class, c, y, n),
        label_count(r, m, c, y, n) == r.row_hits(m.class, c, y, n),
    decreases n,
{
    if n > 0 {
        lemma_edge_row(r, m, c, y, (n - 1) as nat);
    }
}

proof fn lemma_edge_region(r: Region, m: SaoModel, c: int, rows: nat)
    requires
        m.kind == 2,
    ensures
        region_sum(r, m, c, rows) == r.edge_error(m.class, c, rows),
        region_count(r, m, c, rows) == r.edge_hits(m.class, c, rows),
    decreases rows,
{
    if rows > 0 {
        lemma_edge_region(r, m, c, (rows - 1) as nat);
        lemma_edge_row(r, m, c, r.y0 + rows - 1, (r.x1 - r.x0) as nat);
    }
}

proof fn lemma_band_row(r: Region, m: SaoModel, c: int, y: int, n: nat)
    requires
        r.wf(),
        m.kind == 1,
        0 <= m.band < 32,
        1 <= c <= 4,
        r.y0 <= y < r.y1,
        n <= r.x1 - r.x0,
    ensures
        label_sum(r, m, c, y, n) == band_sum(r.here_row(y), r.src_row(y), (m.band + c - 1) % 32, n),
        label_count(r, m, c, y, n) == band_count(r.here_row(y), (m.band + c - 1) % 32, n),
    decreases n,
{
    if n > 0 {
        let k = (n - 1) as nat;
        let x = r.x0 + k;
        lemma_band_row(r, m, c, y, k);
        lemma_grid(y, x, r.w, r.h);
        lemma_rows_inside(r, y);
        let here = r.s[y * r.w + x] as int;
        assert(r.here_row(y)[k as int] == here);
        assert(r.src_row(y)[k as int] == r.src[y * r.stride + x]);
        assert(0 <= here <= 255);
        assert((band_of(here) == (m.band + c - 1) % 32) == (label_at(r, m, x, y) == c));
    }
}

/// The rows of a region lie inside both planes.
proof fn lemma_rows_inside(r: Region, y: int)
    requires
        r.wf(),
        r.y0 <= y < r.y1,
    ensures
        0 <= y * r.w,
        y * r.w + r.x1 <= r.s.len(),
        0 <= y * r.stride,
        y * r.stride + r.x1 <= r.src.len(),
{
    assert(0 <= y * r.w && y * r.w + r.w <= r.w * r.h) by (nonlinear_arith)
        requires
            0 <= y < r.h,
            r.w > 0,
    ;
    assert(0 <= y * r.stride <= (r.h - 1) * r.stride) by (nonlinear_arith)
        requires
            0 <= y <= r.h - 1,
            r.stride > 0,
    ;
}

proof fn lemma_band_region(r: Region, m: SaoModel, c: int, rows: nat)
    requires
        r.wf(),
        m.kind == 1,
        0 <= m.band < 32,
        1 <= c <= 4,
        rows <= r.y1 - r.y0,
    ensures
        region_sum(r, m, c, rows) == r.band_error((m.band + c - 1) % 32, rows),
        region_count(r, m, c, rows) == r.band_hits((m.band + c - 1) % 32, rows),
    decreases rows,
{
    if rows > 0 {
        lemma_band_region(r, m, c, (rows - 1) as nat);
        lemma_band_row(r, m, c, r.y0 + rows - 1, (r.x1 - r.x0) as nat);
    }
}

/// Edge offsets remove at least what they are said to gain.
pub proof fn law_edge_gain_is_removed(r: Region, class: int)
    requires
        r.wf(),
        0 <= class < 4,
    ensures
        error_with(r, (SaoModel { kind: 2, offsets: r.edge_offsets(class), band: 0, class }), r.rows()) <= error_before(
            r,
            r.rows(),
        ) - r.edge_gain(class),
{
    let m = SaoModel { kind: 2, offsets: r.edge_offsets(class), band: 0, class };
    assert(m.wf());
    lemma_region_gain(r, m, r.rows());
    lemma_edge_region(r, m, 1, r.rows());
    lemma_edge_region(r, m, 2, r.rows());
    lemma_edge_region(r, m, 3, r.rows());
    lemma_edge_region(r, m, 4, r.rows());
}

/// Band offsets remove at least what they are said to gain.
pub proof fn law_band_gain_is_removed(r: Region, first: int)
    requires
        r.wf(),
        0 <= first < 32,
    ensures
        error_with(r, (SaoModel { kind: 1, offsets: r.band_offsets(first), band: first, class: 0 }), r.rows())
            <= error_before(r, r.rows()) - r.band_gain(first),
{
    let m = SaoModel { kind: 1, offsets: r.band_offsets(first), band: first, class: 0 };
    assert(m.wf());
    lemma_region_gain(r, m, r.rows());
    lemma_band_region(r, m, 1, r.rows());
    lemma_band_region(r, m, 2, r.rows());
    lemma_band_region(r, m, 3, r.rows());
    lemma_band_region(r, m, 4, r.rows());
}

/// A candidate is worth at most what it gains.
proof fn lemma_score_bound(gain: int, bins: int, band: int, lambda: SaoLambda)
    requires
        bins >= 0,
        band >= 0,
    ensures
        score(gain, bins, band, lambda) <= gain,
{
    assert(bins * lambda.mode_q8 + band * lambda.band_q8 >= 0) by (nonlinear_arith)
        requires
            bins >= 0,
            band >= 0,
            lambda.mode_q8 >= 0,
            lambda.band_q8 >= 0,
    ;
}

proof fn lemma_off_row(r: Region, y: int, n: nat)
    ensures
        row_after(r, sao_off(), y, n) == row_before(r, y, n),
    decreases n,
{
    if n > 0 {
        lemma_off_row(r, y, (n - 1) as nat);
    }
}

proof fn lemma_off_region(r: Region, rows: nat)
    ensures
        error_with(r, sao_off(), rows) == error_before(r, rows),
    decreases rows,
{
    if rows > 0 {
        lemma_off_region(r, (rows - 1) as nat);
        lemma_off_row(r, r.y0 + rows - 1, (r.x1 - r.x0) as nat);
    }
}

proof fn lemma_luma_choice(r: Region, lambda: SaoLambda, n: nat)
    requires
        r.wf(),
        n <= 36,
    ensures
        ({
            let best = r.luma_choice(lambda, n);
            &&& best.score >= 0
            &&& best.model.kind != 0 ==> best.score > 0
            &&& error_with(r, best.model, r.rows()) <= error_before(r, r.rows()) - best.score
        }),
    decreases n,
{
    if n == 0 {
        lemma_off_region(r, r.rows());
    } else {
        lemma_luma_choice(r, lambda, (n - 1) as nat);
        if n <= 4 {
            let o = r.edge_offsets(n - 1);
            law_edge_gain_is_removed(r, n - 1);
            lemma_score_bound(r.edge_gain(n - 1), 3 + offset_bins(o), 0, lambda);
        } else {
            let o = r.band_offsets(n - 5);
            law_band_gain_is_removed(r, n - 5);
            lemma_score_bound(r.band_gain(n - 5), 1 + offset_bins(o), band_bins(o), lambda);
        }
    }
}

/// The offsets that the search takes for the luma of a block never raise its squared
/// error, and lower it wherever they are not none.
pub proof fn law_luma_offsets_lower_the_error(r: Region, lambda: SaoLambda)
    requires
        r.wf(),
    ensures
        error_with(r, luma_sao(r, lambda), r.rows()) <= error_before(r, r.rows()),
        luma_sao(r, lambda).kind != 0 ==> error_with(r, luma_sao(r, lambda), r.rows()) < error_before(r, r.rows()),
{
    reveal(luma_sao);
    lemma_luma_choice(r, lambda, 36);
}

proof fn lemma_band_half(r: Region, lambda: SaoLambda, n: nat)
    requires
        1 <= n <= 32,
    ensures
        0 <= r.best_band(lambda, n) < n,
    decreases n,
{
    if n > 1 {
        lemma_band_half(r, lambda, (n - 1) as nat);
    }
}

/// Both components together lose at least `worth` of their squared error.
spec fn pair_removes(cb: Region, cr: Region, mb: SaoModel, mr: SaoModel, worth: int) -> bool {
    error_with(cb, mb, cb.rows()) + error_with(cr, mr, cr.rows()) <= error_before(cb, cb.rows()) + error_before(
        cr,
        cr.rows(),
    ) - worth
}

proof fn lemma_edge_pair(cb: Region, cr: Region, lambda: SaoLambda, class: int)
    requires
        cb.wf(),
        cr.wf(),
        0 <= class < 4,
    ensures
        ({
            let c = edge_pair(cb, cr, lambda, class);
            pair_removes(cb, cr, c.cb, c.cr, c.score)
        }),
{
    reveal(edge_pair);
    let (ob, or) = (cb.edge_offsets(class), cr.edge_offsets(class));
    law_edge_gain_is_removed(cb, class);
    law_edge_gain_is_removed(cr, class);
    lemma_score_bound(cb.edge_gain(class) + cr.edge_gain(class), 3 + offset_bins(ob) + offset_bins(or), 0, lambda);
}

proof fn lemma_two_bands(cb: Region, cr: Region, lambda: SaoLambda, fb: int, fr: int)
    requires
        cb.wf(),
        cr.wf(),
        0 <= fb < 32,
        0 <= fr < 32,
    ensures
        pair_removes(
            cb,
            cr,
            (SaoModel { kind: 1, offsets: cb.band_offsets(fb), band: fb, class: 0 }),
            (SaoModel { kind: 1, offsets: cr.band_offsets(fr), band: fr, class: 0 }),
            score(
                cb.band_gain(fb) + cr.band_gain(fr),
                1 + offset_bins(cb.band_offsets(fb)) + offset_bins(cr.band_offsets(fr)),
                band_bins(cb.band_offsets(fb)) + band_bins(cr.band_offsets(fr)),
                lambda,
            ),
        ),
{
    let (ob, or) = (cb.band_offsets(fb), cr.band_offsets(fr));
    let (gb, gr) = (cb.band_gain(fb), cr.band_gain(fr));
    law_band_gain_is_removed(cb, fb);
    law_band_gain_is_removed(cr, fr);
    lemma_bins_count(ob);
    lemma_bins_count(or);
    lemma_score_bound(gb + gr, 1 + offset_bins(ob) + offset_bins(or), band_bins(ob) + band_bins(or), lambda);
}

proof fn lemma_bins_count(o: Seq<i32>)
    ensures
        offset_bins(o) >= 0,
        band_bins(o) >= 0,
{
}

proof fn lemma_band_pair(cb: Region, cr: Region, lambda: SaoLambda)
    requires
        cb.wf(),
        cr.wf(),
    ensures
        ({
            let c = band_pair(cb, cr, lambda);
            pair_removes(cb, cr, c.cb, c.cr, c.score)
        }),
{
    let (fb, fr) = (cb.best_band(lambda, 32), cr.best_band(lambda, 32));
    lemma_band_half(cb, lambda, 32);
    lemma_band_half(cr, lambda, 32);
    lemma_two_bands(cb, cr, lambda, fb, fr);
    reveal(band_pair);
}

proof fn lemma_chroma_choice(cb: Region, cr: Region, lambda: SaoLambda, n: nat)
    requires
        cb.wf(),
        cr.wf(),
        n <= 5,
    ensures
        ({
            let best = chroma_choice(cb, cr, lambda, n);
            &&& best.score >= 0
            &&& best.cb.kind != 0 || best.cr.kind != 0 ==> best.score > 0
            &&& pair_removes(cb, cr, best.cb, best.cr, best.score)
        }),
    decreases n,
{
    if n == 0 {
        lemma_off_region(cb, cb.rows());
        lemma_off_region(cr, cr.rows());
    } else {
        lemma_chroma_choice(cb, cr, lambda, (n - 1) as nat);
        if n <= 4 {
            lemma_edge_pair(cb, cr, lambda, n - 1);
        } else {
            lemma_band_pair(cb, cr, lambda);
        }
    }
}

/// The offsets that the search takes for the chroma of a block never raise the squared
/// error of both components together, and lower it wherever they are not none.
pub proof fn law_chroma_offsets_lower_the_error(cb: Region, cr: Region, lambda: SaoLambda)
    requires
        cb.wf(),
        cr.wf(),
    ensures
        ({
            let (mb, mr) = chroma_sao(cb, cr, lambda);
            let after = error_with(cb, mb, cb.rows()) + error_with(cr, mr, cr.rows());
            let before = error_before(cb, cb.rows()) + error_before(cr, cr.rows());
            &&& after <= before
            &&& mb.kind != 0 || mr.kind != 0 ==> after < before
        }),
{
    reveal(chroma_sao);
    lemma_chroma_choice(cb, cr, lambda, 5);
}

proof fn lemma_luma_choice_grows(r: Region, lambda: SaoLambda, m: nat, n: nat)
    requires
        m <= n,
    ensures
        r.luma_choice(lambda, m).score <= r.luma_choice(lambda, n).score,
    decreases n,
{
    if m < n {
        lemma_luma_choice_grows(r, lambda, m, (n - 1) as nat);
    }
}

/// No edge class, no band position and not doing without is worth more than what the
/// search takes for the luma of a block.
pub proof fn law_luma_choice_is_best(r: Region, lambda: SaoLambda)
    ensures
        r.luma_choice(lambda, 36).score >= 0,
        forall|class: int|
            0 <= class < 4 ==> (#[trigger] r.edge_choice(lambda, class)).score <= r.luma_choice(lambda, 36).score,
        forall|first: int|
            0 <= first < 32 ==> (#[trigger] r.band_choice(lambda, first)).score <= r.luma_choice(lambda, 36).score,
{
    lemma_luma_choice_grows(r, lambda, 0, 36);
    assert forall|class: int| 0 <= class < 4 implies (#[trigger] r.edge_choice(lambda, class)).score <= r.luma_choice(
        lambda,
        36,
    ).score by {
        lemma_luma_choice_grows(r, lambda, (class + 1) as nat, 36);
    }
    assert forall|first: int| 0 <= first < 32 implies (#[trigger] r.band_choice(lambda, first)).score <= r.luma_choice(
        lambda,
        36,
    ).score by {
        lemma_luma_choice_grows(r, lambda, (first + 5) as nat, 36);
    }
}

} // verus!
