//! Laws of intra prediction.
use vstd::prelude::*;
use crate::arith::{abs, lemma_grid, lemma_ungrid};
use crate::intra::{
    above, angled, filtered, flat, flat_value, is_samples, is_side, left, lemma_projection, planar, predict, predicted,
    prediction, projected, side_sum, smoothed, smooths, INTRA_ANGLE, INVERSE_ANGLE,
};
use crate::quantizer_laws::turned;

verus! {

/// The reference run the other way round: the row above becomes the left column.
pub open spec fn mirrored(r: Seq<i32>, m: Seq<i32>) -> bool {
    m.len() == r.len() && forall|i: int| 0 <= i < r.len() ==> #[trigger] m[i] == r[r.len() - 1 - i]
}

/// The mode on the other side of the diagonal; the planar and the flat one have no side.
pub open spec fn mirror_mode(mode: int) -> int {
    if mode < 2 {
        mode
    } else {
        36 - mode
    }
}

/// The displacements mirror about the diagonal, turn sign about the axes, and the second table
/// holds the nearest to 8192 over the first.
pub proof fn law_angles_are_symmetric(m: int)
    requires
        2 <= m <= 34,
    ensures
        INTRA_ANGLE@[m] == INTRA_ANGLE@[36 - m],
        INVERSE_ANGLE@[m] == INVERSE_ANGLE@[36 - m],
        18 <= m ==> INTRA_ANGLE@[m] == -INTRA_ANGLE@[52 - m],
        18 <= m < 34 ==> 2 <= INTRA_ANGLE@[m + 1] - INTRA_ANGLE@[m] <= 6,
        INTRA_ANGLE@[34] == 32 && INTRA_ANGLE@[26] == 0 && INTRA_ANGLE@[18] == -32,
        INTRA_ANGLE@[m] < 0 ==> 2 * abs(INTRA_ANGLE@[m] * INVERSE_ANGLE@[m] - 8192) <= -INTRA_ANGLE@[m],
        INTRA_ANGLE@[m] >= 0 ==> INVERSE_ANGLE@[m] == 0,
{
    lemma_signs(m);
    if INTRA_ANGLE@[m] < 0 {
        lemma_reciprocal(INTRA_ANGLE@[m] as int, INVERSE_ANGLE@[m] as int);
    }
}

/// The tables, mode by mode.
proof fn lemma_signs(m: int)
    requires
        2 <= m <= 34,
    ensures
        INTRA_ANGLE@[m] == INTRA_ANGLE@[36 - m],
        INVERSE_ANGLE@[m] == INVERSE_ANGLE@[36 - m],
        18 <= m ==> INTRA_ANGLE@[m] == -INTRA_ANGLE@[52 - m],
        18 <= m < 34 ==> 2 <= INTRA_ANGLE@[m + 1] - INTRA_ANGLE@[m] <= 6,
        INTRA_ANGLE@[34] == 32 && INTRA_ANGLE@[26] == 0 && INTRA_ANGLE@[18] == -32,
        INTRA_ANGLE@[m] >= 0 ==> INVERSE_ANGLE@[m] == 0,
        INTRA_ANGLE@[m] < 0 ==> {
            is_angle(INTRA_ANGLE@[m] as int, INVERSE_ANGLE@[m] as int)
        },
{
    if m == 2 {
    } else if m == 3 {
    } else if m == 4 {
    } else if m == 5 {
    } else if m == 6 {
    } else if m == 7 {
    } else if m == 8 {
    } else if m == 9 {
    } else if m == 10 {
    } else if m == 11 {
    } else if m == 12 {
    } else if m == 13 {
    } else if m == 14 {
    } else if m == 15 {
    } else if m == 16 {
    } else if m == 17 {
    } else if m == 18 {
    } else if m == 19 {
    } else if m == 20 {
    } else if m == 21 {
    } else if m == 22 {
    } else if m == 23 {
    } else if m == 24 {
    } else if m == 25 {
    } else if m == 26 {
    } else if m == 27 {
    } else if m == 28 {
    } else if m == 29 {
    } else if m == 30 {
    } else if m == 31 {
    } else if m == 32 {
    } else if m == 33 {
    } else if m == 34 {
    }
}

/// A falling displacement and its reciprocal.
spec fn is_angle(a: int, b: int) -> bool {
    ||| a == -2 && b == -4096
    ||| a == -5 && b == -1638
    ||| a == -9 && b == -910
    ||| a == -13 && b == -630
    ||| a == -17 && b == -482
    ||| a == -21 && b == -390
    ||| a == -26 && b == -315
    ||| a == -32 && b == -256
}

proof fn lemma_reciprocal(a: int, b: int)
    requires
        is_angle(a, b),
    ensures
        2 * abs(a * b - 8192) <= -a,
{
    let c = a * b;
    if a == -2 {
        assert(c == 8192) by (nonlinear_arith)
            requires
                c == a * b,
                a == -2,
                b == -4096,
        ;
    }
    if a == -5 {
        assert(c == 8190) by (nonlinear_arith)
            requires
                c == a * b,
                a == -5,
                b == -1638,
        ;
    }
    if a == -9 {
        assert(c == 8190) by (nonlinear_arith)
            requires
                c == a * b,
                a == -9,
                b == -910,
        ;
    }
    if a == -13 {
        assert(c == 8190) by (nonlinear_arith)
            requires
                c == a * b,
                a == -13,
                b == -630,
        ;
    }
    if a == -17 {
        assert(c == 8194) by (nonlinear_arith)
            requires
                c == a * b,
                a == -17,
                b == -482,
        ;
    }
    if a == -21 {
        assert(c == 8190) by (nonlinear_arith)
            requires
                c == a * b,
                a == -21,
                b == -390,
        ;
    }
    if a == -26 {
        assert(c == 8190) by (nonlinear_arith)
            requires
                c == a * b,
                a == -26,
                b == -315,
        ;
    }
    if a == -32 {
        assert(c == 8192) by (nonlinear_arith)
            requires
                c == a * b,
                a == -32,
                b == -256,
        ;
    }
}

proof fn lemma_smoothed_mirror(r: Seq<i32>, m: Seq<i32>)
    requires
        mirrored(r, m),
    ensures
        mirrored(smoothed(r), smoothed(m)),
{
    let n = r.len();
    assert forall|i: int| 0 <= i < n implies #[trigger] smoothed(m)[i] == smoothed(r)[n - 1 - i] by {
        if 0 < i < n - 1 {
            assert(m[i - 1] == r[n - i] && m[i] == r[n - 1 - i] && m[i + 1] == r[n - 2 - i]);
        }
    }
}

proof fn lemma_smooths_mirror(mode: int, n: int)
    requires
        0 <= mode <= 34,
    ensures
        mode >= 2 ==> smooths(36 - mode, n) == smooths(mode, n),
{
}

proof fn lemma_side_sum_mirror(r: Seq<i32>, m: Seq<i32>, n: int, k: nat)
    requires
        mirrored(r, m),
        r.len() == 4 * n + 1,
        k <= n,
    ensures
        side_sum(m, n, k) == side_sum(r, n, k),
    decreases k,
{
    if k > 0 {
        lemma_side_sum_mirror(r, m, n, (k - 1) as nat);
        assert(m[2 * n - k] == r[2 * n + k] && m[2 * n + k] == r[2 * n - k]);
    }
}

proof fn lemma_angled_mirror(r: Seq<i32>, m: Seq<i32>, n: int, mode: int, along: int, depth: int)
    requires
        is_side(n),
        mirrored(r, m),
        r.len() == 4 * n + 1,
        2 <= mode <= 34,
        mode != 18,
        0 <= along < n,
        0 <= depth < n,
    ensures
        angled(m, n, 36 - mode, along, depth) == angled(r, n, mode, along, depth),
{
    law_angles_are_symmetric(mode);
    lemma_projection(n, mode, along, depth);
    lemma_projection(n, 36 - mode, along, depth);
    let shift = (depth + 1) * INTRA_ANGLE@[mode];
    let k = along + shift / 32 + 1;
    assert(projected(n, 36 - mode, k) == 4 * n - projected(n, mode, k));
    assert(m[projected(n, 36 - mode, k)] == r[projected(n, mode, k)]);
    if shift % 32 != 0 {
        assert(projected(n, 36 - mode, k + 1) == 4 * n - projected(n, mode, k + 1));
        assert(m[projected(n, 36 - mode, k + 1)] == r[projected(n, mode, k + 1)]);
    }
}

proof fn lemma_diagonal(r: Seq<i32>, n: int, along: int, depth: int)
    requires
        is_side(n),
        0 <= along < n,
        0 <= depth < n,
    ensures
        angled(r, n, 18, along, depth) == r[2 * n + along - depth],
{
    law_angles_are_symmetric(18);
    assert(INVERSE_ANGLE@[18] == -256);
    let shift = (depth + 1) * INTRA_ANGLE@[18];
    assert(shift == -32 * (depth + 1));
    let k = along - depth;
    assert(k * -256 == -256 * k);
    assert(projected(n, 18, k) == 2 * n + k);
}

proof fn lemma_predicted_mirror(r: Seq<i32>, m: Seq<i32>, n: int, mode: int, luma: bool, x: int, y: int)
    requires
        is_side(n),
        mirrored(r, m),
        r.len() == 4 * n + 1,
        0 <= mode <= 34,
        0 <= x < n,
        0 <= y < n,
    ensures
        predicted(m, n, mirror_mode(mode), luma, y, x) == predicted(r, n, mode, luma, x, y),
{
    lemma_smooths_mirror(mode, n);
    lemma_smoothed_mirror(r, m);
    let p = filtered(r, n, mode, luma);
    let q = filtered(m, n, mirror_mode(mode), luma);
    assert(mirrored(p, q));
    assert(p.len() == 4 * n + 1);
    assert(q[2 * n] == p[2 * n]);
    assert forall|k: int| 0 <= k < 2 * n implies #[trigger] left(q, n, k) == above(p, n, k) && above(q, n, k) == left(
        p,
        n,
        k,
    ) by {
        assert(q[2 * n - 1 - k] == p[2 * n + 1 + k] && q[2 * n + 1 + k] == p[2 * n - 1 - k]);
    }
    assert(left(q, n, x) == above(p, n, x) && left(q, n, y) == above(p, n, y));
    assert(left(q, n, 0) == above(p, n, 0) && left(q, n, n) == above(p, n, n));
    if mode == 0 {
        assert(planar(q, n, y, x) == planar(p, n, x, y));
    } else if mode == 1 {
        lemma_side_sum_mirror(p, q, n, n as nat);
        assert(flat_value(q, n) == flat_value(p, n));
    } else if mode == 18 {
        lemma_diagonal(p, n, x, y);
        lemma_diagonal(q, n, y, x);
        assert(q[2 * n + y - x] == p[2 * n + x - y]);
    } else if mode > 18 {
        lemma_angled_mirror(p, q, n, mode, x, y);
    } else {
        lemma_angled_mirror(p, q, n, mode, y, x);
    }
}

/// Prediction has no handedness: from the reference the other way round, the mode on the other
/// side of the diagonal predicts the block with rows and columns exchanged.
pub proof fn law_modes_mirror(
    r: &Vec<i32>,
    m: &Vec<i32>,
    n: usize,
    mode: u8,
    luma: bool,
    one: Vec<i32>,
    other: Vec<i32>,
)
    requires
        is_side(n as int),
        r@.len() == 4 * n + 1,
        is_samples(r@),
        mirrored(r@, m@),
        mode <= 34,
        call_ensures(predict, (r, n, mode, luma), one),
        call_ensures(predict, (m, n, mirror_mode(mode as int) as u8, luma), other),
    ensures
        turned(one@, other@, n as int),
{
    let k = n as int;
    assert(is_samples(m@));
    assert forall|y: int, x: int| 0 <= y < k && 0 <= x < k implies #[trigger] one@[y * k + x] == other@[x * k + y] by {
        lemma_grid(y, x, k, k);
        lemma_grid(x, y, k, k);
        lemma_predicted_mirror(r@, m@, k, mode as int, luma, x, y);
    }
}

proof fn lemma_flat_side_sum(r: Seq<i32>, n: int, k: nat, v: int)
    requires
        r.len() == 4 * n + 1,
        forall|i: int| 0 <= i < r.len() ==> #[trigger] r[i] == v,
        k <= n,
    ensures
        side_sum(r, n, k) == 2 * k * v,
    decreases k,
{
    if k > 0 {
        lemma_flat_side_sum(r, n, (k - 1) as nat, v);
        assert(r[2 * n - k] == v && r[2 * n + k] == v);
        assert(2 * k * v == 2 * (k - 1) * v + 2 * v) by (nonlinear_arith);
    } else {
        assert(2 * 0 * v == 0) by (nonlinear_arith);
    }
}

proof fn lemma_flat_predicted(r: Seq<i32>, n: int, mode: int, luma: bool, v: int, x: int, y: int)
    requires
        is_side(n),
        r.len() == 4 * n + 1,
        0 <= v <= 255,
        forall|i: int| 0 <= i < r.len() ==> #[trigger] r[i] == v,
        0 <= mode <= 34,
        0 <= x < n,
        0 <= y < n,
    ensures
        predicted(r, n, mode, luma, x, y) == v,
{
    let p = filtered(r, n, mode, luma);
    assert(forall|i: int| 0 <= i < p.len() ==> #[trigger] p[i] == v);
    assert(forall|k: int| 0 <= k < 2 * n ==> #[trigger] left(p, n, k) == v);
    assert(forall|k: int| 0 <= k < 2 * n ==> #[trigger] above(p, n, k) == v);
    assert(p[2 * n] == v);
    if mode == 0 {
        assert((n - 1 - x) * v + (x + 1) * v + (n - 1 - y) * v + (y + 1) * v == 2 * n * v) by (nonlinear_arith);
        lemma_mean_of_same(n, v);
        assert(left(p, n, y) == v && above(p, n, n) == v && above(p, n, x) == v && left(p, n, n) == v);
    } else if mode == 1 {
        lemma_flat_side_sum(p, n, n as nat, v);
        lemma_mean_of_same(n, v);
        assert(left(p, n, 0) == v && above(p, n, 0) == v && left(p, n, y) == v && above(p, n, x) == v);
    } else {
        assert(left(p, n, 0) == v && above(p, n, 0) == v && left(p, n, y) == v && above(p, n, x) == v);
        lemma_flat_angled(p, n, mode, v, x, y);
        lemma_flat_angled(p, n, mode, v, y, x);
    }
}

proof fn lemma_mean_of_same(n: int, v: int)
    requires
        n > 0,
    ensures
        (2 * n * v + n) / (2 * n) == v,
{
    assert(2 * n * v == v * (2 * n)) by (nonlinear_arith);
    assert(2 * n * v == (2 * n) * v) by (nonlinear_arith);
    vstd::arithmetic::div_mod::lemma_fundamental_div_mod_converse(2 * n * v + n, 2 * n, v, n);
}

proof fn lemma_flat_angled(p: Seq<i32>, n: int, mode: int, v: int, along: int, depth: int)
    requires
        is_side(n),
        p.len() == 4 * n + 1,
        forall|i: int| 0 <= i < p.len() ==> #[trigger] p[i] == v,
        2 <= mode <= 34,
        0 <= along < n,
        0 <= depth < n,
    ensures
        angled(p, n, mode, along, depth) == v,
{
    lemma_projection(n, mode, along, depth);
    let shift = (depth + 1) * INTRA_ANGLE@[mode];
    let part = shift % 32;
    let k = along + shift / 32 + 1;
    assert(p[projected(n, mode, k)] == v);
    if part != 0 {
        assert(p[projected(n, mode, k + 1)] == v);
        assert((32 - part) * v + part * v == 32 * v) by (nonlinear_arith);
    }
}

/// A reference of one value predicts a block of that value, in every mode.
pub proof fn law_flat_reference_predicts_flat(r: &Vec<i32>, n: usize, mode: u8, luma: bool, v: i32, p: Vec<i32>, i: int)
    requires
        is_side(n as int),
        r@.len() == 4 * n + 1,
        0 <= v <= 255,
        forall|k: int| 0 <= k < r@.len() ==> #[trigger] r@[k] == v,
        mode <= 34,
        call_ensures(predict, (r, n, mode, luma), p),
        0 <= i < n * n,
    ensures
        p@[i] == v,
{
    let k = n as int;
    lemma_ungrid(i, k, k);
    lemma_flat_predicted(r@, k, mode as int, luma, v as int, i % k, i / k);
}

} // verus!
