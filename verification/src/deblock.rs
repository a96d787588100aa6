//! The in-loop deblocking filter, over the edges of 16x16 coding units with an
//! unsplit transform tree: a grid of edges so wide apart that no sample lies within
//! reach of two edges of one direction.
use vstd::prelude::*;
use crate::arith::abs;
use crate::cabac::clip3;
use crate::intra::is_samples;
use crate::transform::{qpc_420, qpc_420_of};

verus! {

/// `beta` by its QP.
pub const BETA: [i32; 52] = [
    0, 0, 0, 0, 0, 0, 0, 0, 0, 0, 0, 0, 0, 0, 0, 0, 6, 7, 8, 9, 10, 11, 12, 13, 14, 15, 16, 17, 18, 20, 22, 24, 26, 28,
    30, 32, 34, 36, 38, 40, 42, 44, 46, 48, 50, 52, 54, 56, 58, 60, 62, 64,
];

/// `tC` by its QP.
pub const TC: [i32; 54] = [
    0, 0, 0, 0, 0, 0, 0, 0, 0, 0, 0, 0, 0, 0, 0, 0, 0, 0, 1, 1, 1, 1, 1, 1, 1, 1, 1, 2, 2, 2, 2, 3, 3, 3, 3, 4, 4, 4, 5,
    5, 6, 6, 7, 8, 9, 10, 11, 13, 14, 16, 18, 20, 22, 24,
];

/// What the filter does at one segment of a luma edge.
#[derive(Clone, Copy, Debug, PartialEq, Eq, Structural)]
pub struct EdgeDecision {
    /// The segment is filtered.
    pub on: bool,
    /// It takes the strong filter.
    pub strong: bool,
    /// The normal filter also reaches the second sample on the first side.
    pub second_p: bool,
    /// The normal filter also reaches the second sample on the second side.
    pub second_q: bool,
}

/// `beta` at a QP.
pub open spec fn beta_at(qp: int) -> int {
    BETA[clip3(0, 51, qp)] as int
}

/// `tC` at a QP.
pub open spec fn tc_at(qp: int) -> int {
    TC[clip3(0, 53, qp)] as int
}

/// Sample `i` on the first side of the edge in front of index `base`, in steps of
/// `step` away from it.
pub open spec fn p(s: Seq<i32>, base: int, step: int, i: int) -> int {
    s[base - (i + 1) * step] as int
}

/// Sample `i` on the second side.
pub open spec fn q(s: Seq<i32>, base: int, step: int, i: int) -> int {
    s[base + i * step] as int
}

/// How far the first side is from a straight line.
pub open spec fn bend_p(s: Seq<i32>, base: int, step: int) -> int {
    abs(p(s, base, step, 2) - 2 * p(s, base, step, 1) + p(s, base, step, 0))
}

/// How far the second side is from a straight line.
pub open spec fn bend_q(s: Seq<i32>, base: int, step: int) -> int {
    abs(q(s, base, step, 2) - 2 * q(s, base, step, 1) + q(s, base, step, 0))
}

/// Whether a line is smooth enough for the strong filter.
pub open spec fn smooth_line(s: Seq<i32>, base: int, step: int, beta: int, tc: int) -> bool {
    &&& 2 * (bend_p(s, base, step) + bend_q(s, base, step)) < beta / 4
    &&& abs(p(s, base, step, 3) - p(s, base, step, 0)) + abs(q(s, base, step, 0) - q(s, base, step, 3)) < beta / 8
    &&& abs(p(s, base, step, 0) - q(s, base, step, 0)) < (5 * tc + 1) / 2
}

/// The decision for a segment, from its first and its last line.
pub open spec fn decision(s: Seq<i32>, first: int, last: int, step: int, beta: int, tc: int) -> EdgeDecision {
    let dp = bend_p(s, first, step) + bend_p(s, last, step);
    let dq = bend_q(s, first, step) + bend_q(s, last, step);
    let side = (beta + beta / 2) / 8;
    EdgeDecision {
        on: dp + dq < beta,
        strong: smooth_line(s, first, step, beta, tc) && smooth_line(s, last, step, beta, tc),
        second_p: dp < side,
        second_q: dq < side,
    }
}

/// Sample `k` of a side under the strong filter: `a` are the samples of that side,
/// `b` those of the other.
pub open spec fn strong_sample(tc: int, k: int, a0: int, a1: int, a2: int, a3: int, b0: int, b1: int) -> int {
    if k == 0 {
        clip3(a0 - 2 * tc, a0 + 2 * tc, (a2 + 2 * a1 + 2 * a0 + 2 * b0 + b1 + 4) / 8)
    } else if k == 1 {
        clip3(a1 - 2 * tc, a1 + 2 * tc, (a2 + a1 + a0 + b0 + 2) / 4)
    } else {
        clip3(a2 - 2 * tc, a2 + 2 * tc, (2 * a3 + 3 * a2 + a1 + a0 + b0 + 4) / 8)
    }
}

/// Sample `k` of a side under the normal filter, which moves the side by `d`.
pub open spec fn normal_sample(tc: int, k: int, d: int, second: bool, a0: int, a1: int, a2: int) -> int {
    if k == 0 {
        clip3(0, 255, a0 + d)
    } else if k == 1 && second {
        clip3(0, 255, a1 + clip3(-(tc / 2), tc / 2, ((a2 + a0 + 1) / 2 - a1 + d) / 2))
    } else if k == 1 {
        a1
    } else {
        a2
    }
}

/// What the normal filter would move an edge by, before it is confined.
pub open spec fn step_of(p0: int, p1: int, q0: int, q1: int) -> int {
    (9 * (q0 - p0) - 3 * (q1 - p1) + 8) / 16
}

/// Sample `k` (0, 1 or 2) of one side of a filtered luma line: `a` are the samples of
/// that side and `b` those of the other, `delta` what the edge would be moved by
/// towards the other side, `second` whether the second sample may move.
pub open spec fn filtered_value(
    d: EdgeDecision,
    second: bool,
    tc: int,
    delta: int,
    k: int,
    a0: int,
    a1: int,
    a2: int,
    a3: int,
    b0: int,
    b1: int,
) -> int {
    if d.on && d.strong {
        strong_sample(tc, k, a0, a1, a2, a3, b0, b1)
    } else if d.on && abs(delta) < 10 * tc {
        normal_sample(tc, k, clip3(-tc, tc, delta), second, a0, a1, a2)
    } else if k == 0 {
        a0
    } else if k == 1 {
        a1
    } else {
        a2
    }
}

/// Sample `k` on the second side (`far`) or the first side of a filtered luma line.
pub open spec fn luma_line(s: Seq<i32>, base: int, step: int, d: EdgeDecision, tc: int, far: bool, k: int) -> int {
    let p0 = p(s, base, step, 0);
    let p1 = p(s, base, step, 1);
    let p2 = p(s, base, step, 2);
    let p3 = p(s, base, step, 3);
    let q0 = q(s, base, step, 0);
    let q1 = q(s, base, step, 1);
    let q2 = q(s, base, step, 2);
    let q3 = q(s, base, step, 3);
    let delta = step_of(p0, p1, q0, q1);
    if !far {
        filtered_value(d, d.second_p, tc, delta, k, p0, p1, p2, p3, q0, q1)
    } else {
        filtered_value(d, d.second_q, tc, -delta, k, q0, q1, q2, q3, p0, p1)
    }
}

/// The sample next to a filtered chroma edge.
#[verifier::opaque]
pub open spec fn chroma_line(s: Seq<i32>, base: int, step: int, tc: int, far: bool) -> int {
    let delta = clip3(
        -tc,
        tc,
        ((q(s, base, step, 0) - p(s, base, step, 0)) * 4 + p(s, base, step, 1) - q(s, base, step, 1) + 4) / 8,
    );
    if far {
        clip3(0, 255, q(s, base, step, 0) - delta)
    } else {
        clip3(0, 255, p(s, base, step, 0) + delta)
    }
}

/// The strength of an edge between two samples of the luma grid: 2 where either
/// side is intra coded, else 1. `intra` holds a flag per 4x4 cell.
#[verifier::opaque]
pub open spec fn strength(intra: Seq<bool>, cells: int, xp: int, yp: int, xq: int, yq: int) -> int {
    if intra[(yp / 4) * cells + xp / 4] || intra[(yq / 4) * cells + xq / 4] {
        2
    } else {
        1
    }
}

/// Sample `k` of one side of the luma edge in front of index `base`, whose segment
/// is decided on the lines of `first` and `last`.
#[verifier::opaque]
pub open spec fn near_edge(
    s: Seq<i32>,
    base: int,
    first: int,
    last: int,
    step: int,
    strength: int,
    qp: int,
    far: bool,
    k: int,
) -> int {
    let tc = tc_at(qp + 2 * (strength - 1));
    luma_line(s, base, step, decision(s, first, last, step, beta_at(qp), tc), tc, far, k)
}

/// A luma sample after the edges of one direction have been filtered.
pub open spec fn luma_sample(
    s: Seq<i32>,
    w: int,
    h: int,
    vertical: bool,
    intra: Seq<bool>,
    qp: int,
    x: int,
    y: int,
) -> int {
    let along = if vertical { x } else { y };
    let end = if vertical { w } else { h };
    let m = along % 16;
    let far = m < 3;
    let edge = if far { along - m } else { along - m + 16 };
    if (m < 3 && edge > 0) || (m > 12 && edge < end) {
        let step = if vertical { 1 } else { w };
        let base = if vertical { y * w + edge } else { edge * w + x };
        let top = if vertical { (y - y % 4) * w + edge } else { edge * w + (x - x % 4) };
        let cross = if vertical { w } else { 1 };
        let bs = if vertical {
            strength(intra, w / 4, edge - 1, y, edge, y)
        } else {
            strength(intra, w / 4, x, edge - 1, x, edge)
        };
        near_edge(s, base, top, top + 3 * cross, step, bs, qp, far, if far { m } else { 15 - m })
    } else {
        s[y * w + x] as int
    }
}

/// A chroma sample after the edges of one direction have been filtered. Only edges
/// of strength 2 are.
pub open spec fn chroma_sample(
    s: Seq<i32>,
    w: int,
    h: int,
    vertical: bool,
    intra: Seq<bool>,
    qp: int,
    x: int,
    y: int,
) -> int {
    let along = if vertical { x } else { y };
    let end = if vertical { w } else { h };
    let m = along % 8;
    let far = m == 0;
    let edge = if far { along } else { along - m + 8 };
    let bs = if vertical {
        strength(intra, w / 2, 2 * edge - 1, 2 * y, 2 * edge, 2 * y)
    } else {
        strength(intra, w / 2, 2 * x, 2 * edge - 1, 2 * x, 2 * edge)
    };
    if ((m == 0 && edge > 0) || (m == 7 && edge < end)) && bs == 2 {
        let step = if vertical { 1 } else { w };
        let base = if vertical { y * w + edge } else { edge * w + x };
        chroma_line(s, base, step, tc_at(qpc_420_of(qp) + 2), far)
    } else {
        s[y * w + x] as int
    }
}

/// A plane after the edges of one direction have been filtered.
pub open spec fn filter_pass(
    s: Seq<i32>,
    w: int,
    h: int,
    luma: bool,
    vertical: bool,
    intra: Seq<bool>,
    qp: int,
) -> Seq<i32> {
    Seq::new(
        (w * h) as nat,
        |i: int|
            if luma {
                luma_sample(s, w, h, vertical, intra, qp, i % w, i / w) as i32
            } else {
                chroma_sample(s, w, h, vertical, intra, qp, i % w, i / w) as i32
            },
    )
}

/// A deblocked plane: the vertical edges first, then the horizontal ones of what
/// they left.
pub open spec fn deblocked(s: Seq<i32>, w: int, h: int, luma: bool, intra: Seq<bool>, qp: int) -> Seq<i32> {
    filter_pass(filter_pass(s, w, h, luma, true, intra, qp), w, h, luma, false, intra, qp)
}

fn beta_of(qp: i32) -> (b: i32)
    ensures
        b == beta_at(qp as int),
        0 <= b <= 64,
{
    let i: usize = if qp < 0 {
        0
    } else if qp > 51 {
        51
    } else {
        qp as usize
    };
    BETA[i]
}

fn tc_of(qp: i64) -> (t: i32)
    ensures
        t == tc_at(qp as int),
        0 <= t <= 24,
{
    let i: usize = if qp < 0 {
        0
    } else if qp > 53 {
        53
    } else {
        qp as usize
    };
    TC[i]
}

fn distance(a: i32, b: i32) -> (d: i32)
    requires
        -2000 <= a <= 2000,
        -2000 <= b <= 2000,
    ensures
        d == abs(a - b),
{
    if a < b {
        b - a
    } else {
        a - b
    }
}

fn confine(lo: i32, hi: i32, v: i32) -> (r: i32)
    ensures
        r == clip3(lo as int, hi as int, v as int),
{
    if v < lo {
        lo
    } else if v > hi {
        hi
    } else {
        v
    }
}

/// Floor division of a small number by a power of two.
fn floor_div(v: i32, d: i32) -> (r: i32)
    requires
        -8192 <= v <= 8192,
        d == 2 || d == 8 || d == 16,
    ensures
        r == v as int / d as int,
{
    (v + 8192) / d - 8192 / d
}

/// The eight samples across an edge on one line.
#[derive(Clone, Copy)]
struct Line {
    p0: i32,
    p1: i32,
    p2: i32,
    p3: i32,
    q0: i32,
    q1: i32,
    q2: i32,
    q3: i32,
}

impl Line {
    spec fn is(self, s: Seq<i32>, base: int, step: int) -> bool {
        &&& self.p0 == p(s, base, step, 0)
        &&& self.p1 == p(s, base, step, 1)
        &&& self.p2 == p(s, base, step, 2)
        &&& self.p3 == p(s, base, step, 3)
        &&& self.q0 == q(s, base, step, 0)
        &&& self.q1 == q(s, base, step, 1)
        &&& self.q2 == q(s, base, step, 2)
        &&& self.q3 == q(s, base, step, 3)
    }

    spec fn wf(self) -> bool {
        &&& 0 <= self.p0 <= 255
        &&& 0 <= self.p1 <= 255
        &&& 0 <= self.p2 <= 255
        &&& 0 <= self.p3 <= 255
        &&& 0 <= self.q0 <= 255
        &&& 0 <= self.q1 <= 255
        &&& 0 <= self.q2 <= 255
        &&& 0 <= self.q3 <= 255
    }
}

fn read_line(s: &Vec<i32>, base: usize, step: usize) -> (l: Line)
    requires
        is_samples(s@),
        4 * step <= base,
        base + 3 * step < s.len(),
    ensures
        l.is(s@, base as int, step as int),
        l.wf(),
{
    assert(0 <= s@[base - step] <= 255 && 0 <= s@[base - 2 * step] <= 255 && 0 <= s@[base - 3 * step] <= 255 && 0 <= s@[
    base - 4 * step] <= 255);
    assert(0 <= s@[base as int] <= 255 && 0 <= s@[base + step] <= 255 && 0 <= s@[base + 2 * step] <= 255 && 0 <= s@[base
        + 3 * step] <= 255);
    Line {
        p0: s[base - step],
        p1: s[base - 2 * step],
        p2: s[base - 3 * step],
        p3: s[base - 4 * step],
        q0: s[base],
        q1: s[base + step],
        q2: s[base + 2 * step],
        q3: s[base + 3 * step],
    }
}

fn smooth_line_exec(l: Line, beta: i32, tc: i32, Ghost(s): Ghost<Seq<i32>>, Ghost(base): Ghost<int>, Ghost(step): Ghost<int>) -> (b: bool)
    requires
        l.wf(),
        l.is(s, base, step),
        0 <= beta <= 64,
        0 <= tc <= 24,
    ensures
        b == smooth_line(s, base, step, beta as int, tc as int),
{
    let bp: i32 = distance(l.p2 + l.p0, 2 * l.p1);
    let bq: i32 = distance(l.q2 + l.q0, 2 * l.q1);
    2 * (bp + bq) < beta / 4 && distance(l.p3, l.p0) + distance(l.q0, l.q3) < beta / 8 && distance(l.p0, l.q0) < (5 * tc
        + 1) / 2
}

/// Decides one segment of a luma edge from its first and last line.
fn decide(
    s: &Vec<i32>,
    first: usize,
    last: usize,
    step: usize,
    beta: i32,
    tc: i32,
) -> (d: EdgeDecision)
    requires
        is_samples(s@),
        4 * step <= first,
        first + 3 * step < s.len(),
        4 * step <= last,
        last + 3 * step < s.len(),
        0 <= beta <= 64,
        0 <= tc <= 24,
    ensures
        d == decision(s@, first as int, last as int, step as int, beta as int, tc as int),
{
    let a: Line = read_line(s, first, step);
    let b: Line = read_line(s, last, step);
    let dp: i32 = distance(a.p2 + a.p0, 2 * a.p1) + distance(b.p2 + b.p0, 2 * b.p1);
    let dq: i32 = distance(a.q2 + a.q0, 2 * a.q1) + distance(b.q2 + b.q0, 2 * b.q1);
    let side: i32 = (beta + beta / 2) / 8;
    let sa: bool = smooth_line_exec(a, beta, tc, Ghost(s@), Ghost(first as int), Ghost(step as int));
    let sb: bool = smooth_line_exec(b, beta, tc, Ghost(s@), Ghost(last as int), Ghost(step as int));
    EdgeDecision { on: dp + dq < beta, strong: sa && sb, second_p: dp < side, second_q: dq < side }
}

/// Filters sample `k` of one side of a luma line.
fn filter_value(
    d: EdgeDecision,
    second: bool,
    tc: i32,
    delta: i32,
    k: usize,
    a0: i32,
    a1: i32,
    a2: i32,
    a3: i32,
    b0: i32,
    b1: i32,
) -> (v: i32)
    requires
        0 <= tc <= 24,
        -8192 <= delta <= 8192,
        k < 3,
        0 <= a0 <= 255,
        0 <= a1 <= 255,
        0 <= a2 <= 255,
        0 <= a3 <= 255,
        0 <= b0 <= 255,
        0 <= b1 <= 255,
    ensures
        v == filtered_value(
            d,
            second,
            tc as int,
            delta as int,
            k as int,
            a0 as int,
            a1 as int,
            a2 as int,
            a3 as int,
            b0 as int,
            b1 as int,
        ),
        0 <= v <= 255,
{
    let limit: i32 = 10 * tc;
    if d.on && d.strong {
        if k == 0 {
            confine(a0 - 2 * tc, a0 + 2 * tc, (a2 + 2 * a1 + 2 * a0 + 2 * b0 + b1 + 4) / 8)
        } else if k == 1 {
            confine(a1 - 2 * tc, a1 + 2 * tc, (a2 + a1 + a0 + b0 + 2) / 4)
        } else {
            confine(a2 - 2 * tc, a2 + 2 * tc, (2 * a3 + 3 * a2 + a1 + a0 + b0 + 4) / 8)
        }
    } else if d.on && -limit < delta && delta < limit {
        let c: i32 = confine(-tc, tc, delta);
        if k == 0 {
            confine(0, 255, a0 + c)
        } else if k == 1 && second {
            confine(0, 255, a1 + confine(-(tc / 2), tc / 2, floor_div((a2 + a0 + 1) / 2 - a1 + c, 2)))
        } else if k == 1 {
            a1
        } else {
            a2
        }
    } else if k == 0 {
        a0
    } else if k == 1 {
        a1
    } else {
        a2
    }
}

/// Filters one sample of a luma line.
fn filter_luma_line(
    s: &Vec<i32>,
    base: usize,
    step: usize,
    d: EdgeDecision,
    tc: i32,
    far: bool,
    k: usize,
) -> (v: i32)
    requires
        is_samples(s@),
        4 * step <= base,
        base + 3 * step < s.len(),
        0 <= tc <= 24,
        k < 3,
    ensures
        v == luma_line(s@, base as int, step as int, d, tc as int, far, k as int),
        0 <= v <= 255,
{
    let l: Line = read_line(s, base, step);
    let delta: i32 = floor_div(9 * (l.q0 - l.p0) - 3 * (l.q1 - l.p1) + 8, 16);
    if far {
        filter_value(d, d.second_q, tc, -delta, k, l.q0, l.q1, l.q2, l.q3, l.p0, l.p1)
    } else {
        filter_value(d, d.second_p, tc, delta, k, l.p0, l.p1, l.p2, l.p3, l.q0, l.q1)
    }
}

/// Filters one sample near a luma edge.
fn filter_near_edge(
    s: &Vec<i32>,
    base: usize,
    first: usize,
    last: usize,
    step: usize,
    strength: i64,
    qp: i32,
    far: bool,
    k: usize,
) -> (v: i32)
    requires
        is_samples(s@),
        4 * step <= base,
        base + 3 * step < s.len(),
        4 * step <= first,
        first + 3 * step < s.len(),
        4 * step <= last,
        last + 3 * step < s.len(),
        1 <= strength <= 2,
        k < 3,
    ensures
        v == near_edge(
            s@,
            base as int,
            first as int,
            last as int,
            step as int,
            strength as int,
            qp as int,
            far,
            k as int,
        ),
        0 <= v <= 255,
{
    let beta: i32 = beta_of(qp);
    let tc: i32 = tc_of(qp as i64 + 2 * (strength - 1));
    let d: EdgeDecision = decide(s, first, last, step, beta, tc);
    proof {
        reveal(near_edge);
    }
    filter_luma_line(s, base, step, d, tc, far, k)
}

/// Filters the sample next to a chroma edge.
fn filter_chroma_line(s: &Vec<i32>, base: usize, step: usize, tc: i32, far: bool) -> (v: i32)
    requires
        is_samples(s@),
        4 * step <= base,
        base + 3 * step < s.len(),
        0 <= tc <= 24,
    ensures
        v == chroma_line(s@, base as int, step as int, tc as int, far),
        0 <= v <= 255,
{
    let l: Line = read_line(s, base, step);
    let delta: i32 = confine(-tc, tc, floor_div((l.q0 - l.p0) * 4 + l.p1 - l.q1 + 4, 8));
    proof {
        reveal(chroma_line);
    }
    if far {
        confine(0, 255, l.q0 - delta)
    } else {
        confine(0, 255, l.p0 + delta)
    }
}

/// A flag for each 4x4 cell of a luma picture.
pub open spec fn is_cell_map(intra: Seq<bool>, width: int, height: int) -> bool {
    intra.len() == (width / 4) * (height / 4)
}

fn edge_strength(
    intra: &Vec<bool>,
    width: usize,
    height: usize,
    xp: usize,
    yp: usize,
    xq: usize,
    yq: usize,
) -> (b: i64)
    requires
        is_cell_map(intra@, width as int, height as int),
        width % 4 == 0,
        height % 4 == 0,
        xp < width,
        xq < width,
        yp < height,
        yq < height,
    ensures
        b == strength(intra@, width as int / 4, xp as int, yp as int, xq as int, yq as int),
        b == 1 || b == 2,
{
    let cells: usize = width / 4;
    let len: usize = intra.len();
    proof {
        reveal(strength);
        crate::arith::lemma_grid(yp as int / 4, xp as int / 4, cells as int, height as int / 4);
        crate::arith::lemma_grid(yq as int / 4, xq as int / 4, cells as int, height as int / 4);
        assert(0 <= (yp as int / 4) * cells) by (nonlinear_arith)
            requires
                yp >= 0,
                cells >= 0,
        ;
        assert(0 <= (yq as int / 4) * cells) by (nonlinear_arith)
            requires
                yq >= 0,
                cells >= 0,
        ;
    }
    assert((yp as int / 4) * cells + xp as int / 4 < len);
    assert((yq as int / 4) * cells + xq as int / 4 < len);
    if intra[(yp / 4) * cells + xp / 4] || intra[(yq / 4) * cells + xq / 4] {
        2
    } else {
        1
    }
}

/// The eight samples across an edge at a grid position lie inside the plane.
proof fn lemma_line_inside(w: int, h: int, len: int, vertical: bool, edge: int, x: int, y: int)
    requires
        len == w * h,
        0 <= x < w,
        0 <= y < h,
        4 <= edge,
        vertical ==> edge + 4 <= w,
        !vertical ==> edge + 4 <= h,
    ensures
        ({
            let step = if vertical { 1 } else { w };
            let base = if vertical { y * w + edge } else { edge * w + x };
            &&& 4 * step <= base
            &&& base + 3 * step < len
        }),
        0 <= y * w <= len,
        0 <= edge * w,
        !vertical ==> edge * w <= len,
{
    if vertical {
        crate::arith::lemma_grid(y, edge + 3, w, h);
        assert(y * w >= 0) by (nonlinear_arith)
            requires
                y >= 0,
                w >= 0,
        ;
    } else {
        crate::arith::lemma_grid(edge + 3, x, w, h);
        assert((edge + 3) * w == edge * w + 3 * w) by (nonlinear_arith);
        assert(edge * w >= 4 * w) by (nonlinear_arith)
            requires
                edge >= 4,
                w >= 0,
        ;
    }
    crate::arith::lemma_grid(y, x, w, h);
    assert(y * w >= 0) by (nonlinear_arith)
        requires
            y >= 0,
            w >= 0,
    ;
    assert(edge * w >= 0) by (nonlinear_arith)
        requires
            edge >= 0,
            w >= 0,
    ;
}

#[verifier::rlimit(30)]
fn filter_luma_sample(
    s: &Vec<i32>,
    w: usize,
    h: usize,
    vertical: bool,
    intra: &Vec<bool>,
    qp: i32,
    x: usize,
    y: usize,
) -> (v: i32)
    requires
        is_samples(s@),
        s@.len() == w * h,
        w % 16 == 0,
        h % 16 == 0,
        is_cell_map(intra@, w as int, h as int),
        x < w,
        y < h,
        w <= 0x4000_0000,
        h <= 0x4000_0000,
    ensures
        v == luma_sample(s@, w as int, h as int, vertical, intra@, qp as int, x as int, y as int),
        0 <= v <= 255,
{
    let len: usize = s.len();
    let along: usize = if vertical {
        x
    } else {
        y
    };
    let end: usize = if vertical {
        w
    } else {
        h
    };
    let m: usize = along % 16;
    let far: bool = m < 3;
    let edge: usize = if far {
        along - m
    } else {
        along - m + 16
    };
    if (m < 3 && edge > 0) || (m > 12 && edge < end) {
        proof {
            lemma_line_inside(w as int, h as int, len as int, vertical, edge as int, x as int, y as int);
            if vertical {
                lemma_line_inside(w as int, h as int, len as int, vertical, edge as int, x as int, y - y % 4);
                lemma_line_inside(w as int, h as int, len as int, vertical, edge as int, x as int, y - y % 4 + 3);
                assert((y - y % 4 + 3) * w == (y - y % 4) * w + 3 * w) by (nonlinear_arith);
            } else {
                lemma_line_inside(w as int, h as int, len as int, vertical, edge as int, x - x % 4, y as int);
                lemma_line_inside(w as int, h as int, len as int, vertical, edge as int, x - x % 4 + 3, y as int);
            }
        }
        let step: usize = if vertical {
            1
        } else {
            w
        };
        let base: usize = if vertical {
            y * w + edge
        } else {
            edge * w + x
        };
        let top: usize = if vertical {
            (y - y % 4) * w + edge
        } else {
            edge * w + (x - x % 4)
        };
        let cross: usize = if vertical {
            w
        } else {
            1
        };
        let bs: i64 = if vertical {
            edge_strength(intra, w, h, edge - 1, y, edge, y)
        } else {
            edge_strength(intra, w, h, x, edge - 1, x, edge)
        };
        let k: usize = if far {
            m
        } else {
            15 - m
        };
        filter_near_edge(s, base, top, top + 3 * cross, step, bs, qp, far, k)
    } else {
        proof {
            crate::arith::lemma_grid(y as int, x as int, w as int, h as int);
            assert(y * w >= 0) by (nonlinear_arith)
                requires
                    y >= 0,
                    w >= 0,
            ;
        }
        assert(0 <= s@[y * w + x] <= 255);
        assert(y * w + x < len);
        s[y * w + x]
    }
}

#[verifier::rlimit(30)]
fn filter_chroma_sample(
    s: &Vec<i32>,
    w: usize,
    h: usize,
    vertical: bool,
    intra: &Vec<bool>,
    qp: i32,
    x: usize,
    y: usize,
) -> (v: i32)
    requires
        is_samples(s@),
        s@.len() == w * h,
        w % 8 == 0,
        h % 8 == 0,
        is_cell_map(intra@, 2 * w as int, 2 * h as int),
        x < w,
        y < h,
        w <= 0x4000_0000,
        h <= 0x4000_0000,
    ensures
        v == chroma_sample(s@, w as int, h as int, vertical, intra@, qp as int, x as int, y as int),
        0 <= v <= 255,
{
    let len: usize = s.len();
    let along: usize = if vertical {
        x
    } else {
        y
    };
    let end: usize = if vertical {
        w
    } else {
        h
    };
    let m: usize = along % 8;
    let far: bool = m == 0;
    let edge: usize = if far {
        along
    } else {
        along - m + 8
    };
    if (m == 0 && edge > 0) || (m == 7 && edge < end) {
        let bs: i64 = if vertical {
            edge_strength(intra, 2 * w, 2 * h, 2 * edge - 1, 2 * y, 2 * edge, 2 * y)
        } else {
            edge_strength(intra, 2 * w, 2 * h, 2 * x, 2 * edge - 1, 2 * x, 2 * edge)
        };
        assert(2 * w as int / 4 == w as int / 2);
        if bs == 2 {
            proof {
                lemma_line_inside(w as int, h as int, len as int, vertical, edge as int, x as int, y as int);
            }
            let step: usize = if vertical {
                1
            } else {
                w
            };
            let base: usize = if vertical {
                y * w + edge
            } else {
                edge * w + x
            };
            let tc: i32 = tc_of(qpc_420(qp) as i64 + 2);
            return filter_chroma_line(s, base, step, tc, far);
        }
    }
    proof {
        crate::arith::lemma_grid(y as int, x as int, w as int, h as int);
        assert(y * w >= 0) by (nonlinear_arith)
            requires
                y >= 0,
                w >= 0,
        ;
    }
    assert(0 <= s@[y * w + x] <= 255);
    assert(y * w + x < len);
    s[y * w + x]
}

/// The plane can be filtered: whole blocks, 8-bit samples, a flag per cell.
pub open spec fn filterable(s: Seq<i32>, w: int, h: int, luma: bool, intra: Seq<bool>) -> bool {
    &&& is_samples(s)
    &&& s.len() == w * h
    &&& 0 < w <= 0x4000_0000
    &&& 0 < h <= 0x4000_0000
    &&& if luma {
        w % 16 == 0 && h % 16 == 0 && is_cell_map(intra, w, h)
    } else {
        w % 8 == 0 && h % 8 == 0 && is_cell_map(intra, 2 * w, 2 * h)
    }
}

fn filter_edges(
    s: &Vec<i32>,
    w: usize,
    h: usize,
    luma: bool,
    vertical: bool,
    intra: &Vec<bool>,
    qp: i32,
) -> (out: Vec<i32>)
    requires
        filterable(s@, w as int, h as int, luma, intra@),
    ensures
        out@ == filter_pass(s@, w as int, h as int, luma, vertical, intra@, qp as int),
        filterable(out@, w as int, h as int, luma, intra@),
{
    let mut out: Vec<i32> = Vec::new();
    let ghost goal = filter_pass(s@, w as int, h as int, luma, vertical, intra@, qp as int);
    let mut y: usize = 0;
    while y < h
        invariant
            y <= h,
            filterable(s@, w as int, h as int, luma, intra@),
            goal == filter_pass(s@, w as int, h as int, luma, vertical, intra@, qp as int),
            out@.len() == y * w,
            is_samples(out@),
            forall|i: int| 0 <= i < out@.len() ==> #[trigger] out@[i] == goal[i],
        decreases h - y,
    {
        let mut x: usize = 0;
        while x < w
            invariant
                x <= w,
                y < h,
                filterable(s@, w as int, h as int, luma, intra@),
                goal == filter_pass(s@, w as int, h as int, luma, vertical, intra@, qp as int),
                out@.len() == y * w + x,
                is_samples(out@),
                forall|i: int| 0 <= i < out@.len() ==> #[trigger] out@[i] == goal[i],
            decreases w - x,
        {
            proof {
                crate::arith::lemma_grid(y as int, x as int, w as int, h as int);
            }
            let v: i32 = if luma {
                filter_luma_sample(s, w, h, vertical, intra, qp, x, y)
            } else {
                filter_chroma_sample(s, w, h, vertical, intra, qp, x, y)
            };
            assert(goal[y * w + x] == v);
            out.push(v);
            x = x + 1;
        }
        proof {
            assert((y + 1) * w == y * w + w) by (nonlinear_arith);
        }
        y = y + 1;
    }
    proof {
        assert(h * w == w * h) by (nonlinear_arith);
        assert(out@ =~= goal);
    }
    out
}

/// Deblocks one plane. `intra` flags the 4x4 cells of the luma picture that are
/// intra coded.
pub fn deblock_plane(s: &Vec<i32>, w: usize, h: usize, luma: bool, intra: &Vec<bool>, qp: i32) -> (out: Vec<i32>)
    requires
        filterable(s@, w as int, h as int, luma, intra@),
    ensures
        out@ == deblocked(s@, w as int, h as int, luma, intra@, qp as int),
        filterable(out@, w as int, h as int, luma, intra@),
{
    let upright: Vec<i32> = filter_edges(s, w, h, luma, true, intra, qp);
    filter_edges(&upright, w, h, luma, false, intra, qp)
}

} // verus!
