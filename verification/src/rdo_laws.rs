//! Laws of the rate-distortion search: what its prices stand for, and what its outcomes
//! are compared with.
use vstd::prelude::*;
use vstd::arithmetic::power2::{lemma2_to64, lemma_pow2_strictly_increases};
use crate::arith::{abs, min};
use crate::bits::{lemma_width, ue_bits, width};
use crate::pcm::Planes;
use crate::rdcost::{
    block_sad, block_satd, holds_block, law_sad_is_zero_on_equal_blocks, law_satd_of_equal_blocks, row_sad, satd,
};
use crate::rdo::{
    candidate_partitions, cross, decide_picture, from, golomb_bits, intra_mode_bit_cost, lambda_of, lambda_q8,
    law_coarse_search_is_least, level_bits, mode_decision, motion_bits, motion_search, pcm_bits, plane_of,
    residual_bit_cost, search, shapes, shortlist_intra_luma_modes, total_cost, BlockDecision, Candidate,
    DecisionConfig, DistortionBackend, IntraModeDecision, Motion, PartitionDecision, PictureDecision, Search,
};

verus! {

/// `price` is what `bits` bits weigh at the Q8 weight `lambda`, rounded down.
pub open spec fn weighs(price: int, bits: int, lambda: int) -> bool {
    256 * price <= bits * lambda < 256 * (price + 1)
}

/// What a vector component takes as an exp-Golomb code of its magnitude, with a sign unless
/// it is zero.
pub open spec fn component_bits(v: int) -> int {
    ue_bits(abs(v) as nat).len() + (if v != 0 {
        1int
    } else {
        0
    })
}

/// What the first `n` partitions cost together.
pub open spec fn partitions_cost(p: Seq<PartitionDecision>, n: nat) -> int
    decreases n,
{
    if n == 0 {
        0
    } else {
        partitions_cost(p, (n - 1) as nat) + p[n - 1].rd_cost
    }
}

/// A price in exp-Golomb bits is the length of the code that the bit writer puts.
pub proof fn law_golomb_bits_are_the_writers(v: nat)
    ensures
        golomb_bits(v as int) == ue_bits(v).len(),
{
    lemma_width(v + 1);
}

proof fn lemma_weighs(bits: int, lambda: int)
    requires
        bits >= 0,
        lambda >= 0,
    ensures
        weighs(bits * lambda / 256, bits, lambda),
        bits * lambda / 256 >= 0,
{
    assert(bits * lambda >= 0) by (nonlinear_arith)
        requires
            bits >= 0,
            lambda >= 0,
    ;
}

/// A block is priced at what the PCM writer spends on it: each sample that the writer puts
/// for a block of the picture takes eight bits, and four more are syntax. A block of any
/// even side takes twelve bits a luma sample, for its own byte and half a byte of chroma.
pub proof fn law_pcm_is_priced_as_it_is_written(pl: Planes, cx: int, cy: int, side: int)
    requires
        side >= 0,
        side % 2 == 0,
    ensures
        pcm_bits(16) == 8 * pl.samples(cx, cy).len() + 4,
        pcm_bits(side) == 12 * (side * side) + 4,
{
    let half = side / 2;
    assert(side * side == 4 * (half * half)) by (nonlinear_arith)
        requires
            side == 2 * half,
    ;
}

/// What holds of every partition that the search decides: its cost is its SATD and the
/// weight of its bits, which are two, those of both vector components, and one for each 16
/// samples.
pub open spec fn partition_priced(q: PartitionDecision, lambda: int) -> bool {
    &&& weighs(q.rd_cost - q.satd, q.bit_cost as int, lambda)
    &&& q.bit_cost == 2 + component_bits(q.mv_x as int) + component_bits(q.mv_y as int) + (q.w * q.h) / 16
}

proof fn lemma_golomb(v: int)
    ensures
        golomb_bits(abs(v)) == ue_bits(abs(v) as nat).len(),
        1 <= golomb_bits(abs(v)),
        abs(v) <= 0x8000_0000 ==> golomb_bits(abs(v)) <= 63,
{
    law_golomb_bits_are_the_writers(abs(v) as nat);
    lemma_width((abs(v) + 1) as nat);
    let n = width((abs(v) + 1) as nat);
    lemma2_to64();
    if abs(v) <= 0x8000_0000 && n > 32 {
        lemma_pow2_strictly_increases(31, (n - 1) as nat);
        if n > 33 {
            lemma_pow2_strictly_increases(32, (n - 1) as nat);
        }
    }
}

/// What the search found for a partition is what its decision says, priced.
proof fn lemma_priced(s: Search, x: int, y: int, w: int, h: int, m: Motion, lambda: int)
    requires
        0 <= x <= 0x2000_0000,
        0 <= y <= 0x2000_0000,
        4 <= w <= 16,
        4 <= h <= 16,
        lambda == lambda_of(s.qp),
        0 <= lambda <= 0xffff_ffff,
        m.mv_x == s.vector(x, y, w, h).dx,
        m.mv_y == s.vector(x, y, w, h).dy,
        m.sad == block_sad(s.chosen(x, y, w, h), w as nat, h as nat),
        m.satd == block_satd(s.chosen(x, y, w, h), w, h),
    ensures
        ({
            let q = s.partition(x, y, w, h);
            &&& q.x == x && q.y == y && q.w == w && q.h == h
            &&& q.mv_x == m.mv_x && q.mv_y == m.mv_y
            &&& q.sad == m.sad && q.satd == m.satd
            &&& partition_priced(q, lambda)
        }),
{
    let mv = s.vector(x, y, w, h);
    lemma_golomb(mv.dx);
    lemma_golomb(mv.dy);
    let bits = motion_bits(mv.dx, mv.dy, w, h);
    assert(16 <= w * h <= 256) by (nonlinear_arith)
        requires
            4 <= w <= 16,
            4 <= h <= 16,
    ;
    lemma_weighs(bits, lambda);
    assert(bits * lambda <= 200 * 0x1_0000_0000) by (nonlinear_arith)
        requires
            0 <= bits <= 200,
            0 <= lambda <= 0xffff_ffff,
    ;
}

/// The shape that a decided block took.
proof fn lemma_decided(s: Search, d: BlockDecision, x: int, y: int) -> (k: int)
    requires
        s.decides_block(d, x, y),
    ensures
        d.x == x && d.y == y && d.size == 16,
        d.pcm_cost == s.pcm_cost(),
        0 <= k < shapes(16).len(),
        s.cheapest(x, y, k),
        d.partitions@ == s.shape(x, y, shapes(16)[k]),
        d.rd_cost == min(s.shape_cost(x, y, shapes(16)[k], shapes(16)[k].len()), s.pcm_cost()),
{
    reveal(Search::decides_block);
    choose|k: int| #[trigger]
        s.cheapest(x, y, k) && d.partitions@ == s.shape(x, y, shapes(16)[k]) && d.rd_cost == min(
            s.shape_cost(x, y, shapes(16)[k], shapes(16)[k].len()),
            s.pcm_cost(),
        )
}

/// Every partition of a decided block is what the motion search finds at its place, priced.
pub proof fn law_partitions_are_searched_and_priced(
    y: &[u8],
    stride: usize,
    width: usize,
    height: usize,
    reference_y: Option<&[u8]>,
    cfg: DecisionConfig,
    p: PictureDecision,
    lambda: u32,
    i: int,
    j: int,
    m: Motion,
)
    requires
        search(y@, stride, width, height, plane_of(reference_y), cfg).valid(),
        width % 16 == 0,
        height % 16 == 0,
        call_ensures(decide_picture, (y, stride, width, height, reference_y, cfg), p),
        call_ensures(lambda_q8, (cfg.qp,), lambda),
        0 <= i < p.blocks@.len(),
        0 <= j < p.blocks@[i].partitions@.len(),
        ({
            let q = p.blocks@[i].partitions@[j];
            call_ensures(motion_search, (y, stride, width, height, reference_y, q.x, q.y, q.w, q.h, cfg), m)
        }),
    ensures
        ({
            let b = p.blocks@[i];
            let q = b.partitions@[j];
            &&& q.mv_x == m.mv_x && q.mv_y == m.mv_y
            &&& q.sad == m.sad && q.satd == m.satd
            &&& partition_priced(q, lambda as int)
            &&& b.x <= q.x && q.x + q.w <= b.x + 16
            &&& b.y <= q.y && q.y + q.h <= b.y + 16
        }),
{
    let s = search(y@, stride, width, height, plane_of(reference_y), cfg);
    let (d, c) = (p.blocks@[i], width as int / 16);
    let q = d.partitions@[j];
    lemma_place(width as int, height as int, i);
    let (bx, by) = (i % c * 16, i / c * 16);
    let k = lemma_decided(s, d, bx, by);
    lemma_rectangles(k, j);
    let r = shapes(16)[k][j];
    assert(q == s.partition(bx + r.0, by + r.1, r.2 as int, r.3 as int));
    lemma_partition_place(s, bx + r.0, by + r.1, r.2 as int, r.3 as int);
    lemma_priced(s, q.x as int, q.y as int, q.w as int, q.h as int, m, lambda as int);
}

proof fn lemma_partition_place(s: Search, x: int, y: int, w: int, h: int)
    requires
        0 <= x <= 0x2000_0000,
        0 <= y <= 0x2000_0000,
        4 <= w <= 16,
        4 <= h <= 16,
    ensures
        ({
            let q = s.partition(x, y, w, h);
            q.x == x && q.y == y && q.w == w && q.h == h
        }),
{
}

proof fn lemma_place(width: int, height: int, i: int)
    requires
        width > 0,
        width % 16 == 0,
        height % 16 == 0,
        0 <= i < (width / 16) * (height / 16),
    ensures
        0 <= i % (width / 16) * 16 <= width - 16,
        0 <= i / (width / 16) * 16 <= height - 16,
{
    let c = width / 16;
    crate::arith::lemma_ungrid(i, c, height / 16);
}

proof fn lemma_rectangles(k: int, j: int)
    requires
        0 <= k < shapes(16).len(),
        0 <= j < shapes(16)[k].len(),
    ensures
        ({
            let r = shapes(16)[k][j];
            &&& r.0 + r.2 <= 16 && r.1 + r.3 <= 16
            &&& 4 <= r.2 <= 16 && 4 <= r.3 <= 16
        }),
{
}

proof fn lemma_shape_sum(s: Search, x: int, y: int, shape: Seq<(usize, usize, usize, usize)>, n: nat)
    requires
        n <= shape.len(),
    ensures
        s.shape_cost(x, y, shape, n) == s.shape_cost(x, y, shape, 0) + partitions_cost(s.shape(x, y, shape), n),
    decreases n,
{
    if n > 0 {
        lemma_shape_sum(s, x, y, shape, (n - 1) as nat);
    }
}

proof fn lemma_shape_counts(k: int)
    requires
        0 <= k < shapes(16).len(),
    ensures
        shapes(16)[k].len() == 1 || shapes(16)[k].len() == 2 || shapes(16)[k].len() == 4,
        shapes(16).len() > 0,
        shapes(16)[0] == seq![(0usize, 0usize, 16usize, 16usize)],
{
}

/// The bits that choose among shapes, by the number of partitions.
pub open spec fn choice_bits(n: nat) -> int {
    if n == 1 {
        1
    } else if n == 2 {
        5
    } else {
        9
    }
}

/// The chosen shape costs no more than the block as a whole.
proof fn lemma_whole_compared(s: Search, x: int, y: int, k: int)
    requires
        s.cheapest(x, y, k),
    ensures
        s.shape_cost(x, y, shapes(16)[k], shapes(16)[k].len()) <= s.shape_cost(x, y, shapes(16)[0], 1),
{
    let all = shapes(16);
    assert(all.len() == 8 && all[0].len() == 1);
    assert(s.shape_cost(x, y, all[k], all[k].len()) <= s.shape_cost(x, y, all[0], all[0].len()));
}

proof fn lemma_choice(
    s: Search,
    x: int,
    y: int,
    shape: Seq<(usize, usize, usize, usize)>,
    whole: Seq<(usize, usize, usize, usize)>,
    choice: int,
    m: Motion,
    motion_price: int,
    whole_price: int,
    lambda: int,
)
    requires
        0 <= x <= 0x2000_0000,
        0 <= y <= 0x2000_0000,
        lambda == lambda_of(s.qp),
        0 <= lambda <= 0xffff_ffff,
        shape.len() == 1 || shape.len() == 2 || shape.len() == 4,
        whole == seq![(0usize, 0usize, 16usize, 16usize)],
        s.shape_cost(x, y, shape, shape.len()) <= s.shape_cost(x, y, whole, 1),
        weighs(choice, choice_bits(shape.len()), lambda),
        m.mv_x == s.vector(x, y, 16, 16).dx,
        m.mv_y == s.vector(x, y, 16, 16).dy,
        m.sad == block_sad(s.chosen(x, y, 16, 16), 16, 16),
        m.satd == block_satd(s.chosen(x, y, 16, 16), 16, 16),
        weighs(motion_price, 18 + component_bits(m.mv_x as int) + component_bits(m.mv_y as int), lambda),
        weighs(whole_price, 1, lambda),
    ensures
        ({
            let cost = s.shape_cost(x, y, shape, shape.len());
            &&& cost == choice + partitions_cost(s.shape(x, y, shape), shape.len())
            &&& cost <= whole_price + m.satd + motion_price
        }),
{
    lemma_same_weight(s.shape_cost(x, y, shape, 0), choice, choice_bits(shape.len()), lambda);
    lemma_shape_sum(s, x, y, shape, shape.len());
    lemma_shape_sum(s, x, y, whole, 1);
    lemma_same_weight(s.shape_cost(x, y, whole, 0), whole_price, 1, lambda);
    reveal_with_fuel(partitions_cost, 2);
    let one = s.partition(x, y, 16, 16);
    assert(s.shape(x, y, whole)[0] == one);
    lemma_priced(s, x, y, 16, 16, m, lambda);
    let bits = 18 + component_bits(m.mv_x as int) + component_bits(m.mv_y as int);
    lemma_weight_unique(one.rd_cost - one.satd, motion_price, bits, lambda);
}

proof fn lemma_weight_unique(a: int, b: int, bits: int, lambda: int)
    requires
        weighs(a, bits, lambda),
        weighs(b, bits, lambda),
    ensures
        a == b,
{
}

/// A block costs its partitions and the choice among shapes, or what PCM costs where that is
/// less. The choice takes one bit for the whole block, five for two partitions and nine for
/// four; PCM takes the eight bits of each of the 384 samples and four more. The whole block
/// as one partition is always among what is compared, and whatever is chosen costs no more.
pub proof fn law_blocks_are_priced(
    y: &[u8],
    stride: usize,
    width: usize,
    height: usize,
    reference_y: Option<&[u8]>,
    cfg: DecisionConfig,
    p: PictureDecision,
    lambda: u32,
    i: int,
    pcm_price: int,
    choice: int,
    m: Motion,
    motion_price: int,
    whole_price: int,
)
    requires
        search(y@, stride, width, height, plane_of(reference_y), cfg).valid(),
        width % 16 == 0,
        height % 16 == 0,
        call_ensures(decide_picture, (y, stride, width, height, reference_y, cfg), p),
        call_ensures(lambda_q8, (cfg.qp,), lambda),
        0 <= i < p.blocks@.len(),
        weighs(pcm_price, 384int * 8 + 4, lambda as int),
        weighs(choice, choice_bits(p.blocks@[i].partitions@.len()), lambda as int),
        call_ensures(
            motion_search,
            (y, stride, width, height, reference_y, p.blocks@[i].x, p.blocks@[i].y, 16usize, 16usize, cfg),
            m,
        ),
        weighs(motion_price, 18 + component_bits(m.mv_x as int) + component_bits(m.mv_y as int), lambda as int),
        weighs(whole_price, 1, lambda as int),
    ensures
        ({
            let b = p.blocks@[i];
            let n = b.partitions@.len();
            &&& b.x == 16 * (i % (width as int / 16))
            &&& b.y == 16 * (i / (width as int / 16))
            &&& b.size == 16
            &&& b.pcm_cost == pcm_price
            &&& n == 1 || n == 2 || n == 4
            &&& b.rd_cost == min(b.pcm_cost as int, choice + partitions_cost(b.partitions@, n))
            &&& b.rd_cost <= whole_price + m.satd + motion_price
            &&& choice + partitions_cost(b.partitions@, n) <= whole_price + m.satd + motion_price
        }),
        p.blocks@.len() * 256 == width * height,
        p.pcm_blocks == p.blocks@.len(),
{
    let s = search(y@, stride, width, height, plane_of(reference_y), cfg);
    let (d, c) = (p.blocks@[i], width as int / 16);
    lemma_place(width as int, height as int, i);
    let (bx, by) = (i % c * 16, i / c * 16);
    let k = lemma_decided(s, d, bx, by);
    lemma_shape_counts(k);
    lemma_whole_compared(s, bx, by, k);
    lemma_choice(s, bx, by, shapes(16)[k], shapes(16)[0], choice, m, motion_price, whole_price, lambda as int);
    lemma_same_weight(s.pcm_cost(), pcm_price, 3076, lambda as int);
    assert(p.blocks@.len() * 256 == width * height) by (nonlinear_arith)
        requires
            p.blocks@.len() == (width as int / 16) * (height as int / 16),
            width % 16 == 0,
            height % 16 == 0,
    ;
}

proof fn lemma_same_weight(a: int, b: int, bits: int, lambda: int)
    requires
        a == bits * lambda / 256,
        bits >= 0,
        lambda >= 0,
        weighs(b, bits, lambda),
    ensures
        a == b,
{
    lemma_weighs(bits, lambda);
}

/// A candidate is the starting point or a displacement of the window with its own SAD.
spec fn coarse_found(s: Search, x: int, y: int, w: int, h: int, c: Candidate) -> bool {
    c == (Candidate { dx: 0, dy: 0, cost: u32::MAX as int }) || (s.fits(x, y, w, h, c.dx, c.dy) && -s.radius <= c.dx
        <= s.radius && -s.radius <= c.dy <= s.radius && c.cost == block_sad(s.pair(x, y, c.dx, c.dy), w as nat, h as nat))
}

proof fn lemma_row_found(s: Search, x: int, y: int, w: int, h: int, best: Candidate, dy: int, n: nat)
    requires
        coarse_found(s, x, y, w, h, best),
        -s.radius <= dy <= s.radius,
        n <= 2 * s.radius + 1,
    ensures
        coarse_found(s, x, y, w, h, s.scan_row(x, y, w, h, best, dy, n)),
    decreases n,
{
    if n > 0 {
        lemma_row_found(s, x, y, w, h, best, dy, (n - 1) as nat);
    }
}

proof fn lemma_rows_found(s: Search, x: int, y: int, w: int, h: int, n: nat)
    requires
        s.radius >= 0,
        n <= 2 * s.radius + 1,
    ensures
        coarse_found(s, x, y, w, h, s.scan_rows(x, y, w, h, n)),
    decreases n,
{
    if n > 0 {
        lemma_rows_found(s, x, y, w, h, (n - 1) as nat);
        lemma_row_found(
            s,
            x,
            y,
            w,
            h,
            s.scan_rows(x, y, w, h, (n - 1) as nat),
            n - 1 - s.radius,
            (2 * s.radius + 1) as nat,
        );
    }
}

/// A refined candidate is the coarse one, or a neighbour with its own SATD, and never costs
/// more than the coarse one did.
spec fn refined(s: Search, x: int, y: int, w: int, h: int, b: Candidate) -> bool {
    let c = s.coarse(x, y, w, h);
    &&& b.cost <= c.cost
    &&& abs(b.dx - c.dx) + abs(b.dy - c.dy) <= 1
    &&& b == c || (s.fits(x, y, w, h, b.dx, b.dy) && b.cost == block_satd(s.pair(x, y, b.dx, b.dy), w, h))
}

proof fn lemma_refined(s: Search, x: int, y: int, w: int, h: int, n: nat)
    requires
        n <= 5,
    ensures
        refined(s, x, y, w, h, s.refine(x, y, w, h, n)),
    decreases n,
{
    if n > 0 {
        lemma_refined(s, x, y, w, h, (n - 1) as nat);
    }
}

proof fn lemma_refine_least(s: Search, x: int, y: int, w: int, h: int, n: nat, k: int)
    requires
        0 <= k < n <= 5,
    ensures
        ({
            let c = s.coarse(x, y, w, h);
            let (dx, dy) = (c.dx + cross(k).0, c.dy + cross(k).1);
            s.fits(x, y, w, h, dx, dy) ==> s.refine(x, y, w, h, n).cost <= block_satd(s.pair(x, y, dx, dy), w, h)
        }),
    decreases n,
{
    if k < n - 1 {
        lemma_refine_least(s, x, y, w, h, (n - 1) as nat, k);
    }
}

/// The outcome of a search costs no more SATD than any place one sample or less away from
/// the outcome of the window, along a row or a column.
pub proof fn law_no_neighbour_is_better(s: Search, x: int, y: int, w: int, h: int, a: int, b: int)
    requires
        s.reference is Some,
        abs(a) + abs(b) <= 1,
        s.fits(x, y, w, h, s.coarse(x, y, w, h).dx + a, s.coarse(x, y, w, h).dy + b),
    ensures
        ({
            let c = s.coarse(x, y, w, h);
            let v = s.vector(x, y, w, h);
            &&& v.cost <= block_satd(s.pair(x, y, c.dx + a, c.dy + b), w, h)
            &&& v.cost <= c.cost
            &&& abs(v.dx - c.dx) + abs(v.dy - c.dy) <= 1
        }),
{
    let k = if a == 0 && b == 0 {
        0int
    } else if a == -1 {
        1
    } else if a == 1 {
        2
    } else if b == -1 {
        3
    } else {
        4
    };
    lemma_refine_least(s, x, y, w, h, 5, k);
    lemma_refined(s, x, y, w, h, 5);
}

/// Two blocks of `w` by `h` samples in planes of one stride are equal.
pub open spec fn same_blocks(
    a: Seq<u8>,
    ax: int,
    ay: int,
    b: Seq<u8>,
    bx: int,
    by: int,
    stride: int,
    w: int,
    h: int,
) -> bool {
    forall|j: int, i: int|
        0 <= j < h && 0 <= i < w ==> #[trigger] a[(ay + j) * stride + (ax + i)] == b[(by + j) * stride + (bx + i)]
}

proof fn lemma_same_blocks(s: Search, r: Seq<u8>, x: int, y: int, w: int, h: int, dx: int, dy: int)
    requires
        s.valid(),
        s.reference == Some(r),
        0 <= x,
        0 <= y,
        x + w <= s.width,
        y + h <= s.height,
        s.fits(x, y, w, h, dx, dy),
        same_blocks(s.y, x, y, r, x + dx, y + dy, s.stride, w, h),
    ensures
        forall|j: int, i: int| 0 <= j < h && 0 <= i < w ==> #[trigger] s.pair(x, y, dx, dy).diff(j, i) == 0,
{
    let p = s.pair(x, y, dx, dy);
    assert forall|j: int, i: int| 0 <= j < h && 0 <= i < w implies #[trigger] p.diff(j, i) == 0 by {
        lemma_from(s.y, s.stride, s.width, s.height, x, y, j, i);
        lemma_from(r, s.stride, s.width, s.height, x + dx, y + dy, j, i);
        assert(s.y[(y + j) * s.stride + (x + i)] == r[(y + dy + j) * s.stride + (x + dx + i)]);
    }
}

proof fn lemma_from(plane: Seq<u8>, stride: int, width: int, height: int, x: int, y: int, j: int, i: int)
    requires
        plane.len() >= (height - 1) * stride + width,
        stride >= width,
        0 <= x,
        0 <= y,
        0 <= j,
        0 <= i,
        x + i < width,
        y + j < height,
    ensures
        from(plane, stride, x, y)[j * stride + i] == plane[(y + j) * stride + (x + i)],
{
    assert((y + j) * stride == y * stride + j * stride) by (nonlinear_arith);
    assert(0 <= y * stride && 0 <= j * stride && (y + j) * stride <= (height - 1) * stride) by (nonlinear_arith)
        requires
            0 <= y,
            0 <= j,
            y + j <= height - 1,
            stride >= 0,
    ;
}

/// A block that stands unchanged anywhere in the window of the reference is found there or
/// somewhere that is as good: nothing is left of its SATD. The vector leads at most one
/// sample out of the window, and never out of the picture.
pub proof fn law_an_exact_match_is_found(
    y: &[u8],
    stride: usize,
    width: usize,
    height: usize,
    reference: &[u8],
    x: usize,
    y0: usize,
    w: usize,
    h: usize,
    cfg: DecisionConfig,
    m: Motion,
    dx: int,
    dy: int,
)
    requires
        search(y@, stride, width, height, Some(reference@), cfg).valid(),
        x + w <= width,
        y0 + h <= height,
        4 <= w <= 64,
        4 <= h <= 64,
        w % 4 == 0,
        h % 4 == 0,
        call_ensures(motion_search, (y, stride, width, height, Some(reference), x, y0, w, h, cfg), m),
        abs(dx) <= cfg.search_radius,
        abs(dy) <= cfg.search_radius,
        0 <= x + dx && x + dx + w <= width,
        0 <= y0 + dy && y0 + dy + h <= height,
        same_blocks(y@, x as int, y0 as int, reference@, x + dx, y0 + dy, stride as int, w as int, h as int),
    ensures
        m.satd == 0,
        0 <= x + m.mv_x && x + m.mv_x + w <= width,
        0 <= y0 + m.mv_y && y0 + m.mv_y + h <= height,
        abs(m.mv_x as int) <= cfg.search_radius + 1,
        abs(m.mv_y as int) <= cfg.search_radius + 1,
{
    let s = search(y@, stride, width, height, Some(reference@), cfg);
    let (bx, by, bw, bh) = (x as int, y0 as int, w as int, h as int);
    lemma_same_blocks(s, reference@, bx, by, bw, bh, dx, dy);
    law_sad_is_zero_on_equal_blocks(s.pair(bx, by, dx, dy), w as nat, h as nat);
    law_coarse_search_is_least(s, bx, by, bw, bh, dx, dy);
    lemma_rows_found(s, bx, by, bw, bh, (2 * s.radius + 1) as nat);
    lemma_refined(s, bx, by, bw, bh, 5);
    let c = s.coarse(bx, by, bw, bh);
    law_sad_is_zero_on_equal_blocks(s.pair(bx, by, c.dx, c.dy), w as nat, h as nat);
    law_satd_of_equal_blocks(s.pair(bx, by, c.dx, c.dy), bw, bh);
    assert(plane_of(Some(reference)) == Some(reference@));
}

proof fn lemma_neutral_row(s: Search, x: int, y: int, w: int, h: int, v: u8, j: int, n: nat)
    requires
        s.valid(),
        0 <= x,
        0 <= y,
        x + w <= s.width,
        y + h <= s.height,
        w <= 16,
        h <= 16,
        forall|j: int, i: int| 0 <= j < h && 0 <= i < w ==> #[trigger] s.y[(y + j) * s.stride + (x + i)] == v,
        0 <= j < h,
        n <= w,
    ensures
        row_sad(s.neutral_pair(x, y), j, n) == n * abs(v - 128),
    decreases n,
{
    if n > 0 {
        lemma_neutral_row(s, x, y, w, h, v, j, (n - 1) as nat);
        lemma_from(s.y, s.stride, s.width, s.height, x, y, j, n - 1);
        assert(s.y[(y + j) * s.stride + (x + (n - 1))] == v);
        let p = s.neutral_pair(x, y);
        assert(p.pred_stride == 16);
        assert(j * p.pred_stride == 16 * j) by (nonlinear_arith)
            requires
                p.pred_stride == 16,
        ;
        assert(p.diff(j, n - 1) == v - 128);
        assert(n * abs(v - 128) == (n - 1) * abs(v - 128) + abs(v - 128)) by (nonlinear_arith);
    } else {
        assert(0 * abs(v - 128) == 0) by (nonlinear_arith);
    }
}

proof fn lemma_neutral_rows(s: Search, x: int, y: int, w: int, h: int, v: u8, n: nat)
    requires
        s.valid(),
        0 <= x,
        0 <= y,
        0 <= w,
        x + w <= s.width,
        y + h <= s.height,
        w <= 16,
        h <= 16,
        forall|j: int, i: int| 0 <= j < h && 0 <= i < w ==> #[trigger] s.y[(y + j) * s.stride + (x + i)] == v,
        n <= h,
    ensures
        block_sad(s.neutral_pair(x, y), w as nat, n) == n * (w * abs(v - 128)),
    decreases n,
{
    let d = w * abs(v - 128);
    if n > 0 {
        lemma_neutral_rows(s, x, y, w, h, v, (n - 1) as nat);
        lemma_neutral_row(s, x, y, w, h, v, n - 1, w as nat);
        assert(n * d == (n - 1) * d + d) by (nonlinear_arith);
    } else {
        assert(0 * d == 0) by (nonlinear_arith);
    }
}

/// Without a reference nothing moves, and a block is held against middle grey: a flat block
/// of value `v` lies `|v - 128|` from it at every sample.
pub proof fn law_without_a_reference_grey_is_the_prediction(
    y: &[u8],
    stride: usize,
    width: usize,
    height: usize,
    x: usize,
    y0: usize,
    w: usize,
    h: usize,
    cfg: DecisionConfig,
    m: Motion,
    v: u8,
)
    requires
        search(y@, stride, width, height, None, cfg).valid(),
        x + w <= width,
        y0 + h <= height,
        4 <= w <= 16,
        4 <= h <= 16,
        w % 4 == 0,
        h % 4 == 0,
        call_ensures(motion_search, (y, stride, width, height, None::<&[u8]>, x, y0, w, h, cfg), m),
        forall|j: int, i: int| 0 <= j < h && 0 <= i < w ==> #[trigger] y@[(y0 + j) * stride + (x + i)] == v,
    ensures
        m.mv_x == 0 && m.mv_y == 0,
        m.sad == h * (w * abs(v - 128)),
        v == 128 ==> m.satd == 0,
{
    let s = search(y@, stride, width, height, None, cfg);
    lemma_neutral_rows(s, x as int, y0 as int, w as int, h as int, v, h as nat);
    if v == 128 {
        assert(h * (w * 0) == 0);
        law_sad_is_zero_on_equal_blocks(s.neutral_pair(x as int, y0 as int), w as nat, h as nat);
        law_satd_of_equal_blocks(s.neutral_pair(x as int, y0 as int), w as int, h as int);
    }
}

/// Estimating a residual counts its coded levels alone: a block without any costs one bit;
/// any other costs twelve bits and, for each level that is not zero, two bits and the
/// exp-Golomb code of its magnitude. So zeros are free, signs do not count, and two coded
/// blocks together save twelve bits against the two apart.
pub proof fn law_residual_cost_adds_up(a: &[i32], b: &[i32], both: &[i32], cost_a: u32, cost_b: u32, cost: u32)
    requires
        both@ == a@ + b@,
        both@.len() * 65 + 12 <= u32::MAX,
        call_ensures(residual_bit_cost, (a,), cost_a),
        call_ensures(residual_bit_cost, (b,), cost_b),
        call_ensures(residual_bit_cost, (both,), cost),
    ensures
        no_levels(a@) ==> cost_a == 1,
        no_levels(a@) && !no_levels(b@) ==> cost == cost_b,
        !no_levels(a@) && no_levels(b@) ==> cost == cost_a,
        !no_levels(a@) && !no_levels(b@) ==> cost + 12 == cost_a + cost_b,
        a@.len() == 1 && a@[0] != 0 ==> cost_a == 12 + 2 + ue_bits(abs(a@[0] as int) as nat).len(),
{
    lemma_cost_of(a, cost_a);
    lemma_cost_of(b, cost_b);
    lemma_cost_of(both, cost);
    lemma_levels_concat(a@, b@, b@.len());
    lemma_no_levels(a@, a@.len());
    lemma_no_levels(b@, b@.len());
    assert(no_levels(both@) <==> no_levels(a@) && no_levels(b@)) by {
        if no_levels(both@) {
            assert forall|i: int| 0 <= i < a@.len() implies a@[i] == 0 by {
                assert(both@[i] == a@[i]);
            }
            assert forall|i: int| 0 <= i < b@.len() implies b@[i] == 0 by {
                assert(both@[a@.len() + i] == b@[i]);
            }
        }
    }
    if a@.len() == 1 {
        lemma_golomb(a@[0] as int);
        reveal_with_fuel(level_bits, 2);
        if a@[0] != 0 {
            assert(!no_levels(a@));
        }
    }
}

proof fn lemma_cost_of(levels: &[i32], cost: u32)
    requires
        levels@.len() * 65 + 12 <= u32::MAX,
        call_ensures(residual_bit_cost, (levels,), cost),
    ensures
        no_levels(levels@) ==> cost == 1,
        !no_levels(levels@) ==> cost == level_bits(levels@, levels@.len()) + 12,
{
    if !no_levels(levels@) {
        let i = choose|i: int| 0 <= i < levels@.len() && levels@[i] != 0;
        assert(levels@[i] != 0);
    }
}

/// Every level is zero.
pub open spec fn no_levels(levels: Seq<i32>) -> bool {
    forall|i: int| 0 <= i < levels.len() ==> levels[i] == 0
}

proof fn lemma_no_levels(levels: Seq<i32>, n: nat)
    requires
        n <= levels.len(),
    ensures
        no_levels(levels) ==> level_bits(levels, n) == 0,
    decreases n,
{
    if n > 0 {
        lemma_no_levels(levels, (n - 1) as nat);
    }
}

proof fn lemma_levels_head(a: Seq<i32>, b: Seq<i32>, n: nat)
    requires
        n <= a.len(),
    ensures
        level_bits(a + b, n) == level_bits(a, n),
    decreases n,
{
    if n > 0 {
        lemma_levels_head(a, b, (n - 1) as nat);
    }
}

proof fn lemma_levels_concat(a: Seq<i32>, b: Seq<i32>, n: nat)
    requires
        n <= b.len(),
    ensures
        level_bits(a + b, a.len() + n) == level_bits(a, a.len()) + level_bits(b, n),
    decreases n,
{
    if n == 0 {
        lemma_levels_head(a, b, a.len());
    } else {
        lemma_levels_concat(a, b, (n - 1) as nat);
        assert((a + b)[a.len() + n - 1] == b[n - 1]);
    }
}

/// A shortlisted mode costs the SATD that its prediction leaves and the weight of the bits
/// that signal it; the list is in order of cost and, at equal cost, of mode, and no mode
/// that is off the list would stand before one that is on it.
pub proof fn law_shortlist_is_the_cheapest_modes(
    source: &[u8],
    source_stride: usize,
    n_tbs: usize,
    candidates: [u8; 3],
    qp: i32,
    backend: DistortionBackend,
    keep: usize,
    predictions: &Vec<Vec<i32>>,
    ranked: Vec<IntraModeDecision>,
    lambda: u32,
    mode: u8,
    bits: u32,
    prediction: &[u8],
    error: u32,
)
    requires
        holds_block(source@, source_stride as int, n_tbs as int, n_tbs as int),
        n_tbs % 4 == 0,
        predictions@.len() == 35,
        call_ensures(
            shortlist_intra_luma_modes,
            (source, source_stride, n_tbs, candidates, qp, backend, keep, predictions),
            ranked,
        ),
        call_ensures(lambda_q8, (qp,), lambda),
        mode < 35,
        call_ensures(intra_mode_bit_cost, (mode, candidates), bits),
        predictions@[mode as int]@.len() >= n_tbs * n_tbs,
        prediction@.len() == n_tbs * n_tbs,
        forall|i: int| 0 <= i < n_tbs * n_tbs ==> predictions@[mode as int]@[i] as u8 == #[trigger] prediction@[i],
        call_ensures(satd, (source, source_stride, prediction, n_tbs, n_tbs, n_tbs), error),
    ensures
        1 <= ranked@.len() <= 35,
        keep >= 1 ==> ranked@.len() == min(keep as int, 35),
        forall|i: int, j: int|
            0 <= i < j < ranked@.len() ==> {
                let (a, b) = (#[trigger] ranked@[i], #[trigger] ranked@[j]);
                a.rd_cost < b.rd_cost || (a.rd_cost == b.rd_cost && a.mode < b.mode)
            },
        forall|i: int|
            0 <= i < ranked@.len() && (#[trigger] ranked@[i]).mode == mode ==> ranked@[i].satd == error && weighs(
                ranked@[i].rd_cost - error,
                bits as int,
                lambda as int,
            ),
        (exists|i: int| 0 <= i < ranked@.len() && (#[trigger] ranked@[i]).mode == mode) || (weighs_more(
            error as int,
            bits as int,
            lambda as int,
            ranked@.last(),
            mode,
        )),
{
    let n2 = n_tbs * n_tbs;
    let d = mode_decision(
        source@,
        source_stride as int,
        n_tbs as int,
        candidates@,
        qp as int,
        predictions@[mode as int]@,
        mode,
    );
    assert(crate::rdo::bytes_of(predictions@[mode as int]@, n2 as int) =~= prediction@) by {
        assert forall|i: int| 0 <= i < n2 implies crate::rdo::bytes_of(predictions@[mode as int]@, n2 as int)[i]
            == prediction@[i] by {
            assert(predictions@[mode as int]@[i] as u8 == prediction@[i]);
        }
    }
    lemma_weighs(bits as int, lambda as int);
    assert(bits * lambda <= 6 * 0x1_0000_0000) by (nonlinear_arith)
        requires
            0 <= bits <= 6,
            0 <= lambda <= 0x1_0000_0000,
    ;
    assert(d.satd == error);
    assert(d.rd_cost == error + bits * lambda / 256);
    if ranked@.contains(d) {
        let i = choose|i: int| 0 <= i < ranked@.len() && ranked@[i] == d;
        assert(ranked@[i].mode == mode);
    } else {
        assert(crate::rdo::ranks_before(ranked@.last(), d));
    }
    assert forall|i: int, j: int| 0 <= i < j < ranked@.len() implies ({
        let (a, b) = (#[trigger] ranked@[i], #[trigger] ranked@[j]);
        a.rd_cost < b.rd_cost || (a.rd_cost == b.rd_cost && a.mode < b.mode)
    }) by {
        assert(crate::rdo::ranks_before(ranked@[i], ranked@[j]));
    }
}

/// A mode that leaves `error` and takes `bits` does not rank before `last`.
pub open spec fn weighs_more(error: int, bits: int, lambda: int, last: IntraModeDecision, mode: u8) -> bool {
    256 * (last.rd_cost - error) <= bits * lambda && (256 * (last.rd_cost - error + 1) > bits * lambda ==> last.mode
        <= mode)
}

/// The candidates of a block: the whole first and, where it has more, four quadrants last;
/// two halves either way; and from side 16 on a cut at a quarter or at three quarters either
/// way. There are no others.
pub proof fn law_candidate_shapes(s: usize, p: Vec<Vec<(usize, usize, usize, usize)>>, cut: usize)
    requires
        s == 4 || s == 8 || s == 16 || s == 32 || s == 64,
        call_ensures(candidate_partitions, (s,), p),
    ensures
        p@.len() == (if s == 4 {
            1int
        } else if s == 8 {
            4
        } else {
            8
        }),
        p@[0]@ == seq![(0usize, 0usize, s, s)],
        s >= 8 ==> p@.last()@.len() == 4,
        (s >= 8 && 2 * cut == s) || (s >= 16 && (4 * cut == s || 4 * cut == 3 * s)) ==> (exists|k: int|
            0 <= k < p@.len() && #[trigger] p@[k]@ == seq![
                (0usize, 0usize, s, cut),
                (0usize, cut, s, (s - cut) as usize),
            ]) && (exists|k: int|
            0 <= k < p@.len() && #[trigger] p@[k]@ == seq![
                (0usize, 0usize, cut, s),
                (cut, 0usize, (s - cut) as usize, s),
            ]),
{
    let all = shapes(s as int);
    assert(p@[0]@ == all[0]);
    if (s >= 8 && 2 * cut == s) || (s >= 16 && (4 * cut == s || 4 * cut == 3 * s)) {
        let k: int = if 2 * cut == s {
            1
        } else if 4 * cut == s {
            3
        } else {
            4
        };
        let l: int = if 2 * cut == s {
            2
        } else if 4 * cut == s {
            5
        } else {
            6
        };
        assert(p@[k]@ == all[k] && p@[l]@ == all[l]);
        assert(p@[k]@ =~= seq![(0usize, 0usize, s, cut), (0usize, cut, s, (s - cut) as usize)]);
        assert(p@[l]@ =~= seq![(0usize, 0usize, cut, s), (cut, 0usize, (s - cut) as usize, s)]);
    }
    if s >= 8 {
        assert(p@.last()@ == all.last());
    }
}

/// Among displacements of equal SAD the search takes the shortest, counted along rows and
/// columns; among those the one of fewest rows.
pub proof fn law_ties_go_to_the_shortest_vector(s: Search, x: int, y: int, w: int, h: int, dx: int, dy: int)
    requires
        s.radius >= 0,
        s.fits(x, y, w, h, dx, dy),
        -s.radius <= dx <= s.radius,
        -s.radius <= dy <= s.radius,
        block_sad(s.pair(x, y, dx, dy), w as nat, h as nat) == s.coarse(x, y, w, h).cost,
    ensures
        ({
            let best = s.coarse(x, y, w, h);
            &&& abs(best.dx) + abs(best.dy) <= abs(dx) + abs(dy)
            &&& abs(best.dx) + abs(best.dy) == abs(dx) + abs(dy) ==> abs(best.dy) <= abs(dy)
        }),
{
    law_coarse_search_is_least(s, x, y, w, h, dx, dy);
}

/// What the first `n` blocks of a plan cost together.
pub open spec fn blocks_cost(blocks: Seq<BlockDecision>, n: nat) -> int
    decreases n,
{
    if n == 0 {
        0
    } else {
        blocks[n - 1].rd_cost + blocks_cost(blocks, (n - 1) as nat)
    }
}

proof fn lemma_blocks_cost(blocks: Seq<BlockDecision>, n: nat)
    requires
        n <= blocks.len(),
    ensures
        total_cost(blocks, n) == min(u64::MAX as int, blocks_cost(blocks, n)),
        blocks_cost(blocks, n) >= 0,
    decreases n,
{
    if n > 0 {
        lemma_blocks_cost(blocks, (n - 1) as nat);
    }
}

/// A picture costs what its blocks cost together, as far as a machine word counts.
pub proof fn law_picture_costs_its_blocks(
    y: &[u8],
    stride: usize,
    width: usize,
    height: usize,
    reference_y: Option<&[u8]>,
    cfg: DecisionConfig,
    p: PictureDecision,
)
    requires
        search(y@, stride, width, height, plane_of(reference_y), cfg).valid(),
        width % 16 == 0,
        height % 16 == 0,
        call_ensures(decide_picture, (y, stride, width, height, reference_y, cfg), p),
    ensures
        p.rd_cost == min(u64::MAX as int, blocks_cost(p.blocks@, p.blocks@.len())),
{
    lemma_blocks_cost(p.blocks@, p.blocks@.len());
}

/// By default the search runs at QP 26 over four samples either way, on the fastest metrics.
pub proof fn law_default_search(cfg: DecisionConfig)
    requires
        call_ensures(<DecisionConfig as Default>::default, (), cfg),
    ensures
        cfg.qp == 26,
        cfg.search_radius == 4,
        cfg.backend == DistortionBackend::Dispatched,
{
}

} // verus!
