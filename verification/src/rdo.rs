//! Encoder-side rate-distortion candidate search: prediction partitions, motion
//! vectors and intra modes, chosen by distortion plus weighted bits.
use vstd::prelude::*;
use vstd::arithmetic::power2::{lemma2_to64, lemma2_to64_rest, pow2};
use vstd::slice::slice_subrange;
use crate::arith::{abs, max, min};
use crate::bits::width;
use crate::bitwriter::bit_width;
use crate::cabac::clip3;
use crate::rdcost::{block_sad, block_satd, holds_block, sad, sad_scalar, satd, satd_scalar, Pair};

verus! {

/// The side of a coding tree block.
pub const CTB: usize = 16;

/// What a picture without a reference is predicted from.
pub const NEUTRAL_LUMA: u8 = 128;

/// The largest intra prediction mode.
pub const INTRA_PRED_MODE_MAX: u8 = 34;

/// Allowance per coded block for the position and significance syntax that
/// precedes the levels.
pub const SIGNIFICANCE_MAP_BITS: u32 = 12;

/// The largest picture side and search radius of a motion search: positions then
/// stay inside 32 bits.
pub const MAX_SEARCH_EXTENT: usize = 0x2000_0000;

/// `0.57 * 2 ^ ( ( QP - 12 ) / 3 )` in Q8 fixed point, to the nearest integer, by QP.
pub const LAMBDA_Q8: [u32; 52] = [
    9, 11, 14, 18, 23, 29, 36, 46, 58, 73, 92, 116, 146, 184, 232, 292, 368, 463, 584, 735, 927, 1167, 1471, 1853,
    2335, 2942, 3706, 4669, 5883, 7412, 9339, 11766, 14825, 18678, 23533, 29649, 37356, 47065, 59298, 74711, 94130,
    118596, 149422, 188260, 237193, 298844, 376520, 474386, 597688, 753040, 948771, 1195377,
];

/// Which form of the distortion metrics the search runs on.
#[derive(Clone, Copy, Debug, PartialEq, Eq, Structural)]
pub enum DistortionBackend {
    /// The fastest form that the host offers.
    Dispatched,
    /// The portable form.
    Scalar,
}

/// Per-picture decision-search controls.
#[derive(Clone, Copy, Debug, PartialEq, Eq, Structural)]
pub struct DecisionConfig {
    /// Luma QP used to derive the weight of a bit.
    pub qp: i32,
    /// Whole-sample search radius.
    pub search_radius: i32,
    /// Distortion implementation.
    pub backend: DistortionBackend,
}

impl Default for DecisionConfig {
    fn default() -> (c: Self)
        ensures
            c == (DecisionConfig { qp: 26, search_radius: 4, backend: DistortionBackend::Dispatched }),
    {
        DecisionConfig { qp: 26, search_radius: 4, backend: DistortionBackend::Dispatched }
    }
}

/// One evaluated prediction partition.
#[derive(Clone, Copy, Debug, PartialEq, Eq, Structural)]
pub struct PartitionDecision {
    pub x: usize,
    pub y: usize,
    pub w: usize,
    pub h: usize,
    pub mv_x: i32,
    pub mv_y: i32,
    pub sad: u32,
    pub satd: u32,
    pub bit_cost: u32,
    pub rd_cost: u64,
}

/// The selected candidate for one coding block.
#[derive(Clone, Debug, PartialEq, Eq)]
pub struct BlockDecision {
    pub x: usize,
    pub y: usize,
    pub size: usize,
    pub partitions: Vec<PartitionDecision>,
    pub rd_cost: u64,
    pub pcm_cost: u64,
}

/// A deterministic picture-level decision plan.
#[derive(Clone, Debug, PartialEq, Eq)]
pub struct PictureDecision {
    pub blocks: Vec<BlockDecision>,
    pub rd_cost: u64,
    pub pcm_blocks: usize,
}

/// The weight of one bit against distortion, in Q8.
pub open spec fn lambda_of(qp: int) -> int {
    LAMBDA_Q8[clip3(0, 51, qp)] as int
}

/// The weight that the searches trade distortion against rate with, in Q8 fixed
/// point. A QP outside 0..=51 counts as the nearest one inside.
pub fn lambda_q8(qp: i32) -> (l: u32)
    ensures
        l == lambda_of(qp as int),
        9 <= l <= 1_195_377,
{
    let q: usize = if qp < 0 {
        0
    } else if qp > 51 {
        51
    } else {
        qp as usize
    };
    LAMBDA_Q8[q]
}

/// What the choice among `n` partitions costs to signal.
pub open spec fn split_bits(n: int) -> int {
    if n == 1 {
        1
    } else if n == 2 {
        5
    } else if n == 4 {
        9
    } else {
        13
    }
}

fn split_bit_cost(partitions: usize) -> (b: u64)
    ensures
        b == split_bits(partitions as int),
{
    if partitions == 1 {
        1
    } else if partitions == 2 {
        5
    } else if partitions == 4 {
        9
    } else {
        13
    }
}

/// The length of the exp-Golomb code of `v`.
pub open spec fn golomb_bits(v: int) -> int {
    2 * width((v + 1) as nat) - 1
}

fn exp_golomb_bits(v: u32) -> (b: u32)
    requires
        v < u32::MAX,
    ensures
        b == golomb_bits(v as int),
        1 <= b <= 63,
{
    2 * bit_width(v + 1) as u32 - 1
}

fn magnitude(v: i32) -> (m: u32)
    ensures
        m == abs(v as int),
        m <= 0x8000_0000,
{
    if v < 0 {
        (0 - (v as i64)) as u32
    } else {
        v as u32
    }
}

/// What a motion vector and its residual are estimated to cost.
pub open spec fn motion_bits(mv_x: int, mv_y: int, w: int, h: int) -> int {
    2 + golomb_bits(abs(mv_x)) + golomb_bits(abs(mv_y)) + (if mv_x != 0 {
        1int
    } else {
        0
    }) + (if mv_y != 0 {
        1int
    } else {
        0
    }) + max(w * h / 16, 1)
}

fn motion_bit_cost(mv_x: i32, mv_y: i32, w: usize, h: usize) -> (b: u32)
    requires
        w <= 64,
        h <= 64,
    ensures
        b == motion_bits(mv_x as int, mv_y as int, w as int, h as int),
        b <= 386,
{
    let mv: u32 = exp_golomb_bits(magnitude(mv_x)) + exp_golomb_bits(magnitude(mv_y));
    let sign_x: u32 = if mv_x != 0 {
        1
    } else {
        0
    };
    let sign_y: u32 = if mv_y != 0 {
        1
    } else {
        0
    };
    assert(0 <= w * h <= 4096) by (nonlinear_arith)
        requires
            0 <= w <= 64,
            0 <= h <= 64,
    ;
    let class: u32 = ((w * h) / 16) as u32;
    2 + mv + sign_x + sign_y + (if class < 1 {
        1
    } else {
        class
    })
}

/// What a block of `size` by `size` luma samples costs as PCM: a byte per sample of
/// its three components, and four bits of syntax.
pub open spec fn pcm_bits(size: int) -> int {
    (size * size + size * size / 2) * 8 + 4
}

fn pcm_block_bit_cost(size: usize) -> (b: u64)
    requires
        size <= 0x8000,
    ensures
        b == pcm_bits(size as int),
{
    assert(0 <= size * size <= 0x4000_0000) by (nonlinear_arith)
        requires
            0 <= size <= 0x8000,
    ;
    let luma: usize = size * size;
    let chroma: usize = luma / 2;
    (luma as u64 + chroma as u64) * 8 + 4
}

/// What a luma intra mode costs to signal: two bins for the first most probable
/// mode, three for the other two, six for any other mode.
pub open spec fn mode_bits(mode: u8, candidates: Seq<u8>) -> int {
    if candidates[0] == mode {
        2
    } else if candidates[1] == mode || candidates[2] == mode {
        3
    } else {
        6
    }
}

/// Bin count for signalling one luma intra mode.
pub fn intra_mode_bit_cost(mode: u8, candidates: [u8; 3]) -> (b: u32)
    ensures
        b == mode_bits(mode, candidates@),
{
    if candidates[0] == mode {
        2
    } else if candidates[1] == mode || candidates[2] == mode {
        3
    } else {
        6
    }
}

/// Estimated bits of the first `n` levels: for each that is not zero, its
/// exp-Golomb code, a sign and one more.
pub open spec fn level_bits(levels: Seq<i32>, n: nat) -> int
    decreases n,
{
    if n == 0 {
        0
    } else {
        level_bits(levels, (n - 1) as nat) + if levels[n - 1] == 0 {
            0
        } else {
            golomb_bits(abs(levels[n - 1] as int)) + 2
        }
    }
}

/// Bit estimate for the residual of one transform block: one bit where every level
/// is zero, else the levels and a flat allowance. A cost model, not a bin count.
pub fn residual_bit_cost(levels: &[i32]) -> (b: u32)
    requires
        levels@.len() * 65 + SIGNIFICANCE_MAP_BITS <= u32::MAX,
    ensures
        b == (if forall|i: int| 0 <= i < levels@.len() ==> levels@[i] == 0 {
            1
        } else {
            level_bits(levels@, levels@.len()) + SIGNIFICANCE_MAP_BITS
        }),
{
    let n: usize = levels.len();
    let mut bits: u32 = 0;
    let mut coded: u32 = 0;
    let mut i: usize = 0;
    while i < n
        invariant
            i <= n,
            n == levels@.len(),
            n * 65 + SIGNIFICANCE_MAP_BITS <= u32::MAX,
            bits + coded == level_bits(levels@, i as nat),
            bits + coded <= 65 * i,
            coded == 0 <==> forall|j: int| 0 <= j < i ==> levels@[j] == 0,
        decreases n - i,
    {
        if levels[i] != 0 {
            coded = coded + 1;
            bits = bits + exp_golomb_bits(magnitude(levels[i])) + 1;
        }
        i = i + 1;
    }
    if coded == 0 {
        return 1;
    }
    bits + coded + SIGNIFICANCE_MAP_BITS
}

/// A rectangle inside a block: column, row, width and height.
pub open spec fn rect(x: int, y: int, w: int, h: int) -> (usize, usize, usize, usize) {
    (x as usize, y as usize, w as usize, h as usize)
}

/// The candidate partitions of a square block: the whole; where the side allows
/// it, two halves either way; from 16 on, a quarter and three quarters in each of
/// four directions; and four quadrants.
pub open spec fn shapes(s: int) -> Seq<Seq<(usize, usize, usize, usize)>> {
    let whole = seq![rect(0, 0, s, s)];
    let rows = seq![rect(0, 0, s, s / 2), rect(0, s / 2, s, s / 2)];
    let columns = seq![rect(0, 0, s / 2, s), rect(s / 2, 0, s / 2, s)];
    let up = seq![rect(0, 0, s, s / 4), rect(0, s / 4, s, s - s / 4)];
    let down = seq![rect(0, 0, s, s - s / 4), rect(0, s - s / 4, s, s / 4)];
    let left = seq![rect(0, 0, s / 4, s), rect(s / 4, 0, s - s / 4, s)];
    let right = seq![rect(0, 0, s - s / 4, s), rect(s - s / 4, 0, s / 4, s)];
    let quarters = seq![
        rect(0, 0, s / 2, s / 2),
        rect(s / 2, 0, s / 2, s / 2),
        rect(0, s / 2, s / 2, s / 2),
        rect(s / 2, s / 2, s / 2, s / 2),
    ];
    if s == 4 {
        seq![whole]
    } else if s == 8 {
        seq![whole, rows, columns, quarters]
    } else if s == 16 || s == 32 || s == 64 {
        seq![whole, rows, columns, up, down, left, right, quarters]
    } else {
        Seq::empty()
    }
}

/// The candidate partitions of a square block, each partition as its column, row,
/// width and height. Only the sides 4, 8, 16, 32 and 64 have any.
pub fn candidate_partitions(size: usize) -> (p: Vec<Vec<(usize, usize, usize, usize)>>)
    ensures
        p@.len() == shapes(size as int).len(),
        forall|i: int| 0 <= i < p@.len() ==> (#[trigger] p@[i])@ == shapes(size as int)[i],
{
    let mut out: Vec<Vec<(usize, usize, usize, usize)>> = Vec::new();
    let s: usize = size;
    if !(s == 4 || s == 8 || s == 16 || s == 32 || s == 64) {
        return out;
    }
    let half: usize = s / 2;
    let quarter: usize = s / 4;
    let rest: usize = s - quarter;
    out.push(vec![(0, 0, s, s)]);
    if s >= 8 {
        out.push(vec![(0, 0, s, half), (0, half, s, half)]);
        out.push(vec![(0, 0, half, s), (half, 0, half, s)]);
    }
    if s >= 16 {
        out.push(vec![(0, 0, s, quarter), (0, quarter, s, rest)]);
        out.push(vec![(0, 0, s, rest), (0, rest, s, quarter)]);
        out.push(vec![(0, 0, quarter, s), (quarter, 0, rest, s)]);
        out.push(vec![(0, 0, rest, s), (rest, 0, quarter, s)]);
    }
    if s >= 8 {
        out.push(vec![(0, 0, half, half), (half, 0, half, half), (0, half, half, half), (half, half, half, half)]);
    }
    assert forall|i: int| 0 <= i < out@.len() implies (#[trigger] out@[i])@ == shapes(size as int)[i] by {
        assert(out@[i]@ =~= shapes(size as int)[i]);
    }
    out
}

/// Whether a rectangle covers the sample at column `x`, row `y`.
pub open spec fn covers(r: (usize, usize, usize, usize), x: int, y: int) -> bool {
    r.0 <= x < r.0 + r.2 && r.1 <= y < r.1 + r.3
}

/// Every candidate tiles its block: each partition lies inside with sides that are
/// multiples of four, and each sample is covered by exactly one of them.
pub proof fn law_partitions_tile_the_block(s: int, k: int, x: int, y: int)
    requires
        0 <= k < shapes(s).len(),
        0 <= x < s,
        0 <= y < s,
    ensures
        exists|i: int| 0 <= i < shapes(s)[k].len() && #[trigger] covers(shapes(s)[k][i], x, y),
        forall|i: int, j: int|
            0 <= i < shapes(s)[k].len() && 0 <= j < shapes(s)[k].len() && #[trigger] covers(shapes(s)[k][i], x, y)
                && #[trigger] covers(shapes(s)[k][j], x, y) ==> i == j,
        forall|i: int|
            0 <= i < shapes(s)[k].len() ==> {
                let r = #[trigger] shapes(s)[k][i];
                &&& r.0 + r.2 <= s
                &&& r.1 + r.3 <= s
                &&& r.2 % 4 == 0
                &&& r.3 % 4 == 0
                &&& r.2 > 0
                &&& r.3 > 0
            },
{
    let shape = shapes(s)[k];
    assert(s == 4 || s == 8 || s == 16 || s == 32 || s == 64);
    assert(1 <= shape.len() <= 4);
    assert(covers(shape[0], x, y) || (shape.len() > 1 && covers(shape[1], x, y)) || (shape.len() > 2 && covers(
        shape[2],
        x,
        y,
    )) || (shape.len() > 3 && covers(shape[3], x, y)));
}

/// What a search runs on.
pub struct Search {
    pub y: Seq<u8>,
    pub stride: int,
    pub width: int,
    pub height: int,
    pub reference: Option<Seq<u8>>,
    pub qp: int,
    pub radius: int,
}

/// A displacement and what it costs.
pub struct Candidate {
    pub dx: int,
    pub dy: int,
    pub cost: int,
}

/// The plane from row `y`, column `x` on.
pub open spec fn from(plane: Seq<u8>, stride: int, x: int, y: int) -> Seq<u8> {
    plane.subrange(y * stride + x, plane.len() as int)
}

/// A plane holds a picture.
pub open spec fn holds_picture(plane: Seq<u8>, stride: int, width: int, height: int) -> bool {
    plane.len() >= (height - 1) * stride + width
}

impl Search {
    /// The planes hold the picture, and positions fit a machine word.
    pub open spec fn valid(self) -> bool {
        &&& 0 < self.width <= MAX_SEARCH_EXTENT
        &&& 0 < self.height <= MAX_SEARCH_EXTENT
        &&& self.stride >= self.width
        &&& 0 <= self.radius <= MAX_SEARCH_EXTENT
        &&& holds_picture(self.y, self.stride, self.width, self.height)
        &&& match self.reference {
            Some(r) => holds_picture(r, self.stride, self.width, self.height),
            None => true,
        }
    }

    /// The partition displaced by a vector stays inside the picture.
    pub open spec fn fits(self, x: int, y: int, w: int, h: int, dx: int, dy: int) -> bool {
        0 <= x + dx && 0 <= y + dy && x + dx + w <= self.width && y + dy + h <= self.height
    }

    /// The source at a position, against the reference displaced by a vector.
    pub open spec fn pair(self, x: int, y: int, dx: int, dy: int) -> Pair {
        Pair {
            src: from(self.y, self.stride, x, y),
            src_stride: self.stride,
            pred: from(self.reference.unwrap(), self.stride, x + dx, y + dy),
            pred_stride: self.stride,
        }
    }

    /// The source at a position, against a neutral block.
    pub open spec fn neutral_pair(self, x: int, y: int) -> Pair {
        Pair {
            src: from(self.y, self.stride, x, y),
            src_stride: self.stride,
            pred: Seq::new(256, |i: int| NEUTRAL_LUMA),
            pred_stride: CTB as int,
        }
    }

    /// The best candidate once `n` columns of the row `dy` of the search window have
    /// been compared by SAD, from the left.
    pub open spec fn scan_row(
        self,
        x: int,
        y: int,
        w: int,
        h: int,
        best: Candidate,
        dy: int,
        n: nat,
    ) -> Candidate
        decreases n,
    {
        if n == 0 {
            best
        } else {
            let b = self.scan_row(x, y, w, h, best, dy, (n - 1) as nat);
            let dx = n - 1 - self.radius;
            if self.fits(x, y, w, h, dx, dy) {
                better(b, Candidate { dx, dy, cost: block_sad(self.pair(x, y, dx, dy), w as nat, h as nat) })
            } else {
                b
            }
        }
    }

    /// The best candidate once `n` rows of the search window have been compared,
    /// from the top.
    pub open spec fn scan_rows(self, x: int, y: int, w: int, h: int, n: nat) -> Candidate
        decreases n,
    {
        if n == 0 {
            Candidate { dx: 0, dy: 0, cost: u32::MAX as int }
        } else {
            self.scan_row(
                x,
                y,
                w,
                h,
                self.scan_rows(x, y, w, h, (n - 1) as nat),
                n - 1 - self.radius,
                (2 * self.radius + 1) as nat,
            )
        }
    }

    /// The outcome of the whole-window search by SAD.
    pub open spec fn coarse(self, x: int, y: int, w: int, h: int) -> Candidate {
        self.scan_rows(x, y, w, h, (2 * self.radius + 1) as nat)
    }

    /// The coarse outcome after the first `n` of its cross of five points have been
    /// compared by SATD. The coarse outcome itself stands with its SAD.
    pub open spec fn refine(self, x: int, y: int, w: int, h: int, n: nat) -> Candidate
        decreases n,
    {
        let c = self.coarse(x, y, w, h);
        if n == 0 {
            c
        } else {
            let b = self.refine(x, y, w, h, (n - 1) as nat);
            let dx = c.dx + cross(n - 1).0;
            let dy = c.dy + cross(n - 1).1;
            if self.fits(x, y, w, h, dx, dy) {
                better(b, Candidate { dx, dy, cost: block_satd(self.pair(x, y, dx, dy), w, h) })
            } else {
                b
            }
        }
    }

    /// The displacement that the search settles on.
    pub open spec fn vector(self, x: int, y: int, w: int, h: int) -> Candidate {
        match self.reference {
            Some(_) => self.refine(x, y, w, h, 5),
            None => Candidate { dx: 0, dy: 0, cost: 0 },
        }
    }

    /// The source of a partition against what it is predicted from.
    pub open spec fn chosen(self, x: int, y: int, w: int, h: int) -> Pair {
        let mv = self.vector(x, y, w, h);
        match self.reference {
            Some(_) => self.pair(x, y, mv.dx, mv.dy),
            None => self.neutral_pair(x, y),
        }
    }

    /// The decision for one partition.
    pub open spec fn partition(self, x: int, y: int, w: int, h: int) -> PartitionDecision {
        let mv = self.vector(x, y, w, h);
        let pair = self.chosen(x, y, w, h);
        let bits = motion_bits(mv.dx, mv.dy, w, h);
        PartitionDecision {
            x: x as usize,
            y: y as usize,
            w: w as usize,
            h: h as usize,
            mv_x: mv.dx as i32,
            mv_y: mv.dy as i32,
            sad: block_sad(pair, w as nat, h as nat) as u32,
            satd: block_satd(pair, w, h) as u32,
            bit_cost: bits as u32,
            rd_cost: (block_satd(pair, w, h) + bits * lambda_of(self.qp) / 256) as u64,
        }
    }

    /// The decisions for the partitions of a shape of the block at (`x`, `y`).
    pub open spec fn shape(self, x: int, y: int, shape: Seq<(usize, usize, usize, usize)>) -> Seq<PartitionDecision> {
        Seq::new(
            shape.len(),
            |i: int| self.partition(x + shape[i].0, y + shape[i].1, shape[i].2 as int, shape[i].3 as int),
        )
    }

    /// What the first `n` partitions of a shape cost, with the choice of the shape.
    pub open spec fn shape_cost(self, x: int, y: int, shape: Seq<(usize, usize, usize, usize)>, n: nat) -> int
        decreases n,
    {
        if n == 0 {
            split_bits(shape.len() as int) * lambda_of(self.qp) / 256
        } else {
            self.shape_cost(x, y, shape, (n - 1) as nat) + self.shape(x, y, shape)[n - 1].rd_cost
        }
    }

    /// Whether shape `k` is the first of the cheapest shapes.
    pub open spec fn cheapest(self, x: int, y: int, k: int) -> bool {
        let all = shapes(CTB as int);
        &&& 0 <= k < all.len()
        &&& forall|j: int|
            #![trigger all[j]]
            0 <= j < all.len() ==> {
                let cost = self.shape_cost(x, y, all[j], all[j].len());
                let least = self.shape_cost(x, y, all[k], all[k].len());
                least <= cost && (j < k ==> least < cost)
            }
    }

    /// What a block of the picture costs as PCM.
    pub open spec fn pcm_cost(self) -> int {
        pcm_bits(CTB as int) * lambda_of(self.qp) / 256
    }
}

/// The points around a coarse outcome that are compared by SATD, in order.
pub open spec fn cross(k: int) -> (int, int) {
    if k == 0 {
        (0, 0)
    } else if k == 1 {
        (-1, 0)
    } else if k == 2 {
        (1, 0)
    } else if k == 3 {
        (0, -1)
    } else {
        (0, 1)
    }
}

/// The order among vectors of equal cost: by length, then by row, then by column,
/// all in magnitude.
pub open spec fn precedes(a: Candidate, b: Candidate) -> bool {
    let la = abs(a.dx) + abs(a.dy);
    let lb = abs(b.dx) + abs(b.dy);
    la < lb || (la == lb && (abs(a.dy) < abs(b.dy) || (abs(a.dy) == abs(b.dy) && abs(a.dx) < abs(b.dx))))
}

/// The better of the best candidate so far and a new one.
pub open spec fn better(best: Candidate, new: Candidate) -> Candidate {
    if new.cost < best.cost || (new.cost == best.cost && precedes(new, best)) {
        new
    } else {
        best
    }
}

/// The reference plane, where there is one.
pub open spec fn plane_of(reference: Option<&[u8]>) -> Option<Seq<u8>> {
    match reference {
        Some(r) => Some(r@),
        None => None,
    }
}

/// The search that a call stands for.
pub open spec fn search(
    y: Seq<u8>,
    stride: usize,
    width: usize,
    height: usize,
    reference: Option<Seq<u8>>,
    cfg: DecisionConfig,
) -> Search {
    Search {
        y,
        stride: stride as int,
        width: width as int,
        height: height as int,
        reference,
        qp: cfg.qp as int,
        radius: max(cfg.search_radius as int, 0),
    }
}

proof fn lemma_holds(plane: Seq<u8>, stride: int, width: int, height: int, x: int, y: int, w: int, h: int)
    requires
        holds_picture(plane, stride, width, height),
        stride >= width,
        0 <= x,
        0 <= y,
        4 <= w <= 64,
        4 <= h <= 64,
        x + w <= width,
        y + h <= height,
    ensures
        0 <= y * stride,
        0 <= y * stride + x <= plane.len(),
        holds_block(from(plane, stride, x, y), stride, w, h),
{
    assert(y * stride >= 0) by (nonlinear_arith)
        requires
            y >= 0,
            stride >= 0,
    ;
    assert((height - 1) * stride >= (y + h - 1) * stride) by (nonlinear_arith)
        requires
            height - 1 >= y + h - 1,
            stride >= 0,
    ;
    assert((y + h - 1) * stride == y * stride + (h - 1) * stride) by (nonlinear_arith);
    assert((h - 1) * stride >= 0) by (nonlinear_arith)
        requires
            h >= 1,
            stride >= 0,
    ;
}

fn metric_sad(
    src: &[u8],
    src_stride: usize,
    pred: &[u8],
    pred_stride: usize,
    w: usize,
    h: usize,
    backend: DistortionBackend,
) -> (cost: u32)
    requires
        (Pair { src: src@, src_stride: src_stride as int, pred: pred@, pred_stride: pred_stride as int }).holds(
            w as int,
            h as int,
        ),
    ensures
        cost == block_sad(
            (Pair { src: src@, src_stride: src_stride as int, pred: pred@, pred_stride: pred_stride as int }),
            w as nat,
            h as nat,
        ),
        cost <= 1_044_480,
{
    match backend {
        DistortionBackend::Dispatched => sad(src, src_stride, pred, pred_stride, w, h),
        DistortionBackend::Scalar => sad_scalar(src, src_stride, pred, pred_stride, w, h),
    }
}

fn metric_satd(
    src: &[u8],
    src_stride: usize,
    pred: &[u8],
    pred_stride: usize,
    w: usize,
    h: usize,
    backend: DistortionBackend,
) -> (cost: u32)
    requires
        (Pair { src: src@, src_stride: src_stride as int, pred: pred@, pred_stride: pred_stride as int }).holds(
            w as int,
            h as int,
        ),
        w % 4 == 0,
        h % 4 == 0,
    ensures
        cost == block_satd(
            (Pair { src: src@, src_stride: src_stride as int, pred: pred@, pred_stride: pred_stride as int }),
            w as int,
            h as int,
        ),
        cost <= 16_711_680,
{
    match backend {
        DistortionBackend::Dispatched => satd(src, src_stride, pred, pred_stride, w, h),
        DistortionBackend::Scalar => satd_scalar(src, src_stride, pred, pred_stride, w, h),
    }
}

/// Whether the first of two vectors comes before the second at equal cost.
fn vector_precedes(ax: i32, ay: i32, bx: i32, by: i32) -> (r: bool)
    requires
        -0x3000_0000 <= ax <= 0x3000_0000,
        -0x3000_0000 <= ay <= 0x3000_0000,
        -0x3000_0000 <= bx <= 0x3000_0000,
        -0x3000_0000 <= by <= 0x3000_0000,
    ensures
        forall|ca: int, cb: int|
            r == #[trigger] precedes(
                (Candidate { dx: ax as int, dy: ay as int, cost: ca }),
                (Candidate { dx: bx as int, dy: by as int, cost: cb }),
            ),
{
    let axm: u32 = magnitude(ax);
    let aym: u32 = magnitude(ay);
    let bxm: u32 = magnitude(bx);
    let bym: u32 = magnitude(by);
    let la: u32 = axm + aym;
    let lb: u32 = bxm + bym;
    la < lb || (la == lb && (aym < bym || (aym == bym && axm < bxm)))
}

/// A motion vector with the distortion it leaves.
#[derive(Clone, Copy, Debug, PartialEq, Eq, Structural)]
pub struct Motion {
    pub mv_x: i32,
    pub mv_y: i32,
    pub sad: u32,
    pub satd: u32,
}

/// One compared displacement.
#[derive(Clone, Copy)]
struct Compared {
    dx: i32,
    dy: i32,
    cost: u32,
}

impl Compared {
    spec fn model(self) -> Candidate {
        Candidate { dx: self.dx as int, dy: self.dy as int, cost: self.cost as int }
    }
}

/// Compares one displacement with the best one so far, by SAD or by SATD.
#[verifier::spinoff_prover]
fn compare(
    y: &[u8],
    stride: usize,
    width: usize,
    height: usize,
    reference: &[u8],
    x: usize,
    y0: usize,
    w: usize,
    h: usize,
    cfg: DecisionConfig,
    transformed: bool,
    best: Compared,
    dx: i32,
    dy: i32,
) -> (b: Compared)
    requires
        search(y@, stride, width, height, Some(reference@), cfg).valid(),
        x + w <= width,
        y0 + h <= height,
        4 <= w <= 64,
        4 <= h <= 64,
        w % 4 == 0,
        h % 4 == 0,
        -0x3000_0000 <= dx <= 0x3000_0000,
        -0x3000_0000 <= dy <= 0x3000_0000,
        -0x3000_0000 <= best.dx <= 0x3000_0000,
        -0x3000_0000 <= best.dy <= 0x3000_0000,
    ensures
        ({
            let s = search(y@, stride, width, height, Some(reference@), cfg);
            let pair = s.pair(x as int, y0 as int, dx as int, dy as int);
            let cost = if transformed {
                block_satd(pair, w as int, h as int)
            } else {
                block_sad(pair, w as nat, h as nat)
            };
            b.model() == if s.fits(x as int, y0 as int, w as int, h as int, dx as int, dy as int) {
                better(best.model(), Candidate { dx: dx as int, dy: dy as int, cost })
            } else {
                best.model()
            }
        }),
{
    let ghost s = search(y@, stride, width, height, Some(reference@), cfg);
    let rx: i64 = x as i64 + dx as i64;
    let ry: i64 = y0 as i64 + dy as i64;
    if rx < 0 || ry < 0 || rx + w as i64 > width as i64 || ry + h as i64 > height as i64 {
        return best;
    }
    let ylen: usize = y.len();
    let rlen: usize = reference.len();
    proof {
        lemma_holds(y@, s.stride, s.width, s.height, x as int, y0 as int, w as int, h as int);
        lemma_holds(reference@, s.stride, s.width, s.height, rx as int, ry as int, w as int, h as int);
    }
    let src: &[u8] = slice_subrange(y, y0 * stride + x, ylen);
    let pred: &[u8] = slice_subrange(reference, ry as usize * stride + rx as usize, rlen);
    let cost: u32 = if transformed {
        metric_satd(src, stride, pred, stride, w, h, cfg.backend)
    } else {
        metric_sad(src, stride, pred, stride, w, h, cfg.backend)
    };
    let first: bool = vector_precedes(dx, dy, best.dx, best.dy);
    assert(first == precedes(
        Candidate { dx: dx as int, dy: dy as int, cost: cost as int },
        best.model(),
    ));
    if cost < best.cost || (cost == best.cost && first) {
        Compared { dx, dy, cost }
    } else {
        best
    }
}

/// Searches the window around a partition by SAD, then the cross around the
/// outcome by SATD. Without a reference the partition is compared with a neutral
/// block.
pub fn motion_search(
    y: &[u8],
    stride: usize,
    width: usize,
    height: usize,
    reference_y: Option<&[u8]>,
    x: usize,
    y0: usize,
    w: usize,
    h: usize,
    cfg: DecisionConfig,
) -> (m: Motion)
    requires
        search(y@, stride, width, height, plane_of(reference_y), cfg).valid(),
        x + w <= width,
        y0 + h <= height,
        4 <= w <= 64,
        4 <= h <= 64,
        w % 4 == 0,
        h % 4 == 0,
        reference_y is None ==> w <= CTB && h <= CTB,
    ensures
        ({
            let s = search(y@, stride, width, height, plane_of(reference_y), cfg);
            let mv = s.vector(x as int, y0 as int, w as int, h as int);
            let pair = s.chosen(x as int, y0 as int, w as int, h as int);
            &&& m.mv_x == mv.dx
            &&& m.mv_y == mv.dy
            &&& m.sad == block_sad(pair, w as nat, h as nat)
            &&& m.satd == block_satd(pair, w as int, h as int)
        }),
        m.satd <= 16_711_680,
{
    let ghost s = search(y@, stride, width, height, plane_of(reference_y), cfg);
    let ylen: usize = y.len();
    proof {
        lemma_holds(y@, s.stride, s.width, s.height, x as int, y0 as int, w as int, h as int);
    }
    let src: &[u8] = slice_subrange(y, y0 * stride + x, ylen);
    let reference: &[u8] = match reference_y {
        Some(r) => r,
        None => {
            let neutral: Vec<u8> = vec![NEUTRAL_LUMA; CTB * CTB];
            assert(neutral@ =~= Seq::new(256, |i: int| NEUTRAL_LUMA));
            let sad: u32 = metric_sad(src, stride, neutral.as_slice(), CTB, w, h, cfg.backend);
            let satd: u32 = metric_satd(src, stride, neutral.as_slice(), CTB, w, h, cfg.backend);
            return Motion { mv_x: 0, mv_y: 0, sad, satd };
        },
    };
    let radius: i32 = if cfg.search_radius < 0 {
        0
    } else {
        cfg.search_radius
    };
    let mut best: Compared = Compared { dx: 0, dy: 0, cost: u32::MAX };
    let mut dy: i32 = -radius;
    while dy <= radius
        invariant
            s == search(y@, stride, width, height, Some(reference@), cfg),
            s.valid(),
            radius == s.radius,
            -radius <= dy <= radius + 1,
            x + w <= width,
            y0 + h <= height,
            4 <= w <= 64,
            4 <= h <= 64,
            w % 4 == 0,
            h % 4 == 0,
            -radius <= best.dx <= radius,
            -radius <= best.dy <= radius,
            s.fits(x as int, y0 as int, w as int, h as int, best.dx as int, best.dy as int),
            best.model() == s.scan_rows(x as int, y0 as int, w as int, h as int, (dy + radius) as nat),
        decreases radius + 1 - dy,
    {
        let ghost start = best.model();
        let mut dx: i32 = -radius;
        while dx <= radius
            invariant
                s == search(y@, stride, width, height, Some(reference@), cfg),
                s.valid(),
                radius == s.radius,
                -radius <= dy <= radius,
                -radius <= dx <= radius + 1,
                x + w <= width,
                y0 + h <= height,
                4 <= w <= 64,
                4 <= h <= 64,
                w % 4 == 0,
                h % 4 == 0,
                -radius <= best.dx <= radius,
                -radius <= best.dy <= radius,
                s.fits(x as int, y0 as int, w as int, h as int, best.dx as int, best.dy as int),
                best.model() == s.scan_row(
                    x as int,
                    y0 as int,
                    w as int,
                    h as int,
                    start,
                    dy as int,
                    (dx + radius) as nat,
                ),
            decreases radius + 1 - dx,
        {
            best = compare(y, stride, width, height, reference, x, y0, w, h, cfg, false, best, dx, dy);
            dx = dx + 1;
        }
        dy = dy + 1;
    }
    let coarse: Compared = best;
    let mut refined: Compared = best;
    let mut k: usize = 0;
    while k < 5
        invariant
            k <= 5,
            s == search(y@, stride, width, height, Some(reference@), cfg),
            s.valid(),
            radius == s.radius,
            x + w <= width,
            y0 + h <= height,
            4 <= w <= 64,
            4 <= h <= 64,
            w % 4 == 0,
            h % 4 == 0,
            -radius <= coarse.dx <= radius,
            -radius <= coarse.dy <= radius,
            -radius - 1 <= refined.dx <= radius + 1,
            -radius - 1 <= refined.dy <= radius + 1,
            coarse.model() == s.coarse(x as int, y0 as int, w as int, h as int),
            s.fits(x as int, y0 as int, w as int, h as int, refined.dx as int, refined.dy as int),
            refined.model() == s.refine(x as int, y0 as int, w as int, h as int, k as nat),
        decreases 5 - k,
    {
        let ox: i32 = if k == 1 {
            -1
        } else if k == 2 {
            1
        } else {
            0
        };
        let oy: i32 = if k == 3 {
            -1
        } else if k == 4 {
            1
        } else {
            0
        };
        refined = compare(
            y,
            stride,
            width,
            height,
            reference,
            x,
            y0,
            w,
            h,
            cfg,
            true,
            refined,
            coarse.dx + ox,
            coarse.dy + oy,
        );
        k = k + 1;
    }
    let rx: i64 = x as i64 + refined.dx as i64;
    let ry: i64 = y0 as i64 + refined.dy as i64;
    let rlen: usize = reference.len();
    proof {
        lemma_holds(reference@, s.stride, s.width, s.height, rx as int, ry as int, w as int, h as int);
    }
    let pred: &[u8] = slice_subrange(reference, ry as usize * stride + rx as usize, rlen);
    let sad: u32 = metric_sad(src, stride, pred, stride, w, h, cfg.backend);
    let satd: u32 = metric_satd(src, stride, pred, stride, w, h, cfg.backend);
    Motion { mv_x: refined.dx, mv_y: refined.dy, sad, satd }
}

/// Decides one partition.
fn decide_partition(
    y: &[u8],
    stride: usize,
    width: usize,
    height: usize,
    reference_y: Option<&[u8]>,
    x: usize,
    y0: usize,
    w: usize,
    h: usize,
    cfg: DecisionConfig,
    lambda: u32,
) -> (d: PartitionDecision)
    requires
        search(y@, stride, width, height, plane_of(reference_y), cfg).valid(),
        x + w <= width,
        y0 + h <= height,
        4 <= w <= CTB,
        4 <= h <= CTB,
        w % 4 == 0,
        h % 4 == 0,
        lambda == lambda_of(cfg.qp as int),
        lambda <= 1_195_377,
    ensures
        d == search(y@, stride, width, height, plane_of(reference_y), cfg).partition(
            x as int,
            y0 as int,
            w as int,
            h as int,
        ),
        d.rd_cost <= 0x1_0000_0000,
{
    let m: Motion = motion_search(y, stride, width, height, reference_y, x, y0, w, h, cfg);
    let bit_cost: u32 = motion_bit_cost(m.mv_x, m.mv_y, w, h);
    assert(0 <= bit_cost * lambda <= 461_415_522) by (nonlinear_arith)
        requires
            0 <= bit_cost <= 386,
            0 <= lambda <= 1_195_377,
    ;
    let rd_cost: u64 = m.satd as u64 + bit_cost as u64 * lambda as u64 / 256;
    PartitionDecision { x, y: y0, w, h, mv_x: m.mv_x, mv_y: m.mv_y, sad: m.sad, satd: m.satd, bit_cost, rd_cost }
}

impl Search {
    /// A block decision is the cheapest shape of its block, or PCM where that is
    /// cheaper still.
    #[verifier::opaque]
    pub open spec fn decides_block(self, d: BlockDecision, x: int, y: int) -> bool {
        &&& d.x == x
        &&& d.y == y
        &&& d.size == CTB
        &&& d.pcm_cost == self.pcm_cost()
        &&& exists|k: int| #[trigger]
            self.cheapest(x, y, k) && {
                let shape = shapes(CTB as int)[k];
                &&& d.partitions@ == self.shape(x, y, shape)
                &&& d.rd_cost == min(self.shape_cost(x, y, shape, shape.len()), self.pcm_cost())
            }
    }
}

proof fn lemma_ctb_shapes()
    ensures
        shapes(16).len() == 8,
        forall|k: int, i: int|
            0 <= k < 8 && 0 <= i < shapes(16)[k].len() ==> {
                let r = #[trigger] shapes(16)[k][i];
                &&& r.0 + r.2 <= 16
                &&& r.1 + r.3 <= 16
                &&& 4 <= r.2 <= 16
                &&& 4 <= r.3 <= 16
                &&& r.2 % 4 == 0
                &&& r.3 % 4 == 0
            },
        forall|k: int| 0 <= k < 8 ==> 1 <= (#[trigger] shapes(16)[k]).len() <= 4,
{
}

/// Decides one coding tree block: the cheapest of its candidate shapes.
#[verifier::rlimit(30)]
fn decide_block(
    y: &[u8],
    stride: usize,
    width: usize,
    height: usize,
    reference_y: Option<&[u8]>,
    bx: usize,
    by: usize,
    cfg: DecisionConfig,
) -> (d: BlockDecision)
    requires
        search(y@, stride, width, height, plane_of(reference_y), cfg).valid(),
        bx + CTB <= width,
        by + CTB <= height,
    ensures
        search(y@, stride, width, height, plane_of(reference_y), cfg).decides_block(d, bx as int, by as int),
{
    let ghost s = search(y@, stride, width, height, plane_of(reference_y), cfg);
    let ghost all = shapes(16);
    let lambda: u32 = lambda_q8(cfg.qp);
    let candidates: Vec<Vec<(usize, usize, usize, usize)>> = candidate_partitions(CTB);
    let mut best_partitions: Vec<PartitionDecision> = Vec::new();
    let mut best_cost: u64 = u64::MAX;
    let ghost mut best_k: int = 0;
    proof {
        lemma_ctb_shapes();
    }
    let mut k: usize = 0;
    while k < candidates.len()
        invariant
            k <= candidates@.len(),
            s == search(y@, stride, width, height, plane_of(reference_y), cfg),
            s.valid(),
            bx + CTB <= width,
            by + CTB <= height,
            all == shapes(16),
            all.len() == 8,
            candidates@.len() == 8,
            forall|i: int| 0 <= i < 8 ==> (#[trigger] candidates@[i])@ == all[i],
            lambda == lambda_of(cfg.qp as int),
            lambda <= 1_195_377,
            forall|k: int, i: int|
                0 <= k < 8 && 0 <= i < all[k].len() ==> {
                    let r = #[trigger] all[k][i];
                    &&& r.0 + r.2 <= 16
                    &&& r.1 + r.3 <= 16
                    &&& 4 <= r.2 <= 16
                    &&& 4 <= r.3 <= 16
                    &&& r.2 % 4 == 0
                    &&& r.3 % 4 == 0
                },
            forall|k: int| 0 <= k < 8 ==> 1 <= (#[trigger] all[k]).len() <= 4,
            k == 0 ==> best_cost == u64::MAX,
            k > 0 ==> {
                &&& 0 <= best_k < k
                &&& best_cost == s.shape_cost(bx as int, by as int, all[best_k], all[best_k].len())
                &&& best_partitions@ == s.shape(bx as int, by as int, all[best_k])
            },
            forall|j: int|
                #![trigger all[j]]
                0 <= j < k ==> {
                    let cost = s.shape_cost(bx as int, by as int, all[j], all[j].len());
                    best_cost <= cost && (j < best_k ==> best_cost < cost)
                },
        decreases candidates.len() - k,
    {
        let n: usize = candidates[k].len();
        let ghost shape = all[k as int];
        assert(candidates@[k as int]@ == shape);
        let mut current: Vec<PartitionDecision> = Vec::new();
        let split: u64 = split_bit_cost(n);
        assert(0 <= split * lambda <= 15_539_901) by (nonlinear_arith)
            requires
                0 <= split <= 13,
                0 <= lambda <= 1_195_377,
        ;
        let mut cost: u64 = split * lambda as u64 / 256;
        let mut i: usize = 0;
        while i < n
            invariant
                i <= n,
                n == shape.len(),
                n <= 4,
                k < 8,
                s == search(y@, stride, width, height, plane_of(reference_y), cfg),
                s.valid(),
                bx + CTB <= width,
                by + CTB <= height,
                candidates@.len() == 8,
                candidates@[k as int]@ == shape,
                lambda == lambda_of(cfg.qp as int),
                lambda <= 1_195_377,
                forall|i: int|
                    0 <= i < shape.len() ==> {
                        let r = #[trigger] shape[i];
                        &&& r.0 + r.2 <= 16
                        &&& r.1 + r.3 <= 16
                        &&& 4 <= r.2 <= 16
                        &&& 4 <= r.3 <= 16
                        &&& r.2 % 4 == 0
                        &&& r.3 % 4 == 0
                    },
                current@ == s.shape(bx as int, by as int, shape).take(i as int),
                cost == s.shape_cost(bx as int, by as int, shape, i as nat),
                cost <= 15_539_901 + i * 0x1_0000_0000,
            decreases n - i,
        {
            let r: (usize, usize, usize, usize) = candidates[k][i];
            assert(r == shape[i as int]);
            let d: PartitionDecision = decide_partition(
                y,
                stride,
                width,
                height,
                reference_y,
                bx + r.0,
                by + r.1,
                r.2,
                r.3,
                cfg,
                lambda,
            );
            assert(d == s.shape(bx as int, by as int, shape)[i as int]);
            cost = cost + d.rd_cost;
            current.push(d);
            i = i + 1;
            assert(current@ =~= s.shape(bx as int, by as int, shape).take(i as int));
        }
        assert(current@ =~= s.shape(bx as int, by as int, shape));
        if cost < best_cost {
            best_cost = cost;
            best_partitions = current;
            proof {
                best_k = k as int;
            }
        }
        k = k + 1;
    }
    assert(pcm_bits(16) == 3076);
    let pcm: u64 = pcm_block_bit_cost(CTB);
    let pcm_cost: u64 = pcm * lambda as u64 / 256;
    let rd_cost: u64 = if best_cost < pcm_cost {
        best_cost
    } else {
        pcm_cost
    };
    assert(s.cheapest(bx as int, by as int, best_k));
    proof {
        reveal(Search::decides_block);
    }
    BlockDecision { x: bx, y: by, size: CTB, partitions: best_partitions, rd_cost, pcm_cost }
}

/// The sum of the first `n` block costs, held at the largest machine word.
pub open spec fn total_cost(blocks: Seq<BlockDecision>, n: nat) -> int
    decreases n,
{
    if n == 0 {
        0
    } else {
        min(u64::MAX as int, total_cost(blocks, (n - 1) as nat) + blocks[n - 1].rd_cost)
    }
}

/// Searches the whole picture: one decision for each coding tree block, in raster
/// order.
pub fn decide_picture(
    y: &[u8],
    stride: usize,
    width: usize,
    height: usize,
    reference_y: Option<&[u8]>,
    cfg: DecisionConfig,
) -> (p: PictureDecision)
    requires
        search(y@, stride, width, height, plane_of(reference_y), cfg).valid(),
        width % CTB == 0,
        height % CTB == 0,
    ensures
        p.blocks@.len() == (width as int / 16) * (height as int / 16),
        p.pcm_blocks == p.blocks@.len(),
        p.rd_cost == total_cost(p.blocks@, p.blocks@.len()),
        forall|i: int|
            0 <= i < p.blocks@.len() ==> search(y@, stride, width, height, plane_of(reference_y), cfg).decides_block(
                #[trigger] p.blocks@[i],
                i % (width as int / 16) * 16,
                i / (width as int / 16) * 16,
            ),
{
    let ghost s = search(y@, stride, width, height, plane_of(reference_y), cfg);
    let columns: usize = width / CTB;
    let rows: usize = height / CTB;
    let mut blocks: Vec<BlockDecision> = Vec::new();
    let mut rd_cost: u64 = 0;
    let mut r: usize = 0;
    proof {
        assert(0 * (columns as int) == 0);
    }
    while r < rows
        invariant
            r <= rows,
            s == search(y@, stride, width, height, plane_of(reference_y), cfg),
            s.valid(),
            columns * 16 == width,
            rows * 16 == height,
            columns > 0,
            blocks@.len() == r * columns,
            rd_cost == total_cost(blocks@, blocks@.len()),
            forall|i: int|
                0 <= i < blocks@.len() ==> s.decides_block(
                    #[trigger] blocks@[i],
                    i % (columns as int) * 16,
                    i / (columns as int) * 16,
                ),
        decreases rows - r,
    {
        let mut c: usize = 0;
        while c < columns
            invariant
                r < rows,
                c <= columns,
                s == search(y@, stride, width, height, plane_of(reference_y), cfg),
                s.valid(),
                columns * 16 == width,
                rows * 16 == height,
                columns > 0,
                blocks@.len() == r * columns + c,
                rd_cost == total_cost(blocks@, blocks@.len()),
                forall|i: int|
                    0 <= i < blocks@.len() ==> s.decides_block(
                        #[trigger] blocks@[i],
                        i % (columns as int) * 16,
                        i / (columns as int) * 16,
                    ),
            decreases columns - c,
        {
            let d: BlockDecision = decide_block(y, stride, width, height, reference_y, c * CTB, r * CTB, cfg);
            proof {
                crate::arith::lemma_grid(r as int, c as int, columns as int, rows as int);
            }
            let ghost before = blocks@;
            rd_cost = if rd_cost > u64::MAX - d.rd_cost {
                u64::MAX
            } else {
                rd_cost + d.rd_cost
            };
            blocks.push(d);
            proof {
                lemma_total_prefix(before, blocks@, before.len());
            }
            c = c + 1;
        }
        proof {
            assert((r + 1) * columns == r * columns + columns) by (nonlinear_arith);
        }
        r = r + 1;
    }
    proof {
        assert(rows * columns == columns * rows) by (nonlinear_arith);
    }
    let pcm_blocks: usize = blocks.len();
    PictureDecision { blocks, rd_cost, pcm_blocks }
}

proof fn lemma_total_prefix(a: Seq<BlockDecision>, b: Seq<BlockDecision>, n: nat)
    requires
        n <= a.len(),
        n <= b.len(),
        forall|i: int| 0 <= i < n ==> a[i] == b[i],
    ensures
        total_cost(a, n) == total_cost(b, n),
    decreases n,
{
    if n > 0 {
        lemma_total_prefix(a, b, (n - 1) as nat);
    }
}

/// The intra luma mode chosen for one block, with the cost that chose it.
#[derive(Clone, Copy, Debug, PartialEq, Eq, Structural)]
pub struct IntraModeDecision {
    /// The selected intra prediction mode (0..=34).
    pub mode: u8,
    /// The mode's SATD against the source block.
    pub satd: u32,
    /// `satd + lambda * signalling bits`, the value it is ranked by.
    pub rd_cost: u64,
}

/// The first `n` predicted samples as bytes.
pub open spec fn bytes_of(samples: Seq<i32>, n: int) -> Seq<u8> {
    Seq::new(n as nat, |i: int| samples[i] as u8)
}

/// How one mode is judged.
pub open spec fn mode_decision(
    source: Seq<u8>,
    source_stride: int,
    n_tbs: int,
    candidates: Seq<u8>,
    qp: int,
    prediction: Seq<i32>,
    mode: u8,
) -> IntraModeDecision {
    let pair = Pair { src: source, src_stride: source_stride, pred: bytes_of(prediction, n_tbs * n_tbs), pred_stride: n_tbs };
    let satd = block_satd(pair, n_tbs, n_tbs);
    IntraModeDecision {
        mode,
        satd: satd as u32,
        rd_cost: (satd + mode_bits(mode, candidates) * lambda_of(qp) / 256) as u64,
    }
}

/// One decision ranks before another: by cost, then by mode.
pub open spec fn ranks_before(a: IntraModeDecision, b: IntraModeDecision) -> bool {
    a.rd_cost < b.rd_cost || (a.rd_cost == b.rd_cost && a.mode < b.mode)
}

/// A ranking with one more decision, behind those that cost no more.
pub open spec fn ranked_in(ranked: Seq<IntraModeDecision>, d: IntraModeDecision) -> Seq<IntraModeDecision>
    decreases ranked.len(),
{
    if ranked.len() == 0 || ranked.last().rd_cost <= d.rd_cost {
        ranked.push(d)
    } else {
        ranked_in(ranked.drop_last(), d).push(ranked.last())
    }
}

/// The first `n` modes ranked by cost.
pub open spec fn ranking(
    source: Seq<u8>,
    source_stride: int,
    n_tbs: int,
    candidates: Seq<u8>,
    qp: int,
    predictions: Seq<Seq<i32>>,
    n: nat,
) -> Seq<IntraModeDecision>
    decreases n,
{
    if n == 0 {
        Seq::empty()
    } else {
        ranked_in(
            ranking(source, source_stride, n_tbs, candidates, qp, predictions, (n - 1) as nat),
            mode_decision(source, source_stride, n_tbs, candidates, qp, predictions[n - 1], (n - 1) as u8),
        )
    }
}

/// The cheapest modes, at least one.
pub open spec fn shortlist_of(
    source: Seq<u8>,
    source_stride: int,
    n_tbs: int,
    candidates: Seq<u8>,
    qp: int,
    predictions: Seq<Seq<i32>>,
    keep: int,
) -> Seq<IntraModeDecision> {
    ranking(source, source_stride, n_tbs, candidates, qp, predictions, 35).take(min(max(keep, 1), 35))
}

/// The contents of many predictions.
pub open spec fn predictions_of(p: Seq<Vec<i32>>) -> Seq<Seq<i32>> {
    Seq::new(p.len(), |i: int| p[i]@)
}

proof fn lemma_ranked_in(ranked: Seq<IntraModeDecision>, d: IntraModeDecision, at: int)
    requires
        0 <= at <= ranked.len(),
        forall|j: int| at <= j < ranked.len() ==> (#[trigger] ranked[j]).rd_cost > d.rd_cost,
        at > 0 ==> ranked[at - 1].rd_cost <= d.rd_cost,
    ensures
        ranked_in(ranked, d) == ranked.insert(at, d),
    decreases ranked.len(),
{
    if at == ranked.len() {
        assert(ranked.insert(at, d) =~= ranked.push(d));
    } else {
        lemma_ranked_in(ranked.drop_last(), d, at);
        assert(ranked.insert(at, d) =~= ranked.drop_last().insert(at, d).push(ranked.last()));
    }
}

/// Ranks the 35 intra luma modes of one square block and returns the `shortlist`
/// cheapest (at least one), best first. `predictions` holds each mode's predicted
/// samples. Distortion is the prediction's SATD; the rate is the mode's signalling.
/// Ties go to the lower mode.
pub fn shortlist_intra_luma_modes(
    source: &[u8],
    source_stride: usize,
    n_tbs: usize,
    candidates: [u8; 3],
    qp: i32,
    backend: DistortionBackend,
    shortlist: usize,
    predictions: &Vec<Vec<i32>>,
) -> (ranked: Vec<IntraModeDecision>)
    requires
        holds_block(source@, source_stride as int, n_tbs as int, n_tbs as int),
        n_tbs % 4 == 0,
        predictions@.len() == 35,
        forall|m: int| 0 <= m < 35 ==> (#[trigger] predictions@[m])@.len() >= n_tbs * n_tbs,
    ensures
        ranked@ == shortlist_of(
            source@,
            source_stride as int,
            n_tbs as int,
            candidates@,
            qp as int,
            predictions_of(predictions@),
            shortlist as int,
        ),
        ranked@.len() == min(max(shortlist as int, 1), 35),
        forall|i: int|
            0 <= i < ranked@.len() ==> (#[trigger] ranked@[i]).mode < 35 && ranked@[i] == mode_decision(
                source@,
                source_stride as int,
                n_tbs as int,
                candidates@,
                qp as int,
                predictions@[ranked@[i].mode as int]@,
                ranked@[i].mode,
            ),
        forall|i: int, j: int| 0 <= i < j < ranked@.len() ==> #[trigger] ranks_before(ranked@[i], ranked@[j]),
        forall|m: u8|
            m < 35 ==> {
                let d = #[trigger] mode_decision(
                    source@,
                    source_stride as int,
                    n_tbs as int,
                    candidates@,
                    qp as int,
                    predictions@[m as int]@,
                    m,
                );
                ranked@.contains(d) || ranks_before(ranked@.last(), d)
            },
{
    let lambda: u32 = lambda_q8(qp);
    let ghost judged = |m: u8|
        mode_decision(source@, source_stride as int, n_tbs as int, candidates@, qp as int, predictions@[m as int]@, m);
    let mut ranked: Vec<IntraModeDecision> = Vec::new();
    let mut mode: u8 = 0;
    proof {
        assert(4 * 4 <= n_tbs * n_tbs <= 64 * 64) by (nonlinear_arith)
            requires
                4 <= n_tbs <= 64,
        ;
    }
    let area: usize = n_tbs * n_tbs;
    while mode < 35
        invariant
            mode <= 35,
            holds_block(source@, source_stride as int, n_tbs as int, n_tbs as int),
            n_tbs % 4 == 0,
            area == n_tbs * n_tbs,
            predictions@.len() == 35,
            forall|m: int| 0 <= m < 35 ==> (#[trigger] predictions@[m])@.len() >= n_tbs * n_tbs,
            lambda == lambda_of(qp as int),
            lambda <= 1_195_377,
            judged == (|m: u8|
                mode_decision(
                    source@,
                    source_stride as int,
                    n_tbs as int,
                    candidates@,
                    qp as int,
                    predictions@[m as int]@,
                    m,
                )),
            ranked@.len() == mode,
            ranked@ == ranking(
                source@,
                source_stride as int,
                n_tbs as int,
                candidates@,
                qp as int,
                predictions_of(predictions@),
                mode as nat,
            ),
            forall|i: int| 0 <= i < mode ==> (#[trigger] ranked@[i]).mode < mode && ranked@[i] == judged(ranked@[i].mode),
            forall|i: int, j: int| 0 <= i < j < mode ==> #[trigger] ranks_before(ranked@[i], ranked@[j]),
            forall|m: u8| m < mode ==> ranked@.contains(#[trigger] judged(m)),
        decreases 35 - mode,
    {
        let samples: &Vec<i32> = &predictions[mode as usize];
        assert(samples@.len() >= n_tbs * n_tbs);
        let mut pred: Vec<u8> = Vec::new();
        let mut i: usize = 0;
        while i < area
            invariant
                i <= area,
                area == n_tbs * n_tbs,
                samples@.len() >= area,
                pred@ == bytes_of(samples@, i as int),
            decreases area - i,
        {
            #[verifier::truncate]
            let v: u8 = samples[i] as u8;
            pred.push(v);
            i = i + 1;
            assert(pred@ =~= bytes_of(samples@, i as int));
        }
        proof {
            assert((n_tbs - 1) * n_tbs + n_tbs == n_tbs * n_tbs) by (nonlinear_arith);
        }
        let cost: u32 = metric_satd(source, source_stride, pred.as_slice(), n_tbs, n_tbs, n_tbs, backend);
        let bits: u64 = intra_mode_bit_cost(mode, candidates) as u64;
        assert(0 <= bits * lambda <= 7_172_262) by (nonlinear_arith)
            requires
                0 <= bits <= 6,
                0 <= lambda <= 1_195_377,
        ;
        let d: IntraModeDecision = IntraModeDecision {
            mode,
            satd: cost,
            rd_cost: cost as u64 + bits * lambda as u64 / 256,
        };
        assert(d == judged(mode));
        let mut at: usize = ranked.len();
        while at > 0 && ranked[at - 1].rd_cost > d.rd_cost
            invariant
                at <= ranked@.len(),
                forall|j: int| at <= j < ranked@.len() ==> (#[trigger] ranked@[j]).rd_cost > d.rd_cost,
            decreases at,
        {
            at = at - 1;
        }
        let ghost before = ranked@;
        ranked.insert(at, d);
        proof {
            lemma_ranked_in(before, d, at as int);
            assert(predictions_of(predictions@)[mode as int] == predictions@[mode as int]@);
            assert(ranked@ == before.insert(at as int, d));
            assert forall|i: int, j: int| 0 <= i < j < mode + 1 implies #[trigger] ranks_before(
                ranked@[i],
                ranked@[j],
            ) by {
                let bi = if i < at { i } else { i - 1 };
                let bj = if j < at { j } else { j - 1 };
                if i == at {
                } else if j == at {
                    if bi < at - 1 {
                        assert(ranks_before(before[bi], before[at - 1]));
                    }
                } else {
                    assert(ranks_before(before[bi], before[bj]));
                }
            }
            assert forall|m: u8| m < mode + 1 implies ranked@.contains(#[trigger] judged(m)) by {
                if m == mode {
                    assert(ranked@[at as int] == judged(m));
                } else {
                    assert(before.contains(judged(m)));
                    let w = before.index_of(judged(m));
                    if w < at {
                        assert(ranked@[w] == judged(m));
                    } else {
                        assert(ranked@[w + 1] == judged(m));
                    }
                }
            }
        }
        mode = mode + 1;
    }
    let keep: usize = if shortlist < 1 {
        1
    } else {
        shortlist
    };
    let ghost full = ranked@;
    if keep < ranked.len() {
        ranked.truncate(keep);
    }
    proof {
        assert(ranked@ =~= full.take(min(keep as int, 35)));
        assert forall|m: u8| m < 35 implies ranked@.contains(#[trigger] judged(m)) || ranks_before(
            ranked@.last(),
            judged(m),
        ) by {
            assert(full.contains(judged(m)));
            let w = full.index_of(judged(m));
            if w < ranked@.len() {
                assert(ranked@[w] == judged(m));
            } else {
                assert(ranks_before(full[ranked@.len() - 1], full[w]));
            }
        }
        assert forall|m: u8| m < 35 implies ({
            let d = #[trigger] mode_decision(
                source@,
                source_stride as int,
                n_tbs as int,
                candidates@,
                qp as int,
                predictions@[m as int]@,
                m,
            );
            ranked@.contains(d) || ranks_before(ranked@.last(), d)
        }) by {
            assert(judged(m) == mode_decision(
                source@,
                source_stride as int,
                n_tbs as int,
                candidates@,
                qp as int,
                predictions@[m as int]@,
                m,
            ));
        }
    }
    ranked
}

/// The partitions of a decided block are those of one of its shapes.
pub open spec fn follows_shape(d: BlockDecision, x: int, y: int, k: int) -> bool {
    let shape = shapes(CTB as int)[k];
    &&& 0 <= k < 8
    &&& d.partitions@.len() == shape.len()
    &&& forall|i: int|
        0 <= i < shape.len() ==> {
            let p = #[trigger] d.partitions@[i];
            p.x == x + shape[i].0 && p.y == y + shape[i].1 && p.w == shape[i].2 && p.h == shape[i].3
        }
}

/// A decided block is partitioned as one of the candidate shapes.
pub proof fn law_decided_block_follows_a_shape(s: Search, d: BlockDecision, x: int, y: int)
    requires
        s.decides_block(d, x, y),
        0 <= x <= MAX_SEARCH_EXTENT,
        0 <= y <= MAX_SEARCH_EXTENT,
    ensures
        exists|k: int| follows_shape(d, x, y, k),
{
    reveal(Search::decides_block);
    let k = choose|k: int| #[trigger]
        s.cheapest(x, y, k) && d.partitions@ == s.shape(x, y, shapes(CTB as int)[k]);
    lemma_ctb_shapes();
    let shape = shapes(16)[k];
    assert forall|i: int| 0 <= i < shape.len() implies {
        let p = #[trigger] d.partitions@[i];
        p.x == x + shape[i].0 && p.y == y + shape[i].1 && p.w == shape[i].2 && p.h == shape[i].3
    } by {
        let r = shape[i];
        assert(d.partitions@[i] == s.partition(x + r.0, y + r.1, r.2 as int, r.3 as int));
    }
    assert(follows_shape(d, x, y, k));
}

/// The whole-window search finds the least SAD of the window, and the first vector
/// of that SAD in the order of equal costs.
pub proof fn law_coarse_search_is_least(s: Search, x: int, y: int, w: int, h: int, dx: int, dy: int)
    requires
        s.radius >= 0,
        s.fits(x, y, w, h, dx, dy),
        -s.radius <= dx <= s.radius,
        -s.radius <= dy <= s.radius,
    ensures
        ({
            let c = Candidate { dx, dy, cost: block_sad(s.pair(x, y, dx, dy), w as nat, h as nat) };
            let best = s.coarse(x, y, w, h);
            best.cost <= c.cost && !(best.cost == c.cost && precedes(c, best))
        }),
{
    lemma_scan_rows_least(s, x, y, w, h, (2 * s.radius + 1) as nat, dx, dy);
}

/// No candidate beats the first.
spec fn unbeaten(best: Candidate, c: Candidate) -> bool {
    best.cost <= c.cost && !(best.cost == c.cost && precedes(c, best))
}

proof fn lemma_scan_row_least(s: Search, x: int, y: int, w: int, h: int, best: Candidate, dy: int, n: nat, c: Candidate)
    requires
        s.radius >= 0,
        n <= 2 * s.radius + 1,
        unbeaten(best, c) || (c.dy == dy && -s.radius <= c.dx < n - s.radius && s.fits(x, y, w, h, c.dx, dy) && c.cost
            == block_sad(s.pair(x, y, c.dx, dy), w as nat, h as nat)),
    ensures
        unbeaten(s.scan_row(x, y, w, h, best, dy, n), c),
    decreases n,
{
    if n > 0 {
        let dx = n - 1 - s.radius;
        if c.dy == dy && c.dx == dx && s.fits(x, y, w, h, dx, dy) && c.cost == block_sad(
            s.pair(x, y, dx, dy),
            w as nat,
            h as nat,
        ) {
        } else {
            lemma_scan_row_least(s, x, y, w, h, best, dy, (n - 1) as nat, c);
        }
    }
}

proof fn lemma_scan_rows_least(s: Search, x: int, y: int, w: int, h: int, n: nat, dx: int, dy: int)
    requires
        s.radius >= 0,
        s.fits(x, y, w, h, dx, dy),
        -s.radius <= dx <= s.radius,
        -s.radius <= dy < n - s.radius,
        n <= 2 * s.radius + 1,
    ensures
        unbeaten(
            s.scan_rows(x, y, w, h, n),
            Candidate { dx, dy, cost: block_sad(s.pair(x, y, dx, dy), w as nat, h as nat) },
        ),
    decreases n,
{
    let c = Candidate { dx, dy, cost: block_sad(s.pair(x, y, dx, dy), w as nat, h as nat) };
    let row = n - 1 - s.radius;
    let start = s.scan_rows(x, y, w, h, (n - 1) as nat);
    if dy < row {
        lemma_scan_rows_least(s, x, y, w, h, (n - 1) as nat, dx, dy);
    }
    lemma_scan_row_least(s, x, y, w, h, start, row, (2 * s.radius + 1) as nat, c);
}

/// A larger QP never weighs a bit less.
pub proof fn law_lambda_is_monotone(a: int, b: int)
    requires
        a <= b,
    ensures
        lambda_of(a) <= lambda_of(b),
{
    lemma_lambda_chain(clip3(0, 51, a), clip3(0, 51, b));
}

proof fn lemma_lambda_chain(a: int, b: int)
    requires
        0 <= a <= b <= 51,
    ensures
        LAMBDA_Q8[a] <= LAMBDA_Q8[b],
    decreases b - a,
{
    if a < b {
        lemma_lambda_chain(a, b - 1);
        assert(LAMBDA_Q8[b - 1] <= LAMBDA_Q8[b]);
    }
}

/// `n` to the third power.
pub open spec fn cube(n: int) -> int {
    n * n * n
}

/// The weight at each QP is the integer nearest to `145.92 * 2 ^ ( ( QP - 12 ) / 3 )`:
/// the cube of twice the curve, scaled by `100 ^ 3 * 2 ^ 12`, lies between the cubes
/// of the odd numbers around twice the weight.
pub proof fn law_lambda_is_the_rounded_curve(qp: int)
    requires
        0 <= qp <= 51,
    ensures
        cube(2 * lambda_of(qp) - 1) * 4_096_000_000 <= cube(29184) * pow2(qp as nat),
        cube(29184) * pow2(qp as nat) < cube(2 * lambda_of(qp) + 1) * 4_096_000_000,
{
    lemma2_to64();
    lemma2_to64_rest();
    if qp == 0 {
        assert(cube(17) * 4_096_000_000 <= cube(29184) * 1 < cube(19) * 4_096_000_000) by (nonlinear_arith);
    } else if qp == 1 {
        assert(cube(21) * 4_096_000_000 <= cube(29184) * 2 < cube(23) * 4_096_000_000) by (nonlinear_arith);
    } else if qp == 2 {
        assert(cube(27) * 4_096_000_000 <= cube(29184) * 4 < cube(29) * 4_096_000_000) by (nonlinear_arith);
    } else if qp == 3 {
        assert(cube(35) * 4_096_000_000 <= cube(29184) * 8 < cube(37) * 4_096_000_000) by (nonlinear_arith);
    } else if qp == 4 {
        assert(cube(45) * 4_096_000_000 <= cube(29184) * 16 < cube(47) * 4_096_000_000) by (nonlinear_arith);
    } else if qp == 5 {
        assert(cube(57) * 4_096_000_000 <= cube(29184) * 32 < cube(59) * 4_096_000_000) by (nonlinear_arith);
    } else if qp == 6 {
        assert(cube(71) * 4_096_000_000 <= cube(29184) * 64 < cube(73) * 4_096_000_000) by (nonlinear_arith);
    } else if qp == 7 {
        assert(cube(91) * 4_096_000_000 <= cube(29184) * 128 < cube(93) * 4_096_000_000) by (nonlinear_arith);
    } else if qp == 8 {
        assert(cube(115) * 4_096_000_000 <= cube(29184) * 256 < cube(117) * 4_096_000_000) by (nonlinear_arith);
    } else if qp == 9 {
        assert(cube(145) * 4_096_000_000 <= cube(29184) * 512 < cube(147) * 4_096_000_000) by (nonlinear_arith);
    } else if qp == 10 {
        assert(cube(183) * 4_096_000_000 <= cube(29184) * 1024 < cube(185) * 4_096_000_000) by (nonlinear_arith);
    } else if qp == 11 {
        assert(cube(231) * 4_096_000_000 <= cube(29184) * 2048 < cube(233) * 4_096_000_000) by (nonlinear_arith);
    } else if qp == 12 {
        assert(cube(291) * 4_096_000_000 <= cube(29184) * 4096 < cube(293) * 4_096_000_000) by (nonlinear_arith);
    } else if qp == 13 {
        assert(cube(367) * 4_096_000_000 <= cube(29184) * 8192 < cube(369) * 4_096_000_000) by (nonlinear_arith);
    } else if qp == 14 {
        assert(cube(463) * 4_096_000_000 <= cube(29184) * 16384 < cube(465) * 4_096_000_000) by (nonlinear_arith);
    } else if qp == 15 {
        assert(cube(583) * 4_096_000_000 <= cube(29184) * 32768 < cube(585) * 4_096_000_000) by (nonlinear_arith);
    } else if qp == 16 {
        assert(cube(735) * 4_096_000_000 <= cube(29184) * 65536 < cube(737) * 4_096_000_000) by (nonlinear_arith);
    } else if qp == 17 {
        assert(cube(925) * 4_096_000_000 <= cube(29184) * 131072 < cube(927) * 4_096_000_000) by (nonlinear_arith);
    } else if qp == 18 {
        assert(cube(1167) * 4_096_000_000 <= cube(29184) * 262144 < cube(1169) * 4_096_000_000) by (nonlinear_arith);
    } else if qp == 19 {
        assert(cube(1469) * 4_096_000_000 <= cube(29184) * 524288 < cube(1471) * 4_096_000_000) by (nonlinear_arith);
    } else if qp == 20 {
        assert(cube(1853) * 4_096_000_000 <= cube(29184) * 1048576 < cube(1855) * 4_096_000_000) by (nonlinear_arith);
    } else if qp == 21 {
        assert(cube(2333) * 4_096_000_000 <= cube(29184) * 2097152 < cube(2335) * 4_096_000_000) by (nonlinear_arith);
    } else if qp == 22 {
        assert(cube(2941) * 4_096_000_000 <= cube(29184) * 4194304 < cube(2943) * 4_096_000_000) by (nonlinear_arith);
    } else if qp == 23 {
        assert(cube(3705) * 4_096_000_000 <= cube(29184) * 8388608 < cube(3707) * 4_096_000_000) by (nonlinear_arith);
    } else if qp == 24 {
        assert(cube(4669) * 4_096_000_000 <= cube(29184) * 16777216 < cube(4671) * 4_096_000_000) by (nonlinear_arith);
    } else if qp == 25 {
        assert(cube(5883) * 4_096_000_000 <= cube(29184) * 33554432 < cube(5885) * 4_096_000_000) by (nonlinear_arith);
    } else if qp == 26 {
        assert(cube(7411) * 4_096_000_000 <= cube(29184) * 67108864 < cube(7413) * 4_096_000_000) by (nonlinear_arith);
    } else if qp == 27 {
        assert(cube(9337) * 4_096_000_000 <= cube(29184) * 134217728 < cube(9339) * 4_096_000_000) by (nonlinear_arith);
    } else if qp == 28 {
        assert(cube(11765) * 4_096_000_000 <= cube(29184) * 268435456 < cube(11767) * 4_096_000_000) by (nonlinear_arith);
    } else if qp == 29 {
        assert(cube(14823) * 4_096_000_000 <= cube(29184) * 536870912 < cube(14825) * 4_096_000_000) by (nonlinear_arith);
    } else if qp == 30 {
        assert(cube(18677) * 4_096_000_000 <= cube(29184) * 1073741824 < cube(18679) * 4_096_000_000) by (nonlinear_arith);
    } else if qp == 31 {
        assert(cube(23531) * 4_096_000_000 <= cube(29184) * 2147483648 < cube(23533) * 4_096_000_000) by (nonlinear_arith);
    } else if qp == 32 {
        assert(cube(29649) * 4_096_000_000 <= cube(29184) * 4294967296 < cube(29651) * 4_096_000_000) by (nonlinear_arith);
    } else if qp == 33 {
        assert(cube(37355) * 4_096_000_000 <= cube(29184) * 8589934592 < cube(37357) * 4_096_000_000) by (nonlinear_arith);
    } else if qp == 34 {
        assert(cube(47065) * 4_096_000_000 <= cube(29184) * 17179869184 < cube(47067) * 4_096_000_000) by (nonlinear_arith);
    } else if qp == 35 {
        assert(cube(59297) * 4_096_000_000 <= cube(29184) * 34359738368 < cube(59299) * 4_096_000_000) by (nonlinear_arith);
    } else if qp == 36 {
        assert(cube(74711) * 4_096_000_000 <= cube(29184) * 68719476736 < cube(74713) * 4_096_000_000) by (nonlinear_arith);
    } else if qp == 37 {
        assert(cube(94129) * 4_096_000_000 <= cube(29184) * 137438953472 < cube(94131) * 4_096_000_000) by (nonlinear_arith);
    } else if qp == 38 {
        assert(cube(118595) * 4_096_000_000 <= cube(29184) * 274877906944 < cube(118597) * 4_096_000_000) by (nonlinear_arith);
    } else if qp == 39 {
        assert(cube(149421) * 4_096_000_000 <= cube(29184) * 549755813888 < cube(149423) * 4_096_000_000) by (nonlinear_arith);
    } else if qp == 40 {
        assert(cube(188259) * 4_096_000_000 <= cube(29184) * 1099511627776 < cube(188261) * 4_096_000_000) by (nonlinear_arith);
    } else if qp == 41 {
        assert(cube(237191) * 4_096_000_000 <= cube(29184) * 2199023255552 < cube(237193) * 4_096_000_000) by (nonlinear_arith);
    } else if qp == 42 {
        assert(cube(298843) * 4_096_000_000 <= cube(29184) * 4398046511104 < cube(298845) * 4_096_000_000) by (nonlinear_arith);
    } else if qp == 43 {
        assert(cube(376519) * 4_096_000_000 <= cube(29184) * 8796093022208 < cube(376521) * 4_096_000_000) by (nonlinear_arith);
    } else if qp == 44 {
        assert(cube(474385) * 4_096_000_000 <= cube(29184) * 17592186044416 < cube(474387) * 4_096_000_000) by (nonlinear_arith);
    } else if qp == 45 {
        assert(cube(597687) * 4_096_000_000 <= cube(29184) * 35184372088832 < cube(597689) * 4_096_000_000) by (nonlinear_arith);
    } else if qp == 46 {
        assert(cube(753039) * 4_096_000_000 <= cube(29184) * 70368744177664 < cube(753041) * 4_096_000_000) by (nonlinear_arith);
    } else if qp == 47 {
        assert(cube(948771) * 4_096_000_000 <= cube(29184) * 140737488355328 < cube(948773) * 4_096_000_000) by (nonlinear_arith);
    } else if qp == 48 {
        assert(cube(1195375) * 4_096_000_000 <= cube(29184) * 281474976710656 < cube(1195377) * 4_096_000_000) by (nonlinear_arith);
    } else if qp == 49 {
        assert(cube(1506079) * 4_096_000_000 <= cube(29184) * 562949953421312 < cube(1506081) * 4_096_000_000) by (nonlinear_arith);
    } else if qp == 50 {
        assert(cube(1897541) * 4_096_000_000 <= cube(29184) * 1125899906842624 < cube(1897543) * 4_096_000_000) by (nonlinear_arith);
    } else if qp == 51 {
        assert(cube(2390753) * 4_096_000_000 <= cube(29184) * 2251799813685248 < cube(2390755) * 4_096_000_000) by (nonlinear_arith);
    }
}

} // verus!
