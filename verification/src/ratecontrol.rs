//! Per-picture rate control for the lossy writer.
//!
//! A quantizer step doubles the rate every six QP, so a picture costs about
//! `K * 2^(-qp/6)` bits. `K` is whatever the previous picture's actual size
//! implies, and the next picture's QP is the one that the model puts on the
//! budget. Everything is integer arithmetic, the base-2 logarithm with it, so
//! that a QP is the same on every host.
use vstd::prelude::*;
use vstd::arithmetic::div_mod::{lemma_div_is_ordered, lemma_fundamental_div_mod};
use vstd::arithmetic::power2::{
    lemma2_to64, lemma_pow2_adds, lemma_pow2_pos, lemma_pow2_strictly_increases, lemma_pow2_unfold, pow2,
};
use vstd::bits::{lemma_u64_shl_is_mul, lemma_u64_shr_is_div};
use crate::arith::{abs, max, min};
use crate::bits::{lemma_width, lemma_width_unique, width};
use crate::cabac::clip3;

verus! {

/// The lowest `SliceQpY` that the writer accepts at 8-bit depth.
pub const QP_MIN: i32 = 0;

/// The highest `SliceQpY`.
pub const QP_MAX: i32 = 51;

/// How far one picture's QP may move from the last, in QP steps: one full
/// doubling of the rate.
pub const MAX_QP_STEP: i32 = 6;

/// The QP at which the initial-guess model spends one bit per pixel.
pub const QP_AT_UNIT_BPP: i32 = 36;

/// Base-2 logarithm of a positive integer in Q8: the place of the leading bit,
/// then one linear interpolation across the mantissa.
pub open spec fn log2_q8_of(x: nat) -> int {
    let i = (width(x) - 1) as nat;
    256 * i + (256 * x / pow2(i) - 256)
}

/// `x / d` rounded to the nearest integer, halves away from zero.
pub open spec fn round_away(x: int, d: int) -> int {
    if x >= 0 {
        (x + d / 2) / d
    } else {
        -((-x + d / 2) / d)
    }
}

/// At least one.
pub open spec fn positive(x: nat) -> nat {
    if x == 0 {
        1
    } else {
        x
    }
}

/// The bits that one picture is allowed.
pub open spec fn budget(bits_per_second: nat, timescale: nat, frame_duration: nat) -> nat {
    positive(bits_per_second * frame_duration / positive(timescale))
}

/// The QP to open at, from the budget's bits per pixel.
pub open spec fn opening_qp(picture_bits: nat, pixels: nat) -> int {
    clip3(
        QP_MIN as int,
        QP_MAX as int,
        QP_AT_UNIT_BPP - round_away(6 * (log2_q8_of(picture_bits) - log2_q8_of(pixels)), 256),
    )
}

/// The correction that the model asks for, before it is bounded.
pub open spec fn correction(picture_bits: nat, coded_bits: nat) -> int {
    round_away(6 * (log2_q8_of(positive(coded_bits)) - log2_q8_of(picture_bits)), 256)
}

/// The QP after a picture coded at `qp` took `coded_bits`.
pub open spec fn next_qp(qp: int, picture_bits: nat, coded_bits: nat) -> int {
    clip3(
        QP_MIN as int,
        QP_MAX as int,
        qp + clip3(-MAX_QP_STEP as int, MAX_QP_STEP as int, correction(picture_bits, coded_bits)),
    )
}

/// A one-step per-picture QP feedback loop against a target bitrate.
#[derive(Clone, Copy, Debug)]
pub struct RateController {
    /// Bits one picture is allowed. At least 1.
    picture_bits: u64,
    /// The QP the next picture is coded at.
    qp: i32,
}

impl RateController {
    /// The bits that one picture is allowed.
    pub closed spec fn budget(&self) -> nat {
        self.picture_bits as nat
    }

    /// The QP of the next picture.
    pub closed spec fn next(&self) -> int {
        self.qp as int
    }

    /// The budget is positive and the QP codable.
    pub open spec fn wf(&self) -> bool {
        self.budget() >= 1 && QP_MIN <= self.next() <= QP_MAX
    }

    /// A controller for `bits_per_second` over pictures of `frame_duration`
    /// ticks in a `timescale`-tick second, covering `pixels` luma samples.
    pub fn new(bits_per_second: u32, timescale: u32, frame_duration: u32, pixels: u64) -> (c: Self)
        ensures
            c.wf(),
            c.budget() == budget(bits_per_second as nat, timescale as nat, frame_duration as nat),
            c.next() == opening_qp(c.budget(), positive(pixels as nat)),
    {
        let scale: u64 = if timescale == 0 {
            1
        } else {
            timescale as u64
        };
        assert(bits_per_second * frame_duration <= 0xffff_ffff * 0xffff_ffff) by (nonlinear_arith)
            requires
                bits_per_second <= 0xffff_ffff,
                frame_duration <= 0xffff_ffff,
        ;
        let share: u64 = bits_per_second as u64 * frame_duration as u64 / scale;
        let picture_bits: u64 = if share == 0 {
            1
        } else {
            share
        };
        let area: u64 = if pixels == 0 {
            1
        } else {
            pixels
        };
        RateController { picture_bits, qp: initial_qp(picture_bits, area) }
    }

    /// The `SliceQpY` the next picture is to be coded at.
    pub fn qp(&self) -> (qp: i32)
        ensures
            qp == self.next(),
    {
        self.qp
    }

    /// The bits one picture is allowed at the configured target.
    pub fn picture_bits(&self) -> (b: u64)
        ensures
            b == self.budget(),
    {
        self.picture_bits
    }

    /// Fold in what a picture coded at the current QP actually cost, moving
    /// the QP that the next picture will use.
    pub fn observe(&mut self, coded_bits: u64)
        requires
            old(self).wf(),
        ensures
            final(self).wf(),
            final(self).budget() == old(self).budget(),
            final(self).next() == next_qp(old(self).next(), old(self).budget(), coded_bits as nat),
    {
        let coded: u64 = if coded_bits == 0 {
            1
        } else {
            coded_bits
        };
        let error_q8: i32 = log2_q8(coded) - log2_q8(self.picture_bits);
        let step: i32 = round_q8(error_q8 * 6);
        let bounded: i32 = if step < -MAX_QP_STEP {
            -MAX_QP_STEP
        } else if step > MAX_QP_STEP {
            MAX_QP_STEP
        } else {
            step
        };
        let moved: i32 = self.qp + bounded;
        self.qp = if moved < QP_MIN {
            QP_MIN
        } else if moved > QP_MAX {
            QP_MAX
        } else {
            moved
        };
    }
}

fn initial_qp(picture_bits: u64, pixels: u64) -> (qp: i32)
    requires
        picture_bits >= 1,
        pixels >= 1,
    ensures
        qp == opening_qp(picture_bits as nat, pixels as nat),
        QP_MIN <= qp <= QP_MAX,
{
    let log2_bpp_q8: i32 = log2_q8(picture_bits) - log2_q8(pixels);
    let qp: i32 = QP_AT_UNIT_BPP - round_q8(log2_bpp_q8 * 6);
    if qp < QP_MIN {
        QP_MIN
    } else if qp > QP_MAX {
        QP_MAX
    } else {
        qp
    }
}

/// A Q8 number rounded to an integer, halves away from zero.
fn round_q8(x: i32) -> (r: i32)
    requires
        -0x10_0000 <= x <= 0x10_0000,
    ensures
        r == round_away(x as int, 256),
{
    if x >= 0 {
        (x + 128) / 256
    } else {
        -((-x + 128) / 256)
    }
}

/// Base-2 logarithm of an integer in Q8 fixed point; zero counts as one.
pub fn log2_q8(x: u64) -> (r: i32)
    ensures
        r == log2_q8_of(positive(x as nat)),
        0 <= r < 64 * 256,
{
    let v: u64 = if x == 0 {
        1
    } else {
        x
    };
    let mut integer: u64 = 0;
    let mut top: u64 = v / 2;
    proof {
        lemma2_to64();
        assert(v as nat / pow2(0) == v);
        assert(top == v as nat / pow2(1));
    }
    while top > 0
        invariant
            integer <= 63,
            v >= 1,
            v as nat / pow2(integer as nat) >= 1,
            top == v as nat / pow2((integer + 1) as nat),
        decreases top,
    {
        proof {
            lemma_pow2_pos((integer + 1) as nat);
            lemma_pow2_unfold((integer + 2) as nat);
            vstd::arithmetic::div_mod::lemma_div_denominator(v as int, pow2((integer + 1) as nat) as int, 2);
            if integer == 63 {
                lemma2_to64();
                vstd::arithmetic::power2::lemma2_to64_rest();
                vstd::arithmetic::div_mod::lemma_basic_div(v as int, pow2(64) as int);
            }
        }
        integer = integer + 1;
        top = top / 2;
    }
    proof {
        let p = pow2(integer as nat);
        lemma_pow2_pos(integer as nat);
        lemma_pow2_unfold((integer + 1) as nat);
        lemma_fundamental_div_mod(v as int, p as int);
        lemma_fundamental_div_mod(v as int, (2 * p) as int);
        assert(p <= v) by (nonlinear_arith)
            requires
                v as int == p as int * (v as int / p as int) + v as int % p as int,
                v as int / p as int >= 1,
                v as int % p as int >= 0,
                p > 0,
        ;
        assert(v < 2 * p) by {
            assert((v as int % ((2 * p) as int)) < 2 * p);
            assert((2 * p) as int * 0 == 0);
        }
        lemma_width_unique(v as nat, (integer + 1) as nat);
    }
    let mantissa_q8: u64 = if integer >= 8 {
        proof {
            lemma_u64_shr_is_div(v, (integer - 8) as u64);
            lemma_pow2_adds(8, (integer - 8) as nat);
            lemma2_to64();
            lemma_pow2_pos((integer - 8) as nat);
            vstd::arithmetic::div_mod::lemma_truncate_middle(v as int, 256, pow2((integer - 8) as nat) as int);
            assert(256 * v as int / (256 * pow2((integer - 8) as nat) as int) == v as int / pow2((integer - 8) as nat) as int) by {
                vstd::arithmetic::div_mod::lemma_div_denominator(256 * v as int, 256, pow2((integer - 8) as nat) as int);
            }
        }
        v >> (integer - 8)
    } else {
        proof {
            lemma_pow2_adds((8 - integer) as nat, integer as nat);
            lemma2_to64();
            let q = pow2((8 - integer) as nat);
            let p = pow2(integer as nat);
            lemma_pow2_pos((8 - integer) as nat);
            assert(v * q < 2 * (p * q)) by (nonlinear_arith)
                requires
                    v < 2 * p,
                    q > 0,
            ;
            assert(p * q == q * p) by (nonlinear_arith);
            lemma_u64_shl_is_mul(v, (8 - integer) as u64);
            assert(256 * v as int == (v * q) * p) by (nonlinear_arith)
                requires
                    q * p == 256,
            ;
            lemma_div_multiples_vanish((v * q) as int, p as int);
        }
        v << (8 - integer)
    };
    proof {
        lemma_mantissa(v as nat);
    }
    (integer as i32) * 256 + (mantissa_q8 as i32 - 256)
}

proof fn lemma_div_multiples_vanish(x: int, d: int)
    requires
        d > 0,
    ensures
        (x * d) / d == x,
{
    vstd::arithmetic::div_mod::lemma_div_multiples_vanish(x, d);
    assert(x * d == d * x) by (nonlinear_arith);
}

/// The mantissa lies in one octave.
proof fn lemma_mantissa(x: nat)
    requires
        x >= 1,
    ensures
        256 <= 256 * x / pow2((width(x) - 1) as nat) < 512,
        pow2((width(x) - 1) as nat) <= x < 2 * pow2((width(x) - 1) as nat),
{
    lemma_width(x);
    let i = (width(x) - 1) as nat;
    lemma_pow2_unfold(width(x));
    lemma_pow2_pos(i);
    let p = pow2(i) as int;
    lemma_fundamental_div_mod((256 * x) as int, p);
    let q = (256 * x) as int / p;
    let r = (256 * x) as int % p;
    assert(256 <= q) by (nonlinear_arith)
        requires
            256 * x == p * q + r,
            0 <= r < p,
            p <= x,
            p > 0,
    ;
    assert(q < 512) by (nonlinear_arith)
        requires
            256 * x == p * q + r,
            0 <= r < p,
            x < 2 * p,
            p > 0,
    ;
}

/// The logarithm never falls as its argument rises.
pub proof fn law_log2_monotone(x: nat, y: nat)
    requires
        1 <= x <= y,
    ensures
        log2_q8_of(x) <= log2_q8_of(y),
{
    lemma_mantissa(x);
    lemma_mantissa(y);
    let i = (width(x) - 1) as nat;
    let j = (width(y) - 1) as nat;
    if i == j {
        lemma_pow2_pos(i);
        lemma_div_is_ordered((256 * x) as int, (256 * y) as int, pow2(i) as int);
    } else if i > j {
        if i > j + 1 {
            lemma_pow2_strictly_increases(j + 1, i);
        }
        lemma_pow2_unfold(j + 1);
    }
}

/// Twice as much is exactly one octave more.
pub proof fn law_log2_doubles(x: nat)
    requires
        x >= 1,
    ensures
        log2_q8_of(2 * x) == log2_q8_of(x) + 256,
{
    lemma_mantissa(x);
    let i = (width(x) - 1) as nat;
    lemma_pow2_unfold(i + 1);
    lemma_pow2_unfold(i + 2);
    lemma_pow2_pos(i);
    lemma_width_unique(2 * x, i + 2);
    vstd::arithmetic::div_mod::lemma_truncate_middle((256 * x) as int, 2, pow2(i) as int);
    assert(256 * (2 * x) as int / (2 * pow2(i)) as int == (256 * x) as int / pow2(i) as int) by {
        vstd::arithmetic::div_mod::lemma_div_denominator((256 * (2 * x)) as int, 2, pow2(i) as int);
    }
}

/// The logarithm is exact on the powers of two.
pub proof fn law_log2_exact_on_powers(k: nat)
    ensures
        log2_q8_of(pow2(k)) == 256 * k,
    decreases k,
{
    lemma2_to64();
    if k == 0 {
        lemma_width_unique(1, 1);
        assert((width(pow2(0)) - 1) as nat == 0);
        assert(256 * pow2(0) / pow2(0) == 256);
    } else {
        lemma_pow2_unfold(k);
        lemma_pow2_pos((k - 1) as nat);
        law_log2_exact_on_powers((k - 1) as nat);
        law_log2_doubles(pow2((k - 1) as nat));
    }
}

/// A picture exactly on budget moves nothing, no observation moves the QP by
/// more than one full doubling, and the QP stays codable.
pub proof fn law_one_observation_is_bounded(qp: int, picture_bits: nat, coded_bits: nat)
    requires
        QP_MIN <= qp <= QP_MAX,
        picture_bits >= 1,
    ensures
        -MAX_QP_STEP <= next_qp(qp, picture_bits, coded_bits) - qp <= MAX_QP_STEP,
        QP_MIN <= next_qp(qp, picture_bits, coded_bits) <= QP_MAX,
        next_qp(qp, picture_bits, picture_bits) == qp,
{
}

/// A costlier picture never gives a finer QP: overshooting coarsens,
/// undershooting refines.
pub proof fn law_observation_is_monotone(qp: int, picture_bits: nat, less: nat, more: nat)
    requires
        less <= more,
        picture_bits >= 1,
    ensures
        next_qp(qp, picture_bits, less) <= next_qp(qp, picture_bits, more),
        more <= picture_bits && QP_MIN <= qp <= QP_MAX ==> next_qp(qp, picture_bits, more) <= qp,
        less >= picture_bits && QP_MIN <= qp <= QP_MAX ==> next_qp(qp, picture_bits, less) >= qp,
{
    law_log2_monotone(positive(less), positive(more));
    if more <= picture_bits {
        law_log2_monotone(positive(more), picture_bits);
    }
    if less >= picture_bits {
        law_log2_monotone(picture_bits, positive(less));
    }
}

/// Twice the budget moves the QP by the full step, as far as the range allows.
pub proof fn law_doubled_cost_is_a_full_step(qp: int, picture_bits: nat)
    requires
        QP_MIN <= qp <= QP_MAX,
        picture_bits >= 1,
    ensures
        next_qp(qp, picture_bits, 2 * picture_bits) == clip3(QP_MIN as int, QP_MAX as int, qp + MAX_QP_STEP),
{
    law_log2_doubles(picture_bits);
}

/// A tighter budget never opens at a finer QP.
pub proof fn law_opening_is_monotone(tight: nat, loose: nat, pixels: nat)
    requires
        1 <= tight <= loose,
        pixels >= 1,
    ensures
        opening_qp(loose, pixels) <= opening_qp(tight, pixels),
{
    law_log2_monotone(tight, loose);
}

/// The QP after `n` pictures in a row that took `coded_bits` each.
pub open spec fn qp_after(qp: int, picture_bits: nat, coded_bits: nat, n: nat) -> int
    decreases n,
{
    if n == 0 {
        qp
    } else {
        next_qp(qp_after(qp, picture_bits, coded_bits, (n - 1) as nat), picture_bits, coded_bits)
    }
}

/// Pictures that keep taking twice their budget or more coarsen the QP by a full step each,
/// up to the coarsest, which nine of them reach from anywhere; and there it stays.
pub proof fn law_steady_overshoot_reaches_the_coarsest(qp: int, picture_bits: nat, coded_bits: nat, n: nat)
    requires
        QP_MIN <= qp <= QP_MAX,
        picture_bits >= 1,
        coded_bits >= 2 * picture_bits,
    ensures
        qp_after(qp, picture_bits, coded_bits, n) == clip3(QP_MIN as int, QP_MAX as int, qp + MAX_QP_STEP * n),
        n >= 9 ==> qp_after(qp, picture_bits, coded_bits, n) == QP_MAX,
    decreases n,
{
    if n > 0 {
        law_steady_overshoot_reaches_the_coarsest(qp, picture_bits, coded_bits, (n - 1) as nat);
        let before = qp_after(qp, picture_bits, coded_bits, (n - 1) as nat);
        law_doubled_cost_is_a_full_step(before, picture_bits);
        law_observation_is_monotone(before, picture_bits, 2 * picture_bits, coded_bits);
        law_one_observation_is_bounded(before, picture_bits, coded_bits);
    }
}

/// Between two powers of two the logarithm is a straight line: from `2^k` to `2^(k+1)` it
/// climbs from `256 * k` by 256 in proportion to what lies above `2^k`, rounded down.
pub proof fn law_log2_is_a_line_in_each_octave(x: u64, r: i32, k: nat)
    requires
        call_ensures(log2_q8, (x,), r),
        pow2(k) <= x < 2 * pow2(k),
    ensures
        256 * k <= r < 256 * (k + 1),
        (r - 256 * k) * pow2(k) <= 256 * (x - pow2(k)) < (r - 256 * k + 1) * pow2(k),
{
    lemma_pow2_pos(k);
    lemma_mantissa(x as nat);
    lemma_pow2_unfold(k + 1);
    lemma_width_unique(x as nat, k + 1);
    let p = pow2(k) as int;
    let q = (256 * x) as int / p;
    lemma_fundamental_div_mod((256 * x) as int, p);
    assert((q - 256) * p <= 256 * (x - p) < (q - 256 + 1) * p) by (nonlinear_arith)
        requires
            256 * x == p * q + (256 * x) as int % p,
            0 <= (256 * x) as int % p < p,
    ;
}

/// A budget of one bit per pixel opens at 36, and only the ratio of the two counts: every
/// doubling of the budget opens six QP finer and the inverse ratio as far on the other side
/// of 36, until the finest or the coarsest is reached. Where a doubling crosses one bit per
/// pixel, both ends may round away from it, which makes seven.
pub proof fn law_opening_is_six_a_doubling(picture_bits: nat, pixels: nat)
    requires
        picture_bits >= 1,
        pixels >= 1,
    ensures
        opening_qp(pixels, pixels) == 36,
        opening_qp(2 * picture_bits, 2 * pixels) == opening_qp(picture_bits, pixels),
        0 < opening_qp(picture_bits, pixels) < 51 ==> opening_qp(pixels, picture_bits) == min(
            51,
            72 - opening_qp(picture_bits, pixels),
        ),
        picture_bits >= pixels ==> opening_qp(2 * picture_bits, pixels) == max(0, opening_qp(picture_bits, pixels) - 6),
        2 * picture_bits <= pixels && opening_qp(picture_bits, pixels) < 51 ==> opening_qp(2 * picture_bits, pixels)
            == opening_qp(picture_bits, pixels) - 6,
        picture_bits < pixels < 2 * picture_bits ==> 6 <= opening_qp(picture_bits, pixels) - opening_qp(
            2 * picture_bits,
            pixels,
        ) <= 7,
{
    law_log2_doubles(picture_bits);
    law_log2_doubles(pixels);
    if picture_bits >= pixels {
        law_log2_monotone(pixels, picture_bits);
    } else {
        law_log2_monotone(picture_bits, pixels);
        if 2 * picture_bits <= pixels {
            law_log2_monotone(2 * picture_bits, pixels);
        } else {
            law_log2_monotone(pixels, 2 * picture_bits);
        }
    }
}

/// A controller divides the bit rate evenly over the pictures of a second, and never plans
/// less than one bit. It opens at 36 less six times the octaves that the budget lies above
/// one bit per pixel, to the nearest QP, between 0 and 51.
pub proof fn law_controller_opens_on_its_budget(
    bits_per_second: u32,
    timescale: u32,
    frame_duration: u32,
    pixels: u64,
    c: RateController,
    bits_log: i32,
    pixels_log: i32,
)
    requires
        call_ensures(RateController::new, (bits_per_second, timescale, frame_duration, pixels), c),
        c.budget() <= u64::MAX,
        call_ensures(log2_q8, (c.budget() as u64,), bits_log),
        call_ensures(log2_q8, (pixels,), pixels_log),
    ensures
        c.budget() >= 1,
        timescale >= 1 && bits_per_second * frame_duration >= timescale ==> c.budget() * timescale <= bits_per_second
            * frame_duration < (c.budget() + 1) * timescale,
        bits_per_second * frame_duration < timescale ==> c.budget() == 1,
        0 <= c.next() <= 51,
        0 < c.next() < 51 ==> abs(256 * (36 - c.next()) - 6 * (bits_log - pixels_log)) <= 128,
        c.next() == 0 ==> 6 * (bits_log - pixels_log) >= 36 * 256 - 128,
        c.next() == 51 ==> 6 * (pixels_log - bits_log) >= 15 * 256 - 128,
{
    let total = (bits_per_second * frame_duration) as int;
    assert(total >= 0) by (nonlinear_arith)
        requires
            total == bits_per_second * frame_duration,
    ;
    if timescale >= 1 {
        let t = timescale as int;
        lemma_fundamental_div_mod(total, t);
        let q = total / t;
        assert(total >= t ==> q >= 1) by (nonlinear_arith)
            requires
                total == t * q + total % t,
                0 <= total % t < t,
        ;
        assert(total < t ==> q < 1) by (nonlinear_arith)
            requires
                total == t * q + total % t,
                0 <= total % t < t,
        ;
        assert(q >= 0) by (nonlinear_arith)
            requires
                total == t * q + total % t,
                0 <= total % t < t,
                total >= 0,
        ;
        assert(q * t <= total < (q + 1) * t) by (nonlinear_arith)
            requires
                total == t * q + total % t,
                0 <= total % t < t,
        ;
    }
}

/// An observation moves the QP by six times the octaves that the picture lay over its
/// budget, to the nearest QP: six at most either way, and never below 0 or above 51.
pub proof fn law_observation_follows_the_octaves(
    c: &mut RateController,
    coded_bits: u64,
    coded_log: i32,
    budget_log: i32,
)
    requires
        old(c).wf(),
        call_ensures(RateController::observe, (c, coded_bits), ()),
        old(c).budget() <= u64::MAX,
        call_ensures(log2_q8, (coded_bits,), coded_log),
        call_ensures(log2_q8, (old(c).budget() as u64,), budget_log),
    ensures
        final(c).budget() == old(c).budget(),
        0 <= final(c).next() <= 51,
        ({
            let over: int = coded_log - budget_log;
            let move_by: int = final(c).next() - old(c).next();
            &&& -6 <= move_by <= 6
            &&& 0 < final(c).next() < 51 && abs(over) <= 256 ==> abs(256 * move_by - 6 * over) <= 128
            &&& final(c).next() == 51 && abs(over) <= 256 ==> 256 * move_by - 6 * over <= 128
            &&& final(c).next() == 0 && abs(over) <= 256 ==> 256 * move_by - 6 * over >= -128
            &&& over >= 256 ==> final(c).next() == min(51, old(c).next() + 6)
            &&& over <= -256 ==> final(c).next() == max(0, old(c).next() - 6)
        }),
{
}

/// Nothing at all counts as one bit, one pixel or one tick: the logarithm of zero is that of
/// one, and a second without ticks has one.
pub proof fn law_zero_counts_as_one(
    zero: i32,
    one: i32,
    bits_per_second: u32,
    frame_duration: u32,
    pixels: u64,
    without: RateController,
    with_one: RateController,
)
    requires
        call_ensures(log2_q8, (0u64,), zero),
        call_ensures(log2_q8, (1u64,), one),
        call_ensures(RateController::new, (bits_per_second, 0u32, frame_duration, pixels), without),
        call_ensures(RateController::new, (bits_per_second, 1u32, frame_duration, pixels), with_one),
    ensures
        zero == 0,
        one == 0,
        without.budget() == with_one.budget(),
        without.next() == with_one.next(),
{
    law_log2_exact_on_powers(0);
    lemma2_to64();
}

} // verus!
