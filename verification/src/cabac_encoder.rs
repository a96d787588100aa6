//! The CABAC arithmetic encoding engine.
//!
//! The engine keeps a sub-interval (`low`, `range`) and resolves carries
//! through a count of outstanding bits. Bits go into the caller's
//! [`BitWriter`]; the encoder starts at a byte-aligned position and, through
//! the suppression of its first bit, produces exactly the byte sequence whose
//! nine-bit preload the decoder consumes.
use vstd::prelude::*;
use vstd::arithmetic::power2::{lemma2_to64, lemma_pow2_pos, lemma_pow2_unfold, pow2};
use crate::bits::{be_bits, be_value, bit_at, lemma_be_bits_roundtrip, lemma_be_value_bound, lemma_be_value_concat};
use crate::bitwriter::BitWriter;
use crate::cabac::{
    lemma_lps_range, lemma_next_context, lps_range, next_context, ContextModel, RANGE_TAB_LPS, TRANS_IDX_LPS,
    TRANS_IDX_MPS,
};

verus! {

/// Bins coded per unrolled [`CabacEncoder::encode_bypass_run`] step.
///
/// `low + range <= 1024`, so `low * 2^n + range * value` stays below
/// `2^(n + 10)`; 16 bins leave ample headroom inside the `u32` register.
const BYPASS_RUN_CHUNK_BINS: u8 = 16;

/// The arithmetic encoding engine.
#[derive(Debug)]
pub struct CabacEncoder {
    /// `ivlLow`: low end of the current sub-interval (a 10-bit register).
    pub low: u32,
    /// `ivlCurrRange`: width of the current sub-interval (9 bits).
    pub range: u32,
    /// `firstBitFlag`: suppresses the very first bit put out.
    pub first_bit: bool,
    /// `bitsOutstanding`: pending carry-propagation bits. The count stops at
    /// its largest value, which takes more bins than any machine codes.
    pub outstanding: u64,
}

/// The engine's registers together with the bits written so far.
#[verifier::ext_equal]
pub struct Coder {
    pub low: nat,
    pub range: nat,
    pub first_bit: bool,
    pub outstanding: nat,
    pub out: Seq<bool>,
}

/// A run of `n` equal bits.
pub open spec fn repeated(b: bool, n: nat) -> Seq<bool> {
    Seq::new(n, |i: int| b)
}

/// One more bit whose value waits for a carry.
pub open spec fn one_more(outstanding: nat) -> nat {
    if outstanding < u64::MAX {
        outstanding + 1
    } else {
        outstanding
    }
}

impl Coder {
    /// The engine in its initial state, after `out` was written.
    pub open spec fn start(out: Seq<bool>) -> Coder {
        Coder { low: 0, range: 510, first_bit: true, outstanding: 0, out }
    }

    /// The interval register fits: a shift brings it to between half and full scale.
    pub open spec fn wf(self) -> bool {
        &&& 256 <= self.range <= 510
        &&& self.low + self.range <= 1024
        &&& self.outstanding <= u64::MAX
    }

    /// Bit `b` is decided: it and the outstanding bits, which are its
    /// complement, are written. The first bit of a codeword is not.
    pub open spec fn put(self, b: bool) -> Coder {
        Coder {
            first_bit: false,
            outstanding: 0,
            out: (if self.first_bit {
                self.out
            } else {
                self.out.push(b)
            }) + repeated(!b, self.outstanding),
            ..self
        }
    }

    /// A bit is left open until a carry decides it.
    pub open spec fn defer(self) -> Coder {
        Coder { outstanding: one_more(self.outstanding), ..self }
    }

    pub open spec fn with_low(self, low: int) -> Coder {
        Coder { low: low as nat, ..self }
    }

    /// The interval `[low + start, low + start + width)` is selected.
    pub open spec fn narrowed(self, start: int, width: int) -> Coder {
        Coder { low: (self.low + start) as nat, range: width as nat, ..self }
    }

    /// The top bit leaves a register whose full scale is `2 * half`, written
    /// as far as it is decided.
    pub open spec fn emit(self, half: int) -> Coder {
        if self.low >= half {
            self.with_low(self.low - half).put(true)
        } else if self.low < half / 2 {
            self.put(false)
        } else {
            self.with_low(self.low - half / 2).defer()
        }
    }

    /// One renormalization step: a bit leaves, the interval doubles.
    pub open spec fn shift(self) -> Coder {
        let c = self.emit(512);
        Coder { low: 2 * c.low, range: 2 * c.range, ..c }
    }

    /// Steps until the range is at least 256.
    pub open spec fn renorm(self) -> Coder
        decreases 512 - self.range,
    {
        if 0 < self.range < 256 {
            self.shift().renorm()
        } else {
            self
        }
    }

    /// One context-coded bin: the LPS sub-interval lies above the MPS one.
    pub open spec fn decision(self, ctx: ContextModel, bin: u8) -> Coder {
        let lps = lps_range(ctx, self.range as int);
        if bin == ctx.val_mps {
            self.narrowed(0, self.range - lps).renorm()
        } else {
            self.narrowed(self.range - lps, lps).renorm()
        }
    }

    /// One equal-probability bin.
    pub open spec fn bypass(self, bin: bool) -> Coder {
        self.with_low(2 * self.low + if bin {
            self.range as int
        } else {
            0
        }).emit(1024)
    }

    /// Equal-probability bins, in order.
    pub open spec fn bypass_all(self, bins: Seq<bool>) -> Coder
        decreases bins.len(),
    {
        if bins.len() == 0 {
            self
        } else {
            self.bypass(bins[0]).bypass_all(bins.skip(1))
        }
    }

    /// The codeword ends: the register's top bits are written, the last as a one.
    pub open spec fn flush(self) -> Coder {
        let c = Coder { range: 2, ..self }.renorm();
        let d = c.put((c.low / 512) % 2 == 1);
        Coder { out: d.out.push((c.low / 256) % 2 == 1).push(true), ..d }
    }

    /// A terminating bin: 1 takes the top two units of the range and flushes.
    pub open spec fn terminate(self, bin: bool) -> Coder {
        if bin {
            self.narrowed(self.range - 2, 2).flush()
        } else {
            self.narrowed(0, self.range - 2).renorm()
        }
    }

    /// A run of bins as one multiplication: `reg` is the interval's low end with
    /// `n` more bins below it, and its top `n` bits leave one after another.
    pub open spec fn drain(self, reg: int, n: nat) -> Coder
        decreases n,
    {
        if n == 0 {
            self.with_low(reg)
        } else {
            let half = 512 * pow2((n - 1) as nat);
            if reg >= 2 * half {
                self.put(true).drain(reg - 2 * half, (n - 1) as nat)
            } else if reg < half {
                self.put(false).drain(reg, (n - 1) as nat)
            } else {
                self.defer().drain(reg - half, (n - 1) as nat)
            }
        }
    }
}

/// The engine's registers and the bits written, as one value.
pub open spec fn coder(e: CabacEncoder, out: Seq<bool>) -> Coder {
    Coder {
        low: e.low as nat,
        range: e.range as nat,
        first_bit: e.first_bit,
        outstanding: e.outstanding as nat,
        out,
    }
}

pub proof fn lemma_shift_wf(c: Coder)
    requires
        0 < c.range < 256,
        c.low + c.range <= 1024,
        c.outstanding <= u64::MAX,
    ensures
        c.shift().range == 2 * c.range,
        c.shift().low + c.shift().range <= 1024,
        c.shift().outstanding <= u64::MAX,
{
}

pub proof fn lemma_renorm_wf(c: Coder)
    requires
        0 < c.range <= 510,
        c.low + c.range <= 1024,
        c.outstanding <= u64::MAX,
    ensures
        c.renorm().wf(),
    decreases 512 - c.range,
{
    if c.range < 256 {
        lemma_shift_wf(c);
        lemma_renorm_wf(c.shift());
    }
}

pub proof fn lemma_decision_wf(c: Coder, ctx: ContextModel, bin: u8)
    requires
        c.wf(),
        ctx.wf(),
    ensures
        c.decision(ctx, bin).wf(),
{
    lemma_lps_range(ctx, c.range as int);
    let lps = lps_range(ctx, c.range as int);
    lemma_renorm_wf(c.narrowed(0, c.range - lps));
    lemma_renorm_wf(c.narrowed(c.range - lps, lps));
}

pub proof fn lemma_bypass_wf(c: Coder, bin: bool)
    requires
        c.wf(),
    ensures
        c.bypass(bin).wf(),
        c.bypass(bin).range == c.range,
{
}

pub proof fn lemma_bypass_all_wf(c: Coder, bins: Seq<bool>)
    requires
        c.wf(),
    ensures
        c.bypass_all(bins).wf(),
        c.bypass_all(bins).range == c.range,
    decreases bins.len(),
{
    if bins.len() > 0 {
        lemma_bypass_wf(c, bins[0]);
        lemma_bypass_all_wf(c.bypass(bins[0]), bins.skip(1));
    }
}

pub proof fn lemma_terminate_wf(c: Coder, bin: bool)
    requires
        c.wf(),
    ensures
        c.terminate(bin).wf(),
{
    if bin {
        let n = c.narrowed(c.range - 2, 2);
        lemma_renorm_wf(Coder { range: 2, ..n });
    } else {
        lemma_renorm_wf(c.narrowed(0, c.range - 2));
    }
}

/// Bins coded one run after another are the concatenated run.
pub proof fn lemma_bypass_all_concat(c: Coder, a: Seq<bool>, b: Seq<bool>)
    ensures
        c.bypass_all(a + b) == c.bypass_all(a).bypass_all(b),
    decreases a.len(),
{
    if a.len() == 0 {
        assert(a + b =~= b);
    } else {
        assert((a + b).skip(1) =~= a.skip(1) + b);
        assert((a + b)[0] == a[0]);
        lemma_bypass_all_concat(c.bypass(a[0]), a.skip(1), b);
    }
}

/// The value of a run of bins splits into its first bin and the rest.
proof fn lemma_run_value(bins: Seq<bool>)
    requires
        bins.len() > 0,
    ensures
        be_value(bins) == (if bins[0] {
            pow2((bins.len() - 1) as nat)
        } else {
            0
        }) + be_value(bins.skip(1)),
        be_value(bins.skip(1)) < pow2((bins.len() - 1) as nat),
{
    let head = bins.take(1);
    assert(bins =~= head + bins.skip(1));
    lemma_be_value_concat(head, bins.skip(1));
    lemma_be_value_bound(bins.skip(1));
    assert(head.drop_last() =~= Seq::<bool>::empty());
    assert(be_value(Seq::<bool>::empty()) == 0);
    assert(be_value(head) == if bins[0] {
        1nat
    } else {
        0nat
    });
}

impl Coder {
    /// Bit `b` decided with `n` of the outstanding bits behind it.
    spec fn put_with(self, b: bool, n: nat) -> Coder {
        Coder { outstanding: n, ..self }.put(b)
    }

    /// The state but for the register, which the two engines keep apart.
    spec fn settled(self) -> Coder {
        self.with_low(0)
    }
}

/// The engine that defers carries (`c`) and the one that resolves them at once
/// (`d`, with register `reg`) agree; `ahead` is the register of `c` with the
/// remaining bins below it.
spec fn agree(c: Coder, d: Coder, reg: int, ahead: int) -> bool {
    c.settled() == d.settled() && reg == ahead
}

/// A carry that `reg` already holds is yet to reach `c`, which wrote a zero and
/// ones where `d` still defers.
spec fn late_zero(c: Coder, d: Coder, reg: int, ahead: int, scale: int) -> bool {
    &&& d.outstanding >= 1
    &&& c.settled() == d.put_with(false, (d.outstanding - 1) as nat).settled()
    &&& c.low < 512
    &&& 0 <= reg == ahead - 512 * scale
}

/// A carry that `reg` already holds is yet to reach `c`, which defers where `d`
/// wrote a one and zeros.
spec fn late_one(c: Coder, d: Coder, reg: int, ahead: int, scale: int) -> bool {
    &&& c.outstanding >= 1
    &&& d.settled() == c.put_with(true, (c.outstanding - 1) as nat).settled()
    &&& c.low < 512
    &&& 0 <= reg == ahead - 512 * scale
}

spec fn in_step(c: Coder, d: Coder, reg: int, ahead: int, scale: int) -> bool {
    ||| agree(c, d, reg, ahead)
    ||| late_zero(c, d, reg, ahead, scale)
    ||| late_one(c, d, reg, ahead, scale)
}

spec fn drain_step(d: Coder, reg: int, half: int) -> (Coder, int) {
    if reg >= 2 * half {
        (d.put(true), reg - 2 * half)
    } else if reg < half {
        (d.put(false), reg)
    } else {
        (d.defer(), reg - half)
    }
}

/// One bin keeps the two engines in step. `x` is the register of `c` with the
/// bin in it, `w` what the bins below it add at scale `p`.
proof fn lemma_in_step_one(c: Coder, d: Coder, reg: int, bin: bool, x: int, p: int, w: int)
    requires
        c.wf(),
        c.outstanding + 1 < u64::MAX,
        d.outstanding + 1 < u64::MAX,
        x == 2 * c.low + if bin {
            c.range as int
        } else {
            0
        },
        p > 0,
        0 <= w < 510 * p,
        in_step(c, d, reg, x * p + w, 2 * p),
    ensures
        ({
            let c2 = c.bypass(bin);
            let (d2, reg2) = drain_step(d, reg, 512 * p);
            in_step(c2, d2, reg2, c2.low * p + w, p) && c2.outstanding <= c.outstanding + 1 && d2.outstanding
                <= d.outstanding + 1 && d2.range == d.range
        }),
{
    let c2 = c.bypass(bin);
    let (d2, reg2) = drain_step(d, reg, 512 * p);
    let xp = x * p;
    assert(x >= 1024 ==> xp >= 1024 * p) by (nonlinear_arith)
        requires
            p > 0,
            xp == x * p,
    ;
    assert(x >= 512 ==> xp >= 512 * p) by (nonlinear_arith)
        requires
            p > 0,
            xp == x * p,
    ;
    assert(x <= 1023 ==> xp <= 1023 * p) by (nonlinear_arith)
        requires
            p > 0,
            xp == x * p,
    ;
    assert(x <= 511 ==> xp <= 511 * p) by (nonlinear_arith)
        requires
            p > 0,
            xp == x * p,
    ;
    assert(x <= 514 ==> xp <= 514 * p) by (nonlinear_arith)
        requires
            p > 0,
            xp == x * p,
    ;
    assert(x <= 1533 ==> xp <= 1533 * p) by (nonlinear_arith)
        requires
            p > 0,
            xp == x * p,
    ;
    assert((x - 512) * p == xp - 512 * p) by (nonlinear_arith)
        requires
            xp == x * p,
    ;
    assert((x - 1024) * p == xp - 1024 * p) by (nonlinear_arith)
        requires
            xp == x * p,
    ;
    assert(c2.low * p == if x >= 1024 {
        xp - 1024 * p
    } else if x < 512 {
        xp
    } else {
        xp - 512 * p
    });
    if agree(c, d, reg, xp + w) {
        assert(c.out == c.settled().out && d.out == d.settled().out);
        assert(c.outstanding == c.settled().outstanding && d.outstanding == d.settled().outstanding);
        assert(c.first_bit == c.settled().first_bit && d.first_bit == d.settled().first_bit);
        assert(c.range == c.settled().range && d.range == d.settled().range);
        if x >= 1024 || (x >= 512 && reg < 1024 * p) || (x < 512 && reg < 512 * p) {
            assert(c2.settled() =~= d2.settled());
            assert(agree(c2, d2, reg2, c2.low * p + w));
        } else if x >= 512 {
            assert(d2.settled() =~= c2.put_with(true, (c2.outstanding - 1) as nat).settled());
            assert(late_one(c2, d2, reg2, c2.low * p + w, p));
        } else {
            assert(c2.settled() =~= d2.put_with(false, (d2.outstanding - 1) as nat).settled());
            assert(late_zero(c2, d2, reg2, c2.low * p + w, p));
        }
    } else if late_zero(c, d, reg, xp + w, 2 * p) {
        let e = d.put_with(false, (d.outstanding - 1) as nat);
        assert(c.out == e.settled().out && c.outstanding == e.settled().outstanding && c.first_bit
            == e.settled().first_bit && c.range == e.settled().range) by {
            assert(c.out == c.settled().out && c.outstanding == c.settled().outstanding && c.first_bit
                == c.settled().first_bit && c.range == c.settled().range);
        }
        assert(x > 514);
        if x >= 1024 {
            if reg < 512 * p {
                assert(c2.settled() =~= d2.settled());
                assert(agree(c2, d2, reg2, c2.low * p + w));
            } else {
                assert(c2.settled() =~= d2.put_with(false, (d2.outstanding - 1) as nat).settled());
                assert(late_zero(c2, d2, reg2, c2.low * p + w, p));
            }
        } else {
            assert(d2.settled() =~= c2.put_with(true, (c2.outstanding - 1) as nat).settled());
            assert(late_one(c2, d2, reg2, c2.low * p + w, p));
        }
    } else {
        let e = c.put_with(true, (c.outstanding - 1) as nat);
        assert(d.out == e.settled().out && d.outstanding == e.settled().outstanding && d.first_bit
            == e.settled().first_bit && d.range == e.settled().range) by {
            assert(d.out == d.settled().out && d.outstanding == d.settled().outstanding && d.first_bit
                == d.settled().first_bit && d.range == d.settled().range);
        }
        assert(x > 514);
        if x >= 1024 {
            if reg < 512 * p {
                assert(c2.settled() =~= d2.settled());
                assert(agree(c2, d2, reg2, c2.low * p + w));
            } else {
                assert(c2.settled() =~= d2.put_with(false, (d2.outstanding - 1) as nat).settled());
                assert(late_zero(c2, d2, reg2, c2.low * p + w, p));
            }
        } else {
            assert(d2.settled() =~= c2.put_with(true, (c2.outstanding - 1) as nat).settled());
            assert(late_one(c2, d2, reg2, c2.low * p + w, p));
        }
    }
}

/// Carries resolved by arithmetic and carries resolved by deferral write the
/// same bits and leave the same registers.
proof fn lemma_in_step(c: Coder, d: Coder, reg: int, bins: Seq<bool>)
    requires
        c.wf(),
        c.outstanding + bins.len() < u64::MAX,
        d.outstanding + bins.len() < u64::MAX,
        in_step(c, d, reg, (c.low * pow2(bins.len()) + c.range * be_value(bins)) as int, pow2(bins.len()) as int),
    ensures
        c.bypass_all(bins) == d.drain(reg, bins.len()),
    decreases bins.len(),
{
    let n = bins.len();
    let r = c.range as int;
    if n == 0 {
        lemma2_to64();
        assert(be_value(bins) == 0);
        assert(c.low * 1 + r * 0 == c.low) by (nonlinear_arith);
        assert(agree(c, d, reg, c.low as int));
        assert(c.settled().out == d.settled().out && c.settled().outstanding == d.settled().outstanding
            && c.settled().range == d.settled().range && c.settled().first_bit == d.settled().first_bit);
        assert(c.bypass_all(bins) =~= d.drain(reg, 0));
    } else {
        let m = (n - 1) as nat;
        let p = pow2(m) as int;
        let rest = bins.skip(1);
        let v = be_value(rest) as int;
        let b: int = if bins[0] {
            1
        } else {
            0
        };
        lemma_run_value(bins);
        lemma_pow2_unfold(n);
        lemma_pow2_pos(m);
        let x = 2 * c.low + b * r;
        assert(c.low * (2 * p) + r * be_value(bins) == x * p + r * v) by (nonlinear_arith)
            requires
                be_value(bins) as int == b * p + v,
                x == 2 * c.low + b * r,
        ;
        assert(0 <= r * v < 510 * p) by (nonlinear_arith)
            requires
                0 <= v <= p - 1,
                0 < r <= 510,
        ;
        let c2 = c.bypass(bins[0]);
        lemma_bypass_wf(c, bins[0]);
        let (d2, reg2) = drain_step(d, reg, 512 * p);
        lemma_in_step_one(c, d, reg, bins[0], x, p, r * v);
        lemma_in_step(c2, d2, reg2, rest);
        assert(d.drain(reg, n) == d2.drain(reg2, m));
    }
}

/// A run of bins coded as one multiplication is the run coded bin by bin.
pub proof fn lemma_run_is_bin_at_a_time(c: Coder, bins: Seq<bool>)
    requires
        c.wf(),
        c.outstanding + bins.len() < u64::MAX,
    ensures
        c.drain((c.low * pow2(bins.len()) + c.range * be_value(bins)) as int, bins.len()) == c.bypass_all(bins),
{
    lemma_in_step(c, c, (c.low * pow2(bins.len()) + c.range * be_value(bins)) as int, bins);
}

impl Default for CabacEncoder {
    fn default() -> (e: Self)
        ensures
            forall|out: Seq<bool>| #[trigger] coder(e, out) == Coder::start(out),
    {
        CabacEncoder::new()
    }
}

impl CabacEncoder {
    /// The registers hold a valid interval.
    pub open spec fn wf(&self) -> bool {
        256 <= self.range <= 510 && self.low + self.range <= 1024
    }

    /// The engine at the start of a codeword.
    #[must_use]
    pub fn new() -> (e: Self)
        ensures
            e.wf(),
            forall|out: Seq<bool>| #[trigger] coder(e, out) == Coder::start(out),
    {
        CabacEncoder { low: 0, range: 510, first_bit: true, outstanding: 0 }
    }

    /// Re-arm the engine after PCM sample data, exactly like a slice start.
    pub fn reinit(&mut self)
        ensures
            final(self).wf(),
            forall|out: Seq<bool>| #[trigger] coder(*final(self), out) == Coder::start(out),
    {
        *self = CabacEncoder::new();
    }

    /// Carry-over control: bit `b` is decided, and the outstanding bits with it.
    fn put_bit(&mut self, w: &mut BitWriter, b: bool)
        requires
            old(w).wf(),
        ensures
            final(w).wf(),
            coder(*final(self), final(w)@) == coder(*old(self), old(w)@).put(b),
    {
        let ghost start = coder(*self, w@);
        let bit: u8 = if b {
            1
        } else {
            0
        };
        if self.first_bit {
            self.first_bit = false;
        } else {
            w.put_bit(bit);
        }
        let ghost lead = w@;
        let ghost total = self.outstanding;
        assert(lead =~= lead + repeated(!b, 0));
        while self.outstanding > 0
            invariant
                w.wf(),
                self.outstanding <= total,
                bit == if b {
                    1u8
                } else {
                    0u8
                },
                self.low == start.low,
                self.range == start.range,
                !self.first_bit,
                w@ == lead + repeated(!b, (total - self.outstanding) as nat),
            decreases self.outstanding,
        {
            w.put_bit(1 - bit);
            self.outstanding = self.outstanding - 1;
            assert(w@ =~= lead + repeated(!b, (total - self.outstanding) as nat));
        }
        assert(coder(*self, w@) =~= start.put(b));
    }

    /// A bit is left open until a carry decides it.
    fn defer_bit(&mut self)
        ensures
            forall|out: Seq<bool>|
                #[trigger] coder(*final(self), out) == coder(*old(self), out).defer(),
    {
        if self.outstanding < u64::MAX {
            self.outstanding = self.outstanding + 1;
        }
    }

    /// Renormalization: bits leave until the range is at least 256.
    fn renorm(&mut self, w: &mut BitWriter)
        requires
            old(w).wf(),
            0 < old(self).range <= 510,
            old(self).low + old(self).range <= 1024,
        ensures
            final(w).wf(),
            final(self).wf(),
            coder(*final(self), final(w)@) == coder(*old(self), old(w)@).renorm(),
    {
        let ghost goal = coder(*self, w@).renorm();
        while self.range < 256
            invariant
                w.wf(),
                0 < self.range <= 510,
                self.low + self.range <= 1024,
                coder(*self, w@).renorm() == goal,
            decreases 512 - self.range,
        {
            let ghost before = coder(*self, w@);
            proof {
                lemma_shift_wf(before);
            }
            if self.low >= 512 {
                self.low = self.low - 512;
                self.put_bit(w, true);
            } else if self.low < 256 {
                self.put_bit(w, false);
            } else {
                self.low = self.low - 256;
                self.defer_bit();
                assert(coder(*self, w@) == before.with_low(before.low - 256).defer());
            }
            assert(coder(*self, w@) == before.emit(512));
            self.range = self.range * 2;
            self.low = self.low * 2;
            assert(coder(*self, w@) =~= before.shift());
        }
    }

    /// One context-coded bin. The context model moves as the decoder's does.
    pub fn encode_decision(&mut self, w: &mut BitWriter, ctx: &mut ContextModel, bin: u8)
        requires
            old(self).wf(),
            old(w).wf(),
            old(ctx).wf(),
        ensures
            final(self).wf(),
            final(w).wf(),
            final(ctx).wf(),
            coder(*final(self), final(w)@) == coder(*old(self), old(w)@).decision(*old(ctx), bin),
            *final(ctx) == next_context(*old(ctx), bin),
    {
        let ghost before = coder(*self, w@);
        let ghost model = *ctx;
        let q_range_idx: usize = ((self.range / 64) % 4) as usize;
        proof {
            lemma_lps_range(model, self.range as int);
            lemma_next_context(model, bin);
        }
        let lps: u32 = RANGE_TAB_LPS[ctx.p_state_idx as usize * 4 + q_range_idx] as u32;
        self.range = self.range - lps;
        if bin != ctx.val_mps {
            // The LPS sub-interval sits above the MPS one.
            self.low = self.low + self.range;
            self.range = lps;
            if ctx.p_state_idx == 0 {
                ctx.val_mps = 1 - ctx.val_mps;
            }
            ctx.p_state_idx = TRANS_IDX_LPS[ctx.p_state_idx as usize];
            assert(coder(*self, w@) =~= before.narrowed(before.range - lps, lps as int));
        } else {
            ctx.p_state_idx = TRANS_IDX_MPS[ctx.p_state_idx as usize];
            assert(coder(*self, w@) =~= before.narrowed(0, before.range - lps));
        }
        self.renorm(w);
    }

    /// One equal-probability bin; any `bin` but 0 is a one.
    pub fn encode_bypass(&mut self, w: &mut BitWriter, bin: u8)
        requires
            old(self).wf(),
            old(w).wf(),
        ensures
            final(self).wf(),
            final(w).wf(),
            coder(*final(self), final(w)@) == coder(*old(self), old(w)@).bypass(bin != 0),
    {
        let ghost before = coder(*self, w@);
        let ghost next = before.with_low(2 * before.low + if bin != 0 {
            before.range as int
        } else {
            0
        });
        proof {
            lemma_bypass_wf(before, bin != 0);
        }
        self.low = self.low * 2;
        if bin != 0 {
            self.low = self.low + self.range;
        }
        assert(coder(*self, w@) =~= next);
        if self.low >= 1024 {
            self.low = self.low - 1024;
            self.put_bit(w, true);
        } else if self.low < 512 {
            self.put_bit(w, false);
        } else {
            self.low = self.low - 512;
            self.defer_bit();
            assert(coder(*self, w@) == next.with_low(next.low - 512).defer());
        }
        assert(coder(*self, w@) == before.bypass(bin != 0));
    }

    /// A run of `n` bypass bins at once, most significant first.
    ///
    /// Unrolled over `n` bins, `low = low * 2 + bin * range` is the single step
    /// `low = low * 2^n + range * value`, after which the top `n` bits leave.
    /// The two ways agree bit for bit and leave identical registers.
    pub fn encode_bypass_run(&mut self, w: &mut BitWriter, value: u32, n: u8)
        requires
            old(self).wf(),
            old(w).wf(),
            n <= 32,
        ensures
            final(self).wf(),
            final(w).wf(),
            coder(*final(self), final(w)@) == coder(*old(self), old(w)@).bypass_all(be_bits(value as nat, n as nat)),
    {
        let ghost start = coder(*self, w@);
        let ghost bins = be_bits(value as nat, n as nat);
        let mut left: u8 = n;
        proof {
            assert(bins.take(0) =~= Seq::<bool>::empty());
        }
        while left > 0
            invariant
                left <= n <= 32,
                self.wf(),
                w.wf(),
                bins == be_bits(value as nat, n as nat),
                coder(*self, w@) == start.bypass_all(bins.take(n - left)),
            decreases left,
        {
            let ghost done = n - left;
            let ghost mid = coder(*self, w@);
            if left == 1 || self.outstanding >= u64::MAX - 32 {
                left = left - 1;
                proof {
                    lemma2_to64();
                }
                let bit: u8 = low_field(value, left, 1) as u8;
                self.encode_bypass(w, bit);
                proof {
                    assert(bins.take(done + 1) =~= bins.take(done) + bins.subrange(done, done + 1));
                    lemma_bypass_all_concat(start, bins.take(done), bins.subrange(done, done + 1));
                    lemma_field_bits(value, left, 1, bit as u32);
                    let one = bins.subrange(done, done + 1);
                    assert(one =~= be_bits(bit as nat, 1)) by {
                        assert(one[0] == bit_at(value as nat, left as nat));
                        assert(be_bits(bit as nat, 1)[0] == bit_at(value as nat, left as nat));
                    }
                    assert(be_bits(bit as nat, 1)[0] == (bit == 1)) by {
                        crate::bits::lemma_bit_at_zero(bit as nat);
                    }
                    assert(one.skip(1) =~= Seq::<bool>::empty());
                    assert(mid.bypass_all(one) == mid.bypass(one[0]).bypass_all(one.skip(1)));
                }
            } else {
                let take: u8 = if left < BYPASS_RUN_CHUNK_BINS {
                    left
                } else {
                    BYPASS_RUN_CHUNK_BINS
                };
                left = left - take;
                let chunk: u32 = low_field(value, left, take);
                self.encode_bypass_chunk(w, chunk, take);
                proof {
                    let part = bins.subrange(done, done + take);
                    assert(bins.take(done + take) =~= bins.take(done) + part);
                    lemma_bypass_all_concat(start, bins.take(done), part);
                    lemma_field_bits(value, left, take, chunk);
                    assert(part =~= be_bits(chunk as nat, take as nat));
                }
            }
        }
        assert(bins.take(n as int) =~= bins);
    }

    /// One unrolled step over `n <= BYPASS_RUN_CHUNK_BINS` bins.
    fn encode_bypass_chunk(&mut self, w: &mut BitWriter, value: u32, n: u8)
        requires
            old(self).wf(),
            old(w).wf(),
            n <= BYPASS_RUN_CHUNK_BINS,
            value < pow2(n as nat),
            old(self).outstanding < u64::MAX - 32,
        ensures
            final(self).wf(),
            final(w).wf(),
            coder(*final(self), final(w)@) == coder(*old(self), old(w)@).bypass_all(be_bits(value as nat, n as nat)),
    {
        let ghost before = coder(*self, w@);
        let ghost bins = be_bits(value as nat, n as nat);
        let ghost goal = before.bypass_all(bins);
        proof {
            lemma_be_bits_roundtrip(value as nat, n as nat);
            lemma_run_is_bin_at_a_time(before, bins);
            lemma_bypass_all_wf(before, bins);
            lemma2_to64();
            lemma_pow2_le_16(n as nat);
            let p = pow2(n as nat) as int;
            assert(self.low * p + self.range * value < 1024 * p) by (nonlinear_arith)
                requires
                    self.low + self.range <= 1024,
                    self.range > 0,
                    value < p,
            ;
            assert(self.low * p <= 1024 * p) by (nonlinear_arith)
                requires
                    self.low <= 1024,
                    p > 0,
            ;
            assert(self.range * value <= 1024 * p) by (nonlinear_arith)
                requires
                    self.range <= 1024,
                    value < p,
            ;
            assert(self.low * p >= 0 && self.range * value >= 0) by (nonlinear_arith)
                requires
                    p > 0,
            ;
        }
        let scale: u32 = power_of_two(n);
        self.low = self.low * scale + self.range * value;
        let mut i: u8 = n;
        assert(coder(*self, w@).drain(self.low as int, n as nat) == goal) by {
            lemma_drain_ignores_low(before, coder(*self, w@), self.low as int, n as nat);
        }
        while i > 0
            invariant
                i <= n <= BYPASS_RUN_CHUNK_BINS,
                w.wf(),
                goal.wf(),
                self.low < 1024 * pow2(i as nat),
                coder(*self, w@).drain(self.low as int, i as nat) == goal,
            decreases i,
        {
            i = i - 1;
            let ghost c = coder(*self, w@);
            proof {
                lemma_pow2_unfold((i + 1) as nat);
                lemma_pow2_le_16(i as nat);
            }
            let half: u32 = 512 * power_of_two(i);
            if self.low >= 2 * half {
                self.low = self.low - 2 * half;
                self.put_bit(w, true);
            } else if self.low < half {
                self.put_bit(w, false);
            } else {
                self.low = self.low - half;
                self.defer_bit();
                assert(coder(*self, w@) == c.with_low(c.low - half).defer());
            }
            proof {
                let (d, reg) = drain_step(c, c.low as int, half as int);
                lemma_drain_ignores_low(d, coder(*self, w@), reg, i as nat);
            }
        }
        assert(coder(*self, w@) =~= goal);
    }

    /// Most-significant-first multi-bit bypass.
    pub fn encode_bypass_bits(&mut self, w: &mut BitWriter, value: u32, n: u8)
        requires
            old(self).wf(),
            old(w).wf(),
            n <= 32,
        ensures
            final(self).wf(),
            final(w).wf(),
            coder(*final(self), final(w)@) == coder(*old(self), old(w)@).bypass_all(be_bits(value as nat, n as nat)),
    {
        self.encode_bypass_run(w, value, n);
    }

    /// A terminating bin: `end_of_slice_segment_flag`, `end_of_subset_one_bit`
    /// or `pcm_flag`. A one ends the codeword and flushes; the last bit written
    /// is then the stop bit, and the writer is ready for byte-aligned raw data
    /// or the slice end.
    pub fn encode_terminate(&mut self, w: &mut BitWriter, bin: u8)
        requires
            old(self).wf(),
            old(w).wf(),
        ensures
            final(self).wf(),
            final(w).wf(),
            coder(*final(self), final(w)@) == coder(*old(self), old(w)@).terminate(bin != 0),
    {
        let ghost before = coder(*self, w@);
        self.range = self.range - 2;
        if bin != 0 {
            self.low = self.low + self.range;
            proof {
                let n = before.narrowed(before.range - 2, 2);
                assert(Coder { range: 2, ..coder(*self, w@) } =~= n);
            }
            self.flush(w);
        } else {
            assert(coder(*self, w@) =~= before.narrowed(0, before.range - 2));
            self.renorm(w);
        }
    }

    fn flush(&mut self, w: &mut BitWriter)
        requires
            old(w).wf(),
            old(self).low + 2 <= 1024,
        ensures
            final(self).wf(),
            final(w).wf(),
            coder(*final(self), final(w)@) == coder(*old(self), old(w)@).flush(),
    {
        let ghost before = coder(*self, w@);
        self.range = 2;
        assert(coder(*self, w@) =~= Coder { range: 2, ..before });
        self.renorm(w);
        self.put_bit(w, (self.low / 512) % 2 == 1);
        // The trailing one is the last bit that the decoder takes in.
        w.put_bit(((self.low / 256) % 2) as u8);
        w.put_bit(1);
        assert(coder(*self, w@) =~= before.flush());
    }
}

/// The register that a drain starts from does not depend on the one kept.
proof fn lemma_drain_ignores_low(c: Coder, d: Coder, reg: int, n: nat)
    requires
        c.settled() == d.settled(),
    ensures
        c.drain(reg, n) == d.drain(reg, n),
    decreases n,
{
    assert(c.settled().out == d.settled().out && c.settled().outstanding == d.settled().outstanding
        && c.settled().range == d.settled().range && c.settled().first_bit == d.settled().first_bit);
    if n == 0 {
        assert(c.with_low(reg) =~= d.with_low(reg));
    } else {
        let half = 512 * pow2((n - 1) as nat);
        let (c2, reg2) = drain_step(c, reg, half as int);
        let (d2, reg3) = drain_step(d, reg, half as int);
        assert(c2.settled() =~= d2.settled());
        lemma_drain_ignores_low(c2, d2, reg2, (n - 1) as nat);
    }
}

proof fn lemma_pow2_le_16(n: nat)
    requires
        n <= 16,
    ensures
        1 <= pow2(n) <= 65536,
{
    lemma2_to64();
    lemma_pow2_pos(n);
    if n < 16 {
        vstd::arithmetic::power2::lemma_pow2_strictly_increases(n, 16);
    }
}

/// `2^n` for the small exponents of a bypass chunk.
fn power_of_two(n: u8) -> (p: u32)
    requires
        n <= 16,
    ensures
        p == pow2(n as nat),
{
    proof {
        lemma_pow2_le_16(n as nat);
        vstd::bits::lemma_u32_shl_is_mul(1, n as u32);
    }
    1u32 << (n as u32)
}

/// The `take` bits of `value` that start at bit `shift`.
fn low_field(value: u32, shift: u8, take: u8) -> (r: u32)
    requires
        shift + take <= 32,
        1 <= take <= 16,
    ensures
        r as nat == (value as nat / pow2(shift as nat)) % pow2(take as nat),
        r < pow2(take as nat),
{
    proof {
        vstd::bits::lemma_u32_shr_is_div(value, shift as u32);
        lemma_pow2_pos(take as nat);
    }
    (value >> (shift as u32)) % power_of_two(take)
}

/// The digits of a field are the digits of the value at its place.
proof fn lemma_field_bits(value: u32, shift: u8, take: u8, field: u32)
    requires
        shift + take <= 32,
        field as nat == (value as nat / pow2(shift as nat)) % pow2(take as nat),
    ensures
        forall|j: int|
            0 <= j < take ==> #[trigger] be_bits(field as nat, take as nat)[j] == bit_at(
                value as nat,
                (shift + take - 1 - j) as nat,
            ),
{
    let v = value as nat;
    assert forall|j: int| 0 <= j < take implies #[trigger] be_bits(field as nat, take as nat)[j] == bit_at(
        v,
        (shift + take - 1 - j) as nat,
    ) by {
        let k = (take - 1 - j) as nat;
        crate::bits::lemma_bit_at_mod(v / pow2(shift as nat), take as nat, k);
        crate::bits::lemma_bit_at_shift(v, shift as nat, k);
    }
}

} // verus!
