//! What the arithmetic encoder and decoder are to each other: every sequence
//! of bins that is encoded decodes to itself.
//!
//! Between the two stands the coded interval as a pair of exact numbers. The
//! encoder's written bits, its outstanding bits and its register denote the low
//! end of that interval; the decoder's offset is the distance of the codeword
//! from it.
use vstd::prelude::*;
use vstd::arithmetic::power2::{lemma2_to64, lemma_pow2_pos, lemma_pow2_unfold, pow2};
use crate::bins::{contexts_after, contexts_wf, encode_bin, encode_bins, Bin};
use crate::bits::{be_value, lemma_be_value_concat};
use crate::cabac::{lemma_lps_range, lemma_next_context, lps_range, ContextModel};
use crate::cabac_decoder::Decoder;
use crate::cabac_encoder::{
    lemma_bypass_wf, lemma_decision_wf, lemma_renorm_wf, lemma_shift_wf, lemma_terminate_wf, repeated, Coder,
};

verus! {

/// The decoder after a bin, if it yields that bin.
pub open spec fn decode_bin(d: Decoder, ctxs: Seq<ContextModel>, b: Bin) -> Option<Decoder> {
    match b {
        Bin::Decision { ctx, bin } => if d.decision_bin(ctxs[ctx as int]) == bin {
            d.decision(ctxs[ctx as int])
        } else {
            None
        },
        Bin::Bypass { bit } => if d.bypass_bin() == bit {
            d.bypass()
        } else {
            None
        },
        Bin::Terminate { end } => if d.terminate_bin() == end {
            d.terminate()
        } else {
            None
        },
    }
}

/// The decoder after a sequence of bins, if it yields exactly those bins.
pub open spec fn decode_bins(d: Decoder, ctxs: Seq<ContextModel>, bins: Seq<Bin>) -> Option<Decoder>
    decreases bins.len(),
{
    if bins.len() == 0 {
        Some(d)
    } else {
        match decode_bin(d, ctxs, bins[0]) {
            Some(e) => decode_bins(e, contexts_after(ctxs, bins[0]), bins.skip(1)),
            None => None,
        }
    }
}

/// The bins of one codeword: a terminating one stands at the end and only there.
pub open spec fn codeword(bins: Seq<Bin>, contexts: nat) -> bool {
    &&& bins.len() > 0
    &&& bins.last() == Bin::Terminate { end: true }
    &&& forall|i: int| 0 <= i < bins.len() - 1 ==> #[trigger] bins[i] != Bin::Terminate { end: true }
    &&& forall|i: int|
        0 <= i < bins.len() ==> (#[trigger] bins[i] matches Bin::Decision { ctx, bin } ==> 0 <= ctx < contexts && bin
            <= 1)
}

/// The interval `[code, code + range)` at a scale of `2^-shifts`.
pub struct Interval {
    pub code: nat,
    pub shifts: nat,
    pub range: nat,
}

impl Interval {
    pub open spec fn doubled(self) -> Interval {
        Interval { code: 2 * self.code, shifts: self.shifts + 1, range: 2 * self.range }
    }

    pub open spec fn renorm(self) -> Interval
        decreases 512 - self.range,
    {
        if 0 < self.range < 256 {
            self.doubled().renorm()
        } else {
            self
        }
    }

    pub open spec fn narrowed(self, start: int, width: int) -> Interval {
        Interval { code: (self.code + start) as nat, range: width as nat, ..self }
    }

    /// The sub-interval of a bin, before it is scaled up.
    pub open spec fn selected(self, ctxs: Seq<ContextModel>, b: Bin) -> Interval {
        match b {
            Bin::Decision { ctx, bin } => {
                let lps = lps_range(ctxs[ctx as int], self.range as int);
                if bin == ctxs[ctx as int].val_mps {
                    self.narrowed(0, self.range - lps)
                } else {
                    self.narrowed(self.range - lps, lps)
                }
            },
            Bin::Bypass { bit } => Interval {
                code: 2 * self.code + if bit {
                    self.range
                } else {
                    0
                },
                shifts: self.shifts + 1,
                range: self.range,
            },
            Bin::Terminate { end } => if end {
                self.narrowed(self.range - 2, 2)
            } else {
                self.narrowed(0, self.range - 2)
            },
        }
    }
}

/// The sub-interval of the last bin of a codeword.
pub open spec fn final_interval(iv: Interval, ctxs: Seq<ContextModel>, bins: Seq<Bin>) -> Interval
    decreases bins.len(),
{
    if bins.len() <= 1 {
        iv.selected(ctxs, bins[0])
    } else {
        final_interval(iv.selected(ctxs, bins[0]).renorm(), contexts_after(ctxs, bins[0]), bins.skip(1))
    }
}

/// How many bits of the codeword of `bins` are decided by shifts of the interval.
pub open spec fn codeword_shifts(ctxs: Seq<ContextModel>, bins: Seq<Bin>) -> nat {
    final_interval(Interval { code: 0, shifts: 0, range: 510 }, ctxs, bins).shifts
}

/// The encoder, started after `base` was written, denotes the interval.
spec fn denotes(c: Coder, base: Seq<bool>, iv: Interval) -> bool {
    let rest = c.out.skip(base.len() as int);
    let p = pow2(c.outstanding) as int;
    &&& c.out.len() >= base.len()
    &&& c.out.take(base.len() as int) == base
    &&& c.first_bit ==> rest.len() == 0
    &&& iv.shifts == c.outstanding + if c.first_bit {
        0
    } else {
        1 + rest.len()
    }
    &&& iv.range == c.range
    &&& iv.code == be_value(rest) * (1024 * p) + (p - 1) * 512 + c.low
    &&& iv.code + iv.range <= 510 * pow2(iv.shifts)
}

proof fn lemma_repeated_value(b: bool, n: nat)
    ensures
        be_value(repeated(b, n)) == if b {
            (pow2(n) - 1) as nat
        } else {
            0
        },
    decreases n,
{
    if n == 0 {
        lemma2_to64();
    } else {
        assert(repeated(b, n).drop_last() =~= repeated(b, (n - 1) as nat));
        lemma_repeated_value(b, (n - 1) as nat);
        lemma_pow2_unfold(n);
        lemma_pow2_pos((n - 1) as nat);
    }
}

/// A decided bit with the complemented outstanding bits behind it.
proof fn lemma_put_value(c: Coder, base: Seq<bool>, b: bool)
    requires
        c.out.len() >= base.len(),
        c.out.take(base.len() as int) == base,
        c.first_bit ==> c.out.len() == base.len() && !b,
    ensures
        ({
            let d = c.put(b);
            let rest = c.out.skip(base.len() as int);
            let rest2 = d.out.skip(base.len() as int);
            let p = pow2(c.outstanding) as int;
            &&& d.out.len() >= base.len()
            &&& d.out.take(base.len() as int) == base
            &&& rest2.len() == rest.len() + c.outstanding + if c.first_bit {
                0int
            } else {
                1int
            }
            &&& be_value(rest2) as int == be_value(rest) * (2 * p) + if b {
                p
            } else {
                p - 1
            }
        }),
{
    let d = c.put(b);
    let o = c.outstanding;
    let rest = c.out.skip(base.len() as int);
    let rest2 = d.out.skip(base.len() as int);
    let p = pow2(o) as int;
    let tail = repeated(!b, o);
    lemma_repeated_value(!b, o);
    lemma_pow2_pos(o);
    assert(d.out.take(base.len() as int) =~= base);
    if c.first_bit {
        assert(rest =~= Seq::<bool>::empty());
        assert(rest2 =~= tail);
        assert(be_value(rest) == 0);
        assert(0 * (2 * p) == 0);
    } else {
        let head = rest.push(b);
        assert(rest2 =~= head + tail);
        lemma_be_value_concat(head, tail);
        assert(head.drop_last() =~= rest);
        let v = be_value(rest) as int;
        let bit: int = if b {
            1
        } else {
            0
        };
        assert(be_value(head) == 2 * v + bit);
        assert((2 * v + bit) * p == v * (2 * p) + bit * p) by (nonlinear_arith);
    }
}

/// A bit that leaves the register keeps the number that the encoder denotes.
proof fn lemma_emit_denotes(c: Coder, base: Seq<bool>, iv: Interval)
    requires
        c.out.len() >= base.len(),
        c.out.take(base.len() as int) == base,
        c.first_bit ==> c.out.len() == base.len(),
        c.low < 2048,
        c.outstanding < u64::MAX,
        iv.shifts == c.outstanding + 1 + if c.first_bit {
            0int
        } else {
            1 + c.out.len() - base.len()
        },
        iv.range == c.range,
        iv.code as int == be_value(c.out.skip(base.len() as int)) * (2048 * pow2(c.outstanding)) + (pow2(c.outstanding)
            - 1) * 1024 + c.low,
        iv.code + iv.range <= 510 * pow2(iv.shifts),
    ensures
        denotes(c.emit(1024), base, iv),
{
    let d = c.emit(1024);
    let o = c.outstanding;
    let rest = c.out.skip(base.len() as int);
    let v = be_value(rest) as int;
    let p = pow2(o) as int;
    lemma_pow2_pos(o);
    lemma_pow2_unfold(o + 1);
    lemma2_to64();
    if c.first_bit {
        assert(rest =~= Seq::<bool>::empty());
        assert(v == 0);
        assert(iv.shifts == o + 1);
    }
    if c.low >= 1024 {
        assert(!c.first_bit) by {
            if c.first_bit {
                assert(0 * (2048 * p) == 0);
                assert(iv.code >= 1024 * p);
            }
        }
        let e = c.with_low(c.low - 1024);
        lemma_put_value(e, base, true);
        assert((v * (2 * p) + p) * 1024 == v * (2048 * p) + 1024 * p) by (nonlinear_arith);
    } else if c.low < 512 {
        lemma_put_value(c, base, false);
        assert((v * (2 * p) + (p - 1)) * 1024 == v * (2048 * p) + 1024 * (p - 1)) by (nonlinear_arith);
    } else {
        assert(v * (1024 * (2 * p)) == v * (2048 * p)) by (nonlinear_arith);
    }
}

proof fn lemma_shift_denotes(c: Coder, base: Seq<bool>, iv: Interval)
    requires
        0 < c.range < 256,
        c.low + c.range <= 1024,
        denotes(c, base, iv),
        c.outstanding < u64::MAX,
    ensures
        denotes(c.shift(), base, iv.doubled()),
{
    let d = Coder { low: 2 * c.low, range: 2 * c.range, ..c };
    assert(c.shift() =~= d.emit(1024));
    let v = be_value(c.out.skip(base.len() as int)) as int;
    let p = pow2(c.outstanding) as int;
    assert(2 * (v * (1024 * p)) == v * (2048 * p)) by (nonlinear_arith);
    lemma_pow2_unfold(iv.shifts + 1);
    lemma_emit_denotes(d, base, iv.doubled());
}

/// Scaling up keeps the number that the encoder denotes.
proof fn lemma_renorm_denotes(c: Coder, base: Seq<bool>, iv: Interval)
    requires
        0 < c.range <= 510,
        c.low + c.range <= 1024,
        denotes(c, base, iv),
        c.outstanding <= iv.shifts,
        iv.renorm().shifts < u64::MAX,
    ensures
        denotes(c.renorm(), base, iv.renorm()),
        iv.shifts <= iv.renorm().shifts,
    decreases 512 - c.range,
{
    if c.range < 256 {
        lemma_interval_shifts(iv);
        lemma_interval_shifts(iv.doubled());
        lemma_shift_wf(c);
        lemma_shift_denotes(c, base, iv);
        lemma_renorm_denotes(c.shift(), base, iv.doubled());
    }
}

proof fn lemma_interval_shifts(iv: Interval)
    ensures
        iv.shifts <= iv.renorm().shifts,
        0 < iv.range < 256 ==> iv.doubled().shifts <= iv.renorm().shifts,
    decreases 512 - iv.range,
{
    if 0 < iv.range < 256 {
        lemma_interval_shifts(iv.doubled());
    }
}

proof fn lemma_final_shifts(iv: Interval, ctxs: Seq<ContextModel>, bins: Seq<Bin>)
    requires
        bins.len() > 0,
    ensures
        iv.selected(ctxs, bins[0]).shifts <= final_interval(iv, ctxs, bins).shifts,
        bins.len() > 1 ==> iv.selected(ctxs, bins[0]).renorm().shifts <= final_interval(iv, ctxs, bins).shifts,
    decreases bins.len(),
{
    let next = iv.selected(ctxs, bins[0]).renorm();
    lemma_interval_shifts(iv.selected(ctxs, bins[0]));
    if bins.len() > 1 {
        lemma_final_shifts(next, contexts_after(ctxs, bins[0]), bins.skip(1));
        assert(next.shifts <= next.selected(contexts_after(ctxs, bins[0]), bins.skip(1)[0]).shifts);
    }
}

/// One bin keeps the number that the encoder denotes.
proof fn lemma_bin_denotes(c: Coder, base: Seq<bool>, iv: Interval, ctxs: Seq<ContextModel>, b: Bin)
    requires
        c.wf(),
        contexts_wf(ctxs),
        b matches Bin::Decision { ctx, bin } ==> 0 <= ctx < ctxs.len() && bin <= 1,
        b != (Bin::Terminate { end: true }),
        denotes(c, base, iv),
        iv.selected(ctxs, b).renorm().shifts < u64::MAX,
    ensures
        denotes(encode_bin(c, ctxs, b), base, iv.selected(ctxs, b).renorm()),
        encode_bin(c, ctxs, b).wf(),
        contexts_wf(contexts_after(ctxs, b)),
{
    let s = iv.selected(ctxs, b);
    lemma_interval_shifts(s);
    match b {
        Bin::Decision { ctx, bin } => {
            let m = ctxs[ctx as int];
            lemma_lps_range(m, c.range as int);
            lemma_next_context(m, bin);
            lemma_decision_wf(c, m, bin);
            let lps = lps_range(m, c.range as int);
            if bin == m.val_mps {
                lemma_renorm_denotes(c.narrowed(0, c.range - lps), base, s);
            } else {
                lemma_renorm_denotes(c.narrowed(c.range - lps, lps), base, s);
            }
        },
        Bin::Bypass { bit } => {
            lemma_bypass_wf(c, bit);
            let d = c.with_low(2 * c.low + if bit {
                c.range as int
            } else {
                0
            });
            let v = be_value(c.out.skip(base.len() as int)) as int;
            let p = pow2(c.outstanding) as int;
            assert(2 * (v * (1024 * p)) == v * (2048 * p)) by (nonlinear_arith);
            lemma_pow2_unfold(iv.shifts + 1);
            lemma_emit_denotes(d, base, s);
        },
        Bin::Terminate { end } => {
            lemma_terminate_wf(c, false);
            lemma_renorm_denotes(c.narrowed(0, c.range - 2), base, s);
        },
    }
}

/// The flush writes a number inside the interval of the terminating one.
proof fn lemma_flush_value(c: Coder, base: Seq<bool>, iv: Interval)
    requires
        c.wf(),
        denotes(c, base, iv),
        iv.shifts + 7 < u64::MAX,
    ensures
        ({
            let out = c.terminate(true).out;
            let word = out.skip(base.len() as int);
            let top = iv.selected(Seq::empty(), Bin::Terminate { end: true });
            &&& out.len() >= base.len()
            &&& out.take(base.len() as int) == base
            &&& word.len() == 9 + iv.shifts
            &&& top.code <= be_value(word) < top.code + 2
        }),
{
    let top = iv.narrowed(iv.range - 2, 2);
    let n = c.narrowed(c.range - 2, 2);
    assert(Coder { range: 2, ..n } =~= n);
    assert(denotes(n, base, top));
    assert(top.renorm() == Interval { code: 128 * top.code, shifts: top.shifts + 7, range: 256 }) by {
        reveal_with_fuel(Interval::renorm, 9);
    }
    lemma_renorm_denotes(n, base, top);
    lemma_renorm_wf(n);
    let e = n.renorm();
    let b = (e.low / 512) % 2 == 1;
    let d = e.put(b);
    let rest = e.out.skip(base.len() as int);
    let v = be_value(rest) as int;
    let o = e.outstanding;
    let p = pow2(o) as int;
    lemma_pow2_pos(o);
    if e.first_bit {
        assert(rest =~= Seq::<bool>::empty());
        assert(v == 0);
        assert(!b) by {
            // a one here would put the interval past its bound
            if b {
                assert(0 * (1024 * p) == 0);
                assert(128 * top.code >= 512 * p);
            }
        }
    }
    lemma_put_value(e, base, b);
    let rest2 = d.out.skip(base.len() as int);
    let hi: int = if b {
        p
    } else {
        p - 1
    };
    let u = be_value(rest2) as int;
    assert(u == v * (2 * p) + hi);
    assert(u * 512 == v * (1024 * p) + hi * 512) by (nonlinear_arith)
        requires
            u == v * (2 * p) + hi,
    ;
    let low = e.low - if b {
        512int
    } else {
        0int
    };
    assert(0 <= low < 512);
    assert(128 * top.code == u * 512 + low);
    let out = c.terminate(true).out;
    let word = out.skip(base.len() as int);
    let x = (e.low / 256) % 2 == 1;
    assert(out == d.out.push(x).push(true));
    assert(word =~= rest2.push(x).push(true));
    assert(word.drop_last() =~= rest2.push(x));
    assert(rest2.push(x).drop_last() =~= rest2);
    assert(out.take(base.len() as int) =~= base);
    assert(low / 256 == if x {
        1int
    } else {
        0int
    });
    assert(be_value(rest2.push(x)) == 2 * u + low / 256);
    assert(be_value(word) == 4 * u + 2 * (low / 256) + 1);
    assert(low % 128 == 0);
}

/// The codeword lies in the interval as far as the interval resolves it.
spec fn inside(iv: Interval, s: Seq<bool>) -> bool {
    &&& 9 + iv.shifts <= s.len()
    &&& iv.code <= be_value(s.take(9 + iv.shifts as int)) < iv.code + iv.range
}

/// The decoder that has read the codeword as far as the interval resolves it.
spec fn decoder_at(iv: Interval, s: Seq<bool>) -> Decoder {
    let n = 9 + iv.shifts as int;
    Decoder { offset: (be_value(s.take(n)) - iv.code) as nat, range: iv.range, rest: s.skip(n) }
}

proof fn lemma_inside_doubled(iv: Interval, s: Seq<bool>)
    requires
        inside(iv.doubled(), s),
    ensures
        inside(iv, s),
        decoder_at(iv, s).rest.len() > 0,
        decoder_at(iv, s).shift() == decoder_at(iv.doubled(), s),
{
    let n = 9 + iv.shifts as int;
    assert(s.take(n + 1).drop_last() =~= s.take(n));
    assert(s.take(n + 1).last() == s[n]);
    assert(s.skip(n)[0] == s[n]);
    assert(s.skip(n).skip(1) =~= s.skip(n + 1));
    assert(decoder_at(iv, s).shift() =~= decoder_at(iv.doubled(), s));
}

proof fn lemma_inside_renorm(iv: Interval, s: Seq<bool>)
    requires
        inside(iv.renorm(), s),
    ensures
        inside(iv, s),
        decoder_at(iv, s).renorm() == Some(decoder_at(iv.renorm(), s)),
    decreases 512 - iv.range,
{
    if 0 < iv.range < 256 {
        lemma_inside_renorm(iv.doubled(), s);
        lemma_inside_doubled(iv, s);
    }
}

/// The decoder yields the bin whose sub-interval holds the codeword.
proof fn lemma_decode_bin(iv: Interval, s: Seq<bool>, ctxs: Seq<ContextModel>, b: Bin)
    requires
        256 <= iv.range <= 510,
        contexts_wf(ctxs),
        b matches Bin::Decision { ctx, bin } ==> 0 <= ctx < ctxs.len() && bin <= 1,
        b != (Bin::Terminate { end: true }),
        inside(iv.selected(ctxs, b).renorm(), s),
    ensures
        inside(iv, s),
        decode_bin(decoder_at(iv, s), ctxs, b) == Some(decoder_at(iv.selected(ctxs, b).renorm(), s)),
{
    let sel = iv.selected(ctxs, b);
    let d = decoder_at(iv, s);
    lemma_inside_renorm(sel, s);
    match b {
        Bin::Decision { ctx, bin } => {
            let m = ctxs[ctx as int];
            lemma_lps_range(m, iv.range as int);
            let lps = lps_range(m, iv.range as int);
            let mps = iv.range - lps;
            if bin == m.val_mps {
                assert(Decoder { range: mps as nat, ..d } =~= decoder_at(sel, s));
            } else {
                assert(Decoder { offset: (d.offset - mps) as nat, range: lps as nat, ..d } =~= decoder_at(sel, s));
            }
        },
        Bin::Bypass { bit } => {
            let n = 9 + iv.shifts as int;
            assert(s.take(n + 1).drop_last() =~= s.take(n));
            assert(s.take(n + 1).last() == s[n]);
            assert(s.skip(n)[0] == s[n]);
            assert(s.skip(n).skip(1) =~= s.skip(n + 1));
            assert(inside(sel, s));
            assert(d.bypass_bin() == bit);
            assert(d.bypass().unwrap() =~= decoder_at(sel, s));
            assert(sel.renorm() == sel);
        },
        Bin::Terminate { end } => {
            assert(Decoder { range: (d.range - 2) as nat, ..d } =~= decoder_at(sel, s));
        },
    }
}

proof fn lemma_renorm_range(iv: Interval)
    requires
        0 < iv.range <= 510,
    ensures
        256 <= iv.renorm().range <= 510,
    decreases 512 - iv.range,
{
    if iv.range < 256 {
        lemma_renorm_range(iv.doubled());
    }
}

proof fn lemma_selected_range(iv: Interval, ctxs: Seq<ContextModel>, b: Bin)
    requires
        256 <= iv.range <= 510,
        contexts_wf(ctxs),
        b matches Bin::Decision { ctx, bin } ==> 0 <= ctx < ctxs.len() && bin <= 1,
    ensures
        256 <= iv.selected(ctxs, b).renorm().range <= 510,
        contexts_wf(contexts_after(ctxs, b)),
        contexts_after(ctxs, b).len() == ctxs.len(),
{
    if let Bin::Decision { ctx, bin } = b {
        lemma_lps_range(ctxs[ctx as int], iv.range as int);
        lemma_next_context(ctxs[ctx as int], bin);
    }
    lemma_renorm_range(iv.selected(ctxs, b));
}

proof fn lemma_codeword_rest(bins: Seq<Bin>, contexts: nat)
    requires
        codeword(bins, contexts),
        bins.len() > 1,
    ensures
        codeword(bins.skip(1), contexts),
        bins[0] != (Bin::Terminate { end: true }),
{
    let rest = bins.skip(1);
    assert(rest.last() == bins.last());
    assert forall|i: int| 0 <= i < rest.len() - 1 implies #[trigger] rest[i] != (Bin::Terminate { end: true }) by {
        assert(rest[i] == bins[i + 1]);
    }
    assert forall|i: int| 0 <= i < rest.len() implies (#[trigger] rest[i] matches Bin::Decision { ctx, bin } ==> 0
        <= ctx < contexts && bin <= 1) by {
        assert(rest[i] == bins[i + 1]);
    }
}

/// A codeword inside the last bin's sub-interval decodes to all the bins.
proof fn lemma_decode_bins(iv: Interval, s: Seq<bool>, ctxs: Seq<ContextModel>, bins: Seq<Bin>)
    requires
        256 <= iv.range <= 510,
        contexts_wf(ctxs),
        codeword(bins, ctxs.len()),
        inside(final_interval(iv, ctxs, bins), s),
    ensures
        inside(iv, s),
        decode_bins(decoder_at(iv, s), ctxs, bins) matches Some(d) && d.rest == s.skip(
            9 + final_interval(iv, ctxs, bins).shifts as int,
        ),
    decreases bins.len(),
{
    let d = decoder_at(iv, s);
    let b = bins[0];
    let ctxs2 = contexts_after(ctxs, b);
    assert(b matches Bin::Decision { ctx, bin } ==> 0 <= ctx < ctxs.len() && bin <= 1);
    if bins.len() == 1 {
        assert(b == bins.last());
        let e = Decoder { range: (d.range - 2) as nat, ..d };
        assert(decode_bin(d, ctxs, b) == Some(e));
        assert(bins.skip(1).len() == 0);
        assert(decode_bins(e, ctxs2, bins.skip(1)) == Some(e));
    } else {
        let next = iv.selected(ctxs, b).renorm();
        lemma_codeword_rest(bins, ctxs.len());
        lemma_selected_range(iv, ctxs, b);
        lemma_decode_bins(next, s, ctxs2, bins.skip(1));
        lemma_decode_bin(iv, s, ctxs, b);
    }
}

/// The encoder's codeword for the bins lies inside the last bin's sub-interval.
proof fn lemma_encode_bins(c: Coder, base: Seq<bool>, iv: Interval, ctxs: Seq<ContextModel>, bins: Seq<Bin>)
    requires
        c.wf(),
        denotes(c, base, iv),
        contexts_wf(ctxs),
        codeword(bins, ctxs.len()),
        final_interval(iv, ctxs, bins).shifts + 7 < u64::MAX,
    ensures
        ({
            let out = encode_bins(c, ctxs, bins).out;
            let word = out.skip(base.len() as int);
            let top = final_interval(iv, ctxs, bins);
            &&& out.len() >= base.len()
            &&& out.take(base.len() as int) == base
            &&& word.len() == 9 + top.shifts
            &&& top.code <= be_value(word) < top.code + top.range
        }),
    decreases bins.len(),
{
    let b = bins[0];
    let ctxs2 = contexts_after(ctxs, b);
    assert(b matches Bin::Decision { ctx, bin } ==> 0 <= ctx < ctxs.len() && bin <= 1);
    if bins.len() == 1 {
        assert(b == bins.last());
        lemma_flush_value(c, base, iv);
        assert(bins.skip(1).len() == 0);
        assert(encode_bins(c.terminate(true), ctxs2, bins.skip(1)) == c.terminate(true));
    } else {
        lemma_codeword_rest(bins, ctxs.len());
        lemma_final_shifts(iv, ctxs, bins);
        lemma_bin_denotes(c, base, iv, ctxs, b);
        lemma_selected_range(iv, ctxs, b);
        lemma_encode_bins(encode_bin(c, ctxs, b), base, iv.selected(ctxs, b).renorm(), ctxs2, bins.skip(1));
    }
}

/// Scaling up takes at most `k` shifts for a range of `256 / 2^k` or more.
proof fn lemma_renorm_shifts(iv: Interval, k: nat)
    requires
        iv.range * pow2(k) >= 256,
    ensures
        iv.renorm().shifts <= iv.shifts + k,
    decreases k,
{
    if 0 < iv.range < 256 {
        if k == 0 {
            lemma2_to64();
        } else {
            lemma_pow2_unfold(k);
            let p = pow2((k - 1) as nat);
            assert(iv.range * (2 * p) == (2 * iv.range) * p) by (nonlinear_arith);
            lemma_renorm_shifts(iv.doubled(), (k - 1) as nat);
        }
    }
}

proof fn lemma_final_shifts_bound(iv: Interval, ctxs: Seq<ContextModel>, bins: Seq<Bin>)
    requires
        256 <= iv.range <= 510,
        contexts_wf(ctxs),
        codeword(bins, ctxs.len()),
    ensures
        final_interval(iv, ctxs, bins).shifts <= iv.shifts + 9 * bins.len(),
    decreases bins.len(),
{
    let b = bins[0];
    let s = iv.selected(ctxs, b);
    if let Bin::Decision { ctx, bin } = b {
        lemma_lps_range(ctxs[ctx as int], iv.range as int);
    }
    assert(s.shifts <= iv.shifts + 1 && s.range >= 1);
    if bins.len() > 1 {
        lemma2_to64();
        assert(s.range * pow2(8) >= 256) by (nonlinear_arith)
            requires
                s.range >= 1,
                pow2(8) == 256,
        ;
        lemma_renorm_shifts(s, 8);
        lemma_selected_range(iv, ctxs, b);
        lemma_codeword_rest(bins, ctxs.len());
        lemma_final_shifts_bound(s.renorm(), contexts_after(ctxs, b), bins.skip(1));
    }
}

/// A codeword is at most nine shifts a bin long.
pub proof fn lemma_codeword_shifts_bound(ctxs: Seq<ContextModel>, bins: Seq<Bin>)
    requires
        contexts_wf(ctxs),
        codeword(bins, ctxs.len()),
    ensures
        codeword_shifts(ctxs, bins) <= 9 * bins.len(),
{
    lemma_final_shifts_bound(Interval { code: 0, shifts: 0, range: 510 }, ctxs, bins);
}

/// Every sequence of bins decodes to itself: the encoder leaves what was
/// written before alone, and from the bits it adds, with anything behind them, a
/// decoder with the same context variables yields the same bins and has then
/// read exactly the bits that were added. The one limit is the encoder's
/// 64-bit count of outstanding bits.
pub proof fn law_decode_inverts_encode(base: Seq<bool>, ctxs: Seq<ContextModel>, bins: Seq<Bin>, after: Seq<bool>)
    requires
        contexts_wf(ctxs),
        codeword(bins, ctxs.len()),
        codeword_shifts(ctxs, bins) + 7 < u64::MAX,
    ensures
        ({
            let out = encode_bins(Coder::start(base), ctxs, bins).out;
            let word = out.skip(base.len() as int);
            &&& out == base + word
            &&& Decoder::start(word + after) matches Ok(d) && decode_bins(d, ctxs, bins) matches Some(e) && e.rest
                == after
        }),
{
    let c = Coder::start(base);
    let iv = Interval { code: 0, shifts: 0, range: 510 };
    let out = encode_bins(c, ctxs, bins).out;
    let word = out.skip(base.len() as int);
    let s = word + after;
    assert(denotes(c, base, iv)) by {
        lemma2_to64();
        assert(c.out.take(base.len() as int) =~= base);
        assert(c.out.skip(base.len() as int) =~= Seq::<bool>::empty());
        assert(be_value(Seq::<bool>::empty()) == 0);
    }
    lemma_encode_bins(c, base, iv, ctxs, bins);
    let top = final_interval(iv, ctxs, bins);
    assert(s.take(9 + top.shifts as int) =~= word);
    assert(s.skip(9 + top.shifts as int) =~= after);
    lemma_decode_bins(iv, s, ctxs, bins);
    assert(decoder_at(iv, s) =~= Decoder { offset: be_value(s.take(9)), range: 510, rest: s.skip(9) });
    assert(out =~= base + word);
}

/// The starting point of a context variable as one number: below 64 the bin is more likely
/// zero, from there on one, and the further off the likelier.
pub open spec fn leaning(ctx: ContextModel) -> int {
    if ctx.val_mps == 1 {
        64 + ctx.p_state_idx
    } else {
        63 - ctx.p_state_idx
    }
}

/// A context variable starts on a line over the QP: its high digit gives a slope of five
/// sixteenths a step about nine, its low digit the height at QP 0 in steps of eight; 154 is
/// even at every QP.
pub proof fn law_contexts_start_on_a_line(init_value: u8, qp: i32, ctx: ContextModel)
    requires
        0 <= qp <= 51,
        call_ensures(ContextModel::init, (init_value, qp), ctx),
    ensures
        ({
            let (slope, height) = (5 * (init_value as int / 16 - 9), 8 * (init_value as int % 16 - 2));
            let at = leaning(ctx);
            &&& 1 <= at <= 126
            &&& at > 1 ==> 16 * (at - height) <= slope * qp
            &&& at < 126 ==> slope * qp < 16 * (at - height) + 16
            &&& init_value == 154 ==> ctx.p_state_idx == 0 && ctx.val_mps == 1
        }),
{
    if init_value == 154 {
        assert(0 * qp == 0) by (nonlinear_arith);
    }
}

} // verus!
