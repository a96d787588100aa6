//! The arithmetic decoder as a source of syntax elements: a decoder and its
//! context variables, and the elementary codes as they are read from it.
use vstd::prelude::*;
use vstd::arithmetic::power2::pow2;
use crate::bins::{
    bypass_bins, contexts_after, contexts_after_all, contexts_wf, decision_bin, encode_bins, lemma_bypass_concat, Bin,
};
use crate::bits::{
    aligned, be_bits, be_value, bytes_bits, lemma_be_value_of_bits, lemma_pack_bits, pack, padding, zeros,
};
use crate::cabac::{next_context, ContextModel};
use crate::cabac_decoder::Decoder;
use crate::cabac_encoder::{repeated, Coder};
use crate::cabac_laws::{codeword, decode_bin, decode_bins, law_decode_inverts_encode, lemma_codeword_shifts_bound};

verus! {

/// A decoder inside a codeword and the context variables it has adapted so far.
pub struct Source {
    pub decoder: Decoder,
    pub ctxs: Seq<ContextModel>,
}

impl Source {
    /// Read a context-coded bin.
    pub open spec fn decision(self, base: int, ctx_inc: int) -> Option<(bool, Source)> {
        let c = (base + ctx_inc) as usize as int;
        let bin = self.decoder.decision_bin(self.ctxs[c]);
        match self.decoder.decision(self.ctxs[c]) {
            Some(decoder) => Some(
                (bin == 1, Source { decoder, ctxs: self.ctxs.update(c, next_context(self.ctxs[c], bin)) }),
            ),
            None => None,
        }
    }

    /// Read an equal-probability bin.
    pub open spec fn bypass(self) -> Option<(bool, Source)> {
        match self.decoder.bypass() {
            Some(decoder) => Some((self.decoder.bypass_bin(), Source { decoder, ..self })),
            None => None,
        }
    }

    /// Read a terminating bin.
    pub open spec fn terminate(self) -> Option<(bool, Source)> {
        match self.decoder.terminate() {
            Some(decoder) => Some((self.decoder.terminate_bin(), Source { decoder, ..self })),
            None => None,
        }
    }

    /// The next bins that the decoder yields are these.
    #[verifier::opaque]
    pub open spec fn feeds(self, bins: Seq<Bin>) -> bool {
        decode_bins(self.decoder, self.ctxs, bins) is Some
    }

    /// The source behind the bins.
    #[verifier::opaque]
    pub open spec fn past(self, bins: Seq<Bin>) -> Source {
        Source {
            decoder: decode_bins(self.decoder, self.ctxs, bins)->0,
            ctxs: contexts_after_all(self.ctxs, bins),
        }
    }

    /// Read a number of `n` binary digits.
    pub open spec fn field(self, n: nat) -> Option<(nat, Source)>
        decreases n,
    {
        if n == 0 {
            Some((0, self))
        } else {
            match self.field((n - 1) as nat) {
                Some((high, s)) => match s.bypass() {
                    Some((bit, t)) => Some((2 * high + if bit {
                        1nat
                    } else {
                        0nat
                    }, t)),
                    None => None,
                },
                None => None,
            }
        }
    }

    /// Read ones up to a zero, and count them.
    pub open spec fn unary(self) -> Option<(nat, Source)>
        decreases self.decoder.rest.len(),
    {
        if self.decoder.rest.len() == 0 {
            None
        } else {
            match self.bypass() {
                Some((true, s)) => match s.unary() {
                    Some((n, t)) => Some((n + 1, t)),
                    None => None,
                },
                Some((false, s)) => Some((0, s)),
                None => None,
            }
        }
    }
}

proof fn lemma_decode_concat(d: Decoder, ctxs: Seq<ContextModel>, a: Seq<Bin>, b: Seq<Bin>)
    ensures
        decode_bins(d, ctxs, a + b) == match decode_bins(d, ctxs, a) {
            Some(e) => decode_bins(e, contexts_after_all(ctxs, a), b),
            None => None,
        },
        contexts_after_all(ctxs, a + b) == contexts_after_all(contexts_after_all(ctxs, a), b),
    decreases a.len(),
{
    if a.len() == 0 {
        assert(a + b =~= b);
    } else {
        assert((a + b).skip(1) =~= a.skip(1) + b);
        assert((a + b)[0] == a[0]);
        if let Some(e) = decode_bin(d, ctxs, a[0]) {
            lemma_decode_concat(e, contexts_after(ctxs, a[0]), a.skip(1), b);
        } else {
            lemma_decode_concat(d, contexts_after(ctxs, a[0]), a.skip(1), b);
        }
    }
}

/// Bins one after another are read one after another.
pub proof fn lemma_feeds_concat(s: Source, a: Seq<Bin>, b: Seq<Bin>)
    requires
        s.feeds(a + b),
    ensures
        s.feeds(a),
        s.past(a).feeds(b),
        s.past(a + b) == s.past(a).past(b),
{
    reveal(Source::feeds);
    reveal(Source::past);
    lemma_decode_concat(s.decoder, s.ctxs, a, b);
}

/// Where nothing is read, nothing changes.
pub proof fn lemma_feeds_none(s: Source)
    ensures
        s.past(Seq::empty()) == s,
{
    reveal(Source::past);
}

/// A context-coded bin is read back.
pub proof fn lemma_reads_decision(s: Source, base: int, ctx_inc: int, bin: bool)
    requires
        s.feeds(seq![decision_bin(base, ctx_inc, bin)]),
    ensures
        s.decision(base, ctx_inc) == Some((bin, s.past(seq![decision_bin(base, ctx_inc, bin)]))),
{
    reveal(Source::feeds);
    reveal(Source::past);
    let b = decision_bin(base, ctx_inc, bin);
    lemma_single(s, b);
}

proof fn lemma_single(s: Source, b: Bin)
    requires
        s.feeds(seq![b]),
    ensures
        decode_bin(s.decoder, s.ctxs, b) == Some(s.past(seq![b]).decoder),
        s.past(seq![b]).ctxs == contexts_after(s.ctxs, b),
{
    reveal(Source::feeds);
    reveal(Source::past);
    let one = seq![b];
    assert(one[0] == b);
    assert(one.skip(1) =~= Seq::<Bin>::empty());
    let ctxs = contexts_after(s.ctxs, b);
    assert(contexts_after_all(ctxs, one.skip(1)) == ctxs);
    if let Some(e) = decode_bin(s.decoder, s.ctxs, b) {
        assert(decode_bins(e, ctxs, one.skip(1)) == Some(e));
    }
}

/// An equal-probability bin is read back.
pub proof fn lemma_reads_bypass(s: Source, bit: bool)
    requires
        s.feeds(seq![Bin::Bypass { bit }]),
    ensures
        s.decoder.rest.len() > 0,
        s.bypass() == Some((bit, s.past(seq![Bin::Bypass { bit }]))),
{
    lemma_single(s, Bin::Bypass { bit });
}

/// A terminating bin is read back.
pub proof fn lemma_reads_terminate(s: Source, end: bool)
    requires
        s.feeds(seq![Bin::Terminate { end }]),
    ensures
        s.terminate() == Some((end, s.past(seq![Bin::Terminate { end }]))),
{
    lemma_single(s, Bin::Terminate { end });
}

proof fn lemma_reads_digits(s: Source, bits: Seq<bool>)
    requires
        s.feeds(bypass_bins(bits)),
    ensures
        s.field(bits.len()) == Some((be_value(bits), s.past(bypass_bins(bits)))),
    decreases bits.len(),
{
    if bits.len() == 0 {
        assert(bypass_bins(bits) =~= Seq::<Bin>::empty());
        lemma_feeds_none(s);
    } else {
        let head = bits.drop_last();
        let last = Seq::<bool>::empty().push(bits.last());
        assert(bits =~= head + last);
        lemma_bypass_concat(head, last);
        assert(bypass_bins(last) =~= seq![Bin::Bypass { bit: bits.last() }]);
        lemma_feeds_concat(s, bypass_bins(head), bypass_bins(last));
        lemma_reads_digits(s, head);
        lemma_reads_bypass(s.past(bypass_bins(head)), bits.last());
    }
}

/// A number of `n` digits is read back, as far as `n` digits tell it.
pub proof fn lemma_reads_field(s: Source, v: nat, n: nat)
    requires
        s.feeds(bypass_bins(be_bits(v, n))),
    ensures
        s.field(n) == Some((v % pow2(n), s.past(bypass_bins(be_bits(v, n))))),
{
    lemma_reads_digits(s, be_bits(v, n));
    lemma_be_value_of_bits(v, n);
}

/// A count in ones up to a zero is read back.
pub proof fn lemma_reads_unary(s: Source, n: nat)
    requires
        s.feeds(bypass_bins(repeated(true, n) + seq![false])),
    ensures
        s.unary() == Some((n, s.past(bypass_bins(repeated(true, n) + seq![false])))),
    decreases n,
{
    let code = bypass_bins(repeated(true, n) + seq![false]);
    if n == 0 {
        assert(code =~= seq![Bin::Bypass { bit: false }]);
        lemma_reads_bypass(s, false);
    } else {
        let one = seq![Bin::Bypass { bit: true }];
        let rest = bypass_bins(repeated(true, (n - 1) as nat) + seq![false]);
        assert(code =~= one + rest);
        lemma_feeds_concat(s, one, rest);
        lemma_reads_bypass(s, true);
        lemma_reads_unary(s.past(one), (n - 1) as nat);
    }
}

/// The next bin, read in the way of `shape`: with its context variable, with equal
/// probability, or as a terminating bin.
pub open spec fn read_bin(s: Source, shape: Bin) -> Option<(Bin, Source)> {
    match shape {
        Bin::Decision { ctx, .. } => match s.decision(ctx as int, 0) {
            Some((b, t)) => Some((decision_bin(ctx as int, 0, b), t)),
            None => None,
        },
        Bin::Bypass { .. } => match s.bypass() {
            Some((bit, t)) => Some((Bin::Bypass { bit }, t)),
            None => None,
        },
        Bin::Terminate { .. } => match s.terminate() {
            Some((end, t)) => Some((Bin::Terminate { end }, t)),
            None => None,
        },
    }
}

/// The next bins, each read in the way of its shape.
pub open spec fn read_bins(s: Source, shapes: Seq<Bin>) -> Option<(Seq<Bin>, Source)>
    decreases shapes.len(),
{
    if shapes.len() == 0 {
        Some((Seq::empty(), s))
    } else {
        match read_bins(s, shapes.drop_last()) {
            Some((found, t)) => match read_bin(t, shapes.last()) {
                Some((b, u)) => Some((found.push(b), u)),
                None => None,
            },
            None => None,
        }
    }
}

/// Two bins are coded in the same way, whatever their values.
pub open spec fn same_shape(a: Bin, b: Bin) -> bool {
    match (a, b) {
        (Bin::Decision { ctx: c, .. }, Bin::Decision { ctx: d, .. }) => c == d,
        (Bin::Bypass { .. }, Bin::Bypass { .. }) => true,
        (Bin::Terminate { .. }, Bin::Terminate { .. }) => true,
        _ => false,
    }
}

proof fn lemma_reads_bins(s: Source, shapes: Seq<Bin>, bins: Seq<Bin>)
    requires
        s.feeds(bins),
        shapes.len() == bins.len(),
        forall|i: int| 0 <= i < bins.len() ==> same_shape(shapes[i], #[trigger] bins[i]),
        forall|i: int| 0 <= i < bins.len() ==> (#[trigger] bins[i] matches Bin::Decision { bin, .. } ==> bin <= 1),
    ensures
        read_bins(s, shapes) == Some((bins, s.past(bins))),
    decreases bins.len(),
{
    if bins.len() == 0 {
        assert(bins =~= Seq::<Bin>::empty());
        lemma_feeds_none(s);
    } else {
        let (head, last) = (bins.drop_last(), bins.last());
        assert(bins =~= head + seq![last]);
        lemma_feeds_concat(s, head, seq![last]);
        assert forall|i: int| 0 <= i < head.len() implies same_shape(shapes.drop_last()[i], #[trigger] head[i]) by {
            assert(head[i] == bins[i]);
        }
        assert forall|i: int| 0 <= i < head.len() implies (#[trigger] head[i] matches Bin::Decision { bin, .. } ==> bin
            <= 1) by {
            assert(head[i] == bins[i]);
        }
        lemma_reads_bins(s, shapes.drop_last(), head);
        assert(same_shape(shapes.last(), last));
        let t = s.past(head);
        match last {
            Bin::Decision { ctx, bin } => {
                assert(last == decision_bin(ctx as int, 0, bin == 1));
                lemma_reads_decision(t, ctx as int, 0, bin == 1);
            },
            Bin::Bypass { bit } => {
                lemma_reads_bypass(t, bit);
            },
            Bin::Terminate { end } => {
                lemma_reads_terminate(t, end);
            },
        }
        assert(head.push(last) =~= bins);
    }
}

/// Every mix of bins reads back: context-coded, equal-probability and terminating bins in
/// any order, coded from a fresh encoder and ended by a terminating one, come out of the
/// bytes in the same order when each is read in its way from the same context variables;
/// the last one is the terminating one, and the context variables end as the encoder's
/// did. A mix may have 2^60 bins, which is more than memory holds.
pub proof fn law_bins_read_back(ctxs: Seq<ContextModel>, bins: Seq<Bin>, shapes: Seq<Bin>)
    requires
        contexts_wf(ctxs),
        codeword(bins, ctxs.len()),
        bins.len() <= 0x1000_0000_0000_0000,
        shapes.len() == bins.len(),
        forall|i: int| 0 <= i < bins.len() ==> same_shape(shapes[i], #[trigger] bins[i]),
    ensures
        ({
            let bytes = pack(aligned(encode_bins(Coder::start(Seq::empty()), ctxs, bins).out));
            &&& Decoder::start(bytes_bits(bytes)) matches Ok(decoder)
            &&& read_bins(Source { decoder, ctxs }, shapes) matches Some((found, s))
            &&& found == bins
            &&& s.ctxs == contexts_after_all(ctxs, bins)
        }),
{
    let none = Seq::<bool>::empty();
    lemma_codeword_shifts_bound(ctxs, bins);
    let out = encode_bins(Coder::start(none), ctxs, bins).out;
    lemma_pack_bits(aligned(out));
    assert(aligned(aligned(out)) =~= aligned(out));
    law_decode_inverts_encode(none, ctxs, bins, zeros(padding(out.len())));
    assert(out.skip(0) =~= out);
    let s = Source { decoder: Decoder::start(aligned(out))->Ok_0, ctxs };
    assert(s.feeds(bins) && s.past(bins).ctxs == contexts_after_all(ctxs, bins)) by {
        reveal(Source::feeds);
        reveal(Source::past);
    }
    lemma_reads_bins(s, shapes, bins);
}

} // verus!
