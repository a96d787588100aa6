//! PCM pictures on the read side: the samples that a decoder takes out of the slice
//! segments or the tiles of a picture, and the law that they are the samples coded.
use vstd::prelude::*;
use crate::arith::lemma_ungrid;
use crate::bin_source::{lemma_feeds_concat, lemma_feeds_none, lemma_reads_decision, lemma_reads_terminate, Source};
use crate::bins::{
    bypass_bins, contexts_after_all, contexts_wf, decision_bin, encode_bins, lemma_bypass_concat,
    lemma_contexts_after_all_wf, lemma_encode_bins_concat, Bin, CONTEXTS, CTX_PART_MODE, CTX_SAO_TYPE,
};
use crate::bits::{aligned, be_bits, bytes_bits, lemma_bytes_bits_injective, lemma_pack_bits, pack, padding};
use crate::cabac::ContextModel;
use crate::cabac_decoder::Decoder;
use crate::cabac_encoder::Coder;
use crate::cabac_laws::{codeword, law_decode_inverts_encode, lemma_codeword_shifts_bound};
use crate::forks::{inner, inner_bin, lemma_inner_bypass, lemma_inner_concat};
use crate::pcm::{
    ctb_sao_bins, ctbs_coded, declined, pcm_bins, sao_bins, sao_on, sao_parameter_bits, unary, Planes, Shape,
    SliceState,
};
use crate::pcm_laws::{begins, lemma_begins_trans, lemma_bins_begin, lemma_block_of, lemma_ctbs_begin};
use crate::sao::{sao_off, SaoModel};
use crate::slice::{component_bins, magnitude_bits, magnitudes, merge_bins, placement, signs};
use crate::slice_decoder::{lemma_reads_component, lemma_reads_merge, read_component, read_merge};
use crate::slice_laws::signalled_whole;

verus! {

/// A PCM unit: `part_mode`, `pcm_flag`, then the samples from the next byte on; behind
/// them the decoder starts anew. What is left of a payload is whole bytes and the part of
/// one that is being read.
pub open spec fn read_pcm(s: Source) -> Option<(Seq<u8>, Source)> {
    match s.decision(CTX_PART_MODE as int, 0) {
        Some((true, t)) => match t.terminate() {
            Some((true, u)) => {
                let rest = u.decoder.rest;
                let raw = rest.skip(rest.len() as int % 8);
                if raw.len() < 3072 {
                    None
                } else {
                    match Decoder::start(raw.skip(3072)) {
                        Ok(decoder) => Some((pack(raw.take(3072)), Source { decoder, ctxs: u.ctxs })),
                        Err(_) => None,
                    }
                }
            },
            _ => None,
        },
        _ => None,
    }
}

/// The offsets of a block, for luma alone, where the slice has them. They are read and
/// left: PCM samples are not filtered.
pub open spec fn skip_sao(s: Source, sao: bool, left: bool, up: bool) -> Option<Source> {
    if !sao {
        Some(s)
    } else {
        match read_merge(s, left) {
            Some((true, t)) => Some(t),
            Some((false, t)) => match read_merge(t, up) {
                Some((true, u)) => Some(u),
                Some((false, u)) => match read_component(u, 0, sao_off()) {
                    Some((_, v)) => Some(v),
                    None => None,
                },
                None => None,
            },
            None => None,
        }
    }
}

/// The blocks from `addr` on up to the end of the segment, behind those that are known,
/// with the context variables at its end.
pub open spec fn read_ctbs(
    s: Source,
    known: Seq<Seq<u8>>,
    sao: bool,
    columns: int,
    slice_start: int,
    total: int,
) -> Option<(Seq<Seq<u8>>, Seq<ContextModel>)>
    decreases total - known.len(),
{
    let addr = known.len() as int;
    if addr >= total {
        None
    } else {
        match skip_sao(
            s,
            sao,
            addr % columns > 0 && addr > slice_start,
            addr / columns > 0 && addr - columns >= slice_start,
        ) {
            Some(t) => match read_pcm(t) {
                Some((samples, u)) => match u.terminate() {
                    Some((true, v)) => Some((known.push(samples), v.ctxs)),
                    Some((false, v)) => read_ctbs(v, known.push(samples), sao, columns, slice_start, total),
                    None => None,
                },
                None => None,
            },
            None => None,
        }
    }
}

/// The fixed band offsets as a component.
spec fn fixed_offsets(band: bool) -> SaoModel {
    if band {
        SaoModel { kind: 1, offsets: seq![0i32, 1, (-2) as i32, 3, (-4) as i32], band: 8, class: 0 }
    } else {
        SaoModel { kind: 2, offsets: seq![0i32, 1, 2, (-1) as i32, (-2) as i32], band: 0, class: 1 }
    }
}

proof fn lemma_fixed_bits(band: bool)
    ensures
        sao_parameter_bits(band) == seq![!band] + (magnitudes(fixed_offsets(band).offsets) + placement(
            fixed_offsets(band),
            0,
        )),
{
    let o = fixed_offsets(band).offsets;
    let (m1, m2) = (magnitude_bits(o[1] as int), magnitude_bits(o[2] as int));
    let (m3, m4) = (magnitude_bits(o[3] as int), magnitude_bits(o[4] as int));
    if band {
        assert(m1 =~= unary(1) && m2 =~= unary(2) && m3 =~= unary(3) && m4 =~= unary(4));
        assert(signs(o) =~= seq![false, true, false, true]);
        let tail = signs(o) + be_bits(8, 5);
        assert(seq![false] + m1 + m2 + m3 + m4 + signs(o) + be_bits(8, 5) =~= seq![false] + ((m1 + (m2 + (m3 + m4)))
            + tail));
    } else {
        assert(m1 =~= unary(1) && m2 =~= unary(2) && m3 =~= unary(1) && m4 =~= unary(2));
        let tail = be_bits(1, 2);
        assert(seq![true] + m1 + m2 + m3 + m4 + tail =~= seq![true] + ((m1 + (m2 + (m3 + m4))) + tail));
    }
}

/// The offsets of a block, as their component codes them.
proof fn lemma_fixed_bins(band: bool, left: bool, up: bool)
    ensures
        sao_bins(band, left, up) == merge_bins(left, false) + (merge_bins(up, false) + component_bins(
            fixed_offsets(band),
            0,
        )),
        signalled_whole(fixed_offsets(band)),
{
    let m = fixed_offsets(band);
    let (a, b) = (merge_bins(left, false), merge_bins(up, false));
    let kind = seq![decision_bin(CTX_SAO_TYPE as int, 0, true)];
    let edge = seq![Bin::Bypass { bit: !band }];
    let (c, d) = (magnitudes(m.offsets), placement(m, 0));
    lemma_fixed_bits(band);
    lemma_bypass_concat(seq![!band], c + d);
    lemma_bypass_concat(c, d);
    assert(bypass_bins(seq![!band]) =~= edge);
    let rest = bypass_bins(c) + bypass_bins(d);
    assert(component_bins(m, 0) == (kind + edge) + rest);
    assert(a + b + kind + (edge + rest) =~= a + (b + ((kind + edge) + rest)));
}

proof fn lemma_skips_sao(s: Source, opts: Shape, columns: int, slice_start: int, addr: int)
    requires
        s.feeds(ctb_sao_bins(opts, columns, slice_start, addr)),
    ensures
        skip_sao(
            s,
            sao_on(opts),
            addr % columns > 0 && addr > slice_start,
            addr / columns > 0 && addr - columns >= slice_start,
        ) == Some(s.past(ctb_sao_bins(opts, columns, slice_start, addr))),
{
    let left = addr % columns > 0 && addr > slice_start;
    let up = addr / columns > 0 && addr - columns >= slice_start;
    if sao_on(opts) {
        let band = opts.sao_luma_band;
        let m = fixed_offsets(band);
        lemma_fixed_bins(band, left, up);
        let (a, b, c) = (merge_bins(left, false), merge_bins(up, false), component_bins(m, 0));
        lemma_feeds_concat(s, a, b + c);
        lemma_feeds_concat(s.past(a), b, c);
        lemma_reads_merge(s, left, false);
        lemma_reads_merge(s.past(a), up, false);
        lemma_reads_component(s.past(a).past(b), m, 0, sao_off());
    } else {
        lemma_feeds_none(s);
    }
}

/// Bins that a codeword starts with, few enough to count.
pub open spec fn opening(bins: Seq<Bin>) -> bool {
    inner(bins, 1000)
}

/// A codeword somewhere in a payload yields its bins, and what follows it is left.
pub(crate) proof fn lemma_word_feeds(f: Seq<bool>, base: Seq<bool>, ctxs: Seq<ContextModel>, bins: Seq<Bin>)
    requires
        contexts_wf(ctxs),
        ctxs.len() == CONTEXTS,
        opening(bins),
        begins(encode_bins(Coder::start(base), ctxs, bins.push(Bin::Terminate { end: true })).out, f),
    ensures
        ({
            let all = bins.push(Bin::Terminate { end: true });
            let out = encode_bins(Coder::start(base), ctxs, all).out;
            &&& out.len() >= base.len()
            &&& Decoder::start(f.skip(base.len() as int)) matches Ok(decoder)
            &&& (Source { decoder, ctxs }).feeds(all)
            &&& (Source { decoder, ctxs }).past(all).decoder.rest == f.skip(out.len() as int)
            &&& (Source { decoder, ctxs }).past(all).ctxs == contexts_after_all(ctxs, all)
        }),
{
    let all = bins.push(Bin::Terminate { end: true });
    let out = encode_bins(Coder::start(base), ctxs, all).out;
    let after = f.skip(out.len() as int);
    assert forall|i: int| 0 <= i < all.len() - 1 implies #[trigger] all[i] != (Bin::Terminate { end: true }) by {
        assert(inner_bin(bins[i]));
    }
    assert forall|i: int| 0 <= i < all.len() implies (#[trigger] all[i] matches Bin::Decision { ctx, bin } ==> 0 <= ctx
        < ctxs.len() && bin <= 1) by {
        if i < bins.len() {
            assert(inner_bin(bins[i]));
        }
    }
    assert(codeword(all, ctxs.len()));
    lemma_codeword_shifts_bound(ctxs, all);
    law_decode_inverts_encode(base, ctxs, all, after);
    let word = out.skip(base.len() as int);
    assert(f =~= out + after);
    assert(f.skip(base.len() as int) =~= word + after);
    reveal(Source::feeds);
    reveal(Source::past);
}

/// The samples behind a codeword that ends in `out`.
pub(crate) proof fn lemma_raw_samples(f: Seq<bool>, out: Seq<bool>, samples: Seq<u8>)
    requires
        f.len() % 8 == 0,
        samples.len() == 384,
        begins(aligned(out) + bytes_bits(samples), f),
    ensures
        ({
            let rest = f.skip(out.len() as int);
            let raw = rest.skip(rest.len() as int % 8);
            &&& raw.len() >= 3072
            &&& pack(raw.take(3072)) == samples
            &&& raw.skip(3072) == f.skip((aligned(out) + bytes_bits(samples)).len() as int)
            &&& (aligned(out) + bytes_bits(samples)).len() % 8 == 0
        }),
{
    let base = aligned(out) + bytes_bits(samples);
    let rest = f.skip(out.len() as int);
    let raw = rest.skip(rest.len() as int % 8);
    assert(rest.len() as int % 8 == padding(out.len()));
    assert(raw =~= f.skip(aligned(out).len() as int));
    assert(raw.take(3072) =~= bytes_bits(samples)) by {
        assert forall|i: int| 0 <= i < 3072 implies raw.take(3072)[i] == bytes_bits(samples)[i] by {
            assert(f.take(base.len() as int)[aligned(out).len() + i] == base[aligned(out).len() + i]);
        }
    }
    assert(raw.skip(3072) =~= f.skip(base.len() as int));
    lemma_pack_bits(bytes_bits(samples));
    assert(aligned(bytes_bits(samples)) =~= bytes_bits(samples));
    lemma_bytes_bits_injective(pack(bytes_bits(samples)), samples);
}

/// A state reached from the start of a codeword by `bins`.
pub open spec fn reached(base: Seq<bool>, ctxs: Seq<ContextModel>, bins: Seq<Bin>) -> SliceState {
    SliceState { coder: Coder::start(base), ctxs }.with(bins)
}

pub(crate) proof fn lemma_reached_more(base: Seq<bool>, ctxs: Seq<ContextModel>, a: Seq<Bin>, b: Seq<Bin>)
    ensures
        reached(base, ctxs, a).with(b) == reached(base, ctxs, a + b),
{
    lemma_encode_bins_concat(Coder::start(base), ctxs, a, b);
}

/// A PCM unit is read back, and the next codeword is found behind it.
pub(crate) proof fn lemma_reads_pcm(
    f: Seq<bool>,
    base: Seq<bool>,
    ctxs: Seq<ContextModel>,
    pending: Seq<Bin>,
    head: Seq<Bin>,
    samples: Seq<u8>,
)
    requires
        f.len() % 8 == 0,
        contexts_wf(ctxs),
        ctxs.len() == CONTEXTS,
        opening(pending + head + seq![decision_bin(CTX_PART_MODE as int, 0, true)]),
        samples.len() == 384,
        begins(reached(base, ctxs, pending).with(head).with_pcm(samples).coder.out, f),
    ensures
        ({
            let next = reached(base, ctxs, pending).with(head).with_pcm(samples);
            &&& Decoder::start(f.skip(base.len() as int)) matches Ok(decoder)
            &&& (Source { decoder, ctxs }).feeds(pending)
            &&& (Source { decoder, ctxs }).past(pending).feeds(head)
            &&& Decoder::start(f.skip(next.coder.out.len() as int)) matches Ok(again) ==> read_pcm(
                (Source { decoder, ctxs }).past(pending).past(head),
            ) == Some((samples, Source { decoder: again, ctxs: next.ctxs }))
            &&& next.coder == Coder::start(next.coder.out)
            &&& next.coder.out.len() % 8 == 0
            &&& next.ctxs.len() == CONTEXTS
            &&& contexts_wf(next.ctxs)
        }),
{
    let part = seq![decision_bin(CTX_PART_MODE as int, 0, true)];
    let stop = seq![Bin::Terminate { end: true }];
    let open = pending + head + part;
    let all = open.push(Bin::Terminate { end: true });
    assert(pcm_bins() =~= part + stop);
    assert(all =~= pending + (head + (part + stop)));
    assert(pending + head + pcm_bins() =~= all);
    lemma_reached_more(base, ctxs, pending, head);
    lemma_reached_more(base, ctxs, pending + head, pcm_bins());
    let out = encode_bins(Coder::start(base), ctxs, all).out;
    let next = reached(base, ctxs, pending).with(head).with_pcm(samples);
    assert(next.coder.out == aligned(out) + bytes_bits(samples));
    assert(begins(out, f)) by {
        assert(f.take(out.len() as int) =~= f.take(next.coder.out.len() as int).take(out.len() as int));
        assert(next.coder.out.take(out.len() as int) =~= out);
    }
    lemma_word_feeds(f, base, ctxs, open);
    lemma_raw_samples(f, out, samples);
    let s = Source { decoder: Decoder::start(f.skip(base.len() as int))->Ok_0, ctxs };
    lemma_feeds_concat(s, pending, head + (part + stop));
    lemma_feeds_concat(s.past(pending), head, part + stop);
    let t = s.past(pending).past(head);
    lemma_feeds_concat(t, part, stop);
    lemma_reads_decision(t, CTX_PART_MODE as int, 0, true);
    lemma_reads_terminate(t.past(part), true);
    lemma_contexts_after_all_wf(ctxs, all);
}

/// The end of a segment is read where its last codeword says so.
pub(crate) proof fn lemma_reads_end(f: Seq<bool>, base: Seq<bool>, ctxs: Seq<ContextModel>)
    requires
        contexts_wf(ctxs),
        ctxs.len() == CONTEXTS,
        begins(reached(base, ctxs, seq![Bin::Terminate { end: true }]).coder.out, f),
    ensures
        Decoder::start(f.skip(base.len() as int)) matches Ok(decoder) && (Source { decoder, ctxs }).terminate() matches Some(
            (end, t),
        ) && end && t.ctxs == ctxs && t.decoder.rest == f.skip(
            reached(base, ctxs, seq![Bin::Terminate { end: true }]).coder.out.len() as int,
        ),
{
    let none = Seq::<Bin>::empty();
    assert(none.push(Bin::Terminate { end: true }) =~= seq![Bin::Terminate { end: true }]);
    lemma_word_feeds(f, base, ctxs, none);
    let s = Source { decoder: Decoder::start(f.skip(base.len() as int))->Ok_0, ctxs };
    lemma_reads_terminate(s, true);
}

/// The blocks of a picture in raster order, up to `n`.
pub open spec fn blocks_until(pl: Planes, n: int) -> Seq<Seq<u8>> {
    Seq::new(n as nat, |a: int| pl.samples(a % pl.columns(), a / pl.columns()))
}

/// Bins that may stand before a unit in its codeword: none, or the flag that the segment
/// goes on.
pub open spec fn goes_on(pending: Seq<Bin>) -> bool {
    pending.len() == 0 || pending == seq![Bin::Terminate { end: false }]
}

proof fn lemma_opening(opts: Shape, columns: int, slice_start: int, addr: int, pending: Seq<Bin>)
    requires
        goes_on(pending),
    ensures
        opening(pending + ctb_sao_bins(opts, columns, slice_start, addr) + seq![decision_bin(CTX_PART_MODE as int, 0, true)]),
{
    let head = ctb_sao_bins(opts, columns, slice_start, addr);
    let part = seq![decision_bin(CTX_PART_MODE as int, 0, true)];
    assert(inner(pending, 1)) by {
        assert forall|i: int| 0 <= i < pending.len() implies inner_bin(#[trigger] pending[i]) by {}
    }
    assert(inner(head, 500)) by {
        if sao_on(opts) {
            let left = addr % columns > 0 && addr > slice_start;
            let up = addr / columns > 0 && addr - columns >= slice_start;
            let (a, b) = (declined(left), declined(up));
            let kind = seq![decision_bin(CTX_SAO_TYPE as int, 0, true)];
            let bits = sao_parameter_bits(opts.sao_luma_band);
            lemma_inner_bypass(bits);
            assert(bits.len() <= 100);
            assert(inner(a, 1) && inner(b, 1) && inner(kind, 1));
            lemma_inner_concat(a, 1, b, 1);
            lemma_inner_concat(a + b, 2, kind, 1);
            lemma_inner_concat(a + b + kind, 3, bypass_bins(bits), bits.len() as int);
        }
    }
    assert(inner(part, 1));
    lemma_inner_concat(pending, 1, head, 500);
    lemma_inner_concat(pending + head, 501, part, 1);
}

/// The blocks of a segment are read back, from the start of a codeword in which `pending`
/// has been read, up to the end of the segment.
pub(crate) proof fn lemma_reads_ctbs(
    f: Seq<bool>,
    base: Seq<bool>,
    ctxs: Seq<ContextModel>,
    pending: Seq<Bin>,
    pl: Planes,
    opts: Shape,
    slice_start: int,
    addr: int,
    end: int,
)
    requires
        f.len() % 8 == 0,
        contexts_wf(ctxs),
        ctxs.len() == CONTEXTS,
        goes_on(pending),
        0 <= addr < end <= pl.ctbs(),
        begins(ctbs_coded(pl, opts, reached(base, ctxs, pending), slice_start, addr, end).coder.out, f),
    ensures
        ({
            let done = ctbs_coded(pl, opts, reached(base, ctxs, pending), slice_start, addr, end);
            &&& Decoder::start(f.skip(base.len() as int)) matches Ok(decoder)
            &&& (Source { decoder, ctxs }).feeds(pending)
            &&& read_ctbs(
                (Source { decoder, ctxs }).past(pending),
                blocks_until(pl, addr),
                sao_on(opts),
                pl.columns(),
                slice_start,
                pl.ctbs(),
            ) == Some((blocks_until(pl, end), done.ctxs))
            &&& done.ctxs.len() == CONTEXTS
            &&& contexts_wf(done.ctxs)
        }),
    decreases end - addr,
{
    let columns = pl.columns();
    let head = ctb_sao_bins(opts, columns, slice_start, addr);
    let samples = pl.samples(addr % columns, addr / columns);
    let last = seq![Bin::Terminate { end: addr == end - 1 }];
    let s = reached(base, ctxs, pending);
    let u = s.with(head).with_pcm(samples);
    let v = u.with(last);
    let done = ctbs_coded(pl, opts, s, slice_start, addr, end);
    assert(done == ctbs_coded(pl, opts, v, slice_start, addr + 1, end));
    lemma_bins_begin(u.coder, u.ctxs, last);
    lemma_ctbs_begin(pl, opts, v, slice_start, addr + 1, end);
    lemma_begins_trans(v.coder.out, done.coder.out, f);
    lemma_begins_trans(u.coder.out, v.coder.out, f);
    lemma_opening(opts, columns, slice_start, addr, pending);
    lemma_reads_pcm(f, base, ctxs, pending, head, samples);
    let src = Source { decoder: Decoder::start(f.skip(base.len() as int))->Ok_0, ctxs };
    lemma_skips_sao(src.past(pending), opts, columns, slice_start, addr);
    assert(v == reached(u.coder.out, u.ctxs, last));
    assert(blocks_until(pl, addr).push(samples) =~= blocks_until(pl, addr + 1));
    if addr == end - 1 {
        lemma_reads_end(f, u.coder.out, u.ctxs);
        assert(done == v);
        assert(v.ctxs == u.ctxs) by {
            assert(last.skip(1).len() == 0);
            reveal_with_fuel(contexts_after_all, 2);
        }
    } else {
        lemma_reads_ctbs(f, u.coder.out, u.ctxs, last, pl, opts, slice_start, addr + 1, end);
        let again = Source { decoder: Decoder::start(f.skip(u.coder.out.len() as int))->Ok_0, ctxs: u.ctxs };
        lemma_reads_terminate(again, false);
    }
}

/// The planes that blocks in raster order make up.
pub open spec fn assembled(blocks: Seq<Seq<u8>>, width: int, height: int) -> Planes {
    let columns = width / 16;
    let c = width / 2;
    Planes {
        y: Seq::new(
            (width * height) as nat,
            |i: int|
                blocks[(i / width / 16) * columns + i % width / 16][16 * (i / width % 16) + i % width % 16],
        ),
        cb: Seq::new(
            (width * height / 4) as nat,
            |i: int| blocks[(i / c / 8) * columns + i % c / 8][256 + 8 * (i / c % 8) + i % c % 8],
        ),
        cr: Seq::new(
            (width * height / 4) as nat,
            |i: int| blocks[(i / c / 8) * columns + i % c / 8][320 + 8 * (i / c % 8) + i % c % 8],
        ),
        width,
        height,
    }
}

/// A picture is what its blocks make up.
pub(crate) proof fn lemma_assembled(pl: Planes)
    requires
        pl.wf(),
    ensures
        assembled(blocks_until(pl, pl.ctbs()), pl.width, pl.height) == pl,
{
    let (w, h, columns) = (pl.width, pl.height, pl.columns());
    let blocks = blocks_until(pl, pl.ctbs());
    let p = assembled(blocks, w, h);
    assert forall|i: int| 0 <= i < pl.y.len() implies p.y[i] == pl.y[i] by {
        lemma_ungrid(i, w, h);
        let (x, y) = (i % w, i / w);
        lemma_block_of(x / 16, y / 16, columns, h / 16);
        let k = 16 * (y % 16) + x % 16;
        assert(k / 16 == y % 16 && k % 16 == x % 16);
        assert(16 * (y / 16) + k / 16 == y && 16 * (x / 16) + k % 16 == x);
        assert(pl.samples(x / 16, y / 16)[k] == pl.y[y * w + x]);
        assert(blocks[(y / 16) * columns + x / 16] == pl.samples(x / 16, y / 16));
    }
    assert(p.y =~= pl.y);
    let c = w / 2;
    assert(w * h / 4 == c * (h / 2)) by {
        let d = h / 2;
        assert((2 * c) * (2 * d) == 4 * (c * d)) by (nonlinear_arith);
    }
    assert forall|i: int| 0 <= i < pl.cb.len() implies p.cb[i] == pl.cb[i] && p.cr[i] == pl.cr[i] by {
        lemma_ungrid(i, c, h / 2);
        let (x, y) = (i % c, i / c);
        lemma_block_of(x / 8, y / 8, columns, h / 16);
        let k = 8 * (y % 8) + x % 8;
        assert(k / 8 == y % 8 && k % 8 == x % 8);
        assert(8 * (y / 8) + k / 8 == y && 8 * (x / 8) + k % 8 == x);
        assert(pl.samples(x / 8, y / 8)[256 + k] == pl.cb[y * c + x]);
        assert(pl.samples(x / 8, y / 8)[320 + k] == pl.cr[y * c + x]);
        assert(blocks[(y / 8) * columns + x / 8] == pl.samples(x / 8, y / 8));
    }
    assert(p.cb =~= pl.cb);
    assert(p.cr =~= pl.cr);
}

} // verus!
