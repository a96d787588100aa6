//! What the payload of a residual-coded picture tells: the picture that its writer
//! returns as the reconstruction.
use vstd::prelude::*;
use crate::bins::{encode_bins, initial_contexts, lemma_encode_bins_concat, Bin};
use crate::bits::{aligned, bytes_bits, lemma_bytes_bits_concat, lemma_pack_bits, pack, se_bits, se_code_num, ue_bits};
use crate::cabac_encoder::Coder;
use crate::decision::{decision_pass, ModeSearch};
use crate::lossy::{
    access_unit, base_frame, found_grid, header_bits, offset_data, plain_data, search_prices, slice_rbsp, slice_recon,
    LoopFilter, MAX_PICTURE_SAMPLES,
};
use crate::nal::{
    escaped, frameable, header_bytes, law_strip_inverts_escape, law_unit_is_frameable, law_unit_roundtrip,
    law_walk_inverts_framing, start_code, stream_of, unit_bytes, unit_of, walk, NalError, Unit,
};
use crate::parameter_sets::{level_for, pps_bits, sps_bits, vps_bits};
use crate::forks::{lemma_part_concat, lemma_part_ue, parts};
use crate::pcm_laws::{
    begins, lemma_beginnings_agree, lemma_parameter_sets_stopped, lemma_pps_stopped, lemma_stop_byte, parsed, stopped,
};
use crate::picture::{whole_blocks, widened_frame, Frame, Samples};
use crate::rebuild::{law_reconstruction_follows_the_records, law_records_are_linked, lemma_rebuilt_size};
use crate::sao::{SaoCell, SaoModel};
use crate::sao_search::{
    band_pair, block_region, chroma_choice, chroma_sao, edge_pair, estimated_cell, estimated_grid, luma_sao, Region,
    SaoLambda,
};
use crate::slice::{blocks_bins, slice_data, Record};
use crate::slice_laws::{
    cell_signalled_whole, grid_signalled_whole, law_slice_data_tells_the_slice, signalled_whole,
};

verus! {

proof fn lemma_edge_whole(r: Region, class: int)
    requires
        0 <= class < 4,
    ensures
        signalled_whole(SaoModel { kind: 2, offsets: r.edge_offsets(class), band: 0, class }),
{
}

proof fn lemma_band_whole(r: Region, first: int)
    requires
        0 <= first < 32,
    ensures
        signalled_whole(SaoModel { kind: 1, offsets: r.band_offsets(first), band: first, class: 0 }),
{
}

proof fn lemma_luma_choice_whole(r: Region, lambda: SaoLambda, n: nat)
    requires
        n <= 36,
    ensures
        signalled_whole(r.luma_choice(lambda, n).model),
    decreases n,
{
    if n > 0 {
        lemma_luma_choice_whole(r, lambda, (n - 1) as nat);
        if n <= 4 {
            lemma_edge_whole(r, n - 1);
        } else {
            lemma_band_whole(r, n - 5);
        }
    }
}

proof fn lemma_best_band(r: Region, lambda: SaoLambda, n: nat)
    requires
        1 <= n <= 32,
    ensures
        0 <= r.best_band(lambda, n) < n,
    decreases n,
{
    if n > 1 {
        lemma_best_band(r, lambda, (n - 1) as nat);
    }
}

/// Two components that share what they must and hold nothing that is not signalled.
spec fn pair_whole(cb: SaoModel, cr: SaoModel) -> bool {
    &&& signalled_whole(cb)
    &&& signalled_whole(cr)
    &&& cb.kind == cr.kind
    &&& cb.class == cr.class
}

proof fn lemma_edge_pair_whole(cb: Region, cr: Region, lambda: SaoLambda, class: int)
    requires
        0 <= class < 4,
    ensures
        pair_whole(edge_pair(cb, cr, lambda, class).cb, edge_pair(cb, cr, lambda, class).cr),
{
    lemma_edge_whole(cb, class);
    lemma_edge_whole(cr, class);
    reveal(edge_pair);
}

proof fn lemma_band_pair_whole(cb: Region, cr: Region, lambda: SaoLambda)
    ensures
        pair_whole(band_pair(cb, cr, lambda).cb, band_pair(cb, cr, lambda).cr),
{
    let (fb, fr) = (cb.best_band(lambda, 32), cr.best_band(lambda, 32));
    lemma_best_band(cb, lambda, 32);
    lemma_best_band(cr, lambda, 32);
    lemma_band_whole(cb, fb);
    lemma_band_whole(cr, fr);
    reveal(band_pair);
}

proof fn lemma_chroma_choice_whole(cb: Region, cr: Region, lambda: SaoLambda, n: nat)
    requires
        n <= 5,
    ensures
        pair_whole(chroma_choice(cb, cr, lambda, n).cb, chroma_choice(cb, cr, lambda, n).cr),
    decreases n,
{
    if n > 0 {
        lemma_chroma_choice_whole(cb, cr, lambda, (n - 1) as nat);
        if n <= 4 {
            lemma_edge_pair_whole(cb, cr, lambda, n - 1);
        } else {
            lemma_band_pair_whole(cb, cr, lambda);
        }
    }
}

/// The offsets that the search finds are such that their syntax tells all of them.
pub proof fn law_found_offsets_are_signalled_whole(pic: Samples, src: Frame, luma: bool, chroma: bool, lambda: SaoLambda)
    ensures
        forall|i: int|
            0 <= i < estimated_grid(pic, src, luma, chroma, lambda).len() ==> cell_signalled_whole(
                #[trigger] estimated_grid(pic, src, luma, chroma, lambda)[i],
            ),
{
    let grid = estimated_grid(pic, src, luma, chroma, lambda);
    let columns = pic.width / 16;
    assert forall|i: int| 0 <= i < grid.len() implies cell_signalled_whole(#[trigger] grid[i]) by {
        let rx = i % columns;
        let ry = i / columns;
        let y = block_region(pic, src, 0, rx, ry);
        let cb = block_region(pic, src, 1, rx, ry);
        let cr = block_region(pic, src, 2, rx, ry);
        reveal(luma_sao);
        reveal(chroma_sao);
        lemma_luma_choice_whole(y, lambda, 36);
        lemma_chroma_choice_whole(cb, cr, lambda, 5);
        assert(grid[i] == estimated_cell(pic, src, luma, chroma, lambda, rx, ry));
    }
}

/// The start of the slice header, before the flags of the offsets.
spec fn header_start() -> Seq<bool> {
    Seq::<bool>::empty().push(true).push(false) + ue_bits(0) + ue_bits(2)
}

/// The header tells whether the offsets are kept.
proof fn lemma_header_tells(filter: LoopFilter, keep: bool, qp: int)
    requires
        filter.offsets(),
    ensures
        header_start().len() < header_bits(filter, keep, qp).len(),
        header_bits(filter, keep, qp)[header_start().len() as int] == keep,
{
}

/// The start of the slice header up to its QP.
spec fn header_before_qp(filter: LoopFilter, keep: bool) -> Seq<bool> {
    if filter.offsets() {
        header_start().push(keep).push(keep)
    } else {
        header_start()
    }
}

/// The header begins with its QP behind the flags of the offsets.
proof fn lemma_header_begins(filter: LoopFilter, keep: bool, qp: int, rest: Seq<bool>)
    ensures
        begins(header_before_qp(filter, keep) + se_bits(qp - 26), header_bits(filter, keep, qp) + rest),
{
    let delta = header_before_qp(filter, keep) + se_bits(qp - 26);
    let full = if filter.deblocks() || keep {
        delta.push(true)
    } else {
        delta
    };
    let stopped_bits = full.push(true);
    let whole = header_bits(filter, keep, qp) + rest;
    assert(whole.take(delta.len() as int) =~= delta) by {
        assert forall|i: int| 0 <= i < delta.len() implies whole.take(delta.len() as int)[i] == delta[i] by {
            assert(stopped_bits[i] == delta[i]);
        }
    }
}

/// Different QPs part.
proof fn lemma_qp_parts(u: int, v: int)
    requires
        u != v,
    ensures
        parts(se_bits(u), se_bits(v)),
{
    lemma_part_ue(se_code_num(u), se_code_num(v));
}

/// Payloads with the same bytes agree in their headers and their data.
proof fn lemma_payload_splits(filter: LoopFilter, k: bool, l: bool, qk: int, ql: int, a: Seq<u8>, b: Seq<u8>)
    requires
        k ==> filter.offsets(),
        l ==> filter.offsets(),
        pack(header_bits(filter, k, qk)) + a == pack(header_bits(filter, l, ql)) + b,
    ensures
        k == l,
        qk == ql,
        a == b,
{
    let (hk, hl) = (header_bits(filter, k, qk), header_bits(filter, l, ql));
    let (pk, pl) = (pack(hk), pack(hl));
    lemma_pack_bits(hk);
    lemma_pack_bits(hl);
    assert(aligned(hk) =~= hk);
    assert(aligned(hl) =~= hl);
    lemma_bytes_bits_concat(pk, a);
    lemma_bytes_bits_concat(pl, b);
    let f = bytes_bits(pk + a);
    if filter.offsets() {
        lemma_header_tells(filter, k, qk);
        lemma_header_tells(filter, l, ql);
        let n = header_start().len() as int;
        assert(f[n] == hk[n]);
        assert(f[n] == hl[n]);
    }
    assert(k == l);
    lemma_header_begins(filter, k, qk, bytes_bits(a));
    lemma_header_begins(filter, l, ql, bytes_bits(b));
    if qk != ql {
        let head = header_before_qp(filter, k);
        lemma_qp_parts(qk - 26, ql - 26);
        lemma_part_concat(head, se_bits(qk - 26), head, se_bits(ql - 26));
        lemma_beginnings_agree(head + se_bits(qk - 26), head + se_bits(ql - 26), f);
    }
    assert((pk + a).skip(pk.len() as int) =~= a);
    assert((pl + b).skip(pl.len() as int) =~= b);
}

/// The payload tells the picture: whatever the sources were and however their decisions
/// were searched, pictures of one size and filter setting whose slice payloads are the same
/// have the same QP and the same reconstruction.
pub proof fn law_payload_tells_the_picture(
    a: Frame,
    b: Frame,
    qp_a: int,
    qp_b: int,
    search_a: ModeSearch,
    search_b: ModeSearch,
    filter: LoopFilter,
    keep_a: bool,
    keep_b: bool,
)
    requires
        whole_blocks(a.width, a.height),
        a.width * a.height <= MAX_PICTURE_SAMPLES,
        a.width == b.width,
        a.height == b.height,
        keep_a ==> filter.offsets(),
        keep_b ==> filter.offsets(),
        slice_rbsp(a, qp_a, search_a, filter, keep_a) == slice_rbsp(b, qp_b, search_b, filter, keep_b),
    ensures
        keep_a == keep_b,
        qp_a == qp_b,
        slice_recon(a, qp_a, search_a, filter, keep_a) == slice_recon(b, qp_b, search_b, filter, keep_b),
{
    let columns = a.width / 16;
    let data_a = if keep_a {
        offset_data(a, qp_a, search_a)
    } else {
        plain_data(a, qp_a, search_a)
    };
    let data_b = if keep_b {
        offset_data(b, qp_b, search_b)
    } else {
        plain_data(b, qp_b, search_b)
    };
    lemma_payload_splits(filter, keep_a, keep_b, qp_a, qp_b, data_a, data_b);
    let qp = qp_a;
    let rs = decision_pass(a, qp, search_a).records;
    let ss = decision_pass(b, qp, search_b).records;
    law_records_are_linked(a, qp, search_a);
    law_records_are_linked(b, qp, search_b);
    law_reconstruction_follows_the_records(a, qp, search_a);
    law_reconstruction_follows_the_records(b, qp, search_b);
    lemma_unit_count(a.width, a.height);
    if keep_a {
        let g = found_grid(a, qp, search_a);
        let h = found_grid(b, qp, search_b);
        lemma_found_grid(a, qp, search_a);
        lemma_found_grid(b, qp, search_b);
        law_slice_data_tells_the_slice(rs, ss, Some(g), Some(h), qp, columns);
    } else {
        law_slice_data_tells_the_slice(rs, ss, None, None, qp, columns);
    }
}

pub proof fn lemma_unit_count(width: int, height: int)
    requires
        whole_blocks(width, height),
        width * height <= MAX_PICTURE_SAMPLES,
    ensures
        0 < (width / 16) * (height / 16) <= 0x40_0000_0000,
{
    let w = width / 16;
    let h = height / 16;
    assert(width == 16 * w && height == 16 * h);
    assert((16 * w) * (16 * h) == 256 * (w * h)) by (nonlinear_arith);
    assert(w * h > 0) by (nonlinear_arith)
        requires
            w > 0,
            h > 0,
    ;
}

/// The found offsets are there for every unit and told by their syntax.
pub proof fn lemma_found_grid(src: Frame, qp: int, search: ModeSearch)
    requires
        whole_blocks(src.width, src.height),
    ensures
        grid_signalled_whole(
            Some(found_grid(src, qp, search)),
            (src.width / 16) * (src.height / 16),
        ),
{
    let f = base_frame(src, qp, search, true);
    law_reconstruction_follows_the_records(src, qp, search);
    law_records_are_linked(src, qp, search);
    lemma_rebuilt_size(decision_pass(src, qp, search).records, src.width, src.height, qp, decision_pass(src, qp, search).records.len());
    assert(f.width == src.width && f.height == src.height);
    law_found_offsets_are_signalled_whole(widened_frame(f), src, true, true, search_prices(qp));
    let n = (src.width / 16) * (src.height / 16);
    assert(n >= 0) by (nonlinear_arith)
        requires
            src.width > 0,
            src.height > 0,
            n == (src.width / 16) * (src.height / 16),
    ;
    assert(found_grid(src, qp, search).len() == n);
}

/// The access unit tells the picture, as its slice payload does.
pub proof fn law_access_unit_tells_the_picture(
    a: Frame,
    b: Frame,
    width: usize,
    height: usize,
    qp_a: int,
    qp_b: int,
    search_a: ModeSearch,
    search_b: ModeSearch,
    keep_a: bool,
    keep_b: bool,
)
    requires
        whole_blocks(width as int, height as int),
        width * height <= MAX_PICTURE_SAMPLES,
        a.width == width,
        a.height == height,
        b.width == width,
        b.height == height,
        access_unit(width, height, slice_rbsp(a, qp_a, search_a, LoopFilter::DeblockSao, keep_a)) == access_unit(
            width,
            height,
            slice_rbsp(b, qp_b, search_b, LoopFilter::DeblockSao, keep_b),
        ),
    ensures
        slice_recon(a, qp_a, search_a, LoopFilter::DeblockSao, keep_a) == slice_recon(
            b,
            qp_b,
            search_b,
            LoopFilter::DeblockSao,
            keep_b,
        ),
{
    let ra = slice_rbsp(a, qp_a, search_a, LoopFilter::DeblockSao, keep_a);
    let rb = slice_rbsp(b, qp_b, search_b, LoopFilter::DeblockSao, keep_b);
    lemma_same_payload(width, height, ra, rb);
    law_payload_tells_the_picture(a, b, qp_a, qp_b, search_a, search_b, LoopFilter::DeblockSao, keep_a, keep_b);
}

/// Access units with the same bytes have the same payload.
proof fn lemma_same_payload(width: usize, height: usize, ra: Seq<u8>, rb: Seq<u8>)
    requires
        access_unit(width, height, ra) == access_unit(width, height, rb),
    ensures
        ra == rb,
{
    let level = level_for(width * height);
    let sets = seq![
        unit_bytes(32, 0, 0, pack(vps_bits(level, 1, 0))),
        unit_bytes(33, 0, 0, pack(sps_bits(width, height, level, true, true))),
        unit_bytes(34, 0, 0, pack(pps_bits(false, true, false, None, false))),
    ];
    let ua = unit_bytes(20, 0, 0, ra);
    let ub = unit_bytes(20, 0, 0, rb);
    let head = stream_of(sets) + start_code();
    assert(access_unit(width, height, ra) == head + ua) by {
        let units = sets.push(ua);
        assert(units =~= seq![sets[0], sets[1], sets[2], ua]);
        assert(units.drop_last() =~= sets);
    }
    assert(access_unit(width, height, rb) == head + ub) by {
        let units = sets.push(ub);
        assert(units =~= seq![sets[0], sets[1], sets[2], ub]);
        assert(units.drop_last() =~= sets);
    }
    assert((head + ua).skip(head.len() as int) =~= ua);
    assert((head + ub).skip(head.len() as int) =~= ub);
    let h = header_bytes(20, 0, 0);
    assert(ua.skip(h.len() as int) =~= escaped(ra));
    assert(ub.skip(h.len() as int) =~= escaped(rb));
    law_strip_inverts_escape(ra);
    law_strip_inverts_escape(rb);
}

/// Coded slice data ends in a byte other than zero.
proof fn lemma_data_stops(records: Seq<Record>, sao: Option<Seq<SaoCell>>, qp: int, columns: int)
    requires
        records.len() > 0,
    ensures
        slice_data(records, sao, qp, columns).len() > 0,
        slice_data(records, sao, qp, columns).last() != 0,
{
    let n = records.len();
    let bins = blocks_bins(records, sao, columns, n);
    let end = Bin::Terminate { end: true };
    let head = bins.drop_last();
    assert(bins.last() == end);
    assert(bins =~= head + seq![end]);
    let c = Coder::start(Seq::empty());
    let ctxs = initial_contexts(qp);
    lemma_encode_bins_concat(c, ctxs, head, seq![end]);
    reveal_with_fuel(encode_bins, 2);
    assert(seq![end].skip(1).len() == 0);
    let out = encode_bins(c, ctxs, bins).out;
    assert(out.len() > 0 && out.last());
    assert(stopped(aligned(out)));
    lemma_stop_byte(aligned(out));
}

/// The slice payload ends in a byte other than zero.
pub proof fn lemma_payload_stops(src: Frame, qp: int, search: ModeSearch, filter: LoopFilter, keep: bool)
    requires
        whole_blocks(src.width, src.height),
    ensures
        slice_rbsp(src, qp, search, filter, keep).len() > 0,
        slice_rbsp(src, qp, search, filter, keep).last() != 0,
{
    law_records_are_linked(src, qp, search);
    let count = (src.width / 16) * (src.height / 16);
    assert(count > 0) by (nonlinear_arith)
        requires
            src.width / 16 > 0,
            src.height / 16 > 0,
            count == (src.width / 16) * (src.height / 16),
    ;
    let records = decision_pass(src, qp, search).records;
    lemma_data_stops(records, None, qp, src.width / 16);
    lemma_data_stops(records, Some(found_grid(src, qp, search)), qp, src.width / 16);
}

/// A payload that ends in a byte other than zero is framed and read back.
pub proof fn lemma_framed(kind: int, payload: Seq<u8>)
    requires
        0 <= kind < 64,
        payload.len() > 0,
        payload.last() != 0,
    ensures
        frameable(unit_bytes(kind, 0, 0, payload)),
        unit_of(unit_bytes(kind, 0, 0, payload)) == Ok::<Unit, NalError>(parsed(kind, payload)),
{
    law_unit_is_frameable(kind, 0, 0, payload);
    law_unit_roundtrip(kind, 0, 0, payload);
}

/// Four units are walked back.
proof fn lemma_four_units(a: Seq<u8>, b: Seq<u8>, c: Seq<u8>, d: Seq<u8>, p: Unit, q: Unit, r: Unit, s: Unit)
    requires
        frameable(a) && unit_of(a) == Ok::<Unit, NalError>(p),
        frameable(b) && unit_of(b) == Ok::<Unit, NalError>(q),
        frameable(c) && unit_of(c) == Ok::<Unit, NalError>(r),
        frameable(d) && unit_of(d) == Ok::<Unit, NalError>(s),
    ensures
        walk(Seq::empty(), stream_of(seq![a, b, c, d]), 0) == Ok::<Seq<Unit>, NalError>(seq![p, q, r, s]),
{
    let units = seq![a, b, c, d];
    let found = seq![p, q, r, s];
    assert forall|j: int| 0 <= j < units.len() implies frameable(#[trigger] units[j]) && unit_of(units[j]) == Ok::<
        Unit,
        NalError,
    >(found[j]) by {
        if j == 0 {
        } else if j == 1 {
        } else if j == 2 {
        } else {
        }
    }
    law_walk_inverts_framing(units, found);
}

/// Walking the access unit of a residual-coded picture finds its parameter sets and its
/// slice payload.
pub proof fn law_access_unit_walks_back(
    src: Frame,
    width: usize,
    height: usize,
    qp: int,
    search: ModeSearch,
    filter: LoopFilter,
    keep: bool,
)
    requires
        whole_blocks(width as int, height as int),
        src.width == width,
        src.height == height,
    ensures
        ({
            let level = level_for(width * height);
            let rbsp = slice_rbsp(src, qp, search, filter, keep);
            walk(Seq::empty(), access_unit(width, height, rbsp), 0) == Ok::<Seq<Unit>, NalError>(
                seq![
                    parsed(32, pack(vps_bits(level, 1, 0))),
                    parsed(33, pack(sps_bits(width, height, level, true, true))),
                    parsed(34, pack(pps_bits(false, true, false, None, false))),
                    parsed(20, rbsp),
                ],
            )
        }),
{
    let level = level_for(width * height);
    let rbsp = slice_rbsp(src, qp, search, filter, keep);
    let vps = pack(vps_bits(level, 1, 0));
    let sps = pack(sps_bits(width, height, level, true, true));
    let pps = pack(pps_bits(false, true, false, None, false));
    lemma_parameter_sets_stopped(width, height, level, true, true);
    lemma_pps_stopped(false, true, None);
    lemma_stop_byte(vps_bits(level, 1, 0));
    lemma_stop_byte(sps_bits(width, height, level, true, true));
    lemma_stop_byte(pps_bits(false, true, false, None, false));
    lemma_payload_stops(src, qp, search, filter, keep);
    lemma_framed(32, vps);
    lemma_framed(33, sps);
    lemma_framed(34, pps);
    lemma_framed(20, rbsp);
    lemma_four_units(
        unit_bytes(32, 0, 0, vps),
        unit_bytes(33, 0, 0, sps),
        unit_bytes(34, 0, 0, pps),
        unit_bytes(20, 0, 0, rbsp),
        parsed(32, vps),
        parsed(33, sps),
        parsed(34, pps),
        parsed(20, rbsp),
    );
}

} // verus!
