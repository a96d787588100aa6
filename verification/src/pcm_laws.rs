//! What the payload of a PCM picture tells: every sample of it.
use vstd::prelude::*;
use vstd::arithmetic::power2::{lemma_pow2_pos, pow2};
use crate::arith::{lemma_grid, lemma_pow2_bound, lemma_ungrid};
use crate::bins::{contexts_after, encode_bin, encode_bins, initial_contexts, Bin};
use crate::bits::{
    aligned, be_bits, bit_at, bytes_bits, lemma_bytes_bits_concat, lemma_bytes_bits_injective, lemma_pack_bits,
    lemma_width, pack, padding, se_bits, ue_bits, width, zeros,
};
use crate::cabac::{lps_range, ContextModel};
use crate::cabac_encoder::Coder;
use crate::forks::{lemma_part_concat, lemma_part_ue, lemma_part_value, part_at, parts};
use crate::nal::{
    escaped, frameable, law_unit_is_frameable, law_unit_roundtrip, law_walk_inverts_framing, stream_of, unit_bytes,
    unit_of, walk, NalError, NalHeader, Unit,
};
use crate::parameter_sets::{pps_bits, sps_bits, vps_bits, SLICE_QP};
use crate::pcm::{
    au_outcome, ctb_sao_bins, ctbs_coded, dependent_mode, dimensions_ok, entry_points, joined, lemma_uniform, level_of, offset_bits,
    offsets_behind, options_ok, pcm_bins, pcm_units, plan_of, sao_on, segment_end, segment_header, segment_start, segments_from,
    slice_payloads, slice_segments, slice_start_of, tile_ctbs_coded, tile_of, tile_subset, tile_subsets, tiled_header,
    tiled_slice, Planes, Shape, SliceState, Tile,
};

verus! {

/// `b` begins with `a`.
pub open spec fn begins(a: Seq<bool>, b: Seq<bool>) -> bool {
    &&& a.len() <= b.len()
    &&& b.take(a.len() as int) == a
}

pub(crate) proof fn lemma_begins_concat(a: Seq<bool>, x: Seq<bool>)
    ensures
        begins(a, a + x),
{
    assert((a + x).take(a.len() as int) =~= a);
}

pub(crate) proof fn lemma_begins_trans(a: Seq<bool>, b: Seq<bool>, c: Seq<bool>)
    requires
        begins(a, b),
        begins(b, c),
    ensures
        begins(a, c),
{
    assert(c.take(b.len() as int).take(a.len() as int) =~= c.take(a.len() as int));
}

/// Two beginnings of one length are the same.
proof fn lemma_begins_same(a: Seq<bool>, b: Seq<bool>, f: Seq<bool>)
    requires
        begins(a, f),
        begins(b, f),
        a.len() == b.len(),
    ensures
        a == b,
{
}

proof fn lemma_put_begins(c: Coder, b: bool)
    ensures
        begins(c.out, c.put(b).out),
{
    assert(c.put(b).out.take(c.out.len() as int) =~= c.out);
}

proof fn lemma_emit_begins(c: Coder, half: int)
    ensures
        begins(c.out, c.emit(half).out),
{
    lemma_put_begins(c.with_low(c.low - half), true);
    lemma_put_begins(c, false);
    assert(c.out.take(c.out.len() as int) =~= c.out);
}

proof fn lemma_renorm_begins(c: Coder)
    ensures
        begins(c.out, c.renorm().out),
    decreases 512 - c.range,
{
    if 0 < c.range < 256 {
        lemma_emit_begins(c, 512);
        lemma_renorm_begins(c.shift());
        lemma_begins_trans(c.out, c.shift().out, c.renorm().out);
    } else {
        assert(c.out.take(c.out.len() as int) =~= c.out);
    }
}

proof fn lemma_flush_begins(c: Coder)
    ensures
        begins(c.out, c.flush().out),
{
    let r = Coder { range: 2, ..c }.renorm();
    lemma_renorm_begins(Coder { range: 2, ..c });
    let b = (r.low / 512) % 2 == 1;
    lemma_put_begins(r, b);
    let d = r.put(b);
    let out = d.out.push((r.low / 256) % 2 == 1).push(true);
    assert(out =~= d.out + seq![(r.low / 256) % 2 == 1, true]);
    lemma_begins_concat(d.out, seq![(r.low / 256) % 2 == 1, true]);
    lemma_begins_trans(c.out, r.out, d.out);
    lemma_begins_trans(c.out, d.out, out);
}

/// Coding a bin leaves the bits before it alone.
proof fn lemma_bin_begins(c: Coder, ctxs: Seq<ContextModel>, b: Bin)
    ensures
        begins(c.out, encode_bin(c, ctxs, b).out),
{
    match b {
        Bin::Decision { ctx, bin } => {
            let lps = lps_range(ctxs[ctx as int], c.range as int);
            lemma_renorm_begins(c.narrowed(0, c.range - lps));
            lemma_renorm_begins(c.narrowed(c.range - lps, lps));
        },
        Bin::Bypass { bit } => {
            lemma_emit_begins(
                c.with_low(2 * c.low + if bit {
                    c.range as int
                } else {
                    0
                }),
                1024,
            );
        },
        Bin::Terminate { end } => {
            lemma_renorm_begins(c.narrowed(0, c.range - 2));
            lemma_flush_begins(c.narrowed(c.range - 2, 2));
        },
    }
}

/// Coding bins leaves the bits before them alone.
pub(crate) proof fn lemma_bins_begin(c: Coder, ctxs: Seq<ContextModel>, bins: Seq<Bin>)
    ensures
        begins(c.out, encode_bins(c, ctxs, bins).out),
    decreases bins.len(),
{
    if bins.len() == 0 {
        assert(c.out.take(c.out.len() as int) =~= c.out);
    } else {
        let d = encode_bin(c, ctxs, bins[0]);
        lemma_bin_begins(c, ctxs, bins[0]);
        lemma_bins_begin(d, contexts_after(ctxs, bins[0]), bins.skip(1));
        lemma_begins_trans(c.out, d.out, encode_bins(c, ctxs, bins).out);
    }
}

/// A PCM unit leaves the bits before it alone.
pub(crate) proof fn lemma_pcm_begins(s: SliceState, samples: Seq<u8>)
    ensures
        begins(s.coder.out, s.with_pcm(samples).coder.out),
{
    let t = s.with(pcm_bins());
    lemma_bins_begin(s.coder, s.ctxs, pcm_bins());
    lemma_begins_concat(t.coder.out, zeros(padding(t.coder.out.len())));
    lemma_begins_trans(s.coder.out, t.coder.out, aligned(t.coder.out));
    lemma_begins_concat(aligned(t.coder.out), bytes_bits(samples));
    lemma_begins_trans(s.coder.out, aligned(t.coder.out), s.with_pcm(samples).coder.out);
}

/// Two PCM units behind the same bits of one stream hold the same samples.
proof fn lemma_same_samples(s: SliceState, a: Seq<u8>, b: Seq<u8>, f: Seq<bool>)
    requires
        a.len() == b.len(),
        begins(s.with_pcm(a).coder.out, f),
        begins(s.with_pcm(b).coder.out, f),
    ensures
        a == b,
{
    let head = aligned(s.with(pcm_bins()).coder.out);
    lemma_begins_same(head + bytes_bits(a), head + bytes_bits(b), f);
    assert((head + bytes_bits(a)).skip(head.len() as int) =~= bytes_bits(a));
    assert((head + bytes_bits(b)).skip(head.len() as int) =~= bytes_bits(b));
    lemma_bytes_bits_injective(a, b);
}

pub(crate) proof fn lemma_ctbs_begin(pl: Planes, opts: Shape, s: SliceState, slice_start: int, addr: int, end: int)
    ensures
        begins(s.coder.out, ctbs_coded(pl, opts, s, slice_start, addr, end).coder.out),
    decreases end - addr,
{
    if addr >= end {
        assert(s.coder.out.take(s.coder.out.len() as int) =~= s.coder.out);
    } else {
        let columns = pl.columns();
        let bins = ctb_sao_bins(opts, columns, slice_start, addr);
        let samples = pl.samples(addr % columns, addr / columns);
        let last = seq![Bin::Terminate { end: addr == end - 1 }];
        let t = s.with(bins);
        let u = t.with_pcm(samples);
        let v = u.with(last);
        lemma_bins_begin(s.coder, s.ctxs, bins);
        lemma_pcm_begins(t, samples);
        lemma_bins_begin(u.coder, u.ctxs, last);
        lemma_ctbs_begin(pl, opts, v, slice_start, addr + 1, end);
        let out = ctbs_coded(pl, opts, s, slice_start, addr, end).coder.out;
        lemma_begins_trans(s.coder.out, t.coder.out, u.coder.out);
        lemma_begins_trans(s.coder.out, u.coder.out, v.coder.out);
        lemma_begins_trans(s.coder.out, v.coder.out, out);
    }
}

/// Block `a` has the same samples in both pictures.
pub open spec fn same_block(p: Planes, q: Planes, a: int) -> bool {
    p.samples(a % p.columns(), a / p.columns()) == q.samples(a % p.columns(), a / p.columns())
}

/// Two pictures whose blocks are coded into beginnings of one stream have the same blocks.
proof fn lemma_ctbs_same(
    p: Planes,
    q: Planes,
    opts: Shape,
    s: SliceState,
    slice_start: int,
    addr: int,
    end: int,
    f: Seq<bool>,
)
    requires
        p.width == q.width,
        begins(ctbs_coded(p, opts, s, slice_start, addr, end).coder.out, f),
        begins(ctbs_coded(q, opts, s, slice_start, addr, end).coder.out, f),
    ensures
        ctbs_coded(p, opts, s, slice_start, addr, end) == ctbs_coded(q, opts, s, slice_start, addr, end),
        forall|a: int| addr <= a < end ==> #[trigger] same_block(p, q, a),
    decreases end - addr,
{
    if addr < end {
        let columns = p.columns();
        let bins = ctb_sao_bins(opts, columns, slice_start, addr);
        let a = p.samples(addr % columns, addr / columns);
        let b = q.samples(addr % columns, addr / columns);
        let last = seq![Bin::Terminate { end: addr == end - 1 }];
        let t = s.with(bins);
        let (ua, ub) = (t.with_pcm(a), t.with_pcm(b));
        let (va, vb) = (ua.with(last), ub.with(last));
        lemma_bins_begin(ua.coder, ua.ctxs, last);
        lemma_bins_begin(ub.coder, ub.ctxs, last);
        lemma_ctbs_begin(p, opts, va, slice_start, addr + 1, end);
        lemma_ctbs_begin(q, opts, vb, slice_start, addr + 1, end);
        let out_p = ctbs_coded(p, opts, s, slice_start, addr, end).coder.out;
        let out_q = ctbs_coded(q, opts, s, slice_start, addr, end).coder.out;
        lemma_begins_trans(ua.coder.out, va.coder.out, out_p);
        lemma_begins_trans(ub.coder.out, vb.coder.out, out_q);
        lemma_begins_trans(ua.coder.out, out_p, f);
        lemma_begins_trans(ub.coder.out, out_q, f);
        lemma_same_samples(t, a, b, f);
        lemma_ctbs_same(p, q, opts, va, slice_start, addr + 1, end, f);
        assert(same_block(p, q, addr));
    }
}

/// Segments are added behind those already there.
pub(crate) proof fn lemma_segments_kept(
    out: Seq<Seq<u8>>,
    pl: Planes,
    opts: Shape,
    plan: Seq<(int, Option<bool>)>,
    k: int,
    ctxs: Seq<ContextModel>,
    slice_start: int,
)
    requires
        0 <= k <= plan.len(),
    ensures
        segments_from(out, pl, opts, plan, k, ctxs, slice_start).len() == out.len() + plan.len() - k,
        segments_from(out, pl, opts, plan, k, ctxs, slice_start).take(out.len() as int) == out,
    decreases plan.len() - k,
{
    if k >= plan.len() {
        assert(out.take(out.len() as int) =~= out);
    } else {
        let start = slice_start_of(plan, k, slice_start);
        let s = ctbs_coded(
            pl,
            opts,
            segment_start(opts, plan, k, pl.ctbs(), ctxs),
            start,
            plan[k].0,
            segment_end(plan, k, pl.ctbs()),
        );
        let more = out.push(pack(aligned(s.coder.out)));
        lemma_segments_kept(more, pl, opts, plan, k + 1, s.ctxs, start);
        let all = segments_from(out, pl, opts, plan, k, ctxs, slice_start);
        assert(all.take(more.len() as int).take(out.len() as int) =~= all.take(out.len() as int));
        assert(more.take(out.len() as int) =~= out);
    }
}

/// The bits of a packed slice begin with the slice.
pub(crate) proof fn lemma_packed_begins(s: Seq<bool>)
    ensures
        begins(s, bytes_bits(pack(aligned(s)))),
{
    lemma_pack_bits(aligned(s));
    assert(aligned(aligned(s)) =~= aligned(s));
    lemma_begins_concat(s, zeros(padding(s.len())));
}

proof fn lemma_segments_same(
    out: Seq<Seq<u8>>,
    p: Planes,
    q: Planes,
    opts: Shape,
    plan: Seq<(int, Option<bool>)>,
    k: int,
    ctxs: Seq<ContextModel>,
    slice_start: int,
)
    requires
        p.width == q.width,
        p.height == q.height,
        0 <= k <= plan.len(),
        segments_from(out, p, opts, plan, k, ctxs, slice_start) == segments_from(
            out,
            q,
            opts,
            plan,
            k,
            ctxs,
            slice_start,
        ),
    ensures
        k < plan.len() ==> forall|a: int| plan[k].0 <= a < p.ctbs() ==> #[trigger] same_block(p, q, a),
    decreases plan.len() - k,
{
    if k < plan.len() {
        let total = p.ctbs();
        let start = slice_start_of(plan, k, slice_start);
        let first = segment_start(opts, plan, k, total, ctxs);
        let end = segment_end(plan, k, total);
        let sp = ctbs_coded(p, opts, first, start, plan[k].0, end);
        let sq = ctbs_coded(q, opts, first, start, plan[k].0, end);
        let (bp, bq) = (pack(aligned(sp.coder.out)), pack(aligned(sq.coder.out)));
        let all = segments_from(out, p, opts, plan, k, ctxs, slice_start);
        lemma_segments_kept(out.push(bp), p, opts, plan, k + 1, sp.ctxs, start);
        lemma_segments_kept(out.push(bq), q, opts, plan, k + 1, sq.ctxs, start);
        let n = out.len() as int;
        assert(all.take(n + 1)[n] == bp && all.take(n + 1)[n] == bq);
        let f = bytes_bits(bp);
        lemma_packed_begins(sp.coder.out);
        lemma_packed_begins(sq.coder.out);
        lemma_ctbs_same(p, q, opts, first, start, plan[k].0, end, f);
        lemma_segments_same(out.push(bp), p, q, opts, plan, k + 1, sp.ctxs, start);
        assert forall|a: int| plan[k].0 <= a < total implies #[trigger] same_block(p, q, a) by {
            if a >= end {
                assert(k + 1 < plan.len());
            }
        }
    }
}

/// A picture is the samples of its blocks.
proof fn lemma_blocks_are_the_picture(p: Planes, q: Planes)
    requires
        p.wf(),
        q.wf(),
        p.width == q.width,
        p.height == q.height,
        forall|a: int| 0 <= a < p.ctbs() ==> #[trigger] same_block(p, q, a),
    ensures
        p.y == q.y,
        p.cb == q.cb,
        p.cr == q.cr,
{
    let w = p.width;
    let h = p.height;
    let columns = p.columns();
    assert forall|i: int| 0 <= i < p.y.len() implies p.y[i] == q.y[i] by {
        lemma_ungrid(i, w, h);
        let (x, y) = (i % w, i / w);
        lemma_block_of(x / 16, y / 16, columns, h / 16);
        let a = (y / 16) * columns + x / 16;
        assert(same_block(p, q, a));
        let k = 16 * (y % 16) + x % 16;
        assert(k / 16 == y % 16 && k % 16 == x % 16);
        assert(16 * (y / 16) + k / 16 == y && 16 * (x / 16) + k % 16 == x);
        assert(p.samples(x / 16, y / 16)[k] == p.y[y * w + x]);
        assert(q.samples(x / 16, y / 16)[k] == q.y[y * w + x]);
        assert(y * w + x == i);
    }
    assert(p.y =~= q.y);
    let c = w / 2;
    assert(w * h / 4 == c * (h / 2)) by {
        let d = h / 2;
        assert((2 * c) * (2 * d) == 4 * (c * d)) by (nonlinear_arith);
    }
    assert forall|i: int| 0 <= i < p.cb.len() implies p.cb[i] == q.cb[i] && p.cr[i] == q.cr[i] by {
        lemma_ungrid(i, c, h / 2);
        let (x, y) = (i % c, i / c);
        lemma_block_of(x / 8, y / 8, columns, h / 16);
        let a = (y / 8) * columns + x / 8;
        assert(same_block(p, q, a));
        let k = 8 * (y % 8) + x % 8;
        assert(k / 8 == y % 8 && k % 8 == x % 8);
        assert(8 * (y / 8) + k / 8 == y && 8 * (x / 8) + k % 8 == x);
        assert(p.samples(x / 8, y / 8)[256 + k] == p.cb[y * c + x]);
        assert(q.samples(x / 8, y / 8)[256 + k] == q.cb[y * c + x]);
        assert(p.samples(x / 8, y / 8)[320 + k] == p.cr[y * c + x]);
        assert(q.samples(x / 8, y / 8)[320 + k] == q.cr[y * c + x]);
        assert(y * c + x == i);
    }
    assert(p.cb =~= q.cb);
    assert(p.cr =~= q.cr);
}

/// The block in column `cx` and row `cy`.
pub(crate) proof fn lemma_block_of(cx: int, cy: int, columns: int, rows: int)
    requires
        0 <= cx < columns,
        0 <= cy < rows,
    ensures
        0 <= cy * columns + cx < columns * rows,
        (cy * columns + cx) % columns == cx,
        (cy * columns + cx) / columns == cy,
{
    lemma_grid(cy, cx, columns, rows);
}

/// The slice segments tell every sample: pictures of one size and shape with the same
/// payloads are the same.
pub proof fn law_segments_tell_the_samples(p: Planes, q: Planes, opts: Shape)
    requires
        p.wf(),
        q.wf(),
        p.width == q.width,
        p.height == q.height,
        options_ok(opts, p.width, p.height),
        slice_segments(p, opts) == slice_segments(q, opts),
    ensures
        p == q,
{
    let plan = plan_of(opts, p.ctbs());
    lemma_segments_same(Seq::empty(), p, q, opts, plan, 0, initial_contexts(SLICE_QP as int), 0);
    assert(plan[0].0 == 0);
    lemma_blocks_are_the_picture(p, q);
}

pub(crate) proof fn lemma_tile_begins(pl: Planes, tile: Tile, s: SliceState, t: int, last: bool)
    ensures
        begins(s.coder.out, tile_ctbs_coded(pl, tile, s, t, last).coder.out),
    decreases tile.ctbs() - t,
{
    if t >= tile.ctbs() {
        assert(s.coder.out.take(s.coder.out.len() as int) =~= s.coder.out);
    } else {
        let samples = pl.samples(tile.x0 + t % tile.columns(), tile.y0 + t / tile.columns());
        let end = seq![Bin::Terminate { end: last && t == tile.ctbs() - 1 }];
        let u = s.with_pcm(samples);
        let v = u.with(end);
        lemma_pcm_begins(s, samples);
        lemma_bins_begin(u.coder, u.ctxs, end);
        lemma_tile_begins(pl, tile, v, t + 1, last);
        let out = tile_ctbs_coded(pl, tile, s, t, last).coder.out;
        lemma_begins_trans(s.coder.out, u.coder.out, v.coder.out);
        lemma_begins_trans(s.coder.out, v.coder.out, out);
    }
}

/// Block `t` of a tile has the same samples in both pictures.
pub open spec fn same_in_tile(p: Planes, q: Planes, tile: Tile, t: int) -> bool {
    p.samples(tile.x0 + t % tile.columns(), tile.y0 + t / tile.columns()) == q.samples(
        tile.x0 + t % tile.columns(),
        tile.y0 + t / tile.columns(),
    )
}

proof fn lemma_tile_same(p: Planes, q: Planes, tile: Tile, s: SliceState, t: int, last: bool, f: Seq<bool>)
    requires
        begins(tile_ctbs_coded(p, tile, s, t, last).coder.out, f),
        begins(tile_ctbs_coded(q, tile, s, t, last).coder.out, f),
    ensures
        tile_ctbs_coded(p, tile, s, t, last) == tile_ctbs_coded(q, tile, s, t, last),
        forall|a: int| t <= a < tile.ctbs() ==> #[trigger] same_in_tile(p, q, tile, a),
    decreases tile.ctbs() - t,
{
    if t < tile.ctbs() {
        let a = p.samples(tile.x0 + t % tile.columns(), tile.y0 + t / tile.columns());
        let b = q.samples(tile.x0 + t % tile.columns(), tile.y0 + t / tile.columns());
        let end = seq![Bin::Terminate { end: last && t == tile.ctbs() - 1 }];
        let (ua, ub) = (s.with_pcm(a), s.with_pcm(b));
        let (va, vb) = (ua.with(end), ub.with(end));
        lemma_bins_begin(ua.coder, ua.ctxs, end);
        lemma_bins_begin(ub.coder, ub.ctxs, end);
        lemma_tile_begins(p, tile, va, t + 1, last);
        lemma_tile_begins(q, tile, vb, t + 1, last);
        let out_p = tile_ctbs_coded(p, tile, s, t, last).coder.out;
        let out_q = tile_ctbs_coded(q, tile, s, t, last).coder.out;
        lemma_begins_trans(ua.coder.out, va.coder.out, out_p);
        lemma_begins_trans(ub.coder.out, vb.coder.out, out_q);
        lemma_begins_trans(ua.coder.out, out_p, f);
        lemma_begins_trans(ub.coder.out, out_q, f);
        lemma_same_samples(s, a, b, f);
        lemma_tile_same(p, q, tile, va, t + 1, last, f);
        assert(same_in_tile(p, q, tile, t));
    }
}

/// Two subsets that begin one stream hold the same tile.
proof fn lemma_subset_same(p: Planes, q: Planes, tile: Tile, last: bool, f: Seq<bool>)
    requires
        begins(bytes_bits(tile_subset(p, tile, last)), f),
        begins(bytes_bits(tile_subset(q, tile, last)), f),
    ensures
        tile_subset(p, tile, last) == tile_subset(q, tile, last),
        forall|a: int| 0 <= a < tile.ctbs() ==> #[trigger] same_in_tile(p, q, tile, a),
{
    let s = SliceState { coder: Coder::start(Seq::empty()), ctxs: initial_contexts(SLICE_QP as int) };
    let tp = tile_ctbs_coded(p, tile, s, 0, last);
    let tq = tile_ctbs_coded(q, tile, s, 0, last);
    let end = seq![Bin::Terminate { end: true }];
    let ep = if last {
        tp
    } else {
        tp.with(end)
    };
    let eq = if last {
        tq
    } else {
        tq.with(end)
    };
    lemma_bins_begin(tp.coder, tp.ctxs, end);
    lemma_bins_begin(tq.coder, tq.ctxs, end);
    assert(tp.coder.out.take(tp.coder.out.len() as int) =~= tp.coder.out);
    assert(tq.coder.out.take(tq.coder.out.len() as int) =~= tq.coder.out);
    lemma_packed_begins(ep.coder.out);
    lemma_packed_begins(eq.coder.out);
    lemma_begins_trans(tp.coder.out, ep.coder.out, bytes_bits(tile_subset(p, tile, last)));
    lemma_begins_trans(tq.coder.out, eq.coder.out, bytes_bits(tile_subset(q, tile, last)));
    lemma_begins_trans(tp.coder.out, bytes_bits(tile_subset(p, tile, last)), f);
    lemma_begins_trans(tq.coder.out, bytes_bits(tile_subset(q, tile, last)), f);
    lemma_tile_same(p, q, tile, s, 0, last, f);
}

/// Part `k` stands behind the parts before it.
pub(crate) proof fn lemma_joined_begins(parts: Seq<Seq<u8>>, k: nat, n: nat)
    requires
        k < n <= parts.len(),
    ensures
        begins(bytes_bits(joined(parts, k)) + bytes_bits(parts[k as int]), bytes_bits(joined(parts, n))),
    decreases n,
{
    let m = (n - 1) as nat;
    lemma_bytes_bits_concat(joined(parts, m), parts[m as int]);
    let whole = bytes_bits(joined(parts, n));
    if k == m {
        assert(whole.take(whole.len() as int) =~= whole);
    } else {
        lemma_joined_begins(parts, k, m);
        lemma_begins_concat(bytes_bits(joined(parts, m)), bytes_bits(parts[m as int]));
        lemma_begins_trans(
            bytes_bits(joined(parts, k)) + bytes_bits(parts[k as int]),
            bytes_bits(joined(parts, m)),
            whole,
        );
    }
}

/// What begins a stream behind a head begins the rest of the stream.
pub(crate) proof fn lemma_begins_behind(head: Seq<bool>, x: Seq<bool>, f: Seq<bool>)
    requires
        begins(head + x, f),
    ensures
        begins(x, f.skip(head.len() as int)),
{
    assert(f.skip(head.len() as int).take(x.len() as int) =~= (head + x).skip(head.len() as int));
    assert((head + x).skip(head.len() as int) =~= x);
}

/// Tile `k` is the same in both pictures.
pub open spec fn same_tile(p: Planes, q: Planes, cols: int, rows: int, k: int) -> bool {
    let tile = tile_of(p, cols, rows, k);
    forall|a: int| 0 <= a < tile.ctbs() ==> #[trigger] same_in_tile(p, q, tile, a)
}

proof fn lemma_tiles_same(p: Planes, q: Planes, cols: int, rows: int, n: nat)
    requires
        p.width == q.width,
        p.height == q.height,
        n <= tile_subsets(p, cols, rows).len(),
        joined(tile_subsets(p, cols, rows), tile_subsets(p, cols, rows).len()) == joined(
            tile_subsets(q, cols, rows),
            tile_subsets(q, cols, rows).len(),
        ),
    ensures
        joined(tile_subsets(p, cols, rows), n) == joined(tile_subsets(q, cols, rows), n),
        forall|k: int| 0 <= k < n ==> #[trigger] same_tile(p, q, cols, rows, k),
    decreases n,
{
    if n > 0 {
        let m = (n - 1) as nat;
        let (sp, sq) = (tile_subsets(p, cols, rows), tile_subsets(q, cols, rows));
        lemma_tiles_same(p, q, cols, rows, m);
        let f = bytes_bits(joined(sp, sp.len()));
        let head = bytes_bits(joined(sp, m));
        lemma_joined_begins(sp, m, sp.len());
        lemma_joined_begins(sq, m, sq.len());
        lemma_begins_behind(head, bytes_bits(sp[m as int]), f);
        lemma_begins_behind(head, bytes_bits(sq[m as int]), f);
        let tile = tile_of(p, cols, rows, m as int);
        let last = m == cols * rows - 1;
        lemma_subset_same(p, q, tile, last, f.skip(head.len() as int));
        assert(same_tile(p, q, cols, rows, m as int));
    }
}

/// A beginning of a stream does not part from another.
pub(crate) proof fn lemma_beginnings_agree(a: Seq<bool>, b: Seq<bool>, f: Seq<bool>)
    requires
        begins(a, f),
        begins(b, f),
    ensures
        !parts(a, b),
{
    if parts(a, b) {
        let k = choose|k: int| #[trigger] part_at(a, b, k);
        assert(f.take(a.len() as int)[k] == f.take(b.len() as int)[k]);
    }
}

/// The lists agree in their first `n` entries.
spec fn same_offsets(a: Seq<nat>, b: Seq<nat>, n: int) -> bool {
    forall|i: int| 0 <= i < n ==> #[trigger] a[i] == b[i]
}

proof fn lemma_offsets_part(b: Seq<bool>, u: Seq<nat>, v: Seq<nat>, bits: nat, n: nat)
    requires
        n <= u.len(),
        n <= v.len(),
        forall|i: int| 0 <= i < n ==> #[trigger] u[i] < pow2(bits),
        forall|i: int| 0 <= i < n ==> #[trigger] v[i] < pow2(bits),
    ensures
        parts(offsets_behind(b, u, bits, n), offsets_behind(b, v, bits, n)) || offsets_behind(b, u, bits, n)
            == offsets_behind(b, v, bits, n) && same_offsets(u, v, n as int),
    decreases n,
{
    if n > 0 {
        let m = (n - 1) as nat;
        lemma_offsets_part(b, u, v, bits, m);
        let (hu, hv) = (offsets_behind(b, u, bits, m), offsets_behind(b, v, bits, m));
        if parts(hu, hv) || u[m as int] != v[m as int] {
            if u[m as int] != v[m as int] {
                lemma_part_value(u[m as int], v[m as int], bits);
            }
            lemma_part_concat(hu, be_bits(u[m as int], bits), hv, be_bits(v[m as int], bits));
        }
    }
}

/// Every offset fits the width that the list is given.
pub(crate) proof fn lemma_offset_bits(offsets: Seq<nat>, n: nat, i: int)
    requires
        n <= offsets.len(),
        0 <= i < n,
    ensures
        offset_bits(offsets, n) >= 1,
        offsets[i] < pow2(offset_bits(offsets, n) as nat),
    decreases n,
{
    let m = (n - 1) as nat;
    if m > 0 {
        lemma_offset_bits(offsets, m, if i < m { i } else { 0 });
    } else {
        assert(offset_bits(offsets, m) == 1);
    }
    if i == m {
        lemma_width(offsets[i]);
        lemma_pow2_bound(width(offsets[i]), offset_bits(offsets, n) as nat);
    } else {
        lemma_pow2_bound(offset_bits(offsets, m) as nat, offset_bits(offsets, n) as nat);
    }
}

/// The fields of a tiled header, before its alignment.
#[verifier::opaque]
spec fn tiled_fields(opts: Shape, offsets: Seq<nat>) -> Seq<bool> {
    let bits = offset_bits(offsets, offsets.len());
    let counted = tiled_start(opts) + ue_bits(offsets.len());
    if offsets.len() > 0 {
        offsets_behind(counted + ue_bits((bits - 1) as nat), offsets, bits as nat, offsets.len())
    } else {
        counted
    }
}

proof fn lemma_tiled_header(opts: Shape, offsets: Seq<nat>)
    ensures
        tiled_header(opts, offsets) == aligned(tiled_fields(opts, offsets).push(true)),
{
    reveal(tiled_fields);
}

/// The start of a tiled header.
spec fn tiled_start(opts: Shape) -> Seq<bool> {
    let head = Seq::<bool>::empty().push(true).push(false) + ue_bits(0) + ue_bits(2) + se_bits(SLICE_QP - 26);
    if opts.deblocking {
        head.push(true)
    } else {
        head
    }
}

proof fn lemma_offsets_begin(b: Seq<bool>, u: Seq<nat>, bits: nat, n: nat)
    ensures
        begins(b, offsets_behind(b, u, bits, n)),
    decreases n,
{
    if n == 0 {
        assert(b.take(b.len() as int) =~= b);
    } else {
        let m = (n - 1) as nat;
        lemma_offsets_begin(b, u, bits, m);
        lemma_begins_concat(offsets_behind(b, u, bits, m), be_bits(u[n - 1], bits));
        lemma_begins_trans(b, offsets_behind(b, u, bits, m), offsets_behind(b, u, bits, n));
    }
}

/// Lists of one length whose headers begin one stream are the same.
proof fn lemma_header_tells_offsets(opts: Shape, u: Seq<nat>, v: Seq<nat>, f: Seq<bool>)
    requires
        u.len() == v.len(),
        begins(tiled_fields(opts, u), f),
        begins(tiled_fields(opts, v), f),
    ensures
        u == v,
{
    reveal(tiled_fields);
    let n = u.len();
    if n > 0 {
        let counted = tiled_start(opts) + ue_bits(n);
        let (bu, bv) = (offset_bits(u, n), offset_bits(v, n));
        lemma_offset_bits(u, n, 0);
        lemma_offset_bits(v, n, 0);
        let (wu, wv) = (counted + ue_bits((bu - 1) as nat), counted + ue_bits((bv - 1) as nat));
        lemma_offsets_begin(wu, u, bu as nat, n);
        lemma_offsets_begin(wv, v, bv as nat, n);
        lemma_begins_trans(wu, tiled_fields(opts, u), f);
        lemma_begins_trans(wv, tiled_fields(opts, v), f);
        lemma_beginnings_agree(wu, wv, f);
        if bu != bv {
            lemma_part_ue((bu - 1) as nat, (bv - 1) as nat);
            lemma_part_concat(counted, ue_bits((bu - 1) as nat), counted, ue_bits((bv - 1) as nat));
        }
        assert forall|i: int| 0 <= i < n implies #[trigger] u[i] < pow2(bu as nat) by {
            lemma_offset_bits(u, n, i);
        }
        assert forall|i: int| 0 <= i < n implies #[trigger] v[i] < pow2(bu as nat) by {
            lemma_offset_bits(v, n, i);
        }
        lemma_offsets_part(wu, u, v, bu as nat, n);
        lemma_beginnings_agree(tiled_fields(opts, u), tiled_fields(opts, v), f);
    }
    assert(u =~= v);
}

pub(crate) proof fn lemma_entry_point_count(a: Seq<Seq<u8>>, n: nat)
    ensures
        entry_points(a, n).0.len() == n,
    decreases n,
{
    if n > 0 {
        lemma_entry_point_count(a, (n - 1) as nat);
    }
}

/// Whole bytes need no alignment.
pub(crate) proof fn lemma_whole_bytes(h: Seq<bool>, bytes: Seq<u8>)
    requires
        h.len() % 8 == 0,
    ensures
        bytes_bits(pack(h + bytes_bits(bytes))) == h + bytes_bits(bytes),
{
    let s = h + bytes_bits(bytes);
    lemma_pack_bits(s);
    assert(aligned(s) =~= s);
}

/// The fields of a header begin what the header begins.
proof fn lemma_fields_begin(x: Seq<bool>, rest: Seq<bool>)
    ensures
        begins(x, aligned(x.push(true)) + rest),
        aligned(x.push(true)).len() % 8 == 0,
{
    let h = aligned(x.push(true));
    assert((h + rest).take(x.len() as int) =~= x);
}

/// Both pictures code the same tiles when their tiled slices are the same.
proof fn lemma_tiled_joined(p: Planes, q: Planes, opts: Shape, cols: int, rows: int)
    requires
        cols * rows >= 1,
        tiled_slice(p, opts, cols, rows) == tiled_slice(q, opts, cols, rows),
    ensures
        joined(tile_subsets(p, cols, rows), tile_subsets(p, cols, rows).len()) == joined(
            tile_subsets(q, cols, rows),
            tile_subsets(q, cols, rows).len(),
        ),
{
    let (sp, sq) = (tile_subsets(p, cols, rows), tile_subsets(q, cols, rows));
    let n = (sp.len() - 1) as nat;
    let (u, v) = (entry_points(sp, n).0, entry_points(sq, n).0);
    lemma_entry_point_count(sp, n);
    lemma_entry_point_count(sq, n);
    let (hp, hq) = (tiled_header(opts, u), tiled_header(opts, v));
    let (jp, jq) = (joined(sp, sp.len()), joined(sq, sq.len()));
    lemma_tiled_header(opts, u);
    lemma_tiled_header(opts, v);
    lemma_fields_begin(tiled_fields(opts, u), bytes_bits(jp));
    lemma_fields_begin(tiled_fields(opts, v), bytes_bits(jq));
    lemma_whole_bytes(hp, jp);
    lemma_whole_bytes(hq, jq);
    lemma_header_tells_offsets(opts, u, v, bytes_bits(tiled_slice(p, opts, cols, rows)));
    assert((hp + bytes_bits(jp)).skip(hp.len() as int) =~= bytes_bits(jp));
    assert((hq + bytes_bits(jq)).skip(hq.len() as int) =~= bytes_bits(jq));
    lemma_bytes_bits_injective(jp, jq);
}

/// Every place of a uniform grid lies in one of its parts.
pub(crate) proof fn lemma_covered(x: int, i: int, n: int, size: int) -> (c: int)
    requires
        0 <= i < n,
        n <= size,
        0 <= x < (i + 1) * size / n,
    ensures
        0 <= c <= i,
        c * size / n <= x < (c + 1) * size / n,
    decreases i,
{
    if x < i * size / n {
        if i == 0 {
            assert(0 * size / n == 0) by (nonlinear_arith)
                requires
                    n > 0,
            ;
        }
        lemma_covered(x, i - 1, n, size)
    } else {
        i
    }
}

pub(crate) proof fn lemma_uniform_end(n: int, size: int)
    by (nonlinear_arith)
    requires
        n > 0,
    ensures
        n * size / n == size,
{
}

/// The same tiles make the same blocks.
proof fn lemma_tiles_cover(p: Planes, q: Planes, cols: int, rows: int, a: int)
    requires
        p.wf(),
        q.wf(),
        p.width == q.width,
        p.height == q.height,
        0 < cols <= p.width / 16,
        0 < rows <= p.height / 16,
        forall|k: int| 0 <= k < cols * rows ==> #[trigger] same_tile(p, q, cols, rows, k),
        0 <= a < p.ctbs(),
    ensures
        same_block(p, q, a),
{
    let (w, h) = (p.width / 16, p.height / 16);
    lemma_ungrid(a, w, h);
    let (cx, cy) = (a % w, a / w);
    lemma_uniform_end(cols, w);
    lemma_uniform_end(rows, h);
    let c = lemma_covered(cx, cols - 1, cols, w);
    let r = lemma_covered(cy, rows - 1, rows, h);
    lemma_block_of(c, r, cols, rows);
    let k = r * cols + c;
    assert(same_tile(p, q, cols, rows, k));
    let tile = tile_of(p, cols, rows, k);
    let (dx, dy) = (cx - tile.x0, cy - tile.y0);
    lemma_block_of(dx, dy, tile.columns(), tile.y1 - tile.y0);
    let t = dy * tile.columns() + dx;
    assert(same_in_tile(p, q, tile, t));
}

/// The payload of a tiled slice tells every sample.
pub proof fn law_tiles_tell_the_samples(p: Planes, q: Planes, opts: Shape, cols: int, rows: int)
    requires
        p.wf(),
        q.wf(),
        p.width == q.width,
        p.height == q.height,
        0 < cols <= p.width / 16,
        0 < rows <= p.height / 16,
        tiled_slice(p, opts, cols, rows) == tiled_slice(q, opts, cols, rows),
    ensures
        p == q,
{
    assert(cols * rows >= 1) by (nonlinear_arith)
        requires
            cols >= 1,
            rows >= 1,
    ;
    lemma_tiled_joined(p, q, opts, cols, rows);
    lemma_tiles_same(p, q, cols, rows, tile_subsets(p, cols, rows).len());
    assert forall|a: int| 0 <= a < p.ctbs() implies #[trigger] same_block(p, q, a) by {
        lemma_tiles_cover(p, q, cols, rows, a);
    }
    lemma_blocks_are_the_picture(p, q);
}

/// The bits end in a one and the zeros that align it.
pub open spec fn stopped(bits: Seq<bool>) -> bool {
    exists|x: Seq<bool>| x.len() > 0 && x.last() && #[trigger] aligned(x) == bits
}

/// Bytes that end in a stop bit end in a byte other than zero.
pub(crate) proof fn lemma_stop_byte(bits: Seq<bool>)
    requires
        stopped(bits),
    ensures
        pack(bits).len() > 0,
        pack(bits).last() != 0,
        aligned(bits) == bits,
{
    let x = choose|x: Seq<bool>| x.len() > 0 && x.last() && #[trigger] aligned(x) == bits;
    assert(aligned(bits) =~= bits);
    lemma_pack_bits(bits);
    let p = pack(bits);
    let n = x.len() - 1;
    assert(bytes_bits(p)[n] == x[n]);
    assert(n / 8 == p.len() - 1);
    if p.last() == 0 {
        let place = (7 - n % 8) as nat;
        lemma_pow2_pos(place);
        assert(bit_at(0, place) == false) by {
            vstd::arithmetic::div_mod::lemma_div_basics(pow2(place) as int);
        }
    }
}

pub(crate) proof fn lemma_parameter_sets_stopped(width: usize, height: usize, level: u8, sao: bool, filter: bool)
    ensures
        stopped(vps_bits(level, 1, 0)),
        stopped(sps_bits(width, height, level, sao, filter)),
{
    reveal(vps_bits);
    reveal(sps_bits);
}

pub(crate) proof fn lemma_pps_stopped(dependent: bool, deblocking: bool, tiles: Option<(u32, u32)>)
    ensures
        stopped(pps_bits(dependent, deblocking, false, tiles, false)),
{
    reveal(pps_bits);
}

/// A codeword that ends ends in a one.
proof fn lemma_end_stops(s: SliceState)
    ensures
        s.with(seq![Bin::Terminate { end: true }]).coder.out.len() > 0,
        s.with(seq![Bin::Terminate { end: true }]).coder.out.last(),
{
    reveal_with_fuel(encode_bins, 2);
    let b = Bin::Terminate { end: true };
    assert(seq![b].skip(1).len() == 0);
}

proof fn lemma_ctbs_stop(pl: Planes, opts: Shape, s: SliceState, slice_start: int, addr: int, end: int)
    requires
        addr < end,
    ensures
        ctbs_coded(pl, opts, s, slice_start, addr, end).coder.out.len() > 0,
        ctbs_coded(pl, opts, s, slice_start, addr, end).coder.out.last(),
    decreases end - addr,
{
    reveal_with_fuel(ctbs_coded, 2);
    let columns = pl.columns();
    let u = s.with(ctb_sao_bins(opts, columns, slice_start, addr)).with_pcm(pl.samples(addr % columns, addr / columns));
    if addr + 1 < end {
        lemma_ctbs_stop(pl, opts, u.with(seq![Bin::Terminate { end: false }]), slice_start, addr + 1, end);
    } else {
        lemma_end_stops(u);
    }
}

proof fn lemma_tile_stops(pl: Planes, tile: Tile, s: SliceState, t: int, last: bool)
    requires
        last,
        0 <= t < tile.ctbs(),
    ensures
        tile_ctbs_coded(pl, tile, s, t, last).coder.out.len() > 0,
        tile_ctbs_coded(pl, tile, s, t, last).coder.out.last(),
    decreases tile.ctbs() - t,
{
    reveal_with_fuel(tile_ctbs_coded, 2);
    let u = s.with_pcm(pl.samples(tile.x0 + t % tile.columns(), tile.y0 + t / tile.columns()));
    if t + 1 < tile.ctbs() {
        lemma_tile_stops(pl, tile, u.with(seq![Bin::Terminate { end: false }]), t + 1, last);
    } else {
        lemma_end_stops(u);
    }
}

/// Every payload ends in a byte other than zero.
pub open spec fn ends_in_ones(payloads: Seq<Seq<u8>>) -> bool {
    forall|i: int| 0 <= i < payloads.len() ==> (#[trigger] payloads[i]).len() > 0 && payloads[i].last() != 0
}

proof fn lemma_segments_stop(
    out: Seq<Seq<u8>>,
    pl: Planes,
    opts: Shape,
    plan: Seq<(int, Option<bool>)>,
    k: int,
    ctxs: Seq<ContextModel>,
    slice_start: int,
)
    requires
        ends_in_ones(out),
    ensures
        ends_in_ones(segments_from(out, pl, opts, plan, k, ctxs, slice_start)),
    decreases plan.len() - k,
{
    if k < plan.len() {
        let total = pl.ctbs();
        let start = slice_start_of(plan, k, slice_start);
        let first = segment_start(opts, plan, k, total, ctxs);
        let end = segment_end(plan, k, total);
        let s = ctbs_coded(pl, opts, first, start, plan[k].0, end);
        let bits = aligned(s.coder.out);
        if plan[k].0 < end {
            lemma_ctbs_stop(pl, opts, first, start, plan[k].0, end);
            assert(stopped(bits));
        } else {
            assert(stopped(s.coder.out));
            lemma_stop_byte(s.coder.out);
            assert(bits == s.coder.out);
        }
        lemma_stop_byte(bits);
        let more = out.push(pack(bits));
        lemma_segments_stop(more, pl, opts, plan, k + 1, s.ctxs, start);
    }
}

proof fn lemma_tiled_stops(pl: Planes, opts: Shape, cols: int, rows: int)
    requires
        0 < cols <= pl.width / 16,
        0 < rows <= pl.height / 16,
    ensures
        tiled_slice(pl, opts, cols, rows).len() > 0,
        tiled_slice(pl, opts, cols, rows).last() != 0,
{
    assert(cols * rows >= 1) by (nonlinear_arith)
        requires
            cols >= 1,
            rows >= 1,
    ;
    let subsets = tile_subsets(pl, cols, rows);
    let n = subsets.len();
    let k = cols * rows - 1;
    let tile = tile_of(pl, cols, rows, k);
    lemma_last_tile(cols, rows);
    lemma_uniform(cols - 1, cols, pl.width / 16);
    lemma_uniform(rows - 1, rows, pl.height / 16);
    assert(tile.ctbs() >= 1) by (nonlinear_arith)
        requires
            tile.x1 > tile.x0,
            tile.y1 > tile.y0,
            tile.ctbs() == (tile.x1 - tile.x0) * (tile.y1 - tile.y0),
    ;
    let s = SliceState { coder: Coder::start(Seq::empty()), ctxs: initial_contexts(SLICE_QP as int) };
    lemma_tile_stops(pl, tile, s, 0, true);
    let bits = aligned(tile_ctbs_coded(pl, tile, s, 0, true).coder.out);
    assert(stopped(bits));
    lemma_stop_byte(bits);
    assert(subsets[k] == pack(bits));
    let j = joined(subsets, n);
    assert(j.last() == subsets[k].last() && j.len() > 0);
    let offsets = entry_points(subsets, (n - 1) as nat).0;
    let h = tiled_header(opts, offsets);
    lemma_tiled_header(opts, offsets);
    lemma_fields_begin(tiled_fields(opts, offsets), bytes_bits(j));
    lemma_whole_bytes(h, j);
    lemma_pack_bits(h);
    assert(aligned(h) =~= h);
    lemma_bytes_bits_concat(pack(h), j);
    lemma_bytes_bits_injective(pack(h) + j, tiled_slice(pl, opts, cols, rows));
}

/// The last tile lies in the last column and row.
proof fn lemma_last_tile(cols: int, rows: int)
    requires
        cols > 0,
        rows > 0,
    ensures
        (cols * rows - 1) % cols == cols - 1,
        (cols * rows - 1) / cols == rows - 1,
{
    lemma_grid(rows - 1, cols - 1, cols, rows);
    assert((rows - 1) * cols + (cols - 1) == cols * rows - 1) by (nonlinear_arith);
}

proof fn lemma_payloads_stop(pl: Planes, opts: Shape)
    requires
        options_ok(opts, pl.width, pl.height),
    ensures
        ends_in_ones(slice_payloads(pl, opts)),
{
    match opts.tiles {
        Some((c, r)) => {
            lemma_tiled_stops(pl, opts, c as int, r as int);
        },
        None => {
            lemma_segments_stop(
                Seq::empty(),
                pl,
                opts,
                plan_of(opts, pl.ctbs()),
                0,
                initial_contexts(SLICE_QP as int),
                0,
            );
        },
    }
}

/// What a payload of type `kind` is read back as.
pub open spec fn parsed(kind: int, rbsp: Seq<u8>) -> Unit {
    Unit {
        header: NalHeader { nal_unit_type: kind as u8, nuh_layer_id: 0, temporal_id: 0 },
        rbsp,
        escaped: escaped(rbsp),
    }
}

/// The payloads of an access unit and their types.
pub open spec fn typed_payloads(pl: Planes, opts: Shape, width: usize, height: usize) -> Seq<(int, Seq<u8>)> {
    let level = level_of(opts, width * height);
    seq![
        (32int, pack(vps_bits(level, 1, 0))),
        (33int, pack(sps_bits(width, height, level, sao_on(opts), opts.pcm_loop_filter_disabled))),
        (34int, pack(pps_bits(dependent_mode(opts), opts.deblocking, false, opts.tiles, false))),
    ] + Seq::new(slice_payloads(pl, opts).len(), |i: int| (20int, slice_payloads(pl, opts)[i]))
}

/// What walking an access unit finds.
#[verifier::opaque]
pub open spec fn found_units(pl: Planes, opts: Shape, width: usize, height: usize) -> Seq<Unit> {
    let t = typed_payloads(pl, opts, width, height);
    Seq::new(t.len(), |i: int| parsed(t[i].0, t[i].1))
}

/// The units found hold the slice payloads.
proof fn lemma_found_payloads(p: Planes, q: Planes, opts: Shape, width: usize, height: usize)
    requires
        found_units(p, opts, width, height) == found_units(q, opts, width, height),
    ensures
        slice_payloads(p, opts) == slice_payloads(q, opts),
{
    reveal(found_units);
    let (fp, fq) = (found_units(p, opts, width, height), found_units(q, opts, width, height));
    let (sp, sq) = (slice_payloads(p, opts), slice_payloads(q, opts));
    assert(fp.len() == 3 + sp.len() && fq.len() == 3 + sq.len());
    assert forall|i: int| 0 <= i < sp.len() implies sp[i] == sq[i] by {
        assert(fp[3 + i].rbsp == sp[i]);
        assert(fq[3 + i].rbsp == sq[i]);
    }
    assert(sp =~= sq);
}

/// Every unit of an access unit is framed, and found as the unit it was written as.
pub(crate) proof fn lemma_units_framed(pl: Planes, opts: Shape, width: usize, height: usize)
    requires
        pl.width == width,
        pl.height == height,
        options_ok(opts, pl.width, pl.height),
    ensures
        ({
            let units = pcm_units(pl, opts, width, height);
            let found = found_units(pl, opts, width, height);
            &&& units.len() == found.len()
            &&& forall|j: int|
                0 <= j < units.len() ==> frameable(#[trigger] units[j]) && unit_of(units[j]) == Ok::<Unit, NalError>(
                    found[j],
                )
        }),
{
    reveal(found_units);
    let t = typed_payloads(pl, opts, width, height);
    let units = pcm_units(pl, opts, width, height);
    let found = found_units(pl, opts, width, height);
    let level = level_of(opts, width * height);
    lemma_payloads_stop(pl, opts);
    lemma_parameter_sets_stopped(width, height, level, sao_on(opts), opts.pcm_loop_filter_disabled);
    lemma_pps_stopped(dependent_mode(opts), opts.deblocking, opts.tiles);
    lemma_stop_byte(vps_bits(level, 1, 0));
    lemma_stop_byte(sps_bits(width, height, level, sao_on(opts), opts.pcm_loop_filter_disabled));
    lemma_stop_byte(pps_bits(dependent_mode(opts), opts.deblocking, false, opts.tiles, false));
    assert forall|j: int| 0 <= j < units.len() implies frameable(#[trigger] units[j]) && unit_of(units[j]) == Ok::<
        Unit,
        NalError,
    >(found[j]) by {
        let (kind, rbsp) = t[j];
        assert(units[j] == unit_bytes(kind, 0, 0, rbsp));
        if j >= 3 {
            assert(rbsp == slice_payloads(pl, opts)[j - 3]);
        }
        law_unit_is_frameable(kind, 0, 0, rbsp);
        law_unit_roundtrip(kind, 0, 0, rbsp);
    }
}

/// Walking an access unit finds its parameter sets and its slices, payload for payload.
pub proof fn law_access_unit_walks_back(pl: Planes, opts: Shape, width: usize, height: usize)
    requires
        pl.width == width,
        pl.height == height,
        options_ok(opts, pl.width, pl.height),
    ensures
        walk(Seq::empty(), stream_of(pcm_units(pl, opts, width, height)), 0) == Ok::<Seq<Unit>, NalError>(
            found_units(pl, opts, width, height),
        ),
{
    let units = pcm_units(pl, opts, width, height);
    let found = found_units(pl, opts, width, height);
    lemma_units_framed(pl, opts, width, height);
    assert forall|j: int| 0 <= j < units.len() implies unit_of(#[trigger] units[j]) == Ok::<Unit, NalError>(found[j]) by {
        assert(frameable(units[j]));
    }
    law_walk_inverts_framing(units, found);
}

/// The stream is lossless: pictures of one size and shape that are coded into the same
/// access unit are the same, sample for sample.
pub proof fn law_access_unit_tells_the_samples(p: Planes, q: Planes, opts: Shape, width: usize, height: usize)
    requires
        dimensions_ok(width as int, height as int),
        options_ok(opts, width as int, height as int),
        p.wf(),
        q.wf(),
        p.width == width && p.height == height,
        q.width == width && q.height == height,
        stream_of(pcm_units(p, opts, width, height)) == stream_of(pcm_units(q, opts, width, height)),
    ensures
        p == q,
{
    law_access_unit_walks_back(p, opts, width, height);
    law_access_unit_walks_back(q, opts, width, height);
    lemma_found_payloads(p, q, opts, width, height);
    let (sp, sq) = (slice_payloads(p, opts), slice_payloads(q, opts));
    match opts.tiles {
        Some((c, r)) => {
            assert(sp[0] == sq[0]);
            law_tiles_tell_the_samples(p, q, opts, c as int, r as int);
        },
        None => {
            law_segments_tell_the_samples(p, q, opts);
        },
    }
}

/// Two shapes that differ in their segment count alone, beside independent slices.
pub open spec fn same_slices(a: Shape, b: Shape) -> bool {
    &&& a.independent_slices.len() > 0
    &&& a.independent_slices == b.independent_slices
    &&& a.deblocking == b.deblocking
    &&& a.sao_luma_band == b.sao_luma_band
    &&& a.sao_luma_eo_vertical == b.sao_luma_eo_vertical
    &&& a.pcm_loop_filter_disabled == b.pcm_loop_filter_disabled
    &&& a.tiles is None
    &&& b.tiles is None
}

proof fn lemma_ctbs_same_slices(pl: Planes, a: Shape, b: Shape, s: SliceState, slice_start: int, addr: int, end: int)
    requires
        same_slices(a, b),
    ensures
        ctbs_coded(pl, a, s, slice_start, addr, end) == ctbs_coded(pl, b, s, slice_start, addr, end),
    decreases end - addr,
{
    if addr < end {
        let columns = pl.columns();
        let coded = s.with(ctb_sao_bins(a, columns, slice_start, addr)).with_pcm(
            pl.samples(addr % columns, addr / columns),
        ).with(seq![Bin::Terminate { end: addr == end - 1 }]);
        lemma_ctbs_same_slices(pl, a, b, coded, slice_start, addr + 1, end);
    }
}

proof fn lemma_segments_same_slices(
    out: Seq<Seq<u8>>,
    pl: Planes,
    a: Shape,
    b: Shape,
    plan: Seq<(int, Option<bool>)>,
    k: int,
    ctxs: Seq<ContextModel>,
    slice_start: int,
)
    requires
        same_slices(a, b),
    ensures
        segments_from(out, pl, a, plan, k, ctxs, slice_start) == segments_from(out, pl, b, plan, k, ctxs, slice_start),
    decreases plan.len() - k,
{
    if k < plan.len() {
        let total = pl.ctbs();
        let start = slice_start_of(plan, k, slice_start);
        let first = segment_start(a, plan, k, total, ctxs);
        assert(segment_header(a, plan, k, total) == segment_header(b, plan, k, total));
        lemma_ctbs_same_slices(pl, a, b, first, start, plan[k].0, segment_end(plan, k, total));
        let s = ctbs_coded(pl, a, first, start, plan[k].0, segment_end(plan, k, total));
        lemma_segments_same_slices(out.push(pack(aligned(s.coder.out))), pl, a, b, plan, k + 1, s.ctxs, start);
    }
}

/// Where independent slices are given, the number of segments is ignored: it changes
/// neither what is refused nor the stream.
pub proof fn law_independent_slices_ignore_segments(
    a: Shape,
    b: Shape,
    y: Seq<u8>,
    cb: Seq<u8>,
    cr: Seq<u8>,
    width: usize,
    height: usize,
)
    requires
        same_slices(a, b),
    ensures
        au_outcome(a, y, cb, cr, width, height) == au_outcome(b, y, cb, cr, width, height),
{
    let pl = Planes { y, cb, cr, width: width as int, height: height as int };
    let plan = plan_of(a, pl.ctbs());
    assert(plan =~= plan_of(b, pl.ctbs()));
    lemma_segments_same_slices(Seq::empty(), pl, a, b, plan, 0, initial_contexts(SLICE_QP as int), 0);
    assert(slice_payloads(pl, a) == slice_payloads(pl, b));
}

} // verus!
