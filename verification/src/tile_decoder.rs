//! Tiled PCM slices on the read side: the blocks of every tile, and the picture they
//! make up.
use vstd::prelude::*;
use crate::arith::lemma_ungrid;
use crate::bin_source::{lemma_feeds_concat, lemma_feeds_none, lemma_reads_terminate, Source};
use crate::bins::{
    contexts_wf, decision_bin, encode_bins, in_bank, initial_contexts, lemma_contexts_after_all_wf, Bin, CONTEXTS,
    CTX_PART_MODE,
};
use crate::bitreader::{law_ue_roundtrip, read_ue};
use crate::bits::{
    aligned, be_bits, bytes_bits, lemma_bytes_bits_concat, lemma_pack_bits, padding, ue_bits, width, zeros,
};
use crate::bitwriter::BitWriter;
use crate::cabac::ContextModel;
use crate::cabac_decoder::Decoder;
use crate::cabac_encoder::{lemma_terminate_wf, Coder};
use crate::fields::{fields_bits, kinds_of, law_fields_read_back, read_fields};
use crate::forks::{inner, inner_bin, lemma_inner_concat};
use crate::parameter_reader::{PictureInfo, SequenceInfo};
use crate::parameter_sets::SLICE_QP;
use crate::pcm::{
    coded_len, entry_points, joined, lemma_bin_span, lemma_part_length, lemma_pcm_span, lemma_uniform, offset_bits,
    offsets_behind, pcm_bins, run_length, sao_on, span, tile_ctbs_coded, tile_of, tile_subset, tile_subsets,
    tiled_header, tiled_slice, Planes, Shape, SliceState, Tile, MAX_TILES, MAX_TILE_BLOCKS,
};
use crate::pcm_decoder::{
    blocks_until, goes_on, lemma_reached_more, lemma_reads_end, lemma_reads_pcm, lemma_word_feeds, opening, reached,
    read_pcm,
};
use crate::pcm_laws::{
    begins, lemma_begins_behind, lemma_begins_concat, lemma_begins_trans, lemma_bins_begin, lemma_block_of,
    lemma_covered, lemma_joined_begins, lemma_tile_begins, lemma_uniform_end, lemma_whole_bytes,
};
use crate::picture_decoder::{data_behind, lemma_data_behind};
use crate::segment_decoder::{
    lemma_assoc, lemma_segment_head, lemma_slice_part, lemma_slice_part_behind, read_slice_part, segment_fields,
    sets_of, slice_part,
};
use crate::slice_laws::lemma_initial_contexts;

verus! {

/// The blocks of a tile of `n` blocks, behind those that are found. The last one of the
/// last tile ends the slice.
pub open spec fn read_tile(s: Source, found: Seq<Seq<u8>>, n: int, last: bool) -> Option<(Seq<Seq<u8>>, Source)>
    decreases n - found.len(),
{
    if found.len() >= n {
        Some((found, s))
    } else {
        match read_pcm(s) {
            Some((samples, u)) => match u.terminate() {
                Some((end, v)) => if end == (last && found.len() == n - 1) {
                    read_tile(v, found.push(samples), n, last)
                } else {
                    None
                },
                None => None,
            },
            None => None,
        }
    }
}

/// The blocks of a tile whose subset starts `s`, and what follows from the next byte on.
#[verifier::opaque]
pub open spec fn read_subset(s: Seq<bool>, qp: int, n: int, last: bool) -> Option<(Seq<Seq<u8>>, Seq<bool>)> {
    match Decoder::start(s) {
        Ok(decoder) => match read_tile(Source { decoder, ctxs: initial_contexts(qp) }, Seq::empty(), n, last) {
            Some((found, t)) => if last {
                Some((found, Seq::empty()))
            } else {
                match t.terminate() {
                    Some((true, u)) => Some((found, u.decoder.rest.skip(u.decoder.rest.len() as int % 8))),
                    _ => None,
                }
            },
            None => None,
        },
        Err(_) => None,
    }
}

/// Tile `k` of a uniform grid over a picture.
pub open spec fn grid_tile(width: int, height: int, cols: int, rows: int, k: int) -> Tile {
    let (c, r) = (k % cols, k / cols);
    let (w, h) = (width / 16, height / 16);
    Tile { x0: c * w / cols, x1: (c + 1) * w / cols, y0: r * h / rows, y1: (r + 1) * h / rows }
}

/// The blocks of the first `k` tiles, and the bits behind them.
pub open spec fn read_tiles(
    s: Seq<bool>,
    qp: int,
    width: int,
    height: int,
    cols: int,
    rows: int,
    k: nat,
) -> Option<(Seq<Seq<Seq<u8>>>, Seq<bool>)>
    decreases k,
{
    if k == 0 {
        Some((Seq::empty(), s))
    } else {
        match read_tiles(s, qp, width, height, cols, rows, (k - 1) as nat) {
            Some((tiles, rest)) => match read_subset(
                rest,
                qp,
                grid_tile(width, height, cols, rows, k - 1).ctbs(),
                k == cols * rows,
            ) {
                Some((found, behind)) => Some((tiles.push(found), behind)),
                None => None,
            },
            None => None,
        }
    }
}

/// Block `t` of tile `k` is the block in column `cx` and row `cy`.
pub open spec fn stands_at(width: int, height: int, cols: int, rows: int, k: int, t: int, cx: int, cy: int) -> bool {
    let tile = grid_tile(width, height, cols, rows, k);
    &&& 0 <= k < cols * rows
    &&& 0 <= t < tile.ctbs()
    &&& tile.x0 + t % tile.columns() == cx
    &&& tile.y0 + t / tile.columns() == cy
}

/// The block in column `cx` and row `cy`, found in the tile that holds it.
pub open spec fn block_in_tiles(
    tiles: Seq<Seq<Seq<u8>>>,
    width: int,
    height: int,
    cols: int,
    rows: int,
    cx: int,
    cy: int,
) -> Seq<u8> {
    let (k, t) = choose|k: int, t: int| stands_at(width, height, cols, rows, k, t, cx, cy);
    tiles[k][t]
}

/// The blocks of a picture in raster order, out of its tiles.
pub open spec fn rastered(tiles: Seq<Seq<Seq<u8>>>, width: int, height: int, cols: int, rows: int) -> Seq<Seq<u8>> {
    let columns = width / 16;
    Seq::new(
        (columns * (height / 16)) as nat,
        |a: int| block_in_tiles(tiles, width, height, cols, rows, a % columns, a / columns),
    )
}

/// The entry points at the front of `s`, skipped: the tiles stand one behind the other.
pub open spec fn skip_entry_points(s: Seq<bool>) -> Option<Seq<bool>> {
    match read_ue(s) {
        Ok((n, t)) => if n == 0 {
            Some(t)
        } else {
            match read_ue(t) {
                Ok((m, u)) => if u.len() < n * (m + 1) {
                    None
                } else {
                    Some(u.skip((n * (m + 1)) as int))
                },
                Err(_) => None,
            }
        },
        Err(_) => None,
    }
}

/// The fields of the header of a tiled slice, and the bits behind them.
pub open spec fn read_tiled_fields(s: Seq<bool>, sps: SequenceInfo, pps: PictureInfo) -> Option<(int, Seq<bool>)> {
    match read_fields(kinds_of(segment_fields(true)), s, 3) {
        Some((f, t)) => if f != segment_fields(true) {
            None
        } else {
            match read_slice_part(t, sps.sao, pps.deblocking) {
                Some(((sao, qp), u)) => if sao {
                    None
                } else {
                    match skip_entry_points(u) {
                        Some(v) => Some((qp, v)),
                        None => None,
                    }
                },
                None => None,
            }
        },
        None => None,
    }
}

/// The blocks of a tiled slice, in raster order.
#[verifier::opaque]
pub open spec fn decode_tiled(
    s: Seq<bool>,
    sps: SequenceInfo,
    pps: PictureInfo,
    cols: int,
    rows: int,
) -> Option<Seq<Seq<u8>>> {
    match read_tiled_fields(s, sps, pps) {
        Some((qp, rest)) => if rest.len() > 0 && rest[0] {
            match read_tiles(
                data_behind(s, rest),
                qp,
                sps.width as int,
                sps.height as int,
                cols,
                rows,
                (cols * rows) as nat,
            ) {
                Some((tiles, _)) => Some(rastered(tiles, sps.width as int, sps.height as int, cols, rows)),
                None => None,
            }
        } else {
            None
        },
        None => None,
    }
}

/// The first `n` blocks of a tile.
pub open spec fn tile_blocks(pl: Planes, tile: Tile, n: int) -> Seq<Seq<u8>> {
    Seq::new(n as nat, |t: int| pl.samples(tile.x0 + t % tile.columns(), tile.y0 + t / tile.columns()))
}

/// A tile with what ends its subset.
spec fn ended(s: SliceState, last: bool) -> SliceState {
    if last {
        s
    } else {
        s.with(seq![Bin::Terminate { end: true }])
    }
}

proof fn lemma_ended_begins(s: SliceState, last: bool)
    ensures
        begins(s.coder.out, ended(s, last).coder.out),
{
    lemma_bins_begin(s.coder, s.ctxs, seq![Bin::Terminate { end: true }]);
    assert(s.coder.out.take(s.coder.out.len() as int) =~= s.coder.out);
}

proof fn lemma_tile_opening(pending: Seq<Bin>)
    requires
        goes_on(pending),
    ensures
        opening(pending + Seq::<Bin>::empty() + seq![decision_bin(CTX_PART_MODE as int, 0, true)]),
{
    let part = seq![decision_bin(CTX_PART_MODE as int, 0, true)];
    let none = Seq::<Bin>::empty();
    assert(inner(pending, 1)) by {
        assert forall|i: int| 0 <= i < pending.len() implies inner_bin(#[trigger] pending[i]) by {}
    }
    assert(inner(part, 1));
    assert(pending + none =~= pending);
    lemma_inner_concat(pending, 1, part, 1);
}

/// Behind the last block of a tile that is not the last stand the flag that the slice goes
/// on and the end of the subset.
proof fn lemma_reads_subset_end(f: Seq<bool>, base: Seq<bool>, ctxs: Seq<ContextModel>)
    requires
        contexts_wf(ctxs),
        ctxs.len() == CONTEXTS,
        begins(
            reached(base, ctxs, seq![Bin::Terminate { end: false }]).with(seq![Bin::Terminate { end: true }]).coder.out,
            f,
        ),
    ensures
        ({
            let fin = reached(base, ctxs, seq![Bin::Terminate { end: false }]).with(seq![Bin::Terminate { end: true }]);
            &&& Decoder::start(f.skip(base.len() as int)) matches Ok(decoder)
            &&& (Source { decoder, ctxs }).terminate() matches Some((on, t))
            &&& !on
            &&& t.terminate() matches Some((end, u))
            &&& end
            &&& u.decoder.rest == f.skip(fin.coder.out.len() as int)
        }),
{
    let a = seq![Bin::Terminate { end: false }];
    let b = seq![Bin::Terminate { end: true }];
    assert(opening(a));
    assert(a.push(Bin::Terminate { end: true }) =~= a + b);
    lemma_reached_more(base, ctxs, a, b);
    lemma_word_feeds(f, base, ctxs, a);
    let s = Source { decoder: Decoder::start(f.skip(base.len() as int))->Ok_0, ctxs };
    lemma_feeds_concat(s, a, b);
    lemma_reads_terminate(s, false);
    lemma_reads_terminate(s.past(a), true);
}

/// The blocks of a tile are read back, from the start of a codeword in which `pending` has
/// been read.
proof fn lemma_reads_tile(
    f: Seq<bool>,
    base: Seq<bool>,
    ctxs: Seq<ContextModel>,
    pending: Seq<Bin>,
    pl: Planes,
    tile: Tile,
    t: int,
    last: bool,
)
    requires
        f.len() % 8 == 0,
        contexts_wf(ctxs),
        ctxs.len() == CONTEXTS,
        goes_on(pending),
        0 <= t < tile.ctbs(),
        begins(ended(tile_ctbs_coded(pl, tile, reached(base, ctxs, pending), t, last), last).coder.out, f),
    ensures
        ({
            let fin = ended(tile_ctbs_coded(pl, tile, reached(base, ctxs, pending), t, last), last);
            &&& Decoder::start(f.skip(base.len() as int)) matches Ok(decoder)
            &&& (Source { decoder, ctxs }).feeds(pending)
            &&& read_tile((Source { decoder, ctxs }).past(pending), tile_blocks(pl, tile, t), tile.ctbs(), last) matches Some(
                (found, s),
            )
            &&& found == tile_blocks(pl, tile, tile.ctbs())
            &&& last || (s.terminate() matches Some((end, u)) && end && u.decoder.rest == f.skip(
                fin.coder.out.len() as int,
            ))
        }),
    decreases tile.ctbs() - t,
{
    let n = tile.ctbs();
    let none = Seq::<Bin>::empty();
    let samples = pl.samples(tile.x0 + t % tile.columns(), tile.y0 + t / tile.columns());
    let stop = seq![Bin::Terminate { end: last && t == n - 1 }];
    let s = reached(base, ctxs, pending);
    assert(s.with(none) == s);
    let u = s.with_pcm(samples);
    let v = u.with(stop);
    let done = tile_ctbs_coded(pl, tile, s, t, last);
    let fin = ended(done, last);
    assert(done == tile_ctbs_coded(pl, tile, v, t + 1, last));
    lemma_bins_begin(u.coder, u.ctxs, stop);
    lemma_tile_begins(pl, tile, v, t + 1, last);
    lemma_ended_begins(done, last);
    lemma_begins_trans(v.coder.out, done.coder.out, fin.coder.out);
    lemma_begins_trans(v.coder.out, fin.coder.out, f);
    lemma_begins_trans(u.coder.out, v.coder.out, f);
    lemma_tile_opening(pending);
    lemma_reads_pcm(f, base, ctxs, pending, none, samples);
    let src = Source { decoder: Decoder::start(f.skip(base.len() as int))->Ok_0, ctxs };
    lemma_feeds_none(src.past(pending));
    assert(v == reached(u.coder.out, u.ctxs, stop));
    assert(tile_blocks(pl, tile, t).push(samples) =~= tile_blocks(pl, tile, t + 1));
    reveal_with_fuel(read_tile, 3);
    if t == n - 1 {
        assert(done == v);
        if last {
            lemma_reads_end(f, u.coder.out, u.ctxs);
        } else {
            lemma_reads_subset_end(f, u.coder.out, u.ctxs);
        }
    } else {
        lemma_reads_tile(f, u.coder.out, u.ctxs, stop, pl, tile, t + 1, last);
        let again = Source { decoder: Decoder::start(f.skip(u.coder.out.len() as int))->Ok_0, ctxs: u.ctxs };
        lemma_reads_terminate(again, false);
    }
}

/// The bits of a subset are those of its tile, up to a byte.
proof fn lemma_subset_bits(pl: Planes, tile: Tile, last: bool)
    ensures
        ({
            let begin = SliceState { coder: Coder::start(Seq::empty()), ctxs: initial_contexts(SLICE_QP as int) };
            let out = ended(tile_ctbs_coded(pl, tile, begin, 0, last), last).coder.out;
            bytes_bits(tile_subset(pl, tile, last)) == aligned(out)
        }),
{
    let begin = SliceState { coder: Coder::start(Seq::empty()), ctxs: initial_contexts(SLICE_QP as int) };
    let out = ended(tile_ctbs_coded(pl, tile, begin, 0, last), last).coder.out;
    lemma_pack_bits(aligned(out));
    assert(aligned(aligned(out)) =~= aligned(out));
}

/// What follows `out` in `f` follows its bytes from the next one on.
proof fn lemma_behind_bytes(f: Seq<bool>, out: Seq<bool>)
    requires
        f.len() % 8 == 0,
        begins(aligned(out), f),
    ensures
        begins(out, f),
        f.skip(out.len() as int).skip(f.skip(out.len() as int).len() as int % 8) == f.skip(aligned(out).len() as int),
{
    lemma_begins_concat(out, zeros(padding(out.len())));
    lemma_begins_trans(out, aligned(out), f);
    let rest = f.skip(out.len() as int);
    assert(rest.skip(rest.len() as int % 8) =~= f.skip(aligned(out).len() as int));
}

/// A subset is read back, and what follows it is found.
proof fn lemma_reads_subset(f: Seq<bool>, pl: Planes, tile: Tile, last: bool)
    requires
        f.len() % 8 == 0,
        tile.ctbs() > 0,
        begins(bytes_bits(tile_subset(pl, tile, last)), f),
    ensures
        read_subset(f, SLICE_QP as int, tile.ctbs(), last) matches Some((found, rest)) && found == tile_blocks(
            pl,
            tile,
            tile.ctbs(),
        ) && (last || rest == f.skip(bytes_bits(tile_subset(pl, tile, last)).len() as int)),
{
    let ctxs = initial_contexts(SLICE_QP as int);
    let none = Seq::<bool>::empty();
    let nothing = Seq::<Bin>::empty();
    let begin = SliceState { coder: Coder::start(none), ctxs };
    assert(reached(none, ctxs, nothing) == begin);
    let out = ended(tile_ctbs_coded(pl, tile, begin, 0, last), last).coder.out;
    lemma_subset_bits(pl, tile, last);
    lemma_behind_bytes(f, out);
    lemma_initial_contexts(SLICE_QP as int);
    lemma_reads_tile(f, none, ctxs, nothing, pl, tile, 0, last);
    assert(f.skip(0) =~= f);
    let source = Source { decoder: Decoder::start(f)->Ok_0, ctxs };
    lemma_feeds_none(source);
    assert(tile_blocks(pl, tile, 0) =~= Seq::<Seq<u8>>::empty());
    let (found, s) = read_tile(source, Seq::empty(), tile.ctbs(), last)->0;
    lemma_subset_from(f, tile.ctbs(), last, found, s);
}

/// A subset whose tile is read is read.
proof fn lemma_subset_from(f: Seq<bool>, n: int, last: bool, found: Seq<Seq<u8>>, s: Source)
    requires
        Decoder::start(f) matches Ok(decoder) && read_tile(
            Source { decoder, ctxs: initial_contexts(SLICE_QP as int) },
            Seq::empty(),
            n,
            last,
        ) == Some((found, s)),
        last || (s.terminate() matches Some((end, u)) && end),
    ensures
        read_subset(f, SLICE_QP as int, n, last) matches Some((same, rest)) && same == found && (last || rest == ({
            let (_, u) = s.terminate()->0;
            let left = u.decoder.rest;
            left.skip(left.len() as int % 8)
        })),
{
    reveal(read_subset);
}

/// The blocks of tile `k` of a picture.
#[verifier::opaque]
spec fn tile_content(pl: Planes, cols: int, rows: int, k: int) -> Seq<Seq<u8>> {
    tile_blocks(pl, tile_of(pl, cols, rows, k), tile_of(pl, cols, rows, k).ctbs())
}

/// The tiles of a grid that fits the picture have blocks.
proof fn lemma_tile_has_blocks(width: int, height: int, cols: int, rows: int, k: int)
    requires
        0 < cols <= width / 16,
        0 < rows <= height / 16,
        0 <= k < cols * rows,
    ensures
        ({
            let tile = grid_tile(width, height, cols, rows, k);
            &&& tile.columns() > 0
            &&& tile.ctbs() > 0
            &&& 0 <= tile.x0 < tile.x1 <= width / 16
            &&& 0 <= tile.y0 < tile.y1 <= height / 16
        }),
{
    assert(k < rows * cols) by (nonlinear_arith)
        requires
            k < cols * rows,
    ;
    lemma_ungrid(k, cols, rows);
    lemma_uniform(k % cols, cols, width / 16);
    lemma_uniform(k / cols, rows, height / 16);
    let tile = grid_tile(width, height, cols, rows, k);
    assert(tile.ctbs() > 0) by (nonlinear_arith)
        requires
            tile.x1 > tile.x0,
            tile.y1 > tile.y0,
            tile.ctbs() == (tile.x1 - tile.x0) * (tile.y1 - tile.y0),
    ;
}

/// The first `k` tiles of a slice are read back, and the bits of the others are left.
proof fn lemma_reads_tiles(pl: Planes, cols: int, rows: int, k: nat)
    requires
        0 < cols <= pl.width / 16,
        0 < rows <= pl.height / 16,
        k <= cols * rows,
    ensures
        ({
            let subsets = tile_subsets(pl, cols, rows);
            let f = bytes_bits(joined(subsets, subsets.len()));
            &&& read_tiles(f, SLICE_QP as int, pl.width, pl.height, cols, rows, k) matches Some((tiles, rest))
            &&& tiles.len() == k
            &&& forall|j: int| 0 <= j < k ==> #[trigger] tiles[j] == tile_content(pl, cols, rows, j)
            &&& k == cols * rows || rest == f.skip(bytes_bits(joined(subsets, k)).len() as int)
        }),
    decreases k,
{
    let subsets = tile_subsets(pl, cols, rows);
    let f = bytes_bits(joined(subsets, subsets.len()));
    if k == 0 {
        assert(bytes_bits(joined(subsets, 0)).len() == 0);
        assert(f.skip(0) =~= f);
    } else {
        let m = (k - 1) as nat;
        lemma_reads_tiles(pl, cols, rows, m);
        let head = bytes_bits(joined(subsets, m));
        let rest = f.skip(head.len() as int);
        lemma_next_subset(pl, cols, rows, m);
        let (tiles, left) = read_tiles(f, SLICE_QP as int, pl.width, pl.height, cols, rows, m)->0;
        assert(left == rest);
        let (found, behind) = read_subset(
            rest,
            SLICE_QP as int,
            grid_tile(pl.width, pl.height, cols, rows, k - 1).ctbs(),
            k == cols * rows,
        )->0;
        assert(read_tiles(f, SLICE_QP as int, pl.width, pl.height, cols, rows, k) == Some((tiles.push(found), behind)));
    }
}

/// The subset behind the first `m` is read back.
proof fn lemma_next_subset(pl: Planes, cols: int, rows: int, m: nat)
    requires
        0 < cols <= pl.width / 16,
        0 < rows <= pl.height / 16,
        m < cols * rows,
    ensures
        ({
            let subsets = tile_subsets(pl, cols, rows);
            let f = bytes_bits(joined(subsets, subsets.len()));
            let rest = f.skip(bytes_bits(joined(subsets, m)).len() as int);
            let n = grid_tile(pl.width, pl.height, cols, rows, m as int).ctbs();
            &&& read_subset(rest, SLICE_QP as int, n, m + 1 == cols * rows) matches Some((found, behind))
            &&& found == tile_content(pl, cols, rows, m as int)
            &&& m + 1 == cols * rows || behind == f.skip(bytes_bits(joined(subsets, m + 1)).len() as int)
        }),
{
    let subsets = tile_subsets(pl, cols, rows);
    let f = bytes_bits(joined(subsets, subsets.len()));
    let tile = tile_of(pl, cols, rows, m as int);
    let last = m + 1 == cols * rows;
    reveal(tile_content);
    assert(tile == grid_tile(pl.width, pl.height, cols, rows, m as int));
    lemma_tile_has_blocks(pl.width, pl.height, cols, rows, m as int);
    let head = bytes_bits(joined(subsets, m));
    let here = bytes_bits(subsets[m as int]);
    assert(subsets[m as int] == tile_subset(pl, tile, last));
    lemma_joined_begins(subsets, m, subsets.len());
    lemma_begins_behind(head, here, f);
    let rest = f.skip(head.len() as int);
    lemma_reads_subset(rest, pl, tile, last);
    lemma_bytes_bits_concat(joined(subsets, m), subsets[m as int]);
    assert(joined(subsets, m + 1) == joined(subsets, m) + subsets[m as int]);
    assert(rest.skip(here.len() as int) =~= f.skip((head + here).len() as int));
}

/// Every block of a picture stands in a tile.
proof fn lemma_stands_somewhere(width: int, height: int, cols: int, rows: int, cx: int, cy: int)
    requires
        0 < cols <= width / 16,
        0 < rows <= height / 16,
        0 <= cx < width / 16,
        0 <= cy < height / 16,
    ensures
        exists|k: int, t: int| stands_at(width, height, cols, rows, k, t, cx, cy),
{
    let (w, h) = (width / 16, height / 16);
    lemma_uniform_end(cols, w);
    lemma_uniform_end(rows, h);
    let c = lemma_covered(cx, cols - 1, cols, w);
    let r = lemma_covered(cy, rows - 1, rows, h);
    lemma_block_of(c, r, cols, rows);
    let k = r * cols + c;
    let tile = grid_tile(width, height, cols, rows, k);
    let (dx, dy) = (cx - tile.x0, cy - tile.y0);
    lemma_block_of(dx, dy, tile.columns(), tile.y1 - tile.y0);
    let t = dy * tile.columns() + dx;
    assert(stands_at(width, height, cols, rows, k, t, cx, cy));
}

/// The tiles of a picture make up its blocks.
proof fn lemma_rastered(pl: Planes, tiles: Seq<Seq<Seq<u8>>>, cols: int, rows: int)
    requires
        pl.wf(),
        0 < cols <= pl.width / 16,
        0 < rows <= pl.height / 16,
        tiles.len() == cols * rows,
        forall|j: int| 0 <= j < tiles.len() ==> #[trigger] tiles[j] == tile_content(pl, cols, rows, j),
    ensures
        rastered(tiles, pl.width, pl.height, cols, rows) == blocks_until(pl, pl.ctbs()),
{
    let blocks = rastered(tiles, pl.width, pl.height, cols, rows);
    let (w, h) = (pl.width / 16, pl.height / 16);
    assert forall|a: int| 0 <= a < blocks.len() implies blocks[a] == blocks_until(pl, pl.ctbs())[a] by {
        lemma_ungrid(a, w, h);
        let (cx, cy) = (a % w, a / w);
        lemma_stands_somewhere(pl.width, pl.height, cols, rows, cx, cy);
        let (k, t) = choose|k: int, t: int| stands_at(pl.width, pl.height, cols, rows, k, t, cx, cy);
        assert(tile_of(pl, cols, rows, k) == grid_tile(pl.width, pl.height, cols, rows, k));
        reveal(tile_content);
        assert(tiles[k] == tile_content(pl, cols, rows, k));
        assert(tiles[k][t] == pl.samples(cx, cy));
    }
    assert(blocks =~= blocks_until(pl, pl.ctbs()));
}

/// Coding a tile adds its samples and a few bits for each block.
proof fn lemma_tile_span(pl: Planes, tile: Tile, s: SliceState, t: int, last: bool)
    requires
        0 <= t <= tile.ctbs(),
        t < tile.ctbs() ==> s.coder.wf(),
        contexts_wf(s.ctxs),
        s.ctxs.len() == CONTEXTS,
    ensures
        ({
            let done = tile_ctbs_coded(pl, tile, s, t, last);
            &&& span(done.coder) <= span(s.coder) + 3106 * (tile.ctbs() - t)
            &&& contexts_wf(done.ctxs)
            &&& done.ctxs.len() == CONTEXTS
            &&& !last && s.coder.wf() ==> done.coder.wf()
        }),
    decreases tile.ctbs() - t,
{
    let n = tile.ctbs();
    if t < n {
        let samples = pl.samples(tile.x0 + t % tile.columns(), tile.y0 + t / tile.columns());
        let bin = Bin::Terminate { end: last && t == n - 1 };
        let u = s.with_pcm(samples);
        let v = u.with(seq![bin]);
        assert(in_bank(pcm_bins(), CONTEXTS as nat));
        lemma_contexts_after_all_wf(s.ctxs, pcm_bins());
        lemma_contexts_after_all_wf(u.ctxs, seq![bin]);
        lemma_pcm_span(s, samples);
        lemma_bin_span(u.coder, u.ctxs, bin);
        assert(v.coder == u.coder.terminate(last && t == n - 1)) by {
            reveal_with_fuel(encode_bins, 2);
            assert(seq![bin].skip(1).len() == 0);
        }
        lemma_terminate_wf(u.coder, last && t == n - 1);
        lemma_tile_span(pl, tile, v, t + 1, last);
    }
}

/// A subset is not much longer than its samples.
proof fn lemma_subset_len(pl: Planes, tile: Tile, last: bool)
    requires
        tile.ctbs() > 0,
    ensures
        0 < 8 * tile_subset(pl, tile, last).len() <= 3106 * tile.ctbs() + 17,
{
    let begin = SliceState { coder: Coder::start(Seq::empty()), ctxs: initial_contexts(SLICE_QP as int) };
    let done = tile_ctbs_coded(pl, tile, begin, 0, last);
    lemma_initial_contexts(SLICE_QP as int);
    lemma_tile_span(pl, tile, begin, 0, last);
    if !last {
        lemma_bin_span(done.coder, done.ctxs, Bin::Terminate { end: true });
    }
    lemma_subset_bits(pl, tile, last);
    lemma_ended_begins(done, last);
    let u = begin.with_pcm(pl.samples(tile.x0 + 0int % tile.columns(), tile.y0 + 0int / tile.columns()));
    let stop = seq![Bin::Terminate { end: last && 0 == tile.ctbs() - 1 }];
    lemma_bins_begin(u.coder, u.ctxs, stop);
    lemma_tile_begins(pl, tile, u.with(stop), 1, last);
}

proof fn lemma_coded_len(bytes: Seq<u8>, run: nat)
    ensures
        bytes.len() <= coded_len(bytes, run).0 <= 2 * bytes.len(),
    decreases bytes.len(),
{
    if bytes.len() > 0 {
        lemma_coded_len(bytes.drop_last(), run);
    }
}

/// Entry points are no larger than their subsets allow.
proof fn lemma_entry_points_bound(subsets: Seq<Seq<u8>>, n: nat, bound: nat)
    requires
        n <= subsets.len(),
        forall|i: int| 0 <= i < subsets.len() ==> 0 < 2 * (#[trigger] subsets[i]).len() <= bound,
    ensures
        entry_points(subsets, n).0.len() == n,
        forall|i: int| 0 <= i < n ==> #[trigger] entry_points(subsets, n).0[i] <= bound,
    decreases n,
{
    if n > 0 {
        let m = (n - 1) as nat;
        lemma_entry_points_bound(subsets, m, bound);
        let (offsets, run) = entry_points(subsets, m);
        lemma_coded_len(subsets[n - 1], run);
        let now = entry_points(subsets, n).0;
        assert forall|i: int| 0 <= i < n implies #[trigger] now[i] <= bound by {
            if i < m {
                assert(now[i] == offsets[i]);
            }
        }
    }
}

proof fn lemma_width_at_most(v: nat)
    ensures
        width(v) <= v,
    decreases v,
{
    if v > 0 {
        lemma_width_at_most(v / 2);
    }
}

proof fn lemma_offset_bits_bound(offsets: Seq<nat>, n: nat, bound: nat)
    requires
        n <= offsets.len(),
        bound >= 1,
        forall|i: int| 0 <= i < n ==> #[trigger] offsets[i] <= bound,
    ensures
        1 <= offset_bits(offsets, n) <= bound,
    decreases n,
{
    if n > 0 {
        lemma_offset_bits_bound(offsets, (n - 1) as nat, bound);
        assert(offsets[n - 1] <= bound);
        lemma_width_at_most(offsets[n - 1]);
    }
}

/// The offsets stand behind what comes before them.
proof fn lemma_offsets_behind(b: Seq<bool>, offsets: Seq<nat>, bits: nat, n: nat)
    ensures
        offsets_behind(b, offsets, bits, n) == b + offsets_behind(Seq::empty(), offsets, bits, n),
        offsets_behind(Seq::empty(), offsets, bits, n).len() == n * bits,
    decreases n,
{
    let e = Seq::<bool>::empty();
    if n == 0 {
        assert(b + e =~= b);
        assert(0 * bits == 0) by (nonlinear_arith);
    } else {
        let m = (n - 1) as nat;
        lemma_offsets_behind(b, offsets, bits, m);
        lemma_assoc(b, offsets_behind(e, offsets, bits, m), be_bits(offsets[n - 1], bits));
        assert(n * bits == m * bits + bits) by (nonlinear_arith)
            requires
                n == m + 1,
        ;
    }
}

/// The entry points of a header.
spec fn entry_part(offsets: Seq<nat>) -> Seq<bool> {
    let n = offsets.len();
    let bits = offset_bits(offsets, n);
    ue_bits(n) + if n > 0 {
        ue_bits((bits - 1) as nat) + offsets_behind(Seq::empty(), offsets, bits as nat, n)
    } else {
        Seq::empty()
    }
}

proof fn lemma_skips_entry_points(offsets: Seq<nat>, rest: Seq<bool>)
    requires
        offsets.len() <= BitWriter::MAX_UE,
        1 <= offset_bits(offsets, offsets.len()) <= BitWriter::MAX_UE,
    ensures
        skip_entry_points(entry_part(offsets) + rest) == Some(rest),
{
    let n = offsets.len();
    let bits = offset_bits(offsets, n) as nat;
    let e = Seq::<bool>::empty();
    if n > 0 {
        let (a, b) = (ue_bits((bits - 1) as nat), offsets_behind(e, offsets, bits, n));
        lemma_offsets_behind(e, offsets, bits, n);
        lemma_assoc(ue_bits(n), a + b, rest);
        lemma_assoc(a, b, rest);
        law_ue_roundtrip(n, a + (b + rest));
        law_ue_roundtrip((bits - 1) as nat, b + rest);
        assert((b + rest).skip((n * bits) as int) =~= rest);
    } else {
        lemma_assoc(ue_bits(n), e, rest);
        assert(e + rest =~= rest);
        law_ue_roundtrip(n, rest);
    }
}

/// The header of a tiled slice in the parts that it is read in.
proof fn lemma_tiled_parts(opts: Shape, offsets: Seq<nat>)
    requires
        !sao_on(opts),
    ensures
        tiled_header(opts, offsets) == aligned(
            (fields_bits(segment_fields(true), 3) + slice_part(opts, true) + entry_part(offsets)).push(true),
        ),
{
    let n = offsets.len();
    let bits = offset_bits(offsets, n);
    let e = Seq::<bool>::empty();
    let a = fields_bits(segment_fields(true), 3);
    lemma_segment_head(true);
    lemma_slice_part_behind(a, opts, true);
    let filtered = a + slice_part(opts, true);
    let counted = filtered + ue_bits(n);
    if n > 0 {
        let (u, x) = (ue_bits((bits - 1) as nat), offsets_behind(e, offsets, bits as nat, n));
        lemma_offsets_behind(counted + u, offsets, bits as nat, n);
        lemma_assoc(filtered, ue_bits(n), u + x);
        lemma_assoc(counted, u, x);
    } else {
        lemma_assoc(filtered, ue_bits(n), e);
        assert(counted + e =~= counted);
    }
}

proof fn lemma_reads_tiled_fields(
    opts: Shape,
    offsets: Seq<nat>,
    sps: SequenceInfo,
    pps: PictureInfo,
    rest: Seq<bool>,
)
    requires
        !sao_on(opts),
        !sps.sao,
        pps.deblocking == opts.deblocking,
        offsets.len() <= BitWriter::MAX_UE,
        1 <= offset_bits(offsets, offsets.len()) <= BitWriter::MAX_UE,
    ensures
        read_tiled_fields(
            fields_bits(segment_fields(true), 3) + (slice_part(opts, true) + (entry_part(offsets) + rest)),
            sps,
            pps,
        ) == Some((SLICE_QP as int, rest)),
{
    let list = segment_fields(true);
    let (b, c) = (slice_part(opts, true), entry_part(offsets));
    law_fields_read_back(list, 3, b + (c + rest));
    assert(list.take(3) =~= list);
    lemma_slice_part(opts, true, c + rest);
    lemma_skips_entry_points(offsets, rest);
}

proof fn lemma_reads_tiled_header(
    opts: Shape,
    offsets: Seq<nat>,
    sps: SequenceInfo,
    pps: PictureInfo,
    data: Seq<bool>,
)
    requires
        !sao_on(opts),
        !sps.sao,
        pps.deblocking == opts.deblocking,
        offsets.len() <= BitWriter::MAX_UE,
        1 <= offset_bits(offsets, offsets.len()) <= BitWriter::MAX_UE,
    ensures
        ({
            let s = tiled_header(opts, offsets) + data;
            &&& read_tiled_fields(s, sps, pps) matches Some((qp, rest))
            &&& qp == SLICE_QP
            &&& rest.len() > 0 && rest[0]
            &&& data_behind(s, rest) == data
        }),
        tiled_header(opts, offsets).len() % 8 == 0,
{
    let (a, b, c) = (fields_bits(segment_fields(true), 3), slice_part(opts, true), entry_part(offsets));
    let x = a + b + c;
    let rest = seq![true] + zeros(padding(x.len() + 1)) + data;
    lemma_tiled_parts(opts, offsets);
    lemma_data_behind(x, data);
    lemma_assoc(a + b, c, rest);
    lemma_assoc(a, b, c + rest);
    lemma_reads_tiled_fields(opts, offsets, sps, pps, rest);
}

/// The entry points of a picture fit their fields.
proof fn lemma_tiled_offsets(pl: Planes, cols: int, rows: int)
    requires
        pl.wf(),
        0 < cols <= pl.width / 16,
        0 < rows <= pl.height / 16,
        cols * rows <= MAX_TILES,
        run_length(pl.width / 16, cols) * run_length(pl.height / 16, rows) <= MAX_TILE_BLOCKS,
    ensures
        ({
            let subsets = tile_subsets(pl, cols, rows);
            let offsets = entry_points(subsets, (subsets.len() - 1) as nat).0;
            &&& subsets.len() >= 1
            &&& offsets.len() <= BitWriter::MAX_UE
            &&& 1 <= offset_bits(offsets, offsets.len()) <= BitWriter::MAX_UE
        }),
{
    let subsets = tile_subsets(pl, cols, rows);
    let (w, h) = (pl.width / 16, pl.height / 16);
    assert(cols * rows >= 1) by (nonlinear_arith)
        requires
            0 < cols,
            0 < rows,
    ;
    let (a, b) = (run_length(w, cols), run_length(h, rows));
    let bound: nat = 0xFFFF_0000;
    assert forall|i: int| 0 <= i < subsets.len() implies 0 < 2 * (#[trigger] subsets[i]).len() <= bound by {
        let tile = tile_of(pl, cols, rows, i);
        assert(tile == grid_tile(pl.width, pl.height, cols, rows, i));
        lemma_tile_has_blocks(pl.width, pl.height, cols, rows, i);
        assert(i < rows * cols) by (nonlinear_arith)
            requires
                i < cols * rows,
        ;
        lemma_ungrid(i, cols, rows);
        lemma_part_length(i % cols, cols, w);
        lemma_part_length(i / cols, rows, h);
        assert(tile.ctbs() <= a * b) by (nonlinear_arith)
            requires
                tile.ctbs() == (tile.x1 - tile.x0) * (tile.y1 - tile.y0),
                0 <= tile.x1 - tile.x0 <= a,
                0 <= tile.y1 - tile.y0 <= b,
        ;
        lemma_subset_len(pl, tile, i == cols * rows - 1);
    }
    let n = (subsets.len() - 1) as nat;
    lemma_entry_points_bound(subsets, n, bound);
    lemma_offset_bits_bound(entry_points(subsets, n).0, n, bound);
}

/// The tiles of a picture decode to its samples, block for block.
pub proof fn law_tiles_decode_to_the_blocks(
    pl: Planes,
    opts: Shape,
    cols: int,
    rows: int,
    sps: SequenceInfo,
    pps: PictureInfo,
)
    requires
        pl.wf(),
        0 < cols <= pl.width / 16,
        0 < rows <= pl.height / 16,
        cols * rows <= MAX_TILES,
        run_length(pl.width / 16, cols) * run_length(pl.height / 16, rows) <= MAX_TILE_BLOCKS,
        !sao_on(opts),
        sets_of(pl, opts, sps, pps),
    ensures
        decode_tiled(bytes_bits(tiled_slice(pl, opts, cols, rows)), sps, pps, cols, rows) == Some(
            blocks_until(pl, pl.ctbs()),
        ),
{
    reveal(decode_tiled);
    let subsets = tile_subsets(pl, cols, rows);
    let offsets = entry_points(subsets, (subsets.len() - 1) as nat).0;
    let bytes = joined(subsets, subsets.len());
    let header = tiled_header(opts, offsets);
    lemma_tiled_offsets(pl, cols, rows);
    lemma_reads_tiled_header(opts, offsets, sps, pps, bytes_bits(bytes));
    lemma_whole_bytes(header, bytes);
    lemma_reads_tiles(pl, cols, rows, (cols * rows) as nat);
    let (tiles, _) = read_tiles(
        bytes_bits(bytes),
        SLICE_QP as int,
        pl.width,
        pl.height,
        cols,
        rows,
        (cols * rows) as nat,
    )->0;
    lemma_rastered(pl, tiles, cols, rows);
}

} // verus!
