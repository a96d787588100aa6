//! PCM slice segments on the read side: their headers, and the pictures that a decoder
//! gathers from them.
use vstd::prelude::*;
use vstd::arithmetic::power2::{lemma2_to64, pow2};
use crate::bin_source::{lemma_feeds_none, Source};
use crate::bins::{contexts_wf, initial_contexts, Bin, CONTEXTS};
use crate::bitreader::{law_se_roundtrip, law_u_roundtrip, law_ue_roundtrip, read_se, read_u, read_ue};
use crate::bits::{aligned, be_bits, bytes_bits, lemma_width, pack, padding, se_bits, ue_bits, width, zeros};
use crate::cabac::ContextModel;
use crate::cabac_decoder::Decoder;
use crate::cabac_encoder::Coder;
use crate::fields::{fields_bits, kinds_of, law_fields_read_back, read_fields, Field};
use crate::parameter_reader::{PictureInfo, SequenceInfo};
use crate::parameter_sets::SLICE_QP;
use crate::pcm::{
    address_bits, ctbs_coded, dependent_mode, law_no_segment_is_empty, options_ok, plan_of, plan_ok, sao_on,
    segment_end, segment_header, segment_start, segments_from, slice_segments, slice_start_of, Planes, Shape,
    SliceState,
};
use crate::pcm_decoder::{blocks_until, lemma_reads_ctbs, reached, read_ctbs};
use crate::pcm_laws::{lemma_begins_trans, lemma_ctbs_begin, lemma_packed_begins, lemma_segments_kept};
use crate::picture_decoder::{data_behind, lemma_data_behind, skip_across};
use crate::slice_laws::lemma_initial_contexts;

verus! {

/// What the header of a slice segment tells. A dependent one has its offsets and its QP
/// from the slice before it.
pub struct SegmentInfo {
    pub dependent: bool,
    /// The block that the segment starts at.
    pub address: nat,
    /// Whether the blocks carry luma offsets.
    pub sao: bool,
    pub qp: int,
}

/// The fields at the start of a segment's header.
pub open spec fn segment_fields(first: bool) -> Seq<Field> {
    seq![Field::Flag(first), Field::Flag(false), Field::Code(0)]
}

/// A flag at the front of `s`, where there is one, and the bits behind it.
pub open spec fn read_flag_if(s: Seq<bool>, present: bool) -> Option<(bool, Seq<bool>)> {
    if !present {
        Some((false, s))
    } else if s.len() == 0 {
        None
    } else {
        Some((s[0], s.skip(1)))
    }
}

/// The address at the front of `s`, where there is one, and the bits behind it.
pub open spec fn read_address(s: Seq<bool>, present: bool, n: nat) -> Option<(nat, Seq<bool>)> {
    if !present {
        Some((0, s))
    } else {
        match read_u(s, n) {
            Ok((v, rest)) => Some((v, rest)),
            Err(_) => None,
        }
    }
}

/// The flags of the offsets at the front of `s`, where the sequence has offsets: luma alone
/// may have them.
pub open spec fn read_luma_flag(s: Seq<bool>, enabled: bool) -> Option<(bool, Seq<bool>)> {
    match read_flag_if(s, enabled) {
        Some((luma, t)) => match read_flag_if(t, enabled) {
            Some((false, u)) => Some((luma, u)),
            _ => None,
        },
        None => None,
    }
}

/// What an independent segment adds: an intra slice, its offsets and its QP.
#[verifier::opaque]
pub open spec fn read_slice_part(
    s: Seq<bool>,
    sao_enabled: bool,
    deblocking: bool,
) -> Option<((bool, int), Seq<bool>)> {
    match read_ue(s) {
        Ok((kind, t)) => if kind != 2 {
            None
        } else {
            match read_luma_flag(t, sao_enabled) {
                Some((sao, u)) => match read_se(u) {
                    Ok((delta, v)) => match skip_across(v, deblocking || sao) {
                        Some(w) => Some(((sao, 26 + delta), w)),
                        None => None,
                    },
                    Err(_) => None,
                },
                None => None,
            }
        },
        Err(_) => None,
    }
}

/// The fields of a segment's header, and the bits behind them.
#[verifier::opaque]
pub open spec fn read_segment_fields(
    s: Seq<bool>,
    total: int,
    sps: SequenceInfo,
    pps: PictureInfo,
) -> Option<(SegmentInfo, Seq<bool>)> {
    match read_fields(kinds_of(segment_fields(true)), s, 3) {
        Some((f, t)) => {
            let first = f[0]->Flag_0;
            if f != segment_fields(first) {
                None
            } else {
                match read_flag_if(t, !first && pps.dependent) {
                    Some((dependent, u)) => match read_address(u, !first, address_bits(total)) {
                        Some((address, v)) => if dependent {
                            Some((SegmentInfo { dependent, address, sao: false, qp: 0 }, v))
                        } else {
                            match read_slice_part(v, sps.sao, pps.deblocking) {
                                Some(((sao, qp), w)) => Some((SegmentInfo { dependent, address, sao, qp }, w)),
                                None => None,
                            }
                        },
                        None => None,
                    },
                    None => None,
                }
            }
        },
        None => None,
    }
}

/// The header of the segment `s`, and the bits behind it from the next byte on.
pub open spec fn read_segment_header(
    s: Seq<bool>,
    total: int,
    sps: SequenceInfo,
    pps: PictureInfo,
) -> Option<(SegmentInfo, Seq<bool>)> {
    match read_segment_fields(s, total, sps, pps) {
        Some((info, rest)) => if rest.len() > 0 && rest[0] {
            Some((info, data_behind(s, rest)))
        } else {
            None
        },
        None => None,
    }
}

/// What a decoder has of a picture between its segments.
pub struct Gathered {
    /// The blocks so far, in raster order.
    pub blocks: Seq<Seq<u8>>,
    /// The context variables at the end of the last segment.
    pub ctxs: Seq<ContextModel>,
    /// Where the slice of the last segment starts.
    pub slice_start: int,
    pub sao: bool,
}

/// What a decoder has before the first segment.
pub open spec fn nothing_yet() -> Gathered {
    Gathered { blocks: Seq::empty(), ctxs: Seq::empty(), slice_start: 0, sao: false }
}

/// The picture with one more segment.
#[verifier::opaque]
pub open spec fn decode_segment(g: Gathered, s: Seq<bool>, sps: SequenceInfo, pps: PictureInfo) -> Option<Gathered> {
    let columns = sps.width as int / 16;
    let total = columns * (sps.height as int / 16);
    match read_segment_header(s, total, sps, pps) {
        Some((info, data)) => if info.address != g.blocks.len() {
            None
        } else {
            let (ctxs, slice_start, sao) = if info.dependent {
                (g.ctxs, g.slice_start, g.sao)
            } else {
                (initial_contexts(info.qp), info.address as int, info.sao)
            };
            match Decoder::start(data) {
                Ok(decoder) => match read_ctbs(
                    Source { decoder, ctxs },
                    g.blocks,
                    sao,
                    columns,
                    slice_start,
                    total,
                ) {
                    Some((blocks, after)) => Some(Gathered { blocks, ctxs: after, slice_start, sao }),
                    None => None,
                },
                Err(_) => None,
            }
        },
        None => None,
    }
}

/// The bits of a flag that is there.
pub open spec fn flag_if(present: bool, b: bool) -> Seq<bool> {
    if present {
        seq![b]
    } else {
        Seq::empty()
    }
}

/// The bits of an address that is there.
spec fn address_if(present: bool, v: nat, n: nat) -> Seq<bool> {
    if present {
        be_bits(v, n)
    } else {
        Seq::empty()
    }
}

/// What an independent segment adds.
pub open spec fn slice_part(opts: Shape, across: bool) -> Seq<bool> {
    ue_bits(2) + (flag_if(sao_on(opts), true) + (flag_if(sao_on(opts), false) + (se_bits(SLICE_QP - 26) + flag_if(
        opts.deblocking || sao_on(opts),
        across,
    ))))
}

/// The fields of the header of segment `k`.
#[verifier::opaque]
spec fn segment_parts(opts: Shape, plan: Seq<(int, Option<bool>)>, k: int, total: int) -> Seq<bool> {
    fields_bits(segment_fields(k == 0), 3) + (flag_if(k > 0 && dependent_mode(opts), true) + (address_if(
        k > 0,
        plan[k].0 as nat,
        address_bits(total),
    ) + match plan[k].1 {
        Some(across) => slice_part(opts, across),
        None => Seq::empty(),
    }))
}

pub(crate) proof fn lemma_assoc(a: Seq<bool>, b: Seq<bool>, c: Seq<bool>)
    ensures
        a + (b + c) == (a + b) + c,
{
    assert(a + (b + c) =~= (a + b) + c);
}

pub(crate) proof fn lemma_flag_pushed(s: Seq<bool>, present: bool, b: bool)
    ensures
        s + flag_if(present, b) == if present {
            s.push(b)
        } else {
            s
        },
{
    assert(s + flag_if(present, b) =~= if present {
        s.push(b)
    } else {
        s
    });
}

pub(crate) proof fn lemma_segment_head(first: bool)
    ensures
        fields_bits(segment_fields(first), 3) == Seq::<bool>::empty().push(first).push(false) + ue_bits(0),
{
    let list = segment_fields(first);
    let e = Seq::<bool>::empty();
    reveal_with_fuel(fields_bits, 4);
    assert(e.push(first) =~= e + seq![first]);
    assert(e.push(first).push(false) =~= e + seq![first] + seq![false]);
}

/// What an independent segment adds, one field behind the other.
pub(crate) proof fn lemma_slice_part_behind(a: Seq<bool>, opts: Shape, across: bool)
    ensures
        a + slice_part(opts, across) == ({
            let typed = a + ue_bits(2);
            let sao = if sao_on(opts) {
                typed.push(true).push(false)
            } else {
                typed
            };
            let qp = sao + se_bits(SLICE_QP - 26);
            if opts.deblocking || sao_on(opts) {
                qp.push(across)
            } else {
                qp
            }
        }),
{
    let (u, q) = (ue_bits(2), se_bits(SLICE_QP - 26));
    let (x, y) = (flag_if(sao_on(opts), true), flag_if(sao_on(opts), false));
    let z = flag_if(opts.deblocking || sao_on(opts), across);
    lemma_assoc(a, u, x + (y + (q + z)));
    lemma_assoc(a + u, x, y + (q + z));
    lemma_assoc(a + u + x, y, q + z);
    lemma_assoc(a + u + x + y, q, z);
    lemma_flag_pushed(a + u, sao_on(opts), true);
    lemma_flag_pushed(a + u + x, sao_on(opts), false);
    lemma_flag_pushed(a + u + x + y + q, opts.deblocking || sao_on(opts), across);
}

proof fn lemma_segment_parts(opts: Shape, plan: Seq<(int, Option<bool>)>, k: int, total: int)
    requires
        0 <= k < plan.len(),
    ensures
        segment_header(opts, plan, k, total) == aligned(segment_parts(opts, plan, k, total).push(true)),
{
    reveal(segment_parts);
    let e = Seq::<bool>::empty();
    let head = fields_bits(segment_fields(k == 0), 3);
    lemma_segment_head(k == 0);
    let b = flag_if(k > 0 && dependent_mode(opts), true);
    let c = address_if(k > 0, plan[k].0 as nat, address_bits(total));
    let d = match plan[k].1 {
        Some(across) => slice_part(opts, across),
        None => e,
    };
    lemma_flag_pushed(head, k > 0 && dependent_mode(opts), true);
    lemma_assoc(head, b, c + d);
    lemma_assoc(head + b, c, d);
    assert(head + b + e =~= head + b);
    match plan[k].1 {
        Some(across) => {
            lemma_slice_part_behind(head + b + c, opts, across);
        },
        None => {
            assert(head + b + c + e =~= head + b + c);
        },
    }
}

pub(crate) proof fn lemma_flag_if(present: bool, b: bool, rest: Seq<bool>)
    ensures
        read_flag_if(flag_if(present, b) + rest, present) == Some((present && b, rest)),
        skip_across(flag_if(present, b) + rest, present) == Some(rest),
{
    let s = flag_if(present, b) + rest;
    if present {
        assert(s.skip(1) =~= rest);
    } else {
        assert(s =~= rest);
    }
}

proof fn lemma_address_if(present: bool, v: nat, n: nat, rest: Seq<bool>)
    requires
        present ==> v < pow2(n),
        !present ==> v == 0,
    ensures
        read_address(address_if(present, v, n) + rest, present, n) == Some((v, rest)),
{
    if present {
        law_u_roundtrip(v, n, rest);
    } else {
        assert(address_if(present, v, n) + rest =~= rest);
    }
}

proof fn lemma_slice_part_then(opts: Shape, across: bool, rest: Seq<bool>)
    ensures
        slice_part(opts, across) + rest == ue_bits(2) + (flag_if(sao_on(opts), true) + (flag_if(sao_on(opts), false) + (
        se_bits(SLICE_QP - 26) + (flag_if(opts.deblocking || sao_on(opts), across) + rest)))),
{
    let (x, y) = (flag_if(sao_on(opts), true), flag_if(sao_on(opts), false));
    let q = se_bits(SLICE_QP - 26);
    let z = flag_if(opts.deblocking || sao_on(opts), across);
    lemma_assoc(ue_bits(2), x + (y + (q + z)), rest);
    lemma_assoc(x, y + (q + z), rest);
    lemma_assoc(y, q + z, rest);
    lemma_assoc(q, z, rest);
}

proof fn lemma_luma_flag(sao: bool, rest: Seq<bool>)
    ensures
        read_luma_flag(flag_if(sao, true) + (flag_if(sao, false) + rest), sao) == Some((sao, rest)),
{
    lemma_flag_if(sao, true, flag_if(sao, false) + rest);
    lemma_flag_if(sao, false, rest);
}

pub(crate) proof fn lemma_slice_part(opts: Shape, across: bool, rest: Seq<bool>)
    ensures
        read_slice_part(slice_part(opts, across) + rest, sao_on(opts), opts.deblocking) == Some(
            ((sao_on(opts), SLICE_QP as int), rest),
        ),
{
    reveal(read_slice_part);
    let sao = sao_on(opts);
    let (x, y) = (flag_if(sao, true), flag_if(sao, false));
    let q = se_bits(SLICE_QP - 26);
    let z = flag_if(opts.deblocking || sao, across);
    lemma_slice_part_then(opts, across, rest);
    law_ue_roundtrip(2, x + (y + (q + (z + rest))));
    lemma_luma_flag(sao, q + (z + rest));
    law_se_roundtrip(SLICE_QP - 26, z + rest);
    lemma_flag_if(opts.deblocking || sao, across, rest);
}

/// An address fits its field.
proof fn lemma_address_fits(address: int, total: int)
    requires
        0 <= address < total,
    ensures
        address < pow2(address_bits(total)),
{
    let v = (total - 1) as nat;
    lemma_width(v);
    lemma2_to64();
    if width(v) > 1 {
        assert(address_bits(total) == width(v));
    } else if width(v) == 0 {
        assert(address_bits(total) == 1);
    }
}

/// What the header of segment `k` tells.
spec fn segment_info(opts: Shape, plan: Seq<(int, Option<bool>)>, k: int) -> SegmentInfo {
    SegmentInfo {
        dependent: plan[k].1 is None,
        address: plan[k].0 as nat,
        sao: plan[k].1 is Some && sao_on(opts),
        qp: if plan[k].1 is Some {
            SLICE_QP as int
        } else {
            0
        },
    }
}

/// Segments behind the first depend on those before them in a picture that is split
/// evenly, and no others do.
spec fn depends_right(opts: Shape, plan: Seq<(int, Option<bool>)>, k: int) -> bool {
    &&& plan[k].1 is None == (k > 0 && dependent_mode(opts))
    &&& k == 0 ==> plan[k].0 == 0
}

proof fn lemma_segment_fields(
    opts: Shape,
    plan: Seq<(int, Option<bool>)>,
    k: int,
    total: int,
    sps: SequenceInfo,
    pps: PictureInfo,
    rest: Seq<bool>,
)
    requires
        0 <= k < plan.len(),
        depends_right(opts, plan, k),
        0 <= plan[k].0 < total,
        sps.sao == sao_on(opts),
        pps.dependent == dependent_mode(opts),
        pps.deblocking == opts.deblocking,
    ensures
        read_segment_fields(segment_parts(opts, plan, k, total) + rest, total, sps, pps) == Some(
            (segment_info(opts, plan, k), rest),
        ),
{
    reveal(segment_parts);
    reveal(read_segment_fields);
    let list = segment_fields(k == 0);
    let a = fields_bits(list, 3);
    let b = flag_if(k > 0 && dependent_mode(opts), true);
    let n = address_bits(total);
    let address = plan[k].0 as nat;
    let c = address_if(k > 0, address, n);
    let d = match plan[k].1 {
        Some(across) => slice_part(opts, across),
        None => Seq::empty(),
    };
    lemma_assoc(a, b + (c + d), rest);
    lemma_assoc(b, c + d, rest);
    lemma_assoc(c, d, rest);
    assert(kinds_of(list) =~= kinds_of(segment_fields(true)));
    law_fields_read_back(list, 3, b + (c + (d + rest)));
    assert(list.take(3) =~= list);
    lemma_flag_if(k > 0 && dependent_mode(opts), true, c + (d + rest));
    lemma_address_fits(plan[k].0, total);
    lemma_address_if(k > 0, address, n, d + rest);
    match plan[k].1 {
        Some(across) => {
            lemma_slice_part(opts, across, rest);
        },
        None => {
            assert(d + rest =~= rest);
        },
    }
}

proof fn lemma_reads_segment_header(
    opts: Shape,
    plan: Seq<(int, Option<bool>)>,
    k: int,
    total: int,
    sps: SequenceInfo,
    pps: PictureInfo,
    data: Seq<bool>,
)
    requires
        0 <= k < plan.len(),
        depends_right(opts, plan, k),
        0 <= plan[k].0 < total,
        sps.sao == sao_on(opts),
        pps.dependent == dependent_mode(opts),
        pps.deblocking == opts.deblocking,
    ensures
        read_segment_header(segment_header(opts, plan, k, total) + data, total, sps, pps) == Some(
            (segment_info(opts, plan, k), data),
        ),
        segment_header(opts, plan, k, total).len() % 8 == 0,
{
    let x = segment_parts(opts, plan, k, total);
    let rest = seq![true] + zeros(padding(x.len() + 1)) + data;
    lemma_segment_parts(opts, plan, k, total);
    lemma_data_behind(x, data);
    assert(segment_header(opts, plan, k, total) + data == x + rest);
    lemma_segment_fields(opts, plan, k, total, sps, pps, rest);
}

/// The parameter sets are those of a picture and its options.
pub open spec fn sets_of(pl: Planes, opts: Shape, sps: SequenceInfo, pps: PictureInfo) -> bool {
    &&& sps.width == pl.width
    &&& sps.height == pl.height
    &&& sps.sao == sao_on(opts)
    &&& pps.dependent == dependent_mode(opts)
    &&& pps.deblocking == opts.deblocking
}

/// A segment whose header and blocks are read adds them to the picture.
proof fn lemma_segment_gathers(
    g: Gathered,
    s: Seq<bool>,
    sps: SequenceInfo,
    pps: PictureInfo,
    info: SegmentInfo,
    data: Seq<bool>,
    h: Gathered,
)
    requires
        ({
            let columns = sps.width as int / 16;
            let total = columns * (sps.height as int / 16);
            let ctxs = if info.dependent {
                g.ctxs
            } else {
                initial_contexts(info.qp)
            };
            &&& read_segment_header(s, total, sps, pps) == Some((info, data))
            &&& info.address == g.blocks.len()
            &&& h.slice_start == if info.dependent {
                g.slice_start
            } else {
                info.address as int
            }
            &&& h.sao == if info.dependent {
                g.sao
            } else {
                info.sao
            }
            &&& Decoder::start(data) matches Ok(decoder)
            &&& read_ctbs(Source { decoder, ctxs }, g.blocks, h.sao, columns, h.slice_start, total) == Some(
                (h.blocks, h.ctxs),
            )
        }),
    ensures
        decode_segment(g, s, sps, pps) == Some(h),
{
    reveal(decode_segment);
}

/// A segment behind a header that is read yields its blocks.
proof fn lemma_segment_blocks(
    g: Gathered,
    pl: Planes,
    opts: Shape,
    base: Seq<bool>,
    ctxs: Seq<ContextModel>,
    start: int,
    address: int,
    end: int,
    sps: SequenceInfo,
    pps: PictureInfo,
    info: SegmentInfo,
)
    requires
        contexts_wf(ctxs),
        ctxs.len() == CONTEXTS,
        0 <= address < end <= pl.ctbs(),
        sps.width == pl.width,
        sps.height == pl.height,
        g.blocks == blocks_until(pl, address),
        info.address == address,
        forall|data: Seq<bool>|
            #![trigger base + data]
            read_segment_header(base + data, pl.ctbs(), sps, pps) == Some((info, data)),
        if info.dependent {
            g.ctxs == ctxs && g.slice_start == start && g.sao == sao_on(opts)
        } else {
            ctxs == initial_contexts(info.qp) && start == address && info.sao == sao_on(opts)
        },
    ensures
        ({
            let done = ctbs_coded(pl, opts, SliceState { coder: Coder::start(base), ctxs }, start, address, end);
            &&& decode_segment(g, bytes_bits(pack(aligned(done.coder.out))), sps, pps) == Some(
                Gathered { blocks: blocks_until(pl, end), ctxs: done.ctxs, slice_start: start, sao: sao_on(opts) },
            )
            &&& contexts_wf(done.ctxs)
            &&& done.ctxs.len() == CONTEXTS
        }),
{
    let begin = SliceState { coder: Coder::start(base), ctxs };
    let done = ctbs_coded(pl, opts, begin, start, address, end);
    let f = bytes_bits(pack(aligned(done.coder.out)));
    lemma_packed_begins(done.coder.out);
    lemma_ctbs_begin(pl, opts, begin, start, address, end);
    lemma_begins_trans(base, done.coder.out, f);
    let data = f.skip(base.len() as int);
    assert(f =~= base + data);
    let none = Seq::<Bin>::empty();
    assert(reached(base, ctxs, none) == begin);
    lemma_reads_ctbs(f, base, ctxs, none, pl, opts, start, address, end);
    lemma_feeds_none(Source { decoder: Decoder::start(data)->Ok_0, ctxs });
    lemma_segment_gathers(
        g,
        f,
        sps,
        pps,
        info,
        data,
        Gathered { blocks: blocks_until(pl, end), ctxs: done.ctxs, slice_start: start, sao: sao_on(opts) },
    );
}

/// One segment is read back.
proof fn lemma_decodes_segment(
    g: Gathered,
    pl: Planes,
    opts: Shape,
    plan: Seq<(int, Option<bool>)>,
    k: int,
    ctxs: Seq<ContextModel>,
    slice_start: int,
    sps: SequenceInfo,
    pps: PictureInfo,
)
    requires
        pl.wf(),
        plan_ok(plan, pl.ctbs()),
        0 <= k < plan.len(),
        depends_right(opts, plan, k),
        sets_of(pl, opts, sps, pps),
        g.blocks == blocks_until(pl, plan[k].0),
        plan[k].1 is None ==> g.ctxs == ctxs && g.slice_start == slice_start && g.sao == sao_on(opts) && contexts_wf(
            ctxs,
        ) && ctxs.len() == CONTEXTS,
    ensures
        ({
            let total = pl.ctbs();
            let start = slice_start_of(plan, k, slice_start);
            let end = segment_end(plan, k, total);
            let done = ctbs_coded(pl, opts, segment_start(opts, plan, k, total, ctxs), start, plan[k].0, end);
            &&& decode_segment(g, bytes_bits(pack(aligned(done.coder.out))), sps, pps) == Some(
                Gathered { blocks: blocks_until(pl, end), ctxs: done.ctxs, slice_start: start, sao: sao_on(opts) },
            )
            &&& contexts_wf(done.ctxs)
            &&& done.ctxs.len() == CONTEXTS
        }),
{
    let total = pl.ctbs();
    let info = segment_info(opts, plan, k);
    let base = segment_header(opts, plan, k, total);
    assert(0 <= plan[k].0 < segment_end(plan, k, total) <= total);
    assert forall|data: Seq<bool>|
        #![trigger base + data]
        read_segment_header(base + data, total, sps, pps) == Some((info, data)) by {
        lemma_reads_segment_header(opts, plan, k, total, sps, pps, data);
    }
    lemma_initial_contexts(SLICE_QP as int);
    lemma_segment_blocks(
        g,
        pl,
        opts,
        base,
        segment_start(opts, plan, k, total, ctxs).ctxs,
        slice_start_of(plan, k, slice_start),
        plan[k].0,
        segment_end(plan, k, total),
        sps,
        pps,
        info,
    );
}

/// The picture after the first `n` segments.
pub open spec fn decode_segments(
    payloads: Seq<Seq<u8>>,
    sps: SequenceInfo,
    pps: PictureInfo,
    n: nat,
) -> Option<Gathered>
    decreases n,
{
    if n == 0 {
        Some(nothing_yet())
    } else {
        match decode_segments(payloads, sps, pps, (n - 1) as nat) {
            Some(g) => decode_segment(g, bytes_bits(payloads[n - 1]), sps, pps),
            None => None,
        }
    }
}

/// The first `j` segments of a plan decode to the blocks before the next one.
pub open spec fn decodes_until(
    all: Seq<Seq<u8>>,
    pl: Planes,
    plan: Seq<(int, Option<bool>)>,
    sps: SequenceInfo,
    pps: PictureInfo,
    j: int,
) -> bool {
    decode_segments(all, sps, pps, j as nat) matches Some(g) && g.blocks == blocks_until(
        pl,
        if j < plan.len() {
            plan[j].0
        } else {
            pl.ctbs()
        },
    )
}

proof fn lemma_decodes_segments(
    all: Seq<Seq<u8>>,
    g: Gathered,
    pl: Planes,
    opts: Shape,
    plan: Seq<(int, Option<bool>)>,
    k: int,
    ctxs: Seq<ContextModel>,
    slice_start: int,
    sps: SequenceInfo,
    pps: PictureInfo,
)
    requires
        pl.wf(),
        plan_ok(plan, pl.ctbs()),
        0 <= k <= plan.len(),
        forall|i: int| 0 <= i < plan.len() ==> #[trigger] depends_right(opts, plan, i),
        sets_of(pl, opts, sps, pps),
        all.len() == plan.len(),
        all == segments_from(all.take(k), pl, opts, plan, k, ctxs, slice_start),
        decode_segments(all, sps, pps, k as nat) == Some(g),
        g.blocks == blocks_until(
            pl,
            if k < plan.len() {
                plan[k].0
            } else {
                pl.ctbs()
            },
        ),
        k > 0 ==> g.ctxs == ctxs && g.slice_start == slice_start && g.sao == sao_on(opts) && contexts_wf(ctxs)
            && ctxs.len() == CONTEXTS,
    ensures
        forall|j: int| k <= j <= plan.len() ==> #[trigger] decodes_until(all, pl, plan, sps, pps, j),
    decreases plan.len() - k,
{
    if k < plan.len() {
        let total = pl.ctbs();
        let start = slice_start_of(plan, k, slice_start);
        let end = segment_end(plan, k, total);
        let done = ctbs_coded(pl, opts, segment_start(opts, plan, k, total, ctxs), start, plan[k].0, end);
        let payload = pack(aligned(done.coder.out));
        assert(depends_right(opts, plan, k));
        lemma_decodes_segment(g, pl, opts, plan, k, ctxs, slice_start, sps, pps);
        let more = all.take(k).push(payload);
        assert(all == segments_from(more, pl, opts, plan, k + 1, done.ctxs, start));
        lemma_segments_kept(more, pl, opts, plan, k + 1, done.ctxs, start);
        assert(more.len() == k + 1);
        assert(all.take(k + 1) == more);
        assert(all[k] == more[k]);
        let h = Gathered { blocks: blocks_until(pl, end), ctxs: done.ctxs, slice_start: start, sao: sao_on(opts) };
        assert(decode_segments(all, sps, pps, (k + 1) as nat) == Some(h));
        lemma_decodes_segments(all, h, pl, opts, plan, k + 1, done.ctxs, start, sps, pps);
    }
}

/// The slice segments of a picture decode to its samples, block for block, one segment
/// after the other.
pub proof fn law_segments_decode_to_the_blocks(pl: Planes, opts: Shape, sps: SequenceInfo, pps: PictureInfo)
    requires
        pl.wf(),
        options_ok(opts, pl.width, pl.height),
        sets_of(pl, opts, sps, pps),
    ensures
        ({
            let plan = plan_of(opts, pl.ctbs());
            let all = slice_segments(pl, opts);
            &&& all.len() == plan.len()
            &&& forall|j: int| 0 <= j <= plan.len() ==> #[trigger] decodes_until(all, pl, plan, sps, pps, j)
        }),
{
    let plan = plan_of(opts, pl.ctbs());
    law_no_segment_is_empty(opts, pl.width, pl.height);
    let all = slice_segments(pl, opts);
    let ctxs = initial_contexts(SLICE_QP as int);
    lemma_segments_kept(Seq::empty(), pl, opts, plan, 0, ctxs, 0);
    assert(all.take(0) =~= Seq::<Seq<u8>>::empty());
    assert forall|i: int| 0 <= i < plan.len() implies #[trigger] depends_right(opts, plan, i) by {
        assert(plan[0].0 == 0);
    }
    assert(blocks_until(pl, 0) =~= Seq::<Seq<u8>>::empty());
    lemma_decodes_segments(all, nothing_yet(), pl, opts, plan, 0, ctxs, 0, sps, pps);
}

} // verus!
