//! Streams of PCM pictures on the read side: the pictures that a decoder makes of the
//! access units, and the law that they are the pictures coded.
use vstd::prelude::*;
use crate::bins::initial_contexts;
use crate::bits::{bytes_bits, pack, width};
use crate::bitwriter::BitWriter;
use crate::nal::{frameable, law_walk_inverts_framing, stream_of, unit_of, walk, NalError, Unit};
use crate::parameter_reader::{
    law_pps_reads_back, law_sps_reads_back, picture_info, read_pps, read_sps, PictureInfo, SequenceInfo,
};
use crate::parameter_sets::{pps_bits, sps_bits, vps_bits, SLICE_QP};
use crate::pcm::{
    au_fits, au_outcome, dependent_mode, law_no_segment_is_empty, level_of, options_ok, pcm_error, pcm_units, plan_of,
    sao_on, segment_end, slice_payloads, slice_segments, tiles_fit, Planes, Shape,
};
use crate::pcm_decoder::{assembled, lemma_assembled};
use crate::pcm_laws::{
    found_units, law_access_unit_walks_back, lemma_segments_kept, lemma_units_framed, parsed, typed_payloads,
};
use crate::picture_decoder::lemma_stream_concat;
use crate::segment_decoder::{
    decode_segment, decode_segments, decodes_until, law_segments_decode_to_the_blocks, nothing_yet, Gathered,
};
use crate::tile_decoder::{decode_tiled, law_tiles_decode_to_the_blocks};

verus! {

/// What a decoder of PCM pictures holds between units.
pub struct PcmDecoding {
    pub sps: Option<SequenceInfo>,
    pub pps: Option<PictureInfo>,
    /// The picture that is being gathered.
    pub gathered: Gathered,
    /// The pictures so far.
    pub frames: Seq<Planes>,
}

/// Whether the loop filters leave PCM samples alone: they are told to, or there are none.
pub open spec fn leaves_pcm_alone(sps: SequenceInfo, pps: PictureInfo) -> bool {
    sps.pcm_loop_filter_disabled || !(sps.sao || pps.deblocking)
}

/// The decoder after a slice segment. A picture is complete when all its blocks are there.
pub open spec fn decode_pcm_slice(
    d: PcmDecoding,
    bits: Seq<bool>,
    sps: SequenceInfo,
    pps: PictureInfo,
) -> Option<PcmDecoding> {
    let (width, height) = (sps.width as int, sps.height as int);
    if !leaves_pcm_alone(sps, pps) {
        None
    } else {
        match pps.tiles {
            Some((cols, rows)) => match decode_tiled(bits, sps, pps, cols as int, rows as int) {
                Some(blocks) => Some(PcmDecoding { frames: d.frames.push(assembled(blocks, width, height)), ..d }),
                None => None,
            },
            None => match decode_segment(d.gathered, bits, sps, pps) {
                Some(g) => Some(
                    if g.blocks.len() == (width / 16) * (height / 16) {
                        PcmDecoding {
                            gathered: nothing_yet(),
                            frames: d.frames.push(assembled(g.blocks, width, height)),
                            ..d
                        }
                    } else {
                        PcmDecoding { gathered: g, ..d }
                    },
                ),
                None => None,
            },
        }
    }
}

/// The decoder after one more unit.
pub open spec fn decode_pcm_unit(d: PcmDecoding, u: Unit) -> Option<PcmDecoding> {
    let bits = bytes_bits(u.rbsp);
    if u.header.nal_unit_type == 33 {
        match read_sps(bits) {
            Some(sps) => Some(PcmDecoding { sps: Some(sps), ..d }),
            None => None,
        }
    } else if u.header.nal_unit_type == 34 {
        match read_pps(bits) {
            Some(pps) => Some(PcmDecoding { pps: Some(pps), ..d }),
            None => None,
        }
    } else if u.header.nal_unit_type == 20 {
        match (d.sps, d.pps) {
            (Some(sps), Some(pps)) => decode_pcm_slice(d, bits, sps, pps),
            _ => None,
        }
    } else {
        Some(d)
    }
}

/// The decoder that has seen nothing.
pub open spec fn pcm_start() -> PcmDecoding {
    PcmDecoding { sps: None, pps: None, gathered: nothing_yet(), frames: Seq::empty() }
}

/// The decoder `d` after the first `n` units.
pub open spec fn decode_pcm_units(d: PcmDecoding, units: Seq<Unit>, n: nat) -> Option<PcmDecoding>
    decreases n,
{
    if n == 0 {
        Some(d)
    } else {
        match decode_pcm_units(d, units, (n - 1) as nat) {
            Some(e) => decode_pcm_unit(e, units[n - 1]),
            None => None,
        }
    }
}

/// The pictures of a stream of PCM access units.
pub open spec fn decoded_pcm_stream(bytes: Seq<u8>) -> Option<Seq<Planes>> {
    match walk(Seq::empty(), bytes, 0) {
        Ok(units) => match decode_pcm_units(pcm_start(), units, units.len()) {
            Some(d) => Some(d.frames),
            None => None,
        },
        Err(_) => None,
    }
}

/// A picture to be coded as PCM, and the options it is coded with.
pub struct PcmCoding {
    pub planes: Planes,
    pub opts: Shape,
    pub width: usize,
    pub height: usize,
}

impl PcmCoding {
    /// The picture is one that is not refused, and the loop filters leave its samples alone.
    pub open spec fn wf(self) -> bool {
        &&& self.planes.wf()
        &&& self.planes.width == self.width
        &&& self.planes.height == self.height
        &&& self.width <= BitWriter::MAX_UE
        &&& self.height <= BitWriter::MAX_UE
        &&& options_ok(self.opts, self.width as int, self.height as int)
        &&& tiles_fit(self.opts, self.width as int, self.height as int)
        &&& self.opts.pcm_loop_filter_disabled || !(sao_on(self.opts) || self.opts.deblocking)
    }

    /// Its access unit.
    pub open spec fn bytes(self) -> Seq<u8> {
        stream_of(pcm_units(self.planes, self.opts, self.width, self.height))
    }

    spec fn units(self) -> Seq<Seq<u8>> {
        pcm_units(self.planes, self.opts, self.width, self.height)
    }

    spec fn found(self) -> Seq<Unit> {
        found_units(self.planes, self.opts, self.width, self.height)
    }

    spec fn sps(self) -> SequenceInfo {
        SequenceInfo {
            width: self.width as nat,
            height: self.height as nat,
            level: level_of(self.opts, self.width * self.height),
            sao: sao_on(self.opts),
            pcm_loop_filter_disabled: self.opts.pcm_loop_filter_disabled,
        }
    }

    spec fn pps(self) -> PictureInfo {
        picture_info(dependent_mode(self.opts), self.opts.deblocking, self.opts.tiles)
    }
}

/// The access units of the first `n` pictures, one after another.
pub open spec fn coded_pcm_stream(pictures: Seq<PcmCoding>, n: nat) -> Seq<u8>
    decreases n,
{
    if n == 0 {
        Seq::empty()
    } else {
        coded_pcm_stream(pictures, (n - 1) as nat) + pictures[n - 1].bytes()
    }
}

/// The pictures themselves.
pub open spec fn planes_of(pictures: Seq<PcmCoding>) -> Seq<Planes> {
    Seq::new(pictures.len(), |i: int| pictures[i].planes)
}

/// The units of an access unit, one by one.
proof fn lemma_found(p: PcmCoding)
    ensures
        ({
            let f = p.found();
            let slices = slice_payloads(p.planes, p.opts);
            let level = level_of(p.opts, p.width * p.height);
            &&& f.len() == 3 + slices.len()
            &&& f[0] == parsed(32, pack(vps_bits(level, 1, 0)))
            &&& f[1] == parsed(
                33,
                pack(sps_bits(p.width, p.height, level, sao_on(p.opts), p.opts.pcm_loop_filter_disabled)),
            )
            &&& f[2] == parsed(
                34,
                pack(pps_bits(dependent_mode(p.opts), p.opts.deblocking, false, p.opts.tiles, false)),
            )
            &&& forall|i: int| 0 <= i < slices.len() ==> #[trigger] f[3 + i] == parsed(20, slices[i])
        }),
{
    reveal(found_units);
    let t = typed_payloads(p.planes, p.opts, p.width, p.height);
    let f = p.found();
    let slices = slice_payloads(p.planes, p.opts);
    assert(f[0] == parsed(t[0].0, t[0].1));
    assert(f[1] == parsed(t[1].0, t[1].1));
    assert(f[2] == parsed(t[2].0, t[2].1));
    assert forall|i: int| 0 <= i < slices.len() implies #[trigger] f[3 + i] == parsed(20, slices[i]) by {
        assert(t[3 + i] == (20int, slices[i]));
    }
}

/// The decoder that has read the parameter sets of a picture.
spec fn with_sets(d: PcmDecoding, p: PcmCoding) -> PcmDecoding {
    PcmDecoding { sps: Some(p.sps()), pps: Some(p.pps()), ..d }
}

proof fn lemma_decodes_sets(d: PcmDecoding, p: PcmCoding)
    requires
        p.wf(),
    ensures
        decode_pcm_units(d, p.found(), 3) == Some(with_sets(d, p)),
{
    let level = level_of(p.opts, p.width * p.height);
    lemma_found(p);
    law_sps_reads_back(p.width, p.height, level, sao_on(p.opts), p.opts.pcm_loop_filter_disabled);
    law_pps_reads_back(dependent_mode(p.opts), p.opts.deblocking, p.opts.tiles);
    let f = p.found();
    reveal_with_fuel(decode_pcm_units, 4);
    assert(decode_pcm_units(d, f, 1) == Some(d));
    let e = PcmDecoding { sps: Some(p.sps()), ..d };
    assert(decode_pcm_units(d, f, 2) == Some(e));
    assert(decode_pcm_unit(e, f[2]) == Some(with_sets(d, p)));
}

/// The decoder after the first `j` segments of a picture.
spec fn after_segments(d: PcmDecoding, p: PcmCoding, j: int) -> PcmDecoding {
    let all = slice_segments(p.planes, p.opts);
    if j < all.len() {
        PcmDecoding { gathered: decode_segments(all, p.sps(), p.pps(), j as nat)->0, ..with_sets(d, p) }
    } else {
        PcmDecoding { frames: d.frames.push(p.planes), ..with_sets(d, p) }
    }
}

proof fn lemma_decodes_next(d: PcmDecoding, p: PcmCoding, j: int)
    requires
        p.wf(),
        p.opts.tiles is None,
        0 <= j < slice_segments(p.planes, p.opts).len(),
        d.gathered == nothing_yet(),
    ensures
        decode_pcm_slice(
            after_segments(d, p, j),
            bytes_bits(slice_segments(p.planes, p.opts)[j]),
            p.sps(),
            p.pps(),
        ) == Some(after_segments(d, p, j + 1)),
{
    let pl = p.planes;
    let all = slice_segments(pl, p.opts);
    let plan = plan_of(p.opts, pl.ctbs());
    let (sps, pps) = (p.sps(), p.pps());
    law_segments_decode_to_the_blocks(pl, p.opts, sps, pps);
    law_no_segment_is_empty(p.opts, pl.width, pl.height);
    assert(decodes_until(all, pl, plan, sps, pps, j));
    assert(decodes_until(all, pl, plan, sps, pps, j + 1));
    let g = decode_segments(all, sps, pps, (j + 1) as nat)->0;
    assert(decode_segment(after_segments(d, p, j).gathered, bytes_bits(all[j]), sps, pps) == Some(g));
    if j + 1 < plan.len() {
        assert(plan[j + 1].0 < segment_end(plan, j + 1, pl.ctbs()));
        assert(g.blocks.len() == plan[j + 1].0);
    } else {
        assert(pl.ctbs() >= 0) by {
            assert(plan[0].0 < segment_end(plan, 0, pl.ctbs()));
        }
        lemma_assembled(pl);
    }
}

proof fn lemma_decodes_segment_units(d: PcmDecoding, p: PcmCoding, j: nat)
    requires
        p.wf(),
        p.opts.tiles is None,
        j <= slice_segments(p.planes, p.opts).len(),
        d.gathered == nothing_yet(),
    ensures
        decode_pcm_units(d, p.found(), 3 + j) == Some(after_segments(d, p, j as int)),
    decreases j,
{
    lemma_found(p);
    let all = slice_segments(p.planes, p.opts);
    if j == 0 {
        lemma_decodes_sets(d, p);
        law_segments_decode_to_the_blocks(p.planes, p.opts, p.sps(), p.pps());
        law_no_segment_is_empty(p.opts, p.planes.width, p.planes.height);
        assert(decode_segments(all, p.sps(), p.pps(), 0) == Some(nothing_yet()));
    } else {
        lemma_decodes_segment_units(d, p, (j - 1) as nat);
        lemma_decodes_next(d, p, j - 1);
        assert(p.found()[3 + (j - 1)] == parsed(20, all[j - 1]));
    }
}

/// An access unit decodes to its picture.
proof fn lemma_decodes_access_unit(d: PcmDecoding, p: PcmCoding)
    requires
        p.wf(),
        d.gathered == nothing_yet(),
    ensures
        decode_pcm_units(d, p.found(), p.found().len()) == Some(
            PcmDecoding { frames: d.frames.push(p.planes), ..with_sets(d, p) },
        ),
{
    lemma_found(p);
    match p.opts.tiles {
        Some((c, r)) => {
            lemma_decodes_sets(d, p);
            law_tiles_decode_to_the_blocks(p.planes, p.opts, c as int, r as int, p.sps(), p.pps());
            lemma_assembled(p.planes);
            let slices = slice_payloads(p.planes, p.opts);
            assert(p.found()[3 + 0int] == parsed(20, slices[0]));
        },
        None => {
            lemma_decodes_segment_units(d, p, slice_segments(p.planes, p.opts).len());
        },
    }
}

spec fn all_pcm_units(pictures: Seq<PcmCoding>, n: nat) -> Seq<Seq<u8>>
    decreases n,
{
    if n == 0 {
        Seq::empty()
    } else {
        all_pcm_units(pictures, (n - 1) as nat) + pictures[n - 1].units()
    }
}

spec fn all_pcm_found(pictures: Seq<PcmCoding>, n: nat) -> Seq<Unit>
    decreases n,
{
    if n == 0 {
        Seq::empty()
    } else {
        all_pcm_found(pictures, (n - 1) as nat) + pictures[n - 1].found()
    }
}

/// Every unit is framed and found.
spec fn pcm_framed(units: Seq<Seq<u8>>, found: Seq<Unit>) -> bool {
    &&& units.len() == found.len()
    &&& forall|j: int|
        0 <= j < units.len() ==> frameable(#[trigger] units[j]) && unit_of(units[j]) == Ok::<Unit, NalError>(found[j])
}

proof fn lemma_all_pcm(pictures: Seq<PcmCoding>, n: nat)
    requires
        n <= pictures.len(),
        forall|i: int| 0 <= i < pictures.len() ==> (#[trigger] pictures[i]).wf(),
    ensures
        stream_of(all_pcm_units(pictures, n)) == coded_pcm_stream(pictures, n),
        pcm_framed(all_pcm_units(pictures, n), all_pcm_found(pictures, n)),
    decreases n,
{
    if n > 0 {
        let p = pictures[n - 1];
        lemma_all_pcm(pictures, (n - 1) as nat);
        lemma_stream_concat(all_pcm_units(pictures, (n - 1) as nat), p.units());
        lemma_units_framed(p.planes, p.opts, p.width, p.height);
        assert(pcm_framed(p.units(), p.found()));
    }
}

/// Units behind others are decoded behind them.
proof fn lemma_decode_concat(d: PcmDecoding, a: Seq<Unit>, b: Seq<Unit>, e: PcmDecoding, n: nat)
    requires
        n <= b.len(),
        decode_pcm_units(d, a, a.len()) == Some(e),
    ensures
        decode_pcm_units(d, a + b, a.len() + n) == decode_pcm_units(e, b, n),
    decreases n,
{
    if n == 0 {
        lemma_decode_front(d, a, a + b, a.len());
    } else {
        lemma_decode_concat(d, a, b, e, (n - 1) as nat);
        assert((a + b)[a.len() + n - 1] == b[n - 1]);
    }
}

proof fn lemma_decode_front(d: PcmDecoding, a: Seq<Unit>, b: Seq<Unit>, n: nat)
    requires
        n <= a.len(),
        n <= b.len(),
        forall|i: int| 0 <= i < n ==> #[trigger] a[i] == b[i],
    ensures
        decode_pcm_units(d, a, n) == decode_pcm_units(d, b, n),
    decreases n,
{
    if n > 0 {
        lemma_decode_front(d, a, b, (n - 1) as nat);
        assert(a[n - 1] == b[n - 1]);
    }
}

proof fn lemma_decodes_all(pictures: Seq<PcmCoding>, n: nat)
    requires
        n <= pictures.len(),
        forall|i: int| 0 <= i < pictures.len() ==> (#[trigger] pictures[i]).wf(),
    ensures
        decode_pcm_units(pcm_start(), all_pcm_found(pictures, n), all_pcm_found(pictures, n).len()) matches Some(d)
            && d.gathered == nothing_yet() && d.frames == planes_of(pictures).take(n as int),
    decreases n,
{
    let frames = planes_of(pictures);
    if n == 0 {
        assert(frames.take(0) =~= Seq::<Planes>::empty());
    } else {
        let m = (n - 1) as nat;
        let p = pictures[n - 1];
        lemma_decodes_all(pictures, m);
        let before = all_pcm_found(pictures, m);
        let d = decode_pcm_units(pcm_start(), before, before.len())->0;
        lemma_decodes_access_unit(d, p);
        lemma_decode_concat(pcm_start(), before, p.found(), d, p.found().len());
        assert(frames.take(m as int).push(p.planes) =~= frames.take(n as int));
    }
}

/// PCM is lossless: a decoder that is given the access units of PCM pictures one after
/// another makes one picture of each, in order, and each is the picture that was coded,
/// sample for sample, in whatever slice segments or tiles it was coded, as long as the
/// loop filters leave PCM samples alone.
pub proof fn law_pcm_stream_decodes_to_the_pictures(pictures: Seq<PcmCoding>)
    requires
        forall|i: int| 0 <= i < pictures.len() ==> (#[trigger] pictures[i]).wf(),
    ensures
        decoded_pcm_stream(coded_pcm_stream(pictures, pictures.len())) == Some(planes_of(pictures)),
{
    let n = pictures.len();
    let (units, found) = (all_pcm_units(pictures, n), all_pcm_found(pictures, n));
    lemma_all_pcm(pictures, n);
    assert forall|j: int| 0 <= j < units.len() implies unit_of(#[trigger] units[j]) == Ok::<Unit, NalError>(found[j]) by {
        assert(frameable(units[j]));
    }
    law_walk_inverts_framing(units, found);
    lemma_decodes_all(pictures, n);
    assert(planes_of(pictures).take(n as int) =~= planes_of(pictures));
}

/// An encoded PCM picture decodes to its samples: wherever encoding succeeds and the loop
/// filters leave PCM samples alone, a decoder makes exactly one picture of the access unit,
/// and its planes are those that were encoded. The unit types are those of the three
/// parameter sets, then one slice segment for each of the plan, or one for all the tiles.
pub proof fn law_encoded_pcm_picture_decodes_to_its_samples(
    opts: Shape,
    y: Seq<u8>,
    cb: Seq<u8>,
    cr: Seq<u8>,
    width: usize,
    height: usize,
)
    requires
        pcm_error(opts, width, height, y.len(), cb.len(), cr.len()) is None,
        au_fits(opts, width, height, y.len(), cb.len(), cr.len()),
        width <= BitWriter::MAX_UE,
        height <= BitWriter::MAX_UE,
        opts.pcm_loop_filter_disabled || !(sao_on(opts) || opts.deblocking),
    ensures
        ({
            let planes = Planes { y, cb, cr, width: width as int, height: height as int };
            let slices = if opts.tiles is Some {
                1
            } else {
                plan_of(opts, planes.ctbs()).len()
            };
            &&& au_outcome(opts, y, cb, cr, width, height) matches Ok(au)
            &&& decoded_pcm_stream(au) == Some(seq![planes])
            &&& walk(Seq::empty(), au, 0) matches Ok(units)
            &&& units.len() == 3 + slices
            &&& units[0].header.nal_unit_type == 32
            &&& units[1].header.nal_unit_type == 33
            &&& units[2].header.nal_unit_type == 34
            &&& forall|i: int| 3 <= i < units.len() ==> (#[trigger] units[i]).header.nal_unit_type == 20
        }),
{
    let planes = Planes { y, cb, cr, width: width as int, height: height as int };
    let p = PcmCoding { planes, opts, width, height };
    let one = seq![p];
    assert(coded_pcm_stream(one, 1) == p.bytes()) by {
        assert(one[0] == p);
        assert(coded_pcm_stream(one, 0) == Seq::<u8>::empty());
        assert(coded_pcm_stream(one, 1) == coded_pcm_stream(one, 0) + p.bytes());
        assert(Seq::<u8>::empty() + p.bytes() =~= p.bytes());
    }
    law_pcm_stream_decodes_to_the_pictures(one);
    assert(planes_of(one) =~= seq![planes]);
    law_access_unit_walks_back(planes, opts, width, height);
    lemma_found(p);
    let plan = plan_of(opts, planes.ctbs());
    lemma_segments_kept(Seq::empty(), planes, opts, plan, 0, initial_contexts(SLICE_QP as int), 0);
    let units = p.found();
    assert forall|i: int| 3 <= i < units.len() implies (#[trigger] units[i]).header.nal_unit_type == 20 by {
        assert(units[3 + (i - 3)] == parsed(20, slice_payloads(planes, opts)[i - 3]));
    }
}

} // verus!
