//! Residual-coded pictures on the read side: the pictures that a decoder makes of a
//! stream, and the law that they are the encoder's reconstructions.
use vstd::prelude::*;
use crate::bitreader::{law_se_roundtrip, read_se};
use crate::bits::{
    aligned, bytes_bits, lemma_bytes_bits_concat, lemma_pack_bits, pack, padding, se_bits, ue_bits, zeros,
};
use crate::decision::{decision_pass, ModeSearch};
use crate::fields::{fields_bits, kinds_of, law_fields_read_back, read_fields, Field};
use crate::lossy::{
    access_unit, decides, encode_idr_residual_au, encode_idr_residual_au_rate_constrained, found_grid, header_bits,
    is_outcome, picture_fits, residual_error, slice_rbsp, slice_recon, LoopFilter, SaoQuestion, MAX_PICTURE_SAMPLES,
};
use crate::lossy_laws::{
    law_access_unit_walks_back, lemma_found_grid, lemma_framed, lemma_payload_stops, lemma_unit_count,
};
use crate::nal::{frameable, law_walk_inverts_framing, start_code, stream_of, unit_bytes, unit_of, walk, NalError, Unit};
use crate::parameter_reader::{law_pps_reads_back, law_sps_reads_back, read_pps, read_sps, PictureInfo, SequenceInfo};
use crate::parameter_sets::{level_for, pps_bits, sps_bits, vps_bits};
use crate::pcm::PcmEncodeError;
use crate::pcm_laws::{lemma_parameter_sets_stopped, lemma_pps_stopped, lemma_stop_byte, parsed};
use crate::picture::{narrowed_frame, whole_blocks, widened_frame, Frame, ReconstructedPicture};
use crate::rebuild::{law_reconstruction_follows_the_records, law_records_are_linked, lemma_rebuilt_size, rebuilt};
use crate::recon::{deblocked_frame, offset_picture};
use crate::sao::SaoCell;
use crate::slice::slice_data;
use crate::slice_decoder::{decoded_slice_data, law_slice_data_decodes_to_the_slice, SliceContent};

verus! {

/// What a slice header tells.
pub struct SliceInfo {
    /// Whether the blocks of the slice carry offsets.
    pub sao: bool,
    pub qp: int,
}

/// The fields at the start of the header of a slice that is the whole picture: the first
/// of its picture, intra.
pub open spec fn start_fields() -> Seq<Field> {
    seq![Field::Flag(true), Field::Flag(false), Field::Code(0), Field::Code(2)]
}

/// The flags of the offsets, for luma and for chroma together.
pub open spec fn offset_fields(sao: bool) -> Seq<Field> {
    seq![Field::Flag(sao), Field::Flag(sao)]
}

/// The flags of the offsets at the front of `s`, where the sequence has offsets.
pub open spec fn read_offset_flags(s: Seq<bool>, enabled: bool) -> Option<(bool, Seq<bool>)> {
    if enabled {
        match read_fields(kinds_of(offset_fields(false)), s, 2) {
            Some((f, rest)) => if f == offset_fields(f[0]->Flag_0) {
                Some((f[0]->Flag_0, rest))
            } else {
                None
            },
            None => None,
        }
    } else {
        Some((false, s))
    }
}

/// The flag that lets the loop filters cross slices, where there is one, skipped.
pub open spec fn skip_across(s: Seq<bool>, present: bool) -> Option<Seq<bool>> {
    if !present {
        Some(s)
    } else if s.len() == 0 {
        None
    } else {
        Some(s.skip(1))
    }
}

/// The header of the slice `s`, and the bits behind it up to the next byte.
pub open spec fn read_slice_header(
    s: Seq<bool>,
    sao_enabled: bool,
    deblocking: bool,
) -> Option<(SliceInfo, Seq<bool>)> {
    match read_fields(kinds_of(start_fields()), s, 4) {
        Some((f, t)) => if f != start_fields() {
            None
        } else {
            match read_offset_flags(t, sao_enabled) {
                Some((sao, u)) => match read_se(u) {
                    Ok((delta, v)) => match skip_across(v, deblocking || sao) {
                        Some(w) => if w.len() > 0 && w[0] {
                            Some((SliceInfo { sao, qp: 26 + delta }, data_behind(s, w)))
                        } else {
                            None
                        },
                        None => None,
                    },
                    Err(_) => None,
                },
                None => None,
            }
        },
        None => None,
    }
}

/// The bits of `s` from the first byte behind the one that `rest` starts with.
pub open spec fn data_behind(s: Seq<bool>, rest: Seq<bool>) -> Seq<bool> {
    let used = (s.len() - rest.len() + 1) as nat;
    s.skip((used + padding(used)) as int)
}

/// A picture after its loop filters: deblocked where that is on, then offset where there
/// are offsets.
pub open spec fn filtered(f: Frame, qp: int, deblocking: bool, grid: Option<Seq<SaoCell>>) -> Frame {
    let smooth = if deblocking {
        deblocked_frame(f, qp)
    } else {
        f
    };
    match grid {
        Some(g) => narrowed_frame(offset_picture(widened_frame(smooth), g)),
        None => smooth,
    }
}

/// The picture of a slice, in a sequence of pictures of the given size.
#[verifier::opaque]
pub open spec fn decoded_slice(s: Seq<bool>, width: int, height: int, sao_enabled: bool, deblocking: bool) -> Option<
    Frame,
> {
    let total = ((width / 16) * (height / 16)) as nat;
    match read_slice_header(s, sao_enabled, deblocking) {
        Some((info, data)) => match decoded_slice_data(data, info.sao, info.qp, width / 16, total) {
            Some(content) => Some(
                filtered(
                    rebuilt(content.records, width, height, info.qp, total),
                    info.qp,
                    deblocking,
                    content.grid,
                ),
            ),
            None => None,
        },
        None => None,
    }
}

/// The bits of the flags of the offsets.
spec fn offset_flag_bits(enabled: bool, keep: bool) -> Seq<bool> {
    if enabled {
        fields_bits(offset_fields(keep), 2)
    } else {
        Seq::empty()
    }
}

/// The flag that lets the loop filters cross slices.
spec fn across_bits(present: bool) -> Seq<bool> {
    if present {
        seq![true]
    } else {
        Seq::empty()
    }
}

/// The slice header in the parts that it is read in.
proof fn lemma_header_parts(filter: LoopFilter, keep: bool, qp: int)
    ensures
        ({
            let x = fields_bits(start_fields(), 4) + offset_flag_bits(filter.offsets(), keep) + se_bits(qp - 26)
                + across_bits(filter.deblocks() || keep);
            header_bits(filter, keep, qp) == aligned(x.push(true))
        }),
{
    let list = start_fields();
    reveal_with_fuel(fields_bits, 5);
    let b = Seq::<bool>::empty();
    let head = b.push(true).push(false) + ue_bits(0) + ue_bits(2);
    assert(b.push(true) =~= b + seq![true]);
    assert(b.push(true).push(false) =~= b + seq![true] + seq![false]);
    assert(fields_bits(list, 4) == head);
    let pair = offset_fields(keep);
    assert(fields_bits(pair, 2) == b + seq![keep] + seq![keep]);
    let flagged = head + offset_flag_bits(filter.offsets(), keep);
    assert(flagged =~= if filter.offsets() {
        head.push(keep).push(keep)
    } else {
        head
    });
    let delta = flagged + se_bits(qp - 26);
    assert(delta + across_bits(filter.deblocks() || keep) =~= if filter.deblocks() || keep {
        delta.push(true)
    } else {
        delta
    });
}

proof fn lemma_reads_offset_flags(enabled: bool, keep: bool, rest: Seq<bool>)
    requires
        keep ==> enabled,
    ensures
        read_offset_flags(offset_flag_bits(enabled, keep) + rest, enabled) == Some((keep, rest)),
{
    if enabled {
        let list = offset_fields(keep);
        assert(kinds_of(list) =~= kinds_of(offset_fields(false)));
        law_fields_read_back(list, 2, rest);
        assert(list.take(2) =~= list);
    } else {
        assert(offset_flag_bits(enabled, keep) + rest =~= rest);
    }
}

proof fn lemma_skips_across(present: bool, rest: Seq<bool>)
    ensures
        skip_across(across_bits(present) + rest, present) == Some(rest),
{
    assert(across_bits(present) + rest =~= if present {
        seq![true] + rest
    } else {
        rest
    });
    assert((seq![true] + rest).skip(1) =~= rest);
}

/// What stands behind the header is found behind it.
pub(crate) proof fn lemma_data_behind(x: Seq<bool>, data: Seq<bool>)
    ensures
        ({
            let rest = seq![true] + zeros(padding(x.len() + 1)) + data;
            &&& rest.len() > 0 && rest[0]
            &&& data_behind(x + rest, rest) == data
            &&& x + rest == aligned(x.push(true)) + data
        }),
{
    let rest = seq![true] + zeros(padding(x.len() + 1)) + data;
    assert(data_behind(x + rest, rest) =~= data);
    assert(x + rest =~= aligned(x.push(true)) + data);
}

/// A slice header reads back, and what follows it is found.
proof fn lemma_reads_header(filter: LoopFilter, keep: bool, qp: int, data: Seq<bool>)
    requires
        keep ==> filter.offsets(),
        0 <= qp <= 51,
    ensures
        read_slice_header(header_bits(filter, keep, qp) + data, filter.offsets(), filter.deblocks()) == Some(
            (SliceInfo { sao: keep, qp }, data),
        ),
{
    let list = start_fields();
    let a = fields_bits(list, 4);
    let b = offset_flag_bits(filter.offsets(), keep);
    let c = se_bits(qp - 26);
    let d = across_bits(filter.deblocks() || keep);
    let x = a + b + c + d;
    let rest = seq![true] + zeros(padding(x.len() + 1)) + data;
    lemma_header_parts(filter, keep, qp);
    lemma_data_behind(x, data);
    assert(x + rest =~= a + (b + (c + (d + rest))));
    law_fields_read_back(list, 4, b + (c + (d + rest)));
    assert(list.take(4) =~= list);
    lemma_reads_offset_flags(filter.offsets(), keep, c + (d + rest));
    law_se_roundtrip(qp - 26, d + rest);
    lemma_skips_across(filter.deblocks() || keep, rest);
}

/// The offsets of a slice that keeps them.
spec fn kept_grid(src: Frame, qp: int, search: ModeSearch, keep: bool) -> Option<Seq<SaoCell>> {
    if keep {
        Some(found_grid(src, qp, search))
    } else {
        None
    }
}

proof fn lemma_payload_bits(src: Frame, qp: int, search: ModeSearch, filter: LoopFilter, keep: bool)
    ensures
        bytes_bits(slice_rbsp(src, qp, search, filter, keep)) == header_bits(filter, keep, qp) + bytes_bits(
            slice_data(decision_pass(src, qp, search).records, kept_grid(src, qp, search, keep), qp, src.width / 16),
        ),
{
    let header = header_bits(filter, keep, qp);
    lemma_pack_bits(header);
    assert(header.len() % 8 == 0) by {
        lemma_header_parts(filter, keep, qp);
    }
    assert(aligned(header) =~= header);
    lemma_bytes_bits_concat(
        pack(header),
        slice_data(decision_pass(src, qp, search).records, kept_grid(src, qp, search, keep), qp, src.width / 16),
    );
}

proof fn lemma_content_decodes(src: Frame, qp: int, search: ModeSearch, keep: bool)
    requires
        whole_blocks(src.width, src.height),
        src.width * src.height <= MAX_PICTURE_SAMPLES,
    ensures
        ({
            let records = decision_pass(src, qp, search).records;
            let grid = kept_grid(src, qp, search, keep);
            decoded_slice_data(
                bytes_bits(slice_data(records, grid, qp, src.width / 16)),
                keep,
                qp,
                src.width / 16,
                ((src.width / 16) * (src.height / 16)) as nat,
            ) == Some(SliceContent { records, grid })
        }),
{
    law_records_are_linked(src, qp, search);
    lemma_unit_count(src.width, src.height);
    if keep {
        lemma_found_grid(src, qp, search);
    }
    law_slice_data_decodes_to_the_slice(
        decision_pass(src, qp, search).records,
        kept_grid(src, qp, search, keep),
        qp,
        src.width / 16,
    );
}

proof fn lemma_filtered_is_the_reconstruction(src: Frame, qp: int, search: ModeSearch, filter: LoopFilter, keep: bool)
    requires
        src.width >= 0,
        src.height >= 0,
        keep ==> filter.offsets(),
    ensures
        filtered(
            rebuilt(
                decision_pass(src, qp, search).records,
                src.width,
                src.height,
                qp,
                ((src.width / 16) * (src.height / 16)) as nat,
            ),
            qp,
            filter.deblocks(),
            kept_grid(src, qp, search, keep),
        ) == slice_recon(src, qp, search, filter, keep),
{
    law_reconstruction_follows_the_records(src, qp, search);
    law_records_are_linked(src, qp, search);
}

/// A residual-coded slice decodes to the encoder's reconstruction: whatever the source was
/// and however its decisions were searched, a decoder that reads the payload of the slice
/// makes of it the picture that the encoder returns, with the loop filters that the
/// parameter sets and the slice tell.
pub proof fn law_slice_decodes_to_the_reconstruction(
    src: Frame,
    qp: int,
    search: ModeSearch,
    filter: LoopFilter,
    keep: bool,
)
    requires
        whole_blocks(src.width, src.height),
        src.width * src.height <= MAX_PICTURE_SAMPLES,
        0 <= qp <= 51,
        keep ==> filter.offsets(),
    ensures
        decoded_slice(
            bytes_bits(slice_rbsp(src, qp, search, filter, keep)),
            src.width,
            src.height,
            filter.offsets(),
            filter.deblocks(),
        ) == Some(slice_recon(src, qp, search, filter, keep)),
{
    reveal(decoded_slice);
    let records = decision_pass(src, qp, search).records;
    let grid = kept_grid(src, qp, search, keep);
    lemma_payload_bits(src, qp, search, filter, keep);
    lemma_reads_header(filter, keep, qp, bytes_bits(slice_data(records, grid, qp, src.width / 16)));
    lemma_content_decodes(src, qp, search, keep);
    lemma_filtered_is_the_reconstruction(src, qp, search, filter, keep);
}

/// What a decoder of residual-coded pictures holds between units.
pub struct Decoding {
    pub sps: Option<SequenceInfo>,
    pub pps: Option<PictureInfo>,
    /// The pictures so far.
    pub frames: Seq<Frame>,
}

/// The decoder after one more unit.
pub open spec fn decode_unit(d: Decoding, u: Unit) -> Option<Decoding> {
    let bits = bytes_bits(u.rbsp);
    if u.header.nal_unit_type == 33 {
        match read_sps(bits) {
            Some(sps) => Some(Decoding { sps: Some(sps), ..d }),
            None => None,
        }
    } else if u.header.nal_unit_type == 34 {
        match read_pps(bits) {
            Some(pps) => Some(Decoding { pps: Some(pps), ..d }),
            None => None,
        }
    } else if u.header.nal_unit_type == 20 {
        match (d.sps, d.pps) {
            (Some(sps), Some(pps)) => match decoded_slice(
                bits,
                sps.width as int,
                sps.height as int,
                sps.sao,
                pps.deblocking,
            ) {
                Some(f) => Some(Decoding { frames: d.frames.push(f), ..d }),
                None => None,
            },
            _ => None,
        }
    } else {
        Some(d)
    }
}

/// The decoder after the first `n` units.
pub open spec fn decode_units(units: Seq<Unit>, n: nat) -> Option<Decoding>
    decreases n,
{
    if n == 0 {
        Some(Decoding { sps: None, pps: None, frames: Seq::empty() })
    } else {
        match decode_units(units, (n - 1) as nat) {
            Some(d) => decode_unit(d, units[n - 1]),
            None => None,
        }
    }
}

/// The pictures of a stream of residual-coded access units.
pub open spec fn decoded_stream(bytes: Seq<u8>) -> Option<Seq<Frame>> {
    match walk(Seq::empty(), bytes, 0) {
        Ok(units) => match decode_units(units, units.len()) {
            Some(d) => Some(d.frames),
            None => None,
        },
        Err(_) => None,
    }
}

/// A picture to be coded, and what it is coded with.
pub struct Coding {
    pub src: Frame,
    pub width: usize,
    pub height: usize,
    pub qp: int,
    pub search: ModeSearch,
    /// Whether the offsets are kept.
    pub keep: bool,
}

impl Coding {
    pub open spec fn wf(self) -> bool {
        &&& whole_blocks(self.width as int, self.height as int)
        &&& self.width * self.height <= MAX_PICTURE_SAMPLES
        &&& self.src.width == self.width
        &&& self.src.height == self.height
        &&& 0 <= self.qp <= 51
    }

    /// The payload of its slice.
    pub open spec fn rbsp(self) -> Seq<u8> {
        slice_rbsp(self.src, self.qp, self.search, LoopFilter::DeblockSao, self.keep)
    }

    /// Its access unit.
    pub open spec fn bytes(self) -> Seq<u8> {
        access_unit(self.width, self.height, self.rbsp())
    }

    /// The encoder's reconstruction of it.
    pub open spec fn recon(self) -> Frame {
        slice_recon(self.src, self.qp, self.search, LoopFilter::DeblockSao, self.keep)
    }

    /// The units of its access unit.
    spec fn units(self) -> Seq<Seq<u8>> {
        let level = level_for(self.width * self.height);
        seq![
            unit_bytes(32, 0, 0, pack(vps_bits(level, 1, 0))),
            unit_bytes(33, 0, 0, pack(sps_bits(self.width, self.height, level, true, true))),
            unit_bytes(34, 0, 0, pack(pps_bits(false, true, false, None, false))),
            unit_bytes(20, 0, 0, self.rbsp()),
        ]
    }

    /// What walking its access unit finds.
    spec fn found(self) -> Seq<Unit> {
        let level = level_for(self.width * self.height);
        seq![
            parsed(32, pack(vps_bits(level, 1, 0))),
            parsed(33, pack(sps_bits(self.width, self.height, level, true, true))),
            parsed(34, pack(pps_bits(false, true, false, None, false))),
            parsed(20, self.rbsp()),
        ]
    }
}

/// The access units of the first `n` pictures, one after another.
pub open spec fn coded_stream(pictures: Seq<Coding>, n: nat) -> Seq<u8>
    decreases n,
{
    if n == 0 {
        Seq::empty()
    } else {
        coded_stream(pictures, (n - 1) as nat) + pictures[n - 1].bytes()
    }
}

/// The encoder's reconstructions.
pub open spec fn reconstructions(pictures: Seq<Coding>) -> Seq<Frame> {
    Seq::new(pictures.len(), |i: int| pictures[i].recon())
}

spec fn all_units(pictures: Seq<Coding>, n: nat) -> Seq<Seq<u8>>
    decreases n,
{
    if n == 0 {
        Seq::empty()
    } else {
        all_units(pictures, (n - 1) as nat) + pictures[n - 1].units()
    }
}

spec fn all_found(pictures: Seq<Coding>, n: nat) -> Seq<Unit>
    decreases n,
{
    if n == 0 {
        Seq::empty()
    } else {
        all_found(pictures, (n - 1) as nat) + pictures[n - 1].found()
    }
}

/// Units one after another in two lists are the units of both.
pub proof fn lemma_stream_concat(a: Seq<Seq<u8>>, b: Seq<Seq<u8>>)
    ensures
        stream_of(a + b) == stream_of(a) + stream_of(b),
    decreases b.len(),
{
    if b.len() == 0 {
        assert(a + b =~= a);
        assert(stream_of(a) + stream_of(b) =~= stream_of(a));
    } else {
        assert((a + b).drop_last() =~= a + b.drop_last());
        lemma_stream_concat(a, b.drop_last());
        assert(stream_of(a) + (stream_of(b.drop_last()) + start_code() + b.last()) =~= (stream_of(a) + stream_of(
            b.drop_last(),
        )) + start_code() + b.last());
    }
}

proof fn lemma_all_streams(pictures: Seq<Coding>, n: nat)
    ensures
        stream_of(all_units(pictures, n)) == coded_stream(pictures, n),
    decreases n,
{
    if n > 0 {
        lemma_all_streams(pictures, (n - 1) as nat);
        lemma_stream_concat(all_units(pictures, (n - 1) as nat), pictures[n - 1].units());
    }
}

/// Every unit is framed and found.
spec fn framed(units: Seq<Seq<u8>>, found: Seq<Unit>) -> bool {
    &&& units.len() == found.len()
    &&& forall|j: int|
        0 <= j < units.len() ==> frameable(#[trigger] units[j]) && unit_of(units[j]) == Ok::<Unit, NalError>(found[j])
}

proof fn lemma_picture_framed(p: Coding)
    requires
        p.wf(),
    ensures
        framed(p.units(), p.found()),
{
    let level = level_for(p.width * p.height);
    lemma_parameter_sets_stopped(p.width, p.height, level, true, true);
    lemma_pps_stopped(false, true, None);
    lemma_stop_byte(vps_bits(level, 1, 0));
    lemma_stop_byte(sps_bits(p.width, p.height, level, true, true));
    lemma_stop_byte(pps_bits(false, true, false, None, false));
    lemma_payload_stops(p.src, p.qp, p.search, LoopFilter::DeblockSao, p.keep);
    lemma_framed(32, pack(vps_bits(level, 1, 0)));
    lemma_framed(33, pack(sps_bits(p.width, p.height, level, true, true)));
    lemma_framed(34, pack(pps_bits(false, true, false, None, false)));
    lemma_framed(20, p.rbsp());
}

proof fn lemma_all_framed(pictures: Seq<Coding>, n: nat)
    requires
        n <= pictures.len(),
        forall|i: int| 0 <= i < pictures.len() ==> (#[trigger] pictures[i]).wf(),
    ensures
        framed(all_units(pictures, n), all_found(pictures, n)),
        all_found(pictures, n).len() == 4 * n,
    decreases n,
{
    if n > 0 {
        lemma_all_framed(pictures, (n - 1) as nat);
        lemma_picture_framed(pictures[n - 1]);
    }
}

/// Units in front of others decode alike.
proof fn lemma_decode_prefix(a: Seq<Unit>, b: Seq<Unit>, n: nat)
    requires
        n <= a.len(),
        n <= b.len(),
        forall|i: int| 0 <= i < n ==> #[trigger] a[i] == b[i],
    ensures
        decode_units(a, n) == decode_units(b, n),
    decreases n,
{
    if n > 0 {
        lemma_decode_prefix(a, b, (n - 1) as nat);
        assert(a[n - 1] == b[n - 1]);
    }
}

proof fn lemma_decodes_picture(d: Decoding, p: Coding) -> (e: Decoding)
    requires
        p.wf(),
    ensures
        e.frames == d.frames.push(p.recon()),
        ({
            let f = p.found();
            &&& decode_unit(d, f[0]) == Some(d)
            &&& decode_unit(d, f[1]) matches Some(d1)
            &&& decode_unit(d1, f[2]) matches Some(d2)
            &&& decode_unit(d2, f[3]) == Some(e)
        }),
{
    let level = level_for(p.width * p.height);
    law_sps_reads_back(p.width, p.height, level, true, true);
    law_pps_reads_back(false, true, None);
    law_slice_decodes_to_the_reconstruction(p.src, p.qp, p.search, LoopFilter::DeblockSao, p.keep);
    let f = p.found();
    let d1 = decode_unit(d, f[1])->0;
    let d2 = decode_unit(d1, f[2])->0;
    decode_unit(d2, f[3])->0
}

proof fn lemma_decodes_pictures(pictures: Seq<Coding>, n: nat)
    requires
        n <= pictures.len(),
        forall|i: int| 0 <= i < pictures.len() ==> (#[trigger] pictures[i]).wf(),
    ensures
        decode_units(all_found(pictures, n), (4 * n) as nat) matches Some(d) && d.frames == reconstructions(
            pictures,
        ).take(n as int),
    decreases n,
{
    let frames = reconstructions(pictures);
    if n == 0 {
        assert(frames.take(0) =~= Seq::<Frame>::empty());
    } else {
        let m = (n - 1) as nat;
        let p = pictures[n - 1];
        let before = all_found(pictures, m);
        let units = all_found(pictures, n);
        lemma_all_framed(pictures, m);
        lemma_decodes_pictures(pictures, m);
        lemma_decode_prefix(before, units, 4 * m);
        let d = decode_units(before, 4 * m)->0;
        let e = lemma_decodes_picture(d, p);
        assert(units[4 * (n - 1)] == p.found()[0]);
        assert(units[4 * (n - 1) + 1] == p.found()[1]);
        assert(units[4 * (n - 1) + 2] == p.found()[2]);
        assert(units[4 * (n - 1) + 3] == p.found()[3]);
        reveal_with_fuel(decode_units, 5);
        assert(decode_units(units, 4 * m) == Some(d));
        assert(decode_units(units, 4 * m + 1) == Some(d));
        assert(decode_units(units, 4 * m + 4) == Some(e));
        assert(frames.take(m as int).push(p.recon()) =~= frames.take(n as int));
    }
}

/// A stream of residual-coded pictures decodes to the encoder's reconstructions: a decoder
/// that is given their access units one after another walks the units, reads the parameter
/// sets and the slices, and makes one picture of each access unit, in order, each the
/// reconstruction that the encoder returned with it.
pub proof fn law_stream_decodes_to_the_reconstructions(pictures: Seq<Coding>)
    requires
        forall|i: int| 0 <= i < pictures.len() ==> (#[trigger] pictures[i]).wf(),
    ensures
        decoded_stream(coded_stream(pictures, pictures.len())) == Some(reconstructions(pictures)),
{
    let n = pictures.len();
    let (units, found) = (all_units(pictures, n), all_found(pictures, n));
    lemma_all_streams(pictures, n);
    lemma_all_framed(pictures, n);
    assert forall|j: int| 0 <= j < units.len() implies unit_of(#[trigger] units[j]) == Ok::<Unit, NalError>(found[j]) by {
        assert(frameable(units[j]));
    }
    law_walk_inverts_framing(units, found);
    lemma_decodes_pictures(pictures, n);
    assert(reconstructions(pictures).take(n as int) =~= reconstructions(pictures));
}

/// The types of units.
pub open spec fn unit_types(units: Seq<Unit>) -> Seq<u8> {
    Seq::new(units.len(), |i: int| units[i].header.nal_unit_type)
}

/// One access unit decodes to one picture.
proof fn lemma_one_picture(p: Coding)
    requires
        p.wf(),
    ensures
        decoded_stream(p.bytes()) == Some(seq![p.recon()]),
{
    let one = seq![p];
    assert(coded_stream(one, 1) == p.bytes()) by {
        assert(one[0] == p);
        assert(coded_stream(one, 0) == Seq::<u8>::empty());
        assert(coded_stream(one, 1) == coded_stream(one, 0) + p.bytes());
        assert(Seq::<u8>::empty() + p.bytes() =~= p.bytes());
    }
    law_stream_decodes_to_the_reconstructions(one);
    assert(reconstructions(one) =~= seq![p.recon()]);
}

proof fn lemma_types_of(a: Seq<u8>, b: Seq<u8>, c: Seq<u8>, d: Seq<u8>)
    ensures
        unit_types(seq![parsed(32, a), parsed(33, b), parsed(34, c), parsed(20, d)]) == seq![32u8, 33u8, 34u8, 20u8],
{
    let units = seq![parsed(32, a), parsed(33, b), parsed(34, c), parsed(20, d)];
    assert(unit_types(units) =~= seq![32u8, 33u8, 34u8, 20u8]);
}

proof fn lemma_unit_types(p: Coding)
    requires
        p.wf(),
    ensures
        walk(Seq::empty(), p.bytes(), 0) matches Ok(units) && unit_types(units) == seq![32u8, 33u8, 34u8, 20u8],
{
    law_access_unit_walks_back(p.src, p.width, p.height, p.qp, p.search, LoopFilter::DeblockSao, p.keep);
    let level = level_for(p.width * p.height);
    lemma_types_of(
        pack(vps_bits(level, 1, 0)),
        pack(sps_bits(p.width, p.height, level, true, true)),
        pack(pps_bits(false, true, false, None, false)),
        p.rbsp(),
    );
}

proof fn lemma_recon_size(p: Coding)
    ensures
        p.recon().width == p.src.width,
        p.recon().height == p.src.height,
{
    let records = decision_pass(p.src, p.qp, p.search).records;
    law_reconstruction_follows_the_records(p.src, p.qp, p.search);
    lemma_rebuilt_size(records, p.src.width, p.src.height, p.qp, records.len());
}

/// An encoded picture decodes to the reconstruction that was returned with it, at either
/// operating point: the access unit holds the three parameter sets and the slice, and a
/// decoder makes exactly one picture of it, of the size and the samples of the
/// reconstruction.
pub proof fn law_encoded_picture_decodes_to_its_reconstruction<A: Fn(SaoQuestion) -> bool>(
    r: Result<(Vec<u8>, ReconstructedPicture), PcmEncodeError>,
    src: Frame,
    width: usize,
    height: usize,
    qp: i32,
    search: ModeSearch,
    accepts: A,
)
    requires
        src.width == width,
        src.height == height,
        picture_fits(width, height, qp, src.y.len(), src.cb.len(), src.cr.len()),
        is_outcome(r, src, width, height, qp, search, accepts),
    ensures
        match r {
            Ok((au, recon)) => {
                &&& decoded_stream(au@) == Some(seq![recon@])
                &&& recon.width == width
                &&& recon.height == height
                &&& walk(Seq::empty(), au@, 0) matches Ok(units)
                &&& unit_types(units) == seq![32u8, 33u8, 34u8, 20u8]
            },
            Err(e) => residual_error(width, height, qp, src.y.len(), src.cb.len(), src.cr.len()) == Some(e),
        },
{
    if let Ok((au, recon)) = r {
        let keep = choose|keep: bool|
            {
                &&& #[trigger] decides(accepts, src, qp as int, search, LoopFilter::DeblockSao, keep)
                &&& au@ == access_unit(
                    width,
                    height,
                    slice_rbsp(src, qp as int, search, LoopFilter::DeblockSao, keep),
                )
                &&& recon@ == slice_recon(src, qp as int, search, LoopFilter::DeblockSao, keep)
            };
        let p = Coding { src, width, height, qp: qp as int, search, keep };
        assert(p.wf());
        lemma_one_picture(p);
        lemma_unit_types(p);
        lemma_recon_size(p);
    }
}

/// Both operating points refuse the same pictures, each with the same error.
pub proof fn law_operating_points_refuse_alike<A: Fn(SaoQuestion) -> bool>(
    y: &[u8],
    cb: &[u8],
    cr: &[u8],
    width: usize,
    height: usize,
    qp: i32,
    accepts: A,
    a: Result<(Vec<u8>, ReconstructedPicture), PcmEncodeError>,
    b: Result<(Vec<u8>, ReconstructedPicture), PcmEncodeError>,
)
    requires
        call_ensures(encode_idr_residual_au::<A>, (y, cb, cr, width, height, qp, accepts), a),
        call_ensures(encode_idr_residual_au_rate_constrained::<A>, (y, cb, cr, width, height, qp, accepts), b),
    ensures
        match (a, b) {
            (Ok(_), Ok(_)) => true,
            (Err(e), Err(f)) => e == f,
            _ => false,
        },
{
}

} // verus!
