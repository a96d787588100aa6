//! The video parameter set on the read side, and the levels that the parameter sets claim.
use vstd::prelude::*;
use vstd::arithmetic::power2::lemma2_to64;
use crate::bits::{aligned, be_bits, bytes_bits, pack, padding, ue_bits, zeros};
use crate::arith::max;
use crate::bitwriter::BitWriter;
use crate::fields::{all_fit, fields_bits, kinds_of, law_fields_read_back, read_fields, Field};
use crate::nal::{law_unit_roundtrip, unit_of};
use crate::parameter_reader::{law_sps_reads_back, lemma_packed_fields, read_sps};
use crate::parameter_sets::{level_idc_for, level_idc_for_tiles, sps_bits, vps_bits, write_vps, write_vps_cfg};
use crate::pcm::{level_of, parameter_set_units, sao_on, Shape};

verus! {

/// What the video parameter set tells.
pub struct StreamInfo {
    /// `general_level_idc`.
    pub level: u8,
    /// `vps_max_dec_pic_buffering_minus1[0]`.
    pub buffers_minus1: nat,
    /// `vps_max_num_reorder_pics[0]`.
    pub reordered: nat,
}

/// The fields of a video parameter set of one layer and one sub-layer: Main profile, which
/// Main 10 decoders take too, Main tier, progressive frames, no timing and no extension.
pub open spec fn vps_fields(level: u8, buffers_minus1: nat, reordered: nat) -> Seq<Field> {
    seq![
        Field::Bits(0, 4),
        Field::Flag(true),
        Field::Flag(true),
        Field::Bits(0, 6),
        Field::Bits(0, 3),
        Field::Flag(true),
        Field::Bits(0xFFFF, 16),
        Field::Bits(0, 2),
        Field::Flag(false),
        Field::Bits(1, 5),
        Field::Bits(0x6000_0000, 32),
        Field::Flag(true),
        Field::Flag(false),
        Field::Flag(true),
        Field::Flag(true),
        Field::Bits(0, 32),
        Field::Bits(0, 11),
        Field::Bits(0, 1),
        Field::Bits(level as nat, 8),
        Field::Flag(true),
        Field::Code(buffers_minus1),
        Field::Code(reordered),
        Field::Code(0),
        Field::Bits(0, 6),
        Field::Code(0),
        Field::Flag(false),
        Field::Flag(false),
    ]
}

/// The video parameter set at the front of `s`, if it is of the format in use.
#[verifier::opaque]
pub open spec fn read_vps(s: Seq<bool>) -> Option<StreamInfo> {
    let kinds = kinds_of(vps_fields(0, 0, 0));
    match read_fields(kinds, s, kinds.len()) {
        Some((f, _)) => {
            let (level, buffers_minus1, reordered) = (f[18]->Bits_0 as u8, f[20]->Code_0, f[21]->Code_0);
            if f == vps_fields(level, buffers_minus1, reordered) {
                Some(StreamInfo { level, buffers_minus1, reordered })
            } else {
                None
            }
        },
        None => None,
    }
}

proof fn lemma_vps_fields(level: u8, buffers: u32, reorder: u32)
    ensures
        ({
            let list = vps_fields(level, buffers as nat, reorder as nat);
            &&& list.len() == 27
            &&& vps_bits(level, buffers, reorder) == aligned(fields_bits(list, 27).push(true))
        }),
{
    reveal(vps_bits);
    let (buffers_minus1, reordered) = (buffers as nat, reorder as nat);
    let list = vps_fields(level, buffers_minus1, reordered);
    let b0 = Seq::<bool>::empty();
    assert(fields_bits(list, 0) == b0);
    let b1 = b0 + be_bits(0, 4);
    assert(fields_bits(list, 1) == b1);
    let b2 = b1.push(true);
    assert(b2 =~= b1 + seq![true]);
    assert(fields_bits(list, 2) == b2);
    let b3 = b2.push(true);
    assert(b3 =~= b2 + seq![true]);
    assert(fields_bits(list, 3) == b3);
    let b4 = b3 + be_bits(0, 6);
    assert(fields_bits(list, 4) == b4);
    let b5 = b4 + be_bits(0, 3);
    assert(fields_bits(list, 5) == b5);
    let b6 = b5.push(true);
    assert(b6 =~= b5 + seq![true]);
    assert(fields_bits(list, 6) == b6);
    let b7 = b6 + be_bits(0xFFFF, 16);
    assert(fields_bits(list, 7) == b7);
    let b8 = b7 + be_bits(0, 2);
    assert(fields_bits(list, 8) == b8);
    let b9 = b8.push(false);
    assert(b9 =~= b8 + seq![false]);
    assert(fields_bits(list, 9) == b9);
    let b10 = b9 + be_bits(1, 5);
    assert(fields_bits(list, 10) == b10);
    let b11 = b10 + be_bits(0x6000_0000, 32);
    assert(fields_bits(list, 11) == b11);
    let b12 = b11.push(true);
    assert(b12 =~= b11 + seq![true]);
    assert(fields_bits(list, 12) == b12);
    let b13 = b12.push(false);
    assert(b13 =~= b12 + seq![false]);
    assert(fields_bits(list, 13) == b13);
    let b14 = b13.push(true);
    assert(b14 =~= b13 + seq![true]);
    assert(fields_bits(list, 14) == b14);
    let b15 = b14.push(true);
    assert(b15 =~= b14 + seq![true]);
    assert(fields_bits(list, 15) == b15);
    let b16 = b15 + be_bits(0, 32);
    assert(fields_bits(list, 16) == b16);
    let b17 = b16 + be_bits(0, 11);
    assert(fields_bits(list, 17) == b17);
    let b18 = b17 + be_bits(0, 1);
    assert(fields_bits(list, 18) == b18);
    let b19 = b18 + be_bits(level as nat, 8);
    assert(fields_bits(list, 19) == b19);
    let b20 = b19.push(true);
    assert(b20 =~= b19 + seq![true]);
    assert(fields_bits(list, 20) == b20);
    let b21 = b20 + ue_bits(buffers_minus1);
    assert(fields_bits(list, 21) == b21);
    let b22 = b21 + ue_bits(reordered);
    assert(fields_bits(list, 22) == b22);
    let b23 = b22 + ue_bits(0);
    assert(fields_bits(list, 23) == b23);
    let b24 = b23 + be_bits(0, 6);
    assert(fields_bits(list, 24) == b24);
    let b25 = b24 + ue_bits(0);
    assert(fields_bits(list, 25) == b25);
    let b26 = b25.push(false);
    assert(b26 =~= b25 + seq![false]);
    assert(fields_bits(list, 26) == b26);
    let b27 = b26.push(false);
    assert(b27 =~= b26 + seq![false]);
    assert(fields_bits(list, 27) == b27);
}

/// A video parameter set reads back: it tells the level, the buffers and the reordering that
/// it was written for, and the shorter form tells two buffers and no reordering.
pub proof fn law_vps_reads_back(level: u8, buffers: u32, reorder: u32, rbsp: Vec<u8>, short: Vec<u8>)
    requires
        buffers <= BitWriter::MAX_UE,
        reorder <= BitWriter::MAX_UE,
        call_ensures(write_vps_cfg, (level, buffers, reorder), rbsp),
        call_ensures(write_vps, (level,), short),
    ensures
        read_vps(bytes_bits(rbsp@)) == Some(
            StreamInfo { level, buffers_minus1: buffers as nat, reordered: reorder as nat },
        ),
        read_vps(bytes_bits(short@)) == Some(StreamInfo { level, buffers_minus1: 1, reordered: 0 }),
{
    lemma_vps_read(level, buffers, reorder);
    lemma_vps_read(level, 1, 0);
}

proof fn lemma_vps_read(level: u8, buffers: u32, reorder: u32)
    requires
        buffers <= BitWriter::MAX_UE,
        reorder <= BitWriter::MAX_UE,
    ensures
        read_vps(bytes_bits(pack(vps_bits(level, buffers, reorder)))) == Some(
            StreamInfo { level, buffers_minus1: buffers as nat, reordered: reorder as nat },
        ),
{
    reveal(read_vps);
    lemma2_to64();
    let list = vps_fields(level, buffers as nat, reorder as nat);
    lemma_vps_fields(level, buffers, reorder);
    assert(all_fit(list));
    assert(kinds_of(list) =~= kinds_of(vps_fields(0, 0, 0)));
    let x = fields_bits(list, 27);
    lemma_packed_fields(x);
    law_fields_read_back(list, 27, seq![true] + zeros(padding(x.len() + 1)));
    assert(list.take(27) =~= list);
}

/// The luma samples that a picture of a level may have; none for what is no level.
pub open spec fn luma_limit(level: int) -> int {
    if level == 30 {
        36_864
    } else if level == 60 {
        122_880
    } else if level == 63 {
        245_760
    } else if level == 90 {
        552_960
    } else if level == 93 {
        983_040
    } else if level == 120 || level == 123 {
        2_228_224
    } else if level == 150 || level == 153 || level == 156 {
        8_912_896
    } else if level == 180 || level == 183 || level == 186 {
        35_651_584
    } else {
        0
    }
}

/// The columns and rows of tiles that a picture of a level may have.
pub open spec fn tile_limit(level: int) -> (int, int) {
    if level == 30 || level == 60 || level == 63 {
        (1, 1)
    } else if level == 90 {
        (2, 2)
    } else if level == 93 {
        (3, 3)
    } else if level == 120 || level == 123 {
        (5, 5)
    } else if level == 150 || level == 153 || level == 156 {
        (10, 11)
    } else if level == 180 || level == 183 || level == 186 {
        (20, 22)
    } else {
        (0, 0)
    }
}

/// The level of a picture is the lowest one whose limit holds its samples; a picture that no
/// level holds claims the highest.
pub proof fn law_level_is_the_lowest_that_holds_the_picture(luma: usize, level: u8, other: int)
    requires
        call_ensures(level_idc_for, (luma,), level),
    ensures
        luma <= 35_651_584 ==> luma <= luma_limit(level as int),
        luma <= 35_651_584 && luma <= luma_limit(other) && luma > 0 ==> level <= other,
        luma > 35_651_584 ==> level == 186,
{
}

/// The level of a grid of tiles is the lowest one that allows it; a grid that no level allows
/// claims the highest kind.
pub proof fn law_level_is_the_lowest_that_allows_the_tiles(cols: u32, rows: u32, level: u8, other: int)
    requires
        call_ensures(level_idc_for_tiles, (cols, rows), level),
        cols >= 1,
        rows >= 1,
    ensures
        cols <= 20 && rows <= 22 ==> cols <= tile_limit(level as int).0 && rows <= tile_limit(level as int).1,
        cols <= tile_limit(other).0 && rows <= tile_limit(other).1 ==> level <= other,
        cols > 20 || rows > 22 ==> level == 180,
{
}

/// Both parameter sets of an access unit claim one level, the higher of what its samples and
/// what its tiles ask for; the sequence is announced with two buffers and without reordering.
pub proof fn law_parameter_sets_claim_one_level(opts: Shape, width: usize, height: usize, by_size: u8, by_tiles: u8)
    requires
        width * height <= usize::MAX,
        width <= BitWriter::MAX_UE,
        height <= BitWriter::MAX_UE,
        call_ensures(level_idc_for, ((width * height) as usize,), by_size),
        opts.tiles matches Some((c, r)) ==> call_ensures(level_idc_for_tiles, (c, r), by_tiles),
        opts.tiles is None ==> by_tiles == 0,
    ensures
        ({
            let units = parameter_set_units(opts, width, height);
            &&& units.len() == 3
            &&& unit_of(units[0]) matches Ok(v)
            &&& unit_of(units[1]) matches Ok(s)
            &&& v.header.nal_unit_type == 32 && s.header.nal_unit_type == 33
            &&& read_vps(bytes_bits(v.rbsp)) matches Some(stream)
            &&& read_sps(bytes_bits(s.rbsp)) matches Some(sequence)
            &&& stream.level == max(by_size as int, by_tiles as int) && sequence.level == stream.level
            &&& stream.buffers_minus1 == 1 && stream.reordered == 0
            &&& sequence.width == width && sequence.height == height
        }),
{
    let level = level_of(opts, width * height);
    let (sao, kept) = (sao_on(opts), opts.pcm_loop_filter_disabled);
    law_unit_roundtrip(32, 0, 0, pack(vps_bits(level, 1, 0)));
    law_unit_roundtrip(33, 0, 0, pack(sps_bits(width, height, level, sao, kept)));
    lemma_vps_read(level, 1, 0);
    law_sps_reads_back(width, height, level, sao, kept);
}

} // verus!
