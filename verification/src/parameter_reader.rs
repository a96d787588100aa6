//! Parameter sets on the read side: what a decoder learns of a picture from its
//! sequence and picture parameter sets.
use vstd::prelude::*;
use vstd::arithmetic::power2::lemma2_to64;
use crate::bits::{aligned, be_bits, bytes_bits, lemma_pack_bits, pack, padding, se_bits, ue_bits, width, zeros};
use crate::bitwriter::BitWriter;
use crate::fields::{all_fit, fields_bits, kinds_of, law_fields_read_back, read_fields, Field};
use crate::parameter_sets::{dimension_field, pps_bits, sps_bits, SLICE_QP};
use crate::pcm_laws::begins;

verus! {

/// What the sequence parameter set tells of its pictures.
pub struct SequenceInfo {
    pub width: nat,
    pub height: nat,
    /// `general_level_idc`.
    pub level: u8,
    /// Whether slices may carry sample-adaptive offsets.
    pub sao: bool,
    /// Whether the loop filters leave PCM samples alone.
    pub pcm_loop_filter_disabled: bool,
}

/// The fields of a sequence parameter set of the one format in use: 4:2:0, 8 bits, coding
/// tree blocks of 16, PCM blocks allowed.
pub open spec fn sps_fields(
    width: nat,
    height: nat,
    level: u8,
    sao: bool,
    pcm_loop_filter_disabled: bool,
) -> Seq<Field> {
    seq![
        Field::Bits(0, 4),
        Field::Bits(0, 3),
        Field::Flag(true),
        Field::Bits(0, 2),
        Field::Flag(false),
        Field::Bits(1, 5),
        Field::Bits(0x6000_0000, 32),
        Field::Flag(true),
        Field::Flag(false),
        Field::Flag(true),
        Field::Flag(true),
        Field::Bits(0, 32),
        Field::Bits(0, 11),
        Field::Bits(0, 1),
        Field::Bits(level as nat, 8),
        Field::Code(0),
        Field::Code(1),
        Field::Code(width),
        Field::Code(height),
        Field::Flag(false),
        Field::Code(0),
        Field::Code(0),
        Field::Code(4),
        Field::Flag(true),
        Field::Code(1),
        Field::Code(0),
        Field::Code(0),
        Field::Code(1),
        Field::Code(0),
        Field::Code(0),
        Field::Code(2),
        Field::Code(0),
        Field::Code(0),
        Field::Flag(false),
        Field::Flag(false),
        Field::Flag(sao),
        Field::Flag(true),
        Field::Bits(7, 4),
        Field::Bits(7, 4),
        Field::Code(1),
        Field::Code(0),
        Field::Flag(pcm_loop_filter_disabled),
        Field::Code(0),
        Field::Flag(false),
        Field::Flag(false),
        Field::Flag(false),
        Field::Flag(false),
        Field::Flag(false),
    ]
}

/// The sequence parameter set at the front of `s`, if it is of the format in use.
#[verifier::opaque]
pub open spec fn read_sps(s: Seq<bool>) -> Option<SequenceInfo> {
    let kinds = kinds_of(sps_fields(0, 0, 0, false, false));
    match read_fields(kinds, s, kinds.len()) {
        Some((f, _)) => {
            let (width, height, level) = (f[17]->Code_0, f[18]->Code_0, f[14]->Bits_0 as u8);
            let (sao, pcm_loop_filter_disabled) = (f[35]->Flag_0, f[41]->Flag_0);
            if f == sps_fields(width, height, level, sao, pcm_loop_filter_disabled) {
                Some(SequenceInfo { width, height, level, sao, pcm_loop_filter_disabled })
            } else {
                None
            }
        },
        None => None,
    }
}

/// The sequence parameter set is written field after field.
proof fn lemma_sps_fields(width: usize, height: usize, level: u8, sao: bool, pcm_loop_filter_disabled: bool)
    ensures
        ({
            let list = sps_fields(dimension_field(width), dimension_field(height), level, sao, pcm_loop_filter_disabled);
            &&& list.len() == 48
            &&& sps_bits(width, height, level, sao, pcm_loop_filter_disabled) == aligned(fields_bits(list, 48).push(true))
        }),
{
    reveal(sps_bits);
    let w = width;
    let h = height;
    let (width, height) = (dimension_field(w), dimension_field(h));
    let list = sps_fields(width, height, level, sao, pcm_loop_filter_disabled);
    let b0 = Seq::<bool>::empty();
    assert(fields_bits(list, 0) == b0);
    let b1 = b0 + be_bits(0, 4);
    assert(fields_bits(list, 1) == b1);
    let b2 = b1 + be_bits(0, 3);
    assert(fields_bits(list, 2) == b2);
    let b3 = b2.push(true);
    assert(b3 =~= b2 + seq![true]);
    assert(fields_bits(list, 3) == b3);
    let b4 = b3 + be_bits(0, 2);
    assert(fields_bits(list, 4) == b4);
    let b5 = b4.push(false);
    assert(b5 =~= b4 + seq![false]);
    assert(fields_bits(list, 5) == b5);
    let b6 = b5 + be_bits(1, 5);
    assert(fields_bits(list, 6) == b6);
    let b7 = b6 + be_bits(0x6000_0000, 32);
    assert(fields_bits(list, 7) == b7);
    let b8 = b7.push(true);
    assert(b8 =~= b7 + seq![true]);
    assert(fields_bits(list, 8) == b8);
    let b9 = b8.push(false);
    assert(b9 =~= b8 + seq![false]);
    assert(fields_bits(list, 9) == b9);
    let b10 = b9.push(true);
    assert(b10 =~= b9 + seq![true]);
    assert(fields_bits(list, 10) == b10);
    let b11 = b10.push(true);
    assert(b11 =~= b10 + seq![true]);
    assert(fields_bits(list, 11) == b11);
    let b12 = b11 + be_bits(0, 32);
    assert(fields_bits(list, 12) == b12);
    let b13 = b12 + be_bits(0, 11);
    assert(fields_bits(list, 13) == b13);
    let b14 = b13 + be_bits(0, 1);
    assert(fields_bits(list, 14) == b14);
    let b15 = b14 + be_bits(level as nat, 8);
    assert(fields_bits(list, 15) == b15);
    let b16 = b15 + ue_bits(0);
    assert(fields_bits(list, 16) == b16);
    let b17 = b16 + ue_bits(1);
    assert(fields_bits(list, 17) == b17);
    let b18 = b17 + ue_bits(width);
    assert(fields_bits(list, 18) == b18);
    let b19 = b18 + ue_bits(height);
    assert(fields_bits(list, 19) == b19);
    let b20 = b19.push(false);
    assert(b20 =~= b19 + seq![false]);
    assert(fields_bits(list, 20) == b20);
    let b21 = b20 + ue_bits(0);
    assert(fields_bits(list, 21) == b21);
    let b22 = b21 + ue_bits(0);
    assert(fields_bits(list, 22) == b22);
    let b23 = b22 + ue_bits(4);
    assert(fields_bits(list, 23) == b23);
    let b24 = b23.push(true);
    assert(b24 =~= b23 + seq![true]);
    assert(fields_bits(list, 24) == b24);
    let b25 = b24 + ue_bits(1);
    assert(fields_bits(list, 25) == b25);
    let b26 = b25 + ue_bits(0);
    assert(fields_bits(list, 26) == b26);
    let b27 = b26 + ue_bits(0);
    assert(fields_bits(list, 27) == b27);
    let b28 = b27 + ue_bits(1);
    assert(fields_bits(list, 28) == b28);
    let b29 = b28 + ue_bits(0);
    assert(fields_bits(list, 29) == b29);
    let b30 = b29 + ue_bits(0);
    assert(fields_bits(list, 30) == b30);
    let b31 = b30 + ue_bits(2);
    assert(fields_bits(list, 31) == b31);
    let b32 = b31 + ue_bits(0);
    assert(fields_bits(list, 32) == b32);
    let b33 = b32 + ue_bits(0);
    assert(fields_bits(list, 33) == b33);
    let b34 = b33.push(false);
    assert(b34 =~= b33 + seq![false]);
    assert(fields_bits(list, 34) == b34);
    let b35 = b34.push(false);
    assert(b35 =~= b34 + seq![false]);
    assert(fields_bits(list, 35) == b35);
    let b36 = b35.push(sao);
    assert(b36 =~= b35 + seq![sao]);
    assert(fields_bits(list, 36) == b36);
    let b37 = b36.push(true);
    assert(b37 =~= b36 + seq![true]);
    assert(fields_bits(list, 37) == b37);
    let b38 = b37 + be_bits(7, 4);
    assert(fields_bits(list, 38) == b38);
    let b39 = b38 + be_bits(7, 4);
    assert(fields_bits(list, 39) == b39);
    let b40 = b39 + ue_bits(1);
    assert(fields_bits(list, 40) == b40);
    let b41 = b40 + ue_bits(0);
    assert(fields_bits(list, 41) == b41);
    let b42 = b41.push(pcm_loop_filter_disabled);
    assert(b42 =~= b41 + seq![pcm_loop_filter_disabled]);
    assert(fields_bits(list, 42) == b42);
    let b43 = b42 + ue_bits(0);
    assert(fields_bits(list, 43) == b43);
    let b44 = b43.push(false);
    assert(b44 =~= b43 + seq![false]);
    assert(fields_bits(list, 44) == b44);
    let b45 = b44.push(false);
    assert(b45 =~= b44 + seq![false]);
    assert(fields_bits(list, 45) == b45);
    let b46 = b45.push(false);
    assert(b46 =~= b45 + seq![false]);
    assert(fields_bits(list, 46) == b46);
    let b47 = b46.push(false);
    assert(b47 =~= b46 + seq![false]);
    assert(fields_bits(list, 47) == b47);
    let b48 = b47.push(false);
    assert(b48 =~= b47 + seq![false]);
    assert(fields_bits(list, 48) == b48);
}

proof fn lemma_sps_fit(width: nat, height: nat, level: u8, sao: bool, pcm_loop_filter_disabled: bool)
    requires
        width <= BitWriter::MAX_UE,
        height <= BitWriter::MAX_UE,
    ensures
        all_fit(sps_fields(width, height, level, sao, pcm_loop_filter_disabled)),
        kinds_of(sps_fields(width, height, level, sao, pcm_loop_filter_disabled)) == kinds_of(
            sps_fields(0, 0, 0, false, false),
        ),
{
    lemma2_to64();
    let list = sps_fields(width, height, level, sao, pcm_loop_filter_disabled);
    assert(kinds_of(list) =~= kinds_of(sps_fields(0, 0, 0, false, false)));
}

/// The bits of a byte string that was packed from bits with a one at their end begin
/// with those bits.
pub proof fn lemma_packed_fields(x: Seq<bool>)
    ensures
        bytes_bits(pack(aligned(x.push(true)))) == x + (seq![true] + zeros(padding(x.len() + 1))),
{
    let b = aligned(x.push(true));
    lemma_pack_bits(b);
    assert(aligned(b) =~= b);
    assert(b =~= x + (seq![true] + zeros(padding(x.len() + 1))));
}

/// A sequence parameter set reads back: what it says of its pictures is what it was
/// written for.
pub proof fn law_sps_reads_back(width: usize, height: usize, level: u8, sao: bool, pcm_loop_filter_disabled: bool)
    requires
        width <= BitWriter::MAX_UE,
        height <= BitWriter::MAX_UE,
    ensures
        read_sps(bytes_bits(pack(sps_bits(width, height, level, sao, pcm_loop_filter_disabled)))) == Some(
            SequenceInfo { width: width as nat, height: height as nat, level, sao, pcm_loop_filter_disabled },
        ),
{
    reveal(read_sps);
    let list = sps_fields(width as nat, height as nat, level, sao, pcm_loop_filter_disabled);
    lemma_sps_fields(width, height, level, sao, pcm_loop_filter_disabled);
    lemma_sps_fit(width as nat, height as nat, level, sao, pcm_loop_filter_disabled);
    let x = fields_bits(list, 48);
    lemma_packed_fields(x);
    law_fields_read_back(list, 48, seq![true] + zeros(padding(x.len() + 1)));
    assert(list.take(48) =~= list);
}

/// What the picture parameter set tells of its pictures.
pub struct PictureInfo {
    /// Whether slice segments may depend on those before them.
    pub dependent: bool,
    /// The columns and rows of tiles.
    pub tiles: Option<(nat, nat)>,
    /// Whether the deblocking filter runs.
    pub deblocking: bool,
}

/// The fields of a picture parameter set up to its tiles.
pub open spec fn pps_fields(dependent: bool, tiled: bool) -> Seq<Field> {
    seq![
        Field::Code(0),
        Field::Code(0),
        Field::Flag(dependent),
        Field::Flag(false),
        Field::Bits(0, 3),
        Field::Flag(false),
        Field::Flag(false),
        Field::Code(0),
        Field::Code(0),
        Field::Signed(SLICE_QP - 26),
        Field::Flag(false),
        Field::Flag(false),
        Field::Flag(false),
        Field::Signed(0),
        Field::Signed(0),
        Field::Flag(false),
        Field::Flag(false),
        Field::Flag(false),
        Field::Flag(false),
        Field::Flag(tiled),
        Field::Flag(false),
    ]
}

/// The fields of a uniform grid of tiles.
pub open spec fn tile_fields(cols: nat, rows: nat) -> Seq<Field> {
    seq![
        Field::Code((cols - 1) as nat),
        Field::Code((rows - 1) as nat),
        Field::Flag(true),
        Field::Flag(false),
    ]
}

/// The fields of a picture parameter set that tell its loop filters.
pub open spec fn filter_fields(deblocking: bool) -> Seq<Field> {
    seq![
        Field::Flag(true),
        Field::Flag(true),
        Field::Flag(false),
        Field::Flag(!deblocking),
    ]
}

/// The grid of tiles at the front of `s`, where there is one, and the bits behind it.
pub open spec fn read_tiles(s: Seq<bool>, tiled: bool) -> Option<(Option<(nat, nat)>, Seq<bool>)> {
    if tiled {
        match read_fields(kinds_of(tile_fields(1, 1)), s, 4) {
            Some((f, rest)) => {
                let (cols, rows) = (f[0]->Code_0 + 1, f[1]->Code_0 + 1);
                if f == tile_fields(cols, rows) {
                    Some((Some((cols, rows)), rest))
                } else {
                    None
                }
            },
            None => None,
        }
    } else {
        Some((None, s))
    }
}

/// The picture parameter set at the front of `s`, if it is of the format in use.
#[verifier::opaque]
pub open spec fn read_pps(s: Seq<bool>) -> Option<PictureInfo> {
    match read_fields(kinds_of(pps_fields(false, false)), s, 21) {
        Some((f, rest)) => {
            let (dependent, tiled) = (f[2]->Flag_0, f[19]->Flag_0);
            match read_tiles(rest, tiled) {
                Some((tiles, behind)) => match read_fields(kinds_of(filter_fields(false)), behind, 4) {
                    Some((g, _)) => if f == pps_fields(dependent, tiled) && g == filter_fields(!g[3]->Flag_0) {
                        Some(PictureInfo { dependent, tiles, deblocking: !g[3]->Flag_0 })
                    } else {
                        None
                    },
                    None => None,
                },
                None => None,
            }
        },
        None => None,
    }
}

/// The bits of a grid of tiles, where there is one.
pub open spec fn tile_bits(tiles: Option<(u32, u32)>) -> Seq<bool> {
    match tiles {
        Some((cols, rows)) => fields_bits(tile_fields(cols as nat, rows as nat), 4),
        None => Seq::empty(),
    }
}

proof fn lemma_pps_head(dependent: bool, tiled: bool)
    ensures
        ({
            let head = ((Seq::<bool>::empty() + ue_bits(0) + ue_bits(0)).push(dependent).push(false)
                + be_bits(0, 3)).push(false).push(false) + ue_bits(0) + ue_bits(0) + se_bits(SLICE_QP - 26);
            fields_bits(pps_fields(dependent, tiled), 21) == (head.push(false).push(false).push(false) + se_bits(0)
                + se_bits(0)).push(false).push(false).push(false).push(false).push(tiled).push(false)
        }),
{
    let list = pps_fields(dependent, tiled);
    let b0 = Seq::<bool>::empty();
    assert(fields_bits(list, 0) == b0);
    let b1 = b0 + ue_bits(0);
    assert(fields_bits(list, 1) == b1);
    let b2 = b1 + ue_bits(0);
    assert(fields_bits(list, 2) == b2);
    let b3 = b2.push(dependent);
    assert(b3 =~= b2 + seq![dependent]);
    assert(fields_bits(list, 3) == b3);
    let b4 = b3.push(false);
    assert(b4 =~= b3 + seq![false]);
    assert(fields_bits(list, 4) == b4);
    let b5 = b4 + be_bits(0, 3);
    assert(fields_bits(list, 5) == b5);
    let b6 = b5.push(false);
    assert(b6 =~= b5 + seq![false]);
    assert(fields_bits(list, 6) == b6);
    let b7 = b6.push(false);
    assert(b7 =~= b6 + seq![false]);
    assert(fields_bits(list, 7) == b7);
    let b8 = b7 + ue_bits(0);
    assert(fields_bits(list, 8) == b8);
    let b9 = b8 + ue_bits(0);
    assert(fields_bits(list, 9) == b9);
    let b10 = b9 + se_bits(SLICE_QP - 26);
    assert(fields_bits(list, 10) == b10);
    let b11 = b10.push(false);
    assert(b11 =~= b10 + seq![false]);
    assert(fields_bits(list, 11) == b11);
    let b12 = b11.push(false);
    assert(b12 =~= b11 + seq![false]);
    assert(fields_bits(list, 12) == b12);
    let b13 = b12.push(false);
    assert(b13 =~= b12 + seq![false]);
    assert(fields_bits(list, 13) == b13);
    let b14 = b13 + se_bits(0);
    assert(fields_bits(list, 14) == b14);
    let b15 = b14 + se_bits(0);
    assert(fields_bits(list, 15) == b15);
    let b16 = b15.push(false);
    assert(b16 =~= b15 + seq![false]);
    assert(fields_bits(list, 16) == b16);
    let b17 = b16.push(false);
    assert(b17 =~= b16 + seq![false]);
    assert(fields_bits(list, 17) == b17);
    let b18 = b17.push(false);
    assert(b18 =~= b17 + seq![false]);
    assert(fields_bits(list, 18) == b18);
    let b19 = b18.push(false);
    assert(b19 =~= b18 + seq![false]);
    assert(fields_bits(list, 19) == b19);
    let b20 = b19.push(tiled);
    assert(b20 =~= b19 + seq![tiled]);
    assert(fields_bits(list, 20) == b20);
    let b21 = b20.push(false);
    assert(b21 =~= b20 + seq![false]);
    assert(fields_bits(list, 21) == b21);
}

proof fn lemma_tile_bits(g0: Seq<bool>, cols: nat, rows: nat)
    requires
        cols >= 1,
        rows >= 1,
    ensures
        g0 + fields_bits(tile_fields(cols, rows), 4) == (g0 + ue_bits((cols - 1) as nat) + ue_bits(
            (rows - 1) as nat,
        )).push(true).push(false),
{
    let list = tile_fields(cols, rows);
    let (a, b) = (ue_bits((cols - 1) as nat), ue_bits((rows - 1) as nat));
    reveal_with_fuel(fields_bits, 5);
    assert(fields_bits(list, 4) == Seq::<bool>::empty() + a + b + seq![true] + seq![false]);
    assert(g0 + fields_bits(list, 4) =~= (g0 + a + b).push(true).push(false));
}

proof fn lemma_filter_bits(h0: Seq<bool>, deblocking: bool)
    ensures
        h0 + fields_bits(filter_fields(deblocking), 4) == h0.push(true).push(true).push(false).push(!deblocking),
{
    let list = filter_fields(deblocking);
    reveal_with_fuel(fields_bits, 5);
    assert(fields_bits(list, 4) == Seq::<bool>::empty() + seq![true] + seq![true] + seq![false] + seq![!deblocking]);
    assert(h0 + fields_bits(list, 4) =~= h0.push(true).push(true).push(false).push(!deblocking));
}

/// What follows the loop filters ends in a one, and zeros up to a byte.
proof fn lemma_pps_end(filter: Seq<bool>, offsets: Seq<bool>)
    requires
        begins(filter, offsets),
    ensures
        ({
            let all = aligned((offsets.push(false).push(false) + ue_bits(0)).push(false).push(false).push(true));
            begins(filter, all) && all.len() % 8 == 0
        }),
{
    let u = ue_bits(0);
    let full = (offsets.push(false).push(false) + u).push(false).push(false).push(true);
    let all = aligned(full);
    assert forall|i: int| 0 <= i < filter.len() implies all[i] == filter[i] by {
        assert(offsets.take(filter.len() as int)[i] == offsets[i]);
        assert(full[i] == offsets[i]);
    }
    assert(all.take(filter.len() as int) =~= filter);
}

/// The picture parameter set begins with the fields that a decoder reads.
proof fn lemma_pps_begins(dependent: bool, deblocking: bool, tiles: Option<(u32, u32)>)
    requires
        tiles matches Some((c, r)) ==> c >= 1 && r >= 1,
    ensures
        begins(
            fields_bits(pps_fields(dependent, tiles is Some), 21) + tile_bits(tiles) + fields_bits(
                filter_fields(deblocking),
                4,
            ),
            pps_bits(dependent, deblocking, false, tiles, false),
        ),
        pps_bits(dependent, deblocking, false, tiles, false).len() % 8 == 0,
{
    reveal(pps_bits);
    lemma_pps_head(dependent, tiles is Some);
    let tools = fields_bits(pps_fields(dependent, tiles is Some), 21);
    let grid = tools + tile_bits(tiles);
    match tiles {
        Some((c, r)) => {
            lemma_tile_bits(tools, c as nat, r as nat);
        },
        None => {
            assert(grid =~= tools);
        },
    }
    lemma_filter_bits(grid, deblocking);
    let filter = grid + fields_bits(filter_fields(deblocking), 4);
    let offsets = if deblocking {
        filter + se_bits(0) + se_bits(0)
    } else {
        filter
    };
    if deblocking {
        assert((filter + se_bits(0) + se_bits(0)).take(filter.len() as int) =~= filter);
    } else {
        assert(filter.take(filter.len() as int) =~= filter);
    }
    lemma_pps_end(filter, offsets);
}

proof fn lemma_pps_fit(dependent: bool, deblocking: bool, tiled: bool)
    ensures
        all_fit(pps_fields(dependent, tiled)),
        pps_fields(dependent, tiled).len() == 21,
        kinds_of(pps_fields(dependent, tiled)) == kinds_of(pps_fields(false, false)),
        all_fit(filter_fields(deblocking)),
        kinds_of(filter_fields(deblocking)) == kinds_of(filter_fields(false)),
{
    lemma2_to64();
    assert(kinds_of(pps_fields(dependent, tiled)) =~= kinds_of(pps_fields(false, false)));
    assert(kinds_of(filter_fields(deblocking)) =~= kinds_of(filter_fields(false)));
}

proof fn lemma_tiles_read_back(tiles: Option<(u32, u32)>, rest: Seq<bool>)
    requires
        tiles matches Some((c, r)) ==> c >= 1 && r >= 1,
    ensures
        read_tiles(tile_bits(tiles) + rest, tiles is Some) == Some(
            (
                match tiles {
                    Some((c, r)) => Some((c as nat, r as nat)),
                    None => None::<(nat, nat)>,
                },
                rest,
            ),
        ),
{
    match tiles {
        Some((c, r)) => {
            let list = tile_fields(c as nat, r as nat);
            assert(kinds_of(list) =~= kinds_of(tile_fields(1, 1)));
            law_fields_read_back(list, 4, rest);
            assert(list.take(4) =~= list);
        },
        None => {
            assert(tile_bits(tiles) + rest =~= rest);
        },
    }
}

proof fn lemma_three_parts(x: Seq<bool>, y: Seq<bool>, z: Seq<bool>, all: Seq<bool>)
    requires
        begins(x + y + z, all),
    ensures
        all == x + (y + (z + all.skip((x + y + z).len() as int))),
{
    let rest = all.skip((x + y + z).len() as int);
    assert(all =~= (x + y + z) + rest);
    assert((x + y + z) + rest =~= x + (y + (z + rest)));
}

/// What a picture parameter set tells, for the tiles it was written for.
pub open spec fn picture_info(dependent: bool, deblocking: bool, tiles: Option<(u32, u32)>) -> PictureInfo {
    PictureInfo {
        dependent,
        tiles: match tiles {
            Some((c, r)) => Some((c as nat, r as nat)),
            None => None,
        },
        deblocking,
    }
}

proof fn lemma_pps_parts_read(dependent: bool, deblocking: bool, tiles: Option<(u32, u32)>, rest: Seq<bool>)
    requires
        tiles matches Some((c, r)) ==> c >= 1 && r >= 1,
    ensures
        read_pps(
            fields_bits(pps_fields(dependent, tiles is Some), 21) + (tile_bits(tiles) + (fields_bits(
                filter_fields(deblocking),
                4,
            ) + rest)),
        ) == Some(picture_info(dependent, deblocking, tiles)),
{
    reveal(read_pps);
    let (a, c) = (pps_fields(dependent, tiles is Some), filter_fields(deblocking));
    let (y, z) = (tile_bits(tiles), fields_bits(c, 4));
    lemma_pps_fit(dependent, deblocking, tiles is Some);
    law_fields_read_back(a, 21, y + (z + rest));
    lemma_tiles_read_back(tiles, z + rest);
    law_fields_read_back(c, 4, rest);
    assert(a.take(21) =~= a);
    assert(c.take(4) =~= c);
}

/// A picture parameter set reads back: what it says of its pictures is what it was
/// written for.
pub proof fn law_pps_reads_back(dependent: bool, deblocking: bool, tiles: Option<(u32, u32)>)
    requires
        tiles matches Some((c, r)) ==> c >= 1 && r >= 1,
    ensures
        read_pps(bytes_bits(pack(pps_bits(dependent, deblocking, false, tiles, false)))) == Some(
            picture_info(dependent, deblocking, tiles),
        ),
{
    let all = pps_bits(dependent, deblocking, false, tiles, false);
    let x = fields_bits(pps_fields(dependent, tiles is Some), 21);
    let y = tile_bits(tiles);
    let z = fields_bits(filter_fields(deblocking), 4);
    lemma_pps_begins(dependent, deblocking, tiles);
    lemma_pack_bits(all);
    assert(aligned(all) =~= all);
    lemma_three_parts(x, y, z, all);
    lemma_pps_parts_read(dependent, deblocking, tiles, all.skip((x + y + z).len() as int));
}

} // verus!
