//! The parameter sets of the emitted streams: single-layer Main profile, 4:2:0,
//! 8 bits, 16x16 coding tree blocks.
use vstd::prelude::*;
use crate::bits::{aligned, be_bits, pack, se_bits, ue_bits};
use crate::bitwriter::BitWriter;

verus! {

/// The coding tree block, coding block and PCM block size, as a logarithm.
pub const CTB_LOG2: u32 = 4;

/// The coding tree block size.
pub const CTB: usize = 16;

/// `SliceQpY` of every PCM slice. PCM blocks carry no residual, so the QP only
/// seeds context initialization.
pub const SLICE_QP: i32 = 26;

/// The smallest level whose `MaxLumaPs` covers a picture of `luma_ps` samples.
pub open spec fn level_for(luma_ps: int) -> u8 {
    if luma_ps <= 36_864 {
        30
    } else if luma_ps <= 122_880 {
        60
    } else if luma_ps <= 245_760 {
        63
    } else if luma_ps <= 552_960 {
        90
    } else if luma_ps <= 983_040 {
        93
    } else if luma_ps <= 2_228_224 {
        120
    } else if luma_ps <= 8_912_896 {
        150
    } else if luma_ps <= 35_651_584 {
        180
    } else {
        186
    }
}

/// The smallest `general_level_idc` whose `MaxLumaPs` covers the picture.
pub fn level_idc_for(luma_ps: usize) -> (l: u8)
    ensures
        l == level_for(luma_ps as int),
{
    if luma_ps <= 36_864 {
        30
    } else if luma_ps <= 122_880 {
        60
    } else if luma_ps <= 245_760 {
        63
    } else if luma_ps <= 552_960 {
        90
    } else if luma_ps <= 983_040 {
        93
    } else if luma_ps <= 2_228_224 {
        120
    } else if luma_ps <= 8_912_896 {
        150
    } else if luma_ps <= 35_651_584 {
        180
    } else {
        186
    }
}

/// The smallest level whose tile limits cover a grid.
pub open spec fn level_for_tiles(cols: int, rows: int) -> u8 {
    if cols <= 1 && rows <= 1 {
        30
    } else if cols <= 2 && rows <= 2 {
        90
    } else if cols <= 3 && rows <= 3 {
        93
    } else if cols <= 5 && rows <= 5 {
        120
    } else if cols <= 10 && rows <= 11 {
        150
    } else {
        180
    }
}

/// The smallest `general_level_idc` whose `MaxTileCols` / `MaxTileRows` cover the
/// requested tile grid.
pub fn level_idc_for_tiles(cols: u32, rows: u32) -> (l: u8)
    ensures
        l == level_for_tiles(cols as int, rows as int),
{
    if cols <= 1 && rows <= 1 {
        30
    } else if cols <= 2 && rows <= 2 {
        90
    } else if cols <= 3 && rows <= 3 {
        93
    } else if cols <= 5 && rows <= 5 {
        120
    } else if cols <= 10 && rows <= 11 {
        150
    } else {
        180
    }
}

/// A flag as the bit that stands for it.
pub fn flag(b: bool) -> (v: u8)
    ensures
        (v % 2 == 1) == b,
{
    if b {
        1
    } else {
        0
    }
}

/// `profile_tier_level( 1, 0 )` behind `b`: Main profile, also decodable by Main
/// 10 decoders, Main tier, progressive frames.
pub open spec fn ptl_behind(b: Seq<bool>, level_idc: u8) -> Seq<bool> {
    ((b + be_bits(0, 2)).push(false) + be_bits(1, 5) + be_bits(0x6000_0000, 32)).push(true).push(false).push(true).push(
        true,
    ) + be_bits(0, 32) + be_bits(0, 11) + be_bits(0, 1) + be_bits(level_idc as nat, 8)
}

/// `profile_tier_level( 1, 0 )`: Main profile, Main tier.
pub fn write_ptl(w: &mut BitWriter, level_idc: u8)
    requires
        old(w).wf(),
    ensures
        final(w).wf(),
        final(w)@ == ptl_behind(old(w)@, level_idc),
{
    w.put_bits(0, 2);  // general_profile_space
    w.put_bit(0);  // general_tier_flag
    w.put_bits(1, 5);  // general_profile_idc = 1 (Main)
    // general_profile_compatibility_flag[ 1 ] and [ 2 ]
    w.put_bits(0x6000_0000, 32);
    w.put_bit(1);  // general_progressive_source_flag
    w.put_bit(0);  // general_interlaced_source_flag
    w.put_bit(1);  // general_non_packed_constraint_flag
    w.put_bit(1);  // general_frame_only_constraint_flag
    w.put_bits(0, 32);  // general_reserved_zero_43bits
    w.put_bits(0, 11);
    w.put_bits(0, 1);  // general_inbld_flag
    w.put_bits(level_idc as u32, 8);  // general_level_idc
}

/// The video parameter set.
#[verifier::opaque]
pub open spec fn vps_bits(level_idc: u8, max_dec_pic_buffering_minus1: u32, max_num_reorder_pics: u32) -> Seq<bool> {
    let head = ((Seq::<bool>::empty() + be_bits(0, 4)).push(true).push(true) + be_bits(0, 6) + be_bits(0, 3)).push(true)
        + be_bits(0xFFFF, 16);
    let ordering = ptl_behind(head, level_idc).push(true) + ue_bits(max_dec_pic_buffering_minus1 as nat) + ue_bits(
        max_num_reorder_pics as nat,
    ) + ue_bits(0);
    aligned((ordering + be_bits(0, 6) + ue_bits(0)).push(false).push(false).push(true))
}

/// The minimal single-layer VPS.
pub fn write_vps(level_idc: u8) -> (rbsp: Vec<u8>)
    ensures
        rbsp@ == pack(vps_bits(level_idc, 1, 0)),
{
    write_vps_cfg(level_idc, 1, 0)
}

/// [`write_vps`] with explicit `vps_max_dec_pic_buffering_minus1[0]` and
/// `vps_max_num_reorder_pics[0]`.
pub fn write_vps_cfg(level_idc: u8, max_dec_pic_buffering_minus1: u32, max_num_reorder_pics: u32) -> (rbsp: Vec<u8>)
    requires
        max_dec_pic_buffering_minus1 <= BitWriter::MAX_UE,
        max_num_reorder_pics <= BitWriter::MAX_UE,
    ensures
        rbsp@ == pack(vps_bits(level_idc, max_dec_pic_buffering_minus1, max_num_reorder_pics)),
{
    reveal(vps_bits);
    let mut w = BitWriter::new();
    w.put_bits(0, 4);  // vps_video_parameter_set_id
    w.put_bit(1);  // vps_base_layer_internal_flag
    w.put_bit(1);  // vps_base_layer_available_flag
    w.put_bits(0, 6);  // vps_max_layers_minus1
    w.put_bits(0, 3);  // vps_max_sub_layers_minus1
    w.put_bit(1);  // vps_temporal_id_nesting_flag
    w.put_bits(0xFFFF, 16);  // vps_reserved_0xffff_16bits
    write_ptl(&mut w, level_idc);
    w.put_bit(1);  // vps_sub_layer_ordering_info_present_flag
    w.ue(max_dec_pic_buffering_minus1);  // vps_max_dec_pic_buffering_minus1[0]
    w.ue(max_num_reorder_pics);  // vps_max_num_reorder_pics[0]
    w.ue(0);  // vps_max_latency_increase_plus1[0]
    w.put_bits(0, 6);  // vps_max_layer_id
    w.ue(0);  // vps_num_layer_sets_minus1
    w.put_bit(0);  // vps_timing_info_present_flag
    w.put_bit(0);  // vps_extension_flag
    w.rbsp_trailing_bits();
    w.finish()
}

/// A picture dimension as its 32-bit field holds it.
pub open spec fn dimension_field(d: usize) -> nat {
    (d as int % 0x1_0000_0000) as nat
}

/// The sequence parameter set with PCM blocks.
#[verifier::opaque]
pub open spec fn sps_bits(
    width: usize,
    height: usize,
    level_idc: u8,
    sao_enabled: bool,
    pcm_loop_filter_disabled: bool,
) -> Seq<bool> {
    let head = (Seq::<bool>::empty() + be_bits(0, 4) + be_bits(0, 3)).push(true);
    let format = (ptl_behind(head, level_idc) + ue_bits(0) + ue_bits(1) + ue_bits(dimension_field(width)) + ue_bits(
        dimension_field(height),
    )).push(false) + ue_bits(0) + ue_bits(0) + ue_bits(4);
    let blocks = format.push(true) + ue_bits(1) + ue_bits(0) + ue_bits(0) + ue_bits(1) + ue_bits(0) + ue_bits(0)
        + ue_bits(2) + ue_bits(0) + ue_bits(0);
    let pcm = (blocks.push(false).push(false).push(sao_enabled).push(true) + be_bits(7, 4) + be_bits(7, 4) + ue_bits(1)
        + ue_bits(0)).push(pcm_loop_filter_disabled);
    aligned((pcm + ue_bits(0)).push(false).push(false).push(false).push(false).push(false).push(true))
}

/// The fixed-geometry SPS (4:2:0, 8-bit, CTB 16, PCM on).
pub fn write_sps(
    width: usize,
    height: usize,
    level_idc: u8,
    sao_enabled: bool,
    pcm_loop_filter_disabled: bool,
) -> (rbsp: Vec<u8>)
    requires
        dimension_field(width) <= BitWriter::MAX_UE,
        dimension_field(height) <= BitWriter::MAX_UE,
    ensures
        rbsp@ == pack(sps_bits(width, height, level_idc, sao_enabled, pcm_loop_filter_disabled)),
{
    reveal(sps_bits);
    let mut w = BitWriter::new();
    w.put_bits(0, 4);  // sps_video_parameter_set_id
    w.put_bits(0, 3);  // sps_max_sub_layers_minus1
    w.put_bit(1);  // sps_temporal_id_nesting_flag
    write_ptl(&mut w, level_idc);
    w.ue(0);  // sps_seq_parameter_set_id
    w.ue(1);  // chroma_format_idc = 4:2:0
    w.ue(field_of(width));  // pic_width_in_luma_samples
    w.ue(field_of(height));  // pic_height_in_luma_samples
    w.put_bit(0);  // conformance_window_flag
    w.ue(0);  // bit_depth_luma_minus8
    w.ue(0);  // bit_depth_chroma_minus8
    w.ue(4);  // log2_max_pic_order_cnt_lsb_minus4
    w.put_bit(1);  // sps_sub_layer_ordering_info_present_flag
    w.ue(1);  // sps_max_dec_pic_buffering_minus1[0]
    w.ue(0);  // sps_max_num_reorder_pics[0]
    w.ue(0);  // sps_max_latency_increase_plus1[0]
    w.ue(CTB_LOG2 - 3);  // log2_min_luma_coding_block_size_minus3
    w.ue(0);  // log2_diff_max_min_luma_coding_block_size
    w.ue(0);  // log2_min_luma_transform_block_size_minus2
    w.ue(2);  // log2_diff_max_min_luma_transform_block_size
    w.ue(0);  // max_transform_hierarchy_depth_inter
    w.ue(0);  // max_transform_hierarchy_depth_intra
    w.put_bit(0);  // scaling_list_enabled_flag
    w.put_bit(0);  // amp_enabled_flag
    w.put_bit(flag(sao_enabled));  // sample_adaptive_offset_enabled_flag
    w.put_bit(1);  // pcm_enabled_flag
    w.put_bits(7, 4);  // pcm_sample_bit_depth_luma_minus1
    w.put_bits(7, 4);  // pcm_sample_bit_depth_chroma_minus1
    w.ue(CTB_LOG2 - 3);  // log2_min_pcm_luma_coding_block_size_minus3
    w.ue(0);  // log2_diff_max_min_pcm_luma_coding_block_size
    w.put_bit(flag(pcm_loop_filter_disabled));  // pcm_loop_filter_disabled_flag
    w.ue(0);  // num_short_term_ref_pic_sets
    w.put_bit(0);  // long_term_ref_pics_present_flag
    w.put_bit(0);  // sps_temporal_mvp_enabled_flag
    w.put_bit(0);  // strong_intra_smoothing_enabled_flag
    w.put_bit(0);  // vui_parameters_present_flag
    w.put_bit(0);  // sps_extension_present_flag
    w.rbsp_trailing_bits();
    w.finish()
}

/// A dimension reduced to 32 bits.
pub fn field_of(d: usize) -> (f: u32)
    ensures
        f as nat == dimension_field(d),
{
    (d as u64 % 0x1_0000_0000) as u32
}

/// The picture parameter set.
#[verifier::opaque]
pub open spec fn pps_bits(
    dependent_slice_segments_enabled: bool,
    deblocking_enabled: bool,
    deblocking_override_enabled: bool,
    tiles: Option<(u32, u32)>,
    cu_qp_delta: bool,
) -> Seq<bool> {
    let head = ((Seq::<bool>::empty() + ue_bits(0) + ue_bits(0)).push(dependent_slice_segments_enabled).push(false)
        + be_bits(0, 3)).push(false).push(false) + ue_bits(0) + ue_bits(0) + se_bits(SLICE_QP - 26);
    let qp = head.push(false).push(false).push(cu_qp_delta);
    let qp_depth = if cu_qp_delta {
        qp + ue_bits(0)
    } else {
        qp
    };
    let tools = (qp_depth + se_bits(0) + se_bits(0)).push(false).push(false).push(false).push(false).push(
        tiles is Some,
    ).push(false);
    let grid = match tiles {
        Some((cols, rows)) => (tools + ue_bits((cols - 1) as nat) + ue_bits((rows - 1) as nat)).push(true).push(false),
        None => tools,
    };
    let filter = grid.push(true).push(true).push(deblocking_override_enabled).push(!deblocking_enabled);
    let offsets = if deblocking_enabled {
        filter + se_bits(0) + se_bits(0)
    } else {
        filter
    };
    aligned((offsets.push(false).push(false) + ue_bits(0)).push(false).push(false).push(true))
}

/// The all-defaults PPS, optionally with a uniform tile grid.
pub fn write_pps(
    dependent_slice_segments_enabled: bool,
    deblocking_enabled: bool,
    tiles: Option<(u32, u32)>,
) -> (rbsp: Vec<u8>)
    requires
        tiles matches Some((c, r)) ==> c >= 1 && r >= 1,
    ensures
        rbsp@ == pack(pps_bits(dependent_slice_segments_enabled, deblocking_enabled, false, tiles, false)),
{
    write_pps_lf(dependent_slice_segments_enabled, deblocking_enabled, false, tiles)
}

/// [`write_pps`] with `deblocking_filter_override_enabled_flag` control.
pub fn write_pps_lf(
    dependent_slice_segments_enabled: bool,
    deblocking_enabled: bool,
    deblocking_override_enabled: bool,
    tiles: Option<(u32, u32)>,
) -> (rbsp: Vec<u8>)
    requires
        tiles matches Some((c, r)) ==> c >= 1 && r >= 1,
    ensures
        rbsp@ == pack(
            pps_bits(
                dependent_slice_segments_enabled,
                deblocking_enabled,
                deblocking_override_enabled,
                tiles,
                false,
            ),
        ),
{
    write_pps_full(
        dependent_slice_segments_enabled,
        deblocking_enabled,
        deblocking_override_enabled,
        tiles,
        false,
    )
}

/// [`write_pps_lf`] with `cu_qp_delta_enabled_flag` control.
pub fn write_pps_full(
    dependent_slice_segments_enabled: bool,
    deblocking_enabled: bool,
    deblocking_override_enabled: bool,
    tiles: Option<(u32, u32)>,
    cu_qp_delta: bool,
) -> (rbsp: Vec<u8>)
    requires
        tiles matches Some((c, r)) ==> c >= 1 && r >= 1,
    ensures
        rbsp@ == pack(
            pps_bits(
                dependent_slice_segments_enabled,
                deblocking_enabled,
                deblocking_override_enabled,
                tiles,
                cu_qp_delta,
            ),
        ),
{
    reveal(pps_bits);
    let mut w = BitWriter::new();
    w.ue(0);  // pps_pic_parameter_set_id
    w.ue(0);  // pps_seq_parameter_set_id
    w.put_bit(flag(dependent_slice_segments_enabled));  // dependent_slice_segments_enabled_flag
    w.put_bit(0);  // output_flag_present_flag
    w.put_bits(0, 3);  // num_extra_slice_header_bits
    w.put_bit(0);  // sign_data_hiding_enabled_flag
    w.put_bit(0);  // cabac_init_present_flag
    w.ue(0);  // num_ref_idx_l0_default_active_minus1
    w.ue(0);  // num_ref_idx_l1_default_active_minus1
    w.se(SLICE_QP - 26);  // init_qp_minus26
    w.put_bit(0);  // constrained_intra_pred_flag
    w.put_bit(0);  // transform_skip_enabled_flag
    w.put_bit(flag(cu_qp_delta));  // cu_qp_delta_enabled_flag
    if cu_qp_delta {
        w.ue(0);  // diff_cu_qp_delta_depth
    }
    w.se(0);  // pps_cb_qp_offset
    w.se(0);  // pps_cr_qp_offset
    w.put_bit(0);  // pps_slice_chroma_qp_offsets_present_flag
    w.put_bit(0);  // weighted_pred_flag
    w.put_bit(0);  // weighted_bipred_flag
    w.put_bit(0);  // transquant_bypass_enabled_flag
    w.put_bit(flag(tiles.is_some()));  // tiles_enabled_flag
    w.put_bit(0);  // entropy_coding_sync_enabled_flag
    if let Some((cols, rows)) = tiles {
        w.ue(cols - 1);  // num_tile_columns_minus1
        w.ue(rows - 1);  // num_tile_rows_minus1
        w.put_bit(1);  // uniform_spacing_flag
        w.put_bit(0);  // loop_filter_across_tiles_enabled_flag
    }
    w.put_bit(1);  // pps_loop_filter_across_slices_enabled_flag
    w.put_bit(1);  // deblocking_filter_control_present_flag
    w.put_bit(flag(deblocking_override_enabled));  // deblocking_filter_override_enabled_flag
    w.put_bit(flag(!deblocking_enabled));  // pps_deblocking_filter_disabled_flag
    if deblocking_enabled {
        w.se(0);  // pps_beta_offset_div2
        w.se(0);  // pps_tc_offset_div2
    }
    w.put_bit(0);  // pps_scaling_list_data_present_flag
    w.put_bit(0);  // lists_modification_present_flag
    w.ue(0);  // log2_parallel_merge_level_minus2
    w.put_bit(0);  // slice_segment_header_extension_present_flag
    w.put_bit(0);  // pps_extension_present_flag
    w.rbsp_trailing_bits();
    w.finish()
}

} // verus!
