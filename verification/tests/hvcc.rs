//! The decoder configuration record and length-prefixed samples.
use hevc_engine::hvcc::{extradata_is_hvcc, parse_hvcc, split_length_prefixed, HvccError};
use hevc_engine::nal::NalError;

fn tiny_record(version: u8, length_size_code: u8) -> Vec<u8> {
    let mut r = vec![
        version,
        0x21,
        0x60,
        0x00,
        0x00,
        0x00,
        0x90,
        0x00,
        0x00,
        0x00,
        0x00,
        0x00,
        0x5D,
        0xF0,
        0x07,
        0xFC | 0x01,
        0xFC | 0x01,
        0xF8 | 0x02,
        0xF8 | 0x02,
        0x00,
        0x19,
        (1 << 3) | 0x04 | length_size_code,
        0x01,
    ];
    r.extend_from_slice(&[0x21, 0x00, 0x01, 0x00, 0x03, 0x42, 0x01, 0xAA]);
    r
}

#[test]
fn parses_fixed_fields_and_array() {
    let rec = parse_hvcc(&tiny_record(1, 3)).expect("parse");
    assert_eq!(rec.general_profile_space, 0);
    assert!(rec.general_tier_flag);
    assert_eq!(rec.general_profile_idc, 1);
    assert_eq!(rec.general_profile_compatibility_flags, 0x6000_0000);
    assert_eq!(rec.general_constraint_indicator_flags, 0x9000_0000_0000);
    assert_eq!(rec.general_level_idc, 93);
    assert_eq!(rec.min_spatial_segmentation_idc, 7);
    assert_eq!(rec.parallelism_type, 1);
    assert_eq!(rec.chroma_format_idc, 1);
    assert_eq!(rec.bit_depth_luma_minus8, 2);
    assert_eq!(rec.bit_depth_chroma_minus8, 2);
    assert_eq!(rec.avg_frame_rate, 25);
    assert_eq!(rec.num_temporal_layers, 1);
    assert!(rec.temporal_id_nested);
    assert_eq!(rec.length_size, 4);
    assert_eq!(rec.nal_units.len(), 1);
    assert_eq!(rec.nal_units[0].header.nal_unit_type, 33);
    assert_eq!(rec.nal_units[0].rbsp, vec![0xAA]);
}

#[test]
fn rejects_bad_version_and_reserved_length_size() {
    assert_eq!(
        parse_hvcc(&tiny_record(0, 3)).unwrap_err(),
        HvccError::BadVersion(0)
    );
    assert_eq!(
        parse_hvcc(&tiny_record(1, 2)).unwrap_err(),
        HvccError::BadLengthSize
    );
}

#[test]
fn truncation_at_every_seam_is_an_error() {
    let full = tiny_record(1, 3);
    for cut in [10, 22, 24, 26, full.len() - 1] {
        assert_eq!(
            parse_hvcc(&full[..cut]).unwrap_err(),
            HvccError::Truncated,
            "cut at {cut}"
        );
    }
}

#[test]
fn skips_reserved_array_types() {
    let mut r = tiny_record(1, 3);
    r[22] = 2;
    r.extend_from_slice(&[0x29, 0x00, 0x01, 0x00, 0x03, 0x42, 0x01, 0xBB]);
    let rec = parse_hvcc(&r).expect("parse");
    assert_eq!(rec.nal_units.len(), 1, "reserved-type array ignored");
}

#[test]
fn probe_distinguishes_hvcc_from_annexb() {
    assert!(extradata_is_hvcc(&tiny_record(1, 3)));
    let annexb = [
        0x00, 0x00, 0x00, 0x01, 0x40, 0x01, 0x0C, 0x01, 0xFF, 0xFF, 0x04, 0x08, 0x00, 0x00,
        0x03, 0x00, 0x9F, 0xA8, 0x00, 0x00, 0x03, 0x00, 0x00, 0x1E,
    ];
    assert!(!extradata_is_hvcc(&annexb));
    assert!(!extradata_is_hvcc(&[1, 2, 3]));
}

#[test]
fn splits_length_prefixed_sample_data() {
    let sample = [
        0x00, 0x00, 0x00, 0x03, 0x42, 0x01, 0xAA,
        0x00, 0x00, 0x00, 0x06, 0x26, 0x01, 0x00, 0x00, 0x03, 0x00,
    ];
    let units = split_length_prefixed(&sample, 4).expect("split");
    assert_eq!(units.len(), 2);
    assert_eq!(units[0].header.nal_unit_type, 33);
    assert_eq!(units[1].header.nal_unit_type, 19);
    assert_eq!(units[1].escaped, vec![0x00, 0x00, 0x03, 0x00]);
    assert_eq!(units[1].rbsp, vec![0x00, 0x00, 0x00]);
}

#[test]
fn sample_truncation_is_an_error() {
    let sample = [0x00, 0x00, 0x00, 0x05, 0x42, 0x01];
    assert_eq!(
        split_length_prefixed(&sample, 4).unwrap_err(),
        HvccError::TruncatedSample
    );
    assert_eq!(
        split_length_prefixed(&[0x00, 0x00], 4).unwrap_err(),
        HvccError::TruncatedSample
    );
}

#[test]
fn two_byte_prefix_form() {
    let sample = [0x00, 0x03, 0x42, 0x01, 0xAA];
    let units = split_length_prefixed(&sample, 2).expect("split");
    assert_eq!(units.len(), 1);
    assert_eq!(units[0].header.nal_unit_type, 33);
}

#[test]
fn every_cut_of_a_record_is_refused() {
    let full = tiny_record(1, 3);
    for cut in 0..full.len() {
        assert_eq!(parse_hvcc(&full[..cut]).unwrap_err(), HvccError::Truncated, "cut at {cut}");
    }
}

#[test]
fn a_carried_unit_with_a_bad_header_is_refused() {
    let mut r = tiny_record(1, 3);
    let header = r.len() - 3;
    r[header] = 0xC2;
    assert_eq!(parse_hvcc(&r).unwrap_err(), HvccError::Nal(NalError::ForbiddenBitSet));
    assert_eq!(
        split_length_prefixed(&[0x00, 0x02, 0x42, 0x00], 2).unwrap_err(),
        HvccError::Nal(NalError::ZeroTemporalIdPlus1)
    );
}
