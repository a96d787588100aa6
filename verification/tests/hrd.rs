//! Hypothetical reference decoder parameters.
use hevc_engine::bitreader::BitReader;
use hevc_engine::hrd::{HrdCommonInfo, HrdError, HrdParameters, VpsHrdEntry};

fn bits_to_bytes(parts: &[&str]) -> Vec<u8> {
    let mut bits = Vec::<u8>::new();
    for s in parts {
        for c in s.chars() {
            if c == '0' || c == '1' {
                bits.push((c as u8) - b'0');
            }
        }
    }
    while bits.len() % 8 != 0 {
        bits.push(0);
    }
    let mut bytes = Vec::with_capacity(bits.len() / 8);
    for chunk in bits.chunks(8) {
        let mut b = 0u8;
        for &bit in chunk {
            b = (b << 1) | bit;
        }
        bytes.push(b);
    }
    bytes
}

fn ue(code: u32) -> String {
    let v = code as u64 + 1;
    let bits_in_v = 64 - v.leading_zeros();
    let leading_zeros = bits_in_v - 1;
    let mut s = String::new();
    for _ in 0..leading_zeros {
        s.push('0');
    }
    for i in (0..bits_in_v).rev() {
        s.push(if (v >> i) & 1 == 1 { '1' } else { '0' });
    }
    s
}

fn ub(value: u32, width: u8) -> String {
    let mut s = String::new();
    for i in (0..width).rev() {
        s.push(if (value >> i) & 1 == 1 { '1' } else { '0' });
    }
    s
}

#[test]
fn parses_minimal_common_info_one_sub_layer() {
    let bytes = bits_to_bytes(&[
        "0",
        "0",
        "1",
        "1",
        "1",
    ]);
    let mut br = BitReader::new(&bytes);
    let hrd = HrdParameters::parse(&mut br, true, 0, None).expect("parse");
    let common = hrd.common.expect("common present");
    assert!(!common.nal_hrd_parameters_present_flag);
    assert!(!common.vcl_hrd_parameters_present_flag);
    assert!(!common.has_any_hrd());
    assert_eq!(hrd.sub_layers.len(), 1);
    let sl = &hrd.sub_layers[0];
    assert!(sl.fixed_pic_rate_general_flag);
    assert!(sl.fixed_pic_rate_within_cvs_flag);
    assert_eq!(sl.elemental_duration_in_tc_minus1, Some(0));
    assert_eq!(sl.cpb_cnt_minus1, 0);
    assert!(sl.nal_hrd.is_none());
    assert!(sl.vcl_hrd.is_none());
}

#[test]
fn parses_nal_hrd_with_sub_pic_and_two_cpbs() {
    let nal_cpb0_brv = ue(0);
    let nal_cpb0_cpb = ue(100);
    let nal_cpb0_cpb_du = ue(200);
    let nal_cpb0_brv_du = ue(50);
    let nal_cpb1_brv = ue(1);
    let nal_cpb1_cpb = ue(50);
    let nal_cpb1_cpb_du = ue(100);
    let nal_cpb1_brv_du = ue(100);
    let bytes = bits_to_bytes(&[
        "1",
        "0",
        "1",
        &ub(3, 8),
        &ub(4, 5),
        "1",
        &ub(5, 5),
        &ub(2, 4),
        &ub(3, 4),
        &ub(1, 4),
        &ub(23, 5),
        &ub(23, 5),
        &ub(23, 5),
        "0",
        "1",
        &ue(0),
        &ue(1),
        &nal_cpb0_brv,
        &nal_cpb0_cpb,
        &nal_cpb0_cpb_du,
        &nal_cpb0_brv_du,
        "1",
        &nal_cpb1_brv,
        &nal_cpb1_cpb,
        &nal_cpb1_cpb_du,
        &nal_cpb1_brv_du,
        "0",
    ]);
    let mut br = BitReader::new(&bytes);
    let hrd = HrdParameters::parse(&mut br, true, 0, None).expect("parse");
    let common = hrd.common.expect("common present");
    assert!(common.nal_hrd_parameters_present_flag);
    assert!(!common.vcl_hrd_parameters_present_flag);
    assert!(common.sub_pic_hrd_params_present_flag);
    assert_eq!(common.tick_divisor_minus2, 3);
    assert_eq!(common.du_cpb_removal_delay_increment_length_minus1, 4);
    assert!(common.sub_pic_cpb_params_in_pic_timing_sei_flag);
    assert_eq!(common.dpb_output_delay_du_length_minus1, 5);
    assert_eq!(common.bit_rate_scale, 2);
    assert_eq!(common.cpb_size_scale, 3);
    assert_eq!(common.cpb_size_du_scale, 1);
    assert_eq!(common.initial_cpb_removal_delay_length_minus1, 23);
    assert_eq!(common.au_cpb_removal_delay_length_minus1, 23);
    assert_eq!(common.dpb_output_delay_length_minus1, 23);
    assert_eq!(hrd.sub_layers.len(), 1);
    let sl = &hrd.sub_layers[0];
    assert!(!sl.fixed_pic_rate_general_flag);
    assert!(sl.fixed_pic_rate_within_cvs_flag);
    assert_eq!(sl.elemental_duration_in_tc_minus1, Some(0));
    assert!(!sl.low_delay_hrd_flag);
    assert_eq!(sl.cpb_cnt_minus1, 1);
    assert!(sl.vcl_hrd.is_none());
    let nal = sl.nal_hrd.as_ref().expect("nal hrd present");
    assert_eq!(nal.cpb.len(), 2);
    assert_eq!(nal.cpb[0].bit_rate_value_minus1, 0);
    assert_eq!(nal.cpb[0].cpb_size_value_minus1, 100);
    assert_eq!(nal.cpb[0].cpb_size_du_value_minus1, Some(200));
    assert_eq!(nal.cpb[0].bit_rate_du_value_minus1, Some(50));
    assert!(nal.cpb[0].cbr_flag);
    assert_eq!(nal.cpb[1].bit_rate_value_minus1, 1);
    assert_eq!(nal.cpb[1].cpb_size_value_minus1, 50);
    assert_eq!(nal.cpb[1].cpb_size_du_value_minus1, Some(100));
    assert_eq!(nal.cpb[1].bit_rate_du_value_minus1, Some(100));
    assert!(!nal.cpb[1].cbr_flag);
}

#[test]
fn rejects_non_increasing_bit_rate_value() {
    let bytes = bits_to_bytes(&[
        "1",
        "0",
        "0",
        &ub(0, 4),
        &ub(0, 4),
        &ub(23, 5),
        &ub(23, 5),
        &ub(23, 5),
        "1",
        &ue(0),
        &ue(1),
        &ue(5),
        &ue(10),
        "1",
        &ue(5),
    ]);
    let mut br = BitReader::new(&bytes);
    let err = HrdParameters::parse(&mut br, true, 0, None).unwrap_err();
    assert_eq!(
        err,
        HrdError::ValueOutOfRange {
            field: "bit_rate_value_minus1",
            got: 5
        }
    );
}

#[test]
fn rejects_elemental_duration_above_2047() {
    let bytes = bits_to_bytes(&[
        "0",
        "0",
        "0",
        "1",
        &ue(2048),
    ]);
    let mut br = BitReader::new(&bytes);
    let err = HrdParameters::parse(&mut br, true, 0, None).unwrap_err();
    assert_eq!(
        err,
        HrdError::ValueOutOfRange {
            field: "elemental_duration_in_tc_minus1",
            got: 2048
        }
    );
}

#[test]
fn rejects_cpb_cnt_above_31() {
    let bytes = bits_to_bytes(&[
        "0",
        "0",
        "1",
        &ue(0),
        &ue(32),
    ]);
    let mut br = BitReader::new(&bytes);
    let err = HrdParameters::parse(&mut br, true, 0, None).unwrap_err();
    assert_eq!(
        err,
        HrdError::ValueOutOfRange {
            field: "cpb_cnt_minus1",
            got: 32
        }
    );
}

#[test]
fn low_delay_infers_cpb_cnt_zero() {
    let bytes = bits_to_bytes(&[
        "1",
        "0",
        "0",
        &ub(0, 4),
        &ub(0, 4),
        &ub(23, 5),
        &ub(23, 5),
        &ub(23, 5),
        "0",
        "0",
        "1",
        &ue(7),
        &ue(15),
        "0",
    ]);
    let mut br = BitReader::new(&bytes);
    let hrd = HrdParameters::parse(&mut br, true, 0, None).expect("parse");
    let sl = &hrd.sub_layers[0];
    assert!(!sl.fixed_pic_rate_general_flag);
    assert!(!sl.fixed_pic_rate_within_cvs_flag);
    assert!(sl.low_delay_hrd_flag);
    assert_eq!(sl.cpb_cnt_minus1, 0);
    let nal = sl.nal_hrd.as_ref().expect("nal");
    assert_eq!(nal.cpb.len(), 1);
    assert_eq!(nal.cpb[0].bit_rate_value_minus1, 7);
    assert_eq!(nal.cpb[0].cpb_size_value_minus1, 15);
    assert!(!nal.cpb[0].cbr_flag);
}

#[test]
fn cprms_zero_inherits_previous_common_info() {
    let prev = HrdCommonInfo {
        nal_hrd_parameters_present_flag: true,
        vcl_hrd_parameters_present_flag: false,
        sub_pic_hrd_params_present_flag: false,
        tick_divisor_minus2: 0,
        du_cpb_removal_delay_increment_length_minus1: 0,
        sub_pic_cpb_params_in_pic_timing_sei_flag: false,
        dpb_output_delay_du_length_minus1: 0,
        bit_rate_scale: 0,
        cpb_size_scale: 0,
        cpb_size_du_scale: 0,
        initial_cpb_removal_delay_length_minus1: 23,
        au_cpb_removal_delay_length_minus1: 23,
        dpb_output_delay_length_minus1: 23,
    };
    let bytes = bits_to_bytes(&[
        "1",
        &ue(0),
        &ue(0),
        &ue(11),
        &ue(22),
        "1",
    ]);
    let mut br = BitReader::new(&bytes);
    let hrd = HrdParameters::parse(&mut br, false, 0, Some(&prev)).expect("parse");
    assert!(hrd.common.is_none());
    let sl = &hrd.sub_layers[0];
    let nal = sl.nal_hrd.as_ref().expect("nal inherited");
    assert_eq!(nal.cpb[0].bit_rate_value_minus1, 11);
    assert_eq!(nal.cpb[0].cpb_size_value_minus1, 22);
    assert!(nal.cpb[0].cbr_flag);
}

#[test]
fn vps_hrd_entry_skips_cprms_for_index_zero() {
    let bytes = bits_to_bytes(&[
        "1",
        "0",
        "0",
        "1",
        "1",
        "1",
    ]);
    let mut br = BitReader::new(&bytes);
    let entry = VpsHrdEntry::parse(&mut br, 0, 0, None).expect("parse");
    assert_eq!(entry.hrd_layer_set_idx, 0);
    assert!(entry.cprms_present_flag);
    assert!(entry.hrd.common.is_some());
}

#[test]
fn vps_hrd_entry_reads_cprms_for_nonzero_index() {
    let prev = VpsHrdEntry {
        hrd_layer_set_idx: 0,
        cprms_present_flag: true,
        hrd: HrdParameters {
            max_num_sub_layers_minus1: 0,
            common: Some(HrdCommonInfo {
                nal_hrd_parameters_present_flag: false,
                vcl_hrd_parameters_present_flag: false,
                sub_pic_hrd_params_present_flag: false,
                tick_divisor_minus2: 0,
                du_cpb_removal_delay_increment_length_minus1: 0,
                sub_pic_cpb_params_in_pic_timing_sei_flag: false,
                dpb_output_delay_du_length_minus1: 0,
                bit_rate_scale: 0,
                cpb_size_scale: 0,
                cpb_size_du_scale: 0,
                initial_cpb_removal_delay_length_minus1: 0,
                au_cpb_removal_delay_length_minus1: 0,
                dpb_output_delay_length_minus1: 0,
            }),
            sub_layers: Vec::new(),
        },
    };
    let bytes = bits_to_bytes(&[
        &ue(1),
        "0",
        "1",
        &ue(0),
        &ue(0),
    ]);
    let mut br = BitReader::new(&bytes);
    let entry = VpsHrdEntry::parse(&mut br, 1, 0, Some(&prev)).expect("parse");
    assert_eq!(entry.hrd_layer_set_idx, 1);
    assert!(!entry.cprms_present_flag);
    assert!(entry.hrd.common.is_none());
    assert!(entry.hrd.sub_layers[0].nal_hrd.is_none());
    assert!(entry.hrd.sub_layers[0].vcl_hrd.is_none());
}

#[test]
fn cprms_zero_without_previous_yields_no_hrd_bodies() {
    let bytes = bits_to_bytes(&[
        "1",
        "1",
        "1",
    ]);
    let mut br = BitReader::new(&bytes);
    let hrd = HrdParameters::parse(&mut br, false, 0, None).expect("parse");
    assert!(hrd.common.is_none());
    let sl = &hrd.sub_layers[0];
    assert!(sl.nal_hrd.is_none());
    assert!(sl.vcl_hrd.is_none());
}

#[test]
fn parses_three_sub_layers() {
    let bytes = bits_to_bytes(&[
        "0",
        "0",
        "1",
        &ue(0),
        &ue(0),
        "0",
        "0",
        "1",
        "0",
        "1",
        &ue(7),
        &ue(0),
    ]);
    let mut br = BitReader::new(&bytes);
    let hrd = HrdParameters::parse(&mut br, true, 2, None).expect("parse");
    assert_eq!(hrd.sub_layers.len(), 3);
    assert!(hrd.sub_layers[0].fixed_pic_rate_general_flag);
    assert!(hrd.sub_layers[0].fixed_pic_rate_within_cvs_flag);
    assert_eq!(hrd.sub_layers[0].elemental_duration_in_tc_minus1, Some(0));
    assert!(!hrd.sub_layers[1].fixed_pic_rate_general_flag);
    assert!(!hrd.sub_layers[1].fixed_pic_rate_within_cvs_flag);
    assert!(hrd.sub_layers[1].low_delay_hrd_flag);
    assert_eq!(hrd.sub_layers[1].cpb_cnt_minus1, 0);
    assert!(!hrd.sub_layers[2].fixed_pic_rate_general_flag);
    assert!(hrd.sub_layers[2].fixed_pic_rate_within_cvs_flag);
    assert_eq!(hrd.sub_layers[2].elemental_duration_in_tc_minus1, Some(7));
}

#[test]
fn a_cut_payload_is_refused() {
    let mut br = BitReader::new(&[]);
    assert_eq!(HrdParameters::parse(&mut br, true, 0, None).unwrap_err(), HrdError::Truncated);
    let mut br = BitReader::new(&[0xFF; 16]);
    assert_eq!(
        HrdParameters::parse(&mut br, true, 7, None).unwrap_err(),
        HrdError::InvalidMaxNumSubLayers { got: 7 }
    );
}

#[test]
fn a_refusal_leaves_the_reader_at_the_field_it_stopped_at() {
    // Three flags, then a divisor of which five bits are there.
    let cut = [0b1111_0110u8];
    let mut br = BitReader::new(&cut);
    assert_eq!(HrdParameters::parse(&mut br, true, 0, None).unwrap_err(), HrdError::Truncated);
    assert_eq!(br.u(5).unwrap(), 0b1_0110);
    assert!(br.is_empty());
    // A layer set out of range is read and then refused.
    let high = bits_to_bytes(&[&ue(2000), "1011"]);
    let mut br = BitReader::new(&high);
    assert!(VpsHrdEntry::parse(&mut br, 0, 0, None).is_err());
    assert_eq!(br.u(4).unwrap(), 0b1011);
    // Too many sub-layers are refused before anything is read.
    let mut br = BitReader::new(&high);
    assert!(HrdParameters::parse(&mut br, true, 7, None).is_err());
    assert_eq!(br.ue().unwrap(), 2000);
}
