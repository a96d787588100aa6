//! NAL units: escaping, framing, and walking a stream.
use hevc_engine::nal::{
    annexb, collect_nal_units, escape_rbsp, nal_unit, strip_emulation_prevention, NalError, NalHeader,
};


#[test]
fn escape_inserts_before_low_bytes() {
    assert_eq!(
        escape_rbsp(&[0, 0, 0, 0, 1]),
        vec![0, 0, 3, 0, 0, 3, 1],
        "double escape over a zero run"
    );
    assert_eq!(escape_rbsp(&[0, 0, 4]), vec![0, 0, 4]);
    assert_eq!(escape_rbsp(&[0, 0, 2]), vec![0, 0, 3, 2]);
}

#[test]
fn escape_roundtrips_through_reader_strip() {
    let payloads: [&[u8]; 5] = [
        &[],
        &[0, 0, 0, 0, 0, 0],
        &[0, 0, 1, 0, 0, 2, 0, 0, 3],
        &[0xFF, 0, 0, 0, 0xFF],
        &[0, 0],
    ];
    for p in payloads {
        let escaped = escape_rbsp(p);
        assert_eq!(strip_emulation_prevention(&escaped), p, "{p:02x?}");
        assert!(!escaped.windows(3).any(|w| w == [0, 0, 1] || w == [0, 0, 0]));
    }
}

#[test]
fn nal_unit_header_roundtrips_through_walker() {
    let rbsp = vec![0xAA, 0x00, 0x00, 0x00, 0xBB];
    let unit = nal_unit(19, 0, 0, &rbsp);
    let stream = annexb(&[unit]);
    let units = collect_nal_units(&stream).expect("walk");
    assert_eq!(units.len(), 1);
    assert_eq!(units[0].header.nal_unit_type, 19);
    assert_eq!(units[0].header.nuh_layer_id, 0);
    assert_eq!(units[0].header.temporal_id, 0);
    assert_eq!(units[0].rbsp, rbsp);
}

#[test]
fn annexb_frames_multiple_units() {
    let a = nal_unit(32, 0, 0, &[0x01]);
    let b = nal_unit(33, 0, 0, &[0x02]);
    let stream = annexb(&[a, b]);
    let units = collect_nal_units(&stream).expect("walk");
    assert_eq!(units.len(), 2);
    assert_eq!(units[0].header.nal_unit_type, 32);
    assert_eq!(units[1].header.nal_unit_type, 33);
}

#[test]
fn a_bad_header_is_refused() {
    assert_eq!(NalHeader::parse(&[0x40]), Err(NalError::Truncated));
    assert_eq!(NalHeader::parse(&[0xC0, 0x01]), Err(NalError::ForbiddenBitSet));
    assert_eq!(NalHeader::parse(&[0x40, 0x00]), Err(NalError::ZeroTemporalIdPlus1));
}

#[test]
fn a_header_keeps_its_three_fields() {
    let unit = nal_unit(21, 5, 3, &[0x77]);
    let header = NalHeader::parse(&unit).unwrap();
    assert_eq!(header.nal_unit_type, 21);
    assert_eq!(header.nuh_layer_id, 5);
    assert_eq!(header.temporal_id, 3);
}
