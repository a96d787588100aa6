//! Bit-level writing, read back.
use hevc_engine::bitreader::{BitReader, BitReaderError};
use hevc_engine::bitwriter::{bit_width, BitWriter};

/// A field written one bit at a time.
fn reference(w: &mut BitWriter, value: u32, n: u8) {
    for i in (0..n).rev() {
        w.put_bit(((value >> i) & 1) as u8);
    }
}


#[test]
fn bits_pack_msb_first() {
    let mut w = BitWriter::new();
    w.put_bit(1);
    w.put_bits(0b0110, 4);
    w.put_bits(0b101, 3);
    assert_eq!(w.finish(), vec![0b1011_0101]);
}

#[test]
fn ue_matches_reader_for_first_values() {
    for v in 0..200u32 {
        let mut w = BitWriter::new();
        w.ue(v);
        w.align_zero();
        let bytes = w.finish();
        let mut r = BitReader::new(&bytes);
        assert_eq!(r.ue().unwrap(), v, "ue({v})");
    }
}

#[test]
fn se_matches_reader() {
    for v in -100..=100i32 {
        let mut w = BitWriter::new();
        w.se(v);
        w.align_zero();
        let bytes = w.finish();
        let mut r = BitReader::new(&bytes);
        assert_eq!(r.se().unwrap(), v, "se({v})");
    }
}

#[test]
fn u_fields_roundtrip() {
    let mut w = BitWriter::new();
    w.put_bits(0x2A, 6);
    w.put_bits(0x1FFFF, 17);
    w.put_bits(1, 1);
    w.align_zero();
    let bytes = w.finish();
    let mut r = BitReader::new(&bytes);
    assert_eq!(r.u(6).unwrap(), 0x2A);
    assert_eq!(r.u(17).unwrap(), 0x1FFFF);
    assert_eq!(r.u1().unwrap(), 1);
}

#[test]
fn trailing_bits_terminate_and_align() {
    let mut w = BitWriter::new();
    w.put_bits(0b101, 3);
    w.rbsp_trailing_bits();
    assert!(w.byte_aligned());
    assert_eq!(w.finish(), vec![0b1011_0000]);
}

#[test]
fn put_bits_matches_bit_at_a_time_at_every_width_and_offset() {
    for offset in 0..8u8 {
        for n in 0..=32u8 {
            for &value in &[0u32, 1, 0xA5A5_5A5A, 0xFFFF_FFFF, 0x8000_0001] {
                let mut widened = BitWriter::new();
                let mut reference_writer = BitWriter::new();
                widened.put_bits(0b0101_0101, offset);
                reference(&mut reference_writer, 0b0101_0101, offset);
                widened.put_bits(value, n);
                reference(&mut reference_writer, value, n);
                assert_eq!(
                    widened.bit_len(),
                    reference_writer.bit_len(),
                    "bit_len for value {value:#x} n {n} offset {offset}"
                );
                assert_eq!(
                    widened.byte_aligned(),
                    reference_writer.byte_aligned(),
                    "alignment for value {value:#x} n {n} offset {offset}"
                );
                assert_eq!(
                    widened.finish(),
                    reference_writer.finish(),
                    "bytes for value {value:#x} n {n} offset {offset}"
                );
            }
        }
    }
}

#[test]
fn ue_emits_the_reference_codeword_up_to_the_code_num_cap() {
    for v in [
        BitWriter::MAX_UE,
        BitWriter::MAX_UE - 1,
        1 << 31,
        (1 << 31) - 1,
        (1 << 16) - 2,
    ] {
        let code_num = u64::from(v) + 1;
        let bits = 64 - code_num.leading_zeros() as u8;
        let mut expected = BitWriter::new();
        for _ in 0..bits - 1 {
            expected.put_bit(0);
        }
        for i in (0..bits).rev() {
            expected.put_bit(((code_num >> i) & 1) as u8);
        }
        expected.align_zero();

        let mut w = BitWriter::new();
        w.ue(v);
        let bit_len = w.bit_len();
        w.align_zero();
        assert_eq!(bit_len, usize::from(2 * bits - 1), "ue({v}) length");
        let bytes = w.finish();
        assert_eq!(bytes, expected.finish(), "ue({v}) bits");

        let mut r = BitReader::new(&bytes);
        assert_eq!(r.ue().unwrap(), v, "ue({v}) roundtrip");
    }
}

#[test]
fn ue_cap_matches_the_reader() {
    let mut w = BitWriter::new();
    w.ue(BitWriter::MAX_UE);
    w.align_zero();
    let bytes = w.finish();
    let mut r = BitReader::new(&bytes);
    assert_eq!(r.ue().unwrap(), BitWriter::MAX_UE);

    let mut hand_rolled = BitWriter::new();
    for _ in 0..32 {
        hand_rolled.put_bit(0);
    }
    hand_rolled.put_bit(1);
    hand_rolled.put_bits(0, 32);
    hand_rolled.align_zero();
    let over_cap = hand_rolled.finish();
    let mut r = BitReader::new(&over_cap);
    assert_eq!(r.ue(), Err(BitReaderError::ExpGolombOverflow));
}

#[test]
fn se_roundtrips_its_extreme_values() {
    for v in [BitWriter::MIN_SE, BitWriter::MAX_SE, -1, 1] {
        let mut w = BitWriter::new();
        w.se(v);
        w.align_zero();
        let bytes = w.finish();
        let mut r = BitReader::new(&bytes);
        assert_eq!(r.se().unwrap(), v, "se({v})");
    }
}

#[test]
fn put_bytes_matches_per_byte_writes_aligned_and_unaligned() {
    let data: Vec<u8> = (0..64u32)
        .map(|i| (i.wrapping_mul(37) ^ 0x5A) as u8)
        .collect();
    for offset in 0..8u8 {
        let mut bulk = BitWriter::new();
        let mut per_byte = BitWriter::new();
        bulk.put_bits(0b1101_1011, offset);
        per_byte.put_bits(0b1101_1011, offset);
        bulk.put_bytes(&data);
        for &b in &data {
            per_byte.put_bits(u32::from(b), 8);
        }
        assert_eq!(
            bulk.bit_len(),
            per_byte.bit_len(),
            "bit_len at offset {offset}"
        );
        assert_eq!(bulk.finish(), per_byte.finish(), "bytes at offset {offset}");
    }
}

#[test]
fn put_bytes_reads_back_as_the_original_bytes() {
    let data: Vec<u8> = (0..16u8).map(|i| i.wrapping_mul(17)).collect();
    let mut w = BitWriter::new();
    w.put_bits(0b101, 3);
    w.align_zero();
    w.put_bytes(&data);
    assert!(w.byte_aligned());
    let bytes = w.finish();
    let mut r = BitReader::new(&bytes);
    assert_eq!(r.u(8).unwrap(), 0b1010_0000);
    for &b in &data {
        assert_eq!(r.u(8).unwrap(), u32::from(b));
    }
}

#[test]
fn align_zero_pads_with_zero_bits() {
    for used in 1..8u8 {
        let mut w = BitWriter::new();
        w.put_bits(u32::MAX, used);
        w.align_zero();
        assert!(w.byte_aligned());
        assert_eq!(w.bit_len(), 8);
        let expected = (0xFFu32 << (8 - used)) as u8;
        assert_eq!(w.finish(), vec![expected], "padding after {used} bits");
    }
}

#[test]
fn bit_len_tracks_partial_bytes() {
    let mut w = BitWriter::new();
    assert_eq!(w.bit_len(), 0);
    w.put_bit(0);
    assert_eq!(w.bit_len(), 1);
    w.put_bits(0, 7);
    assert_eq!(w.bit_len(), 8);
    assert!(w.byte_aligned());
    w.put_bits(0, 3);
    assert_eq!(w.bit_len(), 11);
}

#[test]
fn written_fields_read_back_and_then_end() {
    let mut w = BitWriter::new();
    w.ue(5);
    w.se(-3);
    w.put_bits(0x3, 2);
    w.align_zero();
    let bytes = w.finish();
    let mut r = BitReader::new(&bytes);
    assert_eq!(r.ue(), Ok(5));
    assert_eq!(r.se(), Ok(-3));
    assert_eq!(r.u(2), Ok(3));
    r.align();
    assert!(r.is_empty());
    assert_eq!(r.u1(), Err(BitReaderError::EndOfBuffer));
    assert_eq!(r.u(4), Err(BitReaderError::EndOfBuffer));
}

#[test]
fn as_bytes_shows_the_partial_byte() {
    let mut w = BitWriter::new();
    w.put_bits(0b110, 3);
    assert_eq!(w.as_bytes(), &[0b1100_0000]);
}

#[test]
fn bit_width_counts_binary_digits() {
    assert_eq!(bit_width(1), 1);
    assert_eq!(bit_width(2), 2);
    assert_eq!(bit_width(255), 8);
    assert_eq!(bit_width(256), 9);
    assert_eq!(bit_width(u32::MAX), 32);
}
