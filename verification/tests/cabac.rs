//! Arithmetic coding, decoded back.
use hevc_engine::bitreader::BitReader;
use hevc_engine::bitwriter::BitWriter;
use hevc_engine::cabac::ContextModel;
use hevc_engine::cabac_decoder::{CabacEngine, CabacError};
use hevc_engine::cabac_encoder::CabacEncoder;
use hevc_engine::bins::{code_bins, Bin, SliceContexts, CTX_SIG};


fn roundtrip_decisions(init_value: u8, qp: i32, bins: &[u8]) {
    let mut w = BitWriter::new();
    let mut enc = CabacEncoder::new();
    let mut ectx = ContextModel::init(init_value, qp);
    for &b in bins {
        enc.encode_decision(&mut w, &mut ectx, b);
    }
    enc.encode_terminate(&mut w, 1);
    w.align_zero();
    let bytes = w.finish();

    let mut dec = CabacEngine::new(BitReader::new(&bytes)).expect("init");
    let mut dctx = ContextModel::init(init_value, qp);
    for (i, &b) in bins.iter().enumerate() {
        assert_eq!(dec.decode_decision(&mut dctx).unwrap(), b, "bin {i}");
    }
    assert_eq!(dec.decode_terminate().unwrap(), 1, "terminator");
    assert_eq!(ectx, dctx, "context state after roundtrip");
}

#[test]
fn decision_roundtrip_simple_patterns() {
    roundtrip_decisions(154, 26, &[0]);
    roundtrip_decisions(154, 26, &[1]);
    roundtrip_decisions(154, 26, &[1, 0, 1, 1, 0, 0, 1, 0]);
    roundtrip_decisions(200, 37, &[1; 64]);
    roundtrip_decisions(63, 0, &[0; 64]);
}

#[test]
fn decision_roundtrip_pseudorandom_long() {
    let mut x = 0x1234_5678u32;
    let mut bins = Vec::new();
    for _ in 0..4096 {
        x = x.wrapping_mul(1_103_515_245).wrapping_add(12_345);
        bins.push(((x >> 16) & 1) as u8);
    }
    for (iv, qp) in [(154u8, 26), (79, 12), (227, 51), (16, 0)] {
        roundtrip_decisions(iv, qp, &bins);
    }
}

#[test]
fn bypass_roundtrip() {
    let mut w = BitWriter::new();
    let mut enc = CabacEncoder::new();
    let pattern = 0xDEAD_BEEFu32;
    enc.encode_bypass_bits(&mut w, pattern, 32);
    enc.encode_terminate(&mut w, 1);
    w.align_zero();
    let bytes = w.finish();

    let mut dec = CabacEngine::new(BitReader::new(&bytes)).expect("init");
    assert_eq!(dec.decode_bypass_bits(32).unwrap(), pattern);
    assert_eq!(dec.decode_terminate().unwrap(), 1);
}

#[test]
fn bypass_run_matches_bin_at_a_time() {
    let primers: [&[u8]; 6] = [
        &[],
        &[1],
        &[0, 1, 1, 0, 1],
        &[1; 17],
        &[0; 17],
        &[1, 1, 0, 0, 1, 0, 1, 1, 1, 0, 0, 0, 1],
    ];
    let mut x = 0x9E37_79B9u32;
    for primer in primers {
        for n in 1..=32u8 {
            let mask = if n == 32 { u32::MAX } else { (1u32 << n) - 1 };
            let mut values = vec![0u32, mask, mask >> 1, 1, mask ^ 1];
            for _ in 0..16 {
                x = x.wrapping_mul(1_103_515_245).wrapping_add(12_345);
                values.push(x & mask);
            }
            for value in values {
                let (run_bytes, run_enc) = {
                    let mut w = BitWriter::new();
                    let mut enc = CabacEncoder::new();
                    let mut ctx = ContextModel::init(154, 26);
                    for &b in primer {
                        enc.encode_decision(&mut w, &mut ctx, b);
                    }
                    enc.encode_bypass_run(&mut w, value, n);
                    (w, enc)
                };
                let (bin_bytes, bin_enc) = {
                    let mut w = BitWriter::new();
                    let mut enc = CabacEncoder::new();
                    let mut ctx = ContextModel::init(154, 26);
                    for &b in primer {
                        enc.encode_decision(&mut w, &mut ctx, b);
                    }
                    for i in (0..n).rev() {
                        enc.encode_bypass(&mut w, ((value >> i) & 1) as u8);
                    }
                    (w, enc)
                };
                let label = format!("primer {} n {n} value {value:#x}", primer.len());
                assert_eq!(run_bytes.bit_len(), bin_bytes.bit_len(), "bit length, {label}");
                assert_eq!(run_bytes.finish(), bin_bytes.finish(), "bytes, {label}");
                assert_eq!(run_enc.low, bin_enc.low, "ivlLow, {label}");
                assert_eq!(run_enc.range, bin_enc.range, "ivlCurrRange, {label}");
                assert_eq!(
                    run_enc.outstanding, bin_enc.outstanding,
                    "bitsOutstanding, {label}"
                );
                assert_eq!(run_enc.first_bit, bin_enc.first_bit, "firstBitFlag, {label}");
            }
        }
    }
}

#[test]
fn long_bypass_runs_roundtrip() {
    for n in [17u8, 24, 31, 32] {
        let mask = if n == 32 { u32::MAX } else { (1u32 << n) - 1 };
        let value = 0xC3A5_5A3Cu32 & mask;
        let mut w = BitWriter::new();
        let mut enc = CabacEncoder::new();
        enc.encode_bypass_run(&mut w, value, n);
        enc.encode_terminate(&mut w, 1);
        w.align_zero();
        let bytes = w.finish();

        let mut dec = CabacEngine::new(BitReader::new(&bytes)).expect("init");
        assert_eq!(dec.decode_bypass_bits(n).unwrap(), value, "n {n}");
        assert_eq!(dec.decode_terminate().unwrap(), 1);
    }
}

#[test]
fn mixed_decision_bypass_terminate_roundtrip() {
    let mut w = BitWriter::new();
    let mut enc = CabacEncoder::new();
    let mut ectx = [ContextModel::init(154, 26), ContextModel::init(31, 40)];
    for round in 0..50u32 {
        enc.encode_decision(&mut w, &mut ectx[0], (round & 1) as u8);
        enc.encode_bypass(&mut w, ((round >> 1) & 1) as u8);
        enc.encode_decision(&mut w, &mut ectx[1], ((round >> 2) & 1) as u8);
        enc.encode_terminate(&mut w, 0);
    }
    enc.encode_terminate(&mut w, 1);
    w.align_zero();
    let bytes = w.finish();

    let mut dec = CabacEngine::new(BitReader::new(&bytes)).expect("init");
    let mut dctx = [ContextModel::init(154, 26), ContextModel::init(31, 40)];
    for round in 0..50u32 {
        assert_eq!(
            dec.decode_decision(&mut dctx[0]).unwrap(),
            (round & 1) as u8
        );
        assert_eq!(dec.decode_bypass().unwrap(), ((round >> 1) & 1) as u8);
        assert_eq!(
            dec.decode_decision(&mut dctx[1]).unwrap(),
            ((round >> 2) & 1) as u8
        );
        assert_eq!(dec.decode_terminate().unwrap(), 0, "round {round}");
    }
    assert_eq!(dec.decode_terminate().unwrap(), 1);
    assert_eq!(ectx[0], dctx[0]);
    assert_eq!(ectx[1], dctx[1]);
}

#[test]
fn pcm_style_flush_align_raw_reinit_roundtrip() {
    let raw: [u8; 5] = [0x11, 0x22, 0x33, 0xFE, 0x00];

    let mut w = BitWriter::new();
    let mut enc = CabacEncoder::new();
    let mut ectx = ContextModel::init(154, 26);
    enc.encode_decision(&mut w, &mut ectx, 1);
    enc.encode_decision(&mut w, &mut ectx, 0);
    enc.encode_terminate(&mut w, 1);
    w.align_zero();
    for &b in &raw {
        w.put_bits(u32::from(b), 8);
    }
    enc.reinit();
    enc.encode_decision(&mut w, &mut ectx, 1);
    enc.encode_terminate(&mut w, 1);
    w.align_zero();
    let bytes = w.finish();

    let mut dec = CabacEngine::new(BitReader::new(&bytes)).expect("init");
    let mut dctx = ContextModel::init(154, 26);
    assert_eq!(dec.decode_decision(&mut dctx).unwrap(), 1);
    assert_eq!(dec.decode_decision(&mut dctx).unwrap(), 0);
    assert_eq!(dec.decode_terminate().unwrap(), 1);
    dec.pcm_align().unwrap();
    for &b in &raw {
        assert_eq!(dec.read_raw_bits(8).unwrap(), u32::from(b));
    }
    dec.init_engine().expect("reinit");
    assert_eq!(dec.decode_decision(&mut dctx).unwrap(), 1);
    assert_eq!(dec.decode_terminate().unwrap(), 1);
}

#[test]
fn a_bin_list_decodes_back() {
    let bins = vec![
        Bin::Decision { ctx: CTX_SIG, bin: 1 },
        Bin::Bypass { bit: true },
        Bin::Terminate { end: false },
        Bin::Decision { ctx: CTX_SIG, bin: 0 },
        Bin::Bypass { bit: false },
        Bin::Decision { ctx: CTX_SIG + 1, bin: 1 },
        Bin::Terminate { end: true },
    ];
    let mut w = BitWriter::new();
    let mut enc = CabacEncoder::new();
    let mut ctxs = SliceContexts::init(26);
    code_bins(&mut w, &mut enc, &mut ctxs, &bins);
    w.align_zero();
    let bytes = w.finish();

    let mut dec = CabacEngine::new(BitReader::new(&bytes)).unwrap();
    let mut back = SliceContexts::init(26);
    for bin in &bins {
        match *bin {
            Bin::Decision { ctx, bin } => {
                assert_eq!(dec.decode_decision(&mut back.models[ctx]), Ok(bin));
            }
            Bin::Bypass { bit } => assert_eq!(dec.decode_bypass(), Ok(u8::from(bit))),
            Bin::Terminate { end } => assert_eq!(dec.decode_terminate(), Ok(u8::from(end))),
        }
    }
    assert_eq!(back, ctxs);
}

#[test]
fn a_short_stream_is_refused() {
    assert!(matches!(CabacEngine::new(BitReader::new(&[0x00])), Err(CabacError::EndOfBuffer)));
}

#[test]
fn a_forbidden_offset_is_refused() {
    assert!(matches!(CabacEngine::new(BitReader::new(&[0xFF, 0xFF])), Err(CabacError::ForbiddenOffset)));
}
