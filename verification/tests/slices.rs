//! Slices: different decisions never share their coded data.
use hevc_engine::bins::Bin;
use hevc_engine::decision::{run_decision_pass, ModeSearch};
use hevc_engine::lossy::{encode_idr_residual_au, write_idr_residual_slice, LoopFilter, SaoQuestion};
use hevc_engine::nal::collect_nal_units;
use hevc_engine::pcm::{
    encode_idr_pcm_au, encode_idr_pcm_au_opts, encode_idr_pcm_au_segmented, PcmAuOptions, PcmEncodeError,
};
use hevc_engine::picture::SourcePlanes;
use hevc_engine::residual::{write_residual_coding, ResidualWriteParams};
use hevc_engine::sao::{ResolvedSao, ResolvedSaoComponent};
use hevc_engine::scan::ScanIdx;
use hevc_engine::slice::{code_coding_unit, code_sao, code_slice_data, CtbRecord};

fn splits(a: &Bin, b: &Bin) -> bool {
    match (a, b) {
        (Bin::Decision { ctx: c, bin: u }, Bin::Decision { ctx: d, bin: v }) => c == d && u != v,
        (Bin::Bypass { bit: u }, Bin::Bypass { bit: v }) => u != v,
        (Bin::Terminate { end: u }, Bin::Terminate { end: v }) => u != v,
        _ => false,
    }
}

/// The bins agree up to one that both code alike with different values.
fn forks(a: &[Bin], b: &[Bin]) -> bool {
    a.iter().zip(b).find(|(x, y)| x != y).is_some_and(|(x, y)| splits(x, y))
}

fn residual_bins(params: &ResidualWriteParams, levels: &[i32]) -> Vec<Bin> {
    let mut bins = Vec::new();
    write_residual_coding(&mut bins, params, levels);
    bins
}

#[test]
fn blocks_that_differ_fork() {
    for scan_idx in [ScanIdx::Diagonal, ScanIdx::Horizontal, ScanIdx::Vertical] {
        let params = ResidualWriteParams { log2_trafo_size: 3, is_chroma: false, scan_idx };
        let mut levels = vec![0i32; 64];
        for i in 0..64usize {
            levels[i] = ((i * 7 + 3) % 11) as i32 - 5;
        }
        let bins = residual_bins(&params, &levels);
        for i in 0..64 {
            for change in [-40i32, -1, 1, 2, 5000] {
                let mut other = levels.clone();
                other[i] += change;
                assert!(forks(&bins, &residual_bins(&params, &other)), "{scan_idx:?} {i} by {change}");
            }
        }
    }
}

fn record() -> CtbRecord {
    let mut luma = vec![0i32; 256];
    luma[0] = 4;
    luma[17] = -1;
    CtbRecord { mode: 7, candidates: [0, 1, 26], chroma_mode: 4, luma, cb: vec![0; 64], cr: vec![0; 64] }
}

#[test]
fn units_that_differ_fork() {
    let bins = |r: &CtbRecord| {
        let mut sink = Vec::new();
        code_coding_unit(&mut sink, r);
        sink
    };
    let base = record();
    let mut changed = vec![base.clone(); 7];
    changed[0].mode = 26;
    changed[1].mode = 8;
    changed[2].chroma_mode = 0;
    changed[3].luma[200] = 1;
    changed[4].cb[63] = 1;
    changed[5].cr[0] = -1;
    changed[6].luma = vec![0; 256];
    for (i, r) in changed.iter().enumerate() {
        assert!(forks(&bins(&base), &bins(r)), "change {i}");
    }
}

#[test]
fn offsets_that_differ_fork() {
    let off = ResolvedSao::off();
    let band = |first: u8, offsets: [i32; 5]| ResolvedSaoComponent {
        sao_type_idx: 1,
        offset_val: offsets,
        band_position: first,
        eo_class: 0,
    };
    let edge = |class: u8, offsets: [i32; 5]| ResolvedSaoComponent {
        sao_type_idx: 2,
        offset_val: offsets,
        band_position: 0,
        eo_class: class,
    };
    let none = ResolvedSaoComponent::off();
    let cells = [
        off,
        ResolvedSao { components: [band(3, [0, 1, -2, 7, 0]), none, none] },
        ResolvedSao { components: [band(3, [0, -1, -2, 7, 0]), none, none] },
        ResolvedSao { components: [band(4, [0, 1, -2, 7, 0]), none, none] },
        ResolvedSao { components: [edge(0, [0, 1, 0, 0, -7]), none, none] },
        ResolvedSao { components: [edge(3, [0, 1, 0, 0, -7]), none, none] },
        ResolvedSao { components: [none, edge(1, [0, 1, 0, 0, 0]), edge(1, [0, 0, 2, 0, 0])] },
        ResolvedSao { components: [none, edge(1, [0, 1, 0, 0, 0]), edge(1, [0, 0, 3, 0, 0])] },
    ];
    let bins = |c: ResolvedSao| {
        let grid = vec![off, c];
        let mut sink = Vec::new();
        code_sao(&mut sink, &grid, 1, 2);
        sink
    };
    for (i, &a) in cells.iter().enumerate() {
        for (j, &b) in cells.iter().enumerate() {
            if i == j {
                assert_eq!(bins(a), bins(b));
            } else {
                assert!(forks(&bins(a), &bins(b)), "{i} and {j}");
            }
        }
    }
    assert_eq!(bins(off).len(), 1, "a merge is one flag");
}

#[test]
fn slices_that_differ_have_different_data() {
    let base = vec![record(), record()];
    let data = code_slice_data(&base, None, 26, 2);
    let mut other = base.clone();
    other[1].luma[255] = 1;
    assert_ne!(code_slice_data(&other, None, 26, 2), data);
    assert_eq!(code_slice_data(&base, None, 26, 2), data);
    let off = vec![ResolvedSao::off(); 2];
    assert_ne!(code_slice_data(&base, Some(&off), 26, 2), data);
}

fn picture(width: usize, height: usize) -> (Vec<u8>, Vec<u8>, Vec<u8>) {
    let y = (0..width * height).map(|i| ((i % width) * 5 + (i / width) * 3 + (i * i) % 7) as u8).collect();
    let cb = (0..width * height / 4).map(|i| (100 + (i * 3) % 31) as u8).collect();
    let cr = (0..width * height / 4).map(|i| (140 + (i * 5) % 23) as u8).collect();
    (y, cb, cr)
}

#[test]
fn a_flat_grey_picture_needs_no_residual_and_is_rebuilt_exactly() {
    let (y, cb, cr) = (vec![128u8; 32 * 16], vec![128u8; 128], vec![128u8; 128]);
    let src = SourcePlanes { y: &y, cb: &cb, cr: &cr, width: 32, height: 16 };
    let (records, recon) = run_decision_pass(&src, 30, ModeSearch::Rdo);
    assert_eq!(records.len(), 2);
    for r in &records {
        assert!(r.luma.iter().chain(&r.cb).chain(&r.cr).all(|&v| v == 0));
    }
    assert_eq!((recon.y, recon.cb, recon.cr), (y, cb, cr));
}

#[test]
fn each_record_is_signalled_against_the_one_before() {
    let (y, cb, cr) = picture(48, 32);
    let src = SourcePlanes { y: &y, cb: &cb, cr: &cr, width: 48, height: 32 };
    let (records, _) = run_decision_pass(&src, 22, ModeSearch::RateDistortion);
    assert_eq!(records.len(), 6);
    for (i, r) in records.iter().enumerate() {
        let left = if i % 3 > 0 { records[i - 1].mode } else { 1 };
        assert_eq!(r.candidates, hevc_engine::modes::intra_luma_cand_mode_list(left, 1));
    }
}

#[test]
fn a_constant_judge_decides_where_the_bounds_do_not() {
    let (y, cb, cr) = picture(48, 32);
    let src = SourcePlanes { y: &y, cb: &cb, cr: &cr, width: 48, height: 32 };
    let yes = |_: SaoQuestion| true;
    let no = |_: SaoQuestion| false;
    for qp in [12, 27, 40] {
        let with = write_idr_residual_slice(&src, qp, ModeSearch::Rdo, LoopFilter::DeblockSao, yes);
        let without = write_idr_residual_slice(&src, qp, ModeSearch::Rdo, LoopFilter::DeblockSao, no);
        let plain = write_idr_residual_slice(&src, qp, ModeSearch::Rdo, LoopFilter::Deblock, yes);
        assert_eq!(with.2, without.2);
        if with.0 == without.0 {
            assert_eq!(with.1, without.1);
        } else {
            assert_eq!(without.1, plain.1);
        }
    }
}

#[test]
fn the_access_unit_walks_back_into_its_four_units() {
    let (y, cb, cr) = picture(32, 32);
    let (au, _) = encode_idr_residual_au(&y, &cb, &cr, 32, 32, 30, |_: SaoQuestion| false).unwrap();
    let kinds: Vec<u8> = collect_nal_units(&au).unwrap().iter().map(|u| u.header.nal_unit_type).collect();
    assert_eq!(kinds, vec![32, 33, 34, 20]);
}

#[test]
fn one_sample_is_enough_to_tell_two_pcm_streams_apart() {
    let (y, cb, cr) = picture(32, 32);
    for tiles in [None, Some((2, 2))] {
        let opts = PcmAuOptions { tiles, ..PcmAuOptions::default() };
        let base = encode_idr_pcm_au_opts(&y, &cb, &cr, 32, 32, opts.clone()).unwrap();
        for at in [0usize, 511, 1023] {
            let mut other = y.clone();
            other[at] ^= 1;
            assert_ne!(encode_idr_pcm_au_opts(&other, &cb, &cr, 32, 32, opts.clone()).unwrap(), base);
        }
        let mut other = cr.clone();
        other[255] ^= 128;
        assert_ne!(encode_idr_pcm_au_opts(&y, &cb, &other, 32, 32, opts).unwrap(), base);
    }
}

#[test]
fn a_plane_of_the_wrong_size_is_named() {
    let (y, cb, cr) = picture(32, 32);
    assert_eq!(
        encode_idr_pcm_au(&y[1..], &cb, &cr, 32, 32),
        Err(PcmEncodeError::PlaneSize { plane: "y", expected: 1024, got: 1023 })
    );
    assert_eq!(
        encode_idr_pcm_au(&y, &cb, &cr[..5], 32, 32),
        Err(PcmEncodeError::PlaneSize { plane: "cr", expected: 256, got: 5 })
    );
    assert_eq!(
        encode_idr_residual_au(&y, &cb[..9], &cr, 32, 32, 30, |_: SaoQuestion| false).unwrap_err(),
        PcmEncodeError::PlaneSize { plane: "cb", expected: 256, got: 9 }
    );
}

#[test]
fn the_number_of_segments_is_ignored_beside_independent_slices() {
    let (y, cb, cr) = picture(32, 32);
    let encode = |segments: usize| {
        let opts = PcmAuOptions { segments, independent_slices: vec![(0, true), (3, false)], ..PcmAuOptions::default() };
        encode_idr_pcm_au_opts(&y, &cb, &cr, 32, 32, opts)
    };
    let one = encode(1).unwrap();
    for segments in [0usize, 2, 4, 5, 1000] {
        assert_eq!(encode(segments).as_ref(), Ok(&one), "{segments} segments");
    }
    let bare = PcmAuOptions { segments: 0, ..PcmAuOptions::default() };
    assert_eq!(
        encode_idr_pcm_au_opts(&y, &cb, &cr, 32, 32, bare),
        Err(PcmEncodeError::BadDimensions { width: 32, height: 32 })
    );
}

#[test]
fn every_segment_count_up_to_the_block_count_splits_the_picture() {
    for (width, height) in [(32usize, 32usize), (80, 16), (48, 48)] {
        let (y, cb, cr) = picture(width, height);
        let total = (width / 16) * (height / 16);
        for segments in 1..=total {
            let au = encode_idr_pcm_au_segmented(&y, &cb, &cr, width, height, segments).unwrap();
            let kinds: Vec<u8> = collect_nal_units(&au).unwrap().iter().map(|u| u.header.nal_unit_type).collect();
            assert_eq!(kinds[..3], [32, 33, 34]);
            assert_eq!(kinds[3..], vec![20u8; segments][..], "{width}x{height} in {segments}");
        }
        assert!(encode_idr_pcm_au_segmented(&y, &cb, &cr, width, height, total + 1).is_err());
    }
}

#[test]
fn segments_are_runs_of_one_length_where_every_one_has_a_block() {
    let starts = |width: usize, height: usize, segments: usize, bits: u32| {
        let (y, cb, cr) = picture(width, height);
        let au = encode_idr_pcm_au_segmented(&y, &cb, &cr, width, height, segments).unwrap();
        let units = collect_nal_units(&au).unwrap();
        // Behind the first, a header opens with 0011 and the address.
        units[4..].iter().map(|u| (u.rbsp[0] >> (4 - bits)) & ((1u8 << bits) - 1)).collect::<Vec<u8>>()
    };
    assert_eq!(starts(80, 16, 2, 3), [3]);
    assert_eq!(starts(80, 16, 3, 3), [2, 4]);
    assert_eq!(starts(48, 48, 2, 4), [5]);
    // Runs of two would leave the third segment nothing, and so would runs of three the
    // fourth.
    assert_eq!(starts(32, 32, 3, 2), [1, 2]);
    assert_eq!(starts(48, 48, 4, 4), [2, 4, 6]);
}
