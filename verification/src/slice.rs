//! Slice data of a residual-coded intra picture: one coding unit per coding tree
//! block, each optionally behind the sample-adaptive offset of its block.
use vstd::prelude::*;
use crate::arith::abs;
use crate::bins::{
    appended, bypass_bins, code_bins, decision_bin, encode_bins, in_bank, initial_contexts, lemma_append,
    lemma_append_none, lemma_appended, lemma_bypass_concat, put_bypass, put_bypass_bits, put_decision, put_ones, Bin,
    SliceContexts, CONTEXTS, CTX_CBF_CHROMA, CTX_CBF_LUMA, CTX_PART_MODE, CTX_SAO_MERGE, CTX_SAO_TYPE,
};
use crate::bits::{aligned, be_bits, pack};
use crate::bitwriter::BitWriter;
use crate::cabac_encoder::{repeated, CabacEncoder, Coder};
use crate::modes::{
    chroma_mode_bins, is_candidates, luma_mode_bins, write_chroma_mode, write_luma_intra_mode, CHROMA_MODE_DERIVED,
};
use crate::residual::{has_coded_levels, has_levels, residual_bins, write_residual_coding, ResidualWriteParams};
use crate::sao::{cells, ResolvedSao, ResolvedSaoComponent, SaoCell, SaoModel, SAO_OFFSET_MAX};
use crate::scan::{area, ScanIdx};

verus! {

/// One coding unit's committed decisions.
#[derive(Clone, Debug, PartialEq, Eq)]
pub struct CtbRecord {
    /// The luma mode.
    pub mode: u8,
    /// The most probable modes that it is signalled against.
    pub candidates: [u8; 3],
    /// The signalled chroma mode.
    pub chroma_mode: u8,
    /// The quantized levels of the three transform blocks.
    pub luma: Vec<i32>,
    pub cb: Vec<i32>,
    pub cr: Vec<i32>,
}

/// The mathematical value of a record.
pub struct Record {
    pub mode: u8,
    pub candidates: Seq<u8>,
    pub chroma_mode: u8,
    pub luma: Seq<i32>,
    pub cb: Seq<i32>,
    pub cr: Seq<i32>,
}

impl View for CtbRecord {
    type V = Record;

    open spec fn view(&self) -> Record {
        Record {
            mode: self.mode,
            candidates: self.candidates@,
            chroma_mode: self.chroma_mode,
            luma: self.luma@,
            cb: self.cb@,
            cr: self.cr@,
        }
    }
}

impl Record {
    /// The modes exist and the blocks are 16x16 and 8x8.
    pub open spec fn wf(self) -> bool {
        &&& self.mode <= 34
        &&& is_candidates(self.candidates)
        &&& self.chroma_mode <= CHROMA_MODE_DERIVED
        &&& self.luma.len() == area(4)
        &&& self.cb.len() == area(3)
        &&& self.cr.len() == area(3)
    }
}

/// The values of many records.
pub open spec fn records_of(r: Seq<CtbRecord>) -> Seq<Record> {
    Seq::new(r.len(), |i: int| r[i]@)
}

/// How the luma block is coded.
pub open spec fn luma_params() -> ResidualWriteParams {
    ResidualWriteParams { log2_trafo_size: 4, is_chroma: false, scan_idx: ScanIdx::Diagonal }
}

/// How the chroma blocks are coded.
pub open spec fn chroma_params() -> ResidualWriteParams {
    ResidualWriteParams { log2_trafo_size: 3, is_chroma: true, scan_idx: ScanIdx::Diagonal }
}

/// The residual of a block, where it has one.
pub open spec fn coded_bins(params: ResidualWriteParams, levels: Seq<i32>) -> Seq<Bin> {
    if has_levels(levels) {
        residual_bins(params, levels)
    } else {
        Seq::empty()
    }
}

/// `part_mode` and `pcm_flag` of a unit that is not PCM.
pub open spec fn unit_head() -> Seq<Bin> {
    seq![decision_bin(CTX_PART_MODE as int, 0, true), Bin::Terminate { end: false }]
}

/// The coded block flags of a unit: Cb, Cr, then luma.
pub open spec fn flag_bins(r: Record) -> Seq<Bin> {
    seq![decision_bin(CTX_CBF_CHROMA as int, 0, has_levels(r.cb))] + (seq![
        decision_bin(CTX_CBF_CHROMA as int, 0, has_levels(r.cr)),
    ] + seq![decision_bin(CTX_CBF_LUMA as int, 1, has_levels(r.luma))])
}

/// The bins of one coding unit.
#[verifier::opaque]
pub open spec fn unit_bins(r: Record) -> Seq<Bin> {
    unit_head() + (luma_mode_bins(r.mode, r.candidates) + (chroma_mode_bins(r.chroma_mode) + (flag_bins(r) + (coded_bins(
        luma_params(),
        r.luma,
    ) + (coded_bins(chroma_params(), r.cb) + coded_bins(chroma_params(), r.cr))))))
}

fn write_flags(sink: &mut Vec<Bin>, record: &CtbRecord)
    ensures
        appended(old(sink)@, final(sink)@, flag_bins(record@)),
{
    let ghost s0 = sink@;
    let cb: bool = has_coded_levels(record.cb.as_slice());
    let cr: bool = has_coded_levels(record.cr.as_slice());
    let luma: bool = has_coded_levels(record.luma.as_slice());
    put_decision(sink, CTX_CBF_CHROMA, 0, cb);
    let ghost s1 = sink@;
    put_decision(sink, CTX_CBF_CHROMA, 0, cr);
    let ghost s2 = sink@;
    put_decision(sink, CTX_CBF_LUMA, 1, luma);
    proof {
        let a = seq![decision_bin(CTX_CBF_CHROMA as int, 0, cb)];
        let b = seq![decision_bin(CTX_CBF_CHROMA as int, 0, cr)];
        let c = seq![decision_bin(CTX_CBF_LUMA as int, 1, luma)];
        lemma_append(s1, s2, sink@, b, c, b + c);
        lemma_append(s0, s1, sink@, a, b + c, flag_bins(record@));
    }
}

fn write_coded(sink: &mut Vec<Bin>, params: &ResidualWriteParams, levels: &[i32])
    requires
        params.wf(),
        levels@.len() == area(params.log2_trafo_size as int),
    ensures
        appended(old(sink)@, final(sink)@, coded_bins(*params, levels@)),
{
    if has_coded_levels(levels) {
        write_residual_coding(sink, params, levels);
    } else {
        proof {
            lemma_append_none(sink@, coded_bins(*params, levels@));
        }
    }
}

fn write_head(sink: &mut Vec<Bin>)
    ensures
        appended(old(sink)@, final(sink)@, unit_head()),
{
    let ghost s0 = sink@;
    put_decision(sink, CTX_PART_MODE, 0, true);
    let ghost s1 = sink@;
    put_terminate(sink, false);
    proof {
        let a = seq![decision_bin(CTX_PART_MODE as int, 0, true)];
        let b = seq![Bin::Terminate { end: false }];
        assert(a + b =~= unit_head());
        lemma_append(s0, s1, sink@, a, b, unit_head());
    }
}

/// Appends one terminating bin.
fn put_terminate(sink: &mut Vec<Bin>, end: bool)
    ensures
        appended(old(sink)@, final(sink)@, seq![Bin::Terminate { end }]),
{
    sink.push(Bin::Terminate { end });
    proof {
        reveal(appended);
        assert(sink@ =~= old(sink)@ + seq![Bin::Terminate { end }]);
    }
}

/// Appends one coding unit from its recorded decisions.
pub fn code_coding_unit(sink: &mut Vec<Bin>, record: &CtbRecord)
    requires
        record@.wf(),
    ensures
        appended(old(sink)@, final(sink)@, unit_bins(record@)),
{
    let ghost s0 = sink@;
    write_head(sink);
    let ghost s1 = sink@;
    write_luma_intra_mode(sink, record.mode, record.candidates);
    let ghost s2 = sink@;
    write_chroma_mode(sink, record.chroma_mode);
    let ghost s3 = sink@;
    write_flags(sink, record);
    let ghost s4 = sink@;
    let luma: ResidualWriteParams = ResidualWriteParams {
        log2_trafo_size: 4,
        is_chroma: false,
        scan_idx: ScanIdx::Diagonal,
    };
    let chroma: ResidualWriteParams = ResidualWriteParams {
        log2_trafo_size: 3,
        is_chroma: true,
        scan_idx: ScanIdx::Diagonal,
    };
    write_coded(sink, &luma, record.luma.as_slice());
    let ghost s5 = sink@;
    write_coded(sink, &chroma, record.cb.as_slice());
    let ghost s6 = sink@;
    write_coded(sink, &chroma, record.cr.as_slice());
    proof {
        reveal(unit_bins);
        let r = record@;
        let g = coded_bins(chroma_params(), r.cr);
        let f = coded_bins(chroma_params(), r.cb);
        let e = coded_bins(luma_params(), r.luma);
        let d = flag_bins(r);
        let c = chroma_mode_bins(r.chroma_mode);
        let b = luma_mode_bins(r.mode, r.candidates);
        lemma_append(s5, s6, sink@, f, g, f + g);
        lemma_append(s4, s5, sink@, e, f + g, e + (f + g));
        lemma_append(s3, s4, sink@, d, e + (f + g), d + (e + (f + g)));
        lemma_append(s2, s3, sink@, c, d + (e + (f + g)), c + (d + (e + (f + g))));
        lemma_append(s1, s2, sink@, b, c + (d + (e + (f + g))), b + (c + (d + (e + (f + g)))));
        lemma_append(s0, s1, sink@, unit_head(), b + (c + (d + (e + (f + g)))), unit_bins(r));
    }
}

/// One offset magnitude: truncated unary of at most seven.
pub open spec fn magnitude_bits(o: int) -> Seq<bool> {
    if abs(o) < SAO_OFFSET_MAX {
        repeated(true, abs(o) as nat) + seq![false]
    } else {
        repeated(true, SAO_OFFSET_MAX as nat)
    }
}

/// The sign of an offset that is not zero.
pub open spec fn sign_bits(o: int) -> Seq<bool> {
    if o != 0 {
        seq![o < 0]
    } else {
        Seq::empty()
    }
}

/// The four magnitudes of a component.
pub open spec fn magnitudes(o: Seq<i32>) -> Seq<bool> {
    magnitude_bits(o[1] as int) + (magnitude_bits(o[2] as int) + (magnitude_bits(o[3] as int) + magnitude_bits(
        o[4] as int,
    )))
}

/// The signs of a component's offsets.
pub open spec fn signs(o: Seq<i32>) -> Seq<bool> {
    sign_bits(o[1] as int) + (sign_bits(o[2] as int) + (sign_bits(o[3] as int) + sign_bits(o[4] as int)))
}

/// What follows the magnitudes: signs and position of bands, or the class of an edge,
/// which Cr takes over from Cb.
pub open spec fn placement(m: SaoModel, c: int) -> Seq<bool> {
    if m.kind == 1 {
        signs(m.offsets) + be_bits(m.band as nat, 5)
    } else if c < 2 {
        be_bits(m.class as nat, 2)
    } else {
        Seq::empty()
    }
}

/// The type of a component, which Cr takes over from Cb.
pub open spec fn type_bins(m: SaoModel, c: int) -> Seq<Bin> {
    if c >= 2 {
        Seq::empty()
    } else if m.kind == 0 {
        seq![decision_bin(CTX_SAO_TYPE as int, 0, false)]
    } else {
        seq![decision_bin(CTX_SAO_TYPE as int, 0, true)] + seq![Bin::Bypass { bit: m.kind == 2 }]
    }
}

/// The bins of component `c`.
pub open spec fn component_bins(m: SaoModel, c: int) -> Seq<Bin> {
    type_bins(m, c) + if m.kind == 0 {
        Seq::empty()
    } else {
        bypass_bins(magnitudes(m.offsets)) + bypass_bins(placement(m, c))
    }
}

/// A merge flag, where there is a neighbour to merge with.
pub open spec fn merge_bins(available: bool, merged: bool) -> Seq<Bin> {
    if available {
        seq![decision_bin(CTX_SAO_MERGE as int, 0, merged)]
    } else {
        Seq::empty()
    }
}

/// Whether a block takes over the offsets of the block to its left.
pub open spec fn merges_left(grid: Seq<SaoCell>, addr: int, columns: int) -> bool {
    addr % columns > 0 && grid[addr - 1] == grid[addr]
}

/// Whether a block takes over the offsets of the block above it.
pub open spec fn merges_up(grid: Seq<SaoCell>, addr: int, columns: int) -> bool {
    addr / columns > 0 && grid[addr - columns] == grid[addr]
}

/// The bins of the offsets of one block: a merge with an equal neighbour, or all three
/// components.
#[verifier::opaque]
pub open spec fn sao_bins(grid: Seq<SaoCell>, addr: int, columns: int) -> Seq<Bin> {
    let here = grid[addr];
    let left = merges_left(grid, addr, columns);
    let up = merges_up(grid, addr, columns);
    merge_bins(addr % columns > 0, left) + if left {
        Seq::empty()
    } else {
        merge_bins(addr / columns > 0, up) + if up {
            Seq::empty()
        } else {
            component_bins(here.luma, 0) + (component_bins(here.cb, 1) + component_bins(here.cr, 2))
        }
    }
}

/// Appends one offset magnitude.
fn code_sao_offset_abs(sink: &mut Vec<Bin>, o: i32)
    requires
        -7 <= o <= 7,
    ensures
        appended(old(sink)@, final(sink)@, bypass_bins(magnitude_bits(o as int))),
{
    let v: u32 = if o < 0 {
        (0 - o) as u32
    } else {
        o as u32
    };
    let ghost s0 = sink@;
    put_ones(sink, v);
    if v < 7 {
        let ghost s1 = sink@;
        put_bypass(sink, false);
        proof {
            let a = repeated(true, v as nat);
            lemma_bypass_concat(a, seq![false]);
            assert(bypass_bins(seq![false]) =~= seq![Bin::Bypass { bit: false }]);
            lemma_append(
                s0,
                s1,
                sink@,
                bypass_bins(a),
                seq![Bin::Bypass { bit: false }],
                bypass_bins(magnitude_bits(o as int)),
            );
        }
    }
}

fn code_sign(sink: &mut Vec<Bin>, o: i32)
    ensures
        appended(old(sink)@, final(sink)@, bypass_bins(sign_bits(o as int))),
{
    if o != 0 {
        put_bypass(sink, o < 0);
        assert(bypass_bins(sign_bits(o as int)) =~= seq![Bin::Bypass { bit: o < 0 }]);
    } else {
        proof {
            lemma_append_none(sink@, bypass_bins(sign_bits(o as int)));
        }
    }
}

/// Two runs appended one after the other.
proof fn lemma_runs(a: Seq<Bin>, b: Seq<Bin>, c: Seq<Bin>, x: Seq<bool>, y: Seq<bool>)
    requires
        appended(a, b, bypass_bins(x)),
        appended(b, c, bypass_bins(y)),
    ensures
        appended(a, c, bypass_bins(x + y)),
{
    lemma_bypass_concat(x, y);
    lemma_append(a, b, c, bypass_bins(x), bypass_bins(y), bypass_bins(x + y));
}

fn code_magnitudes(sink: &mut Vec<Bin>, c: &ResolvedSaoComponent)
    requires
        c@.wf(),
    ensures
        appended(old(sink)@, final(sink)@, bypass_bins(magnitudes(c@.offsets))),
{
    let ghost o = c@.offsets;
    assert(-7 <= o[1] <= 7 && -7 <= o[2] <= 7 && -7 <= o[3] <= 7 && -7 <= o[4] <= 7);
    let ghost s0 = sink@;
    code_sao_offset_abs(sink, c.offset_val[1]);
    let ghost s1 = sink@;
    code_sao_offset_abs(sink, c.offset_val[2]);
    let ghost s2 = sink@;
    code_sao_offset_abs(sink, c.offset_val[3]);
    let ghost s3 = sink@;
    code_sao_offset_abs(sink, c.offset_val[4]);
    proof {
        let m1 = magnitude_bits(o[1] as int);
        let m2 = magnitude_bits(o[2] as int);
        let m3 = magnitude_bits(o[3] as int);
        let m4 = magnitude_bits(o[4] as int);
        lemma_runs(s2, s3, sink@, m3, m4);
        lemma_runs(s1, s2, sink@, m2, m3 + m4);
        lemma_runs(s0, s1, sink@, m1, m2 + (m3 + m4));
    }
}

fn code_signs(sink: &mut Vec<Bin>, c: &ResolvedSaoComponent)
    ensures
        appended(old(sink)@, final(sink)@, bypass_bins(signs(c@.offsets))),
{
    let ghost o = c@.offsets;
    let ghost s0 = sink@;
    code_sign(sink, c.offset_val[1]);
    let ghost s1 = sink@;
    code_sign(sink, c.offset_val[2]);
    let ghost s2 = sink@;
    code_sign(sink, c.offset_val[3]);
    let ghost s3 = sink@;
    code_sign(sink, c.offset_val[4]);
    proof {
        let m1 = sign_bits(o[1] as int);
        let m2 = sign_bits(o[2] as int);
        let m3 = sign_bits(o[3] as int);
        let m4 = sign_bits(o[4] as int);
        lemma_runs(s2, s3, sink@, m3, m4);
        lemma_runs(s1, s2, sink@, m2, m3 + m4);
        lemma_runs(s0, s1, sink@, m1, m2 + (m3 + m4));
    }
}

fn code_placement(sink: &mut Vec<Bin>, c: &ResolvedSaoComponent, index: usize)
    ensures
        appended(old(sink)@, final(sink)@, bypass_bins(placement(c@, index as int))),
{
    if c.sao_type_idx == 1 {
        let ghost s0 = sink@;
        code_signs(sink, c);
        let ghost s1 = sink@;
        put_bypass_bits(sink, c.band_position as u64, 5);
        proof {
            lemma_runs(s0, s1, sink@, signs(c@.offsets), be_bits(c@.band as nat, 5));
        }
    } else if index < 2 {
        put_bypass_bits(sink, c.eo_class as u64, 2);
    } else {
        proof {
            lemma_append_none(sink@, bypass_bins(placement(c@, index as int)));
        }
    }
}

fn code_type(sink: &mut Vec<Bin>, c: &ResolvedSaoComponent, index: usize)
    ensures
        appended(old(sink)@, final(sink)@, type_bins(c@, index as int)),
{
    if index >= 2 {
        proof {
            lemma_append_none(sink@, type_bins(c@, index as int));
        }
    } else if c.sao_type_idx == 0 {
        put_decision(sink, CTX_SAO_TYPE, 0, false);
    } else {
        let ghost s0 = sink@;
        put_decision(sink, CTX_SAO_TYPE, 0, true);
        let ghost s1 = sink@;
        put_bypass(sink, c.sao_type_idx == 2);
        proof {
            lemma_append(
                s0,
                s1,
                sink@,
                seq![decision_bin(CTX_SAO_TYPE as int, 0, true)],
                seq![Bin::Bypass { bit: c.sao_type_idx == 2 }],
                type_bins(c@, index as int),
            );
        }
    }
}

fn code_component(sink: &mut Vec<Bin>, c: &ResolvedSaoComponent, index: usize)
    requires
        c@.wf(),
    ensures
        appended(old(sink)@, final(sink)@, component_bins(c@, index as int)),
{
    let ghost s0 = sink@;
    code_type(sink, c, index);
    let ghost s1 = sink@;
    if c.sao_type_idx == 0 {
        proof {
            lemma_append_none(sink@, Seq::<Bin>::empty());
            lemma_append(
                s0,
                s1,
                sink@,
                type_bins(c@, index as int),
                Seq::<Bin>::empty(),
                component_bins(c@, index as int),
            );
        }
    } else {
        code_magnitudes(sink, c);
        let ghost s2 = sink@;
        code_placement(sink, c, index);
        proof {
            let a = bypass_bins(magnitudes(c@.offsets));
            let b = bypass_bins(placement(c@, index as int));
            lemma_append(s1, s2, sink@, a, b, a + b);
            lemma_append(s0, s1, sink@, type_bins(c@, index as int), a + b, component_bins(c@, index as int));
        }
    }
}

fn code_merge(sink: &mut Vec<Bin>, available: bool, merged: bool)
    ensures
        appended(old(sink)@, final(sink)@, merge_bins(available, merged)),
{
    if available {
        put_decision(sink, CTX_SAO_MERGE, 0, merged);
    } else {
        proof {
            lemma_append_none(sink@, merge_bins(available, merged));
        }
    }
}

/// Appends the offsets of one coding tree block.
pub fn code_sao(sink: &mut Vec<Bin>, grid: &Vec<ResolvedSao>, addr: usize, columns: usize)
    requires
        addr < grid@.len(),
        columns > 0,
        grid@[addr as int]@.wf(),
    ensures
        appended(old(sink)@, final(sink)@, sao_bins(cells(grid@), addr as int, columns as int)),
{
    let ghost g = cells(grid@);
    let ghost s0 = sink@;
    let has_left: bool = addr % columns > 0;
    let has_up: bool = addr / columns > 0;
    proof {
        vstd::arithmetic::div_mod::lemma_fundamental_div_mod(addr as int, columns as int);
        if has_up {
            assert(addr >= columns) by (nonlinear_arith)
                requires
                    addr == columns * (addr as int / columns as int) + addr as int % columns as int,
                    addr as int / columns as int >= 1,
                    addr as int % columns as int >= 0,
                    columns > 0,
            ;
        }
        if has_left {
            assert(addr > 0) by {
                if addr == 0 {
                    assert(0int % columns as int == 0) by (nonlinear_arith)
                        requires
                            columns > 0,
                    ;
                }
            }
        }
        reveal(sao_bins);
    }
    let left: bool = has_left && grid[addr - 1].same(&grid[addr]);
    let up: bool = has_up && grid[addr - columns].same(&grid[addr]);
    assert(left == merges_left(g, addr as int, columns as int));
    assert(up == merges_up(g, addr as int, columns as int));
    code_merge(sink, has_left, left);
    let ghost s1 = sink@;
    let ghost none = Seq::<Bin>::empty();
    if left {
        proof {
            lemma_append_none(sink@, none);
            lemma_append(s0, s1, sink@, merge_bins(has_left, left), none, sao_bins(g, addr as int, columns as int));
        }
        return;
    }
    code_merge(sink, has_up, up);
    let ghost s2 = sink@;
    if up {
        proof {
            lemma_append_none(sink@, none);
            lemma_append(s1, s2, sink@, merge_bins(has_up, up), none, merge_bins(has_up, up) + none);
            lemma_append(
                s0,
                s1,
                sink@,
                merge_bins(has_left, left),
                merge_bins(has_up, up) + none,
                sao_bins(g, addr as int, columns as int),
            );
        }
        return;
    }
    let here: ResolvedSao = grid[addr];
    code_component(sink, &here.components[0], 0);
    let ghost s3 = sink@;
    code_component(sink, &here.components[1], 1);
    let ghost s4 = sink@;
    code_component(sink, &here.components[2], 2);
    proof {
        let a = component_bins(here@.luma, 0);
        let b = component_bins(here@.cb, 1);
        let c = component_bins(here@.cr, 2);
        lemma_append(s3, s4, sink@, b, c, b + c);
        lemma_append(s2, s3, sink@, a, b + c, a + (b + c));
        lemma_append(s1, s2, sink@, merge_bins(has_up, up), a + (b + c), merge_bins(has_up, up) + (a + (b + c)));
        lemma_append(
            s0,
            s1,
            sink@,
            merge_bins(has_left, left),
            merge_bins(has_up, up) + (a + (b + c)),
            sao_bins(g, addr as int, columns as int),
        );
    }
}

/// The bins of the block at `addr`: its offsets where the slice has any, its unit, and
/// the end of the slice behind the last.
pub open spec fn block_bins(records: Seq<Record>, sao: Option<Seq<SaoCell>>, columns: int, addr: int) -> Seq<Bin> {
    (match sao {
        Some(grid) => sao_bins(grid, addr, columns),
        None => Seq::empty(),
    }) + (unit_bins(records[addr]) + seq![Bin::Terminate { end: addr == records.len() - 1 }])
}

/// The bins of the first `n` blocks.
pub open spec fn blocks_bins(records: Seq<Record>, sao: Option<Seq<SaoCell>>, columns: int, n: nat) -> Seq<Bin>
    decreases n,
{
    if n == 0 {
        Seq::empty()
    } else {
        blocks_bins(records, sao, columns, (n - 1) as nat) + block_bins(records, sao, columns, n - 1)
    }
}

/// The bytes of bins coded by an engine of their own.
pub open spec fn coded_bytes(bins: Seq<Bin>, qp: int) -> Seq<u8> {
    pack(aligned(encode_bins(Coder::start(Seq::empty()), initial_contexts(qp), bins).out))
}

/// The slice data of a picture.
pub open spec fn slice_data(records: Seq<Record>, sao: Option<Seq<SaoCell>>, qp: int, columns: int) -> Seq<u8> {
    coded_bytes(blocks_bins(records, sao, columns, records.len()), qp)
}

/// The offsets behind an option.
pub open spec fn grid_of(sao: Option<&Vec<ResolvedSao>>) -> Option<Seq<SaoCell>> {
    match sao {
        Some(g) => Some(cells(g@)),
        None => None,
    }
}

/// Codes the slice data: every recorded coding unit, each optionally behind the
/// offsets of its block.
pub fn code_slice_data(records: &Vec<CtbRecord>, sao: Option<&Vec<ResolvedSao>>, qp: i32, columns: usize) -> (bytes: Vec<
    u8,
>)
    requires
        columns > 0,
        forall|i: int| 0 <= i < records@.len() ==> (#[trigger] records@[i])@.wf(),
        match sao {
            Some(g) => g@.len() == records@.len() && forall|i: int|
                0 <= i < g@.len() ==> (#[trigger] g@[i])@.wf(),
            None => true,
        },
    ensures
        bytes@ == slice_data(records_of(records@), grid_of(sao), qp as int, columns as int),
{
    let ghost rs = records_of(records@);
    let ghost g = grid_of(sao);
    let mut sink: Vec<Bin> = Vec::new();
    let mut addr: usize = 0;
    proof {
        lemma_append_none(sink@, blocks_bins(rs, g, columns as int, 0));
        assert(in_bank(Seq::<Bin>::empty(), CONTEXTS as nat));
    }
    while addr < records.len()
        invariant
            addr <= records@.len(),
            columns > 0,
            rs == records_of(records@),
            g == grid_of(sao),
            forall|i: int| 0 <= i < records@.len() ==> (#[trigger] records@[i])@.wf(),
            match sao {
                Some(g) => g@.len() == records@.len() && forall|i: int|
                    0 <= i < g@.len() ==> (#[trigger] g@[i])@.wf(),
                None => true,
            },
            appended(Seq::empty(), sink@, blocks_bins(rs, g, columns as int, addr as nat)),
        decreases records.len() - addr,
    {
        let ghost s0 = sink@;
        let ghost head: Seq<Bin> = match g {
            Some(grid) => sao_bins(grid, addr as int, columns as int),
            None => Seq::empty(),
        };
        match sao {
            Some(grid) => {
                code_sao(&mut sink, grid, addr, columns);
            },
            None => {
                proof {
                    lemma_append_none(sink@, head);
                }
            },
        }
        let ghost s1 = sink@;
        code_coding_unit(&mut sink, &records[addr]);
        let ghost s2 = sink@;
        put_terminate(&mut sink, addr == records.len() - 1);
        proof {
            let u = unit_bins(rs[addr as int]);
            let t = seq![Bin::Terminate { end: addr == rs.len() - 1 }];
            lemma_append(s1, s2, sink@, u, t, u + t);
            lemma_append(s0, s1, sink@, head, u + t, block_bins(rs, g, columns as int, addr as int));
            lemma_append(
                Seq::empty(),
                s0,
                sink@,
                blocks_bins(rs, g, columns as int, addr as nat),
                block_bins(rs, g, columns as int, addr as int),
                blocks_bins(rs, g, columns as int, (addr + 1) as nat),
            );
        }
        addr = addr + 1;
    }
    let mut w: BitWriter = BitWriter::new();
    let mut ctxs: SliceContexts = SliceContexts::init(qp);
    let mut cabac: CabacEncoder = CabacEncoder::new();
    proof {
        lemma_appended(Seq::empty(), sink@, blocks_bins(rs, g, columns as int, rs.len()));
        assert(sink@ =~= blocks_bins(rs, g, columns as int, rs.len()));
    }
    code_bins(&mut w, &mut cabac, &mut ctxs, sink.as_slice());
    w.align_zero();
    w.finish()
}

} // verus!
