//! Slice data on the read side: the offsets and the coding units of a residual-coded
//! intra slice as a decoder reads them, and the law that it reads what was written.
use vstd::prelude::*;
use vstd::arithmetic::div_mod::lemma_small_mod;
use vstd::arithmetic::power2::{lemma2_to64, pow2};
use crate::arith::abs;
use crate::bin_source::{
    lemma_feeds_concat, lemma_feeds_none, lemma_reads_bypass, lemma_reads_decision, lemma_reads_field,
    lemma_reads_terminate, Source,
};
use crate::bins::{
    bypass_bins, decision_bin, encode_bins, initial_contexts, lemma_bypass_concat, Bin, CONTEXTS, CTX_CBF_CHROMA,
    CTX_CBF_LUMA, CTX_CHROMA_MODE, CTX_PART_MODE, CTX_PREV_INTRA, CTX_SAO_MERGE, CTX_SAO_TYPE,
};
use crate::bits::{aligned, be_bits, bytes_bits, lemma_pack_bits, padding, zeros};
use crate::cabac_decoder::Decoder;
use crate::cabac_encoder::Coder;
use crate::cabac_laws::{codeword, law_decode_inverts_encode, lemma_codeword_shifts_bound};
use crate::decision::unit_candidates;
use crate::intra::INTRA_DC;
use crate::modes::{
    chroma_mode_bins, is_candidates, law_remaining_mode_reads_back, luma_mode_bins, mode_at, remaining,
    CHROMA_MODE_DERIVED,
};
use crate::residual::{has_levels, ResidualWriteParams};
use crate::residual_decoder::{lemma_reads_residual, read_residual};
use crate::sao::{sao_off, SaoCell, SaoModel, SAO_OFFSET_MAX};
use crate::scan::area;
use crate::slice::{
    block_bins, blocks_bins, chroma_params, coded_bins, coded_bytes, component_bins, flag_bins, luma_params,
    magnitude_bits, magnitudes, merge_bins, merges_left, merges_up, placement, sao_bins, sign_bits, signs, slice_data,
    type_bins, unit_bins, unit_head, Record,
};
use crate::slice_laws::{
    cell_signalled_whole, grid_signalled_whole, law_slice_is_a_codeword, lemma_initial_contexts,
    lemma_neighbour_addresses, linked, linked_at, signalled_whole,
};

verus! {

/// A luma mode, against its most probable modes.
pub open spec fn read_luma_mode(s: Source, c: Seq<u8>) -> Option<(u8, Source)> {
    match s.decision(CTX_PREV_INTRA as int, 0) {
        Some((true, t)) => match t.bypass() {
            Some((false, u)) => Some((c[0], u)),
            Some((true, u)) => match u.bypass() {
                Some((second, v)) => Some(
                    (
                        if second {
                            c[2]
                        } else {
                            c[1]
                        },
                        v,
                    ),
                ),
                None => None,
            },
            None => None,
        },
        Some((false, t)) => match t.field(5) {
            Some((index, u)) => Some((mode_at(index as int, c) as u8, u)),
            None => None,
        },
        None => None,
    }
}

/// A signalled chroma mode.
pub open spec fn read_chroma_mode(s: Source) -> Option<(u8, Source)> {
    match s.decision(CTX_CHROMA_MODE as int, 0) {
        Some((true, t)) => match t.field(2) {
            Some((v, u)) => Some((v as u8, u)),
            None => None,
        },
        Some((false, t)) => Some((CHROMA_MODE_DERIVED, t)),
        None => None,
    }
}

/// The coded block flags of Cb, Cr and luma.
pub open spec fn read_flags(s: Source) -> Option<((bool, bool, bool), Source)> {
    match s.decision(CTX_CBF_CHROMA as int, 0) {
        Some((cb, t)) => match t.decision(CTX_CBF_CHROMA as int, 0) {
            Some((cr, u)) => match u.decision(CTX_CBF_LUMA as int, 1) {
                Some((luma, v)) => Some(((cb, cr, luma), v)),
                None => None,
            },
            None => None,
        },
        None => None,
    }
}

/// The levels of a block, which are all zero where it is not coded.
pub open spec fn read_coded(p: ResidualWriteParams, s: Source, coded: bool) -> Option<(Seq<i32>, Source)> {
    if coded {
        read_residual(p, s)
    } else {
        Some((Seq::new(area(p.log2_trafo_size as int) as nat, |r: int| 0i32), s))
    }
}

/// The levels of the three blocks of a unit.
pub open spec fn read_blocks_of_unit(s: Source) -> Option<((Seq<i32>, Seq<i32>, Seq<i32>), Source)> {
    match read_flags(s) {
        Some(((cb, cr, luma), t)) => match read_coded(luma_params(), t, luma) {
            Some((luma_levels, u)) => match read_coded(chroma_params(), u, cb) {
                Some((cb_levels, v)) => match read_coded(chroma_params(), v, cr) {
                    Some((cr_levels, w)) => Some(((luma_levels, cb_levels, cr_levels), w)),
                    None => None,
                },
                None => None,
            },
            None => None,
        },
        None => None,
    }
}

/// `part_mode` and `pcm_flag`, of a unit that is in one part and not PCM.
pub open spec fn read_unit_head(s: Source) -> Option<Source> {
    match s.decision(CTX_PART_MODE as int, 0) {
        Some((true, t)) => match t.terminate() {
            Some((false, u)) => Some(u),
            _ => None,
        },
        _ => None,
    }
}

/// A coding unit, against the most probable modes at its place.
pub open spec fn read_unit(s: Source, candidates: Seq<u8>) -> Option<(Record, Source)> {
    match read_unit_head(s) {
        Some(t) => match read_luma_mode(t, candidates) {
            Some((mode, u)) => match read_chroma_mode(u) {
                Some((chroma_mode, v)) => match read_blocks_of_unit(v) {
                    Some(((luma, cb, cr), w)) => Some(
                        (Record { mode, candidates, chroma_mode, luma, cb, cr }, w),
                    ),
                    None => None,
                },
                None => None,
            },
            None => None,
        },
        None => None,
    }
}

proof fn lemma_reads_luma_mode(s: Source, mode: u8, c: Seq<u8>)
    requires
        is_candidates(c),
        mode <= 34,
        s.feeds(luma_mode_bins(mode, c)),
    ensures
        read_luma_mode(s, c) == Some((mode, s.past(luma_mode_bins(mode, c)))),
{
    let probable = c[0] == mode || c[1] == mode || c[2] == mode;
    let head = seq![decision_bin(CTX_PREV_INTRA as int, 0, probable)];
    if c[0] == mode {
        let b = seq![Bin::Bypass { bit: false }];
        lemma_feeds_concat(s, head, b);
        lemma_reads_decision(s, CTX_PREV_INTRA as int, 0, true);
        lemma_reads_bypass(s.past(head), false);
    } else if probable {
        let b = seq![Bin::Bypass { bit: true }];
        let e = seq![Bin::Bypass { bit: c[1] != mode }];
        lemma_feeds_concat(s, head, b + e);
        lemma_feeds_concat(s.past(head), b, e);
        lemma_reads_decision(s, CTX_PREV_INTRA as int, 0, true);
        lemma_reads_bypass(s.past(head), true);
        lemma_reads_bypass(s.past(head).past(b), c[1] != mode);
    } else {
        let v = remaining(mode as int, c) as nat;
        law_remaining_mode_reads_back(mode as int, c);
        lemma2_to64();
        lemma_feeds_concat(s, head, bypass_bins(be_bits(v, 5)));
        lemma_reads_decision(s, CTX_PREV_INTRA as int, 0, false);
        lemma_reads_field(s.past(head), v, 5);
        lemma_small_mod(v, pow2(5));
    }
}

proof fn lemma_reads_chroma_mode(s: Source, mode: u8)
    requires
        mode <= CHROMA_MODE_DERIVED,
        s.feeds(chroma_mode_bins(mode)),
    ensures
        read_chroma_mode(s) == Some((mode, s.past(chroma_mode_bins(mode)))),
{
    let head = seq![decision_bin(CTX_CHROMA_MODE as int, 0, mode != CHROMA_MODE_DERIVED)];
    if mode == CHROMA_MODE_DERIVED {
        lemma_reads_decision(s, CTX_CHROMA_MODE as int, 0, false);
    } else {
        lemma2_to64();
        lemma_feeds_concat(s, head, bypass_bins(be_bits(mode as nat, 2)));
        lemma_reads_decision(s, CTX_CHROMA_MODE as int, 0, true);
        lemma_reads_field(s.past(head), mode as nat, 2);
        lemma_small_mod(mode as nat, pow2(2));
    }
}

proof fn lemma_reads_flags(s: Source, r: Record)
    requires
        s.feeds(flag_bins(r)),
    ensures
        read_flags(s) == Some(((has_levels(r.cb), has_levels(r.cr), has_levels(r.luma)), s.past(flag_bins(r)))),
{
    let a = seq![decision_bin(CTX_CBF_CHROMA as int, 0, has_levels(r.cb))];
    let b = seq![decision_bin(CTX_CBF_CHROMA as int, 0, has_levels(r.cr))];
    let c = seq![decision_bin(CTX_CBF_LUMA as int, 1, has_levels(r.luma))];
    lemma_feeds_concat(s, a, b + c);
    lemma_feeds_concat(s.past(a), b, c);
    lemma_reads_decision(s, CTX_CBF_CHROMA as int, 0, has_levels(r.cb));
    lemma_reads_decision(s.past(a), CTX_CBF_CHROMA as int, 0, has_levels(r.cr));
    lemma_reads_decision(s.past(a).past(b), CTX_CBF_LUMA as int, 1, has_levels(r.luma));
}

proof fn lemma_reads_coded(p: ResidualWriteParams, s: Source, levels: Seq<i32>)
    requires
        p.wf(),
        levels.len() == area(p.log2_trafo_size as int),
        s.feeds(coded_bins(p, levels)),
    ensures
        read_coded(p, s, has_levels(levels)) == Some((levels, s.past(coded_bins(p, levels)))),
{
    if has_levels(levels) {
        lemma_reads_residual(p, s, levels);
    } else {
        lemma_feeds_none(s);
        assert(levels =~= Seq::new(area(p.log2_trafo_size as int) as nat, |r: int| 0i32));
    }
}

proof fn lemma_reads_unit_head(s: Source)
    requires
        s.feeds(unit_head()),
    ensures
        read_unit_head(s) == Some(s.past(unit_head())),
{
    let a = seq![decision_bin(CTX_PART_MODE as int, 0, true)];
    let b = seq![Bin::Terminate { end: false }];
    assert(unit_head() =~= a + b);
    lemma_feeds_concat(s, a, b);
    lemma_reads_decision(s, CTX_PART_MODE as int, 0, true);
    lemma_reads_terminate(s.past(a), false);
}

/// A source that holds the bins of a unit yields its record.
pub proof fn lemma_reads_unit(s: Source, r: Record)
    requires
        r.wf(),
        s.feeds(unit_bins(r)),
    ensures
        read_unit(s, r.candidates) == Some((r, s.past(unit_bins(r)))),
{
    reveal(unit_bins);
    let a = unit_head();
    let b = luma_mode_bins(r.mode, r.candidates);
    let c = chroma_mode_bins(r.chroma_mode);
    let d = flag_bins(r);
    let e = coded_bins(luma_params(), r.luma);
    let f = coded_bins(chroma_params(), r.cb);
    let g = coded_bins(chroma_params(), r.cr);
    lemma_feeds_concat(s, a, b + (c + (d + (e + (f + g)))));
    lemma_reads_unit_head(s);
    let s1 = s.past(a);
    lemma_feeds_concat(s1, b, c + (d + (e + (f + g))));
    lemma_reads_luma_mode(s1, r.mode, r.candidates);
    let s2 = s1.past(b);
    lemma_feeds_concat(s2, c, d + (e + (f + g)));
    lemma_reads_chroma_mode(s2, r.chroma_mode);
    let s3 = s2.past(c);
    lemma_feeds_concat(s3, d, e + (f + g));
    lemma_reads_flags(s3, r);
    let s4 = s3.past(d);
    lemma_feeds_concat(s4, e, f + g);
    lemma_reads_coded(luma_params(), s4, r.luma);
    let s5 = s4.past(e);
    lemma_feeds_concat(s5, f, g);
    lemma_reads_coded(chroma_params(), s5, r.cb);
    lemma_reads_coded(chroma_params(), s5.past(f), r.cr);
}

/// One offset magnitude, of which `i` ones have been read.
pub open spec fn read_magnitude(s: Source, i: int) -> Option<(int, Source)>
    decreases SAO_OFFSET_MAX - i,
{
    if i >= SAO_OFFSET_MAX {
        Some((i, s))
    } else {
        match s.bypass() {
            Some((true, t)) => read_magnitude(t, i + 1),
            Some((false, t)) => Some((i, t)),
            None => None,
        }
    }
}

/// The first `n` offset magnitudes of a component.
pub open spec fn read_magnitudes(s: Source, n: nat) -> Option<(Seq<int>, Source)>
    decreases n,
{
    if n == 0 {
        Some((Seq::empty(), s))
    } else {
        match read_magnitudes(s, (n - 1) as nat) {
            Some((found, t)) => match read_magnitude(t, 0) {
                Some((v, u)) => Some((found.push(v), u)),
                None => None,
            },
            None => None,
        }
    }
}

/// The first `n` offsets of a component, from their magnitudes and the signs of those
/// that are not zero.
pub open spec fn read_signed(s: Source, sizes: Seq<int>, n: nat) -> Option<(Seq<int>, Source)>
    decreases n,
{
    if n == 0 {
        Some((Seq::empty(), s))
    } else {
        match read_signed(s, sizes, (n - 1) as nat) {
            Some((found, t)) => if sizes[n - 1] == 0 {
                Some((found.push(0), t))
            } else {
                match t.bypass() {
                    Some((negative, u)) => Some(
                        (
                            found.push(
                                if negative {
                                    -sizes[n - 1]
                                } else {
                                    sizes[n - 1]
                                },
                            ),
                            u,
                        ),
                    ),
                    None => None,
                }
            },
            None => None,
        }
    }
}

/// Four offsets behind the zero of the samples that get none.
pub open spec fn offset_table(o: Seq<int>) -> Seq<i32> {
    seq![0i32, o[0] as i32, o[1] as i32, o[2] as i32, o[3] as i32]
}

/// The type of component `c`. Cr has that of Cb.
pub open spec fn read_type(s: Source, c: int, cb: SaoModel) -> Option<(int, Source)> {
    if c >= 2 {
        Some((cb.kind, s))
    } else {
        match s.decision(CTX_SAO_TYPE as int, 0) {
            Some((true, t)) => match t.bypass() {
                Some((edge, u)) => Some(
                    (
                        if edge {
                            2
                        } else {
                            1
                        },
                        u,
                    ),
                ),
                None => None,
            },
            Some((false, t)) => Some((0, t)),
            None => None,
        }
    }
}

/// What follows the magnitudes: signs and position of bands, or the class of an edge,
/// whose signs its categories give.
pub open spec fn read_placement(
    s: Source,
    kind: int,
    sizes: Seq<int>,
    c: int,
    cb: SaoModel,
) -> Option<(SaoModel, Source)> {
    if kind == 1 {
        match read_signed(s, sizes, 4) {
            Some((o, t)) => match t.field(5) {
                Some((band, u)) => Some(
                    (SaoModel { kind, offsets: offset_table(o), band: band as int, class: 0 }, u),
                ),
                None => None,
            },
            None => None,
        }
    } else {
        let o = seq![sizes[0], sizes[1], -sizes[2], -sizes[3]];
        if c < 2 {
            match s.field(2) {
                Some((class, t)) => Some(
                    (SaoModel { kind, offsets: offset_table(o), band: 0, class: class as int }, t),
                ),
                None => None,
            }
        } else {
            Some((SaoModel { kind, offsets: offset_table(o), band: 0, class: cb.class }, s))
        }
    }
}

/// The offsets of component `c`.
pub open spec fn read_component(s: Source, c: int, cb: SaoModel) -> Option<(SaoModel, Source)> {
    match read_type(s, c, cb) {
        Some((kind, t)) => if kind == 0 {
            Some((sao_off(), t))
        } else {
            match read_magnitudes(t, 4) {
                Some((sizes, u)) => read_placement(u, kind, sizes, c, cb),
                None => None,
            }
        },
        None => None,
    }
}

/// The offsets of a block of its own.
pub open spec fn read_cell(s: Source) -> Option<(SaoCell, Source)> {
    match read_component(s, 0, sao_off()) {
        Some((luma, t)) => match read_component(t, 1, sao_off()) {
            Some((cb, u)) => match read_component(u, 2, cb) {
                Some((cr, v)) => Some((SaoCell { luma, cb, cr }, v)),
                None => None,
            },
            None => None,
        },
        None => None,
    }
}

/// A merge flag, where there is a neighbour to merge with.
pub open spec fn read_merge(s: Source, available: bool) -> Option<(bool, Source)> {
    if available {
        s.decision(CTX_SAO_MERGE as int, 0)
    } else {
        Some((false, s))
    }
}

/// The offsets of the block at `addr`, when those of the blocks before it are known.
pub open spec fn read_sao(s: Source, known: Seq<SaoCell>, addr: int, columns: int) -> Option<(SaoCell, Source)> {
    match read_merge(s, addr % columns > 0) {
        Some((true, t)) => Some((known[addr - 1], t)),
        Some((false, t)) => match read_merge(t, addr / columns > 0) {
            Some((true, u)) => Some((known[addr - columns], u)),
            Some((false, u)) => read_cell(u),
            None => None,
        },
        None => None,
    }
}

proof fn lemma_reads_magnitude(s: Source, o: int, i: int)
    requires
        0 <= i <= abs(o) <= SAO_OFFSET_MAX,
        s.feeds(bypass_bins(magnitude_bits(o).skip(i))),
    ensures
        read_magnitude(s, i) == Some((abs(o), s.past(bypass_bins(magnitude_bits(o).skip(i))))),
    decreases SAO_OFFSET_MAX - i,
{
    let bits = magnitude_bits(o);
    if i == SAO_OFFSET_MAX {
        assert(bypass_bins(bits.skip(i)) =~= Seq::<Bin>::empty());
        lemma_feeds_none(s);
    } else {
        let one = seq![Bin::Bypass { bit: i < abs(o) }];
        let rest = bypass_bins(bits.skip(i + 1));
        assert(bypass_bins(bits.skip(i)) =~= one + rest);
        lemma_feeds_concat(s, one, rest);
        lemma_reads_bypass(s, i < abs(o));
        if i < abs(o) {
            lemma_reads_magnitude(s.past(one), o, i + 1);
        } else {
            assert(rest =~= Seq::<Bin>::empty());
            lemma_feeds_none(s.past(one));
        }
    }
}

/// The magnitudes of the four offsets of a component.
spec fn four_sizes(o: Seq<i32>) -> Seq<int> {
    seq![abs(o[1] as int), abs(o[2] as int), abs(o[3] as int), abs(o[4] as int)]
}

proof fn lemma_reads_magnitudes(s: Source, o: Seq<i32>)
    requires
        o.len() == 5,
        forall|i: int| 0 <= i < 5 ==> -SAO_OFFSET_MAX <= #[trigger] o[i] <= SAO_OFFSET_MAX,
        s.feeds(bypass_bins(magnitudes(o))),
    ensures
        read_magnitudes(s, 4) == Some((four_sizes(o), s.past(bypass_bins(magnitudes(o))))),
{
    assert(-7 <= o[1] <= 7 && -7 <= o[2] <= 7 && -7 <= o[3] <= 7 && -7 <= o[4] <= 7);
    let m1 = magnitude_bits(o[1] as int);
    let m2 = magnitude_bits(o[2] as int);
    let m3 = magnitude_bits(o[3] as int);
    let m4 = magnitude_bits(o[4] as int);
    lemma_bypass_concat(m3, m4);
    lemma_bypass_concat(m2, m3 + m4);
    lemma_bypass_concat(m1, m2 + (m3 + m4));
    lemma_feeds_concat(s, bypass_bins(m1), bypass_bins(m2 + (m3 + m4)));
    let s1 = s.past(bypass_bins(m1));
    lemma_feeds_concat(s1, bypass_bins(m2), bypass_bins(m3 + m4));
    let s2 = s1.past(bypass_bins(m2));
    lemma_feeds_concat(s2, bypass_bins(m3), bypass_bins(m4));
    let s3 = s2.past(bypass_bins(m3));
    assert(m1.skip(0) =~= m1 && m2.skip(0) =~= m2 && m3.skip(0) =~= m3 && m4.skip(0) =~= m4);
    lemma_reads_magnitude(s, o[1] as int, 0);
    lemma_reads_magnitude(s1, o[2] as int, 0);
    lemma_reads_magnitude(s2, o[3] as int, 0);
    lemma_reads_magnitude(s3, o[4] as int, 0);
    reveal_with_fuel(read_magnitudes, 5);
    let e = Seq::<int>::empty();
    assert(e.push(abs(o[1] as int)).push(abs(o[2] as int)).push(abs(o[3] as int)).push(abs(o[4] as int))
        =~= four_sizes(o));
}

proof fn lemma_reads_sign(s: Source, o: int)
    requires
        s.feeds(bypass_bins(sign_bits(o))),
    ensures
        o == 0 ==> s.past(bypass_bins(sign_bits(o))) == s,
        o != 0 ==> s.bypass() == Some((o < 0, s.past(bypass_bins(sign_bits(o))))),
{
    if o == 0 {
        assert(bypass_bins(sign_bits(o)) =~= Seq::<Bin>::empty());
        lemma_feeds_none(s);
    } else {
        assert(bypass_bins(sign_bits(o)) =~= seq![Bin::Bypass { bit: o < 0 }]);
        lemma_reads_bypass(s, o < 0);
    }
}

proof fn lemma_reads_signed(s: Source, o: Seq<i32>)
    requires
        o.len() == 5,
        s.feeds(bypass_bins(signs(o))),
    ensures
        read_signed(s, four_sizes(o), 4) == Some(
            (seq![o[1] as int, o[2] as int, o[3] as int, o[4] as int], s.past(bypass_bins(signs(o)))),
        ),
{
    let m1 = sign_bits(o[1] as int);
    let m2 = sign_bits(o[2] as int);
    let m3 = sign_bits(o[3] as int);
    let m4 = sign_bits(o[4] as int);
    lemma_bypass_concat(m3, m4);
    lemma_bypass_concat(m2, m3 + m4);
    lemma_bypass_concat(m1, m2 + (m3 + m4));
    lemma_feeds_concat(s, bypass_bins(m1), bypass_bins(m2 + (m3 + m4)));
    let s1 = s.past(bypass_bins(m1));
    lemma_feeds_concat(s1, bypass_bins(m2), bypass_bins(m3 + m4));
    let s2 = s1.past(bypass_bins(m2));
    lemma_feeds_concat(s2, bypass_bins(m3), bypass_bins(m4));
    let s3 = s2.past(bypass_bins(m3));
    lemma_reads_sign(s, o[1] as int);
    lemma_reads_sign(s1, o[2] as int);
    lemma_reads_sign(s2, o[3] as int);
    lemma_reads_sign(s3, o[4] as int);
    reveal_with_fuel(read_signed, 5);
    let e = Seq::<int>::empty();
    assert(e.push(o[1] as int).push(o[2] as int).push(o[3] as int).push(o[4] as int) =~= seq![
        o[1] as int,
        o[2] as int,
        o[3] as int,
        o[4] as int,
    ]);
}

proof fn lemma_reads_type(s: Source, m: SaoModel, c: int, cb: SaoModel)
    requires
        0 <= m.kind <= 2,
        c >= 2 ==> cb.kind == m.kind,
        s.feeds(type_bins(m, c)),
    ensures
        read_type(s, c, cb) == Some((m.kind, s.past(type_bins(m, c)))),
{
    if c >= 2 {
        lemma_feeds_none(s);
    } else if m.kind == 0 {
        lemma_reads_decision(s, CTX_SAO_TYPE as int, 0, false);
    } else {
        let a = seq![decision_bin(CTX_SAO_TYPE as int, 0, true)];
        let b = seq![Bin::Bypass { bit: m.kind == 2 }];
        lemma_feeds_concat(s, a, b);
        lemma_reads_decision(s, CTX_SAO_TYPE as int, 0, true);
        lemma_reads_bypass(s.past(a), m.kind == 2);
    }
}

proof fn lemma_reads_placement(s: Source, m: SaoModel, c: int, cb: SaoModel)
    requires
        signalled_whole(m),
        m.kind != 0,
        c >= 2 ==> cb.kind == m.kind && cb.class == m.class,
        s.feeds(bypass_bins(placement(m, c))),
    ensures
        read_placement(s, m.kind, four_sizes(m.offsets), c, cb) == Some((m, s.past(bypass_bins(placement(m, c))))),
{
    let o = m.offsets;
    lemma2_to64();
    if m.kind == 1 {
        let a = bypass_bins(signs(o));
        let b = be_bits(m.band as nat, 5);
        lemma_bypass_concat(signs(o), b);
        lemma_feeds_concat(s, a, bypass_bins(b));
        lemma_reads_signed(s, o);
        lemma_reads_field(s.past(a), m.band as nat, 5);
        lemma_small_mod(m.band as nat, pow2(5));
        assert(offset_table(seq![o[1] as int, o[2] as int, o[3] as int, o[4] as int]) =~= o);
    } else {
        let z = four_sizes(o);
        assert(offset_table(seq![z[0], z[1], -z[2], -z[3]]) =~= o);
        if c < 2 {
            lemma_reads_field(s, m.class as nat, 2);
            lemma_small_mod(m.class as nat, pow2(2));
        } else {
            assert(bypass_bins(placement(m, c)) =~= Seq::<Bin>::empty());
            lemma_feeds_none(s);
        }
    }
}

pub(crate) proof fn lemma_reads_component(s: Source, m: SaoModel, c: int, cb: SaoModel)
    requires
        signalled_whole(m),
        c >= 2 ==> cb.kind == m.kind && cb.class == m.class,
        s.feeds(component_bins(m, c)),
    ensures
        read_component(s, c, cb) == Some((m, s.past(component_bins(m, c)))),
{
    let a = type_bins(m, c);
    if m.kind == 0 {
        lemma_feeds_concat(s, a, Seq::empty());
        lemma_reads_type(s, m, c, cb);
        lemma_feeds_none(s.past(a));
    } else {
        let b = bypass_bins(magnitudes(m.offsets));
        let d = bypass_bins(placement(m, c));
        lemma_feeds_concat(s, a, b + d);
        lemma_reads_type(s, m, c, cb);
        lemma_feeds_concat(s.past(a), b, d);
        lemma_reads_magnitudes(s.past(a), m.offsets);
        lemma_reads_placement(s.past(a).past(b), m, c, cb);
    }
}

proof fn lemma_reads_cell(s: Source, m: SaoCell)
    requires
        cell_signalled_whole(m),
        s.feeds(component_bins(m.luma, 0) + (component_bins(m.cb, 1) + component_bins(m.cr, 2))),
    ensures
        read_cell(s) == Some(
            (m, s.past(component_bins(m.luma, 0) + (component_bins(m.cb, 1) + component_bins(m.cr, 2)))),
        ),
{
    let a = component_bins(m.luma, 0);
    let b = component_bins(m.cb, 1);
    let c = component_bins(m.cr, 2);
    lemma_feeds_concat(s, a, b + c);
    lemma_feeds_concat(s.past(a), b, c);
    lemma_reads_component(s, m.luma, 0, sao_off());
    lemma_reads_component(s.past(a), m.cb, 1, sao_off());
    lemma_reads_component(s.past(a).past(b), m.cr, 2, m.cb);
}

pub(crate) proof fn lemma_reads_merge(s: Source, available: bool, merged: bool)
    requires
        merged ==> available,
        s.feeds(merge_bins(available, merged)),
    ensures
        read_merge(s, available) == Some((merged, s.past(merge_bins(available, merged)))),
{
    if available {
        lemma_reads_decision(s, CTX_SAO_MERGE as int, 0, merged);
    } else {
        lemma_feeds_none(s);
    }
}

/// A source that holds the bins of a block's offsets yields them.
pub proof fn lemma_reads_sao(s: Source, grid: Seq<SaoCell>, addr: int, columns: int)
    requires
        columns > 0,
        0 <= addr < grid.len(),
        cell_signalled_whole(grid[addr]),
        s.feeds(sao_bins(grid, addr, columns)),
    ensures
        read_sao(s, grid.take(addr), addr, columns) == Some((grid[addr], s.past(sao_bins(grid, addr, columns)))),
{
    reveal(sao_bins);
    lemma_neighbour_addresses(addr, columns);
    let left = merges_left(grid, addr, columns);
    let up = merges_up(grid, addr, columns);
    let a = merge_bins(addr % columns > 0, left);
    let b = merge_bins(addr / columns > 0, up);
    let m = grid[addr];
    let c = component_bins(m.luma, 0) + (component_bins(m.cb, 1) + component_bins(m.cr, 2));
    let none = Seq::<Bin>::empty();
    if left {
        lemma_feeds_concat(s, a, none);
        lemma_feeds_none(s.past(a));
        lemma_reads_merge(s, addr % columns > 0, left);
    } else if up {
        lemma_feeds_concat(s, a, b + none);
        lemma_feeds_concat(s.past(a), b, none);
        lemma_feeds_none(s.past(a).past(b));
        lemma_reads_merge(s, addr % columns > 0, left);
        lemma_reads_merge(s.past(a), addr / columns > 0, up);
    } else {
        lemma_feeds_concat(s, a, b + c);
        lemma_feeds_concat(s.past(a), b, c);
        lemma_reads_merge(s, addr % columns > 0, left);
        lemma_reads_merge(s.past(a), addr / columns > 0, up);
        lemma_reads_cell(s.past(a).past(b), m);
    }
}

/// The units of a slice, and the offsets where it has them.
pub struct SliceContent {
    pub records: Seq<Record>,
    pub grid: Option<Seq<SaoCell>>,
}

/// The offsets of the next block, behind those that are known.
pub open spec fn read_next_sao(
    s: Source,
    known: Option<Seq<SaoCell>>,
    addr: int,
    columns: int,
) -> Option<(Option<Seq<SaoCell>>, Source)> {
    match known {
        Some(grid) => match read_sao(s, grid, addr, columns) {
            Some((cell, t)) => Some((Some(grid.push(cell)), t)),
            None => None,
        },
        None => Some((None, s)),
    }
}

/// The block behind those that are known, in a slice of `total` blocks.
pub open spec fn read_block(
    s: Source,
    known: SliceContent,
    columns: int,
    total: int,
) -> Option<(SliceContent, Source)> {
    let addr = known.records.len() as int;
    match read_next_sao(s, known.grid, addr, columns) {
        Some((grid, t)) => {
            let left = if addr > 0 {
                known.records[addr - 1].mode
            } else {
                INTRA_DC
            };
            match read_unit(t, unit_candidates(left, addr % columns * 16)) {
                Some((record, u)) => match u.terminate() {
                    Some((end, v)) => if end == (addr == total - 1) {
                        Some((SliceContent { records: known.records.push(record), grid }, v))
                    } else {
                        None
                    },
                    None => None,
                },
                None => None,
            }
        },
        None => None,
    }
}

/// The first `n` of the `total` blocks of a slice.
pub open spec fn read_slice(s: Source, sao: bool, columns: int, total: int, n: nat) -> Option<(SliceContent, Source)>
    decreases n,
{
    if n == 0 {
        Some(
            (
                SliceContent {
                    records: Seq::empty(),
                    grid: if sao {
                        Some(Seq::empty())
                    } else {
                        None
                    },
                },
                s,
            ),
        )
    } else {
        match read_slice(s, sao, columns, total, (n - 1) as nat) {
            Some((known, t)) => read_block(t, known, columns, total),
            None => None,
        }
    }
}

/// What is known of a slice after `n` blocks.
spec fn known_after(records: Seq<Record>, sao: Option<Seq<SaoCell>>, n: int) -> SliceContent {
    SliceContent {
        records: records.take(n),
        grid: match sao {
            Some(g) => Some(g.take(n)),
            None => None,
        },
    }
}

proof fn lemma_reads_next_sao(s: Source, sao: Option<Seq<SaoCell>>, addr: int, columns: int, n: int)
    requires
        columns > 0,
        0 <= addr < n,
        grid_signalled_whole(sao, n),
        s.feeds(
            match sao {
                Some(grid) => sao_bins(grid, addr, columns),
                None => Seq::empty(),
            },
        ),
    ensures
        ({
            let known: Option<Seq<SaoCell>> = match sao {
                Some(g) => Some(g.take(addr)),
                None => None,
            };
            let next: Option<Seq<SaoCell>> = match sao {
                Some(g) => Some(g.take(addr + 1)),
                None => None,
            };
            let bins = match sao {
                Some(grid) => sao_bins(grid, addr, columns),
                None => Seq::empty(),
            };
            read_next_sao(s, known, addr, columns) == Some((next, s.past(bins)))
        }),
{
    match sao {
        Some(g) => {
            lemma_reads_sao(s, g, addr, columns);
            assert(g.take(addr).push(g[addr]) =~= g.take(addr + 1));
        },
        None => {
            lemma_feeds_none(s);
        },
    }
}

proof fn lemma_reads_block(s: Source, records: Seq<Record>, sao: Option<Seq<SaoCell>>, columns: int, addr: int)
    requires
        columns > 0,
        0 <= addr < records.len(),
        linked(records, columns),
        grid_signalled_whole(sao, records.len() as int),
        s.feeds(block_bins(records, sao, columns, addr)),
    ensures
        read_block(s, known_after(records, sao, addr), columns, records.len() as int) == Some(
            (known_after(records, sao, addr + 1), s.past(block_bins(records, sao, columns, addr))),
        ),
{
    let head = match sao {
        Some(grid) => sao_bins(grid, addr, columns),
        None => Seq::empty(),
    };
    let r = records[addr];
    let unit = unit_bins(r);
    let end = addr == records.len() - 1;
    let stop = seq![Bin::Terminate { end }];
    assert(linked_at(records, columns, addr));
    lemma_feeds_concat(s, head, unit + stop);
    lemma_reads_next_sao(s, sao, addr, columns, records.len() as int);
    lemma_feeds_concat(s.past(head), unit, stop);
    lemma_reads_unit(s.past(head), r);
    lemma_reads_terminate(s.past(head).past(unit), end);
    assert(records.take(addr).push(r) =~= records.take(addr + 1));
}

/// A source that holds the bins of the first blocks yields them.
proof fn lemma_reads_slice(s: Source, records: Seq<Record>, sao: Option<Seq<SaoCell>>, columns: int, n: nat)
    requires
        columns > 0,
        n <= records.len(),
        linked(records, columns),
        grid_signalled_whole(sao, records.len() as int),
        s.feeds(blocks_bins(records, sao, columns, n)),
    ensures
        read_slice(s, sao is Some, columns, records.len() as int, n) == Some(
            (known_after(records, sao, n as int), s.past(blocks_bins(records, sao, columns, n))),
        ),
    decreases n,
{
    if n == 0 {
        lemma_feeds_none(s);
        assert(records.take(0) =~= Seq::<Record>::empty());
        if let Some(g) = sao {
            assert(g.take(0) =~= Seq::<SaoCell>::empty());
        }
    } else {
        let m = (n - 1) as nat;
        let before = blocks_bins(records, sao, columns, m);
        lemma_feeds_concat(s, before, block_bins(records, sao, columns, n - 1));
        lemma_reads_slice(s, records, sao, columns, m);
        lemma_reads_block(s.past(before), records, sao, columns, n - 1);
    }
}

/// The slice data of `total` blocks, decoded.
#[verifier::opaque]
pub open spec fn decoded_slice_data(bits: Seq<bool>, sao: bool, qp: int, columns: int, total: nat) -> Option<
    SliceContent,
> {
    match Decoder::start(bits) {
        Ok(decoder) => match read_slice(
            Source { decoder, ctxs: initial_contexts(qp) },
            sao,
            columns,
            total as int,
            total,
        ) {
            Some((content, _)) => Some(content),
            None => None,
        },
        Err(_) => None,
    }
}

/// The bytes of a codeword, with zeros behind it up to a byte, yield its bins.
proof fn lemma_bytes_feed(bins: Seq<Bin>, qp: int)
    requires
        codeword(bins, CONTEXTS as nat),
        9 * bins.len() + 7 < u64::MAX,
    ensures
        Decoder::start(bytes_bits(coded_bytes(bins, qp))) matches Ok(decoder) && (Source {
            decoder,
            ctxs: initial_contexts(qp),
        }).feeds(bins),
{
    let ctxs = initial_contexts(qp);
    let none = Seq::<bool>::empty();
    lemma_initial_contexts(qp);
    lemma_codeword_shifts_bound(ctxs, bins);
    let out = encode_bins(Coder::start(none), ctxs, bins).out;
    let after = zeros(padding(out.len()));
    lemma_pack_bits(aligned(out));
    assert(aligned(aligned(out)) =~= aligned(out));
    law_decode_inverts_encode(none, ctxs, bins, after);
    assert(out.skip(0) =~= out);
    reveal(Source::feeds);
}

/// Slice data decodes to the slice: from the bytes that are written for the units and
/// the offsets of a slice, a decoder reads those units and those offsets.
pub proof fn law_slice_data_decodes_to_the_slice(
    records: Seq<Record>,
    sao: Option<Seq<SaoCell>>,
    qp: int,
    columns: int,
)
    requires
        columns > 0,
        0 < records.len() <= 0x40_0000_0000,
        linked(records, columns),
        grid_signalled_whole(sao, records.len() as int),
    ensures
        decoded_slice_data(
            bytes_bits(slice_data(records, sao, qp, columns)),
            sao is Some,
            qp,
            columns,
            records.len(),
        ) == Some(SliceContent { records, grid: sao }),
{
    let bins = blocks_bins(records, sao, columns, records.len());
    reveal(decoded_slice_data);
    law_slice_is_a_codeword(records, sao, columns);
    lemma_bytes_feed(bins, qp);
    let decoder = Decoder::start(bytes_bits(coded_bytes(bins, qp)))->Ok_0;
    lemma_reads_slice(Source { decoder, ctxs: initial_contexts(qp) }, records, sao, columns, records.len());
    assert(records.take(records.len() as int) =~= records);
    if let Some(g) = sao {
        assert(g.take(g.len() as int) =~= g);
    }
}

} // verus!
