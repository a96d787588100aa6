//! What the bins of a slice tell: the decisions of every coding unit and the offsets of
//! every block.
use vstd::prelude::*;
use vstd::arithmetic::power2::lemma2_to64;
use crate::arith::abs;
use crate::bins::{
    bypass_bins, contexts_wf, decision_bin, encode_bins, initial_contexts, Bin, CONTEXTS, CTX_CHROMA_MODE, CTX_PREV_INTRA,
};
use crate::bits::{aligned, be_bits, lemma_pack_bits, padding, zeros};
use crate::cabac_encoder::Coder;
use crate::cabac_laws::{codeword, lemma_codeword_shifts_bound};
use crate::decision::unit_candidates;
use crate::forks::{
    fork_at, forks, inner, inner_bin, law_forked_bins_code_differently, lemma_fork_bypass, lemma_fork_concat,
    lemma_inner_bypass, lemma_inner_concat, lemma_part_concat, lemma_part_value, part_at, parts,
};
use crate::intra::INTRA_DC;
use crate::modes::{
    chroma_mode_bins, is_candidates, law_remaining_mode_reads_back, luma_mode_bins, remaining, CHROMA_MODE_DERIVED,
};
use crate::residual::{has_levels, ResidualWriteParams};
use crate::residual_laws::{law_residual_bins_tell_the_levels, lemma_residual_inner};
use crate::sao::{sao_off, SaoCell, SaoModel, SAO_OFFSET_MAX};
use crate::scan::area;
use crate::slice::{
    block_bins, blocks_bins, chroma_params, coded_bins, component_bins, flag_bins, luma_params, magnitude_bits,
    magnitudes, merge_bins, merges_left, merges_up, placement, sao_bins, sign_bits, signs, slice_data, type_bins,
    unit_bins, unit_head, Record,
};

verus! {

/// Different luma modes fork, against the same most probable modes.
proof fn lemma_luma_mode_forks(m: u8, k: u8, c: Seq<u8>)
    requires
        is_candidates(c),
        m <= 34,
        k <= 34,
        m != k,
    ensures
        forks(luma_mode_bins(m, c), luma_mode_bins(k, c)),
{
    let probable_m = c[0] == m || c[1] == m || c[2] == m;
    let probable_k = c[0] == k || c[1] == k || c[2] == k;
    if probable_m != probable_k {
        assert(fork_at(luma_mode_bins(m, c), luma_mode_bins(k, c), 0));
    } else if probable_m {
        if c[0] == m || c[0] == k {
            assert(fork_at(luma_mode_bins(m, c), luma_mode_bins(k, c), 1));
        } else {
            assert(fork_at(luma_mode_bins(m, c), luma_mode_bins(k, c), 2));
        }
    } else {
        law_remaining_mode_reads_back(m as int, c);
        law_remaining_mode_reads_back(k as int, c);
        lemma2_to64();
        let u = remaining(m as int, c) as nat;
        let v = remaining(k as int, c) as nat;
        lemma_part_value(u, v, 5);
        lemma_fork_bypass(be_bits(u, 5), be_bits(v, 5));
        let head = seq![decision_bin(CTX_PREV_INTRA as int, 0, false)];
        lemma_fork_concat(head, bypass_bins(be_bits(u, 5)), head, bypass_bins(be_bits(v, 5)));
    }
}

/// Different signalled chroma modes fork.
proof fn lemma_chroma_mode_forks(m: u8, k: u8)
    requires
        m <= CHROMA_MODE_DERIVED,
        k <= CHROMA_MODE_DERIVED,
        m != k,
    ensures
        forks(chroma_mode_bins(m), chroma_mode_bins(k)),
{
    if m == CHROMA_MODE_DERIVED || k == CHROMA_MODE_DERIVED {
        assert(fork_at(chroma_mode_bins(m), chroma_mode_bins(k), 0));
    } else {
        lemma2_to64();
        lemma_part_value(m as nat, k as nat, 2);
        lemma_fork_bypass(be_bits(m as nat, 2), be_bits(k as nat, 2));
        let head = seq![decision_bin(CTX_CHROMA_MODE as int, 0, true)];
        lemma_fork_concat(head, bypass_bins(be_bits(m as nat, 2)), head, bypass_bins(be_bits(k as nat, 2)));
    }
}

/// Different coded block flags fork.
proof fn lemma_flag_forks(r: Record, s: Record)
    requires
        has_levels(r.cb) != has_levels(s.cb) || has_levels(r.cr) != has_levels(s.cr) || has_levels(r.luma)
            != has_levels(s.luma),
    ensures
        forks(flag_bins(r), flag_bins(s)),
{
    if has_levels(r.cb) != has_levels(s.cb) {
        assert(fork_at(flag_bins(r), flag_bins(s), 0));
    } else if has_levels(r.cr) != has_levels(s.cr) {
        assert(fork_at(flag_bins(r), flag_bins(s), 1));
    } else {
        assert(fork_at(flag_bins(r), flag_bins(s), 2));
    }
}

/// Different blocks with the same flag fork.
proof fn lemma_coded_forks(p: ResidualWriteParams, a: Seq<i32>, b: Seq<i32>)
    requires
        p.wf(),
        a.len() == area(p.log2_trafo_size as int),
        b.len() == area(p.log2_trafo_size as int),
        has_levels(a) == has_levels(b),
        a != b,
    ensures
        forks(coded_bins(p, a), coded_bins(p, b)),
{
    if has_levels(a) {
        law_residual_bins_tell_the_levels(p, a, b);
    } else {
        assert(a =~= b) by {
            assert forall|i: int| 0 <= i < a.len() implies a[i] == b[i] by {
                assert(a[i] == 0 && b[i] == 0);
            }
        }
    }
}

/// The bins of a coding unit tell its decisions: the units of two different records
/// that are signalled against the same most probable modes fork.
pub proof fn law_unit_bins_tell_the_record(r: Record, s: Record)
    requires
        r.wf(),
        s.wf(),
        r.candidates == s.candidates,
        r != s,
    ensures
        forks(unit_bins(r), unit_bins(s)),
{
    reveal(unit_bins);
    let (mr, ms) = (luma_mode_bins(r.mode, r.candidates), luma_mode_bins(s.mode, s.candidates));
    let (cr, cs) = (chroma_mode_bins(r.chroma_mode), chroma_mode_bins(s.chroma_mode));
    let (fr, fs) = (flag_bins(r), flag_bins(s));
    let (lr, ls) = (coded_bins(luma_params(), r.luma), coded_bins(luma_params(), s.luma));
    let (br, bs) = (coded_bins(chroma_params(), r.cb), coded_bins(chroma_params(), s.cb));
    let (rr, rs) = (coded_bins(chroma_params(), r.cr), coded_bins(chroma_params(), s.cr));
    if r.mode != s.mode {
        lemma_luma_mode_forks(r.mode, s.mode, r.candidates);
    } else {
        if r.chroma_mode != s.chroma_mode {
            lemma_chroma_mode_forks(r.chroma_mode, s.chroma_mode);
        } else {
            if has_levels(r.cb) != has_levels(s.cb) || has_levels(r.cr) != has_levels(s.cr) || has_levels(r.luma)
                != has_levels(s.luma) {
                lemma_flag_forks(r, s);
            } else {
                if r.luma != s.luma {
                    lemma_coded_forks(luma_params(), r.luma, s.luma);
                } else {
                    if r.cb != s.cb {
                        lemma_coded_forks(chroma_params(), r.cb, s.cb);
                    } else {
                        lemma_coded_forks(chroma_params(), r.cr, s.cr);
                    }
                    lemma_fork_concat(br, rr, bs, rs);
                }
                lemma_fork_concat(lr, br + rr, ls, bs + rs);
            }
            lemma_fork_concat(fr, lr + (br + rr), fs, ls + (bs + rs));
        }
        lemma_fork_concat(cr, fr + (lr + (br + rr)), cs, fs + (ls + (bs + rs)));
    }
    lemma_fork_concat(mr, cr + (fr + (lr + (br + rr))), ms, cs + (fs + (ls + (bs + rs))));
    lemma_fork_concat(
        unit_head(),
        mr + (cr + (fr + (lr + (br + rr)))),
        unit_head(),
        ms + (cs + (fs + (ls + (bs + rs)))),
    );
}

/// The parameters hold nothing that is not signalled: no offsets have none, bands have
/// no class, and edges have no band position and the signs that their categories imply.
pub open spec fn signalled_whole(m: SaoModel) -> bool {
    &&& m.wf()
    &&& m.kind == 0 ==> m == sao_off()
    &&& m.kind == 1 ==> m.class == 0
    &&& m.kind == 2 ==> m.band == 0 && m.offsets[1] >= 0 && m.offsets[2] >= 0 && m.offsets[3] <= 0 && m.offsets[4] <= 0
}

/// A block whose components hold nothing that is not signalled.
pub open spec fn cell_signalled_whole(c: SaoCell) -> bool {
    &&& c.wf()
    &&& signalled_whole(c.luma)
    &&& signalled_whole(c.cb)
    &&& signalled_whole(c.cr)
}

/// Different magnitudes part.
proof fn lemma_magnitude_parts(u: int, v: int)
    requires
        -SAO_OFFSET_MAX <= u <= SAO_OFFSET_MAX,
        -SAO_OFFSET_MAX <= v <= SAO_OFFSET_MAX,
        abs(u) != abs(v),
    ensures
        parts(magnitude_bits(u), magnitude_bits(v)),
{
    let k = if abs(u) < abs(v) {
        abs(u)
    } else {
        abs(v)
    };
    assert(part_at(magnitude_bits(u), magnitude_bits(v), k));
}

/// The magnitudes of two components part, or are the same.
proof fn lemma_magnitudes_part(a: Seq<i32>, b: Seq<i32>)
    requires
        a.len() == 5,
        b.len() == 5,
        forall|i: int| 0 <= i < 5 ==> -SAO_OFFSET_MAX <= #[trigger] a[i] <= SAO_OFFSET_MAX,
        forall|i: int| 0 <= i < 5 ==> -SAO_OFFSET_MAX <= #[trigger] b[i] <= SAO_OFFSET_MAX,
    ensures
        parts(magnitudes(a), magnitudes(b)) || magnitudes(a) == magnitudes(b) && forall|i: int|
            1 <= i < 5 ==> abs(#[trigger] a[i] as int) == abs(b[i] as int),
{
    let (a1, b1) = (magnitude_bits(a[1] as int), magnitude_bits(b[1] as int));
    let (a2, b2) = (magnitude_bits(a[2] as int), magnitude_bits(b[2] as int));
    let (a3, b3) = (magnitude_bits(a[3] as int), magnitude_bits(b[3] as int));
    let (a4, b4) = (magnitude_bits(a[4] as int), magnitude_bits(b[4] as int));
    if abs(a[1] as int) != abs(b[1] as int) {
        lemma_magnitude_parts(a[1] as int, b[1] as int);
        lemma_part_concat(a1, a2 + (a3 + a4), b1, b2 + (b3 + b4));
    } else if abs(a[2] as int) != abs(b[2] as int) {
        lemma_magnitude_parts(a[2] as int, b[2] as int);
        lemma_part_concat(a2, a3 + a4, b2, b3 + b4);
        lemma_part_concat(a1, a2 + (a3 + a4), b1, b2 + (b3 + b4));
    } else if abs(a[3] as int) != abs(b[3] as int) {
        lemma_magnitude_parts(a[3] as int, b[3] as int);
        lemma_part_concat(a3, a4, b3, b4);
        lemma_part_concat(a2, a3 + a4, b2, b3 + b4);
        lemma_part_concat(a1, a2 + (a3 + a4), b1, b2 + (b3 + b4));
    } else if abs(a[4] as int) != abs(b[4] as int) {
        lemma_magnitude_parts(a[4] as int, b[4] as int);
        lemma_part_concat(a3, a4, b3, b4);
        lemma_part_concat(a2, a3 + a4, b2, b3 + b4);
        lemma_part_concat(a1, a2 + (a3 + a4), b1, b2 + (b3 + b4));
    }
}

/// Different offsets of one magnitude part in their signs.
proof fn lemma_sign_parts(u: int, v: int)
    requires
        abs(u) == abs(v),
        u != v,
    ensures
        parts(sign_bits(u), sign_bits(v)),
{
    assert(part_at(sign_bits(u), sign_bits(v), 0));
}

/// Different offsets of the same magnitudes part in their signs.
proof fn lemma_signs_part(a: Seq<i32>, b: Seq<i32>)
    requires
        a.len() == 5,
        b.len() == 5,
        a[0] == b[0],
        forall|i: int| 1 <= i < 5 ==> abs(#[trigger] a[i] as int) == abs(b[i] as int),
        a != b,
    ensures
        parts(signs(a), signs(b)),
{
    let (a1, b1) = (sign_bits(a[1] as int), sign_bits(b[1] as int));
    let (a2, b2) = (sign_bits(a[2] as int), sign_bits(b[2] as int));
    let (a3, b3) = (sign_bits(a[3] as int), sign_bits(b[3] as int));
    let (a4, b4) = (sign_bits(a[4] as int), sign_bits(b[4] as int));
    assert(abs(a[1] as int) == abs(b[1] as int));
    assert(abs(a[2] as int) == abs(b[2] as int));
    assert(abs(a[3] as int) == abs(b[3] as int));
    assert(abs(a[4] as int) == abs(b[4] as int));
    if a[1] != b[1] {
        lemma_sign_parts(a[1] as int, b[1] as int);
    } else {
        if a[2] != b[2] {
            lemma_sign_parts(a[2] as int, b[2] as int);
        } else {
            if a[3] != b[3] {
                lemma_sign_parts(a[3] as int, b[3] as int);
            } else {
                if a[4] == b[4] {
                    assert(a =~= b);
                }
                lemma_sign_parts(a[4] as int, b[4] as int);
            }
            lemma_part_concat(a3, a4, b3, b4);
        }
        lemma_part_concat(a2, a3 + a4, b2, b3 + b4);
    }
    lemma_part_concat(a1, a2 + (a3 + a4), b1, b2 + (b3 + b4));
}

/// Different components of one kind fork. Cr shares its class with Cb.
proof fn lemma_component_forks(m: SaoModel, k: SaoModel, c: int)
    requires
        signalled_whole(m),
        signalled_whole(k),
        0 <= c <= 2,
        c == 2 ==> m.kind == k.kind && m.class == k.class,
        m != k,
    ensures
        forks(component_bins(m, c), component_bins(k, c)),
{
    let (tm, tk) = (type_bins(m, c), type_bins(k, c));
    let (om, ok) = (magnitudes(m.offsets), magnitudes(k.offsets));
    let (pm, pk) = (placement(m, c), placement(k, c));
    let none = Seq::<Bin>::empty();
    let rest_m = if m.kind == 0 {
        none
    } else {
        bypass_bins(om) + bypass_bins(pm)
    };
    let rest_k = if k.kind == 0 {
        none
    } else {
        bypass_bins(ok) + bypass_bins(pk)
    };
    if m.kind != k.kind {
        if m.kind == 0 || k.kind == 0 {
            assert(fork_at(tm, tk, 0));
        } else {
            assert(fork_at(tm, tk, 1));
        }
    } else {
        assert(m.kind != 0);
        lemma_magnitudes_part(m.offsets, k.offsets);
        if parts(om, ok) {
            lemma_fork_bypass(om, ok);
        } else {
            if m.kind == 1 {
                let (bm, bk) = (be_bits(m.band as nat, 5), be_bits(k.band as nat, 5));
                if m.offsets != k.offsets {
                    lemma_signs_part(m.offsets, k.offsets);
                } else {
                    assert(m.band != k.band);
                    lemma2_to64();
                    lemma_part_value(m.band as nat, k.band as nat, 5);
                }
                lemma_part_concat(signs(m.offsets), bm, signs(k.offsets), bk);
            } else {
                assert(m.offsets =~= k.offsets) by {
                    assert forall|i: int| 0 <= i < 5 implies m.offsets[i] == k.offsets[i] by {
                        if i >= 1 {
                            assert(abs(m.offsets[i] as int) == abs(k.offsets[i] as int));
                        }
                    }
                }
                assert(m.class != k.class);
                lemma2_to64();
                lemma_part_value(m.class as nat, k.class as nat, 2);
            }
            lemma_fork_bypass(pm, pk);
        }
        lemma_fork_concat(bypass_bins(om), bypass_bins(pm), bypass_bins(ok), bypass_bins(pk));
    }
    lemma_fork_concat(tm, rest_m, tk, rest_k);
}

proof fn lemma_cell_forks(a: SaoCell, b: SaoCell)
    requires
        cell_signalled_whole(a),
        cell_signalled_whole(b),
        a != b,
    ensures
        forks(
            component_bins(a.luma, 0) + (component_bins(a.cb, 1) + component_bins(a.cr, 2)),
            component_bins(b.luma, 0) + (component_bins(b.cb, 1) + component_bins(b.cr, 2)),
        ),
{
    let (la, lb) = (component_bins(a.luma, 0), component_bins(b.luma, 0));
    let (ba, bb) = (component_bins(a.cb, 1), component_bins(b.cb, 1));
    let (ra, rb) = (component_bins(a.cr, 2), component_bins(b.cr, 2));
    if a.luma != b.luma {
        lemma_component_forks(a.luma, b.luma, 0);
    } else {
        if a.cb != b.cb {
            lemma_component_forks(a.cb, b.cb, 1);
        } else {
            lemma_component_forks(a.cr, b.cr, 2);
        }
        lemma_fork_concat(ba, ra, bb, rb);
    }
    lemma_fork_concat(la, ba + ra, lb, bb + rb);
}

/// The two grids agree before `addr`.
pub open spec fn same_before(g: Seq<SaoCell>, h: Seq<SaoCell>, addr: int) -> bool {
    forall|i: int| 0 <= i < addr ==> #[trigger] g[i] == h[i]
}

/// The bins of a block's offsets tell the offsets: where two grids agree before a block
/// and differ in it, the bins fork, and where they agree in it too, so do the bins.
pub proof fn law_sao_bins_tell_the_offsets(g: Seq<SaoCell>, h: Seq<SaoCell>, addr: int, columns: int)
    requires
        columns > 0,
        0 <= addr < g.len(),
        addr < h.len(),
        same_before(g, h, addr),
        cell_signalled_whole(g[addr]),
        cell_signalled_whole(h[addr]),
    ensures
        g[addr] == h[addr] ==> sao_bins(g, addr, columns) == sao_bins(h, addr, columns),
        g[addr] != h[addr] ==> forks(sao_bins(g, addr, columns), sao_bins(h, addr, columns)),
{
    reveal(sao_bins);
    let has_left = addr % columns > 0;
    let has_up = addr / columns > 0;
    lemma_neighbour_addresses(addr, columns);
    let (lg, lh) = (merges_left(g, addr, columns), merges_left(h, addr, columns));
    let (ug, uh) = (merges_up(g, addr, columns), merges_up(h, addr, columns));
    if has_left {
        assert(g[addr - 1] == h[addr - 1]);
    }
    if has_up {
        assert(g[addr - columns] == h[addr - columns]);
    }
    if g[addr] != h[addr] {
        let none = Seq::<Bin>::empty();
        let (mg, mh) = (merge_bins(has_left, lg), merge_bins(has_left, lh));
        let (ng, nh) = (merge_bins(has_up, ug), merge_bins(has_up, uh));
        let cg = component_bins(g[addr].luma, 0) + (component_bins(g[addr].cb, 1) + component_bins(g[addr].cr, 2));
        let ch = component_bins(h[addr].luma, 0) + (component_bins(h[addr].cb, 1) + component_bins(h[addr].cr, 2));
        let own_g = if ug {
            none
        } else {
            cg
        };
        let own_h = if uh {
            none
        } else {
            ch
        };
        let rest_g = if lg {
            none
        } else {
            ng + own_g
        };
        let rest_h = if lh {
            none
        } else {
            nh + own_h
        };
        if lg != lh {
            assert(fork_at(mg, mh, 0));
        } else {
            assert(!lg);
            if ug != uh {
                assert(fork_at(ng, nh, 0));
            } else {
                assert(!ug);
                lemma_cell_forks(g[addr], h[addr]);
            }
            lemma_fork_concat(ng, own_g, nh, own_h);
        }
        lemma_fork_concat(mg, rest_g, mh, rest_h);
    }
}

pub proof fn lemma_neighbour_addresses(addr: int, columns: int)
    requires
        columns > 0,
        addr >= 0,
    ensures
        addr % columns > 0 ==> addr >= 1,
        addr / columns > 0 ==> addr >= columns,
{
    vstd::arithmetic::div_mod::lemma_fundamental_div_mod(addr, columns);
    if addr / columns > 0 {
        assert(addr >= columns) by (nonlinear_arith)
            requires
                addr == columns * (addr / columns) + addr % columns,
                addr / columns >= 1,
                addr % columns >= 0,
                columns > 0,
        ;
    }
    if addr == 0 {
        assert(0int % columns == 0) by (nonlinear_arith)
            requires
                columns > 0,
        ;
    }
}

/// Every record is well formed and signalled against the most probable modes that the
/// record before it leaves.
pub open spec fn linked(records: Seq<Record>, columns: int) -> bool {
    forall|i: int| 0 <= i < records.len() ==> #[trigger] linked_at(records, columns, i)
}

/// Record `i` is well formed and signalled against what the record before it leaves.
pub open spec fn linked_at(records: Seq<Record>, columns: int, i: int) -> bool {
    &&& records[i].wf()
    &&& records[i].candidates == unit_candidates(
        if i > 0 {
            records[i - 1].mode
        } else {
            INTRA_DC
        },
        i % columns * 16,
    )
}

/// There is a grid for all records, each cell of which is signalled whole, or none.
pub open spec fn grid_signalled_whole(sao: Option<Seq<SaoCell>>, n: int) -> bool {
    match sao {
        Some(g) => g.len() == n && forall|i: int| 0 <= i < n ==> cell_signalled_whole(#[trigger] g[i]),
        None => true,
    }
}

/// Two slices agree in their first `n` blocks.
spec fn same_blocks(rs: Seq<Record>, ss: Seq<Record>, g: Option<Seq<SaoCell>>, h: Option<Seq<SaoCell>>, n: int) -> bool {
    &&& forall|i: int| 0 <= i < n ==> #[trigger] rs[i] == ss[i]
    &&& match (g, h) {
        (Some(a), Some(b)) => same_before(a, b, n),
        _ => true,
    }
}

/// The block at `addr` forks, or is the same, where the blocks before it are.
proof fn lemma_block_forks(
    rs: Seq<Record>,
    ss: Seq<Record>,
    g: Option<Seq<SaoCell>>,
    h: Option<Seq<SaoCell>>,
    columns: int,
    addr: int,
)
    requires
        columns > 0,
        rs.len() == ss.len(),
        linked(rs, columns),
        linked(ss, columns),
        grid_signalled_whole(g, rs.len() as int),
        grid_signalled_whole(h, rs.len() as int),
        g is Some == h is Some,
        0 <= addr < rs.len(),
        same_blocks(rs, ss, g, h, addr),
    ensures
        forks(block_bins(rs, g, columns, addr), block_bins(ss, h, columns, addr)) || block_bins(rs, g, columns, addr)
            == block_bins(ss, h, columns, addr) && same_blocks(rs, ss, g, h, addr + 1),
{
    assert(linked_at(rs, columns, addr) && linked_at(ss, columns, addr));
    if addr > 0 {
        assert(rs[addr - 1] == ss[addr - 1]);
    }
    let end = seq![Bin::Terminate { end: addr == rs.len() - 1 }];
    let (ur, us) = (unit_bins(rs[addr]), unit_bins(ss[addr]));
    let (or, os) = match (g, h) {
        (Some(a), Some(b)) => (sao_bins(a, addr, columns), sao_bins(b, addr, columns)),
        _ => (Seq::empty(), Seq::empty()),
    };
    if let Some(a) = g {
        if let Some(b) = h {
            law_sao_bins_tell_the_offsets(a, b, addr, columns);
        }
    }
    if rs[addr] != ss[addr] {
        law_unit_bins_tell_the_record(rs[addr], ss[addr]);
        lemma_fork_concat(ur, end, us, end);
    }
    if forks(or, os) || or == os && forks(ur + end, us + end) {
        lemma_fork_concat(or, ur + end, os, us + end);
    }
}

proof fn lemma_blocks_fork(
    rs: Seq<Record>,
    ss: Seq<Record>,
    g: Option<Seq<SaoCell>>,
    h: Option<Seq<SaoCell>>,
    columns: int,
    n: nat,
)
    requires
        columns > 0,
        rs.len() == ss.len(),
        linked(rs, columns),
        linked(ss, columns),
        grid_signalled_whole(g, rs.len() as int),
        grid_signalled_whole(h, rs.len() as int),
        g is Some == h is Some,
        n <= rs.len(),
    ensures
        forks(blocks_bins(rs, g, columns, n), blocks_bins(ss, h, columns, n)) || blocks_bins(rs, g, columns, n)
            == blocks_bins(ss, h, columns, n) && same_blocks(rs, ss, g, h, n as int),
    decreases n,
{
    if n > 0 {
        let m = (n - 1) as nat;
        lemma_blocks_fork(rs, ss, g, h, columns, m);
        let (br, bs) = (blocks_bins(rs, g, columns, m), blocks_bins(ss, h, columns, m));
        let (lr, ls) = (block_bins(rs, g, columns, n - 1), block_bins(ss, h, columns, n - 1));
        if !forks(br, bs) {
            lemma_block_forks(rs, ss, g, h, columns, n - 1);
        }
        if forks(br, bs) || forks(lr, ls) {
            lemma_fork_concat(br, lr, bs, ls);
        }
    }
}

/// The bins of a slice tell its decisions: two slices of one shape that differ in a
/// record or an offset fork.
pub proof fn law_slice_bins_tell_the_slice(
    rs: Seq<Record>,
    ss: Seq<Record>,
    g: Option<Seq<SaoCell>>,
    h: Option<Seq<SaoCell>>,
    columns: int,
)
    requires
        columns > 0,
        rs.len() == ss.len(),
        linked(rs, columns),
        linked(ss, columns),
        grid_signalled_whole(g, rs.len() as int),
        grid_signalled_whole(h, rs.len() as int),
        g is Some == h is Some,
        rs != ss || g != h,
    ensures
        forks(blocks_bins(rs, g, columns, rs.len()), blocks_bins(ss, h, columns, ss.len())),
{
    lemma_blocks_fork(rs, ss, g, h, columns, rs.len());
    if same_blocks(rs, ss, g, h, rs.len() as int) {
        assert(rs =~= ss);
        if let Some(a) = g {
            if let Some(b) = h {
                assert(a =~= b);
            }
        }
    }
}

proof fn lemma_unit_inner(r: Record)
    requires
        r.wf(),
    ensures
        inner(unit_bins(r), 280000),
{
    reveal(unit_bins);
    let m = luma_mode_bins(r.mode, r.candidates);
    let c = chroma_mode_bins(r.chroma_mode);
    let f = flag_bins(r);
    let l = coded_bins(luma_params(), r.luma);
    let b = coded_bins(chroma_params(), r.cb);
    let d = coded_bins(chroma_params(), r.cr);
    assert(inner(unit_head(), 2));
    assert(inner(m, 6));
    assert(inner(c, 3));
    assert(inner(f, 3));
    if has_levels(r.luma) {
        lemma_residual_inner(luma_params(), r.luma);
    }
    if has_levels(r.cb) {
        lemma_residual_inner(chroma_params(), r.cb);
    }
    if has_levels(r.cr) {
        lemma_residual_inner(chroma_params(), r.cr);
    }
    lemma_inner_concat(b, 90000, d, 90000);
    lemma_inner_concat(l, 90000, b + d, 180000);
    lemma_inner_concat(f, 3, l + (b + d), 270000);
    lemma_inner_concat(c, 3, f + (l + (b + d)), 270003);
    lemma_inner_concat(m, 6, c + (f + (l + (b + d))), 270006);
    lemma_inner_concat(unit_head(), 2, m + (c + (f + (l + (b + d)))), 270012);
}

proof fn lemma_component_inner(m: SaoModel, c: int)
    requires
        m.wf(),
    ensures
        inner(component_bins(m, c), 100),
{
    let o = m.offsets;
    assert(-7 <= o[1] <= 7 && -7 <= o[2] <= 7 && -7 <= o[3] <= 7 && -7 <= o[4] <= 7);
    assert(magnitudes(o).len() <= 28);
    assert(placement(m, c).len() <= 9);
    lemma_inner_bypass(magnitudes(o));
    lemma_inner_bypass(placement(m, c));
    assert(inner(type_bins(m, c), 2));
    lemma_inner_concat(bypass_bins(magnitudes(o)), 28, bypass_bins(placement(m, c)), 9);
    let rest = if m.kind == 0 {
        Seq::empty()
    } else {
        bypass_bins(magnitudes(o)) + bypass_bins(placement(m, c))
    };
    lemma_inner_concat(type_bins(m, c), 2, rest, 37);
}

proof fn lemma_sao_inner(g: Seq<SaoCell>, addr: int, columns: int)
    requires
        g[addr].wf(),
    ensures
        inner(sao_bins(g, addr, columns), 1000),
{
    reveal(sao_bins);
    let here = g[addr];
    lemma_component_inner(here.luma, 0);
    lemma_component_inner(here.cb, 1);
    lemma_component_inner(here.cr, 2);
    let c = component_bins(here.luma, 0) + (component_bins(here.cb, 1) + component_bins(here.cr, 2));
    lemma_inner_concat(component_bins(here.cb, 1), 100, component_bins(here.cr, 2), 100);
    lemma_inner_concat(
        component_bins(here.luma, 0),
        100,
        component_bins(here.cb, 1) + component_bins(here.cr, 2),
        200,
    );
    let left = merges_left(g, addr, columns);
    let up = merges_up(g, addr, columns);
    let own = if up {
        Seq::empty()
    } else {
        c
    };
    let m = merge_bins(addr % columns > 0, left);
    let n = merge_bins(addr / columns > 0, up);
    assert(inner(m, 1) && inner(n, 1));
    assert(inner(Seq::<Bin>::empty(), 0));
    lemma_inner_concat(n, 1, own, 300);
    let rest = if left {
        Seq::empty()
    } else {
        n + own
    };
    lemma_inner_concat(m, 1, rest, 301);
}

/// The offsets and the unit of a block.
spec fn block_body(records: Seq<Record>, sao: Option<Seq<SaoCell>>, columns: int, addr: int) -> Seq<Bin> {
    (match sao {
        Some(grid) => sao_bins(grid, addr, columns),
        None => Seq::empty(),
    }) + unit_bins(records[addr])
}

proof fn lemma_body_inner(records: Seq<Record>, sao: Option<Seq<SaoCell>>, columns: int, addr: int)
    requires
        0 <= addr < records.len(),
        linked(records, columns),
        grid_signalled_whole(sao, records.len() as int),
    ensures
        inner(block_body(records, sao, columns, addr), 290000),
        block_bins(records, sao, columns, addr) == block_body(records, sao, columns, addr) + seq![
            Bin::Terminate { end: addr == records.len() - 1 },
        ],
{
    assert(linked_at(records, columns, addr));
    lemma_unit_inner(records[addr]);
    let offsets = match sao {
        Some(grid) => sao_bins(grid, addr, columns),
        None => Seq::empty(),
    };
    if let Some(grid) = sao {
        lemma_sao_inner(grid, addr, columns);
    }
    lemma_inner_concat(offsets, 1000, unit_bins(records[addr]), 280000);
    let end = seq![Bin::Terminate { end: addr == records.len() - 1 }];
    assert(offsets + (unit_bins(records[addr]) + end) =~= (offsets + unit_bins(records[addr])) + end);
}

proof fn lemma_blocks_inner(records: Seq<Record>, sao: Option<Seq<SaoCell>>, columns: int, n: nat)
    requires
        n < records.len(),
        linked(records, columns),
        grid_signalled_whole(sao, records.len() as int),
    ensures
        inner(blocks_bins(records, sao, columns, n), 300000 * n as int),
    decreases n,
{
    if n > 0 {
        let m = (n - 1) as nat;
        lemma_blocks_inner(records, sao, columns, m);
        lemma_body_inner(records, sao, columns, n - 1);
        let end = seq![Bin::Terminate { end: false }];
        assert(inner(end, 1));
        lemma_inner_concat(block_body(records, sao, columns, n - 1), 290000, end, 1);
        lemma_inner_concat(
            blocks_bins(records, sao, columns, m),
            300000 * m as int,
            block_bins(records, sao, columns, n - 1),
            290001,
        );
    }
}

/// The bins of a slice are one codeword.
pub proof fn law_slice_is_a_codeword(records: Seq<Record>, sao: Option<Seq<SaoCell>>, columns: int)
    requires
        records.len() > 0,
        linked(records, columns),
        grid_signalled_whole(sao, records.len() as int),
    ensures
        codeword(blocks_bins(records, sao, columns, records.len()), CONTEXTS as nat),
        blocks_bins(records, sao, columns, records.len()).len() <= 300000 * records.len(),
{
    let m = (records.len() - 1) as nat;
    lemma_blocks_inner(records, sao, columns, m);
    lemma_body_inner(records, sao, columns, m as int);
    let before = blocks_bins(records, sao, columns, m);
    let body = block_body(records, sao, columns, m as int);
    let end = seq![Bin::Terminate { end: true }];
    lemma_inner_concat(before, 300000 * m as int, body, 290000);
    let bins = blocks_bins(records, sao, columns, records.len());
    assert(bins =~= (before + body) + end);
    assert forall|i: int| 0 <= i < bins.len() - 1 implies inner_bin(#[trigger] bins[i]) by {
        assert(bins[i] == (before + body)[i]);
    }
}

pub proof fn lemma_initial_contexts(qp: int)
    ensures
        contexts_wf(initial_contexts(qp)),
        initial_contexts(qp).len() == CONTEXTS,
{
}

/// The slice data tells the slice: pictures of one size and QP with the same slice data
/// have the same decisions and the same offsets.
pub proof fn law_slice_data_tells_the_slice(
    rs: Seq<Record>,
    ss: Seq<Record>,
    g: Option<Seq<SaoCell>>,
    h: Option<Seq<SaoCell>>,
    qp: int,
    columns: int,
)
    requires
        columns > 0,
        0 < rs.len() <= 0x40_0000_0000,
        rs.len() == ss.len(),
        linked(rs, columns),
        linked(ss, columns),
        grid_signalled_whole(g, rs.len() as int),
        grid_signalled_whole(h, rs.len() as int),
        g is Some == h is Some,
        slice_data(rs, g, qp, columns) == slice_data(ss, h, qp, columns),
    ensures
        rs == ss,
        g == h,
{
    if rs != ss || g != h {
        let a = blocks_bins(rs, g, columns, rs.len());
        let b = blocks_bins(ss, h, columns, ss.len());
        law_slice_bins_tell_the_slice(rs, ss, g, h, columns);
        law_slice_is_a_codeword(rs, g, columns);
        law_slice_is_a_codeword(ss, h, columns);
        lemma_initial_contexts(qp);
        lemma_codeword_shifts_bound(initial_contexts(qp), a);
        lemma_codeword_shifts_bound(initial_contexts(qp), b);
        let none = Seq::<bool>::empty();
        let out_a = encode_bins(Coder::start(none), initial_contexts(qp), a).out;
        let out_b = encode_bins(Coder::start(none), initial_contexts(qp), b).out;
        lemma_pack_bits(aligned(out_a));
        lemma_pack_bits(aligned(out_b));
        assert(aligned(aligned(out_a)) =~= aligned(out_a));
        assert(aligned(aligned(out_b)) =~= aligned(out_b));
        law_forked_bins_code_differently(
            none,
            initial_contexts(qp),
            a,
            b,
            zeros(padding(out_a.len())),
            zeros(padding(out_b.len())),
        );
    }
}

/// The offsets that the PCM writer signals: four bands from the ninth on, moved by 1, -2, 3 and
/// -4; or the vertical edge class, its valleys raised by 1 and 2 and its peaks lowered by 1 and
/// 2.
pub open spec fn fixed_offsets(band: bool) -> SaoModel {
    if band {
        SaoModel { kind: 1, offsets: seq![0i32, 1, (-2) as i32, 3, (-4) as i32], band: 8, class: 0 }
    } else {
        SaoModel { kind: 2, offsets: seq![0i32, 1, 2, (-1) as i32, (-2) as i32], band: 0, class: 1 }
    }
}

/// The offsets of the PCM writer are ordinary syntax: behind the merges that it declines it
/// puts the bins that any slice puts for the same luma offsets.
pub proof fn law_fixed_offsets_are_ordinary_syntax(band: bool, left: bool, up: bool)
    ensures
        crate::pcm::sao_bins(band, left, up) == merge_bins(left, false) + merge_bins(up, false) + component_bins(
            fixed_offsets(band),
            0,
        ),
        fixed_offsets(band).wf(),
{
    let m = fixed_offsets(band);
    let bits = crate::pcm::sao_parameter_bits(band);
    assert(bypass_bins(bits) =~= seq![Bin::Bypass { bit: m.kind == 2 }] + (bypass_bins(magnitudes(m.offsets))
        + bypass_bins(placement(m, 0)))) by {
        assert(bits =~= seq![m.kind == 2] + (magnitudes(m.offsets) + placement(m, 0)));
    }
    assert(crate::pcm::sao_bins(band, left, up) =~= merge_bins(left, false) + merge_bins(up, false) + component_bins(m, 0));
}

} // verus!
