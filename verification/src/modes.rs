//! How intra modes are signalled: the most probable luma modes, the luma mode
//! against them, and the chroma mode.
use vstd::prelude::*;
use crate::arith::{max, min};
use crate::bins::{
    appended, bypass_bins, decision_bin, lemma_append, put_bypass, put_bypass_bits, put_decision, Bin, CTX_CHROMA_MODE,
    CTX_PREV_INTRA,
};
use crate::bits::be_bits;
use crate::intra::{INTRA_DC, INTRA_HORIZONTAL, INTRA_PLANAR, INTRA_VERTICAL};

verus! {

/// The chroma mode that follows the luma mode.
pub const CHROMA_MODE_DERIVED: u8 = 4;

/// The diagonal mode that stands in where a chroma mode would repeat the luma mode.
pub const INTRA_DIAGONAL: u8 = 34;

/// The three most probable modes, from those of the left and of the upper neighbour.
pub open spec fn candidate_modes(a: int, b: int) -> (int, int, int) {
    if a == b && a < 2 {
        (INTRA_PLANAR as int, INTRA_DC as int, INTRA_VERTICAL as int)
    } else if a == b {
        (a, 2 + (a + 29) % 32, 2 + (a - 2 + 1) % 32)
    } else if a != INTRA_PLANAR && b != INTRA_PLANAR {
        (a, b, INTRA_PLANAR as int)
    } else if a != INTRA_DC && b != INTRA_DC {
        (a, b, INTRA_DC as int)
    } else {
        (a, b, INTRA_VERTICAL as int)
    }
}

/// The three most probable luma modes.
pub fn intra_luma_cand_mode_list(cand_a: u8, cand_b: u8) -> (c: [u8; 3])
    requires
        cand_a <= 34,
        cand_b <= 34,
    ensures
        (c@[0] as int, c@[1] as int, c@[2] as int) == candidate_modes(cand_a as int, cand_b as int),
        is_candidates(c@),
{
    if cand_a == cand_b {
        if cand_a < 2 {
            [INTRA_PLANAR, INTRA_DC, INTRA_VERTICAL]
        } else {
            [cand_a, 2 + (cand_a + 29) % 32, 2 + (cand_a - 1) % 32]
        }
    } else if cand_a != INTRA_PLANAR && cand_b != INTRA_PLANAR {
        [cand_a, cand_b, INTRA_PLANAR]
    } else if cand_a != INTRA_DC && cand_b != INTRA_DC {
        [cand_a, cand_b, INTRA_DC]
    } else {
        [cand_a, cand_b, INTRA_VERTICAL]
    }
}

/// Three different modes.
pub open spec fn is_candidates(c: Seq<u8>) -> bool {
    &&& c.len() == 3
    &&& c[0] <= 34
    &&& c[1] <= 34
    &&& c[2] <= 34
    &&& c[0] != c[1]
    &&& c[1] != c[2]
    &&& c[0] != c[2]
}

/// The most probable modes are always three different ones.
pub proof fn law_candidates_differ(a: int, b: int)
    requires
        0 <= a <= 34,
        0 <= b <= 34,
    ensures
        ({
            let c = candidate_modes(a, b);
            c.0 != c.1 && c.1 != c.2 && c.0 != c.2
        }),
{
}

/// The chroma prediction mode that a signalled value stands for.
pub open spec fn chroma_mode_of(signalled: int, luma: int) -> int {
    let mode = if signalled == 0 {
        INTRA_PLANAR as int
    } else if signalled == 1 {
        INTRA_VERTICAL as int
    } else if signalled == 2 {
        INTRA_HORIZONTAL as int
    } else {
        INTRA_DC as int
    };
    if signalled >= 4 {
        luma
    } else if mode == luma {
        INTRA_DIAGONAL as int
    } else {
        mode
    }
}

/// The chroma prediction mode that a signalled value stands for.
pub fn derive_intra_pred_mode_c(signalled: u8, luma_mode: u8) -> (m: u8)
    requires
        luma_mode <= 34,
    ensures
        m == chroma_mode_of(signalled as int, luma_mode as int),
        m <= 34,
{
    if signalled >= CHROMA_MODE_DERIVED {
        return luma_mode;
    }
    let mode: u8 = if signalled == 0 {
        INTRA_PLANAR
    } else if signalled == 1 {
        INTRA_VERTICAL
    } else if signalled == 2 {
        INTRA_HORIZONTAL
    } else {
        INTRA_DC
    };
    if mode == luma_mode {
        INTRA_DIAGONAL
    } else {
        mode
    }
}

/// The smallest, the middle and the largest of three modes.
pub open spec fn ordered(c: Seq<u8>) -> (int, int, int) {
    let lo = min(c[0] as int, min(c[1] as int, c[2] as int));
    let hi = max(c[0] as int, max(c[1] as int, c[2] as int));
    (lo, c[0] + c[1] + c[2] - lo - hi, hi)
}

/// The index of a mode among those that are not most probable.
pub open spec fn remaining(mode: int, c: Seq<u8>) -> int {
    let o = ordered(c);
    mode - (if mode > o.0 {
        1int
    } else {
        0
    }) - (if mode > o.1 {
        1int
    } else {
        0
    }) - (if mode > o.2 {
        1int
    } else {
        0
    })
}

/// The mode that an index among the modes that are not most probable stands for.
pub open spec fn mode_at(index: int, c: Seq<u8>) -> int {
    let o = ordered(c);
    let a = if index >= o.0 {
        index + 1
    } else {
        index
    };
    let b = if a >= o.1 {
        a + 1
    } else {
        a
    };
    if b >= o.2 {
        b + 1
    } else {
        b
    }
}

/// The index of a mode reads back as the mode, and fits its five bins.
pub proof fn law_remaining_mode_reads_back(mode: int, c: Seq<u8>)
    requires
        is_candidates(c),
        0 <= mode <= 34,
        mode != c[0],
        mode != c[1],
        mode != c[2],
    ensures
        0 <= remaining(mode, c) < 32,
        mode_at(remaining(mode, c), c) == mode,
{
}

/// The bins of a luma mode: a flag, then its place among the most probable modes or
/// its index among the others.
pub open spec fn luma_mode_bins(mode: u8, c: Seq<u8>) -> Seq<Bin> {
    if c[0] == mode {
        seq![decision_bin(CTX_PREV_INTRA as int, 0, true)] + seq![Bin::Bypass { bit: false }]
    } else if c[1] == mode || c[2] == mode {
        seq![decision_bin(CTX_PREV_INTRA as int, 0, true)] + (seq![Bin::Bypass { bit: true }] + seq![
            Bin::Bypass { bit: c[1] != mode },
        ])
    } else {
        seq![decision_bin(CTX_PREV_INTRA as int, 0, false)] + bypass_bins(
            be_bits(remaining(mode as int, c) as nat, 5),
        )
    }
}

/// The bins of a chroma mode.
pub open spec fn chroma_mode_bins(signalled: u8) -> Seq<Bin> {
    if signalled == CHROMA_MODE_DERIVED {
        seq![decision_bin(CTX_CHROMA_MODE as int, 0, false)]
    } else {
        seq![decision_bin(CTX_CHROMA_MODE as int, 0, true)] + bypass_bins(be_bits(signalled as nat, 2))
    }
}

/// The bin count of a chroma mode.
pub fn chroma_mode_bit_cost(signalled: u8) -> (b: u32)
    ensures
        b == chroma_mode_bins(signalled).len(),
        b <= 3,
{
    if signalled == CHROMA_MODE_DERIVED {
        1
    } else {
        3
    }
}

/// What the search charges for a luma mode is the number of its bins.
pub proof fn law_mode_cost_counts_bins(mode: u8, c: Seq<u8>)
    ensures
        crate::rdo::mode_bits(mode, c) == luma_mode_bins(mode, c).len(),
{
}

/// Appends the bins of one coding unit's luma mode.
pub fn write_luma_intra_mode(sink: &mut Vec<Bin>, mode: u8, candidates: [u8; 3])
    requires
        is_candidates(candidates@),
        mode <= 34,
    ensures
        appended(old(sink)@, final(sink)@, luma_mode_bins(mode, candidates@)),
{
    let ghost s0 = sink@;
    if candidates[0] == mode {
        put_decision(sink, CTX_PREV_INTRA, 0, true);
        let ghost s1 = sink@;
        put_bypass(sink, false);
        proof {
            lemma_append(
                s0,
                s1,
                sink@,
                seq![decision_bin(CTX_PREV_INTRA as int, 0, true)],
                seq![Bin::Bypass { bit: false }],
                luma_mode_bins(mode, candidates@),
            );
        }
        return;
    }
    if candidates[1] == mode || candidates[2] == mode {
        put_decision(sink, CTX_PREV_INTRA, 0, true);
        let ghost s1 = sink@;
        put_bypass(sink, true);
        let ghost s2 = sink@;
        put_bypass(sink, candidates[1] != mode);
        proof {
            let a = seq![Bin::Bypass { bit: true }];
            let b = seq![Bin::Bypass { bit: candidates@[1] != mode }];
            lemma_append(s1, s2, sink@, a, b, a + b);
            lemma_append(
                s0,
                s1,
                sink@,
                seq![decision_bin(CTX_PREV_INTRA as int, 0, true)],
                a + b,
                luma_mode_bins(mode, candidates@),
            );
        }
        return;
    }
    put_decision(sink, CTX_PREV_INTRA, 0, false);
    let ghost s1 = sink@;
    let mut rem: u8 = mode;
    if mode > candidates[0] {
        rem = rem - 1;
    }
    if mode > candidates[1] {
        rem = rem - 1;
    }
    if mode > candidates[2] {
        rem = rem - 1;
    }
    assert(rem == remaining(mode as int, candidates@));
    put_bypass_bits(sink, rem as u64, 5);
    proof {
        lemma_append(
            s0,
            s1,
            sink@,
            seq![decision_bin(CTX_PREV_INTRA as int, 0, false)],
            bypass_bins(be_bits(rem as nat, 5)),
            luma_mode_bins(mode, candidates@),
        );
    }
}

/// Appends the bins of one coding unit's chroma mode.
pub fn write_chroma_mode(sink: &mut Vec<Bin>, signalled: u8)
    requires
        signalled <= CHROMA_MODE_DERIVED,
    ensures
        appended(old(sink)@, final(sink)@, chroma_mode_bins(signalled)),
{
    let ghost s0 = sink@;
    if signalled == CHROMA_MODE_DERIVED {
        put_decision(sink, CTX_CHROMA_MODE, 0, false);
    } else {
        put_decision(sink, CTX_CHROMA_MODE, 0, true);
        let ghost s1 = sink@;
        put_bypass_bits(sink, signalled as u64, 2);
        proof {
            lemma_append(
                s0,
                s1,
                sink@,
                seq![decision_bin(CTX_CHROMA_MODE as int, 0, true)],
                bypass_bins(be_bits(signalled as nat, 2)),
                chroma_mode_bins(signalled),
            );
        }
    }
}

} // verus!
