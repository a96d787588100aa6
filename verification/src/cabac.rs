//! The probability model shared by the arithmetic encoder and decoder: the
//! LPS range and state transition tables and the context variables.
use vstd::prelude::*;

verus! {

/// `rangeTabLps`: the width of the LPS sub-interval for each probability state
/// and each quarter of the range, four entries to a state.
pub const RANGE_TAB_LPS: [u8; 256] = [
    128, 176, 208, 240, 128, 167, 197, 227, 128, 158, 187, 216, 123, 150, 178, 205,
    116, 142, 169, 195, 111, 135, 160, 185, 105, 128, 152, 175, 100, 122, 144, 166,
    95, 116, 137, 158, 90, 110, 130, 150, 85, 104, 123, 142, 81, 99, 117, 135,
    77, 94, 111, 128, 73, 89, 105, 122, 69, 85, 100, 116, 66, 80, 95, 110,
    62, 76, 90, 104, 59, 72, 86, 99, 56, 69, 81, 94, 53, 65, 77, 89,
    51, 62, 73, 85, 48, 59, 69, 80, 46, 56, 66, 76, 43, 53, 63, 72,
    41, 50, 59, 69, 39, 48, 56, 65, 37, 45, 54, 62, 35, 43, 51, 59,
    33, 41, 48, 56, 32, 39, 46, 53, 30, 37, 43, 50, 29, 35, 41, 48,
    27, 33, 39, 45, 26, 31, 37, 43, 24, 30, 35, 41, 23, 28, 33, 39,
    22, 27, 32, 37, 21, 26, 30, 35, 20, 24, 29, 33, 19, 23, 27, 31,
    18, 22, 26, 30, 17, 21, 25, 28, 16, 20, 23, 27, 15, 19, 22, 25,
    14, 18, 21, 24, 14, 17, 20, 23, 13, 16, 19, 22, 12, 15, 18, 21,
    12, 14, 17, 20, 11, 14, 16, 19, 11, 13, 15, 18, 10, 12, 15, 17,
    10, 12, 14, 16, 9, 11, 13, 15, 9, 11, 12, 14, 8, 10, 12, 14,
    8, 9, 11, 13, 7, 9, 11, 12, 7, 9, 10, 12, 7, 8, 10, 11,
    6, 8, 9, 11, 6, 7, 9, 10, 6, 7, 8, 9, 2, 2, 2, 2,
];

/// `transIdxLps`: the state that follows an LPS.
pub const TRANS_IDX_LPS: [u8; 64] = [
    0, 0, 1, 2, 2, 4, 4, 5, 6, 7, 8, 9, 9, 11, 11, 12,
    13, 13, 15, 15, 16, 16, 18, 18, 19, 19, 21, 21, 22, 22, 23, 24,
    24, 25, 26, 26, 27, 27, 28, 29, 29, 30, 30, 30, 31, 32, 32, 33,
    33, 33, 34, 34, 35, 35, 35, 36, 36, 36, 37, 37, 37, 38, 38, 63,
];

/// `transIdxMps`: the state that follows an MPS.
pub const TRANS_IDX_MPS: [u8; 64] = [
    1, 2, 3, 4, 5, 6, 7, 8, 9, 10, 11, 12, 13, 14, 15, 16,
    17, 18, 19, 20, 21, 22, 23, 24, 25, 26, 27, 28, 29, 30, 31, 32,
    33, 34, 35, 36, 37, 38, 39, 40, 41, 42, 43, 44, 45, 46, 47, 48,
    49, 50, 51, 52, 53, 54, 55, 56, 57, 58, 59, 60, 61, 62, 62, 63,
];

/// A context variable: a probability state and the more probable bin value.
#[derive(Debug, Clone, Copy, PartialEq, Eq, Structural)]
pub struct ContextModel {
    /// `pStateIdx`, 0..=62.
    pub p_state_idx: u8,
    /// `valMps`.
    pub val_mps: u8,
}

/// `v` confined to `lo..=hi`.
pub open spec fn clip3(lo: int, hi: int, v: int) -> int {
    if v < lo {
        lo
    } else if v > hi {
        hi
    } else {
        v
    }
}

/// `preCtxState`: the line that `initValue` encodes, evaluated at the slice QP.
pub open spec fn pre_ctx_state(init_value: int, qp: int) -> int {
    let m = (init_value / 16) * 5 - 45;
    let n = (init_value % 16) * 8 - 16;
    clip3(1, 126, (m * clip3(0, 51, qp)) / 16 + n)
}

/// The context variable that `initValue` gives at the slice QP.
pub open spec fn initial_context(init_value: int, qp: int) -> ContextModel {
    let pre = pre_ctx_state(init_value, qp);
    if pre <= 63 {
        ContextModel { p_state_idx: (63 - pre) as u8, val_mps: 0 }
    } else {
        ContextModel { p_state_idx: (pre - 64) as u8, val_mps: 1 }
    }
}

/// The width of the LPS sub-interval out of a range.
pub open spec fn lps_range(ctx: ContextModel, range: int) -> int {
    RANGE_TAB_LPS@[ctx.p_state_idx * 4 + (range / 64) % 4] as int
}

/// The context variable after a bin was coded with it.
pub open spec fn next_context(ctx: ContextModel, bin: u8) -> ContextModel {
    if bin == ctx.val_mps {
        ContextModel { p_state_idx: TRANS_IDX_MPS@[ctx.p_state_idx as int], val_mps: ctx.val_mps }
    } else {
        ContextModel {
            p_state_idx: TRANS_IDX_LPS@[ctx.p_state_idx as int],
            val_mps: if ctx.p_state_idx == 0 {
                (1 - ctx.val_mps) as u8
            } else {
                ctx.val_mps
            },
        }
    }
}

impl ContextModel {
    /// The state is one of the adaptive ones and the MPS is a bin value.
    pub open spec fn wf(&self) -> bool {
        self.p_state_idx <= 62 && self.val_mps <= 1
    }

    /// The context variable that an `initValue` gives at a slice QP.
    pub fn init(init_value: u8, qp: i32) -> (ctx: Self)
        ensures
            ctx == initial_context(init_value as int, qp as int),
            ctx.wf(),
    {
        let slope: i32 = (init_value / 16) as i32 * 5 - 45;
        let offset: i32 = (init_value % 16) as i32 * 8 - 16;
        let q: i32 = if qp < 0 {
            0
        } else if qp > 51 {
            51
        } else {
            qp
        };
        assert(-45 * 51 <= slope * q <= 30 * 51) by (nonlinear_arith)
            requires
                -45 <= slope <= 30,
                0 <= q <= 51,
        ;
        let product: i32 = slope * q;
        let line: i32 = div_floor_16(product) + offset;
        let pre: i32 = if line < 1 {
            1
        } else if line > 126 {
            126
        } else {
            line
        };
        if pre <= 63 {
            ContextModel { p_state_idx: (63 - pre) as u8, val_mps: 0 }
        } else {
            ContextModel { p_state_idx: (pre - 64) as u8, val_mps: 1 }
        }
    }
}

fn div_floor_16(v: i32) -> (r: i32)
    requires
        -0x10000 <= v <= 0x10000,
    ensures
        r == v as int / 16,
{
    ((v + 0x100000) as u32 / 16) as i32 - 0x10000
}

/// Every LPS width that an adaptive state can select is positive and below the
/// smallest range.
pub proof fn lemma_lps_range(ctx: ContextModel, range: int)
    requires
        ctx.wf(),
        256 <= range <= 510,
    ensures
        6 <= lps_range(ctx, range) <= 240,
{
    let i = ctx.p_state_idx * 4 + (range / 64) % 4;
    assert(0 <= i < 252);
}

/// Coding a bin keeps the context variable well formed.
pub proof fn lemma_next_context(ctx: ContextModel, bin: u8)
    requires
        ctx.wf(),
    ensures
        next_context(ctx, bin).wf(),
{
    lemma_trans(ctx.p_state_idx as int);
}

proof fn lemma_trans(i: int)
    requires
        0 <= i <= 62,
    ensures
        TRANS_IDX_LPS@[i] <= 62,
        TRANS_IDX_MPS@[i] <= 62,
{
}

} // verus!
