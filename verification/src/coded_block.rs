//! One transform block coded and reconstructed: the levels that a residual quantizes
//! to, and the residual that a decoder makes of them.
use vstd::prelude::*;
use crate::inverse::{residual_block, residual_of, BlockParams};
use crate::matrix::block_side;
use crate::residual::{has_coded_levels, has_levels};
use crate::transform::{
    residual_levels, transform_and_quantize, Component, ForwardBlockParams, PredMode, ScalingFactorMatrix,
};

verus! {

/// The bit depth of both components.
pub const BIT_DEPTH: u8 = 8;

/// The largest `qP` that a block is coded at.
pub const MAX_BLOCK_QP: u32 = 215;

/// The levels that a residual is coded with.
#[verifier::opaque]
pub open spec fn block_levels(residual: Seq<i32>, n: int, q_p: int, component: Component, mode: PredMode) -> Seq<i32> {
    residual_levels(residual, None, n, q_p, component, mode, 8, false)
}

/// The residual that levels reconstruct to. A block without levels is not coded and
/// has none.
#[verifier::opaque]
pub open spec fn block_residual(levels: Seq<i32>, n: int, q_p: int, component: Component, mode: PredMode) -> Seq<i32> {
    if has_levels(levels) {
        residual_of(levels, n, q_p, component, mode, 8, false, None)
    } else {
        Seq::new((n * n) as nat, |i: int| 0i32)
    }
}

/// The residual that a decoder holds where the encoder had `residual`.
pub open spec fn round_trip(residual: Seq<i32>, n: int, q_p: int, component: Component, mode: PredMode) -> Seq<i32> {
    block_residual(block_levels(residual, n, q_p, component, mode), n, q_p, component, mode)
}

/// Every entry is small enough to be added to a sample.
pub open spec fn is_residual(r: Seq<i32>) -> bool {
    forall|i: int| 0 <= i < r.len() ==> -0x1000_0000 <= #[trigger] r[i] <= 0x1000_0000
}

/// The levels of a residual and the residual they reconstruct to.
pub struct CodedResidual {
    pub levels: Vec<i32>,
    pub residual: Vec<i32>,
}

/// Transforms and quantizes one residual block, and reconstructs it from its levels.
pub fn code_residual(residual: &[i32], n: usize, q_p: u32, component: Component, mode: PredMode) -> (c: CodedResidual)
    requires
        block_side(false, n as int),
        residual@.len() == n * n,
        q_p <= MAX_BLOCK_QP,
    ensures
        c.levels@ == block_levels(residual@, n as int, q_p as int, component, mode),
        c.residual@ == round_trip(residual@, n as int, q_p as int, component, mode),
        c.levels@.len() == n * n,
        c.residual@.len() == n * n,
        is_residual(c.residual@),
{
    let params: ForwardBlockParams = ForwardBlockParams {
        n_tbs: n,
        q_p,
        component,
        pred_mode: mode,
        bit_depth: BIT_DEPTH,
        extended_precision: false,
    };
    proof {
        reveal(block_levels);
        reveal(block_residual);
    }
    let unscaled: Option<&ScalingFactorMatrix> = None;
    let levels: Vec<i32> = match transform_and_quantize(residual, unscaled, params) {
        Ok(l) => l,
        Err(_) => {
            assert(false);
            Vec::new()
        },
    };
    if has_coded_levels(levels.as_slice()) {
        let back: BlockParams = BlockParams {
            n_tbs: n,
            q_p,
            component,
            pred_mode: mode,
            bit_depth: BIT_DEPTH,
            extended_precision: false,
        };
        let coded: Vec<i32> = match residual_block(levels.as_slice(), unscaled, back) {
            Ok(r) => r,
            Err(_) => {
                assert(false);
                Vec::new()
            },
        };
        CodedResidual { levels, residual: coded }
    } else {
        let area: usize = levels.len();
        let coded: Vec<i32> = vec![0i32; area];
        assert(coded@ =~= block_residual(levels@, n as int, q_p as int, component, mode));
        CodedResidual { levels, residual: coded }
    }
}

} // verus!
