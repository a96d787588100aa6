//! Scan orders of coefficient blocks.
use vstd::prelude::*;

verus! {

/// `scanIdx`: the order in which a block's positions are visited.
#[derive(Debug, Clone, Copy, PartialEq, Eq, Structural)]
pub enum ScanIdx {
    /// Along up-right diagonals.
    Diagonal,
    /// Row by row.
    Horizontal,
    /// Column by column.
    Vertical,
}

/// The up-right diagonal scan of a 2x2 block, as row-major positions.
pub const DIAGONAL_2: [u8; 4] = [0, 2, 1, 3];

/// The up-right diagonal scan of a 4x4 block.
pub const DIAGONAL_4: [u8; 16] = [
    0, 4, 1, 8, 5, 2, 12, 9, 6, 3, 13, 10, 7, 14, 11, 15,
];

/// The up-right diagonal scan of an 8x8 block.
pub const DIAGONAL_8: [u8; 64] = [
    0, 8, 1, 16, 9, 2, 24, 17, 10, 3, 32, 25, 18, 11, 4, 40,
    33, 26, 19, 12, 5, 48, 41, 34, 27, 20, 13, 6, 56, 49, 42, 35,
    28, 21, 14, 7, 57, 50, 43, 36, 29, 22, 15, 58, 51, 44, 37, 30,
    23, 59, 52, 45, 38, 31, 60, 53, 46, 39, 61, 54, 47, 62, 55, 63,
];

/// `2^k` for the block sides in use.
pub open spec fn side(k: int) -> int {
    if k == 0 {
        1
    } else if k == 1 {
        2
    } else if k == 2 {
        4
    } else if k == 3 {
        8
    } else if k == 4 {
        16
    } else {
        32
    }
}

/// How many positions a block of side `2^k` has.
pub open spec fn area(k: int) -> int {
    if k == 0 {
        1
    } else if k == 1 {
        4
    } else if k == 2 {
        16
    } else if k == 3 {
        64
    } else if k == 4 {
        256
    } else {
        1024
    }
}

/// The row-major position that step `i` of the scan of a block of side `2^k` visits.
pub open spec fn scan_raster(k: int, idx: ScanIdx, i: int) -> int {
    match idx {
        ScanIdx::Diagonal => if k == 0 {
            0
        } else if k == 1 {
            DIAGONAL_2@[i] as int
        } else if k == 2 {
            DIAGONAL_4@[i] as int
        } else {
            DIAGONAL_8@[i] as int
        },
        ScanIdx::Horizontal => i,
        ScanIdx::Vertical => (i % side(k)) * side(k) + i / side(k),
    }
}

/// The column that step `i` visits.
pub open spec fn scan_x(k: int, idx: ScanIdx, i: int) -> int {
    scan_raster(k, idx, i) % side(k)
}

/// The row that step `i` visits.
pub open spec fn scan_y(k: int, idx: ScanIdx, i: int) -> int {
    scan_raster(k, idx, i) / side(k)
}

proof fn lemma_diagonal_bounds(i: int)
    ensures
        0 <= i < 4 ==> 0 <= DIAGONAL_2@[i] < 4,
        0 <= i < 16 ==> 0 <= DIAGONAL_4@[i] < 16,
        0 <= i < 64 ==> 0 <= DIAGONAL_8@[i] < 64,
{
}

/// Every step visits a position of the block.
pub proof fn lemma_scan_bounds(k: int, idx: ScanIdx, i: int)
    requires
        0 <= k <= 3,
        0 <= i < area(k),
    ensures
        0 <= scan_raster(k, idx, i) < area(k),
        0 <= scan_x(k, idx, i) < side(k),
        0 <= scan_y(k, idx, i) < side(k),
{
    lemma_diagonal_bounds(i);
    if idx == ScanIdx::Vertical {
        if k == 0 {
            assert(scan_raster(k, idx, i) == (i % 1) * 1 + i / 1);
        } else if k == 1 {
            assert(scan_raster(k, idx, i) == (i % 2) * 2 + i / 2);
        } else if k == 2 {
            assert(scan_raster(k, idx, i) == (i % 4) * 4 + i / 4);
        } else {
            assert(scan_raster(k, idx, i) == (i % 8) * 8 + i / 8);
        }
    }
}

/// The column and row that step `i` of a scan visits.
pub fn scan_position(k: u32, idx: ScanIdx, i: usize) -> (r: (usize, usize))
    requires
        k <= 3,
        i < area(k as int),
    ensures
        r.0 == scan_x(k as int, idx, i as int),
        r.1 == scan_y(k as int, idx, i as int),
        r.0 < side(k as int),
        r.1 < side(k as int),
{
    let n: usize = match k {
        0 => 1,
        1 => 2,
        2 => 4,
        _ => 8,
    };
    proof {
        lemma_scan_bounds(k as int, idx, i as int);
    }
    let raster: usize = match idx {
        ScanIdx::Diagonal => match k {
            0 => 0,
            1 => DIAGONAL_2[i] as usize,
            2 => DIAGONAL_4[i] as usize,
            _ => DIAGONAL_8[i] as usize,
        },
        ScanIdx::Horizontal => i,
        ScanIdx::Vertical => (i % n) * n + i / n,
    };
    (raster % n, raster / n)
}

/// The step of the diagonal scan that visits each position of a 2x2 block.
pub const UNDIAGONAL_2: [u8; 4] = [0, 2, 1, 3];

/// The step of the diagonal scan that visits each position of a 4x4 block.
pub const UNDIAGONAL_4: [u8; 16] = [
    0, 2, 5, 9, 1, 4, 8, 12, 3, 7, 11, 14, 6, 10, 13, 15,
];

/// The step of the diagonal scan that visits each position of an 8x8 block.
pub const UNDIAGONAL_8: [u8; 64] = [
    0, 2, 5, 9, 14, 20, 27, 35, 1, 4, 8, 13, 19, 26, 34, 42,
    3, 7, 12, 18, 25, 33, 41, 48, 6, 11, 17, 24, 32, 40, 47, 53,
    10, 16, 23, 31, 39, 46, 52, 57, 15, 22, 30, 38, 45, 51, 56, 60,
    21, 29, 37, 44, 50, 55, 59, 62, 28, 36, 43, 49, 54, 58, 61, 63,
];

/// The step of a scan that visits row-major position `r`.
pub open spec fn unscan(k: int, idx: ScanIdx, r: int) -> int {
    match idx {
        ScanIdx::Diagonal => if k == 0 {
            0
        } else if k == 1 {
            UNDIAGONAL_2@[r] as int
        } else if k == 2 {
            UNDIAGONAL_4@[r] as int
        } else {
            UNDIAGONAL_8@[r] as int
        },
        ScanIdx::Horizontal => r,
        ScanIdx::Vertical => (r % side(k)) * side(k) + r / side(k),
    }
}

proof fn lemma_undiagonal(r: int)
    ensures
        0 <= r < 4 ==> 0 <= UNDIAGONAL_2@[r] < 4 && DIAGONAL_2@[UNDIAGONAL_2@[r] as int] == r
            && UNDIAGONAL_2@[DIAGONAL_2@[r] as int] == r,
        0 <= r < 16 ==> 0 <= UNDIAGONAL_4@[r] < 16 && DIAGONAL_4@[UNDIAGONAL_4@[r] as int] == r
            && UNDIAGONAL_4@[DIAGONAL_4@[r] as int] == r,
        0 <= r < 64 ==> 0 <= UNDIAGONAL_8@[r] < 64 && DIAGONAL_8@[UNDIAGONAL_8@[r] as int] == r
            && UNDIAGONAL_8@[DIAGONAL_8@[r] as int] == r,
{
}

/// A scan visits every position of its block exactly once.
pub proof fn law_scan_is_a_permutation(k: int, idx: ScanIdx, i: int)
    requires
        0 <= k <= 3,
        0 <= i < area(k),
    ensures
        0 <= unscan(k, idx, i) < area(k),
        scan_raster(k, idx, unscan(k, idx, i)) == i,
        unscan(k, idx, scan_raster(k, idx, i)) == i,
{
    lemma_undiagonal(i);
    lemma_scan_bounds(k, idx, i);
    if idx == ScanIdx::Vertical {
        if k == 0 {
            assert(scan_raster(k, idx, i) == (i % 1) * 1 + i / 1);
        } else if k == 1 {
            let j = (i % 2) * 2 + i / 2;
            assert(j % 2 == i / 2 && j / 2 == i % 2);
        } else if k == 2 {
            let j = (i % 4) * 4 + i / 4;
            assert(j % 4 == i / 4 && j / 4 == i % 4);
        } else {
            let j = (i % 8) * 8 + i / 8;
            assert(j % 8 == i / 8 && j / 8 == i % 8);
        }
    }
}

} // verus!
