//! The transform matrices, the DCT-II of the four block sizes and the 4x4
//! DST-VII, and their one-dimensional products.
use vstd::prelude::*;

verus! {

/// The DCT-II basis by its angle: entry `m` stands for the cosine of
/// `m * pi / 64`. Entry 0 is that of the constant row.
pub const COSINE: [i32; 33] = [
    64, 90, 90, 90, 89, 88, 87, 85, 83, 82, 80, 78, 75, 73, 70, 67, 64, 61, 57, 54, 50, 46, 43, 38, 36, 31, 25, 22, 18,
    13, 9, 4, 0,
];

/// The 4x4 DST-VII matrix, row by row.
pub const DST4: [i32; 16] = [29, 55, 74, 84, 74, 74, 0, -74, 84, -29, -74, 55, 55, -84, 74, -29];

/// The scaled cosine of `m * pi / 64`.
pub open spec fn cosine(m: int) -> int {
    let turn = m % 128;
    let half = if turn > 64 {
        128 - turn
    } else {
        turn
    };
    if half <= 32 {
        COSINE@[half] as int
    } else {
        -(COSINE@[64 - half] as int)
    }
}

/// `transMatrix` for blocks of side `n`: basis function `u` at sample `x`.
pub open spec fn basis(dst: bool, n: int, u: int, x: int) -> int {
    if dst {
        DST4@[u * 4 + x] as int
    } else {
        cosine(u * (32int / n) * (2 * x + 1))
    }
}

/// Whether `n` is a transform block side; the DST has only one.
pub open spec fn block_side(dst: bool, n: int) -> bool {
    if dst {
        n == 4
    } else {
        n == 4 || n == 8 || n == 16 || n == 32
    }
}

/// Sample `k` of the line that starts at `start` and goes on in steps of `step`.
pub open spec fn sample(data: Seq<i32>, start: int, step: int, k: int) -> int {
    data[start + k * step] as int
}

/// The first `k` terms of the analysis product: basis function `u` against a line.
pub open spec fn analysis(data: Seq<i32>, start: int, step: int, dst: bool, n: int, u: int, k: nat) -> int
    decreases k,
{
    if k == 0 {
        0
    } else {
        analysis(data, start, step, dst, n, u, (k - 1) as nat) + basis(dst, n, u, k - 1) * sample(
            data,
            start,
            step,
            k - 1,
        )
    }
}

/// The first `k` terms of the synthesis product: sample `x` from the
/// coefficients on a line.
pub open spec fn synthesis(data: Seq<i32>, start: int, step: int, dst: bool, n: int, x: int, k: nat) -> int
    decreases k,
{
    if k == 0 {
        0
    } else {
        synthesis(data, start, step, dst, n, x, (k - 1) as nat) + basis(dst, n, k - 1, x) * sample(
            data,
            start,
            step,
            k - 1,
        )
    }
}

proof fn lemma_cosine_bound(m: int)
    ensures
        -90 <= cosine(m) <= 90,
{
}

proof fn lemma_dst_bound(i: int)
    requires
        0 <= i < 16,
    ensures
        -90 <= DST4@[i] <= 90,
{
}

pub proof fn lemma_basis_bound(dst: bool, n: int, u: int, x: int)
    requires
        block_side(dst, n),
        0 <= u < n,
        0 <= x < n,
    ensures
        -90 <= basis(dst, n, u, x) <= 90,
{
    if dst {
        lemma_dst_bound(u * 4 + x);
    } else {
        lemma_cosine_bound(u * (32int / n) * (2 * x + 1));
    }
}

/// The matrix entry for basis function `u` at sample `x`.
pub fn basis_entry(dst: bool, n: usize, u: usize, x: usize) -> (r: i64)
    requires
        block_side(dst, n as int),
        u < n,
        x < n,
    ensures
        r == basis(dst, n as int, u as int, x as int),
        -90 <= r <= 90,
{
    proof {
        lemma_basis_bound(dst, n as int, u as int, x as int);
    }
    if dst {
        DST4[u * 4 + x] as i64
    } else {
        let stride: usize = 32 / n;
        assert(u * stride <= 1024 && u * stride * (2 * x + 1) <= 1024 * 65) by (nonlinear_arith)
            requires
                u < 32,
                stride <= 8,
                x < 32,
        ;
        assert(u * stride * (2 * x + 1) >= 0) by (nonlinear_arith);
        let turn: usize = (u * stride * (2 * x + 1)) % 128;
        let half: usize = if turn > 64 {
            128 - turn
        } else {
            turn
        };
        if half <= 32 {
            COSINE[half] as i64
        } else {
            -(COSINE[64 - half] as i64)
        }
    }
}

proof fn lemma_product_bound(a: int, b: int, m: int)
    requires
        -90 <= a <= 90,
        -m <= b <= m,
        m >= 0,
    ensures
        -(90 * m) <= a * b <= 90 * m,
{
    assert(-(90 * m) <= a * b <= 90 * m) by (nonlinear_arith)
        requires
            -90 <= a <= 90,
            -m <= b <= m,
            m >= 0,
    ;
}

/// Basis function `u` against the line of `n` samples from `start` on.
pub fn analysis_product(data: &[i32], start: usize, step: usize, dst: bool, n: usize, u: usize) -> (r: i64)
    requires
        block_side(dst, n as int),
        u < n,
        step >= 1,
        forall|k: int| 0 <= k < n ==> 0 <= #[trigger] (start + k * step) < data.len(),
    ensures
        r == analysis(data@, start as int, step as int, dst, n as int, u as int, n as nat),
        -0x1_0000_0000_0000 <= r <= 0x1_0000_0000_0000,
{
    let mut sum: i64 = 0;
    let mut k: usize = 0;
    let mut at: usize = start;
    proof {
        assert(start + 0 * step == start);
    }
    while k < n
        invariant
            block_side(dst, n as int),
            u < n,
            k <= n,
            n <= 32,
            forall|k: int| 0 <= k < n ==> 0 <= #[trigger] (start + k * step) < data.len(),
            k < n ==> at == start + k * step,
            sum == analysis(data@, start as int, step as int, dst, n as int, u as int, k as nat),
            -(k * 90 * 0x8000_0000) <= sum <= k * 90 * 0x8000_0000,
        decreases n - k,
    {
        let b: i64 = basis_entry(dst, n, u, k);
        assert(0 <= start + k * step < data.len());
        let v: i64 = data[at] as i64;
        proof {
            lemma_product_bound(b as int, v as int, 0x8000_0000);
            assert((k + 1) * step == k * step + step) by (nonlinear_arith);
            if k + 1 < n {
                assert(0 <= start + (k + 1) * step < data.len());
            }
        }
        sum = sum + b * v;
        k = k + 1;
        if k < n {
            at = at + step;
        }
    }
    sum
}

/// Sample `x` from the line of `n` coefficients from `start` on.
pub fn synthesis_product(data: &[i32], start: usize, step: usize, dst: bool, n: usize, x: usize) -> (r: i64)
    requires
        block_side(dst, n as int),
        x < n,
        step >= 1,
        forall|k: int| 0 <= k < n ==> 0 <= #[trigger] (start + k * step) < data.len(),
    ensures
        r == synthesis(data@, start as int, step as int, dst, n as int, x as int, n as nat),
        -0x1_0000_0000_0000 <= r <= 0x1_0000_0000_0000,
{
    let mut sum: i64 = 0;
    let mut k: usize = 0;
    let mut at: usize = start;
    proof {
        assert(start + 0 * step == start);
    }
    while k < n
        invariant
            block_side(dst, n as int),
            x < n,
            k <= n,
            n <= 32,
            forall|k: int| 0 <= k < n ==> 0 <= #[trigger] (start + k * step) < data.len(),
            k < n ==> at == start + k * step,
            sum == synthesis(data@, start as int, step as int, dst, n as int, x as int, k as nat),
            -(k * 90 * 0x8000_0000) <= sum <= k * 90 * 0x8000_0000,
        decreases n - k,
    {
        let b: i64 = basis_entry(dst, n, k, x);
        assert(0 <= start + k * step < data.len());
        let v: i64 = data[at] as i64;
        proof {
            lemma_product_bound(b as int, v as int, 0x8000_0000);
            assert((k + 1) * step == k * step + step) by (nonlinear_arith);
            if k + 1 < n {
                assert(0 <= start + (k + 1) * step < data.len());
            }
        }
        sum = sum + b * v;
        k = k + 1;
        if k < n {
            at = at + step;
        }
    }
    sum
}

} // verus!
