//! Integer helpers: powers of two, floor division and clipping.
use vstd::prelude::*;
use vstd::arithmetic::div_mod::{lemma_fundamental_div_mod, lemma_fundamental_div_mod_converse};
use vstd::arithmetic::power2::{lemma2_to64, lemma_pow2_pos, lemma_pow2_strictly_increases, pow2};
use vstd::bits::lemma_u64_shl_is_mul;
use crate::cabac::clip3;

verus! {

/// `v / 2^shift`, rounded to the nearest integer with halves upwards.
pub open spec fn round_shift(v: int, shift: nat) -> int
    recommends
        shift > 0,
{
    (v + pow2((shift - 1) as nat)) / pow2(shift) as int
}

/// The magnitude of `v`.
pub open spec fn abs(v: int) -> int {
    if v < 0 {
        -v
    } else {
        v
    }
}

/// The smaller of two numbers.
pub open spec fn min(a: int, b: int) -> int {
    if a <= b {
        a
    } else {
        b
    }
}

/// The larger of two numbers.
pub open spec fn max(a: int, b: int) -> int {
    if a >= b {
        a
    } else {
        b
    }
}

pub proof fn lemma_pow2_bound(k: nat, n: nat)
    requires
        k <= n,
    ensures
        1 <= pow2(k) <= pow2(n),
{
    lemma_pow2_pos(k);
    if k < n {
        lemma_pow2_strictly_increases(k, n);
    }
}

/// `2^k`.
pub fn power(k: u32) -> (p: i64)
    requires
        k <= 62,
    ensures
        p == pow2(k as nat),
        1 <= p <= 0x4000_0000_0000_0000,
{
    proof {
        lemma2_to64();
        vstd::arithmetic::power2::lemma2_to64_rest();
        lemma_pow2_bound(k as nat, 62);
        lemma_u64_shl_is_mul(1, k as u64);
    }
    (1u64 << (k as u64)) as i64
}

/// Floor division by a positive number.
pub fn div_floor(x: i64, d: i64) -> (q: i64)
    requires
        0 < d <= 0x4000_0000_0000_0000,
        -0x4000_0000_0000_0000 <= x <= 0x4000_0000_0000_0000,
    ensures
        q == x as int / d as int,
        -0x4000_0000_0000_0000 <= q <= 0x4000_0000_0000_0000,
{
    if x >= 0 {
        proof {
            lemma_quotient_bound(x as int, d as int);
        }
        (x as u64 / d as u64) as i64
    } else {
        let up: u64 = (-x + (d - 1)) as u64 / d as u64;
        proof {
            let n = -x + (d - 1);
            let q = n as int / d as int;
            let r = n as int % d as int;
            lemma_fundamental_div_mod(n as int, d as int);
            assert(d * q == q * d) by (nonlinear_arith);
            assert((-q) * d == -(q * d)) by (nonlinear_arith);
            lemma_fundamental_div_mod_converse(x as int, d as int, -q, (d - 1) - r);
            assert(q <= -x) by (nonlinear_arith)
                requires
                    n as int == d * q + r,
                    n == -x + (d - 1),
                    r >= 0,
                    d >= 1,
                    -x >= 1,
            ;
            assert(q >= 0) by (nonlinear_arith)
                requires
                    n as int == d * q + r,
                    0 <= r < d,
                    n >= 0,
            ;
        }
        -(up as i64)
    }
}

proof fn lemma_quotient_bound(x: int, d: int)
    requires
        d > 0,
        x >= 0,
    ensures
        0 <= x / d <= x,
{
    lemma_fundamental_div_mod(x, d);
    let q = x / d;
    let r = x % d;
    assert(0 <= q <= x) by (nonlinear_arith)
        requires
            x == d * q + r,
            0 <= r < d,
            x >= 0,
    ;
}

/// `v` confined to `lo..=hi`.
pub fn clip(lo: i64, hi: i64, v: i64) -> (r: i64)
    ensures
        r == clip3(lo as int, hi as int, v as int),
{
    if v < lo {
        lo
    } else if v > hi {
        hi
    } else {
        v
    }
}

/// `v / 2^shift`, rounded to the nearest integer with halves upwards.
pub fn shift_round(v: i64, shift: u32) -> (r: i64)
    requires
        1 <= shift <= 40,
        -0x2000_0000_0000_0000 <= v <= 0x2000_0000_0000_0000,
    ensures
        r == round_shift(v as int, shift as nat),
        -0x4000_0000_0000_0000 <= r <= 0x4000_0000_0000_0000,
{
    let half: i64 = power(shift - 1);
    proof {
        vstd::arithmetic::power2::lemma2_to64_rest();
        lemma_pow2_bound((shift - 1) as nat, 40);
    }
    div_floor(v + half, power(shift))
}

/// A row-major position lies inside its square block.
pub proof fn lemma_index(y: int, x: int, n: int)
    requires
        0 <= y < n,
        0 <= x < n,
    ensures
        0 <= y * n + x < n * n,
        (y * n + x) / n == y,
        (y * n + x) % n == x,
{
    lemma_grid(y, x, n, n);
}

/// A row-major position lies inside its block of rows of `w`.
pub proof fn lemma_grid(y: int, x: int, w: int, h: int)
    requires
        0 <= y < h,
        0 <= x < w,
    ensures
        0 <= y * w + x < w * h,
        (y * w + x) / w == y,
        (y * w + x) % w == x,
{
    assert(0 <= y * w + x < w * h) by (nonlinear_arith)
        requires
            0 <= y < h,
            0 <= x < w,
    ;
    lemma_fundamental_div_mod_converse(y * w + x, w, y, x);
}

/// A position inside a block of rows of `w` comes apart into row and column.
pub proof fn lemma_ungrid(i: int, w: int, h: int)
    requires
        0 <= i < w * h,
        w > 0,
    ensures
        0 <= i / w < h,
        0 <= i % w < w,
        i == (i / w) * w + i % w,
{
    lemma_fundamental_div_mod(i, w);
    let q = i / w;
    let r = i % w;
    assert(w * q == q * w) by (nonlinear_arith);
    assert(0 <= q < h) by (nonlinear_arith)
        requires
            i == w * q + r,
            0 <= r < w,
            0 <= i < w * h,
            w > 0,
    ;
}

} // verus!
