//! What quantization keeps of a coefficient: scaled back, it lands within a step.
use vstd::prelude::*;
use vstd::arithmetic::div_mod::lemma_fundamental_div_mod;
use vstd::arithmetic::power2::{lemma2_to64, lemma_pow2_adds, lemma_pow2_pos, lemma_pow2_unfold, pow2};
use crate::arith::{abs, round_shift};
use crate::inverse::{scaled, scaling_shift, LEVEL_SCALE};
use crate::matrix::block_side;
use crate::transform::{levels_of, quant_factor, quant_shift, rounding, QUANT_SCALE};

verus! {

/// How far the product of the two scales lies from the power of two it stands for.
spec fn mismatch(k: int) -> int {
    if k == 0 || k == 2 {
        -16
    } else if k == 1 {
        14
    } else if k == 3 {
        -4
    } else if k == 4 {
        0
    } else {
        32
    }
}

/// The two scales are reciprocal up to a few parts in a million.
proof fn lemma_reciprocal(k: int)
    requires
        0 <= k < 6,
    ensures
        -16 <= QUANT_SCALE@[k] * LEVEL_SCALE@[k] - 0x10_0000 <= 32,
        QUANT_SCALE@[k] * LEVEL_SCALE@[k] - 0x10_0000 == mismatch(k),
        40 <= LEVEL_SCALE@[k] <= 72,
        14564 <= QUANT_SCALE@[k] <= 26214,
{
    if k == 0 {
        assert(26214 * 40 == 1048560);
    } else if k == 1 {
        assert(23302 * 45 == 1048590);
    } else if k == 2 {
        assert(20560 * 51 == 1048560);
    } else if k == 3 {
        assert(18396 * 57 == 1048572);
    } else if k == 4 {
        assert(16384 * 64 == 1048576);
    } else {
        assert(14564 * 72 == 1048608);
    }
}

/// A level of size `lev` and its step: how far `lev` steps of `t`, in units of `b`, lie
/// from the coefficient that was quantized.
proof fn lemma_level_distance(c: int, a: int, l: int, p: int, k: int, b: int, t: int, num: int, off: int, lev: int)
    requires
        85 <= num <= 171,
        0 <= c <= 0x8000,
        -16 <= a * l - 0x10_0000 <= 32,
        40 <= l <= 72,
        p >= 1,
        k >= 1,
        b >= 1,
        k * b == 0x100_0000 * p,
        t == 16 * l * p,
        512 * off <= num * k,
        num * k <= 512 * (off + 1),
        lev * k <= c * a + off,
        c * a + off < (lev + 1) * k,
    ensures
        512 * (lev * t - c * b) <= 512 * b + 171 * t,
        0x10_0000 * (lev * t - c * b) > (a * l - 0x10_0000) * c * b - 0x800 * ((512 - num) * t) - l * b,
        -0x8_0000 <= (a * l - 0x10_0000) * c <= 0x10_0000,
{
    let e = a * l - 0x10_0000;
    let u = lev * t - c * b;
    let ec = e * c;
    assert(-0x8_0000 <= ec <= 0x10_0000) by (nonlinear_arith)
        requires
            -16 <= e <= 32,
            0 <= c <= 0x8000,
            ec == e * c,
    ;
    // a * t is k * b up to the mismatch of the scales.
    assert(a * t == k * b + 16 * (e * p)) by (nonlinear_arith)
        requires
            t == 16 * l * p,
            a * l == 0x10_0000 + e,
            k * b == 0x100_0000 * p,
    ;
    assert(c * (a * t) == c * (k * b) + 16 * (ec * p)) by (nonlinear_arith)
        requires
            a * t == k * b + 16 * (e * p),
            ec == e * c,
    ;
    let ecp = ec * p;
    assert(0x10_0000 * (16 * ecp) == ec * (k * b)) by (nonlinear_arith)
        requires
            k * b == 0x100_0000 * p,
            ecp == ec * p,
    ;
    let kb = k * b;
    assert(kb >= 1) by (nonlinear_arith)
        requires
            k >= 1,
            b >= 1,
            kb == k * b,
    ;
    assert(ec * kb <= 0x10_0000 * kb) by (nonlinear_arith)
        requires
            ec <= 0x10_0000,
            kb >= 0,
    ;
    assert(ec * kb >= -0x8_0000 * kb) by (nonlinear_arith)
        requires
            ec >= -0x8_0000,
            kb >= 0,
    ;
    assert(16 * ecp <= kb && 2 * (16 * ecp) >= -kb);
    assert(t >= 640) by (nonlinear_arith)
        requires
            t == 16 * l * p,
            l >= 40,
            p >= 1,
    ;
    // k * u, from the two sides of the rounding.
    let ku = k * u;
    assert((lev * k) * t <= (c * a + off) * t) by (nonlinear_arith)
        requires
            lev * k <= c * a + off,
            t >= 0,
    ;
    assert((c * a + off) * t < ((lev + 1) * k) * t) by (nonlinear_arith)
        requires
            c * a + off < (lev + 1) * k,
            t >= 1,
    ;
    assert((lev * k) * t == k * (lev * t) && ((lev + 1) * k) * t == k * (lev * t) + k * t) by (nonlinear_arith);
    assert((c * a + off) * t == c * (a * t) + off * t) by (nonlinear_arith);
    assert(c * (k * b) == k * (c * b)) by (nonlinear_arith);
    assert(ku == k * (lev * t) - k * (c * b)) by (nonlinear_arith)
        requires
            u == lev * t - c * b,
            ku == k * u,
    ;
    let ot = off * t;
    assert(ku <= 16 * ecp + ot);
    assert(ku + k * t > 16 * ecp + ot);
    assert(512 * ot <= 171 * (k * t)) by (nonlinear_arith)
        requires
            512 * off <= num * k,
            num <= 171,
            k >= 1,
            t >= 0,
            ot == off * t,
    ;
    let kt = k * t;
    assert(512 * ot >= num * kt - 512 * t) by (nonlinear_arith)
        requires
            num * k <= 512 * (off + 1),
            t >= 0,
            ot == off * t,
            kt == k * t,
    ;
    // A step against the quantizer's unit: t is l parts in a million of k * b.
    assert(0x10_0000 * t == l * kb) by (nonlinear_arith)
        requires
            t == 16 * l * p,
            kb == 0x100_0000 * p,
    ;
    assert(512 * ku <= 512 * kb + 171 * (k * t));
    assert(k * (512 * u) <= k * (512 * b + 171 * t)) by (nonlinear_arith)
        requires
            512 * ku <= 512 * kb + 171 * (k * t),
            ku == k * u,
            kb == k * b,
    ;
    assert(512 * u <= 512 * b + 171 * t) by (nonlinear_arith)
        requires
            k * (512 * u) <= k * (512 * b + 171 * t),
            k >= 1,
    ;
    let nt = num * kt;
    assert(0x10_0000 * ku > ec * kb + 0x800 * nt - l * kb - 0x10_0000 * kt);
    assert((512 - num) * kt == 512 * kt - nt) by (nonlinear_arith)
        requires
            nt == num * kt,
    ;
    let w = (512 - num) * t;
    assert((512 - num) * kt == k * w) by (nonlinear_arith)
        requires
            w == (512 - num) * t,
            kt == k * t,
    ;
    let right = ec * b - 0x800 * w - l * b;
    assert(k * right == ec * kb - 0x800 * (k * w) - l * kb) by (nonlinear_arith)
        requires
            right == ec * b - 0x800 * w - l * b,
            kb == k * b,
    ;
    assert(k * (0x10_0000 * u) > k * right) by (nonlinear_arith)
        requires
            0x10_0000 * ku > k * right,
            ku == k * u,
    ;
    assert(0x10_0000 * u > right) by (nonlinear_arith)
        requires
            k * (0x10_0000 * u) > k * right,
            k >= 1,
    ;
    assert(e * c * b == ec * b);
}

/// How far a rounded multiple of a step lies above the coefficient.
proof fn lemma_rounded_above(c: int, b: int, t: int, n: int, r: int, s: int)
    requires
        b >= 1,
        s >= 2,
        s * b <= t < (s + 1) * b,
        b * (2 * r - 1) <= 2 * n,
        512 * (n - c * b) <= 512 * b + 171 * t,
    ensures
        r - c <= s,
{
    let (rb, cb, sb) = (r * b, c * b, s * b);
    assert(b * (2 * r - 1) == 2 * rb - b && (s + 1) * b == sb + b) by (nonlinear_arith)
        requires
            rb == r * b,
            sb == s * b,
    ;
    assert(sb >= 2 * b) by (nonlinear_arith)
        requires
            s >= 2,
            b >= 1,
            sb == s * b,
    ;
    assert(rb - cb < sb + b);
    assert(r - c <= s) by (nonlinear_arith)
        requires
            rb - cb < sb + b,
            cb == c * b,
            rb == r * b,
            sb == s * b,
            b >= 1,
    ;
}

/// How far a rounded multiple of a step lies below the coefficient. `slack` is what the
/// rounding may cost, in halves of `b`.
proof fn lemma_rounded_below(
    c: int,
    l: int,
    b: int,
    t: int,
    n: int,
    r: int,
    s: int,
    ec: int,
    num: int,
    slack: int,
    d: int,
    f: int,
)
    requires
        b >= 1,
        s >= 2,
        40 <= l <= 72,
        85 <= num <= 171,
        0 <= slack <= 1,
        s * b <= t < (s + 1) * b,
        2 * n <= b * (2 * r + slack),
        ec >= -0x8_0000,
        0x10_0000 * (n - c * b) > ec * b - 0x800 * ((512 - num) * t) - l * b,
    ensures
        c - r <= s + 1,
        s >= 6 ==> c - r <= s,
        d * f == 0x1000 && d * t == l * b && 0x10_0000 * slack - 2 * ec + 2 * l + f * ((512 - num) * l)
            <= 0x20_0000 * (s + 1) ==> c - r <= s,
{
    let (rb, cb, sb, lb, eb) = (r * b, c * b, s * b, l * b, ec * b);
    let w = (512 - num) * t;
    let db = slack * b;
    assert(b * (2 * r + slack) == 2 * rb + db && (s + 1) * b == sb + b) by (nonlinear_arith)
        requires
            rb == r * b,
            sb == s * b,
            db == slack * b,
    ;
    assert(0 <= db <= b) by (nonlinear_arith)
        requires
            0 <= slack <= 1,
            b >= 1,
            db == slack * b,
    ;
    assert(eb >= -0x8_0000 * b) by (nonlinear_arith)
        requires
            ec >= -0x8_0000,
            b >= 1,
            eb == ec * b,
    ;
    assert(lb <= 72 * b) by (nonlinear_arith)
        requires
            l <= 72,
            b >= 1,
            lb == l * b,
    ;
    assert(w <= 427 * t) by (nonlinear_arith)
        requires
            w == (512 - num) * t,
            num >= 85,
            t >= 0,
    ;
    // Twice the distance, in parts of b.
    assert(0x20_0000 * (cb - rb) < 0x10_0000 * db - 2 * eb + 0x1000 * w + 2 * lb);
    assert(cb - rb < sb + 2 * b);
    lemma_scaled_order(c, r, s + 1, b);
    if s >= 6 {
        assert(sb >= 6 * b) by (nonlinear_arith)
            requires
                s >= 6,
                b >= 1,
                sb == s * b,
        ;
        assert(cb - rb < sb + b);
        lemma_scaled_order(c, r, s, b);
    }
    let wl = (512 - num) * l;
    let x = 0x10_0000 * slack - 2 * ec + 2 * l;
    let wb = wl * b;
    assert(x * b == 0x10_0000 * db - 2 * eb + 2 * lb) by (nonlinear_arith)
        requires
            x == 0x10_0000 * slack - 2 * ec + 2 * l,
            db == slack * b,
            eb == ec * b,
            lb == l * b,
    ;
    assert((512 - num) * lb == wb) by (nonlinear_arith)
        requires
            lb == l * b,
            wb == wl * b,
            wl == (512 - num) * l,
    ;
    if d * f == 0x1000 && d * t == lb && x + f * wl <= 0x20_0000 * (s + 1) {
        let y = f * wl;
        assert(0x1000 * w == y * b) by {
            assert(d * w == wb) by (nonlinear_arith)
                requires
                    d * t == lb,
                    w == (512 - num) * t,
                    (512 - num) * lb == wb,
            ;
            assert(d * f * w == f * (d * w)) by (nonlinear_arith);
            assert(f * wb == y * b) by (nonlinear_arith)
                requires
                    y == f * wl,
                    wb == wl * b,
            ;
        }
        assert((x + y) * b <= (0x20_0000 * (s + 1)) * b) by (nonlinear_arith)
            requires
                x + y <= 0x20_0000 * (s + 1),
                b >= 1,
        ;
        assert((x + y) * b == x * b + y * b && (0x20_0000 * (s + 1)) * b == 0x20_0000 * (sb + b)) by (nonlinear_arith)
            requires
                sb == s * b,
        ;
        assert(cb - rb < sb + b);
        lemma_scaled_order(c, r, s, b);
    }
}

/// A step of less than six units is a level scale over 8, 16 or 32.
proof fn lemma_small_step(l: int, u: nat, bd: nat, s: int) -> (d: int)
    requires
        40 <= l <= 72,
        2 <= s < 6,
        s * pow2(bd) <= l * pow2(u) < (s + 1) * pow2(bd),
    ensures
        d == 8 || d == 16 || d == 32,
        d * (l * pow2(u)) == l * pow2(bd),
        s * d <= l < (s + 1) * d,
{
    let (pu, pb) = (pow2(u) as int, pow2(bd) as int);
    lemma_pow2_pos(u);
    lemma_pow2_pos(bd);
    if u >= bd {
        let e = (u - bd) as nat;
        lemma_pow2_adds(e, bd);
        lemma_pow2_pos(e);
        let pe = pow2(e) as int;
        assert(false) by (nonlinear_arith)
            requires
                pu == pe * pb,
                pe >= 1,
                pb >= 1,
                l >= 40,
                s < 6,
                l * pu < (s + 1) * pb,
        ;
        0
    } else {
        let e = (bd - u) as nat;
        lemma_pow2_adds(e, u);
        lemma_pow2_pos(e);
        let d = pow2(e) as int;
        assert(pb == d * pu);
        assert(s * d <= l < (s + 1) * d && d * (l * pu) == l * pb) by (nonlinear_arith)
            requires
                pb == d * pu,
                pu >= 1,
                s * pb <= l * pu < (s + 1) * pb,
        ;
        assert(6 < d < 64) by (nonlinear_arith)
            requires
                s * d <= l < (s + 1) * d,
                40 <= l <= 72,
                2 <= s < 6,
                d >= 1,
        ;
        lemma2_to64();
        if e < 3 {
            assert(e == 0 || e == 1 || e == 2);
        } else if e >= 6 {
            lemma_pow2_adds((e - 6) as nat, 6);
            lemma_pow2_pos((e - 6) as nat);
            assert(d >= 64) by (nonlinear_arith)
                requires
                    d == pow2((e - 6) as nat) * 64,
                    pow2((e - 6) as nat) >= 1,
            ;
        } else {
            assert(e == 3 || e == 4 || e == 5);
        }
        d
    }
}

proof fn lemma_scaled_order(c: int, r: int, s: int, b: int)
    by (nonlinear_arith)
    requires
        b >= 1,
    ensures
        c * b - r * b < s * b + b ==> c - r <= s,
{
}

/// A step: what a level of one is scaled back to, rounded down.
pub open spec fn step(q_p: int, bit_depth: int, n: int) -> int {
    (16 * LEVEL_SCALE@[q_p % 6] * pow2((q_p / 6) as nat)) / pow2(scaling_shift(bit_depth, n, false) as nat) as int
}

/// Rounding to the nearest multiple, from both sides and for both signs.
proof fn lemma_round_both(n: int, shift: nat)
    requires
        shift >= 1,
    ensures
        ({
            let b = pow2(shift) as int;
            let r = round_shift(n, shift);
            let q = -round_shift(-n, shift);
            &&& b * (2 * r - 1) <= 2 * n < b * (2 * r + 1)
            &&& b * (2 * q - 1) <= 2 * n <= b * (2 * q + 1)
        }),
{
    let b = pow2(shift) as int;
    let h = pow2((shift - 1) as nat) as int;
    lemma_pow2_unfold(shift);
    lemma_pow2_pos((shift - 1) as nat);
    let r = round_shift(n, shift);
    let q = round_shift(-n, shift);
    lemma_fundamental_div_mod(n + h, b);
    lemma_fundamental_div_mod(-n + h, b);
    let br = b * r;
    let bq = b * q;
    assert(b * (2 * r - 1) == 2 * br - b && b * (2 * r + 1) == 2 * br + b) by (nonlinear_arith)
        requires
            br == b * r,
    ;
    assert(b * (2 * (-q) - 1) == -2 * bq - b && b * (2 * (-q) + 1) == -2 * bq + b) by (nonlinear_arith)
        requires
            bq == b * q,
    ;
}

/// The magnitude of a coefficient is quantized without a limit and scaled back within a
/// step.
proof fn lemma_magnitude(m: int, q_p: int, bit_depth: int, n: int, intra: bool)
    requires
        block_side(false, n),
        8 <= bit_depth <= 16,
        q_p >= 0,
        step(q_p, bit_depth, n) >= 2,
        0 <= m <= 0x8000,
    ensures
        ({
            let shift = quant_shift(q_p, bit_depth, n, false) as nat;
            let bd = scaling_shift(bit_depth, n, false) as nat;
            let lev = (m * quant_factor(q_p, None, 0) + rounding(shift, intra)) / pow2(shift) as int;
            let t = 16 * LEVEL_SCALE@[q_p % 6] * pow2((q_p / 6) as nat);
            let s = step(q_p, bit_depth, n);
            let r = round_shift(lev * t, bd);
            let q = -round_shift(-(lev * t), bd);
            &&& 0 <= lev <= 0x7FFF
            &&& -s <= r - m <= s
            &&& -s - 1 <= q - m <= s
            &&& !(!intra && s == 2 && LEVEL_SCALE@[q_p % 6] == 40 && missed(m)) ==> q - m >= -s
        }),
{
    let shift = quant_shift(q_p, bit_depth, n, false) as nat;
    let bd = scaling_shift(bit_depth, n, false) as nat;
    let p = pow2((q_p / 6) as nat) as int;
    let k = pow2(shift) as int;
    let b = pow2(bd) as int;
    let a = QUANT_SCALE@[q_p % 6] as int;
    let l = LEVEL_SCALE@[q_p % 6] as int;
    let t = 16 * l * p;
    let off = rounding(shift, intra);
    let x = m * a + off;
    let lev = x / k;
    lemma_reciprocal(q_p % 6);
    lemma_pow2_pos((q_p / 6) as nat);
    lemma_pow2_pos(shift);
    lemma_pow2_pos(bd);
    lemma2_to64();
    lemma_pow2_adds(shift, bd);
    lemma_pow2_adds(24, (q_p / 6) as nat);
    assert(shift + bd == 24 + q_p / 6);
    assert(k * b == 0x100_0000 * p);
    let num: int = if intra {
        171
    } else {
        85
    };
    lemma_fundamental_div_mod(num * k, 512);
    assert(0 <= off && 512 * off <= num * k && num * k <= 512 * (off + 1));
    assert(m * a >= 0) by (nonlinear_arith)
        requires
            m >= 0,
            a >= 0,
    ;
    lemma_fundamental_div_mod(x, k);
    assert(k * lev == lev * k && (lev + 1) * k == lev * k + k) by (nonlinear_arith);
    assert(lev >= 0) by {
        vstd::arithmetic::div_mod::lemma_div_pos_is_pos(x, k);
    }
    lemma_level_distance(m, a, l, p, k, b, t, num, off, lev);
    let s = step(q_p, bit_depth, n);
    lemma_fundamental_div_mod(t, b);
    assert(s * b == b * s && (s + 1) * b == s * b + b) by (nonlinear_arith);
    assert(s * b >= 2 * b) by (nonlinear_arith)
        requires
            s >= 2,
            b >= 1,
    ;
    let nn = lev * t;
    assert(lev <= 0x7FFF) by {
        assert(m * b <= 0x8000 * b) by (nonlinear_arith)
            requires
                m <= 0x8000,
                b >= 1,
        ;
        assert(512 * nn <= 512 * (m * b) + 512 * b + 171 * t);
        assert(lev <= 0x7FFF) by (nonlinear_arith)
            requires
                512 * nn <= 512 * (m * b) + 512 * b + 171 * t,
                m * b <= 0x8000 * b,
                nn == lev * t,
                t >= 2 * b,
                b >= 1,
                lev >= 0,
        ;
    }
    lemma_round_both(nn, bd);
    let r = round_shift(nn, bd);
    let q = -round_shift(-nn, bd);
    let ec = (a * l - 0x10_0000) * m;
    lemma_rounded_above(m, b, t, nn, r, s);
    lemma_rounded_above(m, b, t, nn, q, s);
    let d: int = if s < 6 {
        lemma_pow2_adds(4, (q_p / 6) as nat);
        let u = (4 + q_p / 6) as nat;
        assert(t == l * pow2(u)) by (nonlinear_arith)
            requires
                t == 16 * l * p,
                pow2(u) == 16 * p,
        ;
        lemma_small_step(l, u, bd, s)
    } else {
        1
    };
    let f: int = if d == 8 {
        512
    } else if d == 16 {
        256
    } else {
        128
    };
    let slack: int = if l == 40 && d == 16 {
        0
    } else {
        1
    };
    assert(2 * nn <= b * (2 * r + slack)) by {
        if slack == 0 {
            assert(2 * t == 5 * b);
            assert(2 * nn <= b * (2 * r)) by (nonlinear_arith)
                requires
                    2 * nn < b * (2 * r + 1),
                    nn == lev * t,
                    2 * t == 5 * b,
                    b >= 1,
            ;
        }
    }
    lemma_rounded_below(m, l, b, t, nn, r, s, ec, num, slack, d, f);
    lemma_rounded_below(m, l, b, t, nn, q, s, ec, num, 1, d, f);
    assert(quant_factor(q_p, None, 0) == a);
    let loose = !intra && s == 2 && l == 40 && m > 27197;
    if s < 6 {
        lemma_error_fits(q_p % 6, m, s, num, d, f);
        assert(d * f == 0x1000);
        assert(d * t == l * b);
        let rest = -2 * ec + 2 * l + f * ((512 - num) * l);
        assert(0x10_0000 * slack + rest <= 0x20_0000 * (s + 1));
        assert(m - r <= s);
        if !loose {
            assert(0x10_0000 + rest <= 0x20_0000 * (s + 1));
            assert(m - q <= s);
        } else if !missed(m) {
            assert(d == 16);
            assert(2 * t == 5 * b);
            assert(b == 256 * p);
            assert(k == 0x1_0000) by (nonlinear_arith)
                requires
                    k * b == 0x100_0000 * p,
                    b == 256 * p,
                    p >= 1,
            ;
            assert(off == 10880 && a == 26214);
            assert(5 * lev <= 2 * q + 1) by (nonlinear_arith)
                requires
                    2 * nn <= b * (2 * q + 1),
                    nn == lev * t,
                    2 * t == 5 * b,
                    b >= 1,
            ;
            assert(m * a == 26214 * m && lev * k == 0x1_0000 * lev) by (nonlinear_arith)
                requires
                    a == 26214,
                    k == 0x1_0000,
            ;
            lemma_smallest_step(m, lev, q);
        }
    }
    assert(-s <= r - m <= s);
    assert(-s - 1 <= q - m <= s);
    assert(!(loose && missed(m)) ==> q - m >= -s);
}

/// The sizes that the smallest step of the coarsest rounding misses: large multiples of
/// twice that step, which lose a level to the shortfall of the quantizer's scale.
pub open spec fn missed(m: int) -> bool {
    m >= 27205 && m % 5 == 0
}

/// A large size at the smallest step, two and a half units, and the coarsest rounding.
proof fn lemma_smallest_step(m: int, lev: int, q: int)
    requires
        27197 < m <= 0x8000,
        !missed(m),
        0x1_0000 * lev <= 26214 * m + 10880 < 0x1_0000 * (lev + 1),
        5 * lev <= 2 * q + 1,
    ensures
        m - q <= 2,
{
    let (j, i) = (m / 5, m % 5);
    assert(m == 5 * j + i);
    if i == 0 {
        assert(j == 5440);
    } else if i == 1 || i == 2 {
        assert(lev >= 2 * j);
    } else {
        assert(lev >= 2 * j + 1);
    }
}

/// Every step below six leaves room for what its rounding may cost.
proof fn lemma_error_fits(k: int, m: int, s: int, num: int, d: int, f: int)
    requires
        0 <= k < 6,
        0 <= m <= 0x8000,
        2 <= s < 6,
        num == 85 || num == 171,
        (d == 8 && f == 512) || (d == 16 && f == 256) || (d == 32 && f == 128),
        s * d <= LEVEL_SCALE@[k] < (s + 1) * d,
    ensures
        ({
            let l = LEVEL_SCALE@[k] as int;
            let ec = (QUANT_SCALE@[k] * LEVEL_SCALE@[k] - 0x10_0000) * m;
            let rest = -2 * ec + 2 * l + f * ((512 - num) * l);
            &&& !(num == 85 && s == 2 && l == 40 && m > 27197) ==> 0x10_0000 + rest <= 0x20_0000 * (s + 1)
            &&& l == 40 && d == 16 ==> rest <= 0x20_0000 * (s + 1)
            &&& !(l == 40 && d == 16) ==> 0x10_0000 + rest <= 0x20_0000 * (s + 1)
        }),
{
    let l = LEVEL_SCALE@[k] as int;
    let w = (512 - num) * l;
    if num == 85 {
        assert(w == 427 * l);
    } else {
        assert(w == 341 * l);
    }
    let e = QUANT_SCALE@[k] * LEVEL_SCALE@[k] - 0x10_0000;
    lemma_reciprocal(k);
    if k == 0 || k == 2 {
        assert(e * m == -16 * m) by (nonlinear_arith)
            requires
                e == -16,
        ;
    } else if k == 1 {
        assert(e * m == 14 * m) by (nonlinear_arith)
            requires
                e == 14,
        ;
    } else if k == 3 {
        assert(e * m == -4 * m) by (nonlinear_arith)
            requires
                e == -4,
        ;
    } else if k == 4 {
        assert(e * m == 0 * m) by (nonlinear_arith)
            requires
                e == 0,
        ;
    } else {
        assert(e * m == 32 * m) by (nonlinear_arith)
            requires
                e == 32,
        ;
    }
    if d == 8 {
        assert(s * d == 8 * s && f * w == 512 * w);
    } else if d == 16 {
        assert(s * d == 16 * s && f * w == 256 * w);
    } else {
        assert(s * d == 32 * s && f * w == 128 * w);
    }
    assert((s + 1) * d == s * d + d) by (nonlinear_arith);
}

/// Quantization inverts scaling: a coefficient that is quantized and scaled back lands
/// within one step of itself. The one exception are large negative multiples of five at a
/// step of two and a half and inter rounding, which it misses by one unit more.
pub proof fn law_quantized_lands_within_a_step(
    coefficients: Seq<i32>,
    n: int,
    q_p: int,
    bit_depth: int,
    intra: bool,
    i: int,
)
    requires
        block_side(false, n),
        8 <= bit_depth <= 16,
        q_p >= 0,
        step(q_p, bit_depth, n) >= 2,
        0 <= i < n * n,
        -0x8000 <= coefficients[i] <= 0x7FFF,
    ensures
        ({
            let levels = levels_of(coefficients, n, q_p, bit_depth, false, intra, None);
            let back = scaled(levels, n, q_p, bit_depth, false, None, i);
            let s = step(q_p, bit_depth, n);
            &&& abs(coefficients[i] - back) <= s + 1
            &&& intra || s != 2 || LEVEL_SCALE@[q_p % 6] != 40 || !missed(-coefficients[i])
                ==> abs(coefficients[i] - back) <= s
        }),
{
    let c = coefficients[i] as int;
    let shift = quant_shift(q_p, bit_depth, n, false) as nat;
    let bd = scaling_shift(bit_depth, n, false) as nat;
    let p = pow2((q_p / 6) as nat) as int;
    let l = LEVEL_SCALE@[q_p % 6] as int;
    let t = 16 * l * p;
    let levels = levels_of(coefficients, n, q_p, bit_depth, false, intra, None);
    let lev = (abs(c) * quant_factor(q_p, None, 0) + rounding(shift, intra)) / pow2(shift) as int;
    lemma2_to64();
    lemma_magnitude(abs(c), q_p, bit_depth, n, intra);
    assert(levels[i] == if c < 0 {
        -lev
    } else {
        lev
    });
    assert(levels[i] * 16 * (l * p) == if c < 0 {
        -(lev * t)
    } else {
        lev * t
    }) by (nonlinear_arith)
        requires
            t == 16 * l * p,
            levels[i] == if c < 0 {
                -lev
            } else {
                lev
            },
    ;
}

} // verus!
