//! The mathematical model of a bitstream: sequences of booleans, most
//! significant bit first, and their relation to integers and bytes.
use vstd::prelude::*;
use vstd::arithmetic::div_mod::{lemma_div_denominator, lemma_fundamental_div_mod_converse};
use vstd::arithmetic::power2::{
    lemma2_to64, lemma_pow2_adds, lemma_pow2_pos, lemma_pow2_strictly_increases, lemma_pow2_unfold, pow2,
};
use vstd::bits::{lemma_u64_shr_is_div, lemma_u8_shr_is_div};

verus! {

/// Bit `i` of `v`, bit 0 being the least significant.
pub open spec fn bit_at(v: nat, i: nat) -> bool {
    (v / pow2(i)) % 2 == 1
}

/// The `n` low bits of `v`, most significant first: the `u(n)` field of value `v`.
pub open spec fn be_bits(v: nat, n: nat) -> Seq<bool> {
    Seq::new(n, |i: int| bit_at(v, (n - 1 - i) as nat))
}

/// The number whose binary digits are `s`, most significant first.
pub open spec fn be_value(s: Seq<bool>) -> nat
    decreases s.len(),
{
    if s.len() == 0 {
        0
    } else {
        2 * be_value(s.drop_last()) + if s.last() {
            1nat
        } else {
            0nat
        }
    }
}

/// A run of `n` zero bits.
pub open spec fn zeros(n: nat) -> Seq<bool> {
    Seq::new(n, |i: int| false)
}

/// The bits of a byte string, the most significant bit of each byte first.
pub open spec fn bytes_bits(bytes: Seq<u8>) -> Seq<bool> {
    Seq::new(8 * bytes.len(), |i: int| bit_at(bytes[i / 8] as nat, (7 - i % 8) as nat))
}

/// How many zero bits bring `n` bits up to a byte boundary.
pub open spec fn padding(n: nat) -> nat {
    ((8 - n % 8) % 8) as nat
}

/// `s` followed by zero bits up to the next byte boundary.
pub open spec fn aligned(s: Seq<bool>) -> Seq<bool> {
    s + zeros(padding(s.len()))
}

/// The bytes that hold `s`, the last one padded with zero bits.
pub open spec fn pack(s: Seq<bool>) -> Seq<u8> {
    Seq::new(
        (s.len() + padding(s.len())) / 8,
        |k: int| be_value(aligned(s).subrange(8 * k, 8 * k + 8)) as u8,
    )
}

/// `ue(v)`: as many zeros as `v + 1` has digits after its first, then `v + 1`.
pub open spec fn ue_bits(v: nat) -> Seq<bool> {
    zeros((width(v + 1) - 1) as nat) + be_bits(v + 1, width(v + 1))
}

/// The `codeNum` to which `se(v)` maps a signed value: positive values take the
/// odd numbers, the others the even ones.
pub open spec fn se_code_num(v: int) -> nat {
    (if v > 0 {
        2 * v - 1
    } else {
        2 * (-v)
    }) as nat
}

/// `se(v)`: the `ue(v)` code of the mapped `codeNum`.
pub open spec fn se_bits(v: int) -> Seq<bool> {
    ue_bits(se_code_num(v))
}

/// How many binary digits `v` has; zero has none.
pub open spec fn width(v: nat) -> nat
    decreases v,
{
    if v == 0 {
        0
    } else {
        1 + width(v / 2)
    }
}

pub proof fn lemma_width(v: nat)
    ensures
        v < pow2(width(v)),
        v > 0 ==> width(v) >= 1 && pow2((width(v) - 1) as nat) <= v,
    decreases v,
{
    if v == 0 {
        lemma2_to64();
    } else {
        lemma_width(v / 2);
        lemma_pow2_unfold(width(v));
        if v / 2 == 0 {
            lemma2_to64();
        } else {
            lemma_pow2_unfold((width(v) - 1) as nat);
        }
    }
}

/// The width is the only number of digits that fits `v` with none to spare.
pub proof fn lemma_width_unique(v: nat, n: nat)
    requires
        n >= 1,
        pow2((n - 1) as nat) <= v < pow2(n),
    ensures
        width(v) == n,
{
    lemma_width(v);
    lemma_pow2_pos((n - 1) as nat);
    let w = width(v);
    if w < n {
        if w < n - 1 {
            lemma_pow2_strictly_increases(w, (n - 1) as nat);
        }
    } else if w > n {
        if w - 1 > n {
            lemma_pow2_strictly_increases(n, (w - 1) as nat);
        }
    }
}

pub proof fn lemma_bit_at_zero(v: nat)
    ensures
        bit_at(v, 0) == (v % 2 == 1),
{
    lemma2_to64();
}

/// Dropping the lowest digit moves every other digit down by one place.
pub proof fn lemma_bit_at_half(v: nat, i: nat)
    ensures
        bit_at(v, i + 1) == bit_at(v / 2, i),
{
    lemma_pow2_pos(i);
    lemma_pow2_unfold(i + 1);
    lemma_div_denominator(v as int, 2, pow2(i) as int);
}

/// Dropping the `shift` lowest digits moves every other digit down.
pub proof fn lemma_bit_at_shift(v: nat, shift: nat, i: nat)
    ensures
        bit_at(v / pow2(shift), i) == bit_at(v, shift + i),
{
    lemma_pow2_pos(shift);
    lemma_pow2_pos(i);
    lemma_pow2_adds(shift, i);
    lemma_div_denominator(v as int, pow2(shift) as int, pow2(i) as int);
}

/// The `n` low digits survive a reduction to `n` digits.
pub proof fn lemma_bit_at_mod(v: nat, n: nat, i: nat)
    requires
        i < n,
    ensures
        bit_at(v % pow2(n), i) == bit_at(v, i),
{
    lemma_pow2_pos(n);
    lemma_pow2_pos(i);
    let m = (n - i - 1) as nat;
    lemma_pow2_adds(i, m + 1);
    lemma_pow2_unfold(m + 1);
    let q = (v / pow2(n)) as int;
    let r = (v % pow2(n)) as int;
    let pi = pow2(i) as int;
    let k = pow2(m) as int;
    vstd::arithmetic::div_mod::lemma_fundamental_div_mod(v as int, pow2(n) as int);
    assert(v as int == (q * (2 * k)) * pi + r) by (nonlinear_arith)
        requires
            v as int == pow2(n) as int * q + r,
            pow2(n) as int == pi * (2 * k),
    ;
    vstd::arithmetic::div_mod::lemma_hoist_over_denominator(r, q * (2 * k), pow2(i));
    assert((q * (2 * k)) * pi + r == r + (q * (2 * k)) * pi);
    assert(v as int / pi == r / pi + q * (2 * k));
    assert(q * (2 * k) == 2 * (q * k)) by (nonlinear_arith);
}

/// A field of `n` bits reads back as its value reduced to `n` bits.
pub proof fn lemma_be_value_of_bits(v: nat, n: nat)
    ensures
        be_value(be_bits(v, n)) == v % pow2(n),
    decreases n,
{
    if n == 0 {
        lemma2_to64();
        assert(v % 1 == 0);
    } else {
        let m = (n - 1) as nat;
        let s = be_bits(v, n);
        assert(s.drop_last() =~= be_bits(v / 2, m)) by {
            assert forall|i: int| 0 <= i < m implies s.drop_last()[i] == be_bits(v / 2, m)[i] by {
                lemma_bit_at_half(v, (m - 1 - i) as nat);
            }
        }
        lemma_be_value_of_bits(v / 2, m);
        lemma_bit_at_zero(v);
        lemma_pow2_unfold(n);
        lemma_pow2_pos(m);
        let p = pow2(m) as int;
        let q = (v / 2) as int / p;
        let r = (v / 2) as int % p;
        assert((v / 2) as int == q * p + r) by {
            vstd::arithmetic::div_mod::lemma_fundamental_div_mod((v / 2) as int, p);
            assert(p * q == q * p) by (nonlinear_arith);
        }
        assert(v as int == q * (2 * p) + (2 * r + v % 2)) by (nonlinear_arith)
            requires
                v as int == 2 * ((v / 2) as int) + v % 2,
                (v / 2) as int == q * p + r,
        ;
        lemma_fundamental_div_mod_converse(v as int, 2 * p, q, 2 * r + v % 2);
    }
}

/// A field wide enough for its value reads back exactly.
pub proof fn lemma_be_bits_roundtrip(v: nat, n: nat)
    requires
        v < pow2(n),
    ensures
        be_value(be_bits(v, n)) == v,
{
    lemma_be_value_of_bits(v, n);
    vstd::arithmetic::div_mod::lemma_small_mod(v, pow2(n));
}

/// `n` digits denote a number below `2^n`.
pub proof fn lemma_be_value_bound(s: Seq<bool>)
    ensures
        be_value(s) < pow2(s.len()),
    decreases s.len(),
{
    if s.len() == 0 {
        lemma2_to64();
    } else {
        lemma_be_value_bound(s.drop_last());
        lemma_pow2_unfold(s.len());
    }
}

/// The digits of the number that `s` denotes are `s`.
pub proof fn lemma_be_bits_of_value(s: Seq<bool>)
    ensures
        be_bits(be_value(s), s.len()) == s,
    decreases s.len(),
{
    if s.len() > 0 {
        let v = be_value(s);
        let h = s.drop_last();
        lemma_be_bits_of_value(h);
        assert(v / 2 == be_value(h));
        assert forall|i: int| 0 <= i < s.len() implies be_bits(v, s.len())[i] == s[i] by {
            if i == s.len() - 1 {
                lemma_bit_at_zero(v);
            } else {
                lemma_bit_at_half(v, (s.len() - 2 - i) as nat);
                assert(be_bits(be_value(h), h.len())[i] == h[i]);
            }
        }
    }
    assert(be_bits(be_value(s), s.len()) =~= s);
}

/// Digits appended on the right scale the number by two for each.
pub proof fn lemma_be_value_concat(a: Seq<bool>, b: Seq<bool>)
    ensures
        be_value(a + b) == be_value(a) * pow2(b.len()) + be_value(b),
    decreases b.len(),
{
    if b.len() == 0 {
        lemma2_to64();
        assert(a + b =~= a);
    } else {
        assert((a + b).drop_last() =~= a + b.drop_last());
        lemma_be_value_concat(a, b.drop_last());
        lemma_pow2_unfold(b.len());
        let p = pow2((b.len() - 1) as nat);
        assert(be_value(a) * (2 * p) == 2 * (be_value(a) * p)) by (nonlinear_arith);
    }
}

/// A machine word's shifted-out bit is the digit at that place.
pub proof fn lemma_u64_bit(v: u64, i: u64)
    requires
        i < 64,
    ensures
        ((v >> i) & 1 == 1) == bit_at(v as nat, i as nat),
        ((v >> i) & 1 == 0) == !bit_at(v as nat, i as nat),
{
    lemma_u64_shr_is_div(v, i);
    let x = v >> i;
    assert(x & 1 == x % 2) by (bit_vector);
}

/// A byte's shifted-out bit is the digit at that place.
pub proof fn lemma_u8_bit(v: u8, i: u8)
    requires
        i < 8,
    ensures
        ((v >> i) & 1 == 1) == bit_at(v as nat, i as nat),
        ((v >> i) & 1 == 0) == !bit_at(v as nat, i as nat),
{
    lemma_u8_shr_is_div(v, i);
    let x = v >> i;
    assert(x & 1 == x % 2) by (bit_vector);
}

/// Setting bit `p` of a byte in which it is clear changes that bit alone.
pub proof fn lemma_set_bit(b: u8, bit: u8, p: u8)
    requires
        p < 8,
        bit <= 1,
        !bit_at(b as nat, (7 - p) as nat),
    ensures
        forall|j: int|
            0 <= j < 8 ==> #[trigger] bit_at((b | (bit << ((7 - p) as u8))) as nat, j as nat) == if j == 7 - p {
                bit == 1
            } else {
                bit_at(b as nat, j as nat)
            },
{
    let s = (7 - p) as u8;
    let c = b | (bit << s);
    lemma_u8_bit(b, s);
    assert forall|j: int| 0 <= j < 8 implies #[trigger] bit_at(c as nat, j as nat) == if j == 7 - p {
        bit == 1
    } else {
        bit_at(b as nat, j as nat)
    } by {
        let k = j as u8;
        lemma_u8_bit(c, k);
        lemma_u8_bit(b, k);
        assert((((b | (bit << s)) >> k) & 1) == if k == s {
            bit
        } else {
            (b >> k) & 1
        }) by (bit_vector)
            requires
                s < 8,
                k < 8,
                bit <= 1,
                (b >> s) & 1 == 0,
        ;
    }
}

/// The bits of concatenated byte strings are the concatenated bits.
pub proof fn lemma_bytes_bits_concat(a: Seq<u8>, b: Seq<u8>)
    ensures
        bytes_bits(a + b) == bytes_bits(a) + bytes_bits(b),
{
    assert(bytes_bits(a + b) =~= bytes_bits(a) + bytes_bits(b)) by {
        assert forall|i: int| 0 <= i < 8 * (a.len() + b.len()) implies bytes_bits(a + b)[i] == (bytes_bits(a)
            + bytes_bits(b))[i] by {
            if i >= 8 * a.len() {
                let k = i - 8 * a.len();
                assert(i / 8 == a.len() + k / 8);
                assert(i % 8 == k % 8);
            }
        }
    }
}

/// One byte contributes its eight digits.
pub proof fn lemma_bytes_bits_push(a: Seq<u8>, b: u8)
    ensures
        bytes_bits(a.push(b)) == bytes_bits(a) + be_bits(b as nat, 8),
{
    assert(bytes_bits(a.push(b)) =~= bytes_bits(a) + be_bits(b as nat, 8)) by {
        assert forall|i: int| 0 <= i < 8 * a.len() + 8 implies bytes_bits(a.push(b))[i] == (bytes_bits(a)
            + be_bits(b as nat, 8))[i] by {
            if i >= 8 * a.len() {
                let k = i - 8 * a.len();
                assert(i / 8 == a.len());
                assert(i % 8 == k);
            }
        }
    }
}

/// Byte strings with the same bits are the same.
pub proof fn lemma_bytes_bits_injective(a: Seq<u8>, b: Seq<u8>)
    requires
        bytes_bits(a) == bytes_bits(b),
    ensures
        a == b,
{
    assert(bytes_bits(a).len() == 8 * a.len());
    assert(bytes_bits(b).len() == 8 * b.len());
    assert forall|k: int| 0 <= k < a.len() implies a[k] == b[k] by {
        assert(be_bits(a[k] as nat, 8) =~= be_bits(b[k] as nat, 8)) by {
            assert forall|j: int| 0 <= j < 8 implies be_bits(a[k] as nat, 8)[j] == be_bits(b[k] as nat, 8)[j] by {
                let i = 8 * k + j;
                assert(i / 8 == k && i % 8 == j);
                assert(bytes_bits(a)[i] == bit_at(a[i / 8] as nat, (7 - i % 8) as nat));
                assert(bytes_bits(b)[i] == bit_at(b[i / 8] as nat, (7 - i % 8) as nat));
                assert(bytes_bits(a)[i] == bytes_bits(b)[i]);
            }
        }
        lemma2_to64();
        lemma_be_bits_roundtrip(a[k] as nat, 8);
        lemma_be_bits_roundtrip(b[k] as nat, 8);
    }
    assert(a =~= b);
}

/// Packing yields the one byte string whose bits are the aligned ones.
pub proof fn lemma_pack_bits(s: Seq<bool>)
    ensures
        bytes_bits(pack(s)) == aligned(s),
        aligned(s).len() == 8 * pack(s).len(),
{
    let t = aligned(s);
    let p = pack(s);
    assert(t.len() == 8 * p.len());
    assert(bytes_bits(p) =~= t) by {
        assert forall|i: int| 0 <= i < t.len() implies bytes_bits(p)[i] == t[i] by {
            let k = i / 8;
            let j = i % 8;
            let w = t.subrange(8 * k, 8 * k + 8);
            lemma_be_value_bound(w);
            lemma2_to64();
            lemma_be_bits_of_value(w);
            assert(p[k] as nat == be_value(w));
            assert(be_bits(be_value(w), 8)[j] == w[j]);
        }
    }
}

/// Bytes whose bits are the aligned ones are the packed bytes.
pub proof fn lemma_pack_unique(s: Seq<bool>, bytes: Seq<u8>)
    requires
        bytes_bits(bytes) == aligned(s),
    ensures
        bytes == pack(s),
{
    lemma_pack_bits(s);
    lemma_bytes_bits_injective(bytes, pack(s));
}

} // verus!
