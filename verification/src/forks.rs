//! Codes that can be read back: two messages of a code fork when their bins agree
//! up to a bin that both code in the same way with different values. A reader that
//! has followed the common bins then knows how the next one is coded, and its
//! value tells the messages apart.
use vstd::prelude::*;
use vstd::arithmetic::div_mod::{lemma_fundamental_div_mod_converse, lemma_small_mod};
use vstd::arithmetic::power2::{lemma_pow2_unfold, pow2};
use crate::bins::{bypass_bins, contexts_after, contexts_wf, decision_bin, encode_bins, Bin, CONTEXTS};
use crate::bits::{be_bits, bit_at, lemma_be_value_of_bits, lemma_width, ue_bits, width, zeros};
use crate::cabac::ContextModel;
use crate::cabac_decoder::Decoder;
use crate::cabac_encoder::{repeated, Coder};
use crate::cabac_laws::{codeword, codeword_shifts, decode_bin, decode_bins, law_decode_inverts_encode};

verus! {

/// Two bins coded in the same way with different values.
pub open spec fn splits(a: Bin, b: Bin) -> bool {
    match (a, b) {
        (Bin::Decision { ctx: c, bin: u }, Bin::Decision { ctx: d, bin: v }) => c == d && u != v,
        (Bin::Bypass { bit: u }, Bin::Bypass { bit: v }) => u != v,
        (Bin::Terminate { end: u }, Bin::Terminate { end: v }) => u != v,
        _ => false,
    }
}

/// The bins agree before position `k` and split there.
pub open spec fn fork_at(a: Seq<Bin>, b: Seq<Bin>, k: int) -> bool {
    &&& 0 <= k < a.len()
    &&& k < b.len()
    &&& forall|j: int| 0 <= j < k ==> #[trigger] a[j] == b[j]
    &&& splits(a[k], b[k])
}

/// The bins agree up to a position where they split.
pub open spec fn forks(a: Seq<Bin>, b: Seq<Bin>) -> bool {
    exists|k: int| #[trigger] fork_at(a, b, k)
}

/// Two bins that split fork, whatever follows.
pub proof fn lemma_fork_first(a: Bin, b: Bin, x: Seq<Bin>, y: Seq<Bin>)
    requires
        splits(a, b),
    ensures
        forks(seq![a] + x, seq![b] + y),
{
    assert(fork_at(seq![a] + x, seq![b] + y, 0));
}

/// A fork stays one behind equal bins, and whatever follows it.
pub proof fn lemma_fork_concat(a: Seq<Bin>, x: Seq<Bin>, b: Seq<Bin>, y: Seq<Bin>)
    requires
        forks(a, b) || a == b && forks(x, y),
    ensures
        forks(a + x, b + y),
{
    if forks(a, b) {
        let k = choose|k: int| #[trigger] fork_at(a, b, k);
        assert(fork_at(a + x, b + y, k)) by {
            assert forall|j: int| 0 <= j < k implies #[trigger] (a + x)[j] == (b + y)[j] by {
                assert(a[j] == b[j]);
            }
        }
    } else {
        let k = choose|k: int| #[trigger] fork_at(x, y, k);
        let n = a.len();
        assert(fork_at(a + x, b + y, n + k)) by {
            assert forall|j: int| 0 <= j < n + k implies #[trigger] (a + x)[j] == (b + y)[j] by {
                if j >= n {
                    assert(x[j - n] == y[j - n]);
                }
            }
        }
    }
}

/// Two bit runs agree before position `k` and differ there.
pub open spec fn part_at(a: Seq<bool>, b: Seq<bool>, k: int) -> bool {
    &&& 0 <= k < a.len()
    &&& k < b.len()
    &&& forall|j: int| 0 <= j < k ==> #[trigger] a[j] == b[j]
    &&& a[k] != b[k]
}

/// Neither of two bit runs is the beginning of the other.
pub open spec fn parts(a: Seq<bool>, b: Seq<bool>) -> bool {
    exists|k: int| #[trigger] part_at(a, b, k)
}

/// Bit runs that part fork as bins.
pub proof fn lemma_fork_bypass(a: Seq<bool>, b: Seq<bool>)
    requires
        parts(a, b),
    ensures
        forks(bypass_bins(a), bypass_bins(b)),
{
    let k = choose|k: int| #[trigger] part_at(a, b, k);
    assert(fork_at(bypass_bins(a), bypass_bins(b), k)) by {
        assert forall|j: int| 0 <= j < k implies #[trigger] bypass_bins(a)[j] == bypass_bins(b)[j] by {
            assert(a[j] == b[j]);
        }
    }
}

/// Bit runs part behind equal bits too, and whatever follows.
pub proof fn lemma_part_concat(a: Seq<bool>, x: Seq<bool>, b: Seq<bool>, y: Seq<bool>)
    requires
        parts(a, b) || a == b && parts(x, y),
    ensures
        parts(a + x, b + y),
{
    if parts(a, b) {
        let k = choose|k: int| #[trigger] part_at(a, b, k);
        assert(part_at(a + x, b + y, k)) by {
            assert forall|j: int| 0 <= j < k implies #[trigger] (a + x)[j] == (b + y)[j] by {
                assert(a[j] == b[j]);
            }
        }
    } else {
        let k = choose|k: int| #[trigger] part_at(x, y, k);
        let n = a.len();
        assert(part_at(a + x, b + y, n + k)) by {
            assert forall|j: int| 0 <= j < n + k implies #[trigger] (a + x)[j] == (b + y)[j] by {
                if j >= n {
                    assert(x[j - n] == y[j - n]);
                }
            }
        }
    }
}

/// Different runs of one length part.
pub proof fn lemma_part_equal_length(a: Seq<bool>, b: Seq<bool>)
    requires
        a.len() == b.len(),
        a != b,
    ensures
        parts(a, b),
    decreases a.len(),
{
    if a.len() == 0 {
        assert(a =~= b);
    } else {
        let n = a.len() - 1;
        if a.drop_last() == b.drop_last() {
            assert forall|j: int| 0 <= j < n implies #[trigger] a[j] == b[j] by {
                assert(a.drop_last()[j] == b.drop_last()[j]);
            }
            if a[n] == b[n] {
                assert(a =~= b);
            }
            assert(part_at(a, b, n));
        } else {
            lemma_part_equal_length(a.drop_last(), b.drop_last());
            let k = choose|k: int| #[trigger] part_at(a.drop_last(), b.drop_last(), k);
            assert(part_at(a, b, k)) by {
                assert forall|j: int| 0 <= j < k implies #[trigger] a[j] == b[j] by {
                    assert(a.drop_last()[j] == b.drop_last()[j]);
                }
            }
        }
    }
}

/// Fields of one width part where the values differ in their low bits.
pub proof fn lemma_part_field(u: nat, v: nat, n: nat)
    requires
        u % pow2(n) != v % pow2(n),
    ensures
        parts(be_bits(u, n), be_bits(v, n)),
{
    lemma_be_value_of_bits(u, n);
    lemma_be_value_of_bits(v, n);
    lemma_part_equal_length(be_bits(u, n), be_bits(v, n));
}

/// Fields of one width part where the values differ.
pub proof fn lemma_part_value(u: nat, v: nat, n: nat)
    requires
        u < pow2(n),
        v < pow2(n),
        u != v,
    ensures
        parts(be_bits(u, n), be_bits(v, n)),
{
    lemma_small_mod(u, pow2(n));
    lemma_small_mod(v, pow2(n));
    lemma_part_field(u, v, n);
}

/// Different numbers in unary part.
pub proof fn lemma_part_unary(p: nat, x: Seq<bool>, q: nat, y: Seq<bool>)
    requires
        p != q,
    ensures
        parts(repeated(true, p) + seq![false] + x, repeated(true, q) + seq![false] + y),
{
    let k = if p < q {
        p as int
    } else {
        q as int
    };
    assert(part_at(repeated(true, p) + seq![false] + x, repeated(true, q) + seq![false] + y, k));
}

/// The first digit of a number is a one.
proof fn lemma_leading_digit(q: nat)
    requires
        q > 0,
    ensures
        bit_at(q, (width(q) - 1) as nat),
{
    let n = (width(q) - 1) as nat;
    lemma_width(q);
    lemma_pow2_unfold(width(q));
    lemma_fundamental_div_mod_converse(q as int, pow2(n) as int, 1, q - pow2(n));
}

/// Different numbers part as `ue(v)` codes.
pub proof fn lemma_part_ue(u: nat, v: nat)
    requires
        u != v,
    ensures
        parts(ue_bits(u), ue_bits(v)),
{
    let (m, n) = (width(u + 1), width(v + 1));
    lemma_width(u + 1);
    lemma_width(v + 1);
    lemma_leading_digit(u + 1);
    lemma_leading_digit(v + 1);
    if m == n {
        lemma_part_value(u + 1, v + 1, m);
        lemma_part_concat(zeros((m - 1) as nat), be_bits(u + 1, m), zeros((n - 1) as nat), be_bits(v + 1, n));
    } else if m < n {
        assert(part_at(ue_bits(u), ue_bits(v), m - 1));
    } else {
        assert(part_at(ue_bits(u), ue_bits(v), n - 1));
    }
}

/// A bin of the bank that does not end a codeword.
pub open spec fn inner_bin(b: Bin) -> bool {
    match b {
        Bin::Decision { ctx, bin } => ctx < CONTEXTS && bin <= 1,
        Bin::Bypass { bit } => true,
        Bin::Terminate { end } => !end,
    }
}

/// At most `n` bins, none of which ends a codeword.
pub open spec fn inner(bins: Seq<Bin>, n: int) -> bool {
    &&& bins.len() <= n
    &&& forall|i: int| 0 <= i < bins.len() ==> inner_bin(#[trigger] bins[i])
}

pub proof fn lemma_inner_concat(a: Seq<Bin>, m: int, b: Seq<Bin>, n: int)
    requires
        inner(a, m),
        inner(b, n),
    ensures
        inner(a + b, m + n),
{
    assert forall|i: int| 0 <= i < (a + b).len() implies inner_bin(#[trigger] (a + b)[i]) by {
        if i < a.len() {
            assert((a + b)[i] == a[i]);
        } else {
            assert((a + b)[i] == b[i - a.len()]);
        }
    }
}

pub proof fn lemma_inner_bypass(a: Seq<bool>)
    ensures
        inner(bypass_bins(a), a.len() as int),
{
}

/// One context-coded bin of the bank.
pub proof fn lemma_inner_decision(base: int, ctx: int, bin: bool)
    requires
        0 <= base + ctx < CONTEXTS,
    ensures
        inner(seq![decision_bin(base, ctx, bin)], 1),
{
}

/// What a decoder reads for a message, it does not read for one that forks from it.
proof fn lemma_decodes_one(d: Decoder, ctxs: Seq<ContextModel>, a: Seq<Bin>, b: Seq<Bin>)
    requires
        forks(a, b),
        decode_bins(d, ctxs, a) is Some,
    ensures
        decode_bins(d, ctxs, b) is None,
    decreases a.len(),
{
    let k = choose|k: int| #[trigger] fork_at(a, b, k);
    if k > 0 {
        assert(a[0] == b[0]);
        assert(fork_at(a.skip(1), b.skip(1), k - 1)) by {
            assert forall|j: int| 0 <= j < k - 1 implies #[trigger] a.skip(1)[j] == b.skip(1)[j] by {
                assert(a[j + 1] == b[j + 1]);
            }
        }
        let e = decode_bin(d, ctxs, a[0])->0;
        lemma_decodes_one(e, contexts_after(ctxs, a[0]), a.skip(1), b.skip(1));
    }
}

/// Messages that fork have different codewords, and stay apart whatever bits follow:
/// whoever holds the coded bits holds the message.
pub proof fn law_forked_bins_code_differently(
    base: Seq<bool>,
    ctxs: Seq<ContextModel>,
    a: Seq<Bin>,
    b: Seq<Bin>,
    x: Seq<bool>,
    y: Seq<bool>,
)
    requires
        contexts_wf(ctxs),
        codeword(a, ctxs.len()),
        codeword(b, ctxs.len()),
        codeword_shifts(ctxs, a) + 7 < u64::MAX,
        codeword_shifts(ctxs, b) + 7 < u64::MAX,
        forks(a, b),
    ensures
        encode_bins(Coder::start(base), ctxs, a).out + x != encode_bins(Coder::start(base), ctxs, b).out + y,
{
    law_decode_inverts_encode(base, ctxs, a, x);
    law_decode_inverts_encode(base, ctxs, b, y);
    let n = base.len() as int;
    let coded_a = encode_bins(Coder::start(base), ctxs, a).out;
    let coded_b = encode_bins(Coder::start(base), ctxs, b).out;
    if coded_a + x == coded_b + y {
        assert((coded_a + x).skip(n) =~= coded_a.skip(n) + x);
        assert((coded_b + y).skip(n) =~= coded_b.skip(n) + y);
        lemma_decodes_one(Decoder::start(coded_a.skip(n) + x)->Ok_0, ctxs, a, b);
    }
}

} // verus!
