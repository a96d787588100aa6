//! The quantization loop over one transform block, and the choice of the
//! instruction set that runs it. Every instruction set computes the same
//! levels, so the loop is written once.
use vstd::prelude::*;
use vstd::arithmetic::power2::pow2;
use crate::arith::{abs, min, power};
use crate::simd::{Host, SimdIsa};

verus! {

/// The instruction sets that a transform-domain kernel can run on.
#[derive(Debug, Clone, Copy, PartialEq, Eq, Structural)]
pub enum Backend {
    Scalar,
    Sse41,
    Sse42,
    Avx2,
    Neon,
}

impl Backend {
    /// Whether the host can run this instruction set.
    pub open spec fn runs_on(self, host: Host) -> bool {
        match self {
            Backend::Scalar => true,
            Backend::Sse41 => host.sse41,
            Backend::Sse42 => host.sse42,
            Backend::Avx2 => host.avx2,
            Backend::Neon => host.neon,
        }
    }

    /// Whether the host can run this instruction set.
    pub fn supported(self, host: Host) -> (b: bool)
        ensures
            b == self.runs_on(host),
    {
        match self {
            Backend::Scalar => true,
            Backend::Sse41 => host.sse41,
            Backend::Sse42 => host.sse42,
            Backend::Avx2 => host.avx2,
            Backend::Neon => host.neon,
        }
    }
}

/// Vector instruction sets in descending preference.
pub open spec fn priority() -> Seq<Backend> {
    seq![Backend::Avx2, Backend::Neon, Backend::Sse42, Backend::Sse41]
}

/// The first supported instruction set of a preference list.
pub open spec fn first_supported(list: Seq<Backend>, host: Host) -> Backend
    decreases list.len(),
{
    if list.len() == 0 {
        Backend::Scalar
    } else if list[0].runs_on(host) {
        list[0]
    } else {
        first_supported(list.skip(1), host)
    }
}

/// The instruction set that a pinned one stands for here.
pub open spec fn pinned_backend(isa: SimdIsa, host: Host) -> Backend {
    match isa {
        SimdIsa::Scalar => Backend::Scalar,
        SimdIsa::Sse41 => if host.sse42 {
            Backend::Sse42
        } else {
            Backend::Sse41
        },
        SimdIsa::Avx2 => Backend::Avx2,
        SimdIsa::Neon => Backend::Neon,
    }
}

fn overridden_backend(pinned: Option<SimdIsa>, host: Host) -> (b: Option<Backend>)
    ensures
        b == match pinned {
            Some(isa) => Some(pinned_backend(isa, host)),
            None => None,
        },
{
    match pinned {
        None => None,
        Some(isa) => Some(
            match isa {
                SimdIsa::Scalar => Backend::Scalar,
                SimdIsa::Sse41 => if host.sse42 {
                    Backend::Sse42
                } else {
                    Backend::Sse41
                },
                SimdIsa::Avx2 => Backend::Avx2,
                SimdIsa::Neon => Backend::Neon,
            },
        ),
    }
}

/// The best quantization instruction set of a host; a pinned one wins.
#[must_use]
pub fn detected(host: Host, pinned: Option<SimdIsa>) -> (b: Backend)
    ensures
        b == match pinned {
            Some(isa) => pinned_backend(isa, host),
            None => first_supported(priority(), host),
        },
{
    if let Some(b) = overridden_backend(pinned, host) {
        return b;
    }
    proof {
        reveal_with_fuel(first_supported, 5);
        let p = priority();
        assert(p.skip(1).skip(1) =~= p.skip(2));
        assert(p.skip(2).skip(1) =~= p.skip(3));
        assert(p.skip(3).skip(1) =~= p.skip(4));
    }
    if host.avx2 {
        Backend::Avx2
    } else if host.neon {
        Backend::Neon
    } else if host.sse42 {
        Backend::Sse42
    } else if host.sse41 {
        Backend::Sse41
    } else {
        Backend::Scalar
    }
}

/// The supported instruction sets of a preference list, in order.
pub open spec fn supported_of(list: Seq<Backend>, host: Host) -> Seq<Backend>
    decreases list.len(),
{
    if list.len() == 0 {
        Seq::empty()
    } else if list.last().runs_on(host) {
        supported_of(list.drop_last(), host).push(list.last())
    } else {
        supported_of(list.drop_last(), host)
    }
}

/// Every instruction set that the host can actually run, scalar first.
#[must_use]
pub fn supported_backends(host: Host) -> (v: Vec<Backend>)
    ensures
        v@ == seq![Backend::Scalar] + supported_of(priority(), host),
{
    let list: [Backend; 4] = [Backend::Avx2, Backend::Neon, Backend::Sse42, Backend::Sse41];
    let mut v: Vec<Backend> = Vec::new();
    v.push(Backend::Scalar);
    let mut i: usize = 0;
    assert(list@ =~= priority());
    assert(v@ =~= seq![Backend::Scalar] + supported_of(priority().take(0), host));
    while i < 4
        invariant
            i <= 4,
            list@ == priority(),
            v@ == seq![Backend::Scalar] + supported_of(priority().take(i as int), host),
        decreases 4 - i,
    {
        let ghost before = supported_of(priority().take(i as int), host);
        proof {
            assert(priority().take(i + 1).drop_last() =~= priority().take(i as int));
        }
        if list[i].supported(host) {
            v.push(list[i]);
            assert((seq![Backend::Scalar] + before).push(list@[i as int]) =~= seq![Backend::Scalar] + before.push(
                list@[i as int],
            ));
        }
        i = i + 1;
    }
    assert(priority().take(4) =~= priority());
    v
}

/// The inputs of the quantization equation that are constant across a block.
#[derive(Debug, Clone, Copy)]
pub struct QuantParams {
    /// `quantScale[ qP % 6 ]`, used for every position when no scaling list is
    /// in force.
    pub quant_scale: i32,
    /// The right shift that undoes the decoder's scaling.
    pub qbits: u32,
    /// The rounding offset added before the shift.
    pub round_add: i64,
    /// The lowest coefficient value.
    pub coeff_min: i32,
    /// The highest coefficient value.
    pub coeff_max: i32,
}

impl QuantParams {
    /// The products stay inside 64 bits and the clip keeps the sign.
    pub open spec fn wf(&self) -> bool {
        &&& self.quant_scale >= 0
        &&& self.qbits <= 62
        &&& 0 <= self.round_add < 0x2000_0000_0000_0000
        &&& self.coeff_max >= 0
    }
}

/// `sign( c ) * Min( coeffMax, ( |c| * factor + roundAdd ) >> qbits )`.
pub open spec fn level(c: int, factor: int, round_add: int, qbits: nat, coeff_max: int) -> int {
    let magnitude = min(coeff_max, (abs(c) * factor + round_add) / pow2(qbits) as int);
    if c < 0 {
        -magnitude
    } else {
        magnitude
    }
}

/// The factor at position `i`.
pub open spec fn factor_at(factors: Option<Seq<i32>>, quant_scale: i32, i: int) -> int {
    match factors {
        Some(f) => f[i] as int,
        None => quant_scale as int,
    }
}

/// The contents behind an optional slice.
pub open spec fn slice_view(s: Option<&[i32]>) -> Option<Seq<i32>> {
    match s {
        Some(s) => Some(s@),
        None => None,
    }
}

/// Quantizes a whole transform block.
///
/// `factors` supplies the per-position factor, or is `None` for the flat
/// default.
pub fn quant_block(
    backend: Backend,
    out: &mut [i32],
    coeffs: &[i32],
    factors: Option<&[i32]>,
    params: QuantParams,
)
    requires
        params.wf(),
        old(out)@.len() == coeffs@.len(),
        factors matches Some(f) ==> f@.len() == coeffs@.len() && forall|i: int| 0 <= i < f@.len() ==> #[trigger] f@[i]
            >= 0,
    ensures
        final(out)@.len() == coeffs@.len(),
        forall|i: int|
            0 <= i < coeffs@.len() ==> #[trigger] final(out)@[i] == level(
                coeffs@[i] as int,
                factor_at(slice_view(factors), params.quant_scale, i),
                params.round_add as int,
                params.qbits as nat,
                params.coeff_max as int,
            ),
{
    let scale: i64 = power(params.qbits);
    let mut i: usize = 0;
    while i < coeffs.len()
        invariant
            i <= coeffs@.len(),
            out@.len() == coeffs@.len(),
            params.wf(),
            scale == pow2(params.qbits as nat),
            1 <= scale <= 0x4000_0000_0000_0000,
            factors matches Some(f) ==> f@.len() == coeffs@.len() && forall|i: int|
                0 <= i < f@.len() ==> #[trigger] f@[i] >= 0,
            forall|j: int|
                0 <= j < i ==> #[trigger] out@[j] == level(
                    coeffs@[j] as int,
                    factor_at(slice_view(factors), params.quant_scale, j),
                    params.round_add as int,
                    params.qbits as nat,
                    params.coeff_max as int,
                ),
        decreases coeffs.len() - i,
    {
        let c: i64 = coeffs[i] as i64;
        let factor: i64 = match factors {
            Some(f) => f[i] as i64,
            None => params.quant_scale as i64,
        };
        let size: i64 = if c < 0 {
            -c
        } else {
            c
        };
        assert(0 <= size * factor <= 0x8000_0000 * 0x7fff_ffff) by (nonlinear_arith)
            requires
                0 <= size <= 0x8000_0000,
                0 <= factor <= 0x7fff_ffff,
        ;
        let magnitude: i64 = quotient(size * factor + params.round_add, scale);
        let bounded: i32 = if magnitude > params.coeff_max as i64 {
            params.coeff_max
        } else {
            magnitude as i32
        };
        out[i] = if c < 0 {
            -bounded
        } else {
            bounded
        };
        i = i + 1;
    }
}

fn quotient(x: i64, d: i64) -> (q: i64)
    requires
        x >= 0,
        d >= 1,
    ensures
        q == x as int / d as int,
        0 <= q,
{
    proof {
        vstd::arithmetic::div_mod::lemma_div_pos_is_pos(x as int, d as int);
        vstd::arithmetic::div_mod::lemma_div_is_ordered_by_denominator(x as int, 1, d as int);
    }
    (x as u64 / d as u64) as i64
}

} // verus!
