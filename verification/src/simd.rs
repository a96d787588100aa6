//! The instruction sets of a host and the choice among them. Every kernel of the
//! library computes the same values on each, so the choice changes only how fast
//! they come.
use vstd::prelude::*;

verus! {

/// An instruction set that a profile can pin.
#[derive(Debug, Clone, Copy, PartialEq, Eq, Structural)]
pub enum SimdIsa {
    Scalar,
    Sse41,
    Avx2,
    Neon,
}

/// What the host offers.
#[derive(Debug, Clone, Copy, PartialEq, Eq, Structural)]
pub struct Host {
    pub ssse3: bool,
    pub sse41: bool,
    pub sse42: bool,
    pub avx2: bool,
    pub neon: bool,
}

/// The instruction set a sample-domain kernel runs on.
#[derive(Debug, Clone, Copy, PartialEq, Eq, Structural)]
pub enum Isa {
    /// Portable fallback.
    Scalar,
    /// x86_64 SSE4.1 (128-bit).
    Sse41,
    /// x86_64 AVX2 (256-bit).
    Avx2,
    /// aarch64 Advanced SIMD (128-bit).
    Neon,
}

/// The best instruction set of a host: AVX2, then SSE4.1, then NEON.
pub open spec fn best_isa(host: Host) -> Isa {
    if host.avx2 {
        Isa::Avx2
    } else if host.sse41 {
        Isa::Sse41
    } else if host.neon {
        Isa::Neon
    } else {
        Isa::Scalar
    }
}

/// Returns the instruction set the kernels use on a host.
pub fn isa(host: Host) -> (i: Isa)
    ensures
        i == best_isa(host),
{
    if host.avx2 {
        Isa::Avx2
    } else if host.sse41 {
        Isa::Sse41
    } else if host.neon {
        Isa::Neon
    } else {
        Isa::Scalar
    }
}

/// The instruction set that a pinned one stands for.
pub open spec fn pinned_isa(pin: SimdIsa) -> Isa {
    match pin {
        SimdIsa::Scalar => Isa::Scalar,
        SimdIsa::Sse41 => Isa::Sse41,
        SimdIsa::Avx2 => Isa::Avx2,
        SimdIsa::Neon => Isa::Neon,
    }
}

/// [`isa`] for the kernels that a profile can pin; a pinned instruction set wins.
pub fn isa_with_override(host: Host, pinned: Option<SimdIsa>) -> (i: Isa)
    ensures
        i == match pinned {
            Some(pin) => pinned_isa(pin),
            None => best_isa(host),
        },
{
    match pinned {
        Some(SimdIsa::Scalar) => Isa::Scalar,
        Some(SimdIsa::Sse41) => Isa::Sse41,
        Some(SimdIsa::Avx2) => Isa::Avx2,
        Some(SimdIsa::Neon) => Isa::Neon,
        None => isa(host),
    }
}

/// [`isa_with_override`] for the colour conversion, whose SSE4.1 kernel also
/// needs SSSE3.
pub fn conversion_isa(host: Host, pinned: Option<SimdIsa>) -> (i: Isa)
    ensures
        i == match pinned {
            Some(pin) => pinned_isa(pin),
            None => best_isa((Host { sse41: host.sse41 && host.ssse3, ..host })),
        },
{
    isa_with_override(Host { sse41: host.sse41 && host.ssse3, ..host }, pinned)
}

} // verus!
