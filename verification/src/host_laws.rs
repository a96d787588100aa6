//! Laws of the choice of an instruction set.
use vstd::prelude::*;
use crate::quant_simd::{detected, first_supported, priority, Backend};
use crate::simd::{conversion_isa, isa, isa_with_override, Host, Isa, SimdIsa};

verus! {

/// The chosen instruction set is one that the host has, and a wider one is never passed over:
/// AVX2 before SSE4.1 before NEON, and the portable one only where there is no other. The
/// conversion takes SSE4.1 only beside SSSE3.
pub proof fn law_chosen_set_is_the_widest(host: Host, i: Isa, c: Isa)
    requires
        call_ensures(isa, (host,), i),
        call_ensures(conversion_isa, (host, None::<SimdIsa>), c),
    ensures
        i == Isa::Avx2 <==> host.avx2,
        i == Isa::Sse41 <==> host.sse41 && !host.avx2,
        i == Isa::Neon <==> host.neon && !host.sse41 && !host.avx2,
        i == Isa::Scalar <==> !host.neon && !host.sse41 && !host.avx2,
        c == Isa::Sse41 <==> host.sse41 && host.ssse3 && !host.avx2,
        host.ssse3 || !host.sse41 ==> c == i,
        c == Isa::Avx2 <==> host.avx2,
{
}

/// A pinned instruction set is taken on every host, by every kernel; the quantizer takes the
/// later SSE where the host has it.
pub proof fn law_pinned_set_wins(host: Host, pin: SimdIsa, i: Isa, c: Isa, b: Backend)
    requires
        call_ensures(isa_with_override, (host, Some(pin)), i),
        call_ensures(conversion_isa, (host, Some(pin)), c),
        call_ensures(detected, (host, Some(pin)), b),
    ensures
        i == c,
        i == Isa::Scalar <==> pin == SimdIsa::Scalar,
        i == Isa::Sse41 <==> pin == SimdIsa::Sse41,
        i == Isa::Avx2 <==> pin == SimdIsa::Avx2,
        i == Isa::Neon <==> pin == SimdIsa::Neon,
        b == Backend::Scalar <==> pin == SimdIsa::Scalar,
        b == Backend::Sse42 <==> pin == SimdIsa::Sse41 && host.sse42,
        b == Backend::Sse41 <==> pin == SimdIsa::Sse41 && !host.sse42,
        b == Backend::Avx2 <==> pin == SimdIsa::Avx2,
        b == Backend::Neon <==> pin == SimdIsa::Neon,
{
}

/// The quantizer runs on what the host has: AVX2 before NEON before both SSEs, the later one
/// first, and the portable one only where there is no other.
pub proof fn law_quantizer_set_is_the_widest(host: Host, b: Backend)
    requires
        call_ensures(detected, (host, None::<SimdIsa>), b),
    ensures
        b == Backend::Avx2 <==> host.avx2,
        b == Backend::Neon <==> host.neon && !host.avx2,
        b == Backend::Sse42 <==> host.sse42 && !host.neon && !host.avx2,
        b == Backend::Sse41 <==> host.sse41 && !host.sse42 && !host.neon && !host.avx2,
        b == Backend::Scalar <==> !host.sse41 && !host.sse42 && !host.neon && !host.avx2,
{
    reveal_with_fuel(first_supported, 5);
    let p = priority();
    assert(p.skip(1).skip(1) =~= p.skip(2));
    assert(p.skip(2).skip(1) =~= p.skip(3));
    assert(p.skip(3).skip(1) =~= p.skip(4));
    assert(p.skip(4).len() == 0);
}

} // verus!
