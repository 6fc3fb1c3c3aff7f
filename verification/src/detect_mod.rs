use vstd::prelude::*;

verus! {

/// Available SIMD instruction set levels.
#[derive(Debug, Clone, Copy, PartialEq, Eq, Structural, PartialOrd, Ord, Hash)]
pub enum SimdLevel {
    /// No SIMD: byte-by-byte fallback.
    Scalar,
    /// x86_64 SSE 4.2: 128-bit vectors.
    Sse42,
    /// x86_64 AVX2: 256-bit vectors.
    Avx2,
    /// ARM64 NEON: 128-bit vectors.
    Neon,
    /// WebAssembly SIMD: 128-bit vectors.
    Wasm128,
}

/// Chooses the best level from the CPU features found at run time on x86_64:
/// AVX2 wins over SSE 4.2, and without either the scalar path is used.
pub fn select_level(has_avx2: bool, has_sse42: bool) -> (level: SimdLevel)
    ensures
        has_avx2 ==> level == SimdLevel::Avx2,
        !has_avx2 && has_sse42 ==> level == SimdLevel::Sse42,
        !has_avx2 && !has_sse42 ==> level == SimdLevel::Scalar,
{
    if has_avx2 {
        SimdLevel::Avx2
    } else if has_sse42 {
        SimdLevel::Sse42
    } else {
        SimdLevel::Scalar
    }
}

} // verus!
