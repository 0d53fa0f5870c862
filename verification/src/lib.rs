//! Hardware-abstraction core for a STARK-style prover: a typed device-buffer
//! model, a closed catalogue of polynomial and cryptographic kernels with
//! exact numeric contracts, launch-planning for an accelerator backend, and
//! the circuit eval-check pipeline that ties the kernels together.
use vstd::prelude::*;

pub mod bench;
pub mod circuit;
pub mod cpu;
pub mod ntt;
pub mod poly;
pub mod extfield;
pub mod extkern;
pub mod field;
pub mod metal;
pub mod sha;

verus! {

/// Rate of the low-degree extension: the evaluation domain is this many
/// times larger than the trace.
pub const INV_RATE: usize = 4;

pub const FRI_FOLD_PO2: usize = 4;

/// How many adjacent evaluations one FRI fold step collapses into one,
/// i.e. 2^FRI_FOLD_PO2.
pub const FRI_FOLD: usize = 16;

/// Number of base field elements in an extension field element.
pub const EXT_SIZE: usize = 4;

/// Number of queries made by the protocol (about 100 bits of conjectured
/// security).
pub const QUERIES: usize = 50;

/// Number of trailing cycles reserved for zero-knowledge.
pub const ZK_CYCLES: usize = QUERIES;

pub const MIN_CYCLES_PO2: usize = 10;

pub const MIN_CYCLES: usize = 1 << MIN_CYCLES_PO2;

pub const MAX_CYCLES_PO2: usize = 24;

pub const MAX_CYCLES: usize = 1 << MAX_CYCLES_PO2;

/// Smallest usable log-domain: the least k with 2^k >= 1 + ZK_CYCLES.
pub const MIN_PO2: usize = 6;

/// The least k with 2^k >= n; for a power of two, its exact logarithm.
pub fn log2_ceil(n: usize) -> (r: usize)
    requires
        1 <= n <= usize::MAX / 2,
    ensures
        vstd::arithmetic::power2::pow2(r as nat) >= n,
        r > 0 ==> vstd::arithmetic::power2::pow2((r - 1) as nat) < n,
        r <= 63,
{
    let mut r: usize = 0;
    let mut p: usize = 1;
    proof {
        vstd::arithmetic::power2::lemma2_to64();
    }
    while p < n
        invariant
            1 <= n <= usize::MAX / 2,
            p == vstd::arithmetic::power2::pow2(r as nat),
            1 <= p,
            r > 0 ==> vstd::arithmetic::power2::pow2((r - 1) as nat) < n,
            r <= 63,
        decreases 2 * n - p,
    {
        proof {
            vstd::arithmetic::power2::lemma_pow2_unfold((r + 1) as nat);
            vstd::arithmetic::power2::lemma2_to64();
            assert(r < 63) by {
                if r >= 63 {
                    if r > 63 {
                        vstd::arithmetic::power2::lemma_pow2_strictly_increases(63, r as nat);
                    }
                }
            }
        }
        p = p * 2;
        r = r + 1;
    }
    r
}

} // verus!
