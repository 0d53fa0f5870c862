//! Benchmark request descriptions exchanged between a host and its guest.
//! The unverified host layer wraps these in its own serializable copies.
use vstd::prelude::*;

verus! {

/// What a benchmark run should exercise.
#[derive(Clone, Debug)]
pub enum BenchmarkSpec {
    SimpleLoop,
    RawSha { buf: Vec<u32> },
    Memcpy { src: Vec<u8>, src_align: usize, dst_align: usize },
    Memset { len: usize },
}

/// A benchmark request together with its iteration count.
#[derive(Clone, Debug)]
pub struct SpecWithIters(pub BenchmarkSpec, pub u64);

} // verus!
