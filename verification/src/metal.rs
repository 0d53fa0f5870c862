//! The launch-planning half of the command-queue accelerator backend.
//!
//! Everything a dispatch decides — which kernel, the argument list with
//! its byte offsets, and the grid and threadgroup geometry — is computed
//! and verified here as plain data; performing the launch against the
//! device is left to the unverified runtime around the library.
use vstd::prelude::*;

verus! {

/// A three-dimensional launch extent.
#[derive(Clone, Copy, PartialEq, Eq, Structural, Debug)]
pub struct LaunchSize {
    pub width: u64,
    pub height: u64,
    pub depth: u64,
}

/// One argument of a kernel launch: a device buffer identified by its
/// allocation id together with a byte offset, or an inline 32-bit word.
#[derive(Clone, Copy, PartialEq, Eq, Structural, Debug)]
pub enum KernelArg {
    Buffer { buffer: usize, offset: u64 },
    Integer(u32),
}

/// A device buffer handle: an element-granularity offset into a shared
/// storage allocation, the element count seen through this handle, and
/// the byte width of one element.
#[derive(Clone, Copy, PartialEq, Eq, Structural, Debug)]
pub struct BufferImpl {
    pub id: usize,
    pub offset: usize,
    pub size: usize,
    pub elem_bytes: usize,
}

impl BufferImpl {
    /// A fresh whole-allocation handle.
    pub fn new(id: usize, elem_bytes: usize, size: usize) -> (b: BufferImpl)
        ensures
            b.id == id,
            b.offset == 0,
            b.size == size,
            b.elem_bytes == elem_bytes,
    {
        BufferImpl { id, offset: 0, size, elem_bytes }
    }

    /// The element count visible through this handle.
    pub fn size(&self) -> (s: usize)
        ensures
            s == self.size,
    {
        self.size
    }

    /// A sub-range sharing the same storage.
    pub fn slice(&self, offset: usize, size: usize) -> (r: BufferImpl)
        requires
            offset + size <= self.size,
            self.offset + offset <= usize::MAX,
        ensures
            r.id == self.id,
            r.offset == self.offset + offset,
            r.size == size,
            r.elem_bytes == self.elem_bytes,
    {
        BufferImpl { id: self.id, offset: self.offset + offset, size, elem_bytes: self.elem_bytes }
    }

    /// The handle as a launch argument: the byte offset is the element
    /// offset times the element width.
    pub fn as_arg(&self) -> (a: KernelArg)
        requires
            self.offset * self.elem_bytes <= u64::MAX,
        ensures
            a == (KernelArg::Buffer {
                buffer: self.id,
                offset: (self.offset * self.elem_bytes) as u64,
            }),
    {
        proof {
            assert((self.offset as int) * (self.elem_bytes as int) >= 0) by (nonlinear_arith);
        }
        let off64: u64 = (self.offset as u64) * (self.elem_bytes as u64);
        KernelArg::Buffer { buffer: self.id, offset: off64 }
    }

    /// The handle as a launch argument, advanced by a further element
    /// offset. The byte offset is derived from the element width, so an
    /// element count is never conflated with a byte count.
    pub fn as_arg_with_offset(&self, offset: usize) -> (a: KernelArg)
        requires
            self.offset + offset <= usize::MAX,
            (self.offset + offset) * self.elem_bytes <= u64::MAX,
        ensures
            a == (KernelArg::Buffer {
                buffer: self.id,
                offset: ((self.offset + offset) * self.elem_bytes) as u64,
            }),
    {
        proof {
            assert(((self.offset + offset) as int) * (self.elem_bytes as int) >= 0)
                by (nonlinear_arith);
        }
        let off64: u64 = ((self.offset + offset) as u64) * (self.elem_bytes as u64);
        KernelArg::Buffer { buffer: self.id, offset: off64 }
    }
}

/// A fully decided kernel launch, ready for the device runtime: the
/// kernel name, its arguments, the logical element count, and, when the
/// caller fixed one, an explicit (grid, threadgroup) geometry.
pub struct LaunchPlan {
    pub name: String,
    pub args: Vec<KernelArg>,
    pub count: u64,
    pub grid: Option<(LaunchSize, LaunchSize)>,
}

/// The name sequence occurs in the kernel table.
pub open spec fn contains_name(ks: Seq<String>, n: Seq<char>) -> bool {
    exists|i: int| 0 <= i < ks.len() && (#[trigger] ks[i])@ == n
}

/// The accelerator context: the table of kernels compiled into the
/// device library. Dispatches are refused for any name outside it.
pub struct MetalHal {
    pub kernels: Vec<String>,
}

impl MetalHal {
    /// Builds the context with the full closed kernel catalogue loaded.
    pub fn new() -> (h: MetalHal)
        ensures
            h.kernels@.len() == 14,
            contains_name(h.kernels@, "batch_expand"@),
            contains_name(h.kernels@, "eltwise_add_fp"@),
            contains_name(h.kernels@, "eltwise_copy_fp"@),
            contains_name(h.kernels@, "eltwise_mul_factor_fp"@),
            contains_name(h.kernels@, "eltwise_sum_fp4"@),
            contains_name(h.kernels@, "fri_fold"@),
            contains_name(h.kernels@, "mix_poly_coeffs"@),
            contains_name(h.kernels@, "multi_bit_reverse"@),
            contains_name(h.kernels@, "multi_ntt_fwd_step"@),
            contains_name(h.kernels@, "multi_ntt_rev_step"@),
            contains_name(h.kernels@, "multi_poly_eval"@),
            contains_name(h.kernels@, "sha_fold"@),
            contains_name(h.kernels@, "sha_rows"@),
            contains_name(h.kernels@, "zk_shift"@),
    {
        let mut kernels: Vec<String> = Vec::new();
        kernels.push("batch_expand".to_owned());
        kernels.push("eltwise_add_fp".to_owned());
        kernels.push("eltwise_copy_fp".to_owned());
        kernels.push("eltwise_mul_factor_fp".to_owned());
        kernels.push("eltwise_sum_fp4".to_owned());
        kernels.push("fri_fold".to_owned());
        kernels.push("mix_poly_coeffs".to_owned());
        kernels.push("multi_bit_reverse".to_owned());
        kernels.push("multi_ntt_fwd_step".to_owned());
        kernels.push("multi_ntt_rev_step".to_owned());
        kernels.push("multi_poly_eval".to_owned());
        kernels.push("sha_fold".to_owned());
        kernels.push("sha_rows".to_owned());
        kernels.push("zk_shift".to_owned());
        proof {
            assert(kernels@[0]@ == "batch_expand"@);
            assert(kernels@[1]@ == "eltwise_add_fp"@);
            assert(kernels@[2]@ == "eltwise_copy_fp"@);
            assert(kernels@[3]@ == "eltwise_mul_factor_fp"@);
            assert(kernels@[4]@ == "eltwise_sum_fp4"@);
            assert(kernels@[5]@ == "fri_fold"@);
            assert(kernels@[6]@ == "mix_poly_coeffs"@);
            assert(kernels@[7]@ == "multi_bit_reverse"@);
            assert(kernels@[8]@ == "multi_ntt_fwd_step"@);
            assert(kernels@[9]@ == "multi_ntt_rev_step"@);
            assert(kernels@[10]@ == "multi_poly_eval"@);
            assert(kernels@[11]@ == "sha_fold"@);
            assert(kernels@[12]@ == "sha_rows"@);
            assert(kernels@[13]@ == "zk_shift"@);
        }
        MetalHal { kernels }
    }

    /// Plans a launch of a catalogue kernel with the default geometry
    /// policy (the runtime derives the threadgroup shape, dispatching
    /// `count` threads).
    pub fn dispatch_by_name(&self, name: &str, args: &Vec<KernelArg>, count: u64) -> (p:
        LaunchPlan)
        requires
            contains_name(self.kernels@, name@),
        ensures
            p.name@ == name@,
            p.args@ =~= args@,
            p.count == count,
            p.grid.is_none(),
    {
        let mut copied: Vec<KernelArg> = Vec::new();
        let mut i: usize = 0;
        while i < args.len()
            invariant
                i <= args@.len(),
                copied@ =~= args@.subrange(0, i as int),
            decreases args@.len() - i,
        {
            copied.push(args[i]);
            i += 1;
        }
        proof {
            assert(args@.subrange(0, args@.len() as int) =~= args@);
        }
        LaunchPlan { name: name.to_owned(), args: copied, count, grid: None }
    }
}

/// Geometry for the elementwise kernels: a fixed threadgroup width and
/// enough groups to cover the element count.
pub fn simple_launch_params(count: u32, threads_per_group: u32) -> (r: (LaunchSize, LaunchSize))
    requires
        threads_per_group >= 1,
        count + threads_per_group <= u32::MAX,
    ensures
        r.0.width as int == (count + threads_per_group - 1) / (threads_per_group as int),
        r.0.height == 1 && r.0.depth == 1,
        r.1.width == threads_per_group as u64,
        r.1.height == 1 && r.1.depth == 1,
        r.0.width * r.1.width >= count,
{
    let groups: u32 = (count + threads_per_group - 1) / threads_per_group;
    proof {
        let c = count as int;
        let t = threads_per_group as int;
        vstd::arithmetic::div_mod::lemma_fundamental_div_mod(c + t - 1, t);
        vstd::arithmetic::div_mod::lemma_mod_bound(c + t - 1, t);
        assert((groups as int) * (t as int) == (t as int) * (groups as int)) by (nonlinear_arith);
    }
    (
        LaunchSize { width: groups as u64, height: 1, depth: 1 },
        LaunchSize { width: threads_per_group as u64, height: 1, depth: 1 },
    )
}

/// The smaller of two 64-bit words.
pub fn min_u64(a: u64, b: u64) -> (r: u64)
    ensures
        r == if a < b {
            a
        } else {
            b
        },
{
    if a < b {
        a
    } else {
        b
    }
}

/// Geometry for one NTT butterfly stage: up to 128 threads packed over
/// the (pair, block) axes, and up to 32 groups packed over the (pair,
/// block, row) axes, in that priority.
pub fn compute_launch_params(n_bits: u32, s_bits: u32, c_size: u32) -> (r: (
    LaunchSize,
    LaunchSize,
))
    requires
        1 <= s_bits <= n_bits,
        n_bits <= 31,
    ensures
        ({
            let s_size = (1u64 << (s_bits - 1) as u64);
            let g_size = (1u64 << (n_bits - s_bits) as u64);
            let bw = if 128u64 < s_size {
                128u64
            } else {
                s_size
            };
            let bh = if 128u64 / bw < g_size {
                128u64 / bw
            } else {
                g_size
            };
            let gw = if 32u64 < s_size / bw {
                32u64
            } else {
                s_size / bw
            };
            let gh = if (32u64 / gw) < g_size / bh {
                32u64 / gw
            } else {
                g_size / bh
            };
            let gd = if (32u64 / gw) / gh < c_size as u64 {
                (32u64 / gw) / gh
            } else {
                c_size as u64
            };
            r.1 == (LaunchSize { width: bw, height: bh, depth: 1 }) && r.0 == (LaunchSize {
                width: gw,
                height: gh,
                depth: gd,
            }) && r.1.width * r.1.height <= 128
        }),
{
    let s_size: u64 = 1u64 << ((s_bits - 1) as u64);
    let g_size: u64 = 1u64 << ((n_bits - s_bits) as u64);
    proof {
        assert(1u64 << ((s_bits - 1) as u64) >= 1u64) by (bit_vector)
            requires
                ((s_bits - 1) as u64) < 64u64,
        ;
        assert(1u64 << ((n_bits - s_bits) as u64) >= 1u64) by (bit_vector)
            requires
                ((n_bits - s_bits) as u64) < 64u64,
        ;
    }
    let bw = min_u64(128, s_size);
    proof {
        assert(bw >= 1);
    }
    let threads: u64 = 128 / bw;
    proof {
        vstd::arithmetic::div_mod::lemma_div_non_zero(128, bw as int);
        assert(threads >= 1);
    }
    let bh = min_u64(threads, g_size);
    proof {
        assert(bh >= 1);
        vstd::arithmetic::div_mod::lemma_fundamental_div_mod(128, bw as int);
        vstd::arithmetic::div_mod::lemma_mod_bound(128, bw as int);
        assert((bw as int) * (128int / (bw as int)) <= 128) by (nonlinear_arith)
            requires
                128int == (bw as int) * (128int / (bw as int)) + 128int % (bw as int),
                128int % (bw as int) >= 0,
        ;
        assert((bw as int) * (bh as int) <= 128) by (nonlinear_arith)
            requires
                bw >= 1,
                bh >= 1,
                (bh as int) <= 128int / (bw as int),
                (bw as int) * (128int / (bw as int)) <= 128,
        ;
    }
    let gw = min_u64(32, s_size / bw);
    proof {
        vstd::arithmetic::div_mod::lemma_div_non_zero(s_size as int, bw as int);
        assert(gw >= 1);
    }
    let grids: u64 = 32 / gw;
    proof {
        vstd::arithmetic::div_mod::lemma_div_non_zero(32, gw as int);
        assert(grids >= 1);
    }
    let gh = min_u64(grids, g_size / bh);
    proof {
        vstd::arithmetic::div_mod::lemma_div_non_zero(g_size as int, bh as int);
        assert(gh >= 1);
    }
    let grids2: u64 = grids / gh;
    let gd = min_u64(grids2, c_size as u64);
    (LaunchSize { width: gw, height: gh, depth: gd }, LaunchSize { width: bw, height: bh, depth: 1 })
}

} // verus!
