//! The host-CPU backend: buffers are plain heap allocations inside a
//! per-backend arena, slices share storage by offset, views are copies in
//! and out of the arena, and every kernel completes before returning.
use vstd::prelude::*;

use crate::extfield::{ext_wf, ExtElem};
use crate::field::{fadd, Elem};
use crate::sha::Digest;

verus! {

/// A handle onto a range of base field elements in device memory.
#[derive(Clone, Copy, PartialEq, Eq, Structural, Debug)]
pub struct BufferElem {
    pub offset: usize,
    pub size: usize,
}

/// A handle onto a range of extension field elements in device memory.
#[derive(Clone, Copy, PartialEq, Eq, Structural, Debug)]
pub struct BufferExtElem {
    pub offset: usize,
    pub size: usize,
}

/// A handle onto a range of 32-bit words in device memory.
#[derive(Clone, Copy, PartialEq, Eq, Structural, Debug)]
pub struct BufferU32 {
    pub offset: usize,
    pub size: usize,
}

/// A handle onto a range of digests in device memory.
#[derive(Clone, Copy, PartialEq, Eq, Structural, Debug)]
pub struct BufferDigest {
    pub offset: usize,
    pub size: usize,
}

/// Every element of a base-field sequence is a canonical residue.
pub open spec fn wf_elems(s: Seq<Elem>) -> bool {
    forall|i: int| 0 <= i < s.len() ==> (#[trigger] s[i]).wf()
}

/// Every element of an extension-field sequence is well formed.
pub open spec fn wf_exts(s: Seq<ExtElem>) -> bool {
    forall|i: int| 0 <= i < s.len() ==> ext_wf(#[trigger] s[i])
}

/// The CPU backend context: one storage arena per element kind. Buffers
/// are contiguous ranges of an arena, so slices share storage with their
/// parent and mutations through any handle are visible through all.
pub struct CpuHal {
    pub e_mem: Vec<Elem>,
    pub x_mem: Vec<ExtElem>,
    pub u_mem: Vec<u32>,
    pub d_mem: Vec<Digest>,
}

impl CpuHal {
    /// All field storage holds canonical residues.
    pub open spec fn wf(self) -> bool {
        wf_elems(self.e_mem@) && wf_exts(self.x_mem@)
    }

    pub open spec fn elem_ok(self, b: BufferElem) -> bool {
        b.offset + b.size <= self.e_mem@.len()
    }

    pub open spec fn ext_ok(self, b: BufferExtElem) -> bool {
        b.offset + b.size <= self.x_mem@.len()
    }

    pub open spec fn u32_ok(self, b: BufferU32) -> bool {
        b.offset + b.size <= self.u_mem@.len()
    }

    pub open spec fn digest_ok(self, b: BufferDigest) -> bool {
        b.offset + b.size <= self.d_mem@.len()
    }

    /// The contents a base-element handle currently sees.
    pub open spec fn elem_seq(self, b: BufferElem) -> Seq<Elem> {
        self.e_mem@.subrange(b.offset as int, b.offset + b.size)
    }

    pub open spec fn ext_seq(self, b: BufferExtElem) -> Seq<ExtElem> {
        self.x_mem@.subrange(b.offset as int, b.offset + b.size)
    }

    pub open spec fn u32_seq(self, b: BufferU32) -> Seq<u32> {
        self.u_mem@.subrange(b.offset as int, b.offset + b.size)
    }

    pub open spec fn digest_seq(self, b: BufferDigest) -> Seq<Digest> {
        self.d_mem@.subrange(b.offset as int, b.offset + b.size)
    }
}

/// After a kernel writes a base-element range, nothing else has moved:
/// the element arena is unchanged outside the range and the other arenas
/// are untouched.
pub open spec fn frames_elem_write(pre: CpuHal, post: CpuHal, off: int, size: int) -> bool {
    &&& post.e_mem@.len() == pre.e_mem@.len()
    &&& forall|i: int|
        0 <= i < pre.e_mem@.len() && !(off <= i < off + size) ==> post.e_mem@[i] == pre.e_mem@[i]
    &&& post.x_mem@ == pre.x_mem@
    &&& post.u_mem@ == pre.u_mem@
    &&& post.d_mem@ == pre.d_mem@
}

/// Frame condition for a kernel that writes an extension-element range.
pub open spec fn frames_ext_write(pre: CpuHal, post: CpuHal, off: int, size: int) -> bool {
    &&& post.x_mem@.len() == pre.x_mem@.len()
    &&& forall|i: int|
        0 <= i < pre.x_mem@.len() && !(off <= i < off + size) ==> post.x_mem@[i] == pre.x_mem@[i]
    &&& post.e_mem@ == pre.e_mem@
    &&& post.u_mem@ == pre.u_mem@
    &&& post.d_mem@ == pre.d_mem@
}

/// Frame condition for a kernel that writes a digest range.
pub open spec fn frames_digest_write(pre: CpuHal, post: CpuHal, off: int, size: int) -> bool {
    &&& post.d_mem@.len() == pre.d_mem@.len()
    &&& forall|i: int|
        0 <= i < pre.d_mem@.len() && !(off <= i < off + size) ==> post.d_mem@[i] == pre.d_mem@[i]
    &&& post.e_mem@ == pre.e_mem@
    &&& post.x_mem@ == pre.x_mem@
    &&& post.u_mem@ == pre.u_mem@
}

/// Overwriting a range of a well-formed element store with well-formed
/// data keeps the whole store well formed.
pub proof fn lemma_wf_elems_store(pre: Seq<Elem>, post: Seq<Elem>, off: int, data: Seq<Elem>)
    requires
        wf_elems(pre),
        wf_elems(data),
        post.len() == pre.len(),
        0 <= off,
        off + data.len() <= pre.len(),
        forall|i: int| 0 <= i < post.len() && !(off <= i < off + data.len()) ==> post[i] == pre[i],
        forall|i: int| 0 <= i < data.len() ==> post[off + i] == data[i],
    ensures
        wf_elems(post),
{
    assert forall|i: int| 0 <= i < post.len() implies (#[trigger] post[i]).wf() by {
        if off <= i < off + data.len() {
            assert(post[off + (i - off)] == data[i - off]);
        } else {
        }
    }
}

/// Appending well-formed elements keeps the store well formed.
pub proof fn lemma_wf_elems_extend(pre: Seq<Elem>, data: Seq<Elem>)
    requires
        wf_elems(pre),
        wf_elems(data),
    ensures
        wf_elems(pre + data),
{
    assert forall|i: int| 0 <= i < (pre + data).len() implies (#[trigger] (pre + data)[i]).wf() by {
        if i < pre.len() {
            assert((pre + data)[i] == pre[i]);
        } else {
            assert((pre + data)[i] == data[i - pre.len()]);
        }
    }
}

/// Appending well-formed extension elements keeps the store well formed.
pub proof fn lemma_wf_exts_extend(pre: Seq<ExtElem>, data: Seq<ExtElem>)
    requires
        wf_exts(pre),
        wf_exts(data),
    ensures
        wf_exts(pre + data),
{
    assert forall|i: int| 0 <= i < (pre + data).len() implies ext_wf(
        #[trigger] (pre + data)[i],
    ) by {
        if i < pre.len() {
            assert((pre + data)[i] == pre[i]);
        } else {
            assert((pre + data)[i] == data[i - pre.len()]);
        }
    }
}

/// Overwriting a range of the extension store with well-formed data keeps
/// the whole store well formed.
pub proof fn lemma_wf_exts_store(pre: Seq<ExtElem>, post: Seq<ExtElem>, off: int, data: Seq<
    ExtElem,
>)
    requires
        wf_exts(pre),
        wf_exts(data),
        post.len() == pre.len(),
        0 <= off,
        off + data.len() <= pre.len(),
        forall|i: int| 0 <= i < post.len() && !(off <= i < off + data.len()) ==> post[i] == pre[i],
        forall|i: int| 0 <= i < data.len() ==> post[off + i] == data[i],
    ensures
        wf_exts(post),
{
    assert forall|i: int| 0 <= i < post.len() implies ext_wf(#[trigger] post[i]) by {
        if off <= i < off + data.len() {
            assert(post[off + (i - off)] == data[i - off]);
        } else {
        }
    }
}


/// The elementwise field sum of two rows of values.
pub open spec fn add_rows(a: Seq<int>, b: Seq<int>) -> Seq<int> {
    Seq::new(a.len(), |i: int| fadd(a[i], b[i]))
}

/// Elementwise addition is commutative.
pub proof fn lemma_eltwise_add_comm(a: Seq<int>, b: Seq<int>)
    requires
        a.len() == b.len(),
    ensures
        add_rows(a, b) =~= add_rows(b, a),
{
    assert forall|i: int| 0 <= i < a.len() implies add_rows(a, b)[i] == add_rows(b, a)[i] by {}
}

/// Elementwise addition is associative on canonical rows.
pub proof fn lemma_eltwise_add_assoc(a: Seq<int>, b: Seq<int>, c: Seq<int>)
    requires
        a.len() == b.len(),
        b.len() == c.len(),
        crate::ntt::wf_vals(a),
        crate::ntt::wf_vals(c),
    ensures
        add_rows(add_rows(a, b), c) =~= add_rows(a, add_rows(b, c)),
{
    let pi = crate::field::P as int;
    assert forall|i: int| 0 <= i < a.len() implies add_rows(add_rows(a, b), c)[i] == add_rows(
        a,
        add_rows(b, c),
    )[i] by {
        vstd::arithmetic::div_mod::lemma_small_mod(a[i] as nat, crate::field::P as nat);
        vstd::arithmetic::div_mod::lemma_small_mod(c[i] as nat, crate::field::P as nat);
        vstd::arithmetic::div_mod::lemma_add_mod_noop(a[i] + b[i], c[i], pi);
        vstd::arithmetic::div_mod::lemma_add_mod_noop(a[i], b[i] + c[i], pi);
    }
}

/// A sub-sequence of a well-formed element sequence is well formed.
pub proof fn lemma_wf_elems_subrange(s: Seq<Elem>, a: int, b: int)
    requires
        wf_elems(s),
        0 <= a <= b <= s.len(),
    ensures
        wf_elems(s.subrange(a, b)),
{
    assert forall|i: int| 0 <= i < s.subrange(a, b).len() implies (#[trigger] s.subrange(
        a,
        b,
    )[i]).wf() by {
        assert(s.subrange(a, b)[i] == s[a + i]);
    }
}

/// Copies a range of an arena out into a fresh vector.
pub fn seq_load<T: Copy>(mem: &Vec<T>, off: usize, size: usize) -> (r: Vec<T>)
    requires
        off + size <= mem@.len(),
    ensures
        r@ =~= mem@.subrange(off as int, off + size),
{
    let n: usize = mem.len();
    let mut r: Vec<T> = Vec::new();
    let mut k: usize = 0;
    while k < size
        invariant
            off + size <= n,
            n == mem@.len(),
            k <= size,
            r@.len() == k,
            forall|i: int| 0 <= i < k ==> r@[i] == mem@[off + i],
        decreases size - k,
    {
        r.push(mem[off + k]);
        k += 1;
    }
    r
}

/// Writes a vector back over a range of an arena.
pub fn seq_store<T: Copy>(mem: &mut Vec<T>, off: usize, data: &Vec<T>)
    requires
        off + data@.len() <= old(mem)@.len(),
    ensures
        final(mem)@.len() == old(mem)@.len(),
        forall|i: int|
            0 <= i < final(mem)@.len() && !(off <= i < off + data@.len()) ==> final(mem)@[i] == old(mem)@[i],
        forall|i: int| 0 <= i < data@.len() ==> final(mem)@[off + i] == data@[i],
{
    let n: usize = mem.len();
    let mut k: usize = 0;
    while k < data.len()
        invariant
            off + data@.len() <= n,
            n == mem@.len(),
            mem@.len() == old(mem)@.len(),
            k <= data@.len(),
            forall|i: int|
                0 <= i < mem@.len() && !(off <= i < off + data@.len()) ==> mem@[i] == old(
                    mem,
                )@[i],
            forall|i: int| 0 <= i < k ==> mem@[off + i] == data@[i],
        decreases data@.len() - k,
    {
        let v: T = data[k];
        mem[off + k] = v;
        k += 1;
    }
}

/// Appends a vector to the end of an arena.
pub fn seq_extend<T: Copy>(mem: &mut Vec<T>, data: &Vec<T>)
    requires
        old(mem)@.len() + data@.len() <= usize::MAX,
    ensures
        final(mem)@ =~= old(mem)@ + data@,
{
    let mut k: usize = 0;
    while k < data.len()
        invariant
            mem@.len() == old(mem)@.len() + k,
            k <= data@.len(),
            forall|i: int| 0 <= i < old(mem)@.len() ==> mem@[i] == old(mem)@[i],
            forall|i: int| 0 <= i < k ==> mem@[old(mem)@.len() + i] == data@[i],
        decreases data@.len() - k,
    {
        mem.push(data[k]);
        k += 1;
    }
}

impl CpuHal {
    /// A fresh backend with empty arenas.
    pub fn new() -> (h: CpuHal)
        ensures
            h.wf(),
            h.e_mem@.len() == 0,
            h.x_mem@.len() == 0,
            h.u_mem@.len() == 0,
            h.d_mem@.len() == 0,
    {
        CpuHal { e_mem: Vec::new(), x_mem: Vec::new(), u_mem: Vec::new(), d_mem: Vec::new() }
    }

    /// Allocates a zero-filled base-element buffer.
    pub fn alloc_elem(&mut self, _name: &str, size: usize) -> (b: BufferElem)
        requires
            old(self).wf(),
            old(self).e_mem@.len() + size <= usize::MAX,
        ensures
            final(self).wf(),
            b.offset == old(self).e_mem@.len(),
            b.size == size,
            final(self).elem_ok(b),
            final(self).e_mem@.len() == old(self).e_mem@.len() + size,
            forall|i: int| 0 <= i < old(self).e_mem@.len() ==> final(self).e_mem@[i] == old(self).e_mem@[i],
            forall|i: int| 0 <= i < size ==> final(self).elem_seq(b)[i].val() == 0,
            final(self).x_mem@ == old(self).x_mem@,
            final(self).u_mem@ == old(self).u_mem@,
            final(self).d_mem@ == old(self).d_mem@,
    {
        let b = BufferElem { offset: self.e_mem.len(), size };
        let mut zeros: Vec<Elem> = Vec::new();
        let mut k: usize = 0;
        while k < size
            invariant
                k <= size,
                zeros@.len() == k,
                forall|i: int| 0 <= i < k ==> zeros@[i] == (Elem { v: 0u32 }),
            decreases size - k,
        {
            zeros.push(Elem { v: 0 });
            k += 1;
        }
        proof {
            assert forall|i: int| 0 <= i < zeros@.len() implies (#[trigger] zeros@[i]).wf() by {
                assert(zeros@[i] == (Elem { v: 0u32 }));
            }
            lemma_wf_elems_extend(old(self).e_mem@, zeros@);
        }
        seq_extend(&mut self.e_mem, &zeros);
        b
    }

    /// Copies a host vector into a fresh base-element buffer.
    pub fn copy_from_elem(&mut self, _name: &str, data: &Vec<Elem>) -> (b: BufferElem)
        requires
            old(self).wf(),
            wf_elems(data@),
            old(self).e_mem@.len() + data@.len() <= usize::MAX,
        ensures
            final(self).wf(),
            b.offset == old(self).e_mem@.len(),
            b.size == data@.len(),
            final(self).elem_ok(b),
            final(self).elem_seq(b) =~= data@,
            forall|i: int| 0 <= i < old(self).e_mem@.len() ==> final(self).e_mem@[i] == old(self).e_mem@[i],
            final(self).e_mem@.len() == old(self).e_mem@.len() + data@.len(),
            final(self).x_mem@ == old(self).x_mem@,
            final(self).u_mem@ == old(self).u_mem@,
            final(self).d_mem@ == old(self).d_mem@,
    {
        let b = BufferElem { offset: self.e_mem.len(), size: data.len() };
        proof {
            lemma_wf_elems_extend(old(self).e_mem@, data@);
        }
        seq_extend(&mut self.e_mem, data);
        b
    }

    /// Allocates a zero-filled extension-element buffer.
    pub fn alloc_extelem(&mut self, _name: &str, size: usize) -> (b: BufferExtElem)
        requires
            old(self).wf(),
            old(self).x_mem@.len() + size <= usize::MAX,
        ensures
            final(self).wf(),
            b.offset == old(self).x_mem@.len(),
            b.size == size,
            final(self).ext_ok(b),
            final(self).x_mem@.len() == old(self).x_mem@.len() + size,
            forall|i: int| 0 <= i < old(self).x_mem@.len() ==> final(self).x_mem@[i] == old(self).x_mem@[i],
            forall|i: int|
                0 <= i < size ==> crate::extfield::ext_val(final(self).ext_seq(b)[i])
                    == crate::extfield::ext_zero(),
            final(self).e_mem@ == old(self).e_mem@,
            final(self).u_mem@ == old(self).u_mem@,
            final(self).d_mem@ == old(self).d_mem@,
    {
        let b = BufferExtElem { offset: self.x_mem.len(), size };
        let z = ExtElem::zero();
        let mut zeros: Vec<ExtElem> = Vec::new();
        let mut k: usize = 0;
        while k < size
            invariant
                k <= size,
                zeros@.len() == k,
                forall|i: int| 0 <= i < k ==> zeros@[i] == z,
                ext_wf(z),
                crate::extfield::ext_val(z) == crate::extfield::ext_zero(),
            decreases size - k,
        {
            zeros.push(z);
            k += 1;
        }
        proof {
            assert forall|i: int| 0 <= i < zeros@.len() implies ext_wf(#[trigger] zeros@[i]) by {
                assert(zeros@[i] == z);
            }
            lemma_wf_exts_extend(old(self).x_mem@, zeros@);
        }
        seq_extend(&mut self.x_mem, &zeros);
        b
    }

    /// Copies a host vector into a fresh extension-element buffer.
    pub fn copy_from_extelem(&mut self, _name: &str, data: &Vec<ExtElem>) -> (b: BufferExtElem)
        requires
            old(self).wf(),
            wf_exts(data@),
            old(self).x_mem@.len() + data@.len() <= usize::MAX,
        ensures
            final(self).wf(),
            b.offset == old(self).x_mem@.len(),
            b.size == data@.len(),
            final(self).ext_ok(b),
            final(self).ext_seq(b) =~= data@,
            final(self).e_mem@ == old(self).e_mem@,
            final(self).u_mem@ == old(self).u_mem@,
            final(self).d_mem@ == old(self).d_mem@,
    {
        let b = BufferExtElem { offset: self.x_mem.len(), size: data.len() };
        proof {
            lemma_wf_exts_extend(old(self).x_mem@, data@);
        }
        seq_extend(&mut self.x_mem, data);
        b
    }

    /// Copies a host vector into a fresh 32-bit-word buffer.
    pub fn copy_from_u32(&mut self, _name: &str, data: &Vec<u32>) -> (b: BufferU32)
        requires
            old(self).wf(),
            old(self).u_mem@.len() + data@.len() <= usize::MAX,
        ensures
            final(self).wf(),
            b.offset == old(self).u_mem@.len(),
            b.size == data@.len(),
            final(self).u32_ok(b),
            final(self).u32_seq(b) =~= data@,
            final(self).e_mem@ == old(self).e_mem@,
            final(self).x_mem@ == old(self).x_mem@,
            final(self).d_mem@ == old(self).d_mem@,
    {
        let b = BufferU32 { offset: self.u_mem.len(), size: data.len() };
        seq_extend(&mut self.u_mem, data);
        b
    }

    /// Allocates a zero-filled 32-bit-word buffer.
    pub fn alloc_u32(&mut self, _name: &str, size: usize) -> (b: BufferU32)
        requires
            old(self).wf(),
            old(self).u_mem@.len() + size <= usize::MAX,
        ensures
            final(self).wf(),
            b.offset == old(self).u_mem@.len(),
            b.size == size,
            final(self).u32_ok(b),
            forall|i: int| 0 <= i < size ==> final(self).u32_seq(b)[i] == 0u32,
            final(self).e_mem@ == old(self).e_mem@,
            final(self).x_mem@ == old(self).x_mem@,
            final(self).d_mem@ == old(self).d_mem@,
    {
        let b = BufferU32 { offset: self.u_mem.len(), size };
        let mut zeros: Vec<u32> = Vec::new();
        let mut k: usize = 0;
        while k < size
            invariant
                k <= size,
                zeros@.len() == k,
                forall|i: int| 0 <= i < k ==> zeros@[i] == 0u32,
            decreases size - k,
        {
            zeros.push(0);
            k += 1;
        }
        seq_extend(&mut self.u_mem, &zeros);
        b
    }

    /// Allocates a zero-filled digest buffer.
    pub fn alloc_digest(&mut self, _name: &str, size: usize) -> (b: BufferDigest)
        requires
            old(self).wf(),
            old(self).d_mem@.len() + size <= usize::MAX,
        ensures
            final(self).wf(),
            b.offset == old(self).d_mem@.len(),
            b.size == size,
            final(self).digest_ok(b),
            final(self).e_mem@ == old(self).e_mem@,
            final(self).x_mem@ == old(self).x_mem@,
            final(self).u_mem@ == old(self).u_mem@,
    {
        let b = BufferDigest { offset: self.d_mem.len(), size };
        let z = Digest::zero();
        let mut zeros: Vec<Digest> = Vec::new();
        let mut k: usize = 0;
        while k < size
            invariant
                k <= size,
                zeros@.len() == k,
            decreases size - k,
        {
            zeros.push(z);
            k += 1;
        }
        seq_extend(&mut self.d_mem, &zeros);
        b
    }

    /// Copies a host vector into a fresh digest buffer.
    pub fn copy_from_digest(&mut self, _name: &str, data: &Vec<Digest>) -> (b: BufferDigest)
        requires
            old(self).wf(),
            old(self).d_mem@.len() + data@.len() <= usize::MAX,
        ensures
            final(self).wf(),
            b.offset == old(self).d_mem@.len(),
            b.size == data@.len(),
            final(self).digest_ok(b),
            final(self).digest_seq(b) =~= data@,
            final(self).e_mem@ == old(self).e_mem@,
            final(self).x_mem@ == old(self).x_mem@,
            final(self).u_mem@ == old(self).u_mem@,
    {
        let b = BufferDigest { offset: self.d_mem.len(), size: data.len() };
        seq_extend(&mut self.d_mem, data);
        b
    }

    /// A sub-range of a base-element buffer, sharing the same storage.
    pub fn slice_elem(&self, b: &BufferElem, offset: usize, size: usize) -> (r: BufferElem)
        requires
            self.elem_ok(*b),
            offset + size <= b.size,
        ensures
            self.elem_ok(r),
            r.offset == b.offset + offset,
            r.size == size,
            self.elem_seq(r) =~= self.elem_seq(*b).subrange(offset as int, offset + size),
    {
        let n: usize = self.e_mem.len();
        proof {
            assert(b.offset + offset <= n);
        }
        BufferElem { offset: b.offset + offset, size }
    }

    /// A sub-range of a digest buffer, sharing the same storage.
    pub fn slice_digest(&self, b: &BufferDigest, offset: usize, size: usize) -> (r: BufferDigest)
        requires
            self.digest_ok(*b),
            offset + size <= b.size,
        ensures
            self.digest_ok(r),
            r.offset == b.offset + offset,
            r.size == size,
            self.digest_seq(r) =~= self.digest_seq(*b).subrange(offset as int, offset + size),
    {
        let n: usize = self.d_mem.len();
        proof {
            assert(b.offset + offset <= n);
        }
        BufferDigest { offset: b.offset + offset, size }
    }

    /// A host-visible snapshot of a base-element buffer.
    pub fn view_elem(&self, b: &BufferElem) -> (r: Vec<Elem>)
        requires
            self.elem_ok(*b),
        ensures
            r@ =~= self.elem_seq(*b),
    {
        seq_load(&self.e_mem, b.offset, b.size)
    }

    /// A host-visible snapshot of an extension-element buffer.
    pub fn view_extelem(&self, b: &BufferExtElem) -> (r: Vec<ExtElem>)
        requires
            self.ext_ok(*b),
        ensures
            r@ =~= self.ext_seq(*b),
    {
        seq_load(&self.x_mem, b.offset, b.size)
    }

    /// A host-visible snapshot of a 32-bit-word buffer.
    pub fn view_u32(&self, b: &BufferU32) -> (r: Vec<u32>)
        requires
            self.u32_ok(*b),
        ensures
            r@ =~= self.u32_seq(*b),
    {
        seq_load(&self.u_mem, b.offset, b.size)
    }

    /// A host-visible snapshot of a digest buffer.
    pub fn view_digest(&self, b: &BufferDigest) -> (r: Vec<Digest>)
        requires
            self.digest_ok(*b),
        ensures
            r@ =~= self.digest_seq(*b),
    {
        seq_load(&self.d_mem, b.offset, b.size)
    }

    /// Writes mutated host data back through a base-element buffer, so
    /// that subsequent kernel launches observe the update.
    pub fn view_mut_elem(&mut self, b: &BufferElem, data: &Vec<Elem>)
        requires
            old(self).wf(),
            old(self).elem_ok(*b),
            wf_elems(data@),
            data@.len() == b.size,
        ensures
            final(self).wf(),
            final(self).elem_seq(*b) =~= data@,
            frames_elem_write(*old(self), *final(self), b.offset as int, b.size as int),
    {
        seq_store(&mut self.e_mem, b.offset, data);
        proof {
            lemma_wf_elems_store(old(self).e_mem@, self.e_mem@, b.offset as int, data@);
        }
    }

    /// Writes mutated host data back through a digest buffer.
    pub fn view_mut_digest(&mut self, b: &BufferDigest, data: &Vec<Digest>)
        requires
            old(self).wf(),
            old(self).digest_ok(*b),
            data@.len() == b.size,
        ensures
            final(self).wf(),
            final(self).digest_seq(*b) =~= data@,
            frames_digest_write(*old(self), *final(self), b.offset as int, b.size as int),
    {
        seq_store(&mut self.d_mem, b.offset, data);
    }

    /// out[i] = a[i] + b[i] over the base field.
    pub fn eltwise_add_elem(&mut self, out: &BufferElem, a: &BufferElem, b: &BufferElem)
        requires
            old(self).wf(),
            old(self).elem_ok(*out),
            old(self).elem_ok(*a),
            old(self).elem_ok(*b),
            a.size == out.size,
            b.size == out.size,
        ensures
            final(self).wf(),
            final(self).elem_ok(*out),
            forall|i: int|
                0 <= i < out.size ==> final(self).elem_seq(*out)[i].val() == fadd(
                    old(self).elem_seq(*a)[i].val(),
                    old(self).elem_seq(*b)[i].val(),
                ),
            crate::ntt::elem_vals(final(self).elem_seq(*out)) =~= add_rows(
                crate::ntt::elem_vals(old(self).elem_seq(*a)),
                crate::ntt::elem_vals(old(self).elem_seq(*b)),
            ),
            frames_elem_write(*old(self), *final(self), out.offset as int, out.size as int),
    {
        let av = seq_load(&self.e_mem, a.offset, a.size);
        let bv = seq_load(&self.e_mem, b.offset, b.size);
        proof {
            lemma_wf_elems_subrange(self.e_mem@, a.offset as int, a.offset + a.size);
            lemma_wf_elems_subrange(self.e_mem@, b.offset as int, b.offset + b.size);
        }
        let mut ov: Vec<Elem> = Vec::new();
        let mut k: usize = 0;
        while k < out.size
            invariant
                k <= out.size,
                av@.len() == out.size,
                bv@.len() == out.size,
                wf_elems(av@),
                wf_elems(bv@),
                ov@.len() == k,
                wf_elems(ov@),
                forall|i: int|
                    0 <= i < k ==> ov@[i].val() == fadd(av@[i].val(), bv@[i].val()),
            decreases out.size - k,
        {
            ov.push(av[k].add(bv[k]));
            k += 1;
        }
        seq_store(&mut self.e_mem, out.offset, &ov);
        proof {
            lemma_wf_elems_store(old(self).e_mem@, self.e_mem@, out.offset as int, ov@);
            assert forall|i: int| 0 <= i < out.size implies self.elem_seq(*out)[i].val() == fadd(
                old(self).elem_seq(*a)[i].val(),
                old(self).elem_seq(*b)[i].val(),
            ) by {
                assert(self.elem_seq(*out)[i] == self.e_mem@[out.offset + i]);
                assert(self.e_mem@[out.offset + i] == ov@[i]);
                assert(old(self).elem_seq(*a)[i] == old(self).e_mem@[a.offset + i]);
                assert(old(self).elem_seq(*b)[i] == old(self).e_mem@[b.offset + i]);
            }
            assert forall|i: int| 0 <= i < out.size implies crate::ntt::elem_vals(
                final(self).elem_seq(*out),
            )[i] == add_rows(
                crate::ntt::elem_vals(old(self).elem_seq(*a)),
                crate::ntt::elem_vals(old(self).elem_seq(*b)),
            )[i] by {
                assert(crate::ntt::elem_vals(final(self).elem_seq(*out))[i] == final(self).elem_seq(*out)[i].val());
                assert(crate::ntt::elem_vals(old(self).elem_seq(*a))[i] == old(self).elem_seq(
                    *a,
                )[i].val());
                assert(crate::ntt::elem_vals(old(self).elem_seq(*b))[i] == old(self).elem_seq(
                    *b,
                )[i].val());
            }
        }
    }

    /// out[i] = a[i].
    pub fn eltwise_copy_elem(&mut self, out: &BufferElem, a: &BufferElem)
        requires
            old(self).wf(),
            old(self).elem_ok(*out),
            old(self).elem_ok(*a),
            a.size == out.size,
        ensures
            final(self).wf(),
            final(self).elem_ok(*out),
            final(self).elem_seq(*out) =~= old(self).elem_seq(*a),
            frames_elem_write(*old(self), *final(self), out.offset as int, out.size as int),
    {
        let av = seq_load(&self.e_mem, a.offset, a.size);
        proof {
            lemma_wf_elems_subrange(self.e_mem@, a.offset as int, a.offset + a.size);
        }
        seq_store(&mut self.e_mem, out.offset, &av);
        proof {
            lemma_wf_elems_store(old(self).e_mem@, self.e_mem@, out.offset as int, av@);
        }
    }
}

} // verus!
