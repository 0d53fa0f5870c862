//! SHA-256 digests as the hash leaves of the prover's Merkle layers: a
//! digest is 32 bytes, handled everywhere as 8 little-endian 32-bit words.
use vstd::prelude::*;

verus! {

/// Number of 32-bit words in a digest.
pub const DIGEST_WORDS: usize = 8;

/// A 32-byte SHA-256 output, as 8 little-endian 32-bit words.
#[derive(Clone, Copy, PartialEq, Eq, Structural, Debug)]
pub struct Digest {
    pub w0: u32,
    pub w1: u32,
    pub w2: u32,
    pub w3: u32,
    pub w4: u32,
    pub w5: u32,
    pub w6: u32,
    pub w7: u32,
}

impl Digest {
    /// The digest as a word sequence, little-endian word order.
    pub open spec fn words(self) -> Seq<u32> {
        seq![self.w0, self.w1, self.w2, self.w3, self.w4, self.w5, self.w6, self.w7]
    }

    pub fn zero() -> (r: Digest)
        ensures
            r.words() == seq![0u32, 0u32, 0u32, 0u32, 0u32, 0u32, 0u32, 0u32],
    {
        Digest { w0: 0, w1: 0, w2: 0, w3: 0, w4: 0, w5: 0, w6: 0, w7: 0 }
    }

    /// Builds a digest from exactly 8 words.
    pub fn from_words(ws: &Vec<u32>) -> (r: Digest)
        requires
            ws@.len() == 8,
        ensures
            r.words() =~= ws@,
    {
        Digest {
            w0: ws[0],
            w1: ws[1],
            w2: ws[2],
            w3: ws[3],
            w4: ws[4],
            w5: ws[5],
            w6: ws[6],
            w7: ws[7],
        }
    }

    /// The words of the digest as a vector.
    pub fn to_words(&self) -> (r: Vec<u32>)
        ensures
            r@ =~= self.words(),
    {
        let mut r: Vec<u32> = Vec::new();
        r.push(self.w0);
        r.push(self.w1);
        r.push(self.w2);
        r.push(self.w3);
        r.push(self.w4);
        r.push(self.w5);
        r.push(self.w6);
        r.push(self.w7);
        r
    }
}

/// The SHA-256 digest of a word sequence: the input words are serialized
/// as little-endian bytes, hashed, and the 32 output bytes are read back
/// as 8 little-endian words.
pub uninterp spec fn sha256_words(input: Seq<u32>) -> Seq<u32>;

/// Relies on sha2::Sha256 (via the sha2::Digest trait): hashes the
/// little-endian byte serialization of the words; the result depends on
/// the input words alone, and SHA-256 always emits 32 bytes, hence 8 words.
#[verifier::external_body]
pub fn sha256_of_words(input: &Vec<u32>) -> (r: Vec<u32>)
    ensures
        r@ == sha256_words(input@),
        r@.len() == 8,
{
    let mut bytes: Vec<u8> = Vec::with_capacity(input.len() * 4);
    for w in input.iter() {
        bytes.extend_from_slice(&w.to_le_bytes());
    }
    let d = <sha2::Sha256 as sha2::Digest>::digest(&bytes);
    let mut out: Vec<u32> = Vec::with_capacity(8);
    for i in 0..8 {
        out.push(u32::from_le_bytes([d[4 * i], d[4 * i + 1], d[4 * i + 2], d[4 * i + 3]]));
    }
    out
}


impl crate::cpu::CpuHal {
    /// Hashes each column-major row of the matrix: out[r] is the SHA-256
    /// digest of matrix[r], matrix[r + row_size], ... serialized as
    /// little-endian 32-bit words, with row_size the output length.
    pub fn sha_rows(&mut self, output: &crate::cpu::BufferDigest, matrix: &crate::cpu::BufferElem)
        requires
            old(self).wf(),
            old(self).digest_ok(*output),
            old(self).elem_ok(*matrix),
            output.size >= 1,
            matrix.size == (matrix.size / output.size) * output.size,
        ensures
            final(self).wf(),
            final(self).digest_ok(*output),
            crate::cpu::frames_digest_write(
                *old(self),
                *final(self),
                output.offset as int,
                output.size as int,
            ),
            forall|r: int|
                0 <= r < output.size ==> (#[trigger] final(self).digest_seq(*output)[r]).words()
                    == sha256_words(
                    Seq::new(
                        (matrix.size / output.size) as nat,
                        |k: int| old(self).elem_seq(*matrix)[r + k * (output.size as int)].v,
                    ),
                ),
    {
        let row_size: usize = output.size;
        let col_size: usize = matrix.size / output.size;
        let mv = crate::cpu::seq_load(&self.e_mem, matrix.offset, matrix.size);
        let mut ov: Vec<Digest> = Vec::new();
        let mut r: usize = 0;
        while r < row_size
            invariant
                mv@.len() == matrix.size,
                matrix.size == col_size * row_size,
                row_size >= 1,
                r <= row_size,
                ov@.len() == r,
                forall|t: int|
                    0 <= t < r ==> (#[trigger] ov@[t]).words() == sha256_words(
                        Seq::new(col_size as nat, |k: int| mv@[t + k * (row_size as int)].v),
                    ),
            decreases row_size - r,
        {
            let mut col: Vec<u32> = Vec::new();
            let mut k: usize = 0;
            while k < col_size
                invariant
                    mv@.len() == matrix.size,
                    matrix.size == col_size * row_size,
                    r < row_size,
                    row_size >= 1,
                    k <= col_size,
                    col@.len() == k,
                    forall|t: int| 0 <= t < k ==> col@[t] == mv@[r + t * (row_size as int)].v,
                decreases col_size - k,
            {
                proof {
                    vstd::arithmetic::mul::lemma_mul_inequality(
                        k + 1,
                        col_size as int,
                        row_size as int,
                    );
                    assert((k + 1) * row_size == k * row_size + row_size) by (nonlinear_arith);
                    assert(k * row_size >= 0) by (nonlinear_arith)
                        requires
                            k >= 0,
                            row_size >= 0,
                    ;
                }
                col.push(mv[r + k * row_size].v);
                k = k + 1;
            }
            let d = sha256_of_words(&col);
            let dig = Digest::from_words(&d);
            proof {
                assert(col@ =~= Seq::new(
                    col_size as nat,
                    |k: int| mv@[r as int + k * (row_size as int)].v,
                ));
            }
            ov.push(dig);
            r = r + 1;
        }
        let ghost pre_store = self.d_mem@;
        crate::cpu::seq_store(&mut self.d_mem, output.offset, &ov);
        proof {
            assert forall|r: int| 0 <= r < output.size implies (#[trigger] final(self).digest_seq(
                *output,
            )[r]).words() == sha256_words(
                Seq::new(
                    col_size as nat,
                    |k: int| old(self).elem_seq(*matrix)[r + k * (row_size as int)].v,
                ),
            ) by {
                assert(final(self).digest_seq(*output)[r] == final(self).d_mem@[output.offset
                    + r]);
                assert(final(self).d_mem@[output.offset + r] == ov@[r]);
                assert(Seq::new(col_size as nat, |k: int| mv@[r + k * (row_size as int)].v) =~= Seq::new(
                    col_size as nat,
                    |k: int| old(self).elem_seq(*matrix)[r + k * (row_size as int)].v,
                )) by {
                    assert forall|k: int| 0 <= k < col_size implies (#[trigger] mv@[r + k * (
                    row_size as int)]).v == old(self).elem_seq(*matrix)[r + k * (
                    row_size as int)].v by {
                        vstd::arithmetic::mul::lemma_mul_inequality(
                            k + 1,
                            col_size as int,
                            row_size as int,
                        );
                        assert((k + 1) * row_size == k * row_size + row_size) by (nonlinear_arith);
                        assert(k * row_size >= 0) by (nonlinear_arith)
                            requires
                                k >= 0,
                                row_size >= 0,
                        ;
                        assert(mv@[r + k * (row_size as int)] == old(self).e_mem@[matrix.offset + r
                            + k * (row_size as int)]);
                        assert(old(self).elem_seq(*matrix)[r + k * (row_size as int)] == old(
                            self,
                        ).e_mem@[matrix.offset + r + k * (row_size as int)]);
                    }
                }
            }
        }
    }

    /// One Merkle fold layer: for i below output_size, digest i becomes
    /// the SHA-256 hash of the concatenation of digests output_size + 2i
    /// and output_size + 2i + 1.
    pub fn sha_fold(&mut self, io: &crate::cpu::BufferDigest, input_size: usize, output_size: usize)
        requires
            old(self).wf(),
            old(self).digest_ok(*io),
            input_size == 2 * output_size,
            output_size >= 1,
            io.size >= output_size + input_size,
        ensures
            final(self).wf(),
            final(self).digest_ok(*io),
            crate::cpu::frames_digest_write(
                *old(self),
                *final(self),
                io.offset as int,
                output_size as int,
            ),
            forall|i: int|
                0 <= i < output_size ==> (#[trigger] final(self).digest_seq(*io)[i]).words()
                    == sha256_words(
                    old(self).digest_seq(*io)[output_size + 2 * i].words() + old(
                        self,
                    ).digest_seq(*io)[output_size + 2 * i + 1].words(),
                ),
    {
        let dv = crate::cpu::seq_load(&self.d_mem, io.offset, io.size);
        let mut ov: Vec<Digest> = Vec::new();
        let mut i: usize = 0;
        while i < output_size
            invariant
                dv@.len() == io.size,
                io.size >= output_size + input_size,
                input_size == 2 * output_size,
                i <= output_size,
                ov@.len() == i,
                forall|t: int|
                    0 <= t < i ==> (#[trigger] ov@[t]).words() == sha256_words(
                        dv@[output_size + 2 * t].words() + dv@[output_size + 2 * t + 1].words(),
                    ),
            decreases output_size - i,
        {
            let a = dv[output_size + 2 * i];
            let b = dv[output_size + 2 * i + 1];
            let mut ws = a.to_words();
            let bw = b.to_words();
            let mut t: usize = 0;
            while t < 8
                invariant
                    bw@.len() == 8,
                    t <= 8,
                    ws@ =~= a.words() + bw@.subrange(0, t as int),
                decreases 8 - t,
            {
                ws.push(bw[t]);
                t = t + 1;
            }
            proof {
                assert(bw@.subrange(0, 8) =~= bw@);
                assert(ws@ =~= a.words() + b.words());
            }
            let d = sha256_of_words(&ws);
            ov.push(Digest::from_words(&d));
            i = i + 1;
        }
        let ghost pre_store = self.d_mem@;
        crate::cpu::seq_store(&mut self.d_mem, io.offset, &ov);
        proof {
            assert forall|i: int| 0 <= i < output_size implies (#[trigger] final(self).digest_seq(
                *io,
            )[i]).words() == sha256_words(
                old(self).digest_seq(*io)[output_size + 2 * i].words() + old(self).digest_seq(
                    *io,
                )[output_size + 2 * i + 1].words(),
            ) by {
                assert(final(self).digest_seq(*io)[i] == final(self).d_mem@[io.offset + i]);
                assert(final(self).d_mem@[io.offset + i] == ov@[i]);
                assert(dv@[output_size + 2 * i] == old(self).d_mem@[io.offset + output_size + 2
                    * i]);
                assert(dv@[output_size + 2 * i + 1] == old(self).d_mem@[io.offset + output_size + 2
                    * i + 1]);
                assert(old(self).digest_seq(*io)[output_size + 2 * i] == old(self).d_mem@[io.offset
                    + output_size + 2 * i]);
                assert(old(self).digest_seq(*io)[output_size + 2 * i + 1] == old(
                    self,
                ).d_mem@[io.offset + output_size + 2 * i + 1]);
            }
        }
    }
}

} // verus!
