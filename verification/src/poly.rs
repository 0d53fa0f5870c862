//! Row-batched polynomial kernels on base-field buffers: bit-reversal
//! permutation, low-degree-extension expansion, and the coset shift.
use vstd::arithmetic::power2::pow2;
use vstd::prelude::*;

use crate::cpu::{seq_load, seq_store, wf_elems, BufferElem, CpuHal};
use crate::field::{fmul, fpow, in_field, Elem};
use crate::ntt::{
    elem_vals, evaluate_row, fwd_stage, fwd_stages, ilog2, lemma_row_extract, pow2_usize,
    row_vals, wf_vals,
};

verus! {

/// The coset shift generator: a multiplicative generator of the field,
/// so it lies outside every proper power-of-two subgroup.
pub const SHIFT: u32 = 31;

/// The bit-reversal of the low `bits` bits of j.
pub open spec fn brev(bits: nat, j: int) -> int
    decreases bits,
{
    if bits == 0 {
        0
    } else {
        (j % 2) * pow2((bits - 1) as nat) + brev((bits - 1) as nat, j / 2)
    }
}

/// Bit reversal stays inside the row.
pub proof fn lemma_brev_bound(bits: nat, j: int)
    requires
        j >= 0,
    ensures
        0 <= brev(bits, j) < pow2(bits),
    decreases bits,
{
    if bits == 0 {
        vstd::arithmetic::power2::lemma2_to64();
    } else {
        vstd::arithmetic::div_mod::lemma_div_pos_is_pos(j, 2);
        lemma_brev_bound((bits - 1) as nat, j / 2);
        vstd::arithmetic::power2::lemma_pow2_unfold(bits);
        vstd::arithmetic::power2::lemma_pow2_pos((bits - 1) as nat);
        let p = pow2((bits - 1) as nat) as int;
        let t = (j % 2) * p;
        let b = brev((bits - 1) as nat, j / 2);
        vstd::arithmetic::div_mod::lemma_mod_bound(j, 2);
        if j % 2 == 0 {
            assert(t == 0);
        } else {
            assert(j % 2 == 1);
            assert(t == p);
        }
        assert(brev(bits, j) == t + b);
        assert(t + b < 2 * p);
    }
}

/// The bit-reversal of the low `bits` bits of j, as a machine word.
pub fn brev_usize(bits: usize, j: usize) -> (r: usize)
    requires
        bits <= 27,
    ensures
        r == brev(bits as nat, j as int),
{
    let ghost j0 = j as int;
    let mut r: usize = 0;
    let mut x: usize = j;
    let mut i: usize = 0;
    proof {
        lemma_brev_bound(bits as nat, j0);
        vstd::arithmetic::power2::lemma2_to64();
        if (bits as nat) < 27 {
            vstd::arithmetic::power2::lemma_pow2_strictly_increases(bits as nat, 27);
        }
    }
    while i < bits
        invariant
            i <= bits,
            bits <= 27,
            brev(bits as nat, j0) == r + brev((bits - i) as nat, x as int),
            brev(bits as nat, j0) < pow2(bits as nat),
            pow2(bits as nat) <= 0x8000000,
            r + brev((bits - i) as nat, x as int) >= r,
        decreases bits - i,
    {
        let p = pow2_usize(bits - 1 - i);
        proof {
            assert(brev((bits - i) as nat, x as int) == (x as int % 2) * pow2(
                (bits - i - 1) as nat,
            ) + brev((bits - i - 1) as nat, (x as int) / 2));
            lemma_brev_bound((bits - i - 1) as nat, (x as int) / 2);
            lemma_brev_bound((bits - i) as nat, x as int);
        }
        r = r + (x % 2) * p;
        x = x / 2;
        i = i + 1;
    }
    r
}

impl CpuHal {
    /// Permutes each of `count` rows (each of power-of-two length) by
    /// bit-reversal of the in-row index.
    pub fn batch_bit_reverse(&mut self, io: &BufferElem, count: usize)
        requires
            old(self).wf(),
            old(self).elem_ok(*io),
            count >= 1,
            io.size == count * (io.size / count),
            io.size / count >= 1,
            pow2(ilog2((io.size / count) as nat)) == io.size / count,
            ilog2((io.size / count) as nat) <= 27,
        ensures
            final(self).wf(),
            final(self).elem_ok(*io),
            crate::cpu::frames_elem_write(
                *old(self),
                *final(self),
                io.offset as int,
                io.size as int,
            ),
            forall|r: int, j: int|
                0 <= r < count && 0 <= j < io.size / count ==> #[trigger] row_vals(
                    final(self).elem_seq(*io),
                    r,
                    (io.size / count) as int,
                )[j] == row_vals(old(self).elem_seq(*io), r, (io.size / count) as int)[brev(
                    ilog2((io.size / count) as nat),
                    j,
                )],
    {
        let rs: usize = io.size / count;
        let ghost nb = ilog2(rs as nat);
        proof {
            vstd::arithmetic::power2::lemma2_to64();
            if nb < 27 {
                vstd::arithmetic::power2::lemma_pow2_strictly_increases(nb, 27);
            }
        }
        let bits: usize = crate::log2_ceil(rs);
        proof {
            if bits < nb {
                vstd::arithmetic::power2::lemma_pow2_strictly_increases(bits as nat, nb);
            }
            if bits > nb {
                if ((bits - 1) as nat) > nb {
                    vstd::arithmetic::power2::lemma_pow2_strictly_increases(nb, (bits - 1) as nat);
                }
            }
            assert(bits == nb);
        }
        let snap = seq_load(&self.e_mem, io.offset, io.size);
        proof {
            crate::cpu::lemma_wf_elems_subrange(
                self.e_mem@,
                io.offset as int,
                io.offset + io.size,
            );
        }
        let mut out: Vec<Elem> = Vec::new();
        let mut idx: usize = 0;
        while idx < io.size
            invariant
                wf_elems(snap@),
                snap@.len() == io.size,
                io.size == count * rs,
                count >= 1,
                rs >= 1,
                rs == pow2(nb),
                bits == nb,
                nb <= 27,
                idx <= io.size,
                out@.len() == idx,
                wf_elems(out@),
                forall|t: int|
                    0 <= t < idx ==> #[trigger] out@[t] == snap@[(t / (rs as int)) * (rs as int)
                        + brev(nb, t % (rs as int))],
            decreases io.size - idx,
        {
            let rr: usize = idx / rs;
            let j: usize = idx % rs;
            let b = brev_usize(bits, j);
            proof {
                lemma_brev_bound(nb, j as int);
                vstd::arithmetic::div_mod::lemma_fundamental_div_mod(idx as int, rs as int);
                assert(rr < count) by {
                    vstd::arithmetic::div_mod::lemma_fundamental_div_mod(idx as int, rs as int);
                    vstd::arithmetic::div_mod::lemma_mod_bound(idx as int, rs as int);
                    if rr >= count {
                        vstd::arithmetic::mul::lemma_mul_inequality(
                            count as int,
                            rr as int,
                            rs as int,
                        );
                        assert(idx as int >= (rs as int) * (rr as int));
                        assert((count as int) * (rs as int) <= (rr as int) * (rs as int));
                        assert(false);
                    }
                }
                vstd::arithmetic::mul::lemma_mul_inequality(
                    rr + 1,
                    count as int,
                    rs as int,
                );
                assert((rr + 1) * rs == rr * rs + rs) by (nonlinear_arith);
                assert(rr * rs >= 0) by (nonlinear_arith)
                    requires
                        rr >= 0,
                        rs >= 0,
                ;
            }
            out.push(snap[rr * rs + b]);
            idx = idx + 1;
        }
        let ghost pre_store = self.e_mem@;
        seq_store(&mut self.e_mem, io.offset, &out);
        proof {
            crate::cpu::lemma_wf_elems_store(
                pre_store,
                self.e_mem@,
                io.offset as int,
                out@,
            );
            assert forall|r: int, j: int| 0 <= r < count && 0 <= j < rs implies #[trigger] row_vals(
                final(self).elem_seq(*io),
                r,
                rs as int,
            )[j] == row_vals(old(self).elem_seq(*io), r, rs as int)[brev(nb, j)] by {
                vstd::arithmetic::mul::lemma_mul_inequality(r + 1, count as int, rs as int);
                assert((r + 1) * rs == r * rs + rs) by (nonlinear_arith);
                assert(r * rs >= 0) by (nonlinear_arith)
                    requires
                        r >= 0,
                        rs >= 0,
                ;
                let t = r * (rs as int) + j;
                vstd::arithmetic::div_mod::lemma_fundamental_div_mod_converse(
                    t,
                    rs as int,
                    r,
                    j,
                );
                lemma_brev_bound(nb, j);
                assert(out@[t] == snap@[r * (rs as int) + brev(nb, j)]);
                assert(self.e_mem@[io.offset + t] == out@[t]);
                assert(snap@[r * (rs as int) + brev(nb, j)] == old(self).e_mem@[io.offset + r * (
                rs as int) + brev(nb, j)]);
                assert(row_vals(final(self).elem_seq(*io), r, rs as int)[j] == final(self).e_mem@[io.offset + r * (rs as int) + j].val());
                assert(row_vals(old(self).elem_seq(*io), r, rs as int)[brev(nb, j)] == old(self).e_mem@[io.offset + r * (rs as int) + brev(nb, j)].val());
            }
        }
    }

    /// Expands each of `poly_count` coefficient rows onto a domain
    /// 2^expand_bits times larger by replicating every entry across its
    /// block: out[j] = in[j / 2^expand_bits]. The skipped butterfly
    /// stages of the forward NTT would perform exactly this replication
    /// on the zero-stuffed coefficient row.
    pub fn batch_expand(&mut self, output: &BufferElem, input: &BufferElem, poly_count: usize)
        requires
            old(self).wf(),
            old(self).elem_ok(*output),
            old(self).elem_ok(*input),
            poly_count >= 1,
            output.size == poly_count * (output.size / poly_count),
            input.size == poly_count * (input.size / poly_count),
            input.size / poly_count >= 1,
            output.size / poly_count >= 1,
            (output.size / poly_count) == (input.size / poly_count) * pow2(
                ilog2(((output.size / poly_count) / (input.size / poly_count)) as nat),
            ),
        ensures
            final(self).wf(),
            final(self).elem_ok(*output),
            crate::cpu::frames_elem_write(
                *old(self),
                *final(self),
                output.offset as int,
                output.size as int,
            ),
            forall|r: int, j: int|
                0 <= r < poly_count && 0 <= j < output.size / poly_count ==> #[trigger] row_vals(
                    final(self).elem_seq(*output),
                    r,
                    (output.size / poly_count) as int,
                )[j] == row_vals(
                    old(self).elem_seq(*input),
                    r,
                    (input.size / poly_count) as int,
                )[j / (pow2(ilog2(((output.size / poly_count) / (input.size / poly_count)) as nat))
                    as int)],
    {
        let out_size: usize = output.size / poly_count;
        let in_size: usize = input.size / poly_count;
        let ghost eb = ilog2((out_size / in_size) as nat);
        proof {
            vstd::arithmetic::power2::lemma_pow2_pos(eb);
            assert(out_size / in_size >= 1) by (nonlinear_arith)
                requires
                    out_size == in_size * pow2(eb),
                    in_size >= 1,
                    pow2(eb) >= 1,
                    out_size >= 1,
            ;
        }
        let ratio: usize = out_size / in_size;
        let snap = seq_load(&self.e_mem, input.offset, input.size);
        proof {
            crate::cpu::lemma_wf_elems_subrange(
                self.e_mem@,
                input.offset as int,
                input.offset + input.size,
            );
            // ratio is exactly the power of two from the requires
            assert(ratio == pow2(eb)) by {
                assert(out_size == in_size * pow2(eb));
                vstd::arithmetic::div_mod::lemma_div_multiples_vanish(
                    pow2(eb) as int,
                    in_size as int,
                );
                assert(in_size as int * pow2(eb) as int == pow2(eb) as int * in_size as int)
                    by (nonlinear_arith);
            }
        }
        let mut out: Vec<Elem> = Vec::new();
        let mut idx: usize = 0;
        while idx < output.size
            invariant
                wf_elems(snap@),
                snap@.len() == input.size,
                output.size == poly_count * out_size,
                input.size == poly_count * in_size,
                poly_count >= 1,
                in_size >= 1,
                out_size >= 1,
                ratio == pow2(eb),
                out_size == in_size * pow2(eb),
                idx <= output.size,
                out@.len() == idx,
                wf_elems(out@),
                forall|t: int|
                    0 <= t < idx ==> #[trigger] out@[t] == snap@[(t / (out_size as int)) * (
                    in_size as int) + (t % (out_size as int)) / (ratio as int)],
            decreases output.size - idx,
        {
            let rr: usize = idx / out_size;
            let j: usize = idx % out_size;
            proof {
                vstd::arithmetic::div_mod::lemma_fundamental_div_mod(idx as int, out_size as int);
                assert(rr < poly_count) by {
                    vstd::arithmetic::div_mod::lemma_fundamental_div_mod(
                        idx as int,
                        out_size as int,
                    );
                    vstd::arithmetic::div_mod::lemma_mod_bound(idx as int, out_size as int);
                    if rr >= poly_count {
                        vstd::arithmetic::mul::lemma_mul_inequality(
                            poly_count as int,
                            rr as int,
                            out_size as int,
                        );
                        assert(idx as int >= (out_size as int) * (rr as int));
                        assert((poly_count as int) * (out_size as int) <= (rr as int) * (
                        out_size as int));
                        assert(false);
                    }
                }
                // j / ratio < in_size
                assert(j / ratio < in_size) by {
                    vstd::arithmetic::div_mod::lemma_div_is_ordered(
                        j as int,
                        (out_size - 1) as int,
                        ratio as int,
                    );
                    assert((in_size * pow2(eb) - 1) as int / (pow2(eb) as int) < in_size) by (
                    nonlinear_arith)
                        requires
                            in_size >= 1,
                            pow2(eb) >= 1,
                    ;
                }
                vstd::arithmetic::mul::lemma_mul_inequality(rr + 1, poly_count as int, in_size as int);
                assert((rr + 1) * in_size == rr * in_size + in_size) by (nonlinear_arith);
                assert(rr * in_size >= 0) by (nonlinear_arith)
                    requires
                        rr >= 0,
                        in_size >= 0,
                ;
            }
            out.push(snap[rr * in_size + j / ratio]);
            idx = idx + 1;
        }
        let ghost pre_store = self.e_mem@;
        seq_store(&mut self.e_mem, output.offset, &out);
        proof {
            crate::cpu::lemma_wf_elems_store(
                pre_store,
                self.e_mem@,
                output.offset as int,
                out@,
            );
            assert forall|r: int, j: int| 0 <= r < poly_count && 0 <= j < out_size implies
                #[trigger] row_vals(final(self).elem_seq(*output), r, out_size as int)[j]
                == row_vals(old(self).elem_seq(*input), r, in_size as int)[j / (ratio as int)] by {
                vstd::arithmetic::mul::lemma_mul_inequality(r + 1, poly_count as int, out_size as int);
                assert((r + 1) * out_size == r * out_size + out_size) by (nonlinear_arith);
                assert(r * out_size >= 0) by (nonlinear_arith)
                    requires
                        r >= 0,
                        out_size >= 0,
                ;
                vstd::arithmetic::mul::lemma_mul_inequality(r + 1, poly_count as int, in_size as int);
                assert((r + 1) * in_size == r * in_size + in_size) by (nonlinear_arith);
                assert(r * in_size >= 0) by (nonlinear_arith)
                    requires
                        r >= 0,
                        in_size >= 0,
                ;
                let t = r * (out_size as int) + j;
                vstd::arithmetic::div_mod::lemma_fundamental_div_mod_converse(
                    t,
                    out_size as int,
                    r,
                    j,
                );
                assert(j / (ratio as int) < in_size) by {
                    vstd::arithmetic::div_mod::lemma_div_is_ordered(
                        j,
                        (out_size - 1) as int,
                        ratio as int,
                    );
                    assert((in_size * pow2(eb) - 1) as int / (pow2(eb) as int) < in_size) by (
                    nonlinear_arith)
                        requires
                            in_size >= 1,
                            pow2(eb) >= 1,
                    ;
                }
                vstd::arithmetic::div_mod::lemma_div_pos_is_pos(j, ratio as int);
                assert(out@[t] == snap@[r * (in_size as int) + j / (ratio as int)]);
                assert(self.e_mem@[output.offset + t] == out@[t]);
                assert(row_vals(final(self).elem_seq(*output), r, out_size as int)[j] == final(self).e_mem@[output.offset + t].val());
                assert(row_vals(old(self).elem_seq(*input), r, in_size as int)[j / (ratio as int)]
                    == old(self).e_mem@[input.offset + r * (in_size as int) + j / (ratio as int)].val());
                assert(snap@[r * (in_size as int) + j / (ratio as int)] == old(self).e_mem@[input.offset + r * (in_size as int) + j / (ratio as int)]);
            }
        }
    }

    /// Multiplies coefficient j of every polynomial by SHIFT^j, moving
    /// subsequent evaluations onto a shifted coset of the NTT subgroup.
    pub fn zk_shift(&mut self, io: &BufferElem, poly_count: usize)
        requires
            old(self).wf(),
            old(self).elem_ok(*io),
            poly_count >= 1,
            io.size == poly_count * (io.size / poly_count),
            io.size / poly_count >= 1,
            pow2(ilog2((io.size / poly_count) as nat)) == io.size / poly_count,
        ensures
            final(self).wf(),
            final(self).elem_ok(*io),
            crate::cpu::frames_elem_write(
                *old(self),
                *final(self),
                io.offset as int,
                io.size as int,
            ),
            forall|r: int, j: int|
                0 <= r < poly_count && 0 <= j < io.size / poly_count ==> #[trigger] row_vals(
                    final(self).elem_seq(*io),
                    r,
                    (io.size / poly_count) as int,
                )[j] == fmul(
                    row_vals(old(self).elem_seq(*io), r, (io.size / poly_count) as int)[j],
                    fpow(SHIFT as int, j as nat),
                ),
    {
        let rs: usize = io.size / poly_count;
        let snap = seq_load(&self.e_mem, io.offset, io.size);
        proof {
            crate::cpu::lemma_wf_elems_subrange(
                self.e_mem@,
                io.offset as int,
                io.offset + io.size,
            );
        }
        let shift = Elem { v: SHIFT };
        let mut out: Vec<Elem> = Vec::new();
        let mut r: usize = 0;
        while r < poly_count
            invariant
                wf_elems(snap@),
                snap@.len() == io.size,
                io.size == poly_count * rs,
                poly_count >= 1,
                rs >= 1,
                shift.wf(),
                shift.val() == SHIFT as int,
                r <= poly_count,
                out@.len() == r * rs,
                wf_elems(out@),
                forall|t: int, j: int|
                    0 <= t < r && 0 <= j < rs ==> #[trigger] out@[t * (rs as int) + j].val()
                        == fmul(snap@[t * (rs as int) + j].val(), fpow(SHIFT as int, j as nat)),
            decreases poly_count - r,
        {
            proof {
                vstd::arithmetic::mul::lemma_mul_inequality(r + 1, poly_count as int, rs as int);
                assert((r + 1) * rs == r * rs + rs) by (nonlinear_arith);
                assert(r * rs >= 0) by (nonlinear_arith)
                    requires
                        r >= 0,
                        rs >= 0,
                ;
            }
            let mut cur = Elem::one();
            let mut j: usize = 0;
            while j < rs
                invariant
                    wf_elems(snap@),
                    snap@.len() == io.size,
                    io.size == poly_count * rs,
                    r < poly_count,
                    rs >= 1,
                    shift.wf(),
                    shift.val() == SHIFT as int,
                    (r + 1) * rs <= io.size,
                    (r + 1) * rs == r * rs + rs,
                    r * rs >= 0,
                    cur.wf(),
                    cur.val() == fpow(SHIFT as int, j as nat),
                    j <= rs,
                    out@.len() == r * rs + j,
                    wf_elems(out@),
                    forall|t: int, jj: int|
                        0 <= t < r && 0 <= jj < rs ==> #[trigger] out@[t * (rs as int) + jj].val()
                            == fmul(
                            snap@[t * (rs as int) + jj].val(),
                            fpow(SHIFT as int, jj as nat),
                        ),
                    forall|jj: int|
                        0 <= jj < j ==> #[trigger] out@[r * (rs as int) + jj].val() == fmul(
                            snap@[r * (rs as int) + jj].val(),
                            fpow(SHIFT as int, jj as nat),
                        ),
                decreases rs - j,
            {
                out.push(snap[r * rs + j].mul(cur));
                cur = cur.mul(shift);
                proof {
                    crate::field::lemma_fmul_comm(
                        fpow(SHIFT as int, j as nat),
                        SHIFT as int,
                    );
                    assert forall|t: int, jj: int| 0 <= t < r && 0 <= jj < rs implies
                        #[trigger] out@[t * (rs as int) + jj].val() == fmul(
                        snap@[t * (rs as int) + jj].val(),
                        fpow(SHIFT as int, jj as nat),
                    ) by {
                        vstd::arithmetic::mul::lemma_mul_inequality(t + 1, r as int, rs as int);
                        assert((t + 1) * rs == t * rs + rs) by (nonlinear_arith);
                        assert(t * rs >= 0) by (nonlinear_arith)
                            requires
                                t >= 0,
                                rs >= 0,
                        ;
                    }
                }
                j = j + 1;
            }
            r = r + 1;
        }
        let ghost pre_store = self.e_mem@;
        seq_store(&mut self.e_mem, io.offset, &out);
        proof {
            crate::cpu::lemma_wf_elems_store(
                pre_store,
                self.e_mem@,
                io.offset as int,
                out@,
            );
            assert forall|r: int, j: int| 0 <= r < poly_count && 0 <= j < rs implies
                #[trigger] row_vals(final(self).elem_seq(*io), r, rs as int)[j] == fmul(
                row_vals(old(self).elem_seq(*io), r, rs as int)[j],
                fpow(SHIFT as int, j as nat),
            ) by {
                vstd::arithmetic::mul::lemma_mul_inequality(r + 1, poly_count as int, rs as int);
                assert((r + 1) * rs == r * rs + rs) by (nonlinear_arith);
                assert(r * rs >= 0) by (nonlinear_arith)
                    requires
                        r >= 0,
                        rs >= 0,
                ;
                let t = r * (rs as int) + j;
                assert(self.e_mem@[io.offset + t] == out@[t]);
                assert(snap@[t] == old(self).e_mem@[io.offset + t]);
                assert(row_vals(final(self).elem_seq(*io), r, rs as int)[j] == final(self).e_mem@[io.offset + t].val());
                assert(row_vals(old(self).elem_seq(*io), r, rs as int)[j] == old(self).e_mem@[io.offset + t].val());
            }
        }
    }
}


/// A coefficient row replicated 2^e-fold: every entry repeated across its
/// block of 2^e consecutive positions. This is what batch_expand writes.
pub open spec fn rep_row(c: Seq<int>, e: nat) -> Seq<int> {
    Seq::new(c.len() * pow2(e), |k: int| c[k / (pow2(e) as int)])
}

/// A coefficient row zero-stuffed 2^e-fold: entry t at position t * 2^e,
/// zeros elsewhere.
pub open spec fn spread_row(c: Seq<int>, e: nat) -> Seq<int> {
    Seq::new(
        c.len() * pow2(e),
        |k: int|
            if k % (pow2(e) as int) == 0 {
                c[k / (pow2(e) as int)]
            } else {
                0
            },
    )
}

/// The zero-stuffed row after its first s duplication stages: each block
/// of 2^e has its entry copied over the first 2^s positions.
pub open spec fn fill_row(c: Seq<int>, e: nat, s: nat) -> Seq<int> {
    Seq::new(
        c.len() * pow2(e),
        |k: int|
            if k % (pow2(e) as int) < pow2(s) as int {
                c[k / (pow2(e) as int)]
            } else {
                0
            },
    )
}

/// One forward butterfly stage on a partially filled row only continues
/// the duplication: its partner values are all zero, so every butterfly
/// degenerates to a copy.
proof fn lemma_fill_step(c: Seq<int>, e: nat, s: nat)
    requires
        wf_vals(c),
        s < e,
        e <= 27,
    ensures
        fwd_stage(fill_row(c, e, s), (s + 1) as nat) =~= fill_row(c, e, (s + 1) as nat),
{
    let pe = pow2(e) as int;
    let ps = pow2(s) as int;
    let m = 2 * ps;
    let cur = fill_row(c, e, s);
    vstd::arithmetic::power2::lemma_pow2_pos(e);
    vstd::arithmetic::power2::lemma_pow2_pos(s);
    vstd::arithmetic::power2::lemma_pow2_unfold((s + 1) as nat);
    vstd::arithmetic::power2::lemma_pow2_adds((s + 1) as nat, (e - s - 1) as nat);
    vstd::arithmetic::power2::lemma_pow2_pos((e - s - 1) as nat);
    assert(pe == m * (pow2((e - s - 1) as nat) as int));
    assert forall|k: int| 0 <= k < cur.len() implies #[trigger] fwd_stage(cur, (s + 1) as nat)[k]
        == fill_row(c, e, (s + 1) as nat)[k] by {
        let r = k % pe;
        let blk = k / pe;
        let j = k % m;
        vstd::arithmetic::div_mod::lemma_fundamental_div_mod(k, pe);
        vstd::arithmetic::div_mod::lemma_mod_bound(k, pe);
        vstd::arithmetic::div_mod::lemma_div_pos_is_pos(k, pe);
        vstd::arithmetic::div_mod::lemma_mod_mod(k, m, pow2((e - s - 1) as nat) as int);
        vstd::arithmetic::div_mod::lemma_fundamental_div_mod(r, m);
        vstd::arithmetic::div_mod::lemma_mod_bound(r, m);
        vstd::arithmetic::div_mod::lemma_div_pos_is_pos(r, m);
        let q = r / m;
        // r and j agree modulo the stage block, and r bounds its quotient
        assert(r % m == j);
        assert(q < pow2((e - s - 1) as nat)) by {
            if q >= pow2((e - s - 1) as nat) {
                vstd::arithmetic::mul::lemma_mul_inequality(
                    pow2((e - s - 1) as nat) as int,
                    q,
                    m,
                );
                assert(m * q >= m * (pow2((e - s - 1) as nat) as int)) by (nonlinear_arith)
                    requires
                        (pow2((e - s - 1) as nat) as int) * m <= q * m,
                ;
            }
        }
        assert(m * q + m <= pe) by {
            assert(m * (q + 1) <= m * (pow2((e - s - 1) as nat) as int)) by (nonlinear_arith)
                requires
                    q + 1 <= pow2((e - s - 1) as nat),
                    m > 0,
            ;
            assert(m * (q + 1) == m * q + m) by (nonlinear_arith);
        }
        assert(m * q >= 0) by (nonlinear_arith)
            requires
                m > 0,
                q >= 0,
        ;
        // the block containing k, and canonicity of its coefficient
        assert(blk < c.len()) by {
            if blk >= c.len() {
                vstd::arithmetic::mul::lemma_mul_inequality(c.len() as int, blk, pe);
                assert(pe * blk >= pe * (c.len() as int)) by (nonlinear_arith)
                    requires
                        (c.len() as int) * pe <= blk * pe,
                ;
                assert(cur.len() == c.len() * pow2(e));
                assert(pe * (c.len() as int) == (c.len() as int) * pe) by (nonlinear_arith);
            }
        }
        assert(in_field(c[blk]));
        assert(pe * (blk + 1) <= pe * (c.len() as int)) by (nonlinear_arith)
            requires
                blk + 1 <= c.len(),
                pe > 0,
        ;
        assert(pe * (blk + 1) == pe * blk + pe) by (nonlinear_arith);
        assert(pe * (c.len() as int) == (c.len() as int) * pe) by (nonlinear_arith);
        let pi = crate::field::P as int;
        if j < ps {
            // a-position: partner k + ps carries remainder r + ps, same block
            assert(r + ps < pe);
            assert(k + ps < cur.len());
            vstd::arithmetic::div_mod::lemma_fundamental_div_mod_converse(
                k + ps,
                pe,
                blk,
                r + ps,
            );
            // the partner is zero in the partially filled row
            assert(cur[k + ps] == 0);
            assert(fmul(fpow(crate::field::rou_fwd((s + 1) as nat), j as nat), 0) == 0);
            if r < ps {
                assert(cur[k] == c[blk]);
                vstd::arithmetic::div_mod::lemma_small_mod(c[blk] as nat, crate::field::P as nat);
                assert(crate::field::fadd(c[blk], 0) == c[blk]);
                assert(fill_row(c, e, (s + 1) as nat)[k] == c[blk]);
            } else {
                // low bits below ps but r at least ps: r spans a full block
                assert(r >= m) by {
                    if q == 0 {
                        assert(m * q == 0) by (nonlinear_arith)
                            requires
                                q == 0,
                        ;
                        assert(r == j);
                    } else {
                        assert(m * q >= m * 1) by (nonlinear_arith)
                            requires
                                q >= 1,
                                m > 0,
                        ;
                    }
                }
                assert(cur[k] == 0);
                assert(crate::field::fadd(0, 0) == 0);
                assert(fill_row(c, e, (s + 1) as nat)[k] == 0);
            }
        } else {
            // b-position: partner k - ps carries remainder r - ps, same block
            assert(r >= ps) by {
                vstd::arithmetic::div_mod::lemma_mod_decreases(r as nat, m as nat);
            }
            vstd::arithmetic::div_mod::lemma_fundamental_div_mod_converse(
                k - ps,
                pe,
                blk,
                r - ps,
            );
            assert(cur[k] == 0);
            assert(fmul(fpow(crate::field::rou_fwd((s + 1) as nat), (j - ps) as nat), 0) == 0);
            if r - ps < ps {
                assert(cur[k - ps] == c[blk]);
                vstd::arithmetic::div_mod::lemma_small_mod(c[blk] as nat, crate::field::P as nat);
                assert(crate::field::fsub(c[blk], 0) == c[blk]);
                assert(fill_row(c, e, (s + 1) as nat)[k] == c[blk]);
            } else {
                assert(cur[k - ps] == 0);
                assert(crate::field::fsub(0, 0) == 0);
                assert(fill_row(c, e, (s + 1) as nat)[k] == 0);
            }
        }
    }
}

/// The first s forward stages on the zero-stuffed row replicate each
/// entry across the first 2^s positions of its block.
proof fn lemma_fill_stages(c: Seq<int>, e: nat, s: nat)
    requires
        wf_vals(c),
        s <= e,
        e <= 27,
    ensures
        fwd_stages(spread_row(c, e), 0, s) =~= fill_row(c, e, s),
    decreases s,
{
    vstd::arithmetic::power2::lemma_pow2_pos(e);
    if s == 0 {
        assert(spread_row(c, e) =~= fill_row(c, e, 0)) by {
            assert forall|k: int| 0 <= k < spread_row(c, e).len() implies spread_row(c, e)[k]
                == fill_row(c, e, 0)[k] by {
                vstd::arithmetic::power2::lemma2_to64();
                vstd::arithmetic::div_mod::lemma_mod_bound(k, pow2(e) as int);
            }
        }
    } else {
        lemma_fill_stages(c, e, (s - 1) as nat);
        lemma_fill_step(c, e, (s - 1) as nat);
        assert(fwd_stages(spread_row(c, e), 0, s) == fwd_stage(
            fwd_stages(spread_row(c, e), 0, (s - 1) as nat),
            s,
        ));
    }
}

/// Evaluation splits at any intermediate stage.
proof fn lemma_fwd_stages_split(row: Seq<int>, lo: nat, mid: nat, s: nat)
    requires
        lo <= mid <= s,
    ensures
        fwd_stages(row, lo, s) == fwd_stages(fwd_stages(row, lo, mid), mid, s),
    decreases s,
{
    if s == mid {
    } else {
        lemma_fwd_stages_split(row, lo, mid, (s - 1) as nat);
    }
}

/// The expand path equals the zero-stuffed path: replicating a
/// coefficient row and evaluating with the matching number of skipped
/// stages gives the full forward NTT of the zero-stuffed row — the
/// transform batch_interpolate_ntt inverts on the extended domain.
pub proof fn lemma_expand_evaluate(c: Seq<int>, e: nat, n_bits: nat)
    requires
        wf_vals(c),
        c.len() >= 1,
        c.len() * pow2(e) == pow2(n_bits),
        e <= n_bits,
        n_bits <= 27,
    ensures
        evaluate_row(rep_row(c, e), n_bits, e) =~= evaluate_row(spread_row(c, e), n_bits, 0),
{
    lemma_fill_stages(c, e, e);
    assert(fill_row(c, e, e) =~= rep_row(c, e)) by {
        vstd::arithmetic::power2::lemma_pow2_pos(e);
        assert forall|k: int| 0 <= k < fill_row(c, e, e).len() implies fill_row(c, e, e)[k]
            == rep_row(c, e)[k] by {
            vstd::arithmetic::div_mod::lemma_mod_bound(k, pow2(e) as int);
        }
    }
    lemma_fwd_stages_split(spread_row(c, e), 0, e, n_bits);
    assert(fwd_stages(spread_row(c, e), 0, e) == rep_row(c, e));
}

/// The round trip through the expand path: replicate, evaluate with the
/// matching skipped stages, then interpolate on the extended domain, and
/// the zero-stuffed coefficient row comes back.
pub proof fn lemma_expand_roundtrip(c: Seq<int>, e: nat, n_bits: nat)
    requires
        wf_vals(c),
        c.len() >= 1,
        c.len() * pow2(e) == pow2(n_bits),
        e <= n_bits,
        n_bits <= 27,
    ensures
        crate::ntt::interpolate_row(evaluate_row(rep_row(c, e), n_bits, e), n_bits) =~= spread_row(
            c,
            e,
        ),
{
    lemma_expand_evaluate(c, e, n_bits);
    let sp = spread_row(c, e);
    vstd::arithmetic::power2::lemma_pow2_pos(e);
    assert(wf_vals(sp)) by {
        assert forall|k: int| 0 <= k < sp.len() implies in_field(#[trigger] sp[k]) by {
            let pe = pow2(e) as int;
            vstd::arithmetic::div_mod::lemma_div_pos_is_pos(k, pe);
            assert(k / pe < c.len()) by {
                if k / pe >= c.len() {
                    vstd::arithmetic::div_mod::lemma_fundamental_div_mod(k, pe);
                    vstd::arithmetic::div_mod::lemma_mod_bound(k, pe);
                    vstd::arithmetic::mul::lemma_mul_inequality(c.len() as int, k / pe, pe);
                    assert(pe * (k / pe) >= pe * (c.len() as int)) by (nonlinear_arith)
                        requires
                            (c.len() as int) * pe <= (k / pe) * pe,
                    ;
                    assert(pe * (c.len() as int) == (c.len() as int) * pe) by (nonlinear_arith);
                }
            }
            assert(in_field(c[k / pe]));
        }
    }
    crate::ntt::lemma_ntt_roundtrip(sp, n_bits);
    assert(evaluate_row(rep_row(c, e), n_bits, e) == evaluate_row(sp, n_bits, 0));
}
} // verus!
