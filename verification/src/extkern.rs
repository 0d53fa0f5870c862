//! Kernels whose arithmetic runs in the degree-4 extension field:
//! arbitrary-point polynomial evaluation, FRI folding, columnwise
//! extension sums, and the randomized mixing of polynomial coefficients.
use vstd::arithmetic::power2::pow2;
use vstd::prelude::*;

use crate::cpu::{
    frames_ext_write, seq_load, seq_store, wf_elems, wf_exts, BufferElem, BufferExtElem, BufferU32,
    CpuHal,
};
use crate::extfield::{
    eadd, emul, epow, escale, ext_of_base, ext_val, ext_wf, ext_zero, ExtElem,
};
use crate::field::Elem;
use crate::ntt::{elem_vals, ilog2, row_vals};

verus! {

/// The tuple values of an extension-element sequence.
pub open spec fn ext_vals(s: Seq<ExtElem>) -> Seq<(int, int, int, int)> {
    Seq::new(s.len(), |i: int| ext_val(s[i]))
}

/// The j-th extension value of a base-element row laid out as 4
/// consecutive base elements per extension element.
pub open spec fn ext_at(vals: Seq<int>, j: int) -> (int, int, int, int) {
    (vals[4 * j], vals[4 * j + 1], vals[4 * j + 2], vals[4 * j + 3])
}

/// Horner evaluation of the polynomial with base coefficients s (low
/// index first) at the extension point x.
pub open spec fn peval(s: Seq<int>, x: (int, int, int, int)) -> (int, int, int, int)
    decreases s.len(),
{
    if s.len() == 0 {
        ext_zero()
    } else {
        eadd(ext_of_base(s[0]), emul(x, peval(s.subrange(1, s.len() as int), x)))
    }
}

/// The FRI fold of group i: sum over k < fold of in[i*fold + k] * mix^k.
pub open spec fn fri_sum(inv: Seq<int>, mix: (int, int, int, int), i: int, k: nat) -> (
    int,
    int,
    int,
    int,
)
    decreases k,
{
    if k == 0 {
        ext_zero()
    } else {
        eadd(
            fri_sum(inv, mix, i, (k - 1) as nat),
            emul(ext_at(inv, i * (crate::FRI_FOLD as int) + (k - 1)), epow(mix, (k - 1) as nat)),
        )
    }
}

/// The sum of column gid over the first k rows of a column-major matrix
/// of extension values.
pub open spec fn col_sum(xs: Seq<(int, int, int, int)>, count: int, gid: int, k: nat) -> (
    int,
    int,
    int,
    int,
)
    decreases k,
{
    if k == 0 {
        ext_zero()
    } else {
        eadd(col_sum(xs, count, gid, (k - 1) as nat), xs[(k - 1) * count + gid])
    }
}

/// Accumulating one input row into the mixed output: for each column c
/// processed so far, out[id*count + c] += in[c + i*count] * w.
pub open spec fn mix_row(
    out: Seq<(int, int, int, int)>,
    invals: Seq<int>,
    id: int,
    w: (int, int, int, int),
    i: int,
    count: int,
    c: nat,
) -> Seq<(int, int, int, int)>
    decreases c,
{
    if c == 0 {
        out
    } else {
        let o = mix_row(out, invals, id, w, i, count, (c - 1) as nat);
        o.update(
            id * count + (c - 1),
            eadd(o[id * count + (c - 1)], escale(invals[(c - 1) + i * count], w)),
        )
    }
}

/// Accumulating the first i input rows, row r with combo weight
/// mix_start * mix^combos[r].
pub open spec fn mix_rows(
    out: Seq<(int, int, int, int)>,
    invals: Seq<int>,
    combos: Seq<u32>,
    ms: (int, int, int, int),
    mx: (int, int, int, int),
    count: int,
    i: nat,
) -> Seq<(int, int, int, int)>
    decreases i,
{
    if i == 0 {
        out
    } else {
        let o = mix_rows(out, invals, combos, ms, mx, count, (i - 1) as nat);
        mix_row(
            o,
            invals,
            combos[i - 1] as int,
            emul(ms, epow(mx, combos[i - 1] as nat)),
            i - 1,
            count,
            count as nat,
        )
    }
}

/// mix_row keeps the output length.
pub proof fn lemma_mix_row_len(
    out: Seq<(int, int, int, int)>,
    invals: Seq<int>,
    id: int,
    w: (int, int, int, int),
    i: int,
    count: int,
    c: nat,
)
    requires
        count >= 1,
        id >= 0,
        (id + 1) * count <= out.len(),
        c <= count,
    ensures
        mix_row(out, invals, id, w, i, count, c).len() == out.len(),
    decreases c,
{
    if c == 0 {
    } else {
        lemma_mix_row_len(out, invals, id, w, i, count, (c - 1) as nat);
        assert((id + 1) * count == id * count + count) by (nonlinear_arith);
        assert(id * count >= 0) by (nonlinear_arith)
            requires
                id >= 0,
                count >= 0,
        ;
    }
}

/// mix_rows keeps the output length.
pub proof fn lemma_mix_rows_len(
    out: Seq<(int, int, int, int)>,
    invals: Seq<int>,
    combos: Seq<u32>,
    ms: (int, int, int, int),
    mx: (int, int, int, int),
    count: int,
    i: nat,
)
    requires
        count >= 1,
        i <= combos.len(),
        forall|t: int|
            0 <= t < combos.len() ==> ((#[trigger] combos[t] as int) + 1) * count <= out.len(),
    ensures
        mix_rows(out, invals, combos, ms, mx, count, i).len() == out.len(),
    decreases i,
{
    if i == 0 {
    } else {
        lemma_mix_rows_len(out, invals, combos, ms, mx, count, (i - 1) as nat);
        lemma_mix_row_len(
            mix_rows(out, invals, combos, ms, mx, count, (i - 1) as nat),
            invals,
            combos[i - 1] as int,
            emul(ms, epow(mx, combos[i - 1] as nat)),
            i - 1,
            count,
            count as nat,
        );
    }
}

impl CpuHal {
    /// For each requested index i: out[i] is the polynomial with
    /// coefficient row which[i] of `coeffs` evaluated at xs[i] in the
    /// extension field, by Horner's rule.
    pub fn batch_evaluate_any(
        &mut self,
        coeffs: &BufferElem,
        poly_count: usize,
        which: &BufferU32,
        xs: &BufferExtElem,
        out: &BufferExtElem,
    )
        requires
            old(self).wf(),
            old(self).elem_ok(*coeffs),
            old(self).u32_ok(*which),
            old(self).ext_ok(*xs),
            old(self).ext_ok(*out),
            poly_count >= 1,
            coeffs.size == poly_count * (coeffs.size / poly_count),
            coeffs.size / poly_count >= 1,
            pow2(ilog2((coeffs.size / poly_count) as nat)) == coeffs.size / poly_count,
            xs.size == which.size,
            out.size == which.size,
            forall|i: int|
                0 <= i < which.size ==> (#[trigger] old(self).u32_seq(*which)[i] as int)
                    < poly_count,
        ensures
            final(self).wf(),
            final(self).ext_ok(*out),
            frames_ext_write(*old(self), *final(self), out.offset as int, out.size as int),
            forall|i: int|
                0 <= i < out.size ==> ext_val(#[trigger] final(self).ext_seq(*out)[i]) == peval(
                    row_vals(
                        old(self).elem_seq(*coeffs),
                        old(self).u32_seq(*which)[i] as int,
                        (coeffs.size / poly_count) as int,
                    ),
                    ext_val(old(self).ext_seq(*xs)[i]),
                ),
    {
        let count: usize = coeffs.size / poly_count;
        let cv = seq_load(&self.e_mem, coeffs.offset, coeffs.size);
        let wv = seq_load(&self.u_mem, which.offset, which.size);
        let xv = seq_load(&self.x_mem, xs.offset, xs.size);
        proof {
            crate::cpu::lemma_wf_elems_subrange(
                self.e_mem@,
                coeffs.offset as int,
                coeffs.offset + coeffs.size,
            );
            assert forall|i: int| 0 <= i < xv@.len() implies ext_wf(#[trigger] xv@[i]) by {
                assert(xv@[i] == self.x_mem@[xs.offset + i]);
            }
            assert forall|t: int| 0 <= t < which.size implies (#[trigger] wv@[t] as int)
                < poly_count by {
                assert(wv@[t] == self.u_mem@[which.offset + t]);
                assert(old(self).u32_seq(*which)[t] == self.u_mem@[which.offset + t]);
            }
        }
        let mut ov: Vec<ExtElem> = Vec::new();
        let mut i: usize = 0;
        while i < out.size
            invariant
                wf_elems(cv@),
                cv@.len() == coeffs.size,
                wv@.len() == which.size,
                xv@.len() == xs.size,
                wf_exts(xv@),
                out.size == which.size,
                xs.size == which.size,
                poly_count >= 1,
                count >= 1,
                coeffs.size == poly_count * count,
                forall|t: int| 0 <= t < which.size ==> (#[trigger] wv@[t] as int) < poly_count,
                i <= out.size,
                ov@.len() == i,
                wf_exts(ov@),
                forall|t: int|
                    0 <= t < i ==> ext_val(#[trigger] ov@[t]) == peval(
                        elem_vals(cv@).subrange(
                            (wv@[t] as int) * (count as int),
                            (wv@[t] as int) * (count as int) + (count as int),
                        ),
                        ext_val(xv@[t]),
                    ),
            decreases out.size - i,
        {
            let w: usize = wv[i] as usize;
            proof {
                vstd::arithmetic::mul::lemma_mul_inequality(
                    w + 1,
                    poly_count as int,
                    count as int,
                );
                assert((w + 1) * count == w * count + count) by (nonlinear_arith);
                assert(w * count >= 0) by (nonlinear_arith)
                    requires
                        w >= 0,
                        count >= 0,
                ;
            }
            let base: usize = w * count;
            let ghost s = elem_vals(cv@).subrange(
                (w as int) * (count as int),
                (w as int) * (count as int) + (count as int),
            );
            let x = xv[i];
            let mut acc = ExtElem::zero();
            let mut j: usize = count;
            proof {
                assert(s.subrange(count as int, count as int) =~= Seq::<int>::empty());
                assert(peval(s.subrange(count as int, count as int), ext_val(x)) == ext_zero());
            }
            while j > 0
                invariant
                    wf_elems(cv@),
                    cv@.len() == coeffs.size,
                    ext_wf(x),
                    base == w * count,
                    base + count <= coeffs.size,
                    count >= 1,
                    j <= count,
                    s == elem_vals(cv@).subrange(
                        (w as int) * (count as int),
                        (w as int) * (count as int) + (count as int),
                    ),
                    s.len() == count,
                    ext_wf(acc),
                    ext_val(acc) == peval(s.subrange(j as int, count as int), ext_val(x)),
                decreases j,
            {
                let c = cv[base + (j - 1)];
                let term = ExtElem::from_base(c);
                let next = term.add(x.mul(acc));
                proof {
                    let sj = s.subrange(j - 1, count as int);
                    assert(sj.subrange(1, sj.len() as int) =~= s.subrange(j as int, count as int));
                    assert(sj[0] == s[j - 1]);
                    assert(s[j - 1] == cv@[base + (j - 1)].val());
                    assert(peval(sj, ext_val(x)) == eadd(
                        ext_of_base(sj[0]),
                        emul(ext_val(x), peval(sj.subrange(1, sj.len() as int), ext_val(x))),
                    ));
                }
                acc = next;
                j = j - 1;
            }
            ov.push(acc);
            proof {
                assert(s.subrange(0, count as int) =~= s);
            }
            i = i + 1;
        }
        let ghost pre_store = self.x_mem@;
        seq_store(&mut self.x_mem, out.offset, &ov);
        proof {
            crate::cpu::lemma_wf_exts_store(pre_store, self.x_mem@, out.offset as int, ov@);
            assert forall|i: int| 0 <= i < out.size implies ext_val(
                #[trigger] final(self).ext_seq(*out)[i],
            ) == peval(
                row_vals(
                    old(self).elem_seq(*coeffs),
                    old(self).u32_seq(*which)[i] as int,
                    count as int,
                ),
                ext_val(old(self).ext_seq(*xs)[i]),
            ) by {
                let wi = old(self).u32_seq(*which)[i] as int;
                assert(wv@[i] == old(self).u_mem@[which.offset + i]);
                assert(final(self).ext_seq(*out)[i] == final(self).x_mem@[out.offset + i]);
                assert(final(self).x_mem@[out.offset + i] == ov@[i]);
                assert(xv@[i] == old(self).x_mem@[xs.offset + i]);
                assert(old(self).ext_seq(*xs)[i] == old(self).x_mem@[xs.offset + i]);
                vstd::arithmetic::mul::lemma_mul_inequality(
                    wi + 1,
                    poly_count as int,
                    count as int,
                );
                assert((wi + 1) * count == wi * count + count) by (nonlinear_arith);
                assert(wi * count >= 0) by (nonlinear_arith)
                    requires
                        wi >= 0,
                        count >= 0,
                ;
                assert(elem_vals(cv@).subrange(
                    wi * (count as int),
                    wi * (count as int) + (count as int),
                ) =~= row_vals(old(self).elem_seq(*coeffs), wi, count as int)) by {
                    assert forall|t: int| 0 <= t < count implies elem_vals(cv@).subrange(
                        wi * (count as int),
                        wi * (count as int) + (count as int),
                    )[t] == row_vals(old(self).elem_seq(*coeffs), wi, count as int)[t] by {
                        assert(cv@[wi * (count as int) + t] == old(self).e_mem@[coeffs.offset + wi
                            * (count as int) + t]);
                        assert(old(self).elem_seq(*coeffs)[wi * (count as int) + t] == old(self).e_mem@[coeffs.offset + wi * (count as int) + t]);
                    }
                }
            }
        }
    }

    /// Folds each group of FRI_FOLD consecutive extension values of the
    /// input (stored as base elements) into one extension value of the
    /// output: out[i] = sum over k of in[i*FRI_FOLD + k] * mix^k.
    pub fn fri_fold(&mut self, output: &BufferElem, input: &BufferElem, mix: &ExtElem)
        requires
            old(self).wf(),
            old(self).elem_ok(*output),
            old(self).elem_ok(*input),
            ext_wf(*mix),
            output.size == 4 * (output.size / 4),
            input.size == output.size * crate::FRI_FOLD,
        ensures
            final(self).wf(),
            final(self).elem_ok(*output),
            crate::cpu::frames_elem_write(
                *old(self),
                *final(self),
                output.offset as int,
                output.size as int,
            ),
            forall|i: int|
                0 <= i < output.size / 4 ==> #[trigger] ext_at(
                    elem_vals(final(self).elem_seq(*output)),
                    i,
                ) == fri_sum(
                    elem_vals(old(self).elem_seq(*input)),
                    ext_val(*mix),
                    i,
                    crate::FRI_FOLD as nat,
                ),
    {
        let count: usize = output.size / 4;
        let fold: usize = crate::FRI_FOLD;
        let iv = seq_load(&self.e_mem, input.offset, input.size);
        proof {
            crate::cpu::lemma_wf_elems_subrange(
                self.e_mem@,
                input.offset as int,
                input.offset + input.size,
            );
        }
        let mut ov: Vec<Elem> = Vec::new();
        let mut i: usize = 0;
        while i < count
            invariant
                wf_elems(iv@),
                iv@.len() == input.size,
                input.size == output.size * 16,
                output.size == 4 * count,
                fold == 16,
                ext_wf(*mix),
                i <= count,
                ov@.len() == 4 * i,
                wf_elems(ov@),
                forall|t: int|
                    0 <= t < i ==> #[trigger] ext_at(elem_vals(ov@), t) == fri_sum(
                        elem_vals(iv@),
                        ext_val(*mix),
                        t,
                        16,
                    ),
            decreases count - i,
        {
            let mut acc = ExtElem::zero();
            let mut cur = ExtElem::one();
            let mut k: usize = 0;
            proof {
                assert(i * 64 + 64 <= count * 64) by (nonlinear_arith)
                    requires
                        i < count,
                ;
                assert(input.size == count * 64) by (nonlinear_arith)
                    requires
                        input.size == output.size * 16,
                        output.size == 4 * count,
                ;
            }
            while k < 16
                invariant
                    wf_elems(iv@),
                    iv@.len() == input.size,
                    i * 64 + 64 <= input.size,
                    ext_wf(*mix),
                    k <= 16,
                    ext_wf(acc),
                    ext_wf(cur),
                    ext_val(acc) == fri_sum(elem_vals(iv@), ext_val(*mix), i as int, k as nat),
                    ext_val(cur) == epow(ext_val(*mix), k as nat),
                decreases 16 - k,
            {
                let b = i * 64 + 4 * k;
                let v = ExtElem::from_elems(iv[b], iv[b + 1], iv[b + 2], iv[b + 3]);
                proof {
                    assert(elem_vals(iv@)[b as int] == iv@[b as int].val());
                    assert(elem_vals(iv@)[b + 1] == iv@[b + 1].val());
                    assert(elem_vals(iv@)[b + 2] == iv@[b + 2].val());
                    assert(elem_vals(iv@)[b + 3] == iv@[b + 3].val());
                    assert(4 * ((i as int) * 16 + (k as int)) == b) by (nonlinear_arith)
                        requires
                            b == i * 64 + 4 * k,
                    ;
                    assert(ext_val(v) == ext_at(elem_vals(iv@), (i as int) * 16 + (k as int)));
                }
                acc = acc.add(v.mul(cur));
                cur = cur.mul(*mix);
                k = k + 1;
            }
            let ghost ov_prev = ov@;
            ov.push(acc.c0);
            ov.push(acc.c1);
            ov.push(acc.c2);
            ov.push(acc.c3);
            proof {
                assert forall|t: int| 0 <= t < i + 1 implies #[trigger] ext_at(
                    elem_vals(ov@),
                    t,
                ) == fri_sum(elem_vals(iv@), ext_val(*mix), t, 16) by {
                    assert(elem_vals(ov@)[4 * t] == ov@[4 * t].val());
                    assert(elem_vals(ov@)[4 * t + 1] == ov@[4 * t + 1].val());
                    assert(elem_vals(ov@)[4 * t + 2] == ov@[4 * t + 2].val());
                    assert(elem_vals(ov@)[4 * t + 3] == ov@[4 * t + 3].val());
                    if t < i {
                        assert(ext_at(elem_vals(ov_prev), t) == fri_sum(
                            elem_vals(iv@),
                            ext_val(*mix),
                            t,
                            16,
                        ));
                        assert(elem_vals(ov_prev)[4 * t] == ov_prev[4 * t].val());
                        assert(elem_vals(ov_prev)[4 * t + 1] == ov_prev[4 * t + 1].val());
                        assert(elem_vals(ov_prev)[4 * t + 2] == ov_prev[4 * t + 2].val());
                        assert(elem_vals(ov_prev)[4 * t + 3] == ov_prev[4 * t + 3].val());
                        assert(ov@[4 * t] == ov_prev[4 * t]);
                        assert(ov@[4 * t + 1] == ov_prev[4 * t + 1]);
                        assert(ov@[4 * t + 2] == ov_prev[4 * t + 2]);
                        assert(ov@[4 * t + 3] == ov_prev[4 * t + 3]);
                    }
                }
            }
            i = i + 1;
        }
        let ghost pre_store = self.e_mem@;
        seq_store(&mut self.e_mem, output.offset, &ov);
        proof {
            crate::cpu::lemma_wf_elems_store(
                pre_store,
                self.e_mem@,
                output.offset as int,
                ov@,
            );
            assert forall|i: int| 0 <= i < count implies #[trigger] ext_at(
                elem_vals(final(self).elem_seq(*output)),
                i,
            ) == fri_sum(
                elem_vals(old(self).elem_seq(*input)),
                ext_val(*mix),
                i,
                16,
            ) by {
                assert(elem_vals(final(self).elem_seq(*output))[4 * i] == final(self).e_mem@[output.offset + 4 * i].val());
                assert(elem_vals(final(self).elem_seq(*output))[4 * i + 1] == final(self).e_mem@[output.offset + 4 * i + 1].val());
                assert(elem_vals(final(self).elem_seq(*output))[4 * i + 2] == final(self).e_mem@[output.offset + 4 * i + 2].val());
                assert(elem_vals(final(self).elem_seq(*output))[4 * i + 3] == final(self).e_mem@[output.offset + 4 * i + 3].val());
                assert(final(self).e_mem@[output.offset + 4 * i] == ov@[4 * i]);
                assert(final(self).e_mem@[output.offset + 4 * i + 1] == ov@[4 * i + 1]);
                assert(final(self).e_mem@[output.offset + 4 * i + 2] == ov@[4 * i + 2]);
                assert(final(self).e_mem@[output.offset + 4 * i + 3] == ov@[4 * i + 3]);
                assert(ext_at(elem_vals(ov@), i) == fri_sum(
                    elem_vals(iv@),
                    ext_val(*mix),
                    i,
                    16,
                ));
                assert(elem_vals(iv@) =~= elem_vals(old(self).elem_seq(*input))) by {
                    assert forall|t: int| 0 <= t < input.size implies elem_vals(iv@)[t]
                        == elem_vals(old(self).elem_seq(*input))[t] by {
                        assert(iv@[t] == old(self).e_mem@[input.offset + t]);
                        assert(old(self).elem_seq(*input)[t] == old(self).e_mem@[input.offset
                            + t]);
                    }
                }
            }
        }
    }

    /// Sums each column of a column-major matrix of extension values into
    /// the matching extension slot of the output, which is stored as base
    /// elements in the 4-wide extension layout.
    pub fn eltwise_sum_extelem(&mut self, output: &BufferElem, input: &BufferExtElem)
        requires
            old(self).wf(),
            old(self).elem_ok(*output),
            old(self).ext_ok(*input),
            output.size == 4 * (output.size / 4),
            output.size / 4 >= 1,
            input.size == (output.size / 4) * (input.size / (output.size / 4)),
        ensures
            final(self).wf(),
            final(self).elem_ok(*output),
            crate::cpu::frames_elem_write(
                *old(self),
                *final(self),
                output.offset as int,
                output.size as int,
            ),
            forall|gid: int|
                0 <= gid < output.size / 4 ==> #[trigger] ext_at(
                    elem_vals(final(self).elem_seq(*output)),
                    gid,
                ) == col_sum(
                    ext_vals(old(self).ext_seq(*input)),
                    (output.size / 4) as int,
                    gid,
                    (input.size / (output.size / 4)) as nat,
                ),
    {
        let count: usize = output.size / 4;
        let to_add: usize = input.size / count;
        let iv = seq_load(&self.x_mem, input.offset, input.size);
        proof {
            assert forall|t: int| 0 <= t < iv@.len() implies ext_wf(#[trigger] iv@[t]) by {
                assert(iv@[t] == self.x_mem@[input.offset + t]);
            }
        }
        let mut ov: Vec<Elem> = Vec::new();
        let mut gid: usize = 0;
        while gid < count
            invariant
                wf_exts(iv@),
                iv@.len() == input.size,
                input.size == count * to_add,
                output.size == 4 * count,
                count >= 1,
                gid <= count,
                ov@.len() == 4 * gid,
                wf_elems(ov@),
                forall|t: int|
                    0 <= t < gid ==> #[trigger] ext_at(elem_vals(ov@), t) == col_sum(
                        ext_vals(iv@),
                        count as int,
                        t,
                        to_add as nat,
                    ),
            decreases count - gid,
        {
            let mut acc = ExtElem::zero();
            let mut k: usize = 0;
            while k < to_add
                invariant
                    wf_exts(iv@),
                    iv@.len() == input.size,
                    input.size == count * to_add,
                    gid < count,
                    count >= 1,
                    k <= to_add,
                    ext_wf(acc),
                    ext_val(acc) == col_sum(ext_vals(iv@), count as int, gid as int, k as nat),
                decreases to_add - k,
            {
                proof {
                    vstd::arithmetic::mul::lemma_mul_inequality(
                        k + 1,
                        to_add as int,
                        count as int,
                    );
                    assert((k + 1) * count == k * count + count) by (nonlinear_arith);
                    assert(k * count >= 0) by (nonlinear_arith)
                        requires
                            k >= 0,
                            count >= 0,
                    ;
                    assert(to_add * count == count * to_add) by (nonlinear_arith);
                    assert(ext_vals(iv@)[k * count + gid] == ext_val(iv@[k * count + gid]));
                }
                acc = acc.add(iv[k * count + gid]);
                k = k + 1;
            }
            let ghost ov_prev = ov@;
            ov.push(acc.c0);
            ov.push(acc.c1);
            ov.push(acc.c2);
            ov.push(acc.c3);
            proof {
                assert forall|t: int| 0 <= t < gid + 1 implies #[trigger] ext_at(
                    elem_vals(ov@),
                    t,
                ) == col_sum(ext_vals(iv@), count as int, t, to_add as nat) by {
                    assert(elem_vals(ov@)[4 * t] == ov@[4 * t].val());
                    assert(elem_vals(ov@)[4 * t + 1] == ov@[4 * t + 1].val());
                    assert(elem_vals(ov@)[4 * t + 2] == ov@[4 * t + 2].val());
                    assert(elem_vals(ov@)[4 * t + 3] == ov@[4 * t + 3].val());
                    if t < gid {
                        assert(ext_at(elem_vals(ov_prev), t) == col_sum(
                            ext_vals(iv@),
                            count as int,
                            t,
                            to_add as nat,
                        ));
                        assert(elem_vals(ov_prev)[4 * t] == ov_prev[4 * t].val());
                        assert(elem_vals(ov_prev)[4 * t + 1] == ov_prev[4 * t + 1].val());
                        assert(elem_vals(ov_prev)[4 * t + 2] == ov_prev[4 * t + 2].val());
                        assert(elem_vals(ov_prev)[4 * t + 3] == ov_prev[4 * t + 3].val());
                        assert(ov@[4 * t] == ov_prev[4 * t]);
                        assert(ov@[4 * t + 1] == ov_prev[4 * t + 1]);
                        assert(ov@[4 * t + 2] == ov_prev[4 * t + 2]);
                        assert(ov@[4 * t + 3] == ov_prev[4 * t + 3]);
                    }
                }
            }
            gid = gid + 1;
        }
        let ghost pre_store = self.e_mem@;
        seq_store(&mut self.e_mem, output.offset, &ov);
        proof {
            crate::cpu::lemma_wf_elems_store(
                pre_store,
                self.e_mem@,
                output.offset as int,
                ov@,
            );
            assert forall|gid: int| 0 <= gid < count implies #[trigger] ext_at(
                elem_vals(final(self).elem_seq(*output)),
                gid,
            ) == col_sum(
                ext_vals(old(self).ext_seq(*input)),
                count as int,
                gid,
                to_add as nat,
            ) by {
                assert(elem_vals(final(self).elem_seq(*output))[4 * gid] == final(self).e_mem@[output.offset + 4 * gid].val());
                assert(elem_vals(final(self).elem_seq(*output))[4 * gid + 1] == final(self).e_mem@[output.offset + 4 * gid + 1].val());
                assert(elem_vals(final(self).elem_seq(*output))[4 * gid + 2] == final(self).e_mem@[output.offset + 4 * gid + 2].val());
                assert(elem_vals(final(self).elem_seq(*output))[4 * gid + 3] == final(self).e_mem@[output.offset + 4 * gid + 3].val());
                assert(final(self).e_mem@[output.offset + 4 * gid] == ov@[4 * gid]);
                assert(final(self).e_mem@[output.offset + 4 * gid + 1] == ov@[4 * gid + 1]);
                assert(final(self).e_mem@[output.offset + 4 * gid + 2] == ov@[4 * gid + 2]);
                assert(final(self).e_mem@[output.offset + 4 * gid + 3] == ov@[4 * gid + 3]);
                assert(ext_at(elem_vals(ov@), gid) == col_sum(
                    ext_vals(iv@),
                    count as int,
                    gid,
                    to_add as nat,
                ));
                assert(ext_vals(iv@) =~= ext_vals(old(self).ext_seq(*input))) by {
                    assert forall|t: int| 0 <= t < input.size implies ext_vals(iv@)[t]
                        == ext_vals(old(self).ext_seq(*input))[t] by {
                        assert(iv@[t] == old(self).x_mem@[input.offset + t]);
                        assert(old(self).ext_seq(*input)[t] == old(self).x_mem@[input.offset
                            + t]);
                    }
                }
            }
        }
    }

    /// Accumulates each input row i, weighted by mix_start * mix^combos[i],
    /// into output slot combos[i], column by column, in the extension
    /// field.
    pub fn mix_poly_coeffs(
        &mut self,
        output: &BufferExtElem,
        mix_start: &ExtElem,
        mix: &ExtElem,
        input: &BufferElem,
        combos: &BufferU32,
        input_size: usize,
        count: usize,
    )
        requires
            old(self).wf(),
            old(self).ext_ok(*output),
            old(self).elem_ok(*input),
            old(self).u32_ok(*combos),
            ext_wf(*mix_start),
            ext_wf(*mix),
            count >= 1,
            input.size == input_size * count,
            combos.size == input_size,
            output.size == count * (output.size / count),
            forall|i: int|
                0 <= i < input_size ==> ((#[trigger] old(self).u32_seq(*combos)[i] as int) + 1)
                    * count <= output.size,
        ensures
            final(self).wf(),
            final(self).ext_ok(*output),
            frames_ext_write(*old(self), *final(self), output.offset as int, output.size as int),
            ext_vals(final(self).ext_seq(*output)) =~= mix_rows(
                ext_vals(old(self).ext_seq(*output)),
                elem_vals(old(self).elem_seq(*input)),
                old(self).u32_seq(*combos),
                ext_val(*mix_start),
                ext_val(*mix),
                count as int,
                input_size as nat,
            ),
    {
        let iv = seq_load(&self.e_mem, input.offset, input.size);
        let cmb = seq_load(&self.u_mem, combos.offset, combos.size);
        let mut ov = seq_load(&self.x_mem, output.offset, output.size);
        proof {
            crate::cpu::lemma_wf_elems_subrange(
                self.e_mem@,
                input.offset as int,
                input.offset + input.size,
            );
            assert forall|t: int| 0 <= t < ov@.len() implies ext_wf(#[trigger] ov@[t]) by {
                assert(ov@[t] == self.x_mem@[output.offset + t]);
            }
            assert forall|t: int| 0 <= t < input_size implies ((#[trigger] cmb@[t] as int) + 1)
                * count <= output.size by {
                assert(cmb@[t] == self.u_mem@[combos.offset + t]);
                assert(old(self).u32_seq(*combos)[t] == self.u_mem@[combos.offset + t]);
            }
        }
        let ghost out0 = ext_vals(ov@);
        let ghost invals = elem_vals(iv@);
        let ghost cseq = cmb@;
        let ghost ms = ext_val(*mix_start);
        let ghost mx = ext_val(*mix);
        let mut i: usize = 0;
        while i < input_size
            invariant
                wf_elems(iv@),
                iv@.len() == input.size,
                cmb@.len() == input_size,
                invals == elem_vals(iv@),
                cseq == cmb@,
                ms == ext_val(*mix_start),
                mx == ext_val(*mix),
                ext_wf(*mix_start),
                ext_wf(*mix),
                count >= 1,
                input.size == input_size * count,
                out0.len() == output.size,
                output.size == count * (output.size / count),
                forall|t: int|
                    0 <= t < input_size ==> ((#[trigger] cmb@[t] as int) + 1) * count
                        <= output.size,
                i <= input_size,
                ov@.len() == output.size,
                wf_exts(ov@),
                ext_vals(ov@) =~= mix_rows(out0, invals, cseq, ms, mx, count as int, i as nat),
            decreases input_size - i,
        {
            let id: usize = cmb[i] as usize;
            let w = mix_start.mul(mix.pow(id));
            let ghost wv = emul(ms, epow(mx, id as nat));
            let ghost inner0 = ext_vals(ov@);
            proof {
                assert((id + 1) * count == id * count + count) by (nonlinear_arith);
                assert(id * count >= 0) by (nonlinear_arith)
                    requires
                        id >= 0,
                        count >= 0,
                ;
                assert(mix_row(inner0, invals, id as int, wv, i as int, count as int, 0nat)
                    == inner0);
                vstd::arithmetic::mul::lemma_mul_inequality(
                    i + 1,
                    input_size as int,
                    count as int,
                );
                assert((i + 1) * count == i * count + count) by (nonlinear_arith);
                assert(i * count >= 0) by (nonlinear_arith)
                    requires
                        i >= 0,
                        count >= 0,
                ;
                assert(input_size * count == count * input_size) by (nonlinear_arith);
            }
            let olen: usize = ov.len();
            let mut c: usize = 0;
            while c < count
                invariant
                    wf_elems(iv@),
                    iv@.len() == input.size,
                    invals == elem_vals(iv@),
                    ov@.len() == olen,
                    ext_wf(w),
                    ext_val(w) == wv,
                    count >= 1,
                    i < input_size,
                    input.size == input_size * count,
                    (i + 1) * count <= input.size,
                    (i + 1) * count == i * count + count,
                    i * count >= 0,
                    (id + 1) * count <= ov@.len(),
                    (id + 1) * count == id * count + count,
                    id * count >= 0,
                    inner0.len() == ov@.len(),
                    c <= count,
                    ov@.len() == inner0.len(),
                    wf_exts(ov@),
                    ext_vals(ov@) =~= mix_row(
                        inner0,
                        invals,
                        id as int,
                        wv,
                        i as int,
                        count as int,
                        c as nat,
                    ),
                decreases count - c,
            {
                proof {
                    lemma_mix_row_len(
                        inner0,
                        invals,
                        id as int,
                        wv,
                        i as int,
                        count as int,
                        c as nat,
                    );
                }
                let idx: usize = id * count + c;
                let term = w.scale(iv[c + i * count]);
                let ghost pre = ext_vals(ov@);
                let updated = ov[idx].add(term);
                ov[idx] = updated;
                proof {
                    lemma_mix_row_len(
                        inner0,
                        invals,
                        id as int,
                        wv,
                        i as int,
                        count as int,
                        (c + 1) as nat,
                    );
                    assert(invals[(c as int) + (i as int) * (count as int)] == iv@[c + i
                        * count].val());
                    assert(ext_vals(ov@) =~= pre.update(idx as int, ext_val(updated))) by {
                        assert forall|t: int| 0 <= t < ov@.len() implies ext_vals(ov@)[t]
                            == pre.update(idx as int, ext_val(updated))[t] by {
                        }
                    }
                }
                c = c + 1;
            }
            i = i + 1;
        }
        let ghost pre_store = self.x_mem@;
        seq_store(&mut self.x_mem, output.offset, &ov);
        proof {
            crate::cpu::lemma_wf_exts_store(pre_store, self.x_mem@, output.offset as int, ov@);
            lemma_mix_rows_len(out0, invals, cseq, ms, mx, count as int, input_size as nat);
            assert(out0 =~= ext_vals(old(self).ext_seq(*output))) by {
                assert forall|t: int| 0 <= t < output.size implies out0[t] == ext_vals(
                    old(self).ext_seq(*output),
                )[t] by {
                    assert(old(self).ext_seq(*output)[t] == old(self).x_mem@[output.offset + t]);
                }
            }
            assert(invals =~= elem_vals(old(self).elem_seq(*input))) by {
                assert forall|t: int| 0 <= t < input.size implies invals[t] == elem_vals(
                    old(self).elem_seq(*input),
                )[t] by {
                    assert(iv@[t] == old(self).e_mem@[input.offset + t]);
                    assert(old(self).elem_seq(*input)[t] == old(self).e_mem@[input.offset + t]);
                }
            }
            assert(cseq =~= old(self).u32_seq(*combos)) by {
                assert forall|t: int| 0 <= t < input_size implies cseq[t] == old(self).u32_seq(
                    *combos,
                )[t] by {
                    assert(cmb@[t] == old(self).u_mem@[combos.offset + t]);
                }
            }
            assert forall|t: int| 0 <= t < output.size implies ext_vals(
                final(self).ext_seq(*output),
            )[t] == ext_vals(ov@)[t] by {
                assert(final(self).ext_seq(*output)[t] == final(self).x_mem@[output.offset + t]);
                assert(final(self).x_mem@[output.offset + t] == ov@[t]);
            }
        }
    }
}

} // verus!
