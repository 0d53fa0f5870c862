//! The circuit eval-check: the composition kernel that evaluates the
//! constraint polynomial over the whole low-degree-extension domain,
//! folding the individual constraints into one extension value per domain
//! index with the random mixer poly_mix.
use vstd::prelude::*;

use crate::cpu::{
    frames_elem_write, seq_load, seq_store, wf_elems, BufferElem, CpuHal,
};
use crate::extfield::{eadd, emul, ext_of_base, ext_val, ext_wf, ExtElem};
use crate::field::{fadd, fmul, fsub, Elem};
use crate::ntt::elem_vals;

verus! {

/// Number of mixing constants the protocol hands to the circuit.
pub const MIX_SIZE: usize = 4;

/// Number of public-output words the protocol hands to the circuit.
pub const OUTPUT_SIZE: usize = 2;

/// The register groups a circuit samples its taps from.
#[derive(Clone, Copy, PartialEq, Eq, Structural, Debug)]
pub enum RegisterGroup {
    Code,
    Data,
    Accum,
}

/// The static tap layout of a circuit: how many registers each group
/// contributes per domain index.
#[derive(Clone, Copy, PartialEq, Eq, Structural, Debug)]
pub struct TapSet {
    pub code_size: usize,
    pub data_size: usize,
    pub accum_size: usize,
}

impl TapSet {
    /// The register count of one group.
    pub fn group_size(&self, group: RegisterGroup) -> (s: usize)
        ensures
            group == RegisterGroup::Code ==> s == self.code_size,
            group == RegisterGroup::Data ==> s == self.data_size,
            group == RegisterGroup::Accum ==> s == self.accum_size,
    {
        match group {
            RegisterGroup::Code => self.code_size,
            RegisterGroup::Data => self.data_size,
            RegisterGroup::Accum => self.accum_size,
        }
    }
}

/// The circuit evaluated by the built-in eval-check: two code registers,
/// three data registers and two accum registers per domain index.
pub struct CircuitImpl;

impl CircuitImpl {
    pub fn new() -> (c: CircuitImpl)
        ensures
            c.get_taps_spec() == (TapSet { code_size: 2, data_size: 3, accum_size: 2 }),
    {
        CircuitImpl
    }

    /// The fixed tap layout of the built-in circuit.
    pub open spec fn get_taps_spec(self) -> TapSet {
        TapSet { code_size: 2, data_size: 3, accum_size: 2 }
    }

    pub fn get_taps(&self) -> (t: TapSet)
        ensures
            t == self.get_taps_spec(),
    {
        TapSet { code_size: 2, data_size: 3, accum_size: 2 }
    }
}

/// The constraint value the built-in circuit assigns to domain index i:
/// its three constraints, folded with poly_mix by Horner's rule. Taps are
/// column-major: register k of a group sits at position k * domain + i.
pub open spec fn cpu_check_val(
    code: Seq<int>,
    data: Seq<int>,
    accum: Seq<int>,
    mix: Seq<int>,
    out: Seq<int>,
    poly_mix: (int, int, int, int),
    domain: int,
    i: int,
) -> (int, int, int, int) {
    let c0 = fmul(code[i], data[i]);
    let c1 = fsub(fmul(data[domain + i], data[2 * domain + i]), accum[i]);
    let c2 = fadd(fmul(code[domain + i], accum[domain + i]), fmul(mix[0], out[0]));
    eadd(
        ext_of_base(c0),
        emul(poly_mix, eadd(ext_of_base(c1), emul(poly_mix, ext_of_base(c2)))),
    )
}

/// An eval-check implementation: evaluates some constraint set over the
/// whole domain and writes one extension value per index into the check
/// buffer, as 4 consecutive base elements. `check_spec` names the value
/// the implementation computes for each index, so that callers' contracts
/// are exact for every implementation.
pub trait EvalCheck {
    /// The extension value this implementation writes at index i.
    spec fn check_spec(
        &self,
        code: Seq<int>,
        data: Seq<int>,
        accum: Seq<int>,
        mix: Seq<int>,
        out: Seq<int>,
        poly_mix: (int, int, int, int),
        po2: nat,
        domain: int,
        i: int,
    ) -> (int, int, int, int);

    fn eval_check(
        &self,
        hal: &mut CpuHal,
        check: &BufferElem,
        code: &BufferElem,
        data: &BufferElem,
        accum: &BufferElem,
        mix: &BufferElem,
        out: &BufferElem,
        poly_mix: ExtElem,
        po2: usize,
        steps: usize,
    )
        requires
            old(hal).wf(),
            old(hal).elem_ok(*check),
            old(hal).elem_ok(*code),
            old(hal).elem_ok(*data),
            old(hal).elem_ok(*accum),
            old(hal).elem_ok(*mix),
            old(hal).elem_ok(*out),
            ext_wf(poly_mix),
            po2 <= 25,
            steps >= 1,
            check.size == 4 * (steps * crate::INV_RATE),
            code.size == 2 * (steps * crate::INV_RATE),
            data.size == 3 * (steps * crate::INV_RATE),
            accum.size == 2 * (steps * crate::INV_RATE),
            mix.size == MIX_SIZE,
            out.size == OUTPUT_SIZE,
        ensures
            final(hal).wf(),
            final(hal).elem_ok(*check),
            frames_elem_write(*old(hal), *final(hal), check.offset as int, check.size as int),
            forall|i: int|
                0 <= i < steps * crate::INV_RATE ==> #[trigger] crate::extkern::ext_at(
                    elem_vals(final(hal).elem_seq(*check)),
                    i,
                ) == self.check_spec(
                    elem_vals(old(hal).elem_seq(*code)),
                    elem_vals(old(hal).elem_seq(*data)),
                    elem_vals(old(hal).elem_seq(*accum)),
                    elem_vals(old(hal).elem_seq(*mix)),
                    elem_vals(old(hal).elem_seq(*out)),
                    ext_val(poly_mix),
                    po2 as nat,
                    (steps * crate::INV_RATE) as int,
                    i,
                ),
    ;
}

/// The straight-line host implementation of the built-in circuit's
/// eval-check.
pub struct CpuEvalCheck;

impl CpuEvalCheck {
    pub fn new() -> (e: CpuEvalCheck) {
        CpuEvalCheck
    }
}

impl EvalCheck for CpuEvalCheck {
    open spec fn check_spec(
        &self,
        code: Seq<int>,
        data: Seq<int>,
        accum: Seq<int>,
        mix: Seq<int>,
        out: Seq<int>,
        poly_mix: (int, int, int, int),
        po2: nat,
        domain: int,
        i: int,
    ) -> (int, int, int, int) {
        cpu_check_val(code, data, accum, mix, out, poly_mix, domain, i)
    }

    fn eval_check(
        &self,
        hal: &mut CpuHal,
        check: &BufferElem,
        code: &BufferElem,
        data: &BufferElem,
        accum: &BufferElem,
        mix: &BufferElem,
        out: &BufferElem,
        poly_mix: ExtElem,
        po2: usize,
        steps: usize,
    ) {
        let domain: usize = steps * crate::INV_RATE;
        let cdv = seq_load(&hal.e_mem, code.offset, code.size);
        let dtv = seq_load(&hal.e_mem, data.offset, data.size);
        let acv = seq_load(&hal.e_mem, accum.offset, accum.size);
        let mxv = seq_load(&hal.e_mem, mix.offset, mix.size);
        let otv = seq_load(&hal.e_mem, out.offset, out.size);
        proof {
            crate::cpu::lemma_wf_elems_subrange(
                hal.e_mem@,
                code.offset as int,
                code.offset + code.size,
            );
            crate::cpu::lemma_wf_elems_subrange(
                hal.e_mem@,
                data.offset as int,
                data.offset + data.size,
            );
            crate::cpu::lemma_wf_elems_subrange(
                hal.e_mem@,
                accum.offset as int,
                accum.offset + accum.size,
            );
            crate::cpu::lemma_wf_elems_subrange(
                hal.e_mem@,
                mix.offset as int,
                mix.offset + mix.size,
            );
            crate::cpu::lemma_wf_elems_subrange(
                hal.e_mem@,
                out.offset as int,
                out.offset + out.size,
            );
        }
        let dlen: usize = dtv.len();
        let mut cv: Vec<Elem> = Vec::new();
        let mut i: usize = 0;
        while i < domain
            invariant
                dlen == 3 * domain,
                wf_elems(cdv@),
                wf_elems(dtv@),
                wf_elems(acv@),
                wf_elems(mxv@),
                wf_elems(otv@),
                cdv@.len() == 2 * domain,
                dtv@.len() == 3 * domain,
                acv@.len() == 2 * domain,
                mxv@.len() == MIX_SIZE,
                otv@.len() == OUTPUT_SIZE,
                domain >= 1,
                ext_wf(poly_mix),
                i <= domain,
                cv@.len() == 4 * i,
                wf_elems(cv@),
                forall|t: int|
                    0 <= t < i ==> #[trigger] crate::extkern::ext_at(elem_vals(cv@), t)
                        == cpu_check_val(
                        elem_vals(cdv@),
                        elem_vals(dtv@),
                        elem_vals(acv@),
                        elem_vals(mxv@),
                        elem_vals(otv@),
                        ext_val(poly_mix),
                        domain as int,
                        t,
                    ),
            decreases domain - i,
        {
            let c0 = cdv[i].mul(dtv[i]);
            let c1 = dtv[domain + i].mul(dtv[2 * domain + i]).sub(acv[i]);
            let c2 = cdv[domain + i].mul(acv[domain + i]).add(mxv[0].mul(otv[0]));
            let v = ExtElem::from_base(c0).add(
                poly_mix.mul(ExtElem::from_base(c1).add(poly_mix.mul(ExtElem::from_base(c2)))),
            );
            proof {
                assert(elem_vals(cdv@)[i as int] == cdv@[i as int].val());
                assert(elem_vals(cdv@)[domain + i] == cdv@[domain + i].val());
                assert(elem_vals(dtv@)[i as int] == dtv@[i as int].val());
                assert(elem_vals(dtv@)[domain + i] == dtv@[domain + i].val());
                assert(elem_vals(dtv@)[2 * domain + i] == dtv@[2 * domain + i].val());
                assert(elem_vals(acv@)[i as int] == acv@[i as int].val());
                assert(elem_vals(acv@)[domain + i] == acv@[domain + i].val());
                assert(elem_vals(mxv@)[0] == mxv@[0].val());
                assert(elem_vals(otv@)[0] == otv@[0].val());
            }
            let ghost cv_prev = cv@;
            cv.push(v.c0);
            cv.push(v.c1);
            cv.push(v.c2);
            cv.push(v.c3);
            proof {
                assert forall|t: int| 0 <= t < i + 1 implies #[trigger] crate::extkern::ext_at(
                    elem_vals(cv@),
                    t,
                ) == cpu_check_val(
                    elem_vals(cdv@),
                    elem_vals(dtv@),
                    elem_vals(acv@),
                    elem_vals(mxv@),
                    elem_vals(otv@),
                    ext_val(poly_mix),
                    domain as int,
                    t,
                ) by {
                    assert(elem_vals(cv@)[4 * t] == cv@[4 * t].val());
                    assert(elem_vals(cv@)[4 * t + 1] == cv@[4 * t + 1].val());
                    assert(elem_vals(cv@)[4 * t + 2] == cv@[4 * t + 2].val());
                    assert(elem_vals(cv@)[4 * t + 3] == cv@[4 * t + 3].val());
                    if t < i {
                        assert(crate::extkern::ext_at(elem_vals(cv_prev), t) == cpu_check_val(
                            elem_vals(cdv@),
                            elem_vals(dtv@),
                            elem_vals(acv@),
                            elem_vals(mxv@),
                            elem_vals(otv@),
                            ext_val(poly_mix),
                            domain as int,
                            t,
                        ));
                        assert(elem_vals(cv_prev)[4 * t] == cv_prev[4 * t].val());
                        assert(elem_vals(cv_prev)[4 * t + 1] == cv_prev[4 * t + 1].val());
                        assert(elem_vals(cv_prev)[4 * t + 2] == cv_prev[4 * t + 2].val());
                        assert(elem_vals(cv_prev)[4 * t + 3] == cv_prev[4 * t + 3].val());
                        assert(cv@[4 * t] == cv_prev[4 * t]);
                        assert(cv@[4 * t + 1] == cv_prev[4 * t + 1]);
                        assert(cv@[4 * t + 2] == cv_prev[4 * t + 2]);
                        assert(cv@[4 * t + 3] == cv_prev[4 * t + 3]);
                    }
                }
            }
            i = i + 1;
        }
        let ghost pre_store = hal.e_mem@;
        seq_store(&mut hal.e_mem, check.offset, &cv);
        proof {
            crate::cpu::lemma_wf_elems_store(pre_store, hal.e_mem@, check.offset as int, cv@);
            assert forall|t: int| 0 <= t < domain implies #[trigger] crate::extkern::ext_at(
                elem_vals(final(hal).elem_seq(*check)),
                t,
            ) == cpu_check_val(
                elem_vals(old(hal).elem_seq(*code)),
                elem_vals(old(hal).elem_seq(*data)),
                elem_vals(old(hal).elem_seq(*accum)),
                elem_vals(old(hal).elem_seq(*mix)),
                elem_vals(old(hal).elem_seq(*out)),
                ext_val(poly_mix),
                domain as int,
                t,
            ) by {
                assert(elem_vals(final(hal).elem_seq(*check))[4 * t] == final(hal).e_mem@[check.offset + 4 * t].val());
                assert(elem_vals(final(hal).elem_seq(*check))[4 * t + 1] == final(hal).e_mem@[check.offset + 4 * t + 1].val());
                assert(elem_vals(final(hal).elem_seq(*check))[4 * t + 2] == final(hal).e_mem@[check.offset + 4 * t + 2].val());
                assert(elem_vals(final(hal).elem_seq(*check))[4 * t + 3] == final(hal).e_mem@[check.offset + 4 * t + 3].val());
                assert(final(hal).e_mem@[check.offset + 4 * t] == cv@[4 * t]);
                assert(final(hal).e_mem@[check.offset + 4 * t + 1] == cv@[4 * t + 1]);
                assert(final(hal).e_mem@[check.offset + 4 * t + 2] == cv@[4 * t + 2]);
                assert(final(hal).e_mem@[check.offset + 4 * t + 3] == cv@[4 * t + 3]);
                assert(elem_vals(cv@)[4 * t] == cv@[4 * t].val());
                assert(elem_vals(cv@)[4 * t + 1] == cv@[4 * t + 1].val());
                assert(elem_vals(cv@)[4 * t + 2] == cv@[4 * t + 2].val());
                assert(elem_vals(cv@)[4 * t + 3] == cv@[4 * t + 3].val());
                assert(crate::extkern::ext_at(elem_vals(cv@), t) == cpu_check_val(
                    elem_vals(cdv@),
                    elem_vals(dtv@),
                    elem_vals(acv@),
                    elem_vals(mxv@),
                    elem_vals(otv@),
                    ext_val(poly_mix),
                    domain as int,
                    t,
                ));
                assert(elem_vals(cdv@) =~= elem_vals(old(hal).elem_seq(*code))) by {
                    assert forall|u: int| 0 <= u < code.size implies elem_vals(cdv@)[u]
                        == elem_vals(old(hal).elem_seq(*code))[u] by {
                        assert(cdv@[u] == old(hal).e_mem@[code.offset + u]);
                        assert(old(hal).elem_seq(*code)[u] == old(hal).e_mem@[code.offset + u]);
                    }
                }
                assert(elem_vals(dtv@) =~= elem_vals(old(hal).elem_seq(*data))) by {
                    assert forall|u: int| 0 <= u < data.size implies elem_vals(dtv@)[u]
                        == elem_vals(old(hal).elem_seq(*data))[u] by {
                        assert(dtv@[u] == old(hal).e_mem@[data.offset + u]);
                        assert(old(hal).elem_seq(*data)[u] == old(hal).e_mem@[data.offset + u]);
                    }
                }
                assert(elem_vals(acv@) =~= elem_vals(old(hal).elem_seq(*accum))) by {
                    assert forall|u: int| 0 <= u < accum.size implies elem_vals(acv@)[u]
                        == elem_vals(old(hal).elem_seq(*accum))[u] by {
                        assert(acv@[u] == old(hal).e_mem@[accum.offset + u]);
                        assert(old(hal).elem_seq(*accum)[u] == old(hal).e_mem@[accum.offset + u]);
                    }
                }
                assert(elem_vals(mxv@) =~= elem_vals(old(hal).elem_seq(*mix))) by {
                    assert forall|u: int| 0 <= u < mix.size implies elem_vals(mxv@)[u]
                        == elem_vals(old(hal).elem_seq(*mix))[u] by {
                        assert(mxv@[u] == old(hal).e_mem@[mix.offset + u]);
                        assert(old(hal).elem_seq(*mix)[u] == old(hal).e_mem@[mix.offset + u]);
                    }
                }
                assert(elem_vals(otv@) =~= elem_vals(old(hal).elem_seq(*out))) by {
                    assert forall|u: int| 0 <= u < out.size implies elem_vals(otv@)[u]
                        == elem_vals(old(hal).elem_seq(*out))[u] by {
                        assert(otv@[u] == old(hal).e_mem@[out.offset + u]);
                        assert(old(hal).elem_seq(*out)[u] == old(hal).e_mem@[out.offset + u]);
                    }
                }
            }
        }
    }
}

/// Relies on rand::random: a sampled 32-bit word; nothing is promised of
/// which word comes back.
#[verifier::external_body]
fn random_u32() -> (r: u32)
    ensures
        r <= u32::MAX,
{
    rand::random::<u32>()
}

/// A vector of uniformly sampled field elements.
pub fn random_fps(size: usize) -> (r: Vec<Elem>)
    ensures
        r@.len() == size,
        wf_elems(r@),
{
    let mut r: Vec<Elem> = Vec::new();
    let mut i: usize = 0;
    while i < size
        invariant
            i <= size,
            r@.len() == i,
            wf_elems(r@),
        decreases size - i,
    {
        r.push(Elem::new(random_u32()));
        i += 1;
    }
    r
}

/// A randomly sampled extension element.
pub fn random_ext() -> (r: ExtElem)
    ensures
        ext_wf(r),
{
    ExtElem::from_elems(
        Elem::new(random_u32()),
        Elem::new(random_u32()),
        Elem::new(random_u32()),
        Elem::new(random_u32()),
    )
}

/// Random inputs for one eval-check run, sized by the circuit's tap set
/// and the chosen log-domain exponent.
pub struct EvalCheckParams {
    pub po2: usize,
    pub steps: usize,
    pub domain: usize,
    pub code: Vec<Elem>,
    pub data: Vec<Elem>,
    pub accum: Vec<Elem>,
    pub mix: Vec<Elem>,
    pub out: Vec<Elem>,
    pub poly_mix: ExtElem,
}

impl EvalCheckParams {
    /// The sizes agree with the built-in circuit's tap layout.
    pub open spec fn wf(self) -> bool {
        &&& self.po2 <= 25
        &&& self.steps == vstd::arithmetic::power2::pow2(self.po2 as nat)
        &&& self.domain == self.steps * crate::INV_RATE
        &&& self.steps >= 1
        &&& self.code@.len() == 2 * self.domain
        &&& self.data@.len() == 3 * self.domain
        &&& self.accum@.len() == 2 * self.domain
        &&& self.mix@.len() == MIX_SIZE
        &&& self.out@.len() == OUTPUT_SIZE
        &&& wf_elems(self.code@)
        &&& wf_elems(self.data@)
        &&& wf_elems(self.accum@)
        &&& wf_elems(self.mix@)
        &&& wf_elems(self.out@)
        &&& ext_wf(self.poly_mix)
    }

    /// Fresh random inputs for the given log-domain exponent.
    pub fn new(po2: usize) -> (p: EvalCheckParams)
        requires
            po2 <= 25,
        ensures
            p.wf(),
            p.po2 == po2,
    {
        let steps = crate::ntt::pow2_usize(po2);
        proof {
            vstd::arithmetic::power2::lemma_pow2_pos(po2 as nat);
            vstd::arithmetic::power2::lemma2_to64();
            if po2 < 25 {
                vstd::arithmetic::power2::lemma_pow2_strictly_increases(po2 as nat, 25);
            }
        }
        let domain = steps * crate::INV_RATE;
        let circuit = CircuitImpl::new();
        let taps = circuit.get_taps();
        let code = random_fps(taps.code_size * domain);
        let data = random_fps(taps.data_size * domain);
        let accum = random_fps(taps.accum_size * domain);
        let mix = random_fps(MIX_SIZE);
        let out = random_fps(OUTPUT_SIZE);
        let poly_mix = random_ext();
        EvalCheckParams { po2, steps, domain, code, data, accum, mix, out, poly_mix }
    }
}

/// Runs one eval-check over fresh device buffers and reads the check
/// buffer back: the result is exactly the implementation's per-index
/// constraint values, 4 base elements per index.
pub fn eval_check_impl<E: EvalCheck>(params: &EvalCheckParams, hal: &mut CpuHal, eval: &E) -> (ret:
    Vec<Elem>)
    requires
        old(hal).wf(),
        params.wf(),
        old(hal).e_mem@.len() + 4 * params.domain + params.code@.len() + params.data@.len()
            + params.accum@.len() + params.mix@.len() + params.out@.len() <= usize::MAX,
    ensures
        final(hal).wf(),
        ret@.len() == 4 * params.domain,
        wf_elems(ret@),
        forall|i: int|
            0 <= i < params.domain ==> #[trigger] crate::extkern::ext_at(elem_vals(ret@), i)
                == eval.check_spec(
                elem_vals(params.code@),
                elem_vals(params.data@),
                elem_vals(params.accum@),
                elem_vals(params.mix@),
                elem_vals(params.out@),
                ext_val(params.poly_mix),
                params.po2 as nat,
                params.domain as int,
                i,
            ),
{
    let check = hal.alloc_elem("check", 4 * params.domain);
    let code = hal.copy_from_elem("code", &params.code);
    let data = hal.copy_from_elem("data", &params.data);
    let accum = hal.copy_from_elem("accum", &params.accum);
    let mix = hal.copy_from_elem("mix", &params.mix);
    let out = hal.copy_from_elem("out", &params.out);
    proof {
        assert(hal.elem_seq(code) =~= params.code@);
        assert(hal.elem_seq(data) =~= params.data@);
        assert(hal.elem_seq(accum) =~= params.accum@);
        assert(hal.elem_seq(mix) =~= params.mix@);
        assert(hal.elem_seq(out) =~= params.out@);
    }
    eval.eval_check(
        hal,
        &check,
        &code,
        &data,
        &accum,
        &mix,
        &out,
        params.poly_mix,
        params.po2,
        params.steps,
    );
    let ret = hal.view_elem(&check);
    proof {
        crate::cpu::lemma_wf_elems_subrange(
            hal.e_mem@,
            check.offset as int,
            check.offset + check.size,
        );
        assert(elem_vals(ret@) == elem_vals(hal.elem_seq(check)));
    }
    ret
}

/// Cross-implementation equivalence: runs the same inputs through two
/// eval-check implementations and reports whether every domain index got
/// the same extension value.
pub fn eval_check<E1: EvalCheck, E2: EvalCheck>(
    params: &EvalCheckParams,
    hal1: &mut CpuHal,
    eval1: &E1,
    hal2: &mut CpuHal,
    eval2: &E2,
) -> (eq: bool)
    requires
        old(hal1).wf(),
        old(hal2).wf(),
        params.wf(),
        old(hal1).e_mem@.len() + 4 * params.domain + params.code@.len() + params.data@.len()
            + params.accum@.len() + params.mix@.len() + params.out@.len() <= usize::MAX,
        old(hal2).e_mem@.len() + 4 * params.domain + params.code@.len() + params.data@.len()
            + params.accum@.len() + params.mix@.len() + params.out@.len() <= usize::MAX,
    ensures
        final(hal1).wf(),
        final(hal2).wf(),
        eq == (forall|i: int|
            0 <= i < params.domain ==> #[trigger] eval1.check_spec(
                elem_vals(params.code@),
                elem_vals(params.data@),
                elem_vals(params.accum@),
                elem_vals(params.mix@),
                elem_vals(params.out@),
                ext_val(params.poly_mix),
                params.po2 as nat,
                params.domain as int,
                i,
            ) == eval2.check_spec(
                elem_vals(params.code@),
                elem_vals(params.data@),
                elem_vals(params.accum@),
                elem_vals(params.mix@),
                elem_vals(params.out@),
                ext_val(params.poly_mix),
                params.po2 as nat,
                params.domain as int,
                i,
            )),
{
    let r1 = eval_check_impl(params, hal1, eval1);
    let r2 = eval_check_impl(params, hal2, eval2);
    let mut eq = true;
    let mut i: usize = 0;
    while i < r1.len()
        invariant
            r1@.len() == 4 * params.domain,
            r2@.len() == 4 * params.domain,
            i <= r1@.len(),
            eq == (forall|t: int| 0 <= t < i ==> r1@[t] == r2@[t]),
        decreases r1@.len() - i,
    {
        if r1[i].v != r2[i].v {
            eq = false;
        }
        proof {
            if r1@[i as int].v == r2@[i as int].v {
                assert(r1@[i as int] == r2@[i as int]);
            }
        }
        i += 1;
    }
    proof {
        let cvals = elem_vals(params.code@);
        let dvals = elem_vals(params.data@);
        let avals = elem_vals(params.accum@);
        let mvals = elem_vals(params.mix@);
        let ovals = elem_vals(params.out@);
        let pm = ext_val(params.poly_mix);
        let d = params.domain as int;
        if eq {
            assert forall|t: int| 0 <= t < params.domain implies #[trigger] eval1.check_spec(
                cvals,
                dvals,
                avals,
                mvals,
                ovals,
                pm,
                params.po2 as nat,
                d,
                t,
            ) == eval2.check_spec(
                cvals,
                dvals,
                avals,
                mvals,
                ovals,
                pm,
                params.po2 as nat,
                d,
                t,
            ) by {
                assert(crate::extkern::ext_at(elem_vals(r1@), t) == eval1.check_spec(
                    cvals, dvals, avals, mvals, ovals, pm, params.po2 as nat, d, t));
                assert(crate::extkern::ext_at(elem_vals(r2@), t) == eval2.check_spec(
                    cvals, dvals, avals, mvals, ovals, pm, params.po2 as nat, d, t));
                assert(elem_vals(r1@)[4 * t] == r1@[4 * t].val());
                assert(elem_vals(r1@)[4 * t + 1] == r1@[4 * t + 1].val());
                assert(elem_vals(r1@)[4 * t + 2] == r1@[4 * t + 2].val());
                assert(elem_vals(r1@)[4 * t + 3] == r1@[4 * t + 3].val());
                assert(elem_vals(r2@)[4 * t] == r2@[4 * t].val());
                assert(elem_vals(r2@)[4 * t + 1] == r2@[4 * t + 1].val());
                assert(elem_vals(r2@)[4 * t + 2] == r2@[4 * t + 2].val());
                assert(elem_vals(r2@)[4 * t + 3] == r2@[4 * t + 3].val());
            }
        } else {
            let bad = choose|t: int| 0 <= t < r1@.len() && r1@[t] != r2@[t];
            let g = bad / 4;
            vstd::arithmetic::div_mod::lemma_fundamental_div_mod(bad, 4);
            vstd::arithmetic::div_mod::lemma_mod_bound(bad, 4);
            vstd::arithmetic::div_mod::lemma_div_pos_is_pos(bad, 4);
            assert(g < params.domain) by {
                if g >= params.domain {
                    assert(bad >= 4 * g);
                }
            }
            assert(crate::extkern::ext_at(elem_vals(r1@), g) == eval1.check_spec(
                cvals, dvals, avals, mvals, ovals, pm, params.po2 as nat, d, g));
            assert(crate::extkern::ext_at(elem_vals(r2@), g) == eval2.check_spec(
                cvals, dvals, avals, mvals, ovals, pm, params.po2 as nat, d, g));
            assert(elem_vals(r1@)[4 * g] == r1@[4 * g].val());
            assert(elem_vals(r1@)[4 * g + 1] == r1@[4 * g + 1].val());
            assert(elem_vals(r1@)[4 * g + 2] == r1@[4 * g + 2].val());
            assert(elem_vals(r1@)[4 * g + 3] == r1@[4 * g + 3].val());
            assert(elem_vals(r2@)[4 * g] == r2@[4 * g].val());
            assert(elem_vals(r2@)[4 * g + 1] == r2@[4 * g + 1].val());
            assert(elem_vals(r2@)[4 * g + 2] == r2@[4 * g + 2].val());
            assert(elem_vals(r2@)[4 * g + 3] == r2@[4 * g + 3].val());
            assert(r1@[bad].v != r2@[bad].v);
            assert(bad == 4 * g + bad % 4);
            assert(crate::extkern::ext_at(elem_vals(r1@), g) != crate::extkern::ext_at(
                elem_vals(r2@),
                g,
            ));
        }
    }
    eq
}

} // verus!
