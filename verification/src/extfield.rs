//! The degree-4 extension of the BabyBear field: elements are polynomials
//! of degree < 4 over the base field, multiplied modulo x^4 - BETA with
//! BETA = 11, and laid out as 4 consecutive base elements, little index
//! first.
use vstd::prelude::*;

use crate::field::{fadd, fmul, fsub, Elem};

verus! {

/// The defining constant of the extension: x^4 == BETA.
pub const BETA: u32 = 11;

/// An extension field element: 4 base coefficients, little index first.
#[derive(Clone, Copy, PartialEq, Eq, Structural, Debug)]
pub struct ExtElem {
    pub c0: Elem,
    pub c1: Elem,
    pub c2: Elem,
    pub c3: Elem,
}

/// The four coefficients of an extension element as mathematical integers.
pub open spec fn ext_val(e: ExtElem) -> (int, int, int, int) {
    (e.c0.val(), e.c1.val(), e.c2.val(), e.c3.val())
}

/// All four stored coefficients are canonical residues.
pub open spec fn ext_wf(e: ExtElem) -> bool {
    e.c0.wf() && e.c1.wf() && e.c2.wf() && e.c3.wf()
}

/// Coefficientwise addition in the extension field.
pub open spec fn eadd(x: (int, int, int, int), y: (int, int, int, int)) -> (int, int, int, int) {
    (fadd(x.0, y.0), fadd(x.1, y.1), fadd(x.2, y.2), fadd(x.3, y.3))
}

/// Coefficientwise subtraction in the extension field.
pub open spec fn esub(x: (int, int, int, int), y: (int, int, int, int)) -> (int, int, int, int) {
    (fsub(x.0, y.0), fsub(x.1, y.1), fsub(x.2, y.2), fsub(x.3, y.3))
}

/// Product in the extension field: polynomial product reduced by
/// x^4 == BETA, so the overflow terms of degree k + 4 fold back into
/// degree k with a factor of BETA.
pub open spec fn emul(x: (int, int, int, int), y: (int, int, int, int)) -> (int, int, int, int) {
    (
        fadd(
            fmul(x.0, y.0),
            fmul(BETA as int, fadd(fadd(fmul(x.1, y.3), fmul(x.2, y.2)), fmul(x.3, y.1))),
        ),
        fadd(
            fadd(fmul(x.0, y.1), fmul(x.1, y.0)),
            fmul(BETA as int, fadd(fmul(x.2, y.3), fmul(x.3, y.2))),
        ),
        fadd(
            fadd(fmul(x.0, y.2), fadd(fmul(x.1, y.1), fmul(x.2, y.0))),
            fmul(BETA as int, fmul(x.3, y.3)),
        ),
        fadd(fadd(fmul(x.0, y.3), fmul(x.1, y.2)), fadd(fmul(x.2, y.1), fmul(x.3, y.0))),
    )
}

/// Multiplication of an extension element by a base scalar.
pub open spec fn escale(b: int, x: (int, int, int, int)) -> (int, int, int, int) {
    (fmul(b, x.0), fmul(b, x.1), fmul(b, x.2), fmul(b, x.3))
}

/// The embedding of a base element into the extension.
pub open spec fn ext_of_base(b: int) -> (int, int, int, int) {
    (b % (crate::field::P as int), 0, 0, 0)
}

pub open spec fn ext_zero() -> (int, int, int, int) {
    (0, 0, 0, 0)
}

pub open spec fn ext_one() -> (int, int, int, int) {
    (1, 0, 0, 0)
}

/// x^e in the extension field.
pub open spec fn epow(x: (int, int, int, int), e: nat) -> (int, int, int, int)
    decreases e,
{
    if e == 0 {
        ext_one()
    } else {
        emul(epow(x, (e - 1) as nat), x)
    }
}

impl ExtElem {
    pub fn zero() -> (r: ExtElem)
        ensures
            ext_wf(r),
            ext_val(r) == ext_zero(),
    {
        ExtElem { c0: Elem::zero(), c1: Elem::zero(), c2: Elem::zero(), c3: Elem::zero() }
    }

    pub fn one() -> (r: ExtElem)
        ensures
            ext_wf(r),
            ext_val(r) == ext_one(),
    {
        ExtElem { c0: Elem::one(), c1: Elem::zero(), c2: Elem::zero(), c3: Elem::zero() }
    }

    /// Builds an extension element from its 4 base coefficients.
    pub fn from_elems(c0: Elem, c1: Elem, c2: Elem, c3: Elem) -> (r: ExtElem)
        requires
            c0.wf(),
            c1.wf(),
            c2.wf(),
            c3.wf(),
        ensures
            ext_wf(r),
            ext_val(r) == (c0.val(), c1.val(), c2.val(), c3.val()),
    {
        ExtElem { c0, c1, c2, c3 }
    }

    /// Embeds a base element into the extension field.
    pub fn from_base(b: Elem) -> (r: ExtElem)
        requires
            b.wf(),
        ensures
            ext_wf(r),
            ext_val(r) == ext_of_base(b.val()),
    {
        proof {
            vstd::arithmetic::div_mod::lemma_small_mod(b.val() as nat, crate::field::P as nat);
        }
        ExtElem { c0: b, c1: Elem::zero(), c2: Elem::zero(), c3: Elem::zero() }
    }

    pub fn add(self, rhs: ExtElem) -> (r: ExtElem)
        requires
            ext_wf(self),
            ext_wf(rhs),
        ensures
            ext_wf(r),
            ext_val(r) == eadd(ext_val(self), ext_val(rhs)),
    {
        ExtElem {
            c0: self.c0.add(rhs.c0),
            c1: self.c1.add(rhs.c1),
            c2: self.c2.add(rhs.c2),
            c3: self.c3.add(rhs.c3),
        }
    }

    pub fn sub(self, rhs: ExtElem) -> (r: ExtElem)
        requires
            ext_wf(self),
            ext_wf(rhs),
        ensures
            ext_wf(r),
            ext_val(r) == esub(ext_val(self), ext_val(rhs)),
    {
        ExtElem {
            c0: self.c0.sub(rhs.c0),
            c1: self.c1.sub(rhs.c1),
            c2: self.c2.sub(rhs.c2),
            c3: self.c3.sub(rhs.c3),
        }
    }

    pub fn mul(self, rhs: ExtElem) -> (r: ExtElem)
        requires
            ext_wf(self),
            ext_wf(rhs),
        ensures
            ext_wf(r),
            ext_val(r) == emul(ext_val(self), ext_val(rhs)),
    {
        let beta = Elem { v: BETA };
        let d0 = self.c0.mul(rhs.c0).add(
            beta.mul(self.c1.mul(rhs.c3).add(self.c2.mul(rhs.c2)).add(self.c3.mul(rhs.c1))),
        );
        let d1 = self.c0.mul(rhs.c1).add(self.c1.mul(rhs.c0)).add(
            beta.mul(self.c2.mul(rhs.c3).add(self.c3.mul(rhs.c2))),
        );
        let d2 = self.c0.mul(rhs.c2).add(self.c1.mul(rhs.c1).add(self.c2.mul(rhs.c0))).add(
            beta.mul(self.c3.mul(rhs.c3)),
        );
        let d3 = self.c0.mul(rhs.c3).add(self.c1.mul(rhs.c2)).add(
            self.c2.mul(rhs.c1).add(self.c3.mul(rhs.c0)),
        );
        ExtElem { c0: d0, c1: d1, c2: d2, c3: d3 }
    }

    /// Multiplies each coefficient by a base scalar.
    pub fn scale(self, b: Elem) -> (r: ExtElem)
        requires
            ext_wf(self),
            b.wf(),
        ensures
            ext_wf(r),
            ext_val(r) == escale(b.val(), ext_val(self)),
    {
        ExtElem {
            c0: b.mul(self.c0),
            c1: b.mul(self.c1),
            c2: b.mul(self.c2),
            c3: b.mul(self.c3),
        }
    }

    /// x^e by repeated multiplication.
    pub fn pow(self, e: usize) -> (r: ExtElem)
        requires
            ext_wf(self),
        ensures
            ext_wf(r),
            ext_val(r) == epow(ext_val(self), e as nat),
    {
        let mut acc = ExtElem::one();
        let mut i: usize = 0;
        while i < e
            invariant
                ext_wf(acc),
                ext_wf(self),
                i <= e,
                ext_val(acc) == epow(ext_val(self), i as nat),
            decreases e - i,
        {
            acc = acc.mul(self);
            i = i + 1;
        }
        acc
    }
}

} // verus!
