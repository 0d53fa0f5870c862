//! The BabyBear prime field: arithmetic on residues modulo p = 15 * 2^27 + 1,
//! together with the precomputed tables of roots of unity that the NTT
//! kernels index by power-of-two exponent.
use vstd::prelude::*;

verus! {

/// The BabyBear prime, 15 * 2^27 + 1.
pub const P: u32 = 2013265921;

/// Largest k such that the field has a primitive 2^k-th root of unity.
pub const MAX_ROU_PO2: usize = 27;

/// Multiplicative inverse of 2 modulo P, i.e. (P + 1) / 2.
pub const INV_2: u32 = 1006632961;

/// Field addition on canonical residues.
pub open spec fn fadd(a: int, b: int) -> int {
    (a + b) % (P as int)
}

/// Field subtraction on canonical residues.
pub open spec fn fsub(a: int, b: int) -> int {
    (a - b) % (P as int)
}

/// Field multiplication on canonical residues.
pub open spec fn fmul(a: int, b: int) -> int {
    (a * b) % (P as int)
}

/// b^e in the field, always reduced for e > 0.
pub open spec fn fpow(b: int, e: nat) -> int
    decreases e,
{
    if e == 0 {
        1
    } else {
        fmul(fpow(b, (e - 1) as nat), b)
    }
}

/// A canonical residue: already reduced modulo P.
pub open spec fn in_field(a: int) -> bool {
    0 <= a < P as int
}

/// A base field element, stored as a canonical 32-bit residue.
#[derive(Clone, Copy, PartialEq, Eq, Structural, Debug)]
pub struct Elem {
    pub v: u32,
}

impl Elem {
    /// The residue as a mathematical integer.
    pub open spec fn val(self) -> int {
        self.v as int
    }

    /// Well-formed: the stored word is already reduced.
    pub open spec fn wf(self) -> bool {
        self.v < P
    }

    pub fn zero() -> (r: Elem)
        ensures
            r.val() == 0,
            r.wf(),
    {
        Elem { v: 0 }
    }

    pub fn one() -> (r: Elem)
        ensures
            r.val() == 1,
            r.wf(),
    {
        Elem { v: 1 }
    }

    /// Reduces an arbitrary 32-bit word into the field.
    pub fn new(x: u32) -> (r: Elem)
        ensures
            r.val() == (x as int) % (P as int),
            r.wf(),
    {
        Elem { v: x % P }
    }

    pub fn add(self, rhs: Elem) -> (r: Elem)
        requires
            self.wf(),
            rhs.wf(),
        ensures
            r.wf(),
            r.val() == fadd(self.val(), rhs.val()),
    {
        let s: u32 = self.v + rhs.v;
        proof {
            let pi = P as int;
            if s >= P {
                vstd::arithmetic::div_mod::lemma_mod_sub_multiples_vanish(s as int, pi);
                vstd::arithmetic::div_mod::lemma_small_mod((s - P) as nat, P as nat);
            } else {
                vstd::arithmetic::div_mod::lemma_small_mod(s as nat, P as nat);
            }
        }
        if s >= P {
            Elem { v: s - P }
        } else {
            Elem { v: s }
        }
    }

    pub fn sub(self, rhs: Elem) -> (r: Elem)
        requires
            self.wf(),
            rhs.wf(),
        ensures
            r.wf(),
            r.val() == fsub(self.val(), rhs.val()),
    {
        proof {
            let pi = P as int;
            let d = self.val() - rhs.val();
            if self.v >= rhs.v {
                vstd::arithmetic::div_mod::lemma_small_mod(d as nat, P as nat);
            } else {
                vstd::arithmetic::div_mod::lemma_mod_add_multiples_vanish(d, pi);
                vstd::arithmetic::div_mod::lemma_small_mod((d + pi) as nat, P as nat);
            }
        }
        if self.v >= rhs.v {
            Elem { v: self.v - rhs.v }
        } else {
            Elem { v: self.v + P - rhs.v }
        }
    }

    pub fn mul(self, rhs: Elem) -> (r: Elem)
        requires
            self.wf(),
            rhs.wf(),
        ensures
            r.wf(),
            r.val() == fmul(self.val(), rhs.val()),
    {
        proof {
            assert(self.val() * rhs.val() < 0x10000000000000000int) by (nonlinear_arith)
                requires
                    0 <= self.val() < 0x100000000int,
                    0 <= rhs.val() < 0x100000000int,
            ;
        }
        let prod: u64 = (self.v as u64) * (rhs.v as u64);
        let m: u64 = prod % (P as u64);
        Elem { v: m as u32 }
    }

    /// Square-and-multiply exponentiation.
    pub fn pow(self, e: u32) -> (r: Elem)
        requires
            self.wf(),
        ensures
            r.wf(),
            r.val() == fpow(self.val(), e as nat),
    {
        let mut acc = Elem::one();
        let mut base = self;
        let mut rem: u32 = e;
        while rem > 0
            invariant
                acc.wf(),
                base.wf(),
                fmul(acc.val(), fpow(base.val(), rem as nat)) == fpow(self.val(), e as nat) % (
                P as int),
            decreases rem,
        {
            let ghost acc0 = acc.val();
            let ghost base0 = base.val();
            let ghost rem0 = rem as nat;
            let odd = rem % 2 == 1;
            if odd {
                acc = acc.mul(base);
            }
            base = base.mul(base);
            proof {
                lemma_pow_step(acc0, base0, rem0, (rem / 2) as nat, odd);
            }
            rem = rem / 2;
        }
        proof {
            lemma_fmul_one(acc.val());
            if e == 0 {
            } else {
                lemma_fpow_in_field(self.val(), e as nat);
                vstd::arithmetic::div_mod::lemma_small_mod(
                    fpow(self.val(), e as nat) as nat,
                    P as nat,
                );
            }
        }
        acc
    }

    /// Multiplicative inverse of a nonzero element, via Fermat exponentiation.
    pub fn inv(self) -> (r: Elem)
        requires
            self.wf(),
            self.val() != 0,
        ensures
            r.wf(),
            r.val() == fpow(self.val(), (P - 2) as nat),
    {
        self.pow(P - 2)
    }
}

/// fpow stays a canonical residue for every positive exponent.
pub proof fn lemma_fpow_in_field(b: int, e: nat)
    requires
        e > 0,
    ensures
        in_field(fpow(b, e)),
    decreases e,
{
    let pi = P as int;
    vstd::arithmetic::div_mod::lemma_mod_bound(fpow(b, (e - 1) as nat) * b, pi);
}

/// Multiplying by one is the identity on canonical residues.
pub proof fn lemma_fmul_one(a: int)
    requires
        in_field(a),
    ensures
        fmul(1, a) == a,
        fmul(a, 1) == a,
{
    vstd::arithmetic::div_mod::lemma_small_mod(a as nat, P as nat);
}

/// Reduction of either factor does not change a field product.
pub proof fn lemma_fmul_noop(a: int, b: int)
    ensures
        fmul(a % (P as int), b) == fmul(a, b),
        fmul(a, b % (P as int)) == fmul(a, b),
        fmul(a % (P as int), b % (P as int)) == fmul(a, b),
{
    vstd::arithmetic::div_mod::lemma_mul_mod_noop_general(a, b, P as int);
}

/// Field multiplication is associative.
pub proof fn lemma_fmul_assoc(a: int, b: int, c: int)
    ensures
        fmul(fmul(a, b), c) == fmul(a, fmul(b, c)),
{
    let pi = P as int;
    vstd::arithmetic::div_mod::lemma_mul_mod_noop_general(a * b, c, pi);
    vstd::arithmetic::div_mod::lemma_mul_mod_noop_general(a, b * c, pi);
    assert((a * b) * c == a * (b * c)) by (nonlinear_arith);
}

/// Field multiplication distributes over field addition.
pub proof fn lemma_fmul_dist_fadd(c: int, a: int, b: int)
    ensures
        fmul(c, fadd(a, b)) == fadd(fmul(c, a), fmul(c, b)),
{
    let pi = P as int;
    vstd::arithmetic::div_mod::lemma_mul_mod_noop_general(c, a + b, pi);
    assert(c * (a + b) == c * a + c * b) by (nonlinear_arith);
    vstd::arithmetic::div_mod::lemma_add_mod_noop(c * a, c * b, pi);
}

/// Field multiplication distributes over field subtraction.
pub proof fn lemma_fmul_dist_fsub(c: int, a: int, b: int)
    ensures
        fmul(c, fsub(a, b)) == fsub(fmul(c, a), fmul(c, b)),
{
    let pi = P as int;
    vstd::arithmetic::div_mod::lemma_mul_mod_noop_general(c, a - b, pi);
    assert(c * (a - b) == c * a - c * b) by (nonlinear_arith);
    vstd::arithmetic::div_mod::lemma_sub_mod_noop(c * a, c * b, pi);
}

/// The exponentiation step used by square-and-multiply: peeling the low bit.
proof fn lemma_pow_step(acc: int, base: int, rem: nat, half: nat, odd: bool)
    requires
        rem == 2 * half + (if odd {
            1nat
        } else {
            0nat
        }),
    ensures
        odd ==> fmul(fmul(acc, base), fpow(fmul(base, base), half)) == fmul(
            acc,
            fpow(base, rem),
        ),
        !odd ==> fmul(acc, fpow(fmul(base, base), half)) == fmul(acc, fpow(base, rem)),
    decreases half,
{
    let pi = P as int;
    if half == 0 {
        if odd {
            let m = fmul(acc, base);
            assert(fpow(base, 0) == 1);
            assert(fpow(fmul(base, base), 0) == 1);
            vstd::arithmetic::div_mod::lemma_mod_bound(acc * base, pi);
            vstd::arithmetic::div_mod::lemma_small_mod(m as nat, P as nat);
            // fpow(base, 1) == fmul(1, base) == base % P
            vstd::arithmetic::div_mod::lemma_mul_mod_noop_general(acc, base, pi);
        }
    } else {
        lemma_pow_step(acc, base, (rem - 2) as nat, (half - 1) as nat, odd);
        // fpow(base, rem) == fmul(fpow(base, rem - 2), fmul(base, base))
        lemma_fpow_two_more(base, (rem - 2) as nat);
        // fpow(sq, half) == fmul(fpow(sq, half - 1), sq)
        let sq = fmul(base, base);
        assert(fpow(sq, half) == fmul(fpow(sq, (half - 1) as nat), sq));
        if odd {
            let lhs0 = fmul(acc, base);
            lemma_fmul_assoc(lhs0, fpow(sq, (half - 1) as nat), sq);
            lemma_fmul_assoc(acc, fpow(base, (rem - 2) as nat), sq);
            lemma_fmul_assoc(acc, fpow(base, (rem - 2) as nat), fmul(base, base));
        } else {
            lemma_fmul_assoc(acc, fpow(sq, (half - 1) as nat), sq);
            lemma_fmul_assoc(acc, fpow(base, (rem - 2) as nat), sq);
        }
    }
}

/// fpow(b, e + 2) groups as a multiplication by the square of the base.
proof fn lemma_fpow_two_more(b: int, e: nat)
    ensures
        fpow(b, e + 2) == fmul(fpow(b, e), fmul(b, b)),
{
    let pi = P as int;
    assert(fpow(b, e + 1) == fmul(fpow(b, e), b));
    assert(fpow(b, e + 2) == fmul(fpow(b, e + 1), b));
    // fpow(b, e + 2) == fmul(fmul(fpow(b, e), b), b)
    lemma_fmul_assoc(fpow(b, e), b, b);
}

/// Powers of a product of mutually inverse elements stay inverse: if
/// x * y == 1 in the field then x^t * y^t == 1 as well.
pub proof fn lemma_fpow_inverse(x: int, y: int, t: nat)
    requires
        fmul(x, y) == 1,
    ensures
        fmul(fpow(x, t), fpow(y, t)) == 1,
    decreases t,
{
    let pi = P as int;
    if t == 0 {
    } else {
        lemma_fpow_inverse(x, y, (t - 1) as nat);
        let xp = fpow(x, (t - 1) as nat);
        let yp = fpow(y, (t - 1) as nat);
        // (xp * x) * (yp * y) == (xp * yp) * (x * y)
        lemma_fmul_assoc(fmul(xp, x), yp, y);
        lemma_fmul_assoc(xp, x, yp);
        lemma_fmul_comm(x, yp);
        lemma_fmul_assoc(xp, yp, x);
        lemma_fmul_assoc(fmul(xp, yp), x, y);
        // now fmul(fmul(xp, yp), fmul(x, y)) == fmul(1 % P, 1)
        lemma_fmul_noop(1, 1);
        vstd::arithmetic::div_mod::lemma_small_mod(1nat, P as nat);
    }
}

/// Field multiplication is commutative.
pub proof fn lemma_fmul_comm(a: int, b: int)
    ensures
        fmul(a, b) == fmul(b, a),
{
    assert(a * b == b * a) by (nonlinear_arith);
}

/// Forward roots of unity: rou_fwd(k) is a primitive 2^k-th root.
pub open spec fn rou_fwd(k: nat) -> int {
    if k == 0 {
        1
    } else if k == 1 {
        2013265920
    } else if k == 2 {
        1728404513
    } else if k == 3 {
        1592366214
    } else if k == 4 {
        196396260
    } else if k == 5 {
        760005850
    } else if k == 6 {
        1721589904
    } else if k == 7 {
        397765732
    } else if k == 8 {
        1732600167
    } else if k == 9 {
        1753498361
    } else if k == 10 {
        341742893
    } else if k == 11 {
        1340477990
    } else if k == 12 {
        1282623253
    } else if k == 13 {
        298008106
    } else if k == 14 {
        1657000625
    } else if k == 15 {
        2009781145
    } else if k == 16 {
        1421947380
    } else if k == 17 {
        1286330022
    } else if k == 18 {
        1559589183
    } else if k == 19 {
        1049899240
    } else if k == 20 {
        195061667
    } else if k == 21 {
        414040701
    } else if k == 22 {
        570250684
    } else if k == 23 {
        1267047229
    } else if k == 24 {
        1003846038
    } else if k == 25 {
        1149491290
    } else if k == 26 {
        975630072
    } else {
        440564289
    }
}

/// Inverse roots of unity: rou_rev(k) * rou_fwd(k) == 1.
pub open spec fn rou_rev(k: nat) -> int {
    if k == 0 {
        1
    } else if k == 1 {
        2013265920
    } else if k == 2 {
        284861408
    } else if k == 3 {
        1801542727
    } else if k == 4 {
        567209306
    } else if k == 5 {
        1273220281
    } else if k == 6 {
        662200255
    } else if k == 7 {
        1856545343
    } else if k == 8 {
        1611842161
    } else if k == 9 {
        1861675199
    } else if k == 10 {
        774513262
    } else if k == 11 {
        449056851
    } else if k == 12 {
        1255670133
    } else if k == 13 {
        1976924129
    } else if k == 14 {
        106301669
    } else if k == 15 {
        1411306935
    } else if k == 16 {
        1540942033
    } else if k == 17 {
        1043440885
    } else if k == 18 {
        173207512
    } else if k == 19 {
        463443832
    } else if k == 20 {
        1021415956
    } else if k == 21 {
        1574319791
    } else if k == 22 {
        953617870
    } else if k == 23 {
        987386499
    } else if k == 24 {
        1469248932
    } else if k == 25 {
        165179394
    } else if k == 26 {
        1498740239
    } else {
        1713844692
    }
}

/// Table lookup for the forward root of unity of order 2^k.
pub fn rou_fwd_elem(k: usize) -> (r: Elem)
    requires
        k <= MAX_ROU_PO2,
    ensures
        r.wf(),
        r.val() == rou_fwd(k as nat),
{
    if k == 0 {
        Elem { v: 1 }
    } else if k == 1 {
        Elem { v: 2013265920 }
    } else if k == 2 {
        Elem { v: 1728404513 }
    } else if k == 3 {
        Elem { v: 1592366214 }
    } else if k == 4 {
        Elem { v: 196396260 }
    } else if k == 5 {
        Elem { v: 760005850 }
    } else if k == 6 {
        Elem { v: 1721589904 }
    } else if k == 7 {
        Elem { v: 397765732 }
    } else if k == 8 {
        Elem { v: 1732600167 }
    } else if k == 9 {
        Elem { v: 1753498361 }
    } else if k == 10 {
        Elem { v: 341742893 }
    } else if k == 11 {
        Elem { v: 1340477990 }
    } else if k == 12 {
        Elem { v: 1282623253 }
    } else if k == 13 {
        Elem { v: 298008106 }
    } else if k == 14 {
        Elem { v: 1657000625 }
    } else if k == 15 {
        Elem { v: 2009781145 }
    } else if k == 16 {
        Elem { v: 1421947380 }
    } else if k == 17 {
        Elem { v: 1286330022 }
    } else if k == 18 {
        Elem { v: 1559589183 }
    } else if k == 19 {
        Elem { v: 1049899240 }
    } else if k == 20 {
        Elem { v: 195061667 }
    } else if k == 21 {
        Elem { v: 414040701 }
    } else if k == 22 {
        Elem { v: 570250684 }
    } else if k == 23 {
        Elem { v: 1267047229 }
    } else if k == 24 {
        Elem { v: 1003846038 }
    } else if k == 25 {
        Elem { v: 1149491290 }
    } else if k == 26 {
        Elem { v: 975630072 }
    } else {
        Elem { v: 440564289 }
    }
}

/// Table lookup for the inverse root of unity of order 2^k.
pub fn rou_rev_elem(k: usize) -> (r: Elem)
    requires
        k <= MAX_ROU_PO2,
    ensures
        r.wf(),
        r.val() == rou_rev(k as nat),
{
    if k == 0 {
        Elem { v: 1 }
    } else if k == 1 {
        Elem { v: 2013265920 }
    } else if k == 2 {
        Elem { v: 284861408 }
    } else if k == 3 {
        Elem { v: 1801542727 }
    } else if k == 4 {
        Elem { v: 567209306 }
    } else if k == 5 {
        Elem { v: 1273220281 }
    } else if k == 6 {
        Elem { v: 662200255 }
    } else if k == 7 {
        Elem { v: 1856545343 }
    } else if k == 8 {
        Elem { v: 1611842161 }
    } else if k == 9 {
        Elem { v: 1861675199 }
    } else if k == 10 {
        Elem { v: 774513262 }
    } else if k == 11 {
        Elem { v: 449056851 }
    } else if k == 12 {
        Elem { v: 1255670133 }
    } else if k == 13 {
        Elem { v: 1976924129 }
    } else if k == 14 {
        Elem { v: 106301669 }
    } else if k == 15 {
        Elem { v: 1411306935 }
    } else if k == 16 {
        Elem { v: 1540942033 }
    } else if k == 17 {
        Elem { v: 1043440885 }
    } else if k == 18 {
        Elem { v: 173207512 }
    } else if k == 19 {
        Elem { v: 463443832 }
    } else if k == 20 {
        Elem { v: 1021415956 }
    } else if k == 21 {
        Elem { v: 1574319791 }
    } else if k == 22 {
        Elem { v: 953617870 }
    } else if k == 23 {
        Elem { v: 987386499 }
    } else if k == 24 {
        Elem { v: 1469248932 }
    } else if k == 25 {
        Elem { v: 165179394 }
    } else if k == 26 {
        Elem { v: 1498740239 }
    } else {
        Elem { v: 1713844692 }
    }
}

/// Each table entry is a canonical residue, and paired entries are
/// multiplicative inverses of one another.
#[verifier::rlimit(60)]
pub proof fn lemma_rou_inverse(k: nat)
    requires
        k <= 27,
    ensures
        in_field(rou_fwd(k)),
        in_field(rou_rev(k)),
        fmul(rou_fwd(k), rou_rev(k)) == 1,
{
    if k == 0 {
        assert((1int * 1int) % 2013265921int == 1int) by (nonlinear_arith);
    } else if k == 1 {
        assert((2013265920int * 2013265920int) % 2013265921int == 1int) by (nonlinear_arith);
    } else if k == 2 {
        assert((1728404513int * 284861408int) % 2013265921int == 1int) by (nonlinear_arith);
    } else if k == 3 {
        assert((1592366214int * 1801542727int) % 2013265921int == 1int) by (nonlinear_arith);
    } else if k == 4 {
        assert((196396260int * 567209306int) % 2013265921int == 1int) by (nonlinear_arith);
    } else if k == 5 {
        assert((760005850int * 1273220281int) % 2013265921int == 1int) by (nonlinear_arith);
    } else if k == 6 {
        assert((1721589904int * 662200255int) % 2013265921int == 1int) by (nonlinear_arith);
    } else if k == 7 {
        assert((397765732int * 1856545343int) % 2013265921int == 1int) by (nonlinear_arith);
    } else if k == 8 {
        assert((1732600167int * 1611842161int) % 2013265921int == 1int) by (nonlinear_arith);
    } else if k == 9 {
        assert((1753498361int * 1861675199int) % 2013265921int == 1int) by (nonlinear_arith);
    } else if k == 10 {
        assert((341742893int * 774513262int) % 2013265921int == 1int) by (nonlinear_arith);
    } else if k == 11 {
        assert((1340477990int * 449056851int) % 2013265921int == 1int) by (nonlinear_arith);
    } else if k == 12 {
        assert((1282623253int * 1255670133int) % 2013265921int == 1int) by (nonlinear_arith);
    } else if k == 13 {
        assert((298008106int * 1976924129int) % 2013265921int == 1int) by (nonlinear_arith);
    } else if k == 14 {
        assert((1657000625int * 106301669int) % 2013265921int == 1int) by (nonlinear_arith);
    } else if k == 15 {
        assert((2009781145int * 1411306935int) % 2013265921int == 1int) by (nonlinear_arith);
    } else if k == 16 {
        assert((1421947380int * 1540942033int) % 2013265921int == 1int) by (nonlinear_arith);
    } else if k == 17 {
        assert((1286330022int * 1043440885int) % 2013265921int == 1int) by (nonlinear_arith);
    } else if k == 18 {
        assert((1559589183int * 173207512int) % 2013265921int == 1int) by (nonlinear_arith);
    } else if k == 19 {
        assert((1049899240int * 463443832int) % 2013265921int == 1int) by (nonlinear_arith);
    } else if k == 20 {
        assert((195061667int * 1021415956int) % 2013265921int == 1int) by (nonlinear_arith);
    } else if k == 21 {
        assert((414040701int * 1574319791int) % 2013265921int == 1int) by (nonlinear_arith);
    } else if k == 22 {
        assert((570250684int * 953617870int) % 2013265921int == 1int) by (nonlinear_arith);
    } else if k == 23 {
        assert((1267047229int * 987386499int) % 2013265921int == 1int) by (nonlinear_arith);
    } else if k == 24 {
        assert((1003846038int * 1469248932int) % 2013265921int == 1int) by (nonlinear_arith);
    } else if k == 25 {
        assert((1149491290int * 165179394int) % 2013265921int == 1int) by (nonlinear_arith);
    } else if k == 26 {
        assert((975630072int * 1498740239int) % 2013265921int == 1int) by (nonlinear_arith);
    } else if k == 27 {
        assert((440564289int * 1713844692int) % 2013265921int == 1int) by (nonlinear_arith);
    } else {
    }
}

} // verus!
