//! Number-theoretic transforms over the BabyBear field.
//!
//! A row of length 2^n is transformed in n butterfly stages. Stage s
//! (1 <= s <= n) works on pairs at distance 2^(s-1) inside blocks of
//! 2^s. The forward butterfly maps (a, b) to (a + w b, a - w b) with
//! twiddle w a power of the 2^s-th root of unity; the reverse butterfly
//! maps (a, b) to (a + b, (a - b) w') with w' a power of the inverse
//! root. The forward transform runs stages 1..n (skipping the first
//! `expand_bits` stages over replicated input); the inverse runs stages
//! n..1 and then multiplies every element by 1 / 2^n.
use vstd::arithmetic::power2::pow2;
use vstd::prelude::*;

use crate::cpu::{frames_elem_write, seq_load, seq_store, wf_elems, BufferElem, CpuHal};
use crate::field::{
    fadd, fmul, fpow, fsub, in_field, lemma_fmul_assoc, lemma_fmul_comm, lemma_fmul_dist_fadd,
    lemma_fmul_dist_fsub, lemma_fmul_one, lemma_fpow_inverse, lemma_rou_inverse, rou_fwd,
    rou_fwd_elem, rou_rev, rou_rev_elem, Elem, INV_2, P,
};

verus! {

/// Every value of the row is a canonical residue.
pub open spec fn wf_vals(s: Seq<int>) -> bool {
    forall|i: int| 0 <= i < s.len() ==> in_field(#[trigger] s[i])
}

/// The stored words of an element sequence, as mathematical integers.
pub open spec fn elem_vals(s: Seq<Elem>) -> Seq<int> {
    Seq::new(s.len(), |i: int| s[i].val())
}

/// One row of a batched buffer.
pub open spec fn row_vals(s: Seq<Elem>, r: int, rs: int) -> Seq<int> {
    elem_vals(s).subrange(r * rs, (r + 1) * rs)
}

/// The value at position k after one forward butterfly stage.
pub open spec fn fwd_point(row: Seq<int>, s_bits: nat, k: int) -> int {
    let s = pow2((s_bits - 1) as nat) as int;
    let j = k % (2 * s);
    if j < s {
        fadd(row[k], fmul(fpow(rou_fwd(s_bits), j as nat), row[k + s]))
    } else {
        fsub(row[k - s], fmul(fpow(rou_fwd(s_bits), (j - s) as nat), row[k]))
    }
}

/// One forward butterfly stage applied to a whole row.
pub open spec fn fwd_stage(row: Seq<int>, s_bits: nat) -> Seq<int> {
    Seq::new(row.len(), |k: int| fwd_point(row, s_bits, k))
}

/// The value at position k after one reverse butterfly stage.
pub open spec fn rev_point(row: Seq<int>, s_bits: nat, k: int) -> int {
    let s = pow2((s_bits - 1) as nat) as int;
    let j = k % (2 * s);
    if j < s {
        fadd(row[k], row[k + s])
    } else {
        fmul(fsub(row[k - s], row[k]), fpow(rou_rev(s_bits), (j - s) as nat))
    }
}

/// One reverse butterfly stage applied to a whole row.
pub open spec fn rev_stage(row: Seq<int>, s_bits: nat) -> Seq<int> {
    Seq::new(row.len(), |k: int| rev_point(row, s_bits, k))
}

/// Forward stages lo+1 ..= s, applied in ascending order.
pub open spec fn fwd_stages(row: Seq<int>, lo: nat, s: nat) -> Seq<int>
    decreases s,
{
    if s <= lo {
        row
    } else {
        fwd_stage(fwd_stages(row, lo, (s - 1) as nat), s)
    }
}

/// Reverse stages n_bits ..= s, applied in descending order.
pub open spec fn rev_from(row: Seq<int>, n_bits: nat, s: nat) -> Seq<int>
    decreases n_bits + 1 - s,
{
    if s > n_bits {
        row
    } else {
        rev_stage(rev_from(row, n_bits, (s + 1) as nat), s)
    }
}

/// Every element multiplied by the scalar c.
pub open spec fn scale_row(row: Seq<int>, c: int) -> Seq<int> {
    Seq::new(row.len(), |k: int| fmul(c, row[k]))
}

/// The forward NTT of one row: butterfly stages expand_bits+1 ..= n_bits.
pub open spec fn evaluate_row(row: Seq<int>, n_bits: nat, expand_bits: nat) -> Seq<int> {
    fwd_stages(row, expand_bits, n_bits)
}

/// The inverse NTT of one row: reverse stages n_bits ..= 1, then a
/// pointwise multiplication by the inverse of the row size.
pub open spec fn interpolate_row(row: Seq<int>, n_bits: nat) -> Seq<int> {
    scale_row(rev_from(row, n_bits, 1), fpow(INV_2 as int, n_bits))
}

/// The exact base-2 logarithm of a power of two (floor logarithm
/// otherwise).
pub open spec fn ilog2(n: nat) -> nat
    decreases n,
{
    if n <= 1 {
        0
    } else {
        (1 + ilog2(n / 2)) as nat
    }
}

/// A stage keeps the row length and keeps every value canonical.
pub proof fn lemma_stage_wf(row: Seq<int>, s_bits: nat)
    ensures
        fwd_stage(row, s_bits).len() == row.len(),
        rev_stage(row, s_bits).len() == row.len(),
        wf_vals(fwd_stage(row, s_bits)),
        wf_vals(rev_stage(row, s_bits)),
{
    let pi = P as int;
    assert forall|i: int| 0 <= i < row.len() implies in_field(#[trigger] fwd_stage(row, s_bits)[i])
        && in_field(#[trigger] rev_stage(row, s_bits)[i]) by {
        assert(in_field(fwd_point(row, s_bits, i))) by {
            let s = pow2((s_bits - 1) as nat) as int;
            let j = i % (2 * s);
            if j < s {
                vstd::arithmetic::div_mod::lemma_mod_bound(
                    row[i] + fmul(fpow(rou_fwd(s_bits), j as nat), row[i + s]),
                    pi,
                );
            } else {
                vstd::arithmetic::div_mod::lemma_mod_bound(
                    row[i - s] - fmul(fpow(rou_fwd(s_bits), (j - s) as nat), row[i]),
                    pi,
                );
            }
        }
        assert(in_field(rev_point(row, s_bits, i))) by {
            let s = pow2((s_bits - 1) as nat) as int;
            let j = i % (2 * s);
            if j < s {
                vstd::arithmetic::div_mod::lemma_mod_bound(row[i] + row[i + s], pi);
            } else {
                vstd::arithmetic::div_mod::lemma_mod_bound(
                    fsub(row[i - s], row[i]) * fpow(rou_rev(s_bits), (j - s) as nat),
                    pi,
                );
            }
        }
    }
}

/// Iterated forward stages keep length and canonicity.
pub proof fn lemma_fwd_stages_wf(row: Seq<int>, lo: nat, s: nat)
    requires
        wf_vals(row),
    ensures
        fwd_stages(row, lo, s).len() == row.len(),
        wf_vals(fwd_stages(row, lo, s)),
    decreases s,
{
    if s <= lo {
    } else {
        lemma_fwd_stages_wf(row, lo, (s - 1) as nat);
        lemma_stage_wf(fwd_stages(row, lo, (s - 1) as nat), s);
    }
}

/// Iterated reverse stages keep length and canonicity.
pub proof fn lemma_rev_from_wf(row: Seq<int>, n_bits: nat, s: nat)
    requires
        wf_vals(row),
    ensures
        rev_from(row, n_bits, s).len() == row.len(),
        wf_vals(rev_from(row, n_bits, s)),
    decreases n_bits + 1 - s,
{
    if s > n_bits {
    } else {
        lemma_rev_from_wf(row, n_bits, (s + 1) as nat);
        lemma_stage_wf(rev_from(row, n_bits, (s + 1) as nat), s);
    }
}

/// Positions k, k + s and k - s sit in the same block of 2s, so their
/// remainders differ by exactly s.
proof fn lemma_partner_mod(k: int, s: int)
    requires
        0 <= k,
        1 <= s,
    ensures
        k % (2 * s) < s ==> (k + s) % (2 * s) == k % (2 * s) + s,
        k % (2 * s) >= s ==> (k - s) % (2 * s) == k % (2 * s) - s,
{
    let m = 2 * s;
    let j = k % m;
    let q = k / m;
    vstd::arithmetic::div_mod::lemma_fundamental_div_mod(k, m);
    if j < s {
        vstd::arithmetic::div_mod::lemma_mod_multiples_vanish(q, j + s, m);
        vstd::arithmetic::div_mod::lemma_small_mod((j + s) as nat, m as nat);
    } else {
        vstd::arithmetic::div_mod::lemma_mod_multiples_vanish(q, j - s, m);
        vstd::arithmetic::div_mod::lemma_small_mod((j - s) as nat, m as nat);
    }
}

/// A reverse stage exactly undoes the matching forward stage, up to a
/// factor of 2 on every element.
pub proof fn lemma_stage_roundtrip(row: Seq<int>, s_bits: nat)
    requires
        wf_vals(row),
        1 <= s_bits <= 27,
        (row.len() as int) % (2 * pow2((s_bits - 1) as nat) as int) == 0,
    ensures
        rev_stage(fwd_stage(row, s_bits), s_bits) =~= scale_row(row, 2),
{
    let pi = P as int;
    let s = pow2((s_bits - 1) as nat) as int;
    let m = 2 * s;
    let ff = fwd_stage(row, s_bits);
    vstd::arithmetic::power2::lemma_pow2_pos((s_bits - 1) as nat);
    assert forall|k: int| 0 <= k < row.len() implies rev_stage(ff, s_bits)[k] == scale_row(
        row,
        2,
    )[k] by {
        let j = k % m;
        vstd::arithmetic::div_mod::lemma_mod_bound(k, m);
        lemma_partner_mod(k, s);
        lemma_block_bound(k, s, row.len() as int);
        if j < s {
            let a = row[k];
            let b = row[k + s];
            let w = fpow(rou_fwd(s_bits), j as nat);
            let wb = fmul(w, b);
            assert(ff[k] == fadd(a, wb));
            assert(ff[k + s] == fsub(a, wb));
            assert(rev_point(ff, s_bits, k) == fadd(fadd(a, wb), fsub(a, wb)));
            vstd::arithmetic::div_mod::lemma_add_mod_noop(a + wb, a - wb, pi);
            assert(fadd(fadd(a, wb), fsub(a, wb)) == (2 * a) % pi);
        } else {
            let a = row[k - s];
            let b = row[k];
            let t = (j - s) as nat;
            let w = fpow(rou_fwd(s_bits), t);
            let wr = fpow(rou_rev(s_bits), t);
            let wb = fmul(w, b);
            assert(ff[k - s] == fadd(a, wb));
            assert(ff[k] == fsub(a, wb));
            assert(rev_point(ff, s_bits, k) == fmul(fsub(fadd(a, wb), fsub(a, wb)), wr));
            vstd::arithmetic::div_mod::lemma_sub_mod_noop(a + wb, a - wb, pi);
            assert(fsub(fadd(a, wb), fsub(a, wb)) == (2 * wb) % pi);
            assert((2 * wb) % pi == fmul(2, wb));
            lemma_fmul_assoc(2, wb, wr);
            lemma_fmul_comm(w, b);
            lemma_fmul_assoc(b, w, wr);
            lemma_rou_inverse(s_bits);
            lemma_fpow_inverse(rou_fwd(s_bits), rou_rev(s_bits), t);
            lemma_fmul_one(b);
            assert(fmul(fmul(2, wb), wr) == fmul(2, b));
        }
    }
}

/// Inside a row whose length is a multiple of the block size, the
/// butterfly partner of every position is still inside the row.
proof fn lemma_block_bound(k: int, s: int, len: int)
    requires
        0 <= k < len,
        1 <= s,
        len % (2 * s) == 0,
    ensures
        k % (2 * s) < s ==> k + s < len,
        k % (2 * s) >= s ==> 0 <= k - s,
{
    let m = 2 * s;
    let q = k / m;
    let j = k % m;
    vstd::arithmetic::div_mod::lemma_fundamental_div_mod(k, m);
    vstd::arithmetic::div_mod::lemma_fundamental_div_mod(len, m);
    vstd::arithmetic::div_mod::lemma_mod_bound(k, m);
    vstd::arithmetic::div_mod::lemma_div_pos_is_pos(k, m);
    assert(m * q >= 0) by (nonlinear_arith)
        requires
            m > 0,
            q >= 0,
    ;
    let ql = len / m;
    if j < s {
        assert(q < ql) by {
            if q >= ql {
                vstd::arithmetic::mul::lemma_mul_inequality(ql, q, m);
                assert(m * ql <= m * q) by (nonlinear_arith)
                    requires
                        ql <= q,
                        m > 0,
                ;
            }
        }
        assert(m * (q + 1) <= m * ql) by (nonlinear_arith)
            requires
                q + 1 <= ql,
                m > 0,
        ;
        assert(m * (q + 1) == m * q + m) by (nonlinear_arith);
    }
}

/// A reverse stage commutes with scaling every element by a constant.
pub proof fn lemma_rev_scale(row: Seq<int>, s_bits: nat, c: int)
    requires
        s_bits >= 1,
        (row.len() as int) % (2 * pow2((s_bits - 1) as nat) as int) == 0,
    ensures
        rev_stage(scale_row(row, c), s_bits) =~= scale_row(rev_stage(row, s_bits), c),
{
    let s = pow2((s_bits - 1) as nat) as int;
    let m = 2 * s;
    vstd::arithmetic::power2::lemma_pow2_pos((s_bits - 1) as nat);
    assert forall|k: int| 0 <= k < row.len() implies rev_stage(scale_row(row, c), s_bits)[k]
        == scale_row(rev_stage(row, s_bits), c)[k] by {
        let j = k % m;
        vstd::arithmetic::div_mod::lemma_mod_bound(k, m);
        lemma_block_bound(k, s, row.len() as int);
        if j < s {
            lemma_fmul_dist_fadd(c, row[k], row[k + s]);
        } else {
            let wr = fpow(rou_rev(s_bits), (j - s) as nat);
            let d = fsub(row[k - s], row[k]);
            lemma_fmul_dist_fsub(c, row[k - s], row[k]);
            lemma_fmul_assoc(c, d, wr);
        }
    }
}

/// Scaling twice is scaling by the field product of the two factors.
pub proof fn lemma_scale_scale(row: Seq<int>, a: int, b: int)
    ensures
        scale_row(scale_row(row, a), b) =~= scale_row(row, fmul(b, a)),
{
    assert forall|k: int| 0 <= k < row.len() implies scale_row(scale_row(row, a), b)[k]
        == scale_row(row, fmul(b, a))[k] by {
        lemma_fmul_assoc(b, a, row[k]);
        crate::field::lemma_fmul_noop(b * a, row[k]);
    }
}

/// Scaling by one is the identity on canonical rows.
pub proof fn lemma_scale_one(row: Seq<int>)
    requires
        wf_vals(row),
    ensures
        scale_row(row, 1) =~= row,
{
    assert forall|k: int| 0 <= k < row.len() implies scale_row(row, 1)[k] == row[k] by {
        lemma_fmul_one(row[k]);
    }
}

/// Peeling the reverse stages off a fully transformed row one at a time:
/// what remains is the partially transformed row, doubled once per stage
/// already undone.
#[verifier::rlimit(100)]
proof fn lemma_roundtrip_aux(row: Seq<int>, n_bits: nat, s: nat)
    requires
        wf_vals(row),
        row.len() == pow2(n_bits),
        n_bits <= 27,
        s <= n_bits,
    ensures
        rev_from(fwd_stages(row, 0, n_bits), n_bits, (s + 1) as nat) =~= scale_row(
            fwd_stages(row, 0, s),
            fpow(2, (n_bits - s) as nat),
        ),
    decreases n_bits - s,
{
    let ev = fwd_stages(row, 0, n_bits);
    if s == n_bits {
        lemma_fwd_stages_wf(row, 0, n_bits);
        lemma_scale_one(ev);
    } else {
        lemma_roundtrip_aux(row, n_bits, (s + 1) as nat);
        let fs = fwd_stages(row, 0, s);
        let fs1 = fwd_stages(row, 0, (s + 1) as nat);
        let c1 = fpow(2, (n_bits - s - 1) as nat);
        // rev_from(ev, n, s + 1) unfolds to one stage on the peeled row
        assert(rev_from(ev, n_bits, (s + 1) as nat) == rev_stage(
            rev_from(ev, n_bits, (s + 2) as nat),
            (s + 1) as nat,
        ));
        assert(rev_from(ev, n_bits, (s + 2) as nat) =~= scale_row(fs1, c1));
        lemma_fwd_stages_wf(row, 0, s);
        lemma_fwd_stages_wf(row, 0, (s + 1) as nat);
        assert((row.len() as int) % (2 * pow2(((s + 1) - 1) as nat) as int) == 0) by {
            vstd::arithmetic::power2::lemma_pow2_adds((s + 1) as nat, (n_bits - s - 1) as nat);
            vstd::arithmetic::power2::lemma_pow2_unfold((s + 1) as nat);
            vstd::arithmetic::power2::lemma_pow2_pos(s as nat);
            let m = 2 * (pow2(s as nat) as int);
            let x = pow2((n_bits - s - 1) as nat) as int;
            vstd::arithmetic::div_mod::lemma_mod_multiples_basic(x, m);
            assert(pow2(n_bits) as int == m * x) by (nonlinear_arith)
                requires
                    pow2(n_bits) == pow2((s + 1) as nat) * pow2((n_bits - s - 1) as nat),
                    pow2((s + 1) as nat) == 2 * pow2(s as nat),
                    m == 2 * (pow2(s as nat) as int),
                    x == pow2((n_bits - s - 1) as nat) as int,
            ;
            assert(m * x == x * m) by (nonlinear_arith);
            assert((x * m) % m == 0);
            assert(((s + 1) - 1) as nat == s);
            assert((row.len() as int) % m == 0);
        }
        lemma_rev_scale(fs1, (s + 1) as nat, c1);
        assert(rev_stage(scale_row(fs1, c1), (s + 1) as nat) =~= scale_row(
            rev_stage(fs1, (s + 1) as nat),
            c1,
        ));
        // fs1 is one forward stage on fs; undoing it doubles fs
        assert(fs1 == fwd_stage(fs, (s + 1) as nat));
        lemma_stage_roundtrip(fs, (s + 1) as nat);
        assert(rev_stage(fs1, (s + 1) as nat) =~= scale_row(fs, 2));
        lemma_rev_scale(fs, (s + 1) as nat, 2);
        lemma_scale_scale(fs, 2, c1);
        // fpow(2, n - s) == fmul(fpow(2, n - s - 1), 2)
        assert(fpow(2, (n_bits - s) as nat) == fmul(c1, 2));
        assert(rev_stage(scale_row(fs1, c1), (s + 1) as nat) =~= scale_row(
            scale_row(fs, 2),
            c1,
        )) by {
            assert forall|k: int| 0 <= k < fs1.len() implies rev_stage(scale_row(fs1, c1), (s + 1) as nat)[k]
                == scale_row(scale_row(fs, 2), c1)[k] by {
                assert(rev_stage(scale_row(fs1, c1), (s + 1) as nat)[k] == scale_row(
                    rev_stage(fs1, (s + 1) as nat),
                    c1,
                )[k]);
                assert(scale_row(rev_stage(fs1, (s + 1) as nat), c1)[k] == fmul(
                    c1,
                    rev_stage(fs1, (s + 1) as nat)[k],
                ));
                assert(rev_stage(fs1, (s + 1) as nat)[k] == scale_row(fs, 2)[k]);
            }
        }
    }
}

/// Forward then inverse NTT is the identity: interpolating the full
/// evaluation of any canonical row of length 2^n gives the row back.
pub proof fn lemma_ntt_roundtrip(row: Seq<int>, n_bits: nat)
    requires
        wf_vals(row),
        row.len() == pow2(n_bits),
        n_bits <= 27,
    ensures
        interpolate_row(evaluate_row(row, n_bits, 0), n_bits) =~= row,
{
    lemma_roundtrip_aux(row, n_bits, 0);
    let ev = fwd_stages(row, 0, n_bits);
    let p2 = fpow(2, n_bits);
    let ip2 = fpow(INV_2 as int, n_bits);
    assert(rev_from(ev, n_bits, 1) =~= scale_row(row, p2));
    assert(interpolate_row(evaluate_row(row, n_bits, 0), n_bits) == scale_row(
        rev_from(ev, n_bits, 1),
        ip2,
    ));
    assert(scale_row(rev_from(ev, n_bits, 1), ip2) =~= scale_row(scale_row(row, p2), ip2)) by {
        assert forall|k: int| 0 <= k < row.len() implies scale_row(rev_from(ev, n_bits, 1), ip2)[k]
            == scale_row(scale_row(row, p2), ip2)[k] by {
            assert(rev_from(ev, n_bits, 1)[k] == scale_row(row, p2)[k]);
        }
    }
    lemma_scale_scale(row, p2, ip2);
    assert(fmul(2, INV_2 as int) == 1) by {
        assert((2int * 1006632961int) % 2013265921int == 1int) by (nonlinear_arith);
    }
    lemma_fpow_inverse(2, INV_2 as int, n_bits);
    assert(fmul(ip2, p2) == 1) by {
        lemma_fmul_comm(ip2, p2);
    }
    lemma_scale_one(row);
}


/// pow2(a) divides pow2(b) whenever a <= b.
pub proof fn lemma_pow2_divides(a: nat, b: nat)
    requires
        a <= b,
    ensures
        (pow2(b) as int) % (pow2(a) as int) == 0,
{
    vstd::arithmetic::power2::lemma_pow2_adds(a, (b - a) as nat);
    vstd::arithmetic::power2::lemma_pow2_pos(a);
    vstd::arithmetic::div_mod::lemma_mod_multiples_basic(
        pow2((b - a) as nat) as int,
        pow2(a) as int,
    );
    assert(pow2(b) as int == (pow2(a) as int) * (pow2((b - a) as nat) as int))
        by (nonlinear_arith)
        requires
            pow2(b) == pow2(a) * pow2((b - a) as nat),
    ;
}

/// Extracting row r of a batched region is the same as taking the row of
/// the extracted region.
pub proof fn lemma_row_extract(mem: Seq<Elem>, off: int, size: int, r: int, rs: int)
    requires
        0 <= off,
        0 <= r,
        rs >= 0,
        (r + 1) * rs <= size,
        off + size <= mem.len(),
    ensures
        elem_vals(mem.subrange(off + r * rs, off + (r + 1) * rs)) =~= row_vals(
            mem.subrange(off, off + size),
            r,
            rs,
        ),
{
    assert((r + 1) * rs == r * rs + rs) by (nonlinear_arith);
    assert(r * rs >= 0) by (nonlinear_arith)
        requires
            r >= 0,
            rs >= 0,
    ;
    let s1 = mem.subrange(off + r * rs, off + (r + 1) * rs);
    let s2 = mem.subrange(off, off + size);
    assert forall|i: int| 0 <= i < rs implies elem_vals(s1)[i] == row_vals(s2, r, rs)[i] by {
        assert(s1[i] == mem[off + r * rs + i]);
        assert(s2[r * rs + i] == mem[off + r * rs + i]);
    }
}

/// 2^k as a machine word.
pub fn pow2_usize(k: usize) -> (r: usize)
    requires
        k <= 30,
    ensures
        r == pow2(k as nat),
{
    let mut r: usize = 1;
    let mut i: usize = 0;
    proof {
        vstd::arithmetic::power2::lemma2_to64();
    }
    while i < k
        invariant
            i <= k,
            k <= 30,
            r == pow2(i as nat),
        decreases k - i,
    {
        proof {
            vstd::arithmetic::power2::lemma_pow2_unfold((i + 1) as nat);
            if ((i + 1) as nat) <= 30 {
                vstd::arithmetic::power2::lemma_pow2_strictly_increases((i + 1) as nat, 31);
            }
            vstd::arithmetic::power2::lemma2_to64();
        }
        r = r * 2;
        i = i + 1;
    }
    r
}

/// One forward butterfly stage applied to a copy of the row.
pub fn fwd_stage_row(row: &Vec<Elem>, s_bits: usize) -> (r: Vec<Elem>)
    requires
        wf_elems(row@),
        1 <= s_bits <= 27,
        (row@.len() as int) % (2 * pow2((s_bits - 1) as nat) as int) == 0,
    ensures
        r@.len() == row@.len(),
        wf_elems(r@),
        elem_vals(r@) =~= fwd_stage(elem_vals(row@), s_bits as nat),
{
    let len: usize = row.len();
    let s_size: usize = pow2_usize(s_bits - 1);
    let w = rou_fwd_elem(s_bits);
    proof {
        vstd::arithmetic::power2::lemma_pow2_pos((s_bits - 1) as nat);
        vstd::arithmetic::power2::lemma2_to64();
        if ((s_bits - 1) as nat) < 26 {
            vstd::arithmetic::power2::lemma_pow2_strictly_increases((s_bits - 1) as nat, 26);
        }
    }
    let mut out: Vec<Elem> = Vec::new();
    let mut k: usize = 0;
    while k < len
        invariant
            wf_elems(row@),
            row@.len() == len,
            1 <= s_bits <= 27,
            s_size == pow2((s_bits - 1) as nat),
            1 <= s_size <= 0x4000000,
            (len as int) % (2 * s_size as int) == 0,
            w.wf(),
            w.val() == rou_fwd(s_bits as nat),
            k <= len,
            out@.len() == k,
            wf_elems(out@),
            forall|i: int|
                0 <= i < k ==> out@[i].val() == fwd_point(elem_vals(row@), s_bits as nat, i),
        decreases len - k,
    {
        proof {
            vstd::arithmetic::div_mod::lemma_mod_bound(k as int, 2 * s_size as int);
            lemma_block_bound(k as int, s_size as int, len as int);
        }
        let j: usize = k % (2 * s_size);
        let e = if j < s_size {
            let t = w.pow(j as u32);
            row[k].add(t.mul(row[k + s_size]))
        } else {
            let t = w.pow((j - s_size) as u32);
            row[k - s_size].sub(t.mul(row[k]))
        };
        proof {
            let rvals = elem_vals(row@);
            assert(rvals[k as int] == row@[k as int].val());
            if j < s_size {
                assert(rvals[k + s_size] == row@[k + s_size].val());
            } else {
                assert(rvals[k - s_size] == row@[k - s_size].val());
            }
            assert(e.val() == fwd_point(rvals, s_bits as nat, k as int));
        }
        out.push(e);
        k += 1;
    }
    out
}

/// One reverse butterfly stage applied to a copy of the row.
pub fn rev_stage_row(row: &Vec<Elem>, s_bits: usize) -> (r: Vec<Elem>)
    requires
        wf_elems(row@),
        1 <= s_bits <= 27,
        (row@.len() as int) % (2 * pow2((s_bits - 1) as nat) as int) == 0,
    ensures
        r@.len() == row@.len(),
        wf_elems(r@),
        elem_vals(r@) =~= rev_stage(elem_vals(row@), s_bits as nat),
{
    let len: usize = row.len();
    let s_size: usize = pow2_usize(s_bits - 1);
    let w = rou_rev_elem(s_bits);
    proof {
        vstd::arithmetic::power2::lemma_pow2_pos((s_bits - 1) as nat);
        vstd::arithmetic::power2::lemma2_to64();
        if ((s_bits - 1) as nat) < 26 {
            vstd::arithmetic::power2::lemma_pow2_strictly_increases((s_bits - 1) as nat, 26);
        }
    }
    let mut out: Vec<Elem> = Vec::new();
    let mut k: usize = 0;
    while k < len
        invariant
            wf_elems(row@),
            row@.len() == len,
            1 <= s_bits <= 27,
            s_size == pow2((s_bits - 1) as nat),
            1 <= s_size <= 0x4000000,
            (len as int) % (2 * s_size as int) == 0,
            w.wf(),
            w.val() == rou_rev(s_bits as nat),
            k <= len,
            out@.len() == k,
            wf_elems(out@),
            forall|i: int|
                0 <= i < k ==> out@[i].val() == rev_point(elem_vals(row@), s_bits as nat, i),
        decreases len - k,
    {
        proof {
            vstd::arithmetic::div_mod::lemma_mod_bound(k as int, 2 * s_size as int);
            lemma_block_bound(k as int, s_size as int, len as int);
        }
        let j: usize = k % (2 * s_size);
        let e = if j < s_size {
            row[k].add(row[k + s_size])
        } else {
            let t = w.pow((j - s_size) as u32);
            row[k - s_size].sub(row[k]).mul(t)
        };
        proof {
            let rvals = elem_vals(row@);
            assert(rvals[k as int] == row@[k as int].val());
            if j < s_size {
                assert(rvals[k + s_size] == row@[k + s_size].val());
            } else {
                assert(rvals[k - s_size] == row@[k - s_size].val());
            }
            assert(e.val() == rev_point(rvals, s_bits as nat, k as int));
        }
        out.push(e);
        k += 1;
    }
    out
}

/// Multiplies every element of the row by the scalar c.
pub fn scale_row_elems(row: &Vec<Elem>, c: Elem) -> (r: Vec<Elem>)
    requires
        wf_elems(row@),
        c.wf(),
    ensures
        r@.len() == row@.len(),
        wf_elems(r@),
        elem_vals(r@) =~= scale_row(elem_vals(row@), c.val()),
{
    let len: usize = row.len();
    let mut out: Vec<Elem> = Vec::new();
    let mut k: usize = 0;
    while k < len
        invariant
            wf_elems(row@),
            row@.len() == len,
            c.wf(),
            k <= len,
            out@.len() == k,
            wf_elems(out@),
            forall|i: int| 0 <= i < k ==> out@[i].val() == fmul(c.val(), elem_vals(row@)[i]),
        decreases len - k,
    {
        out.push(c.mul(row[k]));
        k += 1;
    }
    out
}

/// After one row of a batched region is overwritten, the earlier rows and
/// the later rows read back unchanged, and the written row reads back as
/// the written data.
proof fn lemma_rows_after_store(
    pre: Seq<Elem>,
    post: Seq<Elem>,
    off: int,
    size: int,
    r: int,
    rs: int,
    data: Seq<Elem>,
)
    requires
        post.len() == pre.len(),
        off >= 0,
        rs >= 1,
        r >= 0,
        (r + 1) * rs <= size,
        off + size <= pre.len(),
        data.len() == rs,
        forall|i: int|
            0 <= i < post.len() && !(off + r * rs <= i < off + r * rs + rs) ==> post[i] == pre[i],
        forall|i: int| 0 <= i < rs ==> post[off + r * rs + i] == data[i],
    ensures
        forall|t: int, i: int|
            0 <= t < r && 0 <= i < rs ==> #[trigger] post[off + t * rs + i] == pre[off + t * rs
                + i],
        forall|i: int| 0 <= i < rs ==> post[off + r * rs + i] == data[i],
        forall|i: int| off + (r + 1) * rs <= i < off + size ==> post[i] == pre[i],
{
    assert((r + 1) * rs == r * rs + rs) by (nonlinear_arith);
    assert forall|t: int, i: int| 0 <= t < r && 0 <= i < rs implies #[trigger] post[off + t * rs
        + i] == pre[off + t * rs + i] by {
        vstd::arithmetic::mul::lemma_mul_inequality(t + 1, r, rs);
        assert((t + 1) * rs == t * rs + rs) by (nonlinear_arith);
        assert(t * rs >= 0) by (nonlinear_arith)
            requires
                t >= 0,
                rs >= 0,
        ;
    }
}

impl CpuHal {
    /// In-place forward NTT on each of `count` rows, each of length
    /// 2^n_bits, over the base field, using the forward root-of-unity
    /// table. The first `expand_bits` butterfly stages are skipped: on
    /// input produced by batch_expand they would only repeat the
    /// replication the expansion has already performed.
    pub fn batch_evaluate_ntt(&mut self, io: &BufferElem, count: usize, expand_bits: usize)
        requires
            old(self).wf(),
            old(self).elem_ok(*io),
            count >= 1,
            io.size == count * (io.size / count),
            io.size / count >= 1,
            pow2(ilog2((io.size / count) as nat)) == io.size / count,
            ilog2((io.size / count) as nat) < 27,
            expand_bits <= ilog2((io.size / count) as nat),
        ensures
            final(self).wf(),
            final(self).elem_ok(*io),
            frames_elem_write(*old(self), *final(self), io.offset as int, io.size as int),
            forall|r: int|
                0 <= r < count ==> #[trigger] row_vals(
                    final(self).elem_seq(*io),
                    r,
                    (io.size / count) as int,
                ) =~= evaluate_row(
                    row_vals(old(self).elem_seq(*io), r, (io.size / count) as int),
                    ilog2((io.size / count) as nat),
                    expand_bits as nat,
                ),
    {
        let rs: usize = io.size / count;
        let ghost nb = ilog2(rs as nat);
        proof {
            vstd::arithmetic::power2::lemma2_to64();
            if nb < 26 {
                vstd::arithmetic::power2::lemma_pow2_strictly_increases(nb, 26);
            }
        }
        let n_bits: usize = crate::log2_ceil(rs);
        proof {
            if n_bits < nb {
                vstd::arithmetic::power2::lemma_pow2_strictly_increases(n_bits as nat, nb);
            }
            if n_bits > nb {
                if ((n_bits - 1) as nat) > nb {
                    vstd::arithmetic::power2::lemma_pow2_strictly_increases(
                        nb,
                        (n_bits - 1) as nat,
                    );
                }
            }
            assert(n_bits == nb);
        }
        let total: usize = self.e_mem.len();
        let mut r: usize = 0;
        while r < count
            invariant
                self.wf(),
                io.offset + io.size <= self.e_mem@.len(),
                self.e_mem@.len() == total,
                self.e_mem@.len() == old(self).e_mem@.len(),
                self.x_mem@ == old(self).x_mem@,
                self.u_mem@ == old(self).u_mem@,
                self.d_mem@ == old(self).d_mem@,
                rs == io.size / count,
                rs >= 1,
                io.size == count * rs,
                rs == pow2(nb),
                nb < 27,
                expand_bits <= nb,
                n_bits == nb,
                r <= count,
                forall|i: int|
                    0 <= i < self.e_mem@.len() && !(io.offset <= i < io.offset + io.size)
                        ==> self.e_mem@[i] == old(self).e_mem@[i],
                forall|i: int|
                    io.offset + r * rs <= i < io.offset + io.size ==> self.e_mem@[i] == old(self).e_mem@[i],
                forall|t: int, i: int|
                    0 <= t < r && 0 <= i < rs ==> (#[trigger] self.e_mem@[io.offset + t * rs
                        + i]).val() == evaluate_row(
                        row_vals(old(self).elem_seq(*io), t, rs as int),
                        nb,
                        expand_bits as nat,
                    )[i],
            decreases count - r,
        {
            proof {
                vstd::arithmetic::mul::lemma_mul_inequality(r + 1, count as int, rs as int);
                assert((r + 1) * rs == r * rs + rs) by (nonlinear_arith);
                assert(r * rs >= 0) by (nonlinear_arith)
                    requires
                        r >= 0,
                        rs >= 0,
                ;
            }
            let row_off: usize = io.offset + r * rs;
            let row0 = seq_load(&self.e_mem, row_off, rs);
            proof {
                crate::cpu::lemma_wf_elems_subrange(
                    self.e_mem@,
                    row_off as int,
                    row_off + rs,
                );
            }
            let ghost orig = elem_vals(row0@);
            proof {
                lemma_row_extract(
                    old(self).e_mem@,
                    io.offset as int,
                    io.size as int,
                    r as int,
                    rs as int,
                );
                assert(orig =~= row_vals(old(self).elem_seq(*io), r as int, rs as int)) by {
                    assert forall|i: int| 0 <= i < rs implies orig[i] == elem_vals(
                        old(self).e_mem@.subrange(row_off as int, row_off + rs),
                    )[i] by {
                        assert(row0@[i] == self.e_mem@[row_off + i]);
                        assert(self.e_mem@[row_off + i] == old(self).e_mem@[row_off + i]);
                    }
                }
            }
            let mut row = row0;
            let mut s_bits: usize = expand_bits + 1;
            proof {
                assert(fwd_stages(orig, expand_bits as nat, expand_bits as nat) == orig);
            }
            while s_bits <= n_bits
                invariant
                    wf_elems(row@),
                    row@.len() == rs,
                    rs == pow2(nb),
                    n_bits == nb,
                    nb < 27,
                    expand_bits + 1 <= s_bits <= n_bits + 1,
                    elem_vals(row@) =~= fwd_stages(
                        orig,
                        expand_bits as nat,
                        (s_bits - 1) as nat,
                    ),
                decreases n_bits + 1 - s_bits,
            {
                proof {
                    lemma_pow2_divides(s_bits as nat, nb);
                    vstd::arithmetic::power2::lemma_pow2_unfold(s_bits as nat);
                }
                let next = fwd_stage_row(&row, s_bits);
                proof {
                    assert(fwd_stages(orig, expand_bits as nat, s_bits as nat) == fwd_stage(
                        fwd_stages(orig, expand_bits as nat, (s_bits - 1) as nat),
                        s_bits as nat,
                    ));
                }
                row = next;
                s_bits += 1;
            }
            let ghost pre_store = self.e_mem@;
            seq_store(&mut self.e_mem, row_off, &row);
            proof {
                crate::cpu::lemma_wf_elems_store(
                    pre_store,
                    self.e_mem@,
                    row_off as int,
                    row@,
                );
                lemma_rows_after_store(
                    pre_store,
                    self.e_mem@,
                    io.offset as int,
                    io.size as int,
                    r as int,
                    rs as int,
                    row@,
                );
                assert forall|t: int, i: int| 0 <= t < r + 1 && 0 <= i < rs implies (
                #[trigger] self.e_mem@[io.offset + t * rs + i]).val() == evaluate_row(
                    row_vals(old(self).elem_seq(*io), t, rs as int),
                    nb,
                    expand_bits as nat,
                )[i] by {
                    if t < r {
                        assert(self.e_mem@[io.offset + t * rs + i] == pre_store[io.offset + t
                            * rs + i]);
                    } else {
                        assert(self.e_mem@[io.offset + r * rs + i] == row@[i]);
                        assert(elem_vals(row@)[i] == evaluate_row(orig, nb, expand_bits as nat)[i]);
                    }
                }
                assert forall|i: int|
                    io.offset + (r + 1) * rs <= i < io.offset + io.size implies self.e_mem@[i]
                    == old(self).e_mem@[i] by {
                }
            }
            r += 1;
        }
        proof {
            assert forall|t: int| 0 <= t < count implies row_vals(
                final(self).elem_seq(*io),
                t,
                rs as int,
            ) =~= evaluate_row(
                row_vals(old(self).elem_seq(*io), t, rs as int),
                nb,
                expand_bits as nat,
            ) by {
                vstd::arithmetic::mul::lemma_mul_inequality(t + 1, count as int, rs as int);
                assert((t + 1) * rs == t * rs + rs) by (nonlinear_arith);
                assert(t * rs >= 0) by (nonlinear_arith)
                    requires
                        t >= 0,
                        rs >= 0,
                ;
                lemma_fwd_stages_wf(row_vals(old(self).elem_seq(*io), t, rs as int),
                    expand_bits as nat, nb);
                assert forall|i: int| 0 <= i < rs implies row_vals(
                    final(self).elem_seq(*io),
                    t,
                    rs as int,
                )[i] == evaluate_row(
                    row_vals(old(self).elem_seq(*io), t, rs as int),
                    nb,
                    expand_bits as nat,
                )[i] by {
                    assert(final(self).elem_seq(*io)[t * rs + i] == final(self).e_mem@[io.offset
                        + t * rs + i]);
                }
            }
        }
    }
}

impl CpuHal {
    /// In-place inverse NTT on each of `count` rows: reverse butterfly
    /// stages n_bits ..= 1 using the inverse root-of-unity table, then a
    /// pointwise multiplication of every element by 1 / row_size.
    pub fn batch_interpolate_ntt(&mut self, io: &BufferElem, count: usize)
        requires
            old(self).wf(),
            old(self).elem_ok(*io),
            count >= 1,
            io.size == count * (io.size / count),
            io.size / count >= 1,
            pow2(ilog2((io.size / count) as nat)) == io.size / count,
            ilog2((io.size / count) as nat) < 27,
        ensures
            final(self).wf(),
            final(self).elem_ok(*io),
            frames_elem_write(*old(self), *final(self), io.offset as int, io.size as int),
            forall|r: int|
                0 <= r < count ==> #[trigger] row_vals(
                    final(self).elem_seq(*io),
                    r,
                    (io.size / count) as int,
                ) =~= interpolate_row(
                    row_vals(old(self).elem_seq(*io), r, (io.size / count) as int),
                    ilog2((io.size / count) as nat),
                ),
    {
        let rs: usize = io.size / count;
        let ghost nb = ilog2(rs as nat);
        proof {
            vstd::arithmetic::power2::lemma2_to64();
            if nb < 26 {
                vstd::arithmetic::power2::lemma_pow2_strictly_increases(nb, 26);
            }
        }
        let n_bits: usize = crate::log2_ceil(rs);
        proof {
            if n_bits < nb {
                vstd::arithmetic::power2::lemma_pow2_strictly_increases(n_bits as nat, nb);
            }
            if n_bits > nb {
                if ((n_bits - 1) as nat) > nb {
                    vstd::arithmetic::power2::lemma_pow2_strictly_increases(
                        nb,
                        (n_bits - 1) as nat,
                    );
                }
            }
            assert(n_bits == nb);
        }
        let total: usize = self.e_mem.len();
        let mut r: usize = 0;
        while r < count
            invariant
                self.wf(),
                io.offset + io.size <= self.e_mem@.len(),
                self.e_mem@.len() == total,
                self.e_mem@.len() == old(self).e_mem@.len(),
                self.x_mem@ == old(self).x_mem@,
                self.u_mem@ == old(self).u_mem@,
                self.d_mem@ == old(self).d_mem@,
                rs == io.size / count,
                rs >= 1,
                io.size == count * rs,
                rs == pow2(nb),
                nb < 27,
                n_bits == nb,
                r <= count,
                forall|i: int|
                    0 <= i < self.e_mem@.len() && !(io.offset <= i < io.offset + io.size)
                        ==> self.e_mem@[i] == old(self).e_mem@[i],
                forall|i: int|
                    io.offset + r * rs <= i < io.offset + io.size ==> self.e_mem@[i] == old(self).e_mem@[i],
                forall|t: int, i: int|
                    0 <= t < r && 0 <= i < rs ==> (#[trigger] self.e_mem@[io.offset + t * rs
                        + i]).val() == interpolate_row(
                        row_vals(old(self).elem_seq(*io), t, rs as int),
                        nb,
                    )[i],
            decreases count - r,
        {
            proof {
                vstd::arithmetic::mul::lemma_mul_inequality(r + 1, count as int, rs as int);
                assert((r + 1) * rs == r * rs + rs) by (nonlinear_arith);
                assert(r * rs >= 0) by (nonlinear_arith)
                    requires
                        r >= 0,
                        rs >= 0,
                ;
            }
            let row_off: usize = io.offset + r * rs;
            let row0 = seq_load(&self.e_mem, row_off, rs);
            proof {
                crate::cpu::lemma_wf_elems_subrange(
                    self.e_mem@,
                    row_off as int,
                    row_off + rs,
                );
            }
            let ghost orig = elem_vals(row0@);
            proof {
                lemma_row_extract(
                    old(self).e_mem@,
                    io.offset as int,
                    io.size as int,
                    r as int,
                    rs as int,
                );
                assert(orig =~= row_vals(old(self).elem_seq(*io), r as int, rs as int)) by {
                    assert forall|i: int| 0 <= i < rs implies orig[i] == elem_vals(
                        old(self).e_mem@.subrange(row_off as int, row_off + rs),
                    )[i] by {
                        assert(row0@[i] == self.e_mem@[row_off + i]);
                        assert(self.e_mem@[row_off + i] == old(self).e_mem@[row_off + i]);
                    }
                }
            }
            let mut row = row0;
            let mut s_bits: usize = n_bits;
            proof {
                assert(rev_from(orig, nb, (n_bits + 1) as nat) == orig);
            }
            while s_bits >= 1
                invariant
                    wf_elems(row@),
                    row@.len() == rs,
                    rs == pow2(nb),
                    n_bits == nb,
                    nb < 27,
                    s_bits <= n_bits,
                    elem_vals(row@) =~= rev_from(orig, nb, (s_bits + 1) as nat),
                decreases s_bits,
            {
                proof {
                    lemma_pow2_divides(s_bits as nat, nb);
                    vstd::arithmetic::power2::lemma_pow2_unfold(s_bits as nat);
                }
                let next = rev_stage_row(&row, s_bits);
                proof {
                    assert(rev_from(orig, nb, s_bits as nat) == rev_stage(
                        rev_from(orig, nb, (s_bits + 1) as nat),
                        s_bits as nat,
                    ));
                }
                row = next;
                s_bits -= 1;
            }
            let norm = Elem { v: INV_2 }.pow(n_bits as u32);
            let scaled = scale_row_elems(&row, norm);
            proof {
                assert(elem_vals(scaled@) =~= interpolate_row(orig, nb));
            }
            let row = scaled;
            let ghost pre_store = self.e_mem@;
            seq_store(&mut self.e_mem, row_off, &row);
            proof {
                crate::cpu::lemma_wf_elems_store(
                    pre_store,
                    self.e_mem@,
                    row_off as int,
                    row@,
                );
                lemma_rows_after_store(
                    pre_store,
                    self.e_mem@,
                    io.offset as int,
                    io.size as int,
                    r as int,
                    rs as int,
                    row@,
                );
                assert forall|t: int, i: int| 0 <= t < r + 1 && 0 <= i < rs implies (
                #[trigger] self.e_mem@[io.offset + t * rs + i]).val() == interpolate_row(
                    row_vals(old(self).elem_seq(*io), t, rs as int),
                    nb,
                )[i] by {
                    if t < r {
                        assert(self.e_mem@[io.offset + t * rs + i] == pre_store[io.offset + t
                            * rs + i]);
                    } else {
                        assert(self.e_mem@[io.offset + r * rs + i] == row@[i]);
                        assert(elem_vals(row@)[i] == interpolate_row(orig, nb)[i]);
                    }
                }
                assert forall|i: int|
                    io.offset + (r + 1) * rs <= i < io.offset + io.size implies self.e_mem@[i]
                    == old(self).e_mem@[i] by {
                }
            }
            r += 1;
        }
        proof {
            assert forall|t: int| 0 <= t < count implies #[trigger] row_vals(
                final(self).elem_seq(*io),
                t,
                rs as int,
            ) =~= interpolate_row(row_vals(old(self).elem_seq(*io), t, rs as int), nb) by {
                vstd::arithmetic::mul::lemma_mul_inequality(t + 1, count as int, rs as int);
                assert((t + 1) * rs == t * rs + rs) by (nonlinear_arith);
                assert(t * rs >= 0) by (nonlinear_arith)
                    requires
                        t >= 0,
                        rs >= 0,
                ;
                lemma_rev_from_wf(row_vals(old(self).elem_seq(*io), t, rs as int), nb, 1);
                assert forall|i: int| 0 <= i < rs implies row_vals(
                    final(self).elem_seq(*io),
                    t,
                    rs as int,
                )[i] == interpolate_row(
                    row_vals(old(self).elem_seq(*io), t, rs as int),
                    nb,
                )[i] by {
                    assert(final(self).elem_seq(*io)[t * rs + i] == final(self).e_mem@[io.offset
                        + t * rs + i]);
                }
            }
        }
    }
}
} // verus!
