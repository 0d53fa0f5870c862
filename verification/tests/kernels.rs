use zkhal::circuit::{CpuEvalCheck, EvalCheckParams};
use zkhal::cpu::CpuHal;
use zkhal::extfield::ExtElem;
use zkhal::field::{Elem, P};

fn elems(vals: &[u32]) -> Vec<Elem> {
    vals.iter().map(|&v| Elem::new(v)).collect()
}

fn vals(es: &[Elem]) -> Vec<u32> {
    es.iter().map(|e| e.v).collect()
}

fn ext(a: u32, b: u32, c: u32, d: u32) -> ExtElem {
    ExtElem::from_elems(Elem::new(a), Elem::new(b), Elem::new(c), Elem::new(d))
}

#[test]
fn eltwise_add_fp() {
    let mut hal = CpuHal::new();
    let a = hal.copy_from_elem("a", &elems(&[1, 2, 3, 4, 5, 6, 7, 8]));
    let out = hal.alloc_elem("out", 8);
    hal.eltwise_add_elem(&out, &a, &a);
    let got = hal.view_elem(&out);
    assert_eq!(vals(&got), vec![2, 4, 6, 8, 10, 12, 14, 16]);
    // wrap-around at the modulus
    let b = hal.copy_from_elem("b", &elems(&[P - 1]));
    let one = hal.copy_from_elem("one", &elems(&[1]));
    let o2 = hal.alloc_elem("o2", 1);
    hal.eltwise_add_elem(&o2, &b, &one);
    assert_eq!(vals(&hal.view_elem(&o2)), vec![0]);
}

#[test]
fn eltwise_copy_fp() {
    let mut hal = CpuHal::new();
    let a = hal.copy_from_elem("a", &elems(&[9, 8, 7]));
    let out = hal.alloc_elem("out", 3);
    hal.eltwise_copy_elem(&out, &a);
    assert_eq!(vals(&hal.view_elem(&out)), vec![9, 8, 7]);
}

#[test]
fn batch_bit_reverse() {
    let mut hal = CpuHal::new();
    let io = hal.copy_from_elem("io", &elems(&[0, 1, 2, 3, 4, 5, 6, 7]));
    hal.batch_bit_reverse(&io, 1);
    assert_eq!(vals(&hal.view_elem(&io)), vec![0, 4, 2, 6, 1, 5, 3, 7]);
    // two rows of four
    let io2 = hal.copy_from_elem("io2", &elems(&[0, 1, 2, 3, 10, 11, 12, 13]));
    hal.batch_bit_reverse(&io2, 2);
    assert_eq!(vals(&hal.view_elem(&io2)), vec![0, 2, 1, 3, 10, 12, 11, 13]);
}

#[test]
fn batch_expand() {
    let mut hal = CpuHal::new();
    let input = hal.copy_from_elem("in", &elems(&[1, 2]));
    let output = hal.alloc_elem("out", 4);
    hal.batch_expand(&output, &input, 1);
    assert_eq!(vals(&hal.view_elem(&output)), vec![1, 1, 2, 2]);
}

#[test]
fn batch_evaluate_ntt() {
    let mut hal = CpuHal::new();
    // one row of two: a single butterfly with unit twiddle
    let io = hal.copy_from_elem("io", &elems(&[1, 2]));
    hal.batch_evaluate_ntt(&io, 1, 0);
    assert_eq!(vals(&hal.view_elem(&io)), vec![3, P - 1]);
}

#[test]
fn batch_interpolate_ntt() {
    let mut hal = CpuHal::new();
    let io = hal.copy_from_elem("io", &elems(&[3, P - 1]));
    hal.batch_interpolate_ntt(&io, 1);
    assert_eq!(vals(&hal.view_elem(&io)), vec![1, 2]);
}

#[test]
fn batch_evaluate_any() {
    let mut hal = CpuHal::new();
    // 1 + 2x + 3x^2 + 4x^3 at x = 2 is 49
    let coeffs = hal.copy_from_elem("coeffs", &elems(&[1, 2, 3, 4]));
    let which = hal.copy_from_u32("which", &vec![0u32]);
    let xs = hal.copy_from_extelem("xs", &vec![ext(2, 0, 0, 0)]);
    let out = hal.alloc_extelem("out", 1);
    hal.batch_evaluate_any(&coeffs, 1, &which, &xs, &out);
    let got = hal.view_extelem(&out);
    assert_eq!(got[0], ext(49, 0, 0, 0));
}

#[test]
fn zk_shift() {
    let mut hal = CpuHal::new();
    let io = hal.copy_from_elem("io", &elems(&[1, 1, 1, 1]));
    hal.zk_shift(&io, 1);
    assert_eq!(vals(&hal.view_elem(&io)), vec![1, 31, 961, 29791]);
}

#[test]
fn eltwise_sum_extelem() {
    let mut hal = CpuHal::new();
    let input = hal.copy_from_extelem("in", &vec![ext(1, 2, 3, 4), ext(5, 6, 7, 8)]);
    let output = hal.alloc_elem("out", 4);
    hal.eltwise_sum_extelem(&output, &input);
    assert_eq!(vals(&hal.view_elem(&output)), vec![6, 8, 10, 12]);
}

#[test]
fn fri_fold() {
    let mut hal = CpuHal::new();
    // 16 extension ones folded with mix = 2: 1 + 2 + ... + 2^15 = 2^16 - 1
    let mut base: Vec<Elem> = Vec::new();
    for _ in 0..16 {
        base.push(Elem::new(1));
        base.push(Elem::new(0));
        base.push(Elem::new(0));
        base.push(Elem::new(0));
    }
    let input = hal.copy_from_elem("in", &base);
    let output = hal.alloc_elem("out", 4);
    let mix = ext(2, 0, 0, 0);
    hal.fri_fold(&output, &input, &mix);
    assert_eq!(vals(&hal.view_elem(&output)), vec![65535, 0, 0, 0]);
}

#[test]
fn mix_poly_coeffs() {
    let mut hal = CpuHal::new();
    let input = hal.copy_from_elem("in", &elems(&[3, 5]));
    let combos = hal.copy_from_u32("combos", &vec![0u32, 1u32]);
    let output = hal.alloc_extelem("out", 2);
    let mix_start = ext(1, 0, 0, 0);
    let mix = ext(2, 0, 0, 0);
    hal.mix_poly_coeffs(&output, &mix_start, &mix, &input, &combos, 2, 1);
    let got = hal.view_extelem(&output);
    assert_eq!(got[0], ext(3, 0, 0, 0));
    assert_eq!(got[1], ext(10, 0, 0, 0));
}

#[test]
fn sha_rows() {
    let mut hal = CpuHal::new();
    let matrix = hal.copy_from_elem("m", &elems(&[1, 2, 3]));
    let output = hal.alloc_digest("out", 1);
    hal.sha_rows(&output, &matrix);
    let got = hal.view_digest(&output);
    // reference digest of the same little-endian serialization
    let mut bytes: Vec<u8> = Vec::new();
    for w in [1u32, 2, 3] {
        bytes.extend_from_slice(&w.to_le_bytes());
    }
    let expect = <sha2::Sha256 as sha2::Digest>::digest(&bytes);
    let gw = got[0].to_words();
    for i in 0..8 {
        let w = u32::from_le_bytes([
            expect[4 * i],
            expect[4 * i + 1],
            expect[4 * i + 2],
            expect[4 * i + 3],
        ]);
        assert_eq!(gw[i], w);
    }
}

#[test]
fn sha_fold() {
    let mut hal = CpuHal::new();
    // two output slots, then four input digests encoding 0, 1, 2, 3
    let mut digs: Vec<zkhal::sha::Digest> = Vec::new();
    digs.push(zkhal::sha::Digest::zero());
    digs.push(zkhal::sha::Digest::zero());
    for v in 0u32..4 {
        digs.push(zkhal::sha::Digest::from_words(&vec![v, 0, 0, 0, 0, 0, 0, 0]));
    }
    let io = hal.copy_from_digest("io", &digs);
    hal.sha_fold(&io, 4, 2);
    let got = hal.view_digest(&io);
    for i in 0..2usize {
        let mut bytes: Vec<u8> = Vec::new();
        for d in [&digs[2 + 2 * i], &digs[2 + 2 * i + 1]] {
            for w in d.to_words() {
                bytes.extend_from_slice(&w.to_le_bytes());
            }
        }
        let expect = <sha2::Sha256 as sha2::Digest>::digest(&bytes);
        let gw = got[i].to_words();
        for t in 0..8 {
            let w = u32::from_le_bytes([
                expect[4 * t],
                expect[4 * t + 1],
                expect[4 * t + 2],
                expect[4 * t + 3],
            ]);
            assert_eq!(gw[t], w);
        }
    }
}

#[test]
fn slice() {
    let mut hal = CpuHal::new();
    let parent = hal.copy_from_elem("p", &elems(&[1, 2, 3, 4, 5, 6]));
    let whole = hal.slice_elem(&parent, 0, 6);
    assert_eq!(vals(&hal.view_elem(&whole)), vals(&hal.view_elem(&parent)));
    let part = hal.slice_elem(&parent, 2, 2);
    assert_eq!(vals(&hal.view_elem(&part)), vec![3, 4]);
    // mutations through the slice are visible through the parent
    hal.view_mut_elem(&part, &elems(&[30, 40]));
    assert_eq!(vals(&hal.view_elem(&parent)), vec![1, 2, 30, 40, 5, 6]);
}

#[test]
fn eval_check() {
    // the cross-backend equivalence scenario, with two host backends
    let params = EvalCheckParams::new(4);
    assert_eq!(params.domain, 64);
    let mut hal1 = CpuHal::new();
    let mut hal2 = CpuHal::new();
    let e1 = CpuEvalCheck::new();
    let e2 = CpuEvalCheck::new();
    let eq = zkhal::circuit::eval_check(&params, &mut hal1, &e1, &mut hal2, &e2);
    assert!(eq);
    let r1 = zkhal::circuit::eval_check_impl(&params, &mut hal1, &e1);
    assert_eq!(r1.len(), 4 * 16 * 4);
}
