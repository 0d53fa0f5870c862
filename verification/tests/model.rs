use zkhal::bench::{BenchmarkSpec, SpecWithIters};
use zkhal::cpu::CpuHal;
use zkhal::extfield::ExtElem;
use zkhal::field::{rou_fwd_elem, rou_rev_elem, Elem, INV_2, MAX_ROU_PO2, P};
use zkhal::metal::{compute_launch_params, simple_launch_params, KernelArg, MetalHal};

fn elems(vals: &[u32]) -> Vec<Elem> {
    vals.iter().map(|&v| Elem::new(v)).collect()
}

fn vals(es: &[Elem]) -> Vec<u32> {
    es.iter().map(|e| e.v).collect()
}

#[test]
fn field_ops() {
    assert_eq!(Elem::new(P).v, 0);
    assert_eq!(Elem::new(P - 1).add(Elem::new(1)).v, 0);
    assert_eq!(Elem::new(3).sub(Elem::new(5)).v, P - 2);
    assert_eq!(Elem::new(12345).mul(Elem::new(6789)).v, (12345u64 * 6789 % P as u64) as u32);
    assert_eq!(Elem::new(2).mul(Elem::new(INV_2)).v, 1);
    assert_eq!(Elem::new(3).pow(5).v, 243);
    let x = Elem::new(7);
    assert_eq!(x.mul(x.inv()).v, 1);
}

#[test]
fn rou_tables() {
    for k in 0..=MAX_ROU_PO2 {
        let f = rou_fwd_elem(k);
        let r = rou_rev_elem(k);
        assert_eq!(f.mul(r).v, 1);
    }
    // rou_fwd(k) has order exactly 2^k for a few k
    for k in 1..=10usize {
        let f = rou_fwd_elem(k);
        let mut acc = Elem::new(1);
        for _ in 0..(1u32 << (k - 1)) {
            acc = acc.mul(f);
        }
        assert_eq!(acc.v, P - 1);
        assert_eq!(acc.mul(acc).v, 1);
    }
}

#[test]
fn ext_ops() {
    // x^3 * x^3 = x^6 = 11 * x^2
    let x3 = ExtElem::from_elems(Elem::new(0), Elem::new(0), Elem::new(0), Elem::new(1));
    let sq = x3.mul(x3);
    assert_eq!(sq, ExtElem::from_elems(Elem::new(0), Elem::new(0), Elem::new(11), Elem::new(0)));
    let a = ExtElem::from_elems(Elem::new(1), Elem::new(2), Elem::new(3), Elem::new(4));
    let b = ExtElem::from_elems(Elem::new(5), Elem::new(6), Elem::new(7), Elem::new(8));
    assert_eq!(a.add(b).sub(b), a);
    assert_eq!(a.pow(2), a.mul(a));
}

#[test]
fn ntt_round_trip() {
    // interpolate(evaluate(x)) == x elementwise
    let input = [7u32, 11, 13, 17, 19, 23, 29, 31];
    let mut hal = CpuHal::new();
    let io = hal.copy_from_elem("io", &elems(&input));
    hal.batch_evaluate_ntt(&io, 1, 0);
    hal.batch_interpolate_ntt(&io, 1);
    assert_eq!(vals(&hal.view_elem(&io)), input.to_vec());
}

#[test]
fn ntt_expand_path() {
    // expanding then evaluating with matching expand_bits, and then
    // interpolating on the larger domain, recovers the zero-stuffed row
    let mut hal = CpuHal::new();
    let input = hal.copy_from_elem("in", &elems(&[5, 9]));
    let output = hal.alloc_elem("out", 8);
    hal.batch_expand(&output, &input, 1);
    hal.batch_evaluate_ntt(&output, 1, 2);
    hal.batch_interpolate_ntt(&output, 1);
    assert_eq!(vals(&hal.view_elem(&output)), vec![5, 0, 0, 0, 9, 0, 0, 0]);
}

#[test]
fn bit_reverse_small_rows() {
    let mut hal = CpuHal::new();
    // rows of one element: identity
    let io = hal.copy_from_elem("io", &elems(&[4, 5, 6]));
    hal.batch_bit_reverse(&io, 3);
    assert_eq!(vals(&hal.view_elem(&io)), vec![4, 5, 6]);
    // rows of two: reversing a single bit is also the identity
    let io2 = hal.copy_from_elem("io2", &elems(&[1, 2, 3, 4]));
    hal.batch_bit_reverse(&io2, 2);
    assert_eq!(vals(&hal.view_elem(&io2)), vec![1, 2, 3, 4]);
}

#[test]
fn view_mut_observed_by_kernel() {
    let mut hal = CpuHal::new();
    let a = hal.alloc_elem("a", 4);
    let out = hal.alloc_elem("out", 4);
    // mutate the input through a host view, then launch a kernel
    let mut host = hal.view_elem(&a);
    host = elems(&[10, 20, 30, 40]);
    hal.view_mut_elem(&a, &host);
    hal.eltwise_add_elem(&out, &a, &a);
    assert_eq!(vals(&hal.view_elem(&out)), vec![20, 40, 60, 80]);
}

#[test]
fn alloc_is_zeroed() {
    let mut hal = CpuHal::new();
    let a = hal.alloc_elem("a", 5);
    assert_eq!(vals(&hal.view_elem(&a)), vec![0, 0, 0, 0, 0]);
    let d = hal.alloc_digest("d", 1);
    assert_eq!(hal.view_digest(&d)[0].to_words(), vec![0u32; 8]);
}

#[test]
fn launch_params() {
    let (grid, block) = simple_launch_params(1000, 256);
    assert_eq!(block.width, 256);
    assert_eq!(grid.width, 4);
    let (grid2, block2) = compute_launch_params(10, 4, 3);
    // s_size = 8, g_size = 64: threads pack 8 x 16, grids pack 1 x 4 x 3
    assert_eq!(block2.width, 8);
    assert_eq!(block2.height, 16);
    assert_eq!(block2.depth, 1);
    assert_eq!(grid2.width, 1);
    assert_eq!(grid2.height, 4);
    assert_eq!(grid2.depth, 3);
}

#[test]
fn dispatch_plan() {
    let hal = MetalHal::new();
    let buf = zkhal::metal::BufferImpl::new(0, 4, 16);
    let arg = buf.as_arg();
    assert_eq!(arg, KernelArg::Buffer { buffer: 0, offset: 0 });
    let sliced = buf.slice(2, 8);
    assert_eq!(sliced.as_arg(), KernelArg::Buffer { buffer: 0, offset: 8 });
    assert_eq!(sliced.as_arg_with_offset(3), KernelArg::Buffer { buffer: 0, offset: 20 });
    assert_eq!(sliced.size(), 8);
    let args = vec![arg, KernelArg::Integer(7)];
    let plan = hal.dispatch_by_name("fri_fold", &args, 16);
    assert_eq!(plan.name, "fri_fold");
    assert_eq!(plan.count, 16);
    assert_eq!(plan.args.len(), 2);
    assert!(plan.grid.is_none());
}

#[test]
fn log2_ceil_values() {
    assert_eq!(zkhal::log2_ceil(1), 0);
    assert_eq!(zkhal::log2_ceil(2), 1);
    assert_eq!(zkhal::log2_ceil(5), 3);
    assert_eq!(zkhal::log2_ceil(1024), 10);
}

#[test]
fn bench_specs() {
    let s = SpecWithIters(BenchmarkSpec::RawSha { buf: vec![1, 2, 3] }, 10);
    assert_eq!(s.1, 10);
    match s.0 {
        BenchmarkSpec::RawSha { buf } => assert_eq!(buf, vec![1, 2, 3]),
        _ => panic!("unexpected variant"),
    }
    let m = BenchmarkSpec::Memcpy { src: vec![0u8; 4], src_align: 1, dst_align: 2 };
    match m {
        BenchmarkSpec::Memcpy { src, src_align, dst_align } => {
            assert_eq!(src.len(), 4);
            assert_eq!(src_align, 1);
            assert_eq!(dst_align, 2);
        },
        _ => panic!("unexpected variant"),
    }
}

#[test]
fn copy_from_kinds() {
    let mut hal = CpuHal::new();
    let u = hal.copy_from_u32("u", &vec![7u32, 8, 9]);
    assert_eq!(hal.view_u32(&u), vec![7, 8, 9]);
    let x = hal.copy_from_extelem(
        "x",
        &vec![ExtElem::from_elems(Elem::new(1), Elem::new(2), Elem::new(3), Elem::new(4))],
    );
    assert_eq!(hal.view_extelem(&x).len(), 1);
    let au = hal.alloc_u32("au", 2);
    assert_eq!(hal.view_u32(&au), vec![0, 0]);
    let ax = hal.alloc_extelem("ax", 2);
    assert_eq!(hal.view_extelem(&ax)[0], ExtElem::zero());
}
