use ferro::device::Device;
use ferro::dtype::DType;
use ferro::error::{check_all_f32, check_dim, check_f32, dim_out_of_range, Error};
use ferro::geometry::{
    backend_missing, binary_shape, bmm_dims, bmm_taps, check_same_device, conv2d_geometry, conv2d_tap, conv2d_taps,
    matmul_dims, max_pool2d_geometry, pool_tap, pool_window, squeeze_shape, transfer_needed, unsqueeze_shape,
};
use ferro::graph::build_topo;
use ferro::layout::Layout;
use ferro::reduce::{reduced_shape, sum_dim_targets, unbroadcast_plan};

const CPU: Device = Device::Cpu;

#[test]
fn bmm_shape_error() {
    // inner dim mismatch: (2,2,3) @ (2,4,2)
    assert!(bmm_dims(CPU, CPU, &[2, 2, 3], &[2, 4, 2]).is_err());
    // batch mismatch: (2,2,3) @ (3,3,2)
    assert!(bmm_dims(CPU, CPU, &[2, 2, 3], &[3, 3, 2]).is_err());
}

#[test]
fn bmm_dims_of_matching_operands() {
    assert_eq!(bmm_dims(CPU, CPU, &[2, 2, 3], &[2, 3, 2]).unwrap(), (2, 2, 3, 2));
    assert_eq!(
        bmm_dims(CPU, CPU, &[2, 3], &[2, 3, 2]).unwrap_err().message(),
        "bmm: unsupported: inputs must be rank 3"
    );
    assert_eq!(
        bmm_dims(CPU, Device::Cuda(1), &[2, 2, 3], &[2, 3, 2]).unwrap_err().message(),
        "bmm: operands on different devices (cpu vs cuda:1)"
    );
}

#[test]
fn matmul_dims_checks_in_order() {
    assert_eq!(matmul_dims(DType::F32, DType::F32, CPU, CPU, &[2, 3], &[3, 4]).unwrap(), (2, 3, 4));
    assert_eq!(
        matmul_dims(DType::F64, DType::F32, CPU, CPU, &[2, 3], &[3, 4]).unwrap_err().message(),
        "matmul: expected f32 tensor, got f64"
    );
    assert_eq!(
        matmul_dims(DType::F32, DType::F32, CPU, CPU, &[2, 3], &[4, 4]).unwrap_err().message(),
        "matmul: incompatible shapes [2, 3] and [4, 4]"
    );
    assert_eq!(
        matmul_dims(DType::F32, DType::F32, CPU, CPU, &[2, 3, 1], &[3]).unwrap_err().message(),
        "matmul: unsupported: only 2-D supported in MVP, got [2, 3, 1] and [3]"
    );
}

#[test]
fn float_ops_reject_non_f32() {
    assert!(matches!(binary_shape("add", DType::I64, DType::I64, CPU, CPU, &[2, 2], &[2, 2]), Err(Error::DtypeMismatch { .. })));
    assert!(matches!(binary_shape("add", DType::F32, DType::I64, CPU, CPU, &[2, 2], &[2, 2]), Err(Error::DtypeMismatch { .. })));
    assert!(matches!(binary_shape("add", DType::F64, DType::F64, CPU, CPU, &[2, 2], &[2, 2]), Err(Error::DtypeMismatch { .. })));
    assert!(matches!(binary_shape("mul", DType::F64, DType::F32, CPU, CPU, &[2, 2], &[2, 2]), Err(Error::DtypeMismatch { .. })));
    assert!(matches!(matmul_dims(DType::F64, DType::F32, CPU, CPU, &[2, 2], &[2, 2]), Err(Error::DtypeMismatch { .. })));

    // Explicit cast is the supported route into float math.
    assert_eq!(binary_shape("add", DType::F32, DType::F32, CPU, CPU, &[2, 2], &[2, 2]).unwrap(), vec![2, 2]);
}

#[test]
fn binary_shape_broadcasts_or_names_both_shapes() {
    assert_eq!(binary_shape("sub", DType::F32, DType::F32, CPU, CPU, &[3, 1], &[4]).unwrap(), vec![3, 4]);
    assert_eq!(
        binary_shape("sub", DType::F32, DType::F32, CPU, CPU, &[3, 2], &[4]).unwrap_err().message(),
        "sub: incompatible shapes [3, 2] and [4]"
    );
    assert!(matches!(
        binary_shape("div", DType::F32, DType::F32, CPU, Device::Cuda(0), &[1], &[1]),
        Err(Error::DeviceMismatch { op: "div", lhs: Device::Cpu, rhs: Device::Cuda(0) })
    ));
}

#[test]
fn conv2d_errors() {
    let x = [1, 1, 2, 2];
    // rank mismatch
    assert!(conv2d_geometry(CPU, CPU, &x, &[1, 2, 2], 1, 0).is_err());
    let x3 = [1, 2, 2];
    let w = [1, 1, 2, 2];
    assert!(conv2d_geometry(CPU, CPU, &x3, &w, 1, 0).is_err());
    // channel mismatch: c_in 1 vs weight expecting 2
    assert!(conv2d_geometry(CPU, CPU, &x, &[1, 2, 2, 2], 1, 0).is_err());
    // kernel larger than (padded) input
    assert!(conv2d_geometry(CPU, CPU, &x, &[1, 1, 4, 4], 1, 0).is_err());
    assert!(conv2d_geometry(CPU, CPU, &x, &[1, 1, 5, 5], 1, 1).is_err());
    // zero stride
    assert!(conv2d_geometry(CPU, CPU, &x, &w, 0, 0).is_err());
}

#[test]
fn conv2d_checks_come_before_padding() {
    // The operand checks answer before the padded size is ever formed, so a
    // padding that would overflow is no obstacle to the earlier errors.
    let huge = usize::MAX / 2;
    assert!(matches!(
        conv2d_geometry(CPU, CPU, &[1, 1, 2, 2], &[1, 2, 2, 2], 1, huge),
        Err(Error::ShapeMismatch { op: "conv2d", .. })
    ));
    assert!(matches!(
        conv2d_geometry(CPU, CPU, &[1, 1, 2, 2], &[1, 1, 2, 2], 0, huge),
        Err(Error::Unsupported { op: "conv2d", .. })
    ));
    assert!(matches!(
        conv2d_geometry(CPU, Device::Cuda(0), &[1, 1, 2, 2], &[1, 1, 2, 2], 1, huge),
        Err(Error::DeviceMismatch { op: "conv2d", .. })
    ));
}

#[test]
fn conv2d_geometry_output_size() {
    // 4x4 input, 3x3 kernel, stride 2, padding 1: (4 + 2 - 3) / 2 + 1 = 2.
    let g = conv2d_geometry(CPU, CPU, &[2, 3, 4, 4], &[5, 3, 3, 3], 2, 1).unwrap();
    assert_eq!((g.n, g.c_in, g.h, g.w, g.c_out, g.kh, g.kw), (2, 3, 4, 4, 5, 3, 3));
    assert_eq!((g.out_h, g.out_w), (2, 2));
    assert_eq!(
        conv2d_geometry(CPU, CPU, &[1, 1, 2, 2], &[1, 1, 5, 5], 1, 1).unwrap_err().message(),
        "conv2d: invalid shape: kernel (5,5) does not fit padded input (4,4)"
    );
    assert_eq!(
        conv2d_geometry(CPU, CPU, &[1, 1, 2, 2], &[1, 1, 1, 1], 0, 0).unwrap_err().message(),
        "conv2d: unsupported: stride must be >= 1"
    );
}

#[test]
fn conv2d_taps_skip_the_padding() {
    // size 3, padding 1: tap positions -1 and 3 are padding.
    assert_eq!(conv2d_tap(0, 0, 1, 1, 3), None);
    assert_eq!(conv2d_tap(0, 1, 1, 1, 3), Some(0));
    assert_eq!(conv2d_tap(2, 1, 1, 1, 3), Some(2));
    assert_eq!(conv2d_tap(2, 2, 1, 1, 3), None);
    assert_eq!(conv2d_tap(1, 2, 2, 1, 5), Some(3));
}

#[test]
fn max_pool_errors() {
    assert!(max_pool2d_geometry(&[2, 2], 2, 2).is_err());
    assert!(max_pool2d_geometry(&[1, 1, 2, 2], 3, 1).is_err());
}

#[test]
fn max_pool_geometry_and_messages() {
    let g = max_pool2d_geometry(&[1, 2, 4, 5], 2, 2).unwrap();
    assert_eq!((g.n, g.c, g.h, g.w, g.out_h, g.out_w), (1, 2, 4, 5, 2, 2));
    assert_eq!(
        max_pool2d_geometry(&[2, 2], 2, 2).unwrap_err().message(),
        "max_pool2d: invalid shape: expected NCHW rank-4 input, got rank 2"
    );
    assert_eq!(
        max_pool2d_geometry(&[1, 1, 2, 2], 3, 1).unwrap_err().message(),
        "max_pool2d: invalid shape: kernel 3 too large for input 2x2"
    );
    assert_eq!(
        max_pool2d_geometry(&[1, 1, 2, 2], 0, 1).unwrap_err().message(),
        "max_pool2d: invalid shape: kernel (0) and stride (1) must be >= 1"
    );
}

#[test]
fn squeeze_and_unsqueeze_shapes() {
    for (dim, shape) in [(0, vec![1, 2, 3]), (1, vec![2, 1, 3]), (2, vec![2, 3, 1])] {
        assert_eq!(unsqueeze_shape(&[2, 3], dim).unwrap(), shape);
        assert_eq!(squeeze_shape(&shape, dim).unwrap(), vec![2, 3]);
    }
    assert!(squeeze_shape(&[2, 1, 3], 0).is_err());
    assert!(squeeze_shape(&[2, 1, 3], 3).is_err());
    assert!(unsqueeze_shape(&[2, 1, 3], 4).is_err());
    assert_eq!(
        squeeze_shape(&[2, 1, 3], 0).unwrap_err().message(),
        "squeeze: invalid shape: dim 0 has size 2 != 1"
    );
    assert_eq!(
        unsqueeze_shape(&[2, 1, 3], 4).unwrap_err().message(),
        "unsqueeze: invalid shape: dim 4 out of range for rank 3"
    );
}

#[test]
fn non_f32_transfer_errors() {
    assert!(transfer_needed(CPU, Device::Cuda(0), DType::I64).is_err());
}

#[test]
fn transfer_to_the_same_device_is_free() {
    assert_eq!(transfer_needed(CPU, CPU, DType::I64).unwrap(), false);
    assert_eq!(transfer_needed(Device::Cuda(0), CPU, DType::F32).unwrap(), true);
    assert_eq!(
        transfer_needed(CPU, Device::Cuda(0), DType::F64).unwrap_err().message(),
        "to_device: expected f32 tensor, got f64"
    );
}

#[test]
fn missing_backend_message_names_the_device() {
    let msg = backend_missing(Device::Cuda(7)).message();
    assert!(msg.contains("no backend registered for device cuda:7"), "got: {msg}");
}

#[test]
fn device_and_dtype_errors() {
    assert!(check_same_device("add", CPU, CPU).is_ok());
    assert_eq!(
        check_same_device("add", CPU, Device::Cuda(2)).unwrap_err().message(),
        "add: operands on different devices (cpu vs cuda:2)"
    );
    assert!(check_f32("sum", DType::F32).is_ok());
    assert_eq!(check_f32("sum", DType::I64).unwrap_err().message(), "sum: expected f32 tensor, got i64");
    assert_eq!(
        dim_out_of_range("softmax", 2, 2).message(),
        "softmax: invalid shape: dim 2 out of range for rank 2"
    );
    assert_eq!(Device::Cuda(12).label(), "cuda:12");
    assert_eq!(Device::Cpu.label(), "cpu");
    assert_eq!(DType::F64.name(), "f64");
}

#[test]
fn reduced_shapes_keep_or_drop_the_dim() {
    assert_eq!(reduced_shape(&[2, 3, 4], 1, true), vec![2, 1, 4]);
    assert_eq!(reduced_shape(&[2, 3, 4], 1, false), vec![2, 4]);
    assert_eq!(reduced_shape(&[5], 0, false), Vec::<usize>::new());
}

#[test]
fn sum_dim_targets_map_each_input_to_its_output() {
    // [2,3] summed over dim 1: row a goes to output a.
    assert_eq!(sum_dim_targets(&[2, 3], 1), vec![0, 0, 0, 1, 1, 1]);
    // [2,3] summed over dim 0: column b goes to output b.
    assert_eq!(sum_dim_targets(&[2, 3], 0), vec![0, 1, 2, 0, 1, 2]);
    // [2,2,2] over the middle dim: (a, k, b) -> a*2 + b.
    assert_eq!(sum_dim_targets(&[2, 2, 2], 1), vec![0, 1, 0, 1, 2, 3, 2, 3]);
}

#[test]
fn unbroadcast_plan_restores_the_operand_shape() {
    // [3] broadcast to [2,3]: drop the leading dim.
    assert_eq!(unbroadcast_plan(&[2, 3], &[3]), vec![(0, false)]);
    // [2,1] broadcast to [2,3]: sum dim 1 keeping it.
    assert_eq!(unbroadcast_plan(&[2, 3], &[2, 1]), vec![(1, true)]);
    // [1,3] broadcast to [4,2,3]: drop dim 0, then sum dim 0 keeping it.
    let plan = unbroadcast_plan(&[4, 2, 3], &[1, 3]);
    assert_eq!(plan, vec![(0, false), (0, true)]);
    let mut shape = vec![4, 2, 3];
    for (d, keep) in plan {
        shape = reduced_shape(&shape, d, keep);
    }
    assert_eq!(shape, vec![1, 3]);
    // Same shape: nothing to do.
    assert!(unbroadcast_plan(&[2, 3], &[2, 3]).is_empty());
    // A gradient of lower rank still has every size-1 target dim it
    // expanded summed: [3] against [1, 5] sums dim 0 to [1].
    assert_eq!(unbroadcast_plan(&[3], &[1, 5]), vec![(0, true)]);
    assert!(unbroadcast_plan(&[1], &[1, 5]).is_empty());
}

#[test]
fn topo_order_of_a_diamond() {
    // 0 = x, 1 = f(x), 2 = g(x), 3 = h(1, 2)
    let inputs = vec![vec![], vec![0], vec![0], vec![1, 2]];
    assert_eq!(build_topo(&inputs, 3), vec![0, 1, 2, 3]);
    // Only what the root reaches is listed.
    assert_eq!(build_topo(&inputs, 1), vec![0, 1]);
}

#[test]
fn topo_order_follows_operand_order() {
    // 2 = f(1, 0), 3 = g(2, 0): operands are walked left to right, so the
    // second operand's subtree comes after the first's.
    let inputs = vec![vec![], vec![], vec![1, 0], vec![2, 0]];
    assert_eq!(build_topo(&inputs, 2), vec![1, 0, 2]);
    assert_eq!(build_topo(&inputs, 3), vec![1, 0, 2, 3]);
    let chain = vec![vec![], vec![0], vec![1], vec![0, 2]];
    assert_eq!(build_topo(&chain, 3), vec![0, 1, 2, 3]);
}

#[test]
fn topo_order_of_a_reused_leaf() {
    // y = x * x: the leaf is listed once.
    let inputs = vec![vec![], vec![0, 0]];
    assert_eq!(build_topo(&inputs, 1), vec![0, 1]);
}

#[test]
fn topo_order_of_a_deep_chain() {
    let n = 100_001;
    let mut inputs: Vec<Vec<usize>> = Vec::with_capacity(n);
    inputs.push(vec![]);
    for i in 1..n {
        inputs.push(vec![i - 1]);
    }
    let topo = build_topo(&inputs, n - 1);
    assert_eq!(topo.len(), n);
    assert!(topo.iter().enumerate().all(|(i, &v)| i == v));
}

#[test]
fn pool_taps_index_each_window() {
    // One 4x4 plane (values 0..16), 2x2 windows with stride 2: the window
    // maxima are the bottom-right taps 5, 7, 13, 15.
    let g = max_pool2d_geometry(&[1, 1, 4, 4], 2, 2).unwrap();
    let data: Vec<usize> = (0..16).collect();
    let mut maxima = Vec::new();
    for oh in 0..g.out_h {
        for ow in 0..g.out_w {
            let taps: Vec<usize> = (0..2).flat_map(|kh| (0..2).map(move |kw| (kh, kw))).map(|(kh, kw)| pool_tap(&g, 2, 2, 0, oh, ow, kh, kw)).collect();
            maxima.push(taps.iter().map(|&i| data[i]).max().unwrap());
        }
    }
    assert_eq!(maxima, vec![5, 7, 13, 15]);
    // Second plane of a [1,2,3,3] input, window at (1,1) of a 2x2 kernel, stride 1.
    let g2 = max_pool2d_geometry(&[1, 2, 3, 3], 2, 1).unwrap();
    assert_eq!(pool_tap(&g2, 2, 1, 1, 1, 1, 1, 1), 9 + 2 * 3 + 2);
}

#[test]
fn sum_dim_gradient_is_the_broadcast_output_gradient() {
    for (shape, dim) in [(vec![2, 3], 1usize), (vec![2, 3], 0), (vec![2, 2, 3], 1)] {
        let targets = sum_dim_targets(&shape, dim);
        let keep = reduced_shape(&shape, dim, true);
        let g: Vec<i32> = (0..keep.iter().product::<usize>() as i32).map(|v| 10 * (v + 1)).collect();
        let expanded = Layout::row_major(&keep).broadcast_to(&shape).unwrap().gather(&g);
        let routed: Vec<i32> = targets.iter().map(|&t| g[t]).collect();
        assert_eq!(expanded, routed);
    }
}

#[test]
fn dim_checks_answer_past_the_rank() {
    assert!(check_dim("softmax", 1, 2).is_ok());
    assert_eq!(check_dim("softmax", 2, 2).unwrap_err().message(), "softmax: invalid shape: dim 2 out of range for rank 2");
}

#[test]
fn f32_checks_report_the_first_other_dtype() {
    assert!(check_all_f32("cat", &[DType::F32, DType::F32]).is_ok());
    assert!(check_all_f32("cat", &[]).is_ok());
    assert!(matches!(
        check_all_f32("cat", &[DType::F32, DType::I64, DType::I64]),
        Err(Error::DtypeMismatch { op: "cat", expected: DType::F32, got: DType::I64 })
    ));
}

#[test]
fn bmm_taps_pair_row_with_column() {
    // (2, 2, 3) @ (2, 3, 2): element (1, 0, 1) sums a[1, 0, p] * b[1, p, 1].
    assert_eq!(bmm_taps(2, 2, 3, 2, 1, 0, 1), vec![(6, 7), (7, 9), (8, 11)]);
    assert_eq!(bmm_taps(1, 1, 0, 1, 0, 0, 0), Vec::<(usize, usize)>::new());
}

#[test]
fn pool_window_lists_taps_row_by_row() {
    let g = max_pool2d_geometry(&[1, 2, 4, 4], 2, 2).unwrap();
    // Plane 1, window (1, 0): rows 2..4, columns 0..2 of the second plane.
    assert_eq!(pool_window(&g, 2, 2, 1, 1, 0), vec![24, 25, 28, 29]);
    let g3 = max_pool2d_geometry(&[1, 1, 3, 3], 3, 1).unwrap();
    assert_eq!(pool_window(&g3, 3, 1, 0, 0, 0), (0..9).collect::<Vec<usize>>());
}

#[test]
fn conv2d_tap_plan_skips_the_padding() {
    // One 2x2 input channel, one 3x3 kernel, padding 1: the output corner
    // (0, 0) sees the input only through the kernel's bottom-right 2x2.
    let g = conv2d_geometry(CPU, CPU, &[1, 1, 2, 2], &[1, 1, 3, 3], 1, 1).unwrap();
    assert_eq!((g.out_h, g.out_w), (2, 2));
    assert_eq!(conv2d_taps(&g, 1, 1, 0, 0, 0, 0), vec![(0, 4), (1, 5), (2, 7), (3, 8)]);
    assert_eq!(conv2d_taps(&g, 1, 1, 0, 0, 1, 1), vec![(0, 0), (1, 1), (2, 3), (3, 4)]);
    // Two channels, no padding: channel by channel, then row, then column.
    let g2 = conv2d_geometry(CPU, CPU, &[1, 2, 2, 2], &[1, 2, 1, 2], 1, 0).unwrap();
    assert_eq!(conv2d_taps(&g2, 1, 0, 0, 0, 1, 0), vec![(2, 0), (3, 1), (6, 2), (7, 3)]);
}
