use ferro::error::Error;
use ferro::kernels::broadcast_strides;
use ferro::layout::{flat_index, Layout};
use ferro::shape::{
    broadcast_shapes, default_strides, numel, prod_after, prod_before, shape_fits, slice_dims, slice_offsets,
};

#[test]
fn strided_i64_view_materializes() {
    let data: Vec<i64> = vec![1, 2, 3, 4, 5, 6];
    let t = Layout::for_data("from_vec_i64", data.len(), &[2, 3]).unwrap();
    let tt = t.transpose_view(0, 1).unwrap();
    assert_eq!(tt.shape, vec![3, 2]);
    assert_eq!(tt.gather(&data), vec![1, 4, 2, 5, 3, 6]);
    let as_f32: Vec<f32> = data.iter().map(|&v| v as f32).collect();
    assert_eq!(tt.gather(&as_f32), vec![1.0f32, 4.0, 2.0, 5.0, 3.0, 6.0]);
}

#[test]
fn reshape_of_strided_view_keeps_dtype() {
    // Materializing a non-contiguous view gathers the i64 values themselves:
    // large ids keep their precision.
    let big = (1i64 << 40) + 1;
    let data: Vec<i64> = vec![big, 2, 3, 4, 5, 6];
    let t = Layout::row_major(&[2, 3]);
    let tt = t.transpose_view(0, 1).unwrap();
    assert!(!tt.is_contiguous());
    let gathered = tt.gather(&data);
    let r = tt.reshape(&[6]).unwrap();
    assert_eq!(r.offset, 0);
    assert_eq!(r.gather(&gathered), vec![big, 4, 2, 5, 3, 6]);

    let ones: Vec<f64> = vec![1.0; 6];
    let rd = Layout::row_major(&[2, 3]).transpose_view(0, 1).unwrap().reshape(&[6]).unwrap();
    assert_eq!(rd.shape, vec![6]);
    assert_eq!(rd.gather(&ones), vec![1.0f64; 6]);
}

#[test]
fn transpose_twice_gives_the_view_back() {
    let l = Layout::row_major(&[2, 3, 4]);
    let t = l.transpose_view(0, 2).unwrap();
    assert_eq!(t.shape, vec![4, 3, 2]);
    assert_eq!(t.stride, vec![1, 4, 12]);
    let back = t.transpose_view(0, 2).unwrap();
    assert_eq!(back.shape, l.shape);
    assert_eq!(back.stride, l.stride);
    assert_eq!(back.offset, l.offset);
}

#[test]
fn transpose_out_of_range_is_err() {
    let l = Layout::row_major(&[2, 3]);
    assert_eq!(
        l.transpose_view(0, 2).unwrap_err().message(),
        "transpose: invalid shape: dims (0,2) out of range for rank 2"
    );
}

#[test]
fn contiguous_reshape_keeps_elements_in_order() {
    let data: Vec<i32> = (0..12).collect();
    let l = Layout::row_major(&[3, 4]);
    assert!(l.is_contiguous());
    let r = l.reshape(&[2, 6]).unwrap();
    assert_eq!(r.stride, vec![6, 1]);
    assert_eq!(r.gather(&data), l.gather(&data));
    assert_eq!(
        l.reshape(&[5]).unwrap_err().message(),
        "reshape: invalid shape: cannot reshape [3, 4] into [5]"
    );
}

#[test]
fn broadcast_view_repeats_with_zero_strides() {
    let data = vec![10, 20, 30];
    let l = Layout::row_major(&[3]);
    let b = l.broadcast_to(&[2, 3]).unwrap();
    assert_eq!(b.stride, vec![0, 1]);
    assert_eq!(b.gather(&data), vec![10, 20, 30, 10, 20, 30]);

    let col = Layout::row_major(&[2, 1]);
    let c = col.broadcast_to(&[2, 3]).unwrap();
    assert_eq!(c.stride, vec![1, 0]);
    assert_eq!(c.gather(&[7, 8]), vec![7, 7, 7, 8, 8, 8]);

    match l.broadcast_to(&[2, 4]) {
        Err(Error::ShapeMismatch { op, lhs, rhs }) => {
            assert_eq!(op, "broadcast_to");
            assert_eq!(lhs, vec![3]);
            assert_eq!(rhs, vec![2, 4]);
        }
        other => panic!("unexpected {other:?}"),
    }
    assert!(l.broadcast_to(&[]).is_err());
}

#[test]
fn for_data_checks_the_element_count() {
    let l = Layout::for_data("from_vec", 6, &[2, 3]).unwrap();
    assert_eq!(l.stride, vec![3, 1]);
    assert_eq!(
        Layout::for_data("from_vec", 5, &[2, 3]).unwrap_err().message(),
        "from_vec: invalid shape: 5 elements do not fit shape [2, 3]"
    );
}

#[test]
fn strided_offset_view_gathers_from_offset() {
    let data: Vec<u8> = (0..10).collect();
    let l = Layout { shape: vec![2, 2], stride: vec![4, 2], offset: 1 };
    assert_eq!(l.gather(&data), vec![1, 3, 5, 7]);
    let scalar = Layout { shape: vec![], stride: vec![], offset: 9 };
    assert_eq!(scalar.gather(&data), vec![9]);
}

#[test]
fn shape_products() {
    assert_eq!(numel(&[2, 3, 4]), 24);
    assert_eq!(numel(&[]), 1);
    assert_eq!(numel(&[3, 0]), 0);
    assert_eq!(default_strides(&[2, 3, 4]), vec![12, 4, 1]);
    assert_eq!(default_strides(&[]), Vec::<usize>::new());
    assert_eq!(prod_before(&[2, 3, 4], 2), 6);
    assert_eq!(prod_after(&[2, 3, 4], 0), 12);
    assert_eq!(slice_dims(&[2, 3, 4], 1), (2, 3, 4));
    assert_eq!(slice_dims(&[5], 0), (1, 5, 1));
}

#[test]
fn broadcast_shapes_follow_numpy_rules() {
    assert_eq!(broadcast_shapes("add", &[2, 1, 3], &[4, 1]).unwrap(), vec![2, 4, 3]);
    assert_eq!(broadcast_shapes("add", &[4, 1], &[2, 1, 3]).unwrap(), vec![2, 4, 3]);
    assert_eq!(broadcast_shapes("mul", &[], &[3]).unwrap(), vec![3]);
    let e = broadcast_shapes("add", &[2, 3], &[4]).unwrap_err();
    assert_eq!(e.message(), "add: incompatible shapes [2, 3] and [4]");
    assert!(broadcast_shapes("add", &[4], &[2, 3]).is_err());
}

#[test]
fn contiguous_view_gathers_a_plain_range() {
    let data: Vec<u16> = (0..20).collect();
    let l = Layout { shape: vec![2, 1, 3], stride: vec![3, 7, 1], offset: 5 };
    assert!(l.is_contiguous());
    assert_eq!(l.gather(&data), data[5..11].to_vec());
}

#[test]
fn shape_fits_checks_every_partial_product() {
    assert!(shape_fits(&[2, 3, 4]));
    assert!(shape_fits(&[]));
    assert!(shape_fits(&[usize::MAX]));
    assert!(!shape_fits(&[usize::MAX, 2]));
    // The total is 0, but the trailing product of the last two dims overflows.
    assert!(!shape_fits(&[0, usize::MAX, 2]));
    // The total is 0, but the leading product of the first two dims overflows.
    assert!(!shape_fits(&[usize::MAX, 2, 0]));
    assert!(shape_fits(&[1 << 20, 1 << 20, 1 << 20]));
}

fn row_major_position(shape: &[usize], c: &[usize]) -> usize {
    c.iter().zip(shape).fold(0, |acc, (&x, &n)| acc * n + x)
}

#[test]
fn transposed_gather_swaps_coordinates() {
    let data: Vec<u32> = (0..24).collect();
    let l = Layout::row_major(&[2, 3, 4]);
    let t = l.transpose_view(0, 2).unwrap();
    let (orig, swapped) = (l.gather(&data), t.gather(&data));
    for i in 0..4 {
        for j in 0..3 {
            for k in 0..2 {
                assert_eq!(swapped[row_major_position(&[4, 3, 2], &[i, j, k])], orig[row_major_position(&[2, 3, 4], &[k, j, i])]);
            }
        }
    }
}

#[test]
fn broadcast_gather_reads_the_numpy_source() {
    // [3,1] broadcast to [2,3,4]: coordinate (a, b, c) reads source (b, 0).
    let src = vec![7, 8, 9];
    let view = Layout::row_major(&[3, 1]).broadcast_to(&[2, 3, 4]).unwrap().gather(&src);
    for a in 0..2 {
        for b in 0..3 {
            for c in 0..4 {
                assert_eq!(view[row_major_position(&[2, 3, 4], &[a, b, c])], src[b]);
            }
        }
    }
}

#[test]
fn kernel_offsets_read_what_the_host_gathers() {
    let src: Vec<i32> = (0..6).map(|v| 100 + v).collect();
    for (in_shape, out_shape) in [(vec![3, 1], vec![2, 3, 4]), (vec![2, 3], vec![2, 3]), (vec![1], vec![5])] {
        let data = &src[..in_shape.iter().product::<usize>()];
        let strides = broadcast_strides(&in_shape, &out_shape);
        let host = Layout::row_major(&in_shape).broadcast_to(&out_shape).unwrap().gather(data);
        let n: usize = out_shape.iter().product();
        for flat in 0..n {
            // Decompose the flat index innermost-first, as a kernel thread does.
            let (mut rem, mut off) = (flat, 0usize);
            for d in (0..out_shape.len()).rev() {
                let c = rem % out_shape[d];
                rem /= out_shape[d];
                off += c * strides[d] as usize;
            }
            assert_eq!(data[off], host[flat]);
        }
    }
}

#[test]
fn flat_index_is_row_major_position() {
    assert_eq!(flat_index(&[2, 3, 4], &[1, 2, 3]), 23);
    assert_eq!(flat_index(&[2, 3, 4], &[0, 0, 0]), 0);
    assert_eq!(flat_index(&[2, 3, 4], &[1, 0, 2]), 14);
    assert_eq!(flat_index(&[5], &[4]), 4);
    assert_eq!(flat_index(&[], &[]), 0);
}

#[test]
fn slice_offsets_walk_one_dim() {
    // [outer=2, size=3, inner=4]: the slice at (o=1, i=2) along the middle dim.
    assert_eq!(slice_offsets(2, 3, 4, 1, 2), vec![14, 18, 22]);
    assert_eq!(slice_offsets(1, 4, 1, 0, 0), vec![0, 1, 2, 3]);
    assert_eq!(slice_offsets(3, 0, 2, 2, 1), Vec::<usize>::new());
}
