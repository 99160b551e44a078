use ferro::dense::{
    arange, cat, cat_split, embedding, index_select, index_select_t, logits_classes, one_hot, select_targets, Dense,
};
use ferro::dtype::DType;
use ferro::error::Error;

fn dense(data: Vec<f32>, shape: &[usize]) -> Dense<f32> {
    assert_eq!(data.len(), shape.iter().product::<usize>());
    Dense { shape: shape.to_vec(), data }
}

#[test]
fn cat_values() {
    let a = dense(vec![1.0, 2.0, 3.0, 4.0], &[2, 2]);
    let b = dense(vec![5.0, 6.0, 7.0, 8.0], &[2, 2]);

    let c0 = cat(&[a.clone(), b.clone()], 0).unwrap();
    assert_eq!(c0.shape, vec![4, 2]);
    assert_eq!(c0.data, vec![1.0, 2.0, 3.0, 4.0, 5.0, 6.0, 7.0, 8.0]);

    let c1 = cat(&[a.clone(), b.clone()], 1).unwrap();
    assert_eq!(c1.shape, vec![2, 4]);
    assert_eq!(c1.data, vec![1.0, 2.0, 5.0, 6.0, 3.0, 4.0, 7.0, 8.0]);

    let d = dense(vec![9.0, 10.0], &[1, 2]);
    let c3 = cat(&[a, b, d], 0).unwrap();
    assert_eq!(c3.shape, vec![5, 2]);
    assert_eq!(c3.data, vec![1.0, 2.0, 3.0, 4.0, 5.0, 6.0, 7.0, 8.0, 9.0, 10.0]);
}

#[test]
fn cat_shape_errors() {
    let a = dense(vec![0.0; 4], &[2, 2]);
    // non-cat dim mismatch: [2,2] vs [2,3] along dim 0
    let b = dense(vec![0.0; 6], &[2, 3]);
    assert!(cat(&[a.clone(), b], 0).is_err());
    // dim out of range
    assert!(cat(&[a.clone(), a.clone()], 2).is_err());
    // empty list
    let none: [Dense<f32>; 0] = [];
    assert!(cat(&none, 0).is_err());
}

#[test]
fn cat_error_variants_name_the_problem() {
    let a = dense(vec![0.0; 4], &[2, 2]);
    let b = dense(vec![0.0; 6], &[2, 3]);
    match cat(&[a.clone(), b], 0) {
        Err(Error::ShapeMismatch { op, lhs, rhs }) => {
            assert_eq!(op, "cat");
            assert_eq!(lhs, vec![2, 2]);
            assert_eq!(rhs, vec![2, 3]);
        }
        other => panic!("unexpected {other:?}"),
    }
    let e = cat(&[a.clone(), a], 2).unwrap_err();
    assert_eq!(e.message(), "cat: invalid shape: dim 2 out of range for rank 2");
    let none: [Dense<f32>; 0] = [];
    let e = cat(&none, 0).unwrap_err();
    assert_eq!(e.message(), "cat: invalid shape: expected a non-empty list of tensors");
}

#[test]
fn cat_of_rank3_along_middle_dim() {
    // [2,1,2] ++ [2,2,2] along dim 1: each outer row takes 2 then 4 elements.
    let a = dense(vec![1.0, 2.0, 3.0, 4.0], &[2, 1, 2]);
    let b = dense(vec![10.0, 11.0, 12.0, 13.0, 14.0, 15.0, 16.0, 17.0], &[2, 2, 2]);
    let c = cat(&[a, b], 1).unwrap();
    assert_eq!(c.shape, vec![2, 3, 2]);
    assert_eq!(c.data, vec![1.0, 2.0, 10.0, 11.0, 12.0, 13.0, 3.0, 4.0, 14.0, 15.0, 16.0, 17.0]);
}

#[test]
fn cat_split_undoes_cat() {
    let a = dense(vec![1.0, 2.0, 3.0, 4.0], &[2, 2]);
    let b = dense(vec![5.0, 6.0, 7.0, 8.0, 9.0, 10.0], &[2, 3]);
    let c = cat(&[a.clone(), b.clone()], 1).unwrap();
    assert_eq!(c.data, vec![1.0, 2.0, 5.0, 6.0, 7.0, 3.0, 4.0, 8.0, 9.0, 10.0]);
    let parts = cat_split(&c.data, &[a.shape.clone(), b.shape.clone()], 1, 2, 1);
    assert_eq!(parts, vec![a.data, b.data]);
}

#[test]
fn cat_split_along_leading_dim() {
    let grad = vec![1.0f32, 2.0, 3.0, 4.0, 5.0, 6.0];
    let parts = cat_split(&grad, &[vec![1, 2], vec![2, 2]], 0, 1, 2);
    assert_eq!(parts, vec![vec![1.0, 2.0], vec![3.0, 4.0, 5.0, 6.0]]);
}

#[test]
fn index_select_values() {
    let a = dense(vec![1.0, 2.0, 3.0, 4.0, 5.0, 6.0], &[3, 2]);

    let s = index_select(&a, 0, &[2, 0]).unwrap();
    assert_eq!(s.shape, vec![2, 2]);
    assert_eq!(s.data, vec![5.0, 6.0, 1.0, 2.0]);

    let c = index_select(&a, 1, &[1]).unwrap();
    assert_eq!(c.shape, vec![3, 1]);
    assert_eq!(c.data, vec![2.0, 4.0, 6.0]);

    let d = index_select(&a, 0, &[1, 1]).unwrap();
    assert_eq!(d.shape, vec![2, 2]);
    assert_eq!(d.data, vec![3.0, 4.0, 3.0, 4.0]);
}

#[test]
fn index_select_errors() {
    let a = dense(vec![1.0, 2.0, 3.0, 4.0, 5.0, 6.0], &[3, 2]);
    assert!(index_select(&a, 2, &[0]).is_err());
    assert!(index_select(&a, 0, &[0, 3]).is_err());
}

#[test]
fn index_select_error_messages() {
    let a = dense(vec![1.0, 2.0, 3.0, 4.0, 5.0, 6.0], &[3, 2]);
    assert_eq!(
        index_select(&a, 0, &[0, 3, 7]).unwrap_err().message(),
        "index_select: invalid shape: index 3 out of range for dim 0 with size 3"
    );
    assert_eq!(
        index_select(&a, 2, &[0]).unwrap_err().message(),
        "index_select: invalid shape: dim 2 out of range for rank 2"
    );
}

#[test]
fn index_select_t_values_and_errors() {
    let a = dense(vec![1.0, 2.0, 3.0, 4.0, 5.0, 6.0], &[3, 2]);

    let s = index_select_t(&a, 0, DType::I64, &[2], &[2, 0]).unwrap();
    assert_eq!(s.shape, vec![2, 2]);
    assert_eq!(s.data, vec![5.0, 6.0, 1.0, 2.0]);

    // f32 ids
    assert!(matches!(index_select_t(&a, 0, DType::F32, &[1], &[0]), Err(Error::DtypeMismatch { .. })));

    // 2-D ids
    assert!(index_select_t(&a, 0, DType::I64, &[1, 2], &[0, 1]).is_err());
    assert!(index_select_t(&a, 0, DType::I64, &[1], &[-1]).is_err());
    assert!(index_select_t(&a, 0, DType::I64, &[1], &[3]).is_err());
}

#[test]
fn index_select_t_messages() {
    let a = dense(vec![1.0, 2.0, 3.0, 4.0, 5.0, 6.0], &[3, 2]);
    assert_eq!(
        index_select_t(&a, 0, DType::I64, &[1], &[-1]).unwrap_err().message(),
        "index_select_t: invalid shape: index -1 out of range for dim 0 with size 3"
    );
    assert_eq!(
        index_select_t(&a, 0, DType::I64, &[1, 2], &[0, 1]).unwrap_err().message(),
        "index_select_t: invalid shape: ids must be 1-D, got shape [1, 2]"
    );
    assert_eq!(
        index_select_t(&a, 0, DType::F64, &[1], &[0]).unwrap_err().message(),
        "index_select_t: expected i64 tensor, got f64"
    );
}

#[test]
fn embedding_rows_and_errors() {
    let weight = dense(vec![0.0, 0.1, 1.0, 1.1, 2.0, 2.1, 3.0, 3.1], &[4, 2]);
    let out = embedding(&weight, DType::I64, &[3], &[3, 0, 3]).unwrap();
    assert_eq!(out.shape, vec![3, 2]);
    assert_eq!(out.data, vec![3.0, 3.1, 0.0, 0.1, 3.0, 3.1]);

    let flat = dense(vec![1.0; 4], &[4]);
    assert_eq!(
        embedding(&flat, DType::I64, &[3], &[3, 0, 3]).unwrap_err().message(),
        "embedding: invalid shape: weight must be 2-D [num_embeddings, dim], got [4]"
    );
    assert!(embedding(&weight, DType::I64, &[1], &[4]).is_err());
}

#[test]
fn one_hot_values_and_errors() {
    let oh = one_hot(DType::I64, &[2], &[2, 0], 3, 0.0f32, 1.0f32).unwrap();
    assert_eq!(oh.shape, vec![2, 3]);
    assert_eq!(oh.data, vec![0.0, 0.0, 1.0, 1.0, 0.0, 0.0]);

    assert!(one_hot(DType::I64, &[2], &[2, 0], 2, 0.0f32, 1.0f32).is_err());
    assert!(one_hot(DType::I64, &[1], &[-1], 3, 0.0f32, 1.0f32).is_err());
    assert!(one_hot(DType::F32, &[1], &[1], 3, 0.0f32, 1.0f32).is_err());
}

#[test]
fn one_hot_error_messages() {
    assert_eq!(
        one_hot(DType::I64, &[2], &[2, 0], 2, 0.0f32, 1.0f32).unwrap_err().message(),
        "one_hot: invalid shape: id 2 out of range for 2 classes"
    );
    assert_eq!(
        one_hot(DType::I64, &[2, 1], &[0, 1], 2, 0.0f32, 1.0f32).unwrap_err().message(),
        "one_hot: invalid shape: ids must be 1-D, got shape [2, 1]"
    );
    assert_eq!(
        one_hot(DType::F32, &[1], &[1], 3, 0.0f32, 1.0f32).unwrap_err().message(),
        "one_hot: expected i64 tensor, got f32"
    );
}

#[test]
fn one_hot_of_no_ids_is_empty() {
    let oh = one_hot(DType::I64, &[0], &[], 4, 0u8, 1u8).unwrap();
    assert_eq!(oh.shape, vec![0, 4]);
    assert!(oh.data.is_empty());
}

#[test]
fn arange_builds_i64_range() {
    let t: Vec<i64> = arange(5);
    assert_eq!(t.len(), 5);
    assert_eq!(t, vec![0, 1, 2, 3, 4]);

    assert_eq!(arange(0).len(), 0);
    assert_eq!(arange(-3).len(), 0);
}

#[test]
fn logits_must_be_two_dimensional() {
    assert_eq!(logits_classes(&[4, 3]).unwrap(), 3);
    assert_eq!(
        logits_classes(&[12]).unwrap_err().message(),
        "cross_entropy_indices: invalid shape: logits must be 2-D [batch, classes], got [12]"
    );
}

#[test]
fn select_targets_send_gradients_where_the_selection_read() {
    let a = dense(vec![1.0, 2.0, 3.0, 4.0, 5.0, 6.0], &[3, 2]);
    let picks = [2usize, 0, 2];
    let s = index_select(&a, 0, &picks).unwrap();
    let targets = select_targets(&a.shape, 0, &picks);
    assert_eq!(targets, vec![4, 5, 0, 1, 4, 5]);
    for (i, &t) in targets.iter().enumerate() {
        assert_eq!(s.data[i], a.data[t]);
    }
    // Along dim 1 of a [2,3]: each row picks columns 1 and 1.
    let b = dense(vec![1.0, 2.0, 3.0, 4.0, 5.0, 6.0], &[2, 3]);
    assert_eq!(select_targets(&b.shape, 1, &[1, 1]), vec![1, 1, 4, 4]);
    // Repeated picks accumulate when the gradient is scattered back.
    let mut gx = vec![0.0f32; 6];
    for &t in &select_targets(&b.shape, 1, &[1, 1]) {
        gx[t] += 1.0;
    }
    assert_eq!(gx, vec![0.0, 2.0, 0.0, 0.0, 2.0, 0.0]);
}
