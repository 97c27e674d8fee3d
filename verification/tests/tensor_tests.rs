use rustingo::autograd::any_requires_grad;
use rustingo::error::Error;
use rustingo::math::Matrix;
use rustingo::shape::matmul_dims;
use rustingo::tensor::TensorStorage;

#[test]
fn test_zeros() {
    let t = TensorStorage::full(&[2, 3], 0.0f32);
    assert_eq!(t.shape().clone(), vec![2, 3]);
    assert_eq!(t.numel(), 6);
    assert!(t.data().iter().all(|&x| x == 0.0));
}

#[test]
fn test_ones() {
    let t = TensorStorage::full(&[3], 1.0f32);
    assert_eq!(t.numel(), 3);
    assert!(t.data().iter().all(|&x| x == 1.0));
}

#[test]
fn test_scalar() {
    let s = TensorStorage::scalar(42.0f32);
    assert_eq!(s.shape().clone(), Vec::<usize>::new());
    assert_eq!(s.item(), 42.0);
    assert_eq!(s.numel(), 1);
}

#[test]
fn test_from_vec_ok() {
    let t = TensorStorage::from_vec(vec![1.0f32, 2.0, 3.0, 4.0], vec![2, 2]).unwrap();
    assert_eq!(t.shape().clone(), vec![2, 2]);
    assert_eq!(t.data().clone(), vec![1.0, 2.0, 3.0, 4.0]);
}

#[test]
fn test_from_vec_size_mismatch() {
    let result = TensorStorage::from_vec(vec![1.0f32, 2.0], vec![3]);
    assert!(result.is_err());
}

#[test]
fn test_requires_grad_propagates() {
    // a requires grad, b does not: the sum of both requires grad
    let c = any_requires_grad(&[true, false]);
    assert!(c, "output should require grad because a does");
}

#[test]
fn test_no_grad_when_neither_requires_it() {
    let c = any_requires_grad(&[false, false]);
    assert!(!c);
}

#[test]
fn test_matmul_shape_error() {
    assert!(matmul_dims(&[1, 2], &[1, 2]).is_err());
}

#[test]
fn test_transpose_2d() {
    let a = TensorStorage::from_vec(vec![1.0f32, 2.0, 3.0, 4.0, 5.0, 6.0], vec![2, 3]).unwrap();
    let t = a.transpose().unwrap();
    assert_eq!(t.shape().clone(), vec![3, 2]);
    assert_eq!(t.data().clone(), vec![1.0, 4.0, 2.0, 5.0, 3.0, 6.0]);
}

#[test]
fn test_matrix_identity() {
    let eye = Matrix::identity_with(3, 0.0f64, 1.0f64);
    assert_eq!(eye.get(0, 0), 1.0);
    assert_eq!(eye.get(0, 1), 0.0);
    assert_eq!(eye.get(1, 1), 1.0);
}

// ─── further storage behaviour ───────────────────────────────────────────────

#[test]
fn storage_from_vec_reports_expected_and_got() {
    let err = TensorStorage::from_vec(vec![1.0f32, 2.0], vec![3]).err().unwrap();
    assert_eq!(err, Error::SizeMismatch { expected: 3, got: 2 });
}

#[test]
fn storage_scalar_shape_accepts_one_element() {
    let t = TensorStorage::from_vec(vec![7.5f32], vec![]).unwrap();
    assert_eq!(t.ndim(), 0);
    assert_eq!(t.item(), 7.5);
}

#[test]
fn storage_zero_dimension_is_empty() {
    let t = TensorStorage::from_vec(Vec::<f32>::new(), vec![4, 0]).unwrap();
    assert_eq!(t.numel(), 0);
    assert_eq!(t.ndim(), 2);
}

#[test]
fn storage_transpose_rejects_non_2d() {
    let t = TensorStorage::from_vec(vec![1.0f32, 2.0, 3.0], vec![3]).unwrap();
    assert_eq!(
        t.transpose().err().unwrap(),
        Error::InvalidInput("transpose requires a 2-D tensor".to_string())
    );
}

#[test]
fn storage_transpose_twice_is_identity() {
    let a = TensorStorage::from_vec(vec![1i32, 2, 3, 4, 5, 6], vec![3, 2]).unwrap();
    let back = a.transpose().unwrap().transpose().unwrap();
    assert_eq!(back.shape().clone(), vec![3, 2]);
    assert_eq!(back.data().clone(), a.data().clone());
}

#[test]
fn storage_to_batch_lifts_vectors() {
    let v = TensorStorage::from_vec(vec![1.0f32, 2.0], vec![2]).unwrap();
    let b = v.to_batch();
    assert_eq!(b.shape().clone(), vec![1, 2]);
    assert_eq!(b.data().clone(), vec![1.0, 2.0]);
    let m = TensorStorage::from_vec(vec![1.0f32, 2.0], vec![2, 1]).unwrap();
    assert_eq!(m.to_batch().shape().clone(), vec![2, 1]);
}

#[test]
fn storage_into_parts_returns_both() {
    let t = TensorStorage::full(&[2, 2], 3u8);
    let (data, shape) = t.into_parts();
    assert_eq!(data, vec![3, 3, 3, 3]);
    assert_eq!(shape, vec![2, 2]);
}
