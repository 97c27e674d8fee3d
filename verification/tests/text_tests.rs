use rustingo::error::Error;
use rustingo::gpu::Device;
use rustingo::text::{decimal_string, render_matrix, render_tensor, render_vector};

fn cells(xs: &[f32]) -> Vec<String> {
    xs.iter().map(|x| format!("{:.4}", x)).collect()
}

#[test]
fn decimal_rendering() {
    assert_eq!(decimal_string(0), "0");
    assert_eq!(decimal_string(7), "7");
    assert_eq!(decimal_string(10), "10");
    assert_eq!(decimal_string(1234567), "1234567");
    assert_eq!(decimal_string(usize::MAX), usize::MAX.to_string());
}

#[test]
fn error_messages() {
    let e = Error::ShapeMismatch { expected: vec![2, 3], got: vec![3, 2] };
    assert_eq!(e.message(), "Shape mismatch: expected [2, 3], got [3, 2]");
    let e = Error::SizeMismatch { expected: 3, got: 2 };
    assert_eq!(e.message(), "Size mismatch: expected 3 elements, got 2");
    assert_eq!(Error::EmptyTensor.message(), "Tensor is empty (zero elements)");
    assert_eq!(Error::InvalidInput("bad".to_string()).message(), "Invalid input: bad");
    assert_eq!(Error::DivisionByZero.message(), "Division by zero");
    assert_eq!(
        Error::NoGradient.message(),
        "No gradient available — call backward() first or set requires_grad=true"
    );
    let e = Error::BroadcastError { a: vec![], b: vec![4] };
    assert_eq!(e.message(), "Cannot broadcast shapes [] and [4]");
    let e = Error::MatmulIncompatible { a_cols: 2, b_rows: 1 };
    assert_eq!(e.message(), "Matmul shape error: A.cols=2 ≠ B.rows=1");
}

#[test]
fn device_labels() {
    assert_eq!(Device::Cpu.label(), "cpu");
    assert_eq!(Device::Gpu(12).label(), "gpu:12");
}

#[test]
fn tensor_rendering() {
    assert_eq!(
        render_tensor(&cells(&[1.0, 2.0, 3.0]), &[3], false, false),
        "Tensor([1.0000, 2.0000, 3.0000], shape=[3], dtype=f32)"
    );
    assert_eq!(
        render_tensor(&cells(&[1.0, 2.0, 3.0, 4.0]), &[2, 2], false, false),
        "Tensor([[1.0000, 2.0000],\n        [3.0000, 4.0000]], shape=[2, 2], dtype=f32)"
    );
    assert_eq!(
        render_tensor(&cells(&[3.14]), &[], true, true),
        "Tensor(3.1400, shape=[], dtype=f32, requires_grad=true, grad=Some)"
    );
    assert_eq!(
        render_tensor(&cells(&[1.0, 2.0]), &[1, 2, 1], false, true),
        "Tensor([1.0000, 2.0000], shape=[1, 2, 1], dtype=f32, grad=Some)"
    );
}

#[test]
fn matrix_and_vector_rendering() {
    let m = render_matrix(2, 2, &cells(&[1.0, 2.0, 3.0, 4.0]));
    assert_eq!(m, "Matrix(2×2) [\n  [1.0000, 2.0000],\n  [3.0000, 4.0000]\n])");
    assert_eq!(render_vector(&cells(&[1.5, -2.0])), "Vector([1.5000, -2.0000])");
    assert_eq!(render_vector(&Vec::new()), "Vector([])");
}
