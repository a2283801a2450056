//! The broadcasting table: every shape pair either produces the documented
//! result shape or fails with the documented error.

use facet_core::ndarray::{NdArray, NdArrayError};
use facet_core::shape::Shape;

fn arr(shape: Shape, data: Vec<i64>) -> NdArray {
    NdArray::new_with_values(shape, data).expect("shape/data mismatch")
}

fn scalar() -> NdArray {
    NdArray::new_scalar(7)
}

#[test]
fn scalar_operands_are_rejected() {
    let s = scalar();
    let v = arr(Shape::Vector(2), vec![1, 2]);
    let m = arr(Shape::Matrix(2, 2), vec![1, 2, 3, 4]);
    let t = arr(Shape::Tensor(vec![1, 2, 2]), vec![1, 2, 3, 4]);
    let mut out = NdArray::new_scalar(0);
    for (a, b) in [
        (&s, &s),
        (&s, &v),
        (&s, &m),
        (&s, &t),
        (&v, &s),
        (&m, &s),
        (&t, &s),
    ] {
        let r = a.matmul(b, &mut out);
        assert!(matches!(
            r,
            Err(NdArrayError::BinaryOpNotSupported { .. })
        ));
    }
}

#[test]
fn vector_dot_vector_is_scalar() {
    let a = arr(Shape::Vector(3), vec![1, 2, 3]);
    let b = arr(Shape::Vector(3), vec![4, 5, 6]);
    let mut out = NdArray::new_scalar(0);
    a.matmul(&b, &mut out).unwrap();
    assert!(matches!(out.shape(), Shape::Scalar));
    assert_eq!(out.as_slice(), &[32]);
}

#[test]
fn vector_dot_length_mismatch() {
    let a = arr(Shape::Vector(3), vec![1, 2, 3]);
    let b = arr(Shape::Vector(2), vec![4, 5]);
    let mut out = NdArray::new_scalar(9);
    let r = a.matmul(&b, &mut out);
    assert!(matches!(
        r,
        Err(NdArrayError::DimensionMismatch {
            expected: 3,
            actual: 2
        })
    ));
    // a failing call leaves out untouched
    assert_eq!(out.as_slice(), &[9]);
}

#[test]
fn vector_times_matrix_is_vector() {
    let a = arr(Shape::Vector(2), vec![1, 1]);
    let b = arr(Shape::Matrix(2, 3), vec![1, 2, 3, 4, 5, 6]);
    let mut out = NdArray::new_scalar(0);
    a.matmul(&b, &mut out).unwrap();
    assert!(matches!(out.shape(), Shape::Vector(3)));
    assert_eq!(out.as_slice(), &[5, 7, 9]);
}

#[test]
fn vector_times_matrix_mismatch() {
    let a = arr(Shape::Vector(3), vec![1, 1, 1]);
    let b = arr(Shape::Matrix(2, 3), vec![1, 2, 3, 4, 5, 6]);
    let mut out = NdArray::new_scalar(0);
    let r = a.matmul(&b, &mut out);
    assert!(matches!(
        r,
        Err(NdArrayError::DimensionMismatch {
            expected: 3,
            actual: 2
        })
    ));
}

#[test]
fn matrix_times_vector_is_vector_of_rows() {
    let a = arr(Shape::Matrix(2, 3), vec![1, 2, 3, 4, 5, 6]);
    let b = arr(Shape::Vector(3), vec![1, 1, 1]);
    let mut out = NdArray::new_scalar(0);
    a.matmul(&b, &mut out).unwrap();
    // the result length is the row count of the matrix
    assert!(matches!(out.shape(), Shape::Vector(2)));
    assert_eq!(out.as_slice(), &[6, 15]);
}

#[test]
fn matrix_times_matrix() {
    let a = arr(Shape::Matrix(2, 2), vec![1, 2, 3, 4]);
    let b = arr(Shape::Matrix(2, 2), vec![5, 6, 7, 8]);
    let mut out = NdArray::new_scalar(0);
    a.matmul(&b, &mut out).unwrap();
    assert!(matches!(out.shape(), Shape::Matrix(2, 2)));
    assert_eq!(out.as_slice(), &[19, 22, 43, 50]);
}

#[test]
fn matrix_times_matrix_inner_mismatch() {
    let a = arr(Shape::Matrix(2, 3), vec![1, 2, 3, 4, 5, 6]);
    let b = arr(Shape::Matrix(2, 2), vec![5, 6, 7, 8]);
    let mut out = NdArray::new_scalar(0);
    let r = a.matmul(&b, &mut out);
    assert!(matches!(
        r,
        Err(NdArrayError::DimensionMismatch {
            expected: 3,
            actual: 2
        })
    ));
}

#[test]
fn vector_times_tensor_broadcasts() {
    // two 2x2 identity slices
    let b = arr(
        Shape::Tensor(vec![2, 2, 2]),
        vec![1, 0, 0, 1, 1, 0, 0, 1],
    );
    let a = arr(Shape::Vector(2), vec![3, 4]);
    let mut out = NdArray::new_scalar(0);
    a.matmul(&b, &mut out).unwrap();
    assert!(matches!(out.shape(), Shape::Matrix(2, 2)));
    assert_eq!(out.as_slice(), &[3, 4, 3, 4]);
}

#[test]
fn vector_times_tensor_mismatch() {
    let b = arr(
        Shape::Tensor(vec![2, 3, 2]),
        vec![3, 1, 0, -1, -2, 3, 3, 1, 0, -1, -2, 3],
    );
    // inner (trailing) dimension is checked first
    let a = arr(Shape::Vector(3), vec![1, 1, 1]);
    let mut out = NdArray::new_scalar(0);
    assert!(matches!(
        a.matmul(&b, &mut out),
        Err(NdArrayError::DimensionMismatch {
            expected: 3,
            actual: 2
        })
    ));
    // then the slice row count must match the vector as well
    let a2 = arr(Shape::Vector(2), vec![1, 1]);
    assert!(matches!(
        a2.matmul(&b, &mut out),
        Err(NdArrayError::DimensionMismatch {
            expected: 2,
            actual: 3
        })
    ));
}

#[test]
fn tensor_times_vector_broadcasts() {
    let a = arr(
        Shape::Tensor(vec![2, 2, 2]),
        vec![1, 2, 3, 4, 1, 0, 0, 1],
    );
    let b = arr(Shape::Vector(2), vec![1, 1]);
    let mut out = NdArray::new_scalar(0);
    a.matmul(&b, &mut out).unwrap();
    assert!(matches!(out.shape(), Shape::Matrix(2, 2)));
    assert_eq!(out.as_slice(), &[3, 7, 1, 1]);
}

#[test]
fn tensor_times_vector_mismatch() {
    let a = arr(
        Shape::Tensor(vec![2, 3, 2]),
        vec![3, 1, 0, -1, -2, 3, 3, 1, 0, -1, -2, 3],
    );
    let b = arr(Shape::Vector(3), vec![1, 1, 1]);
    let mut out = NdArray::new_scalar(0);
    assert!(matches!(
        a.matmul(&b, &mut out),
        Err(NdArrayError::DimensionMismatch {
            expected: 3,
            actual: 2
        })
    ));
}

#[test]
fn tensor_times_matrix_mismatch() {
    let a = arr(
        Shape::Tensor(vec![2, 2, 2]),
        vec![1, 0, 0, 1, 1, 0, 0, 1],
    );
    let b = arr(Shape::Matrix(3, 3), vec![1, 2, 3, 4, 5, 6, 7, 8, 9]);
    let mut out = NdArray::new_scalar(0);
    assert!(matches!(
        a.matmul(&b, &mut out),
        Err(NdArrayError::DimensionMismatch {
            expected: 2,
            actual: 3
        })
    ));
}

#[test]
fn matrix_times_tensor_broadcasts() {
    // the concrete broadcasting example: a 2x3 matrix against two equal
    // 3x2 slices
    let a = arr(Shape::Matrix(2, 3), vec![1, 2, -1, 2, 0, 1]);
    let b = arr(
        Shape::Tensor(vec![2, 3, 2]),
        vec![3, 1, 0, -1, -2, 3, 3, 1, 0, -1, -2, 3],
    );
    let mut out = NdArray::new_scalar(0);
    a.matmul(&b, &mut out).unwrap();
    match out.shape() {
        Shape::Tensor(d) => assert_eq!(d.as_slice(), &[2, 2, 2]),
        other => panic!("expected tensor shape, got {:?}", other),
    }
    assert_eq!(out.as_slice(), &[5, -4, 4, 5, 5, -4, 4, 5]);
}

#[test]
fn matrix_times_tensor_mismatch() {
    let a = arr(Shape::Matrix(2, 2), vec![1, 2, 3, 4]);
    let b = arr(
        Shape::Tensor(vec![2, 3, 2]),
        vec![3, 1, 0, -1, -2, 3, 3, 1, 0, -1, -2, 3],
    );
    let mut out = NdArray::new_scalar(0);
    assert!(matches!(
        a.matmul(&b, &mut out),
        Err(NdArrayError::DimensionMismatch {
            expected: 2,
            actual: 3
        })
    ));
}

#[test]
fn tensor_times_matrix_broadcasts() {
    let a = arr(
        Shape::Tensor(vec![2, 2, 2]),
        vec![1, 0, 0, 1, 1, 0, 0, 1],
    );
    let b = arr(Shape::Matrix(2, 2), vec![1, 2, 3, 4]);
    let mut out = NdArray::new_scalar(0);
    a.matmul(&b, &mut out).unwrap();
    match out.shape() {
        Shape::Tensor(d) => assert_eq!(d.as_slice(), &[2, 2, 2]),
        other => panic!("expected tensor shape, got {:?}", other),
    }
    assert_eq!(out.as_slice(), &[1, 2, 3, 4, 1, 2, 3, 4]);
}

#[test]
fn tensor_times_tensor_batched() {
    let a = arr(
        Shape::Tensor(vec![2, 2, 2]),
        vec![1, 0, 0, 1, 2, 0, 0, 2],
    );
    let b = arr(
        Shape::Tensor(vec![2, 2, 2]),
        vec![1, 2, 3, 4, 1, 2, 3, 4],
    );
    let mut out = NdArray::new_scalar(0);
    a.matmul(&b, &mut out).unwrap();
    match out.shape() {
        Shape::Tensor(d) => assert_eq!(d.as_slice(), &[2, 2, 2]),
        other => panic!("expected tensor shape, got {:?}", other),
    }
    assert_eq!(out.as_slice(), &[1, 2, 3, 4, 2, 4, 6, 8]);
}

#[test]
fn tensor_times_tensor_batch_mismatch() {
    let a = arr(
        Shape::Tensor(vec![2, 2, 2]),
        vec![1, 0, 0, 1, 2, 0, 0, 2],
    );
    let b = arr(
        Shape::Tensor(vec![3, 2, 2]),
        vec![1, 2, 3, 4, 1, 2, 3, 4, 1, 2, 3, 4],
    );
    let mut out = NdArray::new_scalar(0);
    assert!(matches!(
        a.matmul(&b, &mut out),
        Err(NdArrayError::DimensionMismatch {
            expected: 2,
            actual: 3
        })
    ));
}

#[test]
fn tensor_times_tensor_inner_mismatch() {
    let a = arr(
        Shape::Tensor(vec![2, 2, 3]),
        vec![1, 0, 0, 1, 2, 0, 0, 2, 1, 1, 1, 1],
    );
    let b = arr(
        Shape::Tensor(vec![2, 2, 3]),
        vec![1, 2, 3, 4, 1, 2, 3, 4, 1, 1, 1, 1],
    );
    let mut out = NdArray::new_scalar(0);
    assert!(matches!(
        a.matmul(&b, &mut out),
        Err(NdArrayError::DimensionMismatch {
            expected: 3,
            actual: 2
        })
    ));
}

#[test]
fn broadcast_slices_match_independent_kernel_runs() {
    // broadcasting one matrix against a batch of two different slices:
    // the leading dimension of the result is the batch size, and each
    // result slice equals the kernel applied to the fixed matrix and the
    // matching batch slice on its own
    let a = arr(Shape::Matrix(2, 3), vec![1, 2, -1, 2, 0, 1]);
    let s1 = vec![3, 1, 0, -1, -2, 3];
    let s2 = vec![1, 0, 0, 1, 1, 1];
    let mut all = s1.clone();
    all.extend_from_slice(&s2);
    let b = arr(Shape::Tensor(vec![2, 3, 2]), all);
    let mut out = NdArray::new_scalar(0);
    a.matmul(&b, &mut out).unwrap();
    match out.shape() {
        Shape::Tensor(d) => assert_eq!(d.as_slice(), &[2, 2, 2]),
        other => panic!("expected tensor shape, got {:?}", other),
    }
    let mut out1 = vec![0i64; 4];
    facet_core::matrix::matmul_impl(2, 3, &a.values, 3, 2, &s1, &mut out1).unwrap();
    let mut out2 = vec![0i64; 4];
    facet_core::matrix::matmul_impl(2, 3, &a.values, 3, 2, &s2, &mut out2).unwrap();
    assert_eq!(&out.as_slice()[0..4], out1.as_slice());
    assert_eq!(&out.as_slice()[4..8], out2.as_slice());
}
