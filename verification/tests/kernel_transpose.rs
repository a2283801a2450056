//! The raw kernel's contract and the transpose round trip.

use facet_core::matrix::{matmul_impl, transpose_mat};
use facet_core::ndarray::{NdArray, NdArrayError};
use facet_core::shape::Shape;

#[test]
fn kernel_multiplies_two_by_two() {
    let a = vec![1i64, 2, 3, 4];
    let b = vec![5i64, 6, 7, 8];
    let mut out = vec![0i64; 4];
    matmul_impl(2, 2, &a, 2, 2, &b, &mut out).unwrap();
    assert_eq!(out, vec![19, 22, 43, 50]);
}

#[test]
fn kernel_overwrites_stale_output() {
    let a = vec![1i64, 0, 0, 1];
    let b = vec![2i64, 3, 4, 5];
    let mut out = vec![99i64; 4];
    matmul_impl(2, 2, &a, 2, 2, &b, &mut out).unwrap();
    assert_eq!(out, vec![2, 3, 4, 5]);
}

#[test]
fn kernel_inner_mismatch_leaves_output_untouched() {
    let a = vec![1i64, 2];
    let b = vec![1i64, 2, 3];
    let mut out = vec![7i64];
    let r = matmul_impl(1, 2, &a, 3, 1, &b, &mut out);
    assert!(matches!(
        r,
        Err(NdArrayError::DimensionMismatch {
            expected: 2,
            actual: 3
        })
    ));
    assert_eq!(out, vec![7]);
}

#[test]
fn kernel_accepts_largest_elements() {
    let a = vec![1048576i64];
    let b = vec![-1048576i64];
    let mut out = vec![0i64];
    matmul_impl(1, 1, &a, 1, 1, &b, &mut out).unwrap();
    assert_eq!(out, vec![-1099511627776]);
}

#[test]
fn one_by_one_shapes() {
    let a = NdArray::new_with_values(Shape::Matrix(1, 1), vec![3]).unwrap();
    let b = NdArray::new_with_values(Shape::Vector(1), vec![4]).unwrap();
    let mut out = NdArray::new_scalar(0);
    a.matmul(&b, &mut out).unwrap();
    assert!(matches!(out.shape(), Shape::Vector(1)));
    assert_eq!(out.as_slice(), &[12]);
}

#[test]
fn transpose_two_by_three() {
    let a = vec![1i64, 2, 3, 4, 5, 6];
    let mut b = vec![0i64; 6];
    transpose_mat(2, 3, &a, &mut b);
    assert_eq!(b, vec![1, 4, 2, 5, 3, 6]);
}

#[test]
fn transpose_round_trip() {
    let a = vec![7i64, -2, 0, 5, 9, 1, 4, 4, -3, 2, 8, 6];
    let mut b = vec![0i64; 12];
    transpose_mat(3, 4, &a, &mut b);
    let mut c = vec![0i64; 12];
    transpose_mat(4, 3, &b, &mut c);
    assert_eq!(c, a);
}
