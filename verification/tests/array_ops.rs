//! Shapes, constructors, indexed access, reshape, elementwise arithmetic,
//! and the column cursor.

use facet_core::ndarray::{ColumnChunks, NdArray, NdArrayError};
use facet_core::shape::Shape;

fn arr(shape: Shape, data: Vec<i64>) -> NdArray {
    NdArray::new_with_values(shape, data).expect("shape/data mismatch")
}

#[test]
fn span_of_each_variant() {
    assert_eq!(Shape::Scalar.span(), 1);
    assert_eq!(Shape::Vector(4).span(), 4);
    assert_eq!(Shape::Matrix(2, 3).span(), 6);
    assert_eq!(Shape::Tensor(vec![2, 3, 2]).span(), 12);
}

#[test]
fn last_two_of_each_variant() {
    assert_eq!(Shape::Scalar.last_two(), None);
    assert_eq!(Shape::Vector(4).last_two(), None);
    assert_eq!(Shape::Matrix(2, 3).last_two(), Some((2, 3)));
    assert_eq!(Shape::Tensor(vec![4, 3, 2]).last_two(), Some((3, 2)));
}

#[test]
fn shape_equality() {
    assert!(Shape::Matrix(2, 3).shape_eq(&Shape::Matrix(2, 3)));
    assert!(!Shape::Matrix(2, 3).shape_eq(&Shape::Matrix(3, 2)));
    assert!(Shape::Tensor(vec![2, 3, 2]).shape_eq(&Shape::Tensor(vec![2, 3, 2])));
    assert!(!Shape::Tensor(vec![2, 3, 2]).shape_eq(&Shape::Tensor(vec![2, 2, 3])));
    assert!(!Shape::Vector(1).shape_eq(&Shape::Scalar));
}

#[test]
fn new_is_default_filled() {
    let a = NdArray::new(Shape::Matrix(2, 3));
    assert_eq!(a.len(), 6);
    assert_eq!(a.as_slice(), &[0, 0, 0, 0, 0, 0]);
}

#[test]
fn new_with_values_checks_length() {
    let r = NdArray::new_with_values(Shape::Vector(3), vec![1, 2]);
    assert!(matches!(
        r,
        Err(NdArrayError::DimensionMismatch {
            expected: 3,
            actual: 2
        })
    ));
    let ok = NdArray::new_with_values(Shape::Vector(2), vec![1, 2]).unwrap();
    assert_eq!(ok.as_slice(), &[1, 2]);
}

#[test]
fn new_scalar_holds_one_value() {
    let a = NdArray::new_scalar(42);
    assert!(matches!(a.shape(), Shape::Scalar));
    assert_eq!(a.as_slice(), &[42]);
}

#[test]
fn reshape_keeps_the_buffer() {
    let mut a = arr(Shape::Vector(6), vec![1, 2, 3, 4, 5, 6]);
    a.reshape(Shape::Matrix(2, 3));
    assert!(matches!(a.shape(), Shape::Matrix(2, 3)));
    assert_eq!(a.as_slice(), &[1, 2, 3, 4, 5, 6]);
}

#[test]
fn get_uses_row_major_order() {
    let a = arr(
        Shape::Tensor(vec![2, 2, 2]),
        vec![0, 1, 2, 3, 4, 5, 6, 7],
    );
    assert_eq!(a.get(&vec![0, 0, 0]), Some(0));
    assert_eq!(a.get(&vec![1, 0, 1]), Some(5));
    assert_eq!(a.get(&vec![1, 1, 1]), Some(7));
    assert_eq!(a.get(&vec![2, 0, 0]), None);
    assert_eq!(a.get(&vec![0, 0]), None);
    let m = arr(Shape::Matrix(2, 3), vec![1, 2, 3, 4, 5, 6]);
    assert_eq!(m.get(&vec![1, 2]), Some(6));
    assert_eq!(m.get(&vec![1, 3]), None);
}

#[test]
fn set_writes_in_range_only() {
    let mut a = arr(Shape::Matrix(2, 2), vec![1, 2, 3, 4]);
    assert!(a.set(&vec![0, 1], 9));
    assert_eq!(a.as_slice(), &[1, 9, 3, 4]);
    assert!(!a.set(&vec![2, 0], 9));
    assert_eq!(a.as_slice(), &[1, 9, 3, 4]);
}

#[test]
fn sub_elementwise_and_broadcast() {
    let a = arr(Shape::Vector(3), vec![5, 6, 7]);
    let b = arr(Shape::Vector(3), vec![1, 2, 3]);
    assert_eq!(a.sub(&b).unwrap().as_slice(), &[4, 4, 4]);
    let s = NdArray::new_scalar(1);
    assert_eq!(a.sub(&s).unwrap().as_slice(), &[4, 5, 6]);
    let t = s.sub(&a).unwrap();
    assert!(matches!(t.shape(), Shape::Vector(3)));
    assert_eq!(t.as_slice(), &[-4, -5, -6]);
}

#[test]
fn mul_elementwise_and_broadcast() {
    let a = arr(Shape::Vector(3), vec![5, 6, 7]);
    let b = arr(Shape::Vector(3), vec![1, 2, 3]);
    assert_eq!(a.mul(&b).unwrap().as_slice(), &[5, 12, 21]);
    let s = NdArray::new_scalar(2);
    assert_eq!(a.mul(&s).unwrap().as_slice(), &[10, 12, 14]);
    assert_eq!(s.mul(&a).unwrap().as_slice(), &[10, 12, 14]);
}

#[test]
fn elementwise_shape_mismatch_fails() {
    let a = arr(Shape::Vector(3), vec![5, 6, 7]);
    let b = arr(Shape::Vector(2), vec![1, 2]);
    assert!(matches!(
        a.sub(&b),
        Err(NdArrayError::DimensionMismatch {
            expected: 3,
            actual: 2
        })
    ));
    assert!(matches!(
        a.mul(&b),
        Err(NdArrayError::DimensionMismatch {
            expected: 3,
            actual: 2
        })
    ));
}

#[test]
fn get_column_borrows_trailing_columns() {
    let a = arr(Shape::Matrix(2, 3), vec![1, 2, 3, 4, 5, 6]);
    assert_eq!(a.get_column(0), &[1, 2, 3]);
    assert_eq!(a.get_column(1), &[4, 5, 6]);
}

#[test]
fn map_applies_elementwise() {
    let a = arr(Shape::Vector(3), vec![1, -2, 3]);
    let b = a.map(|v| v * 10);
    assert!(matches!(b.shape(), Shape::Vector(3)));
    assert_eq!(b.as_slice(), &[10, -20, 30]);
}

#[test]
fn column_chunks_partition_in_order() {
    let mut it = ColumnChunks::new(6, 2);
    assert_eq!(it.next(), Some((0, 2)));
    assert_eq!(it.next(), Some((2, 4)));
    assert_eq!(it.next(), Some((4, 6)));
    assert_eq!(it.next(), None);
}

#[test]
fn column_chunks_short_tail() {
    let mut it = ColumnChunks::new(5, 2);
    assert_eq!(it.next(), Some((0, 2)));
    assert_eq!(it.next(), Some((2, 4)));
    assert_eq!(it.next(), Some((4, 5)));
    assert_eq!(it.next(), None);
}
