//! The activation passes: relu and its gradient, the softmax backward pass,
//! and the sigmoid gradient formula.

use facet_core::activation::{drelu_dz, dsigmoid, dsoftmax, relu};
use facet_core::ndarray::{NdArray, NdArrayError};
use facet_core::shape::Shape;

fn arr(shape: Shape, data: Vec<i64>) -> NdArray {
    NdArray::new_with_values(shape, data).expect("shape/data mismatch")
}

#[test]
fn relu_clamps_negatives_to_zero() {
    let x = arr(Shape::Vector(5), vec![-2, 0, 3, -7, 1]);
    let y = relu(&x);
    assert!(matches!(y.shape(), Shape::Vector(5)));
    assert_eq!(y.as_slice(), &[0, 0, 3, 0, 1]);
}

#[test]
fn relu_keeps_matrix_shape() {
    let x = arr(Shape::Matrix(2, 2), vec![5, -5, 0, 9]);
    let y = relu(&x);
    assert!(matches!(y.shape(), Shape::Matrix(2, 2)));
    assert_eq!(y.as_slice(), &[5, 0, 0, 9]);
}

#[test]
fn drelu_zeroes_gradient_where_input_nonpositive() {
    let inputs = arr(Shape::Vector(4), vec![-1, 2, 0, 5]);
    let dvalues = arr(Shape::Vector(4), vec![10, 20, 30, 40]);
    let g = drelu_dz(&inputs, &dvalues);
    assert!(matches!(g.shape(), Shape::Vector(4)));
    assert_eq!(g.as_slice(), &[0, 20, 0, 40]);
}

#[test]
fn drelu_over_columns() {
    let inputs = arr(Shape::Matrix(2, 3), vec![1, -1, 1, -1, 1, -1]);
    let dvalues = arr(Shape::Matrix(2, 3), vec![1, 2, 3, 4, 5, 6]);
    let g = drelu_dz(&inputs, &dvalues);
    assert_eq!(g.as_slice(), &[1, 0, 3, 0, 5, 0]);
}

#[test]
fn dsigmoid_elementwise_formula() {
    let output = arr(Shape::Vector(2), vec![2, -1]);
    let dvalues = arr(Shape::Vector(2), vec![3, 5]);
    let g = dsigmoid(&output, &dvalues).unwrap();
    // d * (1 - o) * o
    assert_eq!(g.as_slice(), &[3 * (1 - 2) * 2, 5 * (1 - (-1)) * (-1)]);
}

#[test]
fn dsigmoid_scalar_output_broadcasts() {
    let output = NdArray::new_scalar(2);
    let dvalues = arr(Shape::Vector(2), vec![3, 4]);
    let g = dsigmoid(&output, &dvalues).unwrap();
    assert!(matches!(g.shape(), Shape::Vector(2)));
    assert_eq!(g.as_slice(), &[-6, -8]);
}

#[test]
fn dsigmoid_shape_mismatch() {
    let output = arr(Shape::Vector(2), vec![1, 1]);
    let dvalues = arr(Shape::Vector(3), vec![1, 1, 1]);
    let r = dsigmoid(&output, &dvalues);
    assert!(matches!(
        r,
        Err(NdArrayError::DimensionMismatch {
            expected: 3,
            actual: 2
        })
    ));
}

#[test]
fn dsoftmax_applies_jacobian_per_column() {
    // columns of length 2; col0 = [1,2], col1 = [3,0]
    let output = arr(Shape::Matrix(2, 2), vec![1, 2, 3, 0]);
    let dvalues = arr(Shape::Matrix(2, 2), vec![1, 1, 2, 1]);
    let g = dsoftmax(&output, &dvalues).unwrap();
    assert!(matches!(g.shape(), Shape::Matrix(2, 2)));
    // col0 jacobian: [[1-1, -2], [-2, 2-4]] = [[0,-2],[-2,-2]]; times [1,1]
    // col1 jacobian: [[3-9, 0], [0, 0]]; times [2,1]
    assert_eq!(g.as_slice(), &[-2, -4, -12, 0]);
}

#[test]
fn dsoftmax_single_column() {
    let output = arr(Shape::Vector(3), vec![1, 0, 2]);
    let dvalues = arr(Shape::Vector(3), vec![1, 1, 1]);
    let g = dsoftmax(&output, &dvalues).unwrap();
    // jacobian: diag([1,0,2]) - outer([1,0,2],[1,0,2])
    //   = [[0,0,-2],[0,0,0],[-2,0,-2]]; times [1,1,1]
    assert_eq!(g.as_slice(), &[-2, 0, -4]);
}
