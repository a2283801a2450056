//! A shape-polymorphic tensor arithmetic engine: scalars, vectors, matrices
//! and batches of matrices share one dense row-major representation, one
//! matrix-multiplication kernel, a broadcasting dispatcher that resolves
//! matmul for every shape pair, and differentiable activation passes.

pub mod activation;
pub mod matrix;
pub mod ndarray;
pub mod shape;

pub use ndarray::NdArray;
pub use ndarray::NdArrayError;
pub use shape::Shape;
