//! A dense-matrix multiplication library with a task-per-cell work model.
//!
//! Multiplication is organised the way a worker pool runs it: the output
//! cells are partitioned into independent dot-product tasks, each task is
//! assigned to a worker by round-robin on the output row, and the results
//! are written back by target index, so the outcome is the same whatever
//! order the workers finish in. Every function here is verified; the
//! thread and channel plumbing that drives the same task model lives
//! outside the library.

pub mod error;
pub mod matrix;
pub mod metrics;
pub mod vector;

pub use error::Error;
pub use matrix::{multiply, Matrix};
pub use metrics::Metrics;
pub use vector::{dot_product, Vector};
