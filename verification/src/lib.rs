//! A small reverse-mode automatic-differentiation engine built on a dense,
//! broadcasting N-dimensional integer array type.
//!
//! The crate has three layers:
//! - [`shape`]: row-major stride and index arithmetic and the broadcasting
//!   rules on shapes, together with the laws that make flat indexing sound;
//! - [`ndarray`]: the [`ndarray::NDArray`] value type with broadcasting
//!   element-wise addition, explicit broadcast materialization, batched
//!   matrix multiplication and gradient shape-reduction;
//! - [`tensor`]: the computation graph (a tape of tensors), the operation
//!   set, and the backward traversal that accumulates gradients over the
//!   whole reachable graph, including diamond-shaped sharing.

use vstd::prelude::*;

pub mod ndarray;
pub mod shape;
pub mod tensor;

verus! {

/// Errors surfaced by shape arithmetic, array operations and graph building.
#[derive(Clone, Copy, PartialEq, Eq, Structural, Debug)]
pub enum AdError {
    /// Rank mismatch, an incompatible broadcast, or a buffer whose length
    /// disagrees with the product of the shape.
    ShapeError,
    /// Matrix multiplication on an operand of rank below two, or inner
    /// dimensions that disagree.
    DimensionError,
    /// An operation was applied to the wrong number of inputs.
    ArityError,
}

} // verus!
