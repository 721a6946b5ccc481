//! Why an operation or a measurement was refused.
use vstd::prelude::*;

verus! {

/// A caller-input mistake detected before the register is touched.
#[derive(Debug, Clone, Copy, PartialEq, Eq, Structural)]
pub enum OperationError {
    /// A target at or above the register size, or one named twice.
    InvalidTarget(usize),
    /// The matrix shape (rows, columns) does not match the number of targets.
    InvalidDimensions(usize, usize),
    /// An operation without targets; reserved, never produced.
    NoTargets,
}

} // verus!
