use vstd::prelude::*;

verus! {

/// The error taxonomy of the engine. Every operation that can be handed bad
/// handles, shapes or operands reports one of these instead of a partial
/// result; validity checks run before any mutation.
#[derive(Clone, Copy, PartialEq, Eq, Structural, Debug)]
pub enum RyndError {
    /// A handle that is absent from the refcount table was used.
    DeletedHandle,
    /// Shape mismatch in a binary operation, reshape, concat, matmul or assign.
    IncompatibleShape,
    /// The given axis list is not a permutation of the array's axes.
    InvalidPermutation,
    /// Bad index rank, type or range, including slice bounds and a zero step.
    InvalidIndex,
    /// Unsupported type combination, such as dividing two boolean arrays or
    /// stacking arrays of different element types.
    IncompatibleType,
    /// Operation undefined for the operand's element type.
    UnsupportedOperation,
}

} // verus!
