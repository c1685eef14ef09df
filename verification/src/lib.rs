//! A verified native N-dimensional array engine: a closed three-type value
//! algebra (integer, floating point, boolean) with its promotion rules;
//! contiguous Owned storage and zero-copy Views described by offset, shape
//! and strides; a reference-counted Lifetime Manager that tracks the
//! view-to-array dependency graph so handles and views can be released in
//! any order without a dangling or doubled deallocation; and the
//! broadcasting, axis-generic operator engine built on top.
//!
//! Floating-point elements are carried as IEEE 754 binary64 bit patterns;
//! their classification and ordering are verified bit arithmetic, and their
//! rounding arithmetic is delegated to a software implementation of the same
//! IEEE operations behind the trusted wrappers in `floatbits`.

use vstd::prelude::*;

pub mod error;
pub mod floatbits;
pub mod shape;
pub mod value;
pub mod owned;
pub mod view;
pub mod ops;
pub mod algorithms;
pub mod memory;
pub mod array;
pub mod laws;

verus! {

/// The closed set of element types an array can have.
#[derive(Clone, Copy, PartialEq, Eq, Structural, Debug)]
pub enum NDArrayType {
    Int,
    Float,
    Bool,
}

impl NDArrayType {
    /// Decodes the numeric type tag used at the boundary.
    pub fn try_from(value: usize) -> (r: Result<NDArrayType, ()>)
        ensures
            r == (match value {
                1usize => Ok::<NDArrayType, ()>(NDArrayType::Int),
                2usize => Ok::<NDArrayType, ()>(NDArrayType::Float),
                3usize => Ok::<NDArrayType, ()>(NDArrayType::Bool),
                _ => Err::<NDArrayType, ()>(()),
            }),
    {
        match value {
            1 => Ok(NDArrayType::Int),
            2 => Ok(NDArrayType::Float),
            3 => Ok(NDArrayType::Bool),
            _ => Err(()),
        }
    }
}

} // verus!
