//! Names of the elementwise and reduction kernels that forward ops dispatch
//! to a device backend.
use vstd::prelude::*;

verus! {

/// Named elementwise binary kernels.
#[derive(Clone, Copy, Debug)]
pub enum BinaryKind {
    Add,
    Sub,
    Mul,
    Div,
}

/// Full-tensor reductions to a single element.
#[derive(Clone, Copy, Debug)]
pub enum ReduceKind {
    Sum,
    Mean,
}

} // verus!
