//! The error type of every fallible tensor operation.
use vstd::prelude::*;
use vstd::string::*;
use crate::device::{device_text, Device};
use crate::dtype::{dtype_name, DType};
use crate::text::{decimal, push_decimal, push_sizes, sizes_text};

verus! {

/// Why a tensor operation was refused; `op` names the operation.
#[derive(Debug, Clone, PartialEq, Eq)]
pub enum Error {
    /// Two shapes could not be broadcast/aligned for an op.
    ShapeMismatch { op: &'static str, lhs: Vec<usize>, rhs: Vec<usize> },
    /// A shape argument was invalid for the requested op (e.g. bad reshape).
    InvalidShape { op: &'static str, msg: String },
    /// An op does not support the given rank/config.
    Unsupported { op: &'static str, msg: String },
    /// Operands live on different devices.
    DeviceMismatch { op: &'static str, lhs: Device, rhs: Device },
    /// An operand has the wrong dtype for the op (float math is f32-only).
    DtypeMismatch { op: &'static str, expected: DType, got: DType },
}

/// Result of a tensor operation.
pub type Result<T> = std::result::Result<T, Error>;

/// The human-readable form of an error.
pub open spec fn error_text(e: Error) -> Seq<char> {
    match e {
        Error::ShapeMismatch { op, lhs, rhs } => op@ + ": incompatible shapes "@ + sizes_text(lhs@)
            + " and "@ + sizes_text(rhs@),
        Error::InvalidShape { op, msg } => op@ + ": invalid shape: "@ + msg@,
        Error::Unsupported { op, msg } => op@ + ": unsupported: "@ + msg@,
        Error::DeviceMismatch { op, lhs, rhs } => op@ + ": operands on different devices ("@
            + device_text(lhs) + " vs "@ + device_text(rhs) + ")"@,
        Error::DtypeMismatch { op, expected, got } => op@ + ": expected "@ + dtype_name(expected)
            + " tensor, got "@ + dtype_name(got),
    }
}

impl Error {
    /// The human-readable form of the error, e.g.
    /// `add: incompatible shapes [2, 3] and [4]`.
    pub fn message(&self) -> (s: String)
        ensures
            s@ == error_text(*self),
    {
        match self {
            Error::ShapeMismatch { op, lhs, rhs } => {
                let mut s = String::from_str(op);
                s.append(": incompatible shapes ");
                push_sizes(&mut s, lhs.as_slice());
                s.append(" and ");
                push_sizes(&mut s, rhs.as_slice());
                assert(s@ =~= error_text(*self));
                s
            },
            Error::InvalidShape { op, msg } => {
                let mut s = String::from_str(op);
                s.append(": invalid shape: ");
                s.append(msg.as_str());
                s
            },
            Error::Unsupported { op, msg } => {
                let mut s = String::from_str(op);
                s.append(": unsupported: ");
                s.append(msg.as_str());
                s
            },
            Error::DeviceMismatch { op, lhs, rhs } => {
                let mut s = String::from_str(op);
                s.append(": operands on different devices (");
                lhs.push_label(&mut s);
                s.append(" vs ");
                rhs.push_label(&mut s);
                s.append(")");
                assert(s@ =~= error_text(*self));
                s
            },
            Error::DtypeMismatch { op, expected, got } => {
                let mut s = String::from_str(op);
                s.append(": expected ");
                s.append(expected.name());
                s.append(" tensor, got ");
                s.append(got.name());
                assert(s@ =~= error_text(*self));
                s
            },
        }
    }
}

/// Message of a dim argument past the tensor's rank.
pub open spec fn dim_range_msg(dim: usize, rank: usize) -> Seq<char> {
    "dim "@ + decimal(dim as nat) + " out of range for rank "@ + decimal(rank as nat)
}

/// `InvalidShape` for a dim argument past the tensor's rank.
pub fn dim_out_of_range(op: &'static str, dim: usize, rank: usize) -> (e: Error)
    ensures
        e matches Error::InvalidShape { op: o, msg } && o == op && msg@ == dim_range_msg(dim, rank),
{
    let mut msg = String::from_str("dim ");
    push_decimal(&mut msg, dim);
    msg.append(" out of range for rank ");
    push_decimal(&mut msg, rank);
    Error::InvalidShape { op, msg }
}

/// `DtypeMismatch` unless `got` is `F32`: float math is f32-only, and other
/// dtypes enter it only through an explicit cast.
pub fn check_f32(op: &'static str, got: DType) -> (r: Result<()>)
    ensures
        got == DType::F32 ==> r is Ok,
        got != DType::F32 ==> (r matches Err(Error::DtypeMismatch { op: o, expected, got: g }) && o == op
            && expected == DType::F32 && g == got),
{
    if got != DType::F32 {
        return Err(Error::DtypeMismatch { op, expected: DType::F32, got });
    }
    Ok(())
}

/// `InvalidShape` when `dim` is past a tensor of rank `rank`, checked before
/// any op that works along one dim.
pub fn check_dim(op: &'static str, dim: usize, rank: usize) -> (r: Result<()>)
    ensures
        dim < rank ==> r is Ok,
        dim >= rank ==> (r matches Err(Error::InvalidShape { op: o, msg }) && o == op && msg@ == dim_range_msg(dim, rank)),
{
    if dim >= rank {
        return Err(dim_out_of_range(op, dim, rank));
    }
    Ok(())
}

/// The first operand in `dtypes` that is not `F32`, in order.
pub open spec fn first_non_f32(dtypes: Seq<DType>, k: int) -> bool {
    &&& 0 <= k < dtypes.len()
    &&& dtypes[k] != DType::F32
    &&& forall|j: int| 0 <= j < k ==> #[trigger] dtypes[j] == DType::F32
}

/// [`check_f32`] on every operand in order: the error of the first one that
/// is not `F32`, if any.
pub fn check_all_f32(op: &'static str, dtypes: &[DType]) -> (r: Result<()>)
    ensures
        (forall|j: int| 0 <= j < dtypes@.len() ==> #[trigger] dtypes@[j] == DType::F32) ==> r is Ok,
        !(forall|j: int| 0 <= j < dtypes@.len() ==> #[trigger] dtypes@[j] == DType::F32) ==> (
            r matches Err(Error::DtypeMismatch { op: o, expected, got }) && o == op && expected == DType::F32
            && exists|k: int| #[trigger] first_non_f32(dtypes@, k) && got == dtypes@[k]),
{
    let mut k: usize = 0;
    while k < dtypes.len()
        invariant
            k <= dtypes@.len(),
            forall|j: int| 0 <= j < k ==> #[trigger] dtypes@[j] == DType::F32,
        decreases dtypes@.len() - k,
    {
        let d = dtypes[k];
        if d != DType::F32 {
            assert(first_non_f32(dtypes@, k as int));
            return Err(Error::DtypeMismatch { op, expected: DType::F32, got: d });
        }
        k = k + 1;
    }
    Ok(())
}

} // verus!
