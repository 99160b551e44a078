//! Element types of tensor storage.
use vstd::prelude::*;

verus! {

/// Element type of a tensor's storage. Float math and autograd run on `F32`
/// only; `F64` and `I64` storage carries data (indices, targets) and enters
/// compute through an explicit cast.
#[derive(Clone, Copy, Debug, PartialEq, Eq, Structural)]
pub enum DType {
    F32,
    F64,
    I64,
}

/// The lower-case name under which a dtype is shown.
pub open spec fn dtype_name(d: DType) -> Seq<char> {
    match d {
        DType::F32 => seq!['f', '3', '2'],
        DType::F64 => seq!['f', '6', '4'],
        DType::I64 => seq!['i', '6', '4'],
    }
}

impl DType {
    /// The dtype's display name: `f32`, `f64` or `i64`.
    pub fn name(&self) -> (s: &'static str)
        ensures
            s@ == dtype_name(*self),
    {
        match self {
            DType::F32 => {
                proof { reveal_strlit("f32"); }
                "f32"
            },
            DType::F64 => {
                proof { reveal_strlit("f64"); }
                "f64"
            },
            DType::I64 => {
                proof { reveal_strlit("i64"); }
                "i64"
            },
        }
    }
}

} // verus!
