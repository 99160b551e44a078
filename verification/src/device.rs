//! Where a tensor's storage lives.
use vstd::prelude::*;
use vstd::string::*;
use crate::text::{decimal, push_decimal};

verus! {

/// Where a tensor's storage lives. `Cpu` always has kernels; `Cuda(i)` is
/// served by whatever backend was registered for that ordinal.
#[derive(Clone, Copy, Debug, PartialEq, Eq, Hash, Structural)]
pub enum Device {
    Cpu,
    Cuda(u32),
}

/// How a device is shown: `cpu` or `cuda:<ordinal>`.
pub open spec fn device_text(d: Device) -> Seq<char> {
    match d {
        Device::Cpu => "cpu"@,
        Device::Cuda(i) => "cuda:"@ + decimal(i as nat),
    }
}

impl Device {
    /// Appends the device's display form to `out`.
    pub fn push_label(&self, out: &mut String)
        ensures
            final(out)@ == old(out)@ + device_text(*self),
    {
        match self {
            Device::Cpu => out.append("cpu"),
            Device::Cuda(i) => {
                out.append("cuda:");
                push_decimal(out, *i as usize);
                assert(out@ =~= old(out)@ + device_text(*self));
            },
        }
    }

    /// The device's display form: `cpu` or `cuda:<ordinal>`.
    pub fn label(&self) -> (s: String)
        ensures
            s@ == device_text(*self),
    {
        let mut s = String::new();
        self.push_label(&mut s);
        assert(s@ =~= device_text(*self));
        s
    }
}

} // verus!
