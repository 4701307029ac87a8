//! Where a tensor's data lives.
use vstd::prelude::*;

verus! {

/// Where a tensor's data physically lives: host memory, or the GPU whose
/// context the runtime holds.
#[derive(Clone, Copy, Debug)]
pub enum Device {
    Cpu,
    Gpu,
}

impl Device {
    pub fn cpu() -> (d: Device)
        ensures
            d is Cpu,
    {
        Device::Cpu
    }

    pub fn gpu() -> (d: Device)
        ensures
            d is Gpu,
    {
        Device::Gpu
    }

    pub fn is_cpu(&self) -> (b: bool)
        ensures
            b == (*self is Cpu),
    {
        match self {
            Device::Cpu => true,
            Device::Gpu => false,
        }
    }

    pub fn is_gpu(&self) -> (b: bool)
        ensures
            b == (*self is Gpu),
    {
        match self {
            Device::Cpu => false,
            Device::Gpu => true,
        }
    }
}

/// Two devices compare equal only when both are the CPU: GPU contexts are not
/// comparable, so a GPU device equals no device, itself included.
impl PartialEq for Device {
    fn eq(&self, other: &Self) -> (r: bool) {
        match (self, other) {
            (Device::Cpu, Device::Cpu) => true,
            _ => false,
        }
    }
}

impl vstd::std_specs::cmp::PartialEqSpecImpl for Device {
    open spec fn obeys_eq_spec() -> bool {
        true
    }

    open spec fn eq_spec(&self, other: &Device) -> bool {
        same_device(*self, *other)
    }
}

/// What `==` on devices means: both are the CPU.
pub open spec fn same_device(a: Device, b: Device) -> bool {
    a is Cpu && b is Cpu
}

/// Device equality is symmetric, holds between two CPU devices, and never
/// holds when either side is a GPU.
pub proof fn lemma_device_eq(a: Device, b: Device)
    ensures
        same_device(a, b) == same_device(b, a),
        (a is Cpu && b is Cpu) ==> same_device(a, b),
        (a is Gpu || b is Gpu) ==> !same_device(a, b),
{
}

} // verus!
