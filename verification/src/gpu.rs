//! Where tensor data resides.
use vstd::prelude::*;

verus! {

/// Identifies where a tensor's data physically resides.
#[derive(Debug, Clone, Copy, PartialEq, Eq, Structural, Hash)]
pub enum Device {
    /// Host (CPU) memory — always supported.
    Cpu,
    /// GPU device with zero-based ordinal index.
    Gpu(usize),
}

impl Device {
    /// Returns `true` if this device is the CPU.
    pub fn is_cpu(&self) -> (r: bool)
        ensures
            r == (*self is Cpu),
    {
        matches!(self, Device::Cpu)
    }

    /// Returns `true` if this device is any GPU.
    pub fn is_gpu(&self) -> (r: bool)
        ensures
            r == (*self is Gpu),
    {
        matches!(self, Device::Gpu(_))
    }

    /// Returns the GPU ordinal if this is a GPU device, else `None`.
    pub fn gpu_index(&self) -> (r: Option<usize>)
        ensures
            r == (match *self {
                Device::Gpu(idx) => Some(idx),
                Device::Cpu => None,
            }),
    {
        match self {
            Device::Gpu(idx) => Some(*idx),
            Device::Cpu => None,
        }
    }

    /// Convenience constructor for CPU.
    pub fn cpu() -> (r: Self)
        ensures
            r == Device::Cpu,
    {
        Device::Cpu
    }

    /// Convenience constructor for a specific GPU.
    pub fn gpu(idx: usize) -> (r: Self)
        ensures
            r == Device::Gpu(idx),
    {
        Device::Gpu(idx)
    }
}

impl Default for Device {
    /// The default device is the CPU.
    fn default() -> (r: Self)
        ensures
            r == Device::Cpu,
    {
        Device::Cpu
    }
}

} // verus!
