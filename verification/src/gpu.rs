//! The state of the GPU back end: a loaded driver context and its kernels.
//! Loading it goes through the CUDA driver, outside this library; the
//! library keeps the state and answers whether it can be used.

use vstd::prelude::*;

verus! {

/// A loaded context: whether it is usable, and the driver's handles of the
/// module and of its two kernels.
pub struct GpuContext {
    pub available: bool,
    pub module: u64,
    pub function_resonance: u64,
    pub function_entropy: u64,
}

/// Whether a context is loaded and usable.
pub fn is_gpu_available(gpu: &Option<GpuContext>) -> (r: bool)
    ensures
        r == (gpu matches Some(g) && g.available),
{
    match gpu {
        Some(g) => g.available,
        None => false,
    }
}

} // verus!
