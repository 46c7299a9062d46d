//! Which engine answers a query.

use vstd::prelude::*;

verus! {

/// An engine.
#[derive(Clone, Copy, Debug, PartialEq, Eq, Structural)]
pub enum Engine {
    Cpu,
    Gpu,
}

impl Engine {
    /// The cheaper engine; the CPU where the two cost the same.
    pub fn cheaper(gpu_is_cheaper: bool) -> (r: Self)
        ensures
            r == (if gpu_is_cheaper {
                Engine::Gpu
            } else {
                Engine::Cpu
            }),
    {
        if gpu_is_cheaper {
            Engine::Gpu
        } else {
            Engine::Cpu
        }
    }
}

} // verus!
