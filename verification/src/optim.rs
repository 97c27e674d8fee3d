//! The common interface of the optimizers.
use vstd::prelude::*;

verus! {

/// Common interface for all optimizers.
pub trait Optimizer {
    /// Updates all parameters using their accumulated gradients.
    ///
    /// Call after `backward()`.
    fn step(&mut self);

    /// Zeroes the gradient of all managed parameters.
    ///
    /// Call at the start of each training step (before `forward`).
    fn zero_grad(&mut self);
}

} // verus!
