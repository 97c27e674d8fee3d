//! Verified core of a small deep-learning library: devices, errors,
//! the seeded random generator, shape arithmetic, dense matrices and
//! vectors, and the graph ordering used by reverse-mode differentiation.
pub mod autograd;
pub mod error;
pub mod gpu;
pub mod layout;
pub mod math;
pub mod optim;
pub mod rng;
pub mod shape;
pub mod tensor;
pub mod text;

pub use error::Error;
