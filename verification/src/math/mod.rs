//! Dense matrices and vectors without gradient tracking.
//!
//! The containers are generic over the element type: everything here is
//! about where elements live and how shapes combine.
pub mod matrix;
pub mod vector;

pub use matrix::Matrix;
pub use vector::Vector;
