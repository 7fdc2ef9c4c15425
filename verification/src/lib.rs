//! A compact set of two-dimensional integer points, stored as a single flat
//! bit array: a bijective pairing function maps each signed coordinate pair
//! to one bit position, and set operations become bit operations.

pub mod bitstore;
pub mod pairing;
pub mod points;

pub use pairing::{cantor_pairing, cantor_unpairing, denaturalize, naturalize};
pub use points::PointSet;
