//! Integer core of a Material Point Method solver: spatial sort permutations,
//! sparse lattice grids with their per-node contributor lists, and the
//! per-node collider distance records, all kept free of floating point.
//! Quantities that need real arithmetic are reduced by the caller to lattice
//! cells and order-preserving integer keys before they reach this crate.

pub mod cell_index;
pub mod distances;
pub mod grid;
pub mod lattice;
pub mod sort;
pub mod state;
pub mod task;
