//! Verified core of a 2D smoothed-particle fluid simulation: the neighbour
//! grid, the meaning of the panel's controls, the pointer's decisions, and
//! the spawn lattice.
pub mod controls;
pub mod grid;
pub mod hash_grid;
pub mod pointer;
pub mod spawn;

pub use controls::Action;
