//! The parts that the solver is made of.

pub mod append_only;
pub mod assignment;
pub mod incompatibility;
pub mod partial_solution;
pub mod rooted;
pub mod state;
