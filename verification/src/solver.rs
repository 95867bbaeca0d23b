//! Solver engines and their shared result type.

pub mod map;
pub mod ring;
pub mod unknown;
pub mod sat;
pub mod smt;
pub mod solver;

pub use map::{EntityMap, EntityMapError};
pub use solver::{get_solver, Solver, SolverError, SolverImpl, SolverOutput};
