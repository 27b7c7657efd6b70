//! The pilot harness adapters: for each algorithm family, a seeded trial
//! loop that draws inputs, runs the reference implementation and records
//! each oracle check in an `OracleState`.

pub mod trials;
pub mod families;
pub mod registry;
pub mod adapters;
