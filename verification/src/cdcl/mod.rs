//! A CDCL solver with watched literals, clause learning, clause deletion,
//! restarts and preprocessing, each exchangeable.
pub mod collections;
pub mod clause;
pub mod variable;
pub mod update;
pub mod restart_policies;
pub mod branching_strategies;
pub mod learning_schemes;
pub mod deletion_strategies;
pub mod satisfaction;
pub mod preprocessors;

pub use satisfaction::CDCLSolver;
