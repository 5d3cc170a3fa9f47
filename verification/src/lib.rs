//! A SAT-solving library: CNF formulas, a brute-force solver, a DPLL solver
//! with branching heuristics, a CDCL solver with its strategies, and
//! preprocessing passes.
use vstd::prelude::*;

pub mod text;
pub mod cnf;
pub mod literals;
pub mod dimacs_input;
pub mod sat_solution;
pub mod assignment;
pub mod sat_solver;
pub mod bruteforce;
pub mod cadical_solver;
pub mod dpll;
pub mod dpll_state;
pub mod branching_strategy;
pub mod deletion_strategy;
pub mod cdcl;
pub mod solvers;

pub use cnf::{CNFClause, CNFVar, CNF};
pub use sat_solution::{SATSolution, Valuation};
pub use sat_solver::Solver;
pub use bruteforce::Bruteforce;
pub use cadical_solver::CadicalSolver;

verus! {
} // verus!
