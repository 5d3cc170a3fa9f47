//! Wrappers around solvers: one that hands the formula to its inner solver
//! (and, around it, lets the time be measured), one bounded in time, and one
//! that runs an external program.
use vstd::prelude::*;
use std::path::PathBuf;
use std::time::Duration;
use crate::cnf::CNF;
use crate::sat_solution::SATSolution;
use crate::sat_solver::Solver;

verus! {

/// A path of the file system.
#[verifier::external_type_specification]
#[verifier::external_body]
pub struct ExPathBuf(PathBuf);

/// A solver whose answers come from the wrapped solver; timing the call is
/// left to the caller.
pub struct TimedSolver<S> {
    solver: S,
}

impl<S> TimedSolver<S> {
    /// Wraps a solver.
    pub fn new(solver: S) -> (r: Self)
        ensures
            r.inner() == solver,
    {
        TimedSolver { solver }
    }

    /// The wrapped solver.
    pub closed spec fn inner(&self) -> S {
        self.solver
    }

    /// The wrapped solver.
    pub fn solver(&self) -> (r: &S)
        ensures
            *r == self.inner(),
    {
        &self.solver
    }
}

impl<S: Solver> Solver for TimedSolver<S> {
    /// Its models are proved where those of the wrapped solver are.
    open spec fn models_proved(&self) -> bool {
        self.inner().models_proved()
    }

    /// Its refutations are proved where those of the wrapped solver are.
    open spec fn refutations_proved(&self) -> bool {
        self.inner().refutations_proved()
    }

    /// The answer of the wrapped solver.
    fn solve(&self, formula: &CNF) -> SATSolution {
        self.solver.solve(formula)
    }
}

/// A solver that gives its inner solver at most `max_duration` and answers
/// `Unknown` when the time runs out; running it needs an executor, which the
/// application provides.
pub struct TimeLimitedSolver<S> {
    max_duration: Duration,
    solver: S,
}

impl<S> TimeLimitedSolver<S> {
    /// Wraps a solver with a time limit.
    pub fn new(solver: S, max_duration: Duration) -> (r: TimeLimitedSolver<S>)
        ensures
            r.inner() == solver,
            r.limit() == max_duration,
    {
        TimeLimitedSolver { solver, max_duration }
    }

    /// The wrapped solver.
    pub closed spec fn inner(&self) -> S {
        self.solver
    }

    /// The time limit.
    pub closed spec fn limit(&self) -> Duration {
        self.max_duration
    }

    /// The wrapped solver.
    pub fn solver(&self) -> (r: &S)
        ensures
            *r == self.inner(),
    {
        &self.solver
    }

    /// The time limit.
    pub fn max_duration(&self) -> (r: &Duration)
        ensures
            *r == self.limit(),
    {
        &self.max_duration
    }
}

/// A solver that runs an external program on the formula in DIMACS format.
pub struct ExternalSolver {
    program: PathBuf,
}

impl ExternalSolver {
    pub fn new(program_name: PathBuf) -> (r: ExternalSolver)
        ensures
            r.program_path() == program_name,
    {
        ExternalSolver { program: program_name }
    }

    /// The program to run.
    pub closed spec fn program_path(&self) -> PathBuf {
        self.program
    }

    /// The program to run.
    pub fn program(&self) -> (r: &PathBuf)
        ensures
            *r == self.program_path(),
    {
        &self.program
    }
}

} // verus!
