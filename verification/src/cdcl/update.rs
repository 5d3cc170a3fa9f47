//! Hooks by which the CDCL search tells its strategies what happened.
use vstd::prelude::*;
use crate::cdcl::clause::{Clause, ClauseId, Clauses};
use crate::cdcl::variable::{VariableId, Variables};
use crate::cnf::CNFVar;

verus! {

/// Notifications of the CDCL search; each does nothing unless a strategy
/// overrides it.
pub trait Update {
    /// A variable was assigned.
    fn on_assign(&mut self, variable: VariableId, clauses: &Clauses, variables: &Variables) {
    }

    /// The variable of the literal, which held that value, became unassigned.
    fn on_unassign(&mut self, literal: CNFVar, clauses: &Clauses, variables: &Variables) {
    }

    /// A clause was learned at this index.
    fn on_learn(&mut self, learned_clause: ClauseId, clauses: &Clauses, variables: &Variables) {
    }

    /// The clause at this index became empty under the assignment.
    fn on_conflict(&mut self, empty_clause: ClauseId, clauses: &Clauses, variables: &Variables) {
    }

    /// A clause was deleted.
    fn on_deletion(&mut self, deleted_clause: &Clause) {
    }
}

} // verus!
