//! What every solver offers, and the check of a valuation against a formula.
use vstd::prelude::*;
use crate::cnf::{clause_holds, formula_holds, formula_in_range, CNFVar, CNF};
use crate::sat_solution::SATSolution;

verus! {

/// A SAT solver. It receives a formula whose variable identifiers all lie in
/// `1..=num_variables`, with at most `i32::MAX` variables (the literal numbers
/// of the DIMACS notation), and answers with a [`SATSolution`]; a satisfying
/// valuation holds one value per variable, variable 1 first.
pub trait Solver {
    /// Whether the satisfiable answers of this solver are proved to be
    /// models (see `solve`); not, unless the solver says so.
    open spec fn models_proved(&self) -> bool {
        false
    }

    /// Whether the unsatisfiable answers of this solver are proved to come
    /// only for formulas without a model (see `solve`); not, unless the
    /// solver says so.
    open spec fn refutations_proved(&self) -> bool {
        false
    }

    /// Answers for the formula. A satisfying valuation holds one value per
    /// variable; on a formula without an empty clause, it satisfies the
    /// formula where the models are proved, and an unsatisfiable answer comes
    /// only for a formula without a model where the refutations are proved.
    fn solve(&self, formula: &CNF) -> (r: SATSolution)
        requires
            formula.wf(),
            formula.num_variables <= i32::MAX,
        ensures
            r matches SATSolution::Satisfiable(v) ==> v@.len() == formula.num_variables,
            self.models_proved() && no_empty_clause(*formula)
                ==> (r matches SATSolution::Satisfiable(v) ==> formula.satisfied_by(v@)),
            self.refutations_proved() && no_empty_clause(*formula)
                ==> (r is Unsatisfiable ==> !formula.satisfiable()),
    ;
}

/// No clause of the formula is empty.
pub open spec fn no_empty_clause(formula: CNF) -> bool {
    forall|j: int| 0 <= j < formula.clauses@.len() ==> (#[trigger] formula.clauses@[j]).vars@.len() > 0
}

/// A sound answer: a satisfiable answer holds one value per variable and
/// satisfies the formula, and an unsatisfiable answer is given only for a
/// formula that no valuation satisfies.
pub open spec fn sound_answer(formula: CNF, r: SATSolution) -> bool {
    match r {
        SATSolution::Satisfiable(v) => v@.len() == formula.num_variables && formula.satisfied_by(v@),
        SATSolution::Unsatisfiable => !formula.satisfiable(),
        SATSolution::Unknown => true,
    }
}

/// Every non-empty clause of the formula is true under `val`.
pub open spec fn nonempty_clauses_hold_in(f: Seq<Seq<CNFVar>>, val: Seq<bool>) -> bool {
    forall|j: int| 0 <= j < f.len() && #[trigger] f[j].len() > 0 ==> clause_holds(f[j], val)
}

/// Whether `val` makes every non-empty clause of the formula true.
pub fn nonempty_clauses_hold(formula: &CNF, val: &Vec<bool>) -> (r: bool)
    requires
        formula_in_range(formula.formula(), val@.len()),
    ensures
        r == nonempty_clauses_hold_in(formula.formula(), val@),
{
    let ghost f = formula.formula();
    let mut j: usize = 0;
    while j < formula.clauses.len()
        invariant
            j <= formula.clauses@.len(),
            f == formula.formula(),
            formula_in_range(f, val@.len()),
            forall|k: int| 0 <= k < j && #[trigger] f[k].len() > 0 ==> clause_holds(f[k], val@),
        decreases formula.clauses@.len() - j,
    {
        let vars = &formula.clauses[j].vars;
        assert(vars@ == f[j as int]);
        if vars.len() > 0 {
            let mut i: usize = 0;
            let mut found = false;
            while i < vars.len() && !found
                invariant
                    i <= vars@.len(),
                    vars@ == f[j as int],
                    j < f.len(),
                    formula_in_range(f, val@.len()),
                    found ==> clause_holds(f[j as int], val@),
                    !found ==> forall|k: int| 0 <= k < i ==> !(#[trigger] vars@[k]).holds_in(val@),
                decreases vars@.len() - i,
            {
                let l = vars[i];
                assert(f[j as int][i as int].in_range(val@.len()));
                if val[l.id - 1] == l.sign {
                    found = true;
                    assert(vars@[i as int].holds_in(val@));
                }
                i += 1;
            }
            if !found {
                assert(!clause_holds(f[j as int], val@));
                return false;
            }
        }
        j += 1;
    }
    true
}

/// Whether `val` makes every clause of the formula true.
pub fn check_valuation(formula: &CNF, val: &Vec<bool>) -> (r: bool)
    requires
        formula_in_range(formula.formula(), val@.len()),
    ensures
        r == formula.satisfied_by(val@),
{
    let ghost f = formula.formula();
    let mut j: usize = 0;
    while j < formula.clauses.len()
        invariant
            j <= formula.clauses@.len(),
            f == formula.formula(),
            formula_in_range(f, val@.len()),
            forall|k: int| 0 <= k < j ==> clause_holds(#[trigger] f[k], val@),
        decreases formula.clauses@.len() - j,
    {
        let clause = &formula.clauses[j];
        assert(clause.vars@ == f[j as int]);
        let mut found = false;
        let mut i: usize = 0;
        while i < clause.vars.len()
            invariant
                i <= clause.vars@.len(),
                clause.vars@ == f[j as int],
                j < f.len(),
                formula_in_range(f, val@.len()),
                found == exists|k: int| 0 <= k < i && (#[trigger] clause.vars@[k]).holds_in(val@),
            decreases clause.vars@.len() - i,
        {
            let var = clause.vars[i];
            assert(f[j as int][i as int] == var);
            if var.sign == val[var.id - 1] {
                found = true;
            }
            i += 1;
        }
        if !found {
            assert(!clause_holds(f[j as int], val@));
            return false;
        }
        j += 1;
    }
    true
}

/// A formula of one unit clause per variable, variable `i + 1` with the sign
/// `signs[i]`, has `signs` as its only model: a sound answer for it that is
/// not `Unknown` is `Satisfiable(signs)`.
pub proof fn lemma_unit_clauses_answer(formula: CNF, signs: Seq<bool>, r: SATSolution)
    requires
        formula.num_variables == signs.len(),
        formula.clauses@.len() == signs.len(),
        forall|i: int| 0 <= i < signs.len() ==> (#[trigger] formula.clauses@[i]).vars@
            == seq![CNFVar { id: (i + 1) as usize, sign: signs[i] }],
        sound_answer(formula, r),
        !(r is Unknown),
    ensures
        r matches SATSolution::Satisfiable(v) && v@ == signs,
{
    let f = formula.formula();
    assert forall|j: int| 0 <= j < f.len() implies #[trigger] clause_holds(f[j], signs) by {
        assert(f[j] == formula.clauses@[j].vars@);
        assert(f[j][0] == CNFVar { id: (j + 1) as usize, sign: signs[j] });
        assert(f[j][0].holds_in(signs));
    }
    assert(formula_holds(f, signs));
    assert(formula.satisfiable());
    if let SATSolution::Satisfiable(v) = r {
        assert forall|i: int| 0 <= i < signs.len() implies v@[i] == signs[i] by {
            assert(clause_holds(f[i], v@));
            assert(f[i] == formula.clauses@[i].vars@);
            let k = choose|k: int| 0 <= k < f[i].len() && (#[trigger] f[i][k]).holds_in(v@);
            assert(k == 0);
        }
        assert(v@ =~= signs);
    }
}

} // verus!
