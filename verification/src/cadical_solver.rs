//! The reference solver CaDiCaL, through the `cadical` crate.
use vstd::prelude::*;
use crate::cnf::{formula_holds, CNFVar, CNF};
use crate::sat_solution::{SATSolution, Valuation};
use crate::sat_solver::Solver;

verus! {

/// A `cadical::Solver` with its default callbacks. Verus cannot declare the
/// crate's type itself (its generic parameter is bound by a trait of the
/// crate), so the library holds it in this opaque struct.
#[verifier::external_body]
pub struct CadicalHandle {
    solver: cadical::Solver,
}

/// The clauses added to a `cadical` solver so far, literals as signed integers.
pub uninterp spec fn cadical_clauses(s: CadicalHandle) -> Seq<Seq<i32>>;

/// What `cadical::Solver::status` reports: the answer of the last `solve`,
/// `None` when there is none or a clause was added since.
pub uninterp spec fn cadical_status(s: CadicalHandle) -> Option<bool>;

/// What `cadical::Solver::value` reports for a literal after a satisfiable answer.
pub uninterp spec fn cadical_value(s: CadicalHandle, lit: i32) -> Option<bool>;

/// A literal in the signed-integer notation holds when its variable (its
/// absolute value) has the value of its sign.
pub open spec fn int_lit_holds(sigma: spec_fn(int) -> bool, lit: i32) -> bool {
    sigma(if lit < 0 { -lit } else { lit as int }) == (lit > 0)
}

/// The assignment makes some literal of the clause true.
pub open spec fn int_clause_holds(sigma: spec_fn(int) -> bool, c: Seq<i32>) -> bool {
    exists|i: int| 0 <= i < c.len() && #[trigger] int_lit_holds(sigma, c[i])
}

/// The assignment makes every clause true.
pub open spec fn int_clauses_hold(sigma: spec_fn(int) -> bool, cs: Seq<Seq<i32>>) -> bool {
    forall|j: int| 0 <= j < cs.len() ==> #[trigger] int_clause_holds(sigma, cs[j])
}

/// The assignment that gives variable `x` the value `val[x - 1]`.
pub open spec fn valuation_assignment(val: Seq<bool>) -> spec_fn(int) -> bool {
    |x: int| if 1 <= x <= val.len() { val[x - 1] } else { false }
}

/// Some assignment of the variables makes every clause true.
pub open spec fn int_clauses_satisfiable(cs: Seq<Seq<i32>>) -> bool {
    exists|sigma: spec_fn(int) -> bool| #[trigger] int_clauses_hold(sigma, cs)
}

/// The model reported by `value` makes every clause true: each clause has a
/// literal whose variable's reported value is the literal's sign.
pub open spec fn cadical_model_holds(s: CadicalHandle) -> bool {
    forall|j: int| #![trigger cadical_clauses(s)[j]] 0 <= j < cadical_clauses(s).len() ==> exists|i: int| 0 <= i < cadical_clauses(s)[j].len()
        && {
            let lit = #[trigger] cadical_clauses(s)[j][i];
            cadical_value(s, if lit < 0 { (-lit) as i32 } else { lit }) == Some(lit > 0)
        }
}

/// A fresh solver (`Default::default`, which is `cadical::Solver::new`).
/// Claimed: it holds no clause.
#[verifier::external_body]
fn cadical_new() -> (s: CadicalHandle)
    ensures
        cadical_clauses(s) == Seq::<Seq<i32>>::empty(),
{
    CadicalHandle { solver: Default::default() }
}

/// `cadical::Solver::add_clause`. Claimed: the clause is appended to the
/// clauses of the solver and the status is reset. The crate asserts (in debug
/// builds) that no literal is 0 or `i32::MIN`.
#[verifier::external_body]
fn cadical_add_clause(s: &mut CadicalHandle, lits: Vec<i32>)
    requires
        forall|i: int| 0 <= i < lits@.len() ==> lits@[i] != 0 && lits@[i] != i32::MIN,
    ensures
        cadical_clauses(*final(s)) == cadical_clauses(*old(s)).push(lits@),
        cadical_status(*final(s)) is None,
{
    s.solver.add_clause(lits.into_iter());
}

/// `cadical::Solver::solve`. Claimed, as the crate documents: `Some(true)`
/// only for a satisfiable clause set, whose model `value` then reports;
/// `Some(false)` only for an unsatisfiable one; `None` when the solver gave
/// up. The clauses are unchanged and the answer becomes the status. Which
/// model is found is not stated.
#[verifier::external_body]
fn cadical_solve(s: &mut CadicalHandle) -> (r: Option<bool>)
    ensures
        cadical_clauses(*final(s)) == cadical_clauses(*old(s)),
        cadical_status(*final(s)) == r,
        r == Some(true) ==> cadical_model_holds(*final(s)),
        r == Some(false) ==> !int_clauses_satisfiable(cadical_clauses(*old(s))),
{
    s.solver.solve()
}

/// `cadical::Solver::value`. Claimed: it reports the named value of the
/// literal. The crate asserts (in debug builds) a satisfiable status and a
/// literal other than 0 and `i32::MIN`.
#[verifier::external_body]
fn cadical_value_of(s: &CadicalHandle, lit: i32) -> (r: Option<bool>)
    requires
        cadical_status(*s) == Some(true),
        lit != 0,
        lit != i32::MIN,
    ensures
        r == cadical_value(*s, lit),
{
    s.solver.value(lit)
}

/// The clause in signed-integer notation.
pub open spec fn int_clause(c: Seq<CNFVar>) -> Seq<i32> {
    c.map_values(|l: CNFVar| l.dimacs_number())
}

/// The formula in signed-integer notation.
pub open spec fn int_formula(f: Seq<Seq<CNFVar>>) -> Seq<Seq<i32>> {
    f.map_values(|c: Seq<CNFVar>| int_clause(c))
}

/// The formula fits the integer notation: a well-formed formula over at most
/// `i32::MAX` variables.
pub open spec fn fits_cadical(formula: CNF) -> bool {
    formula.wf() && formula.num_variables <= i32::MAX
}

/// A valuation that satisfies a formula gives an assignment that satisfies
/// the formula in integer notation.
pub proof fn lemma_valuation_assignment_holds(f: Seq<Seq<CNFVar>>, n: nat, val: Seq<bool>)
    requires
        crate::cnf::formula_in_range(f, n),
        n <= i32::MAX,
        val.len() == n,
        formula_holds(f, val),
    ensures
        int_clauses_hold(valuation_assignment(val), int_formula(f)),
{
    let cs = int_formula(f);
    let sigma = valuation_assignment(val);
    assert forall|j: int| 0 <= j < cs.len() implies #[trigger] int_clause_holds(sigma, cs[j]) by {
        assert(crate::cnf::clause_holds(f[j], val));
        assert(crate::cnf::clause_in_range(f[j], n));
        let i = choose|i: int| 0 <= i < f[j].len() && (#[trigger] f[j][i]).holds_in(val);
        assert(f[j][i].in_range(n));
        assert(cs[j] == int_clause(f[j]));
        assert(cs[j][i] == f[j][i].dimacs_number());
        assert(int_lit_holds(sigma, cs[j][i]));
    }
}

impl CNF {
    /// A `cadical` solver holding the clauses of the formula.
    pub fn to_solver(&self) -> (r: CadicalHandle)
        requires
            fits_cadical(*self),
        ensures
            cadical_clauses(r) == int_formula(self.formula()),
    {
        let ghost f = self.formula();
        let mut sat = cadical_new();
        let mut j: usize = 0;
        while j < self.clauses.len()
            invariant
                j <= self.clauses@.len(),
                f == self.formula(),
                fits_cadical(*self),
                cadical_clauses(sat) == int_formula(f.take(j as int)),
            decreases self.clauses@.len() - j,
        {
            let clause = &self.clauses[j];
            assert(clause.vars@ == f[j as int]);
            let mut lits: Vec<i32> = Vec::with_capacity(clause.vars.len());
            let mut i: usize = 0;
            while i < clause.vars.len()
                invariant
                    i <= clause.vars@.len(),
                    j < f.len(),
                    clause.vars@ == f[j as int],
                    fits_cadical(*self),
                    f == self.formula(),
                    lits@ == int_clause(clause.vars@.take(i as int)),
                    forall|k: int| 0 <= k < i ==> lits@[k] != 0 && lits@[k] != i32::MIN,
                decreases clause.vars@.len() - i,
            {
                assert(f[j as int][i as int].in_range(self.num_variables as nat));
                lits.push(clause.vars[i].to_i32());
                i += 1;
                assert(lits@ =~= int_clause(clause.vars@.take(i as int)));
            }
            assert(clause.vars@.take(i as int) =~= clause.vars@);
            cadical_add_clause(&mut sat, lits);
            assert(f.take(j + 1) =~= f.take(j as int).push(f[j as int]));
            j += 1;
            assert(cadical_clauses(sat) =~= int_formula(f.take(j as int)));
        }
        assert(f.take(j as int) =~= f);
        sat
    }
}

/// The reference solver CaDiCaL.
pub struct CadicalSolver;

/// The valuation read from the solver's model: variable `v` gets its
/// reported value, `false` when the solver reports none.
pub open spec fn model_valuation(s: CadicalHandle, n: nat) -> Seq<bool> {
    Seq::new(n, |i: int| match cadical_value(s, (i + 1) as i32) { Some(b) => b, None => false })
}

impl CadicalSolver {
    /// Solves with CaDiCaL. The answer is the one of the `cadical` crate: a
    /// satisfiable answer carries a valuation that satisfies the formula, an
    /// unsatisfiable one is given only for an unsatisfiable formula, and
    /// `Unknown` when the crate gave up.
    pub fn solve_formula(formula: &CNF) -> (r: SATSolution)
        requires
            fits_cadical(*formula),
        ensures
            match r {
                SATSolution::Satisfiable(v) => v@.len() == formula.num_variables
                    && formula.satisfied_by(v@),
                SATSolution::Unsatisfiable => !formula.satisfiable(),
                SATSolution::Unknown => true,
            },
    {
        let ghost f = formula.formula();
        let n = formula.num_variables;
        let mut solver = formula.to_solver();
        let ghost cs = cadical_clauses(solver);
        match cadical_solve(&mut solver) {
            None => SATSolution::Unknown,
            Some(false) => {
                proof {
                    if formula.satisfiable() {
                        let val = choose|val: Seq<bool>| val.len() == n && #[trigger] formula_holds(f, val);
                        lemma_valuation_assignment_holds(f, n as nat, val);
                        assert(int_clauses_hold(valuation_assignment(val), cs));
                        assert(int_clauses_satisfiable(cs));
                    }
                }
                SATSolution::Unsatisfiable
            },
            Some(true) => {
                let mut valuation: Valuation = Vec::with_capacity(n);
                let mut v: usize = 1;
                while v <= n
                    invariant
                        1 <= v <= n + 1,
                        n <= i32::MAX,
                        cadical_status(solver) == Some(true),
                        valuation@ == model_valuation(solver, n as nat).take(v - 1),
                    decreases n + 1 - v,
                {
                    let value = match cadical_value_of(&solver, v as i32) {
                        Some(b) => b,
                        None => false,
                    };
                    valuation.push(value);
                    v += 1;
                    assert(valuation@ =~= model_valuation(solver, n as nat).take(v - 1));
                }
                assert(valuation@ =~= model_valuation(solver, n as nat));
                proof {
                    assert forall|j: int| 0 <= j < f.len()
                        implies #[trigger] crate::cnf::clause_holds(f[j], valuation@) by {
                        assert(cadical_clauses(solver)[j] == cs[j]);
                        assert(crate::cnf::clause_in_range(f[j], n as nat));
                        let i = choose|i: int| 0 <= i < cs[j].len() && {
                            let lit = #[trigger] cs[j][i];
                            cadical_value(solver, if lit < 0 { (-lit) as i32 } else { lit }) == Some(lit > 0)
                        };
                        assert(cs[j][i] == f[j][i].dimacs_number());
                        assert(f[j][i].in_range(n as nat));
                        assert(f[j][i].holds_in(valuation@));
                    }
                }
                SATSolution::Satisfiable(valuation)
            },
        }
    }
}

impl Solver for CadicalSolver {
    /// Its satisfiable answers are proved to be models.
    open spec fn models_proved(&self) -> bool {
        true
    }

    /// Its unsatisfiable answers are proved right.
    open spec fn refutations_proved(&self) -> bool {
        true
    }

    fn solve(&self, formula: &CNF) -> (r: SATSolution)
        ensures
            match r {
                SATSolution::Satisfiable(v) => v@.len() == formula.num_variables
                    && formula.satisfied_by(v@),
                SATSolution::Unsatisfiable => !formula.satisfiable(),
                SATSolution::Unknown => true,
            },
    {
        CadicalSolver::solve_formula(formula)
    }
}

} // verus!
