use solver::cdcl::branching_strategies::VSIDS;
use solver::cdcl::deletion_strategies::BerkMin;
use solver::cdcl::learning_schemes::RelSAT;
use solver::cdcl::preprocessors::NoPreprocessing;
use solver::cdcl::restart_policies::{RestartFixed, RestartGeom, RestartLuby, RestartNever};
use solver::cdcl::CDCLSolver;
use solver::branching_strategy::{NaiveBranching, DLCS, DLIS, MOM};
use solver::dpll::SatisfactionSolver;
use solver::{CNFClause, CNFVar, CadicalSolver, SATSolution, Solver, CNF};

fn setup_custom_solver() -> Vec<(&'static str, Box<dyn Solver>)> {
    let mut solvers: Vec<(&'static str, Box<dyn Solver>)> = Vec::new();
    solvers.push(("CDCL-Never", Box::new(CDCLSolver::new(VSIDS, RelSAT, BerkMin::default(), RestartNever, NoPreprocessing))));
    solvers.push(("CDCL-Fixed", Box::new(CDCLSolver::new(VSIDS, RelSAT, BerkMin::default(), RestartFixed::default(), NoPreprocessing))));
    solvers.push(("CDCL-Geom", Box::new(CDCLSolver::new(VSIDS, RelSAT, BerkMin::default(), RestartGeom::default(), NoPreprocessing))));
    solvers.push(("CDCL-Luby", Box::new(CDCLSolver::new(VSIDS, RelSAT, BerkMin::default(), RestartLuby::default(), NoPreprocessing))));

    solvers.push(("NaiveBranching", Box::new(SatisfactionSolver::new(NaiveBranching))));
    solvers.push(("DLIS", Box::new(SatisfactionSolver::new(DLIS))));
    solvers.push(("DLCS", Box::new(SatisfactionSolver::new(DLCS))));
    solvers.push(("MOM", Box::new(SatisfactionSolver::new(MOM))));
    solvers
}

fn is_satisfied(formula: &CNF, assignment: &[bool]) -> bool {
    formula.clauses.iter().all(|clause| {
        clause.vars.iter().any(|var| !(assignment[var.id - 1] ^ var.sign))
    })
}

fn solve_custom_solvers(formula: &CNF, solvers: Vec<(&'static str, Box<dyn Solver>)>) -> SATSolution {
    let mut solutions: Vec<SATSolution> = solvers
        .iter()
        .map(|(name, solver)| {
            let solution = solver.solve(formula);
            if let SATSolution::Satisfiable(assignment) = &solution {
                assert!(is_satisfied(formula, assignment), "{}", name);
            }
            solution
        })
        .collect();
    let first = solutions[0].is_sat();
    for (solution, (name, _)) in solutions.iter().zip(solvers.iter()).skip(1) {
        assert_eq!(solution.is_sat(), first, "Branching strategy {} differs in satisfiability", name);
    }
    solutions.pop().unwrap()
}

fn execute_solvers(formula: &CNF) -> (SATSolution, SATSolution) {
    let testing_solution = solve_custom_solvers(formula, setup_custom_solver());
    let reference_solution = CadicalSolver.solve(formula);
    (testing_solution, reference_solution)
}

#[test]
fn failed_proptest_instance() {
    let formula = CNF::from_dimacs("\np cnf 3 1\n2 -1 3\n").unwrap();
    let (custom, reference) = execute_solvers(&formula);

    assert_eq!(custom.is_sat(), reference.is_sat());
}

#[test]
fn only_positive_unit_clauses_instance() {
    let num_variables = 7;
    let clauses = (1..=num_variables).map(|v| CNFClause::single(CNFVar { id: v, sign: true })).collect::<Vec<_>>();
    let (custom, reference) = execute_solvers(&CNF { clauses, num_variables });
    assert_eq!(custom, reference);
    assert_eq!(custom, SATSolution::Satisfiable(vec![true; 7]));
}

#[test]
fn only_negative_unit_clauses_instance() {
    let num_variables = 5;
    let clauses = (1..=num_variables).map(|v| CNFClause::single(CNFVar { id: v, sign: false })).collect::<Vec<_>>();
    let (custom, reference) = execute_solvers(&CNF { clauses, num_variables });
    assert_eq!(custom, reference);
    assert_eq!(custom, SATSolution::Satisfiable(vec![false; 5]));
}

#[test]
fn only_unit_clauses_instance() {
    let signs = [true, false, false, true, true, false];
    let clauses = signs
        .iter()
        .enumerate()
        .map(|(id, sign)| CNFClause::single(CNFVar { id: id + 1, sign: *sign }))
        .collect::<Vec<_>>();
    let (custom, reference) = execute_solvers(&CNF { clauses, num_variables: signs.len() });
    assert_eq!(custom, reference);
}

#[test]
fn arbitrary_cnf_formula_instance() {
    let raw: Vec<Vec<(usize, bool)>> = vec![
        vec![(1, true), (2, false), (3, true)],
        vec![(2, true), (4, true)],
        vec![(1, false), (4, false)],
        vec![(3, false), (5, true), (2, false)],
        vec![(5, false), (1, true)],
        vec![(4, true), (3, true)],
    ];
    let clauses = raw
        .iter()
        .map(|c| CNFClause { vars: c.iter().map(|(id, sign)| CNFVar { id: *id, sign: *sign }).collect() })
        .collect::<Vec<_>>();
    let formula = CNF { clauses, num_variables: 5 };
    let (custom, reference) = execute_solvers(&formula);
    assert_eq!(custom.is_unsat(), reference.is_unsat());
    assert_eq!(custom.is_unknown(), reference.is_unknown());
    if let SATSolution::Satisfiable(assignment) = custom {
        assert!(is_satisfied(&formula, &assignment));
    }
}

#[test]
fn unsatisfiable_formula_instance() {
    // all four clauses over two variables
    let formula = CNF::from_dimacs("p cnf 2 4\n1 2 0\n-1 2 0\n1 -2 0\n-1 -2 0\n").unwrap();
    let (custom, reference) = execute_solvers(&formula);
    assert!(custom.is_unsat());
    assert!(reference.is_unsat());
}
