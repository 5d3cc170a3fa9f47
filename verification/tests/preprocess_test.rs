use solver::cdcl::preprocessors::{
    ListPreprocessor, NiVER, NoPreprocessing, Preprocessor, PreprocessorFactory, PreprocessorKind, RemoveTautology,
    SelfSubsumption,
};
use solver::{Bruteforce, CNFClause, CNFVar, SATSolution, Solver, CNF};

fn lit(n: i32) -> CNFVar {
    CNFVar::new(n.unsigned_abs() as usize, n > 0)
}

fn formula(n: usize, clauses: &[&[i32]]) -> CNF {
    CNF {
        clauses: clauses.iter().map(|c| CNFClause { vars: c.iter().map(|l| lit(*l)).collect() }).collect(),
        num_variables: n,
    }
}

fn satisfies(f: &CNF, v: &[bool]) -> bool {
    f.clauses.iter().all(|c| c.vars.iter().any(|l| v[l.id - 1] == l.sign))
}

fn all_valuations(n: usize) -> Vec<Vec<bool>> {
    (0..(1u32 << n)).map(|bits| (0..n).map(|i| bits & (1 << i) != 0).collect()).collect()
}

#[test]
fn remove_tautology_drops_tautologies_only() {
    let f = formula(3, &[&[1, -1, 2], &[2, 3], &[-3, 3], &[-2]]);
    let mut p = RemoveTautology::new().new();
    let g = p.preprocess(f.clone());
    assert_eq!(g.num_variables, 3);
    assert_eq!(g.clauses.len(), 2);
    assert_eq!(g.clauses[0].vars, vec![lit(2), lit(3)]);
    assert_eq!(g.clauses[1].vars, vec![lit(-2)]);
    // the same valuations satisfy both
    for v in all_valuations(3) {
        assert_eq!(satisfies(&f, &v), satisfies(&g, &v));
    }
    assert_eq!(p.restore(SATSolution::Unknown), SATSolution::Unknown);
}

#[test]
fn no_preprocessing_changes_nothing() {
    let f = formula(2, &[&[1, 2]]);
    let mut p = NoPreprocessing.new();
    let g = p.preprocess(f.clone());
    assert_eq!(g.clauses, f.clauses);
    assert_eq!(p.restore(SATSolution::Satisfiable(vec![true, false])), SATSolution::Satisfiable(vec![true, false]));
}

#[test]
fn niver_eliminates_a_variable_and_restores_it() {
    // x1 occurs in (x1 ∨ x2) and (¬x1 ∨ x3): one resolvent (x2 ∨ x3) replaces two clauses
    let f = formula(3, &[&[1, 2], &[-1, 3], &[-2, -3]]);
    let mut niver = NiVER::new();
    let g = niver.preprocess(f.clone());
    assert_eq!(g.num_variables, 3);
    assert!(g.clauses.len() < f.clauses.len());
    for v in all_valuations(3) {
        if satisfies(&f, &v) {
            assert!(satisfies(&g, &v));
        }
    }
    let answer = Bruteforce::Bruteforce.solve(&g);
    match niver.restore(answer) {
        SATSolution::Satisfiable(v) => assert!(satisfies(&f, &v)),
        other => panic!("unexpected {:?}", other),
    }
}

#[test]
fn niver_restore_keeps_other_answers() {
    let mut niver = NiVER::new();
    let _ = niver.preprocess(formula(2, &[&[1, 2], &[-1, 2]]));
    assert_eq!(niver.restore(SATSolution::Unknown), SATSolution::Unknown);
}

#[test]
fn niver_on_a_tautological_clause() {
    // (x1 ∨ ¬x2), (¬x1 ∨ x2), (¬x2), (x2 ∨ x1 ∨ ¬x2) is satisfied by x1 = x2 = false,
    // but resolving the tautology (x2 ∨ x1 ∨ ¬x2) on x2 yields the clause (x1)
    let f = formula(2, &[&[1, -2, -2], &[-1, 2], &[-2], &[2, 1, -2]]);
    assert!(satisfies(&f, &[false, false]));
    let mut niver = NiVER::new();
    let g = niver.preprocess(f);
    assert_eq!(Bruteforce::Bruteforce.solve(&g), SATSolution::Unsatisfiable);
}

#[test]
fn self_subsumption_keeps_models() {
    // (x1 ∨ x2 ∨ x3) and (¬x1 ∨ x2): the second shows x2 within x2 ∨ x3
    let f = formula(3, &[&[1, 2, 3], &[-1, 2], &[-2, -3]]);
    let mut p = SelfSubsumption.new();
    let g = p.preprocess(f.clone());
    assert_eq!(g.num_variables, 3);
    for v in all_valuations(3) {
        assert_eq!(satisfies(&f, &v), satisfies(&g, &v));
    }
}

#[test]
fn list_preprocessor_runs_all_passes() {
    let f = formula(3, &[&[1, -1], &[1, 2], &[-1, 3], &[-2, -3]]);
    let mut p = ListPreprocessor(vec![PreprocessorKind::RemoveTautology, PreprocessorKind::NiVER]).new();
    let g = p.preprocess(f.clone());
    assert!(g.clauses.len() < f.clauses.len());
    let answer = Bruteforce::Bruteforce.solve(&g);
    match p.restore(answer) {
        SATSolution::Satisfiable(v) => assert!(satisfies(&f, &v)),
        other => panic!("unexpected {:?}", other),
    }
}

#[test]
fn self_subsumption_strengthens_a_clause() {
    // on x1: x2 ∨ x3 replaces x1 ∨ x2 ∨ x3 (the signature of x2 lies within it);
    // on x2 and x3 no pair applies
    let f = formula(3, &[&[1, 2, 3], &[-1, 2], &[-2, -3]]);
    let mut p = SelfSubsumption.new();
    let g = p.preprocess(f);
    assert_eq!(g.clauses, formula(3, &[&[-1, 2], &[-2, -3], &[2, 3]]).clauses);
}

#[test]
fn niver_keeps_uneliminated_values_and_passes_other_answers() {
    let f = formula(3, &[&[1, 2], &[-1, 3], &[-2, -3]]);
    let mut niver = NiVER::new();
    let g = niver.preprocess(f.clone());
    assert!(g.clauses.len() <= f.clauses.len());
    let answer = Bruteforce::Bruteforce.solve(&g);
    let v = match &answer {
        SATSolution::Satisfiable(v) => v.clone(),
        other => panic!("unexpected {:?}", other),
    };
    match niver.restore(answer) {
        SATSolution::Satisfiable(w) => {
            assert_eq!(w.len(), v.len());
            assert!(satisfies(&f, &w));
            // only x1 was eliminated
            assert_eq!(w[1..], v[1..]);
        }
        other => panic!("unexpected {:?}", other),
    }
    assert_eq!(niver.restore(SATSolution::Unsatisfiable), SATSolution::Unsatisfiable);
    assert_eq!(niver.restore(SATSolution::Unknown), SATSolution::Unknown);
}
