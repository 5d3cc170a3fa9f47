use solver::branching_strategy::{count_number_of_clauses, BranchingStrategy, NaiveBranching, DLCS, DLIS, MOM};
use solver::bruteforce::guess;
use solver::cdcl::branching_strategies::{BranchingStrategy as CdclBranching, BranchingStrategyFactory, Naive, VSIDS};
use solver::cdcl::clause::{Clause, Clauses};
use solver::cdcl::deletion_strategies::{BerkMin, ClauseDeletionStrategy, ClauseDeletionStrategyFactory, NoDeletion};
use solver::cdcl::learning_schemes::{LearningScheme, RelSAT};
use solver::cdcl::preprocessors::{NoPreprocessing, PreprocessorKind, ListPreprocessor};
use solver::cdcl::restart_policies::{
    RestartFixed, RestartGeom, RestartLuby, RestartNever, RestartPolicy, RestartPolicyFactory,
};
use solver::cdcl::satisfaction::ExecutionState;
use solver::cdcl::update::Update;
use solver::cdcl::variable::{Assignment as VarAssignment, AssignmentType, Variable};
use solver::cdcl::CDCLSolver;
use solver::deletion_strategy::CDCLDeletionStrategy;
use solver::dpll::{DataStructures, SatisfactionSolver, VarValue};
use solver::solvers::{ExternalSolver, TimeLimitedSolver, TimedSolver};
use solver::{Bruteforce, CNFClause, CNFVar, CadicalSolver, SATSolution, Solver, CNF};
use std::path::PathBuf;
use std::time::Duration;

fn lit(n: i32) -> CNFVar {
    CNFVar::new(n.unsigned_abs() as usize, n > 0)
}

fn formula(n: usize, clauses: &[&[i32]]) -> CNF {
    CNF {
        clauses: clauses.iter().map(|c| CNFClause { vars: c.iter().map(|l| lit(*l)).collect() }).collect(),
        num_variables: n,
    }
}

fn satisfies(f: &CNF, v: &[bool]) -> bool {
    f.clauses.iter().all(|c| c.vars.iter().any(|l| v[l.id - 1] == l.sign))
}

#[test]
fn bruteforce_finds_a_model() {
    let f = formula(3, &[&[1, 2], &[-1, 3], &[-3, -2]]);
    match Bruteforce::Bruteforce.solve(&f) {
        SATSolution::Satisfiable(v) => {
            assert_eq!(v.len(), 3);
            assert!(satisfies(&f, &v));
        }
        other => panic!("unexpected {:?}", other),
    }
}

#[test]
fn bruteforce_proves_unsatisfiability() {
    let f = formula(1, &[&[1], &[-1]]);
    assert_eq!(Bruteforce::Bruteforce.solve(&f), SATSolution::Unsatisfiable);
}

#[test]
fn guess_extends_the_valuation() {
    let f = formula(2, &[&[1], &[-2]]);
    let mut v = vec![false, false];
    assert!(guess(&f, 0, &mut v));
    assert_eq!(v, vec![true, false]);
}

#[test]
fn cadical_agrees() {
    let f = formula(2, &[&[1, 2], &[-1], &[-2, 1]]);
    assert_eq!(CadicalSolver.solve(&f), SATSolution::Unsatisfiable);
    let g = formula(2, &[&[1, 2], &[-1]]);
    match CadicalSolver.solve(&g) {
        SATSolution::Satisfiable(v) => assert_eq!(v, vec![false, true]),
        other => panic!("unexpected {:?}", other),
    }
}

#[test]
fn dpll_branching_heuristics() {
    let f = formula(3, &[&[1, 2], &[-1, 3], &[-2, 3], &[2, 3], &[3, -1]]);
    let data = DataStructures::new(&f);
    assert_eq!(NaiveBranching.pick_branching_variable(&data.variables, &data.clauses), Some(CNFVar::new(0, true)));
    // variable 3 (index 2) occurs positively in four clauses, the others in three
    assert_eq!(DLCS.pick_branching_variable(&data.variables, &data.clauses), Some(CNFVar::new(2, true)));
    assert_eq!(DLIS.pick_branching_variable(&data.variables, &data.clauses), Some(CNFVar::new(2, true)));
    assert!(MOM.pick_branching_variable(&data.variables, &data.clauses).is_some());
    assert_eq!(count_number_of_clauses(&data.variables[2].pos_occ, &data.clauses), 4);
    assert_eq!(data.variables[0].value, VarValue::Free);
}

#[test]
fn dpll_solvers() {
    let f = formula(4, &[&[1, -2], &[2, 3], &[-3, 4], &[-4, -1]]);
    for s in [
        SatisfactionSolver::new(NaiveBranching).solve(&f),
        SatisfactionSolver::new(DLIS).solve(&f),
        SatisfactionSolver::new(DLCS).solve(&f),
        SatisfactionSolver::new(MOM).solve(&f),
    ] {
        match s {
            SATSolution::Satisfiable(v) => assert!(satisfies(&f, &v)),
            other => panic!("unexpected {:?}", other),
        }
    }
}

#[test]
fn luby_sequence() {
    let mut policy = RestartLuby::default().create();
    let values: Vec<u64> = (0..7).map(|_| policy.next_luby()).collect();
    assert_eq!(values, vec![1, 2, 1, 1, 2, 3, 4]);
}

#[test]
fn restart_policies() {
    let clauses = Clauses::new(Vec::new());
    let variables: Vec<Variable> = Vec::new();
    let mut never = RestartNever.create();
    never.on_conflict(0, &clauses, &variables);
    assert!(!never.restart());

    let mut fixed = RestartFixed(2).create();
    for _ in 0..2 {
        fixed.on_conflict(0, &clauses, &variables);
        assert!(!fixed.restart());
    }
    fixed.on_conflict(0, &clauses, &variables);
    assert!(fixed.restart());
    assert!(!fixed.restart());

    let mut luby = RestartLuby::default().create();
    luby.on_conflict(0, &clauses, &variables);
    assert!(!luby.restart());
    luby.on_conflict(0, &clauses, &variables);
    assert!(luby.restart());
    assert_eq!(luby.rate, 32);

    let mut geom = RestartGeom::default().create();
    for _ in 0..101 {
        geom.on_conflict(0, &clauses, &variables);
    }
    assert!(geom.restart());
    assert_eq!(geom.rate, 150);
}

fn cdcl_variables(n: usize) -> Vec<Variable> {
    (0..n).map(|_| Variable { watched_occ: Vec::new(), assignment: None }).collect()
}

#[test]
fn naive_and_vsids_pick_unassigned_literals() {
    let clause = Clause::new(&CNFClause { vars: vec![lit(1), lit(-2), lit(2)] });
    assert_eq!(clause.literals, vec![CNFVar::new(0, true), CNFVar::new(1, false), CNFVar::new(1, true)]);
    let clauses = Clauses::new(vec![clause]);
    let mut variables = cdcl_variables(2);
    variables[0].assignment = Some(VarAssignment { sign: true, branching_level: 1, reason: AssignmentType::Branching });
    let mut naive = Naive.create(&clauses, &variables);
    assert_eq!(naive.pick_literal(&clauses, &variables), Some(CNFVar::new(1, true)));
    let mut vsids = VSIDS.create(&clauses, &variables);
    let picked = vsids.pick_literal(&clauses, &variables).unwrap();
    assert_eq!(picked.id, 1);
}

#[test]
fn berkmin_deletes_nothing_without_learned_clauses() {
    let clauses = Clauses::new(vec![Clause::new(&CNFClause { vars: vec![lit(1)] })]);
    let variables = cdcl_variables(1);
    let mut berkmin = BerkMin::default().create(&clauses, &variables);
    assert!(berkmin.delete_clause(&clauses, &variables).is_empty());
    let mut never = NoDeletion.create(&clauses, &variables);
    assert!(never.delete_clause(&clauses, &variables).is_empty());
}

#[test]
fn clauses_reuse_freed_indices() {
    let mut clauses = Clauses::new(vec![Clause::new(&CNFClause { vars: vec![lit(1), lit(2)] })]);
    let a = clauses.push(CNFClause { vars: vec![CNFVar::new(0, true)] });
    let b = clauses.push(CNFClause { vars: vec![CNFVar::new(1, false), CNFVar::new(0, false)] });
    assert_eq!((a, b), (1, 2));
    assert_eq!(clauses.len(), 3);
    let w = clauses.remove(a);
    assert_eq!(w, (CNFVar::new(0, true), CNFVar::new(0, true)));
    assert!(!clauses.contains(a));
    assert_eq!(clauses.len(), 2);
    let c = clauses.push(CNFClause { vars: vec![CNFVar::new(1, true)] });
    assert_eq!(c, 1);
    assert_eq!(clauses.len_formula(), 1);
}

#[test]
fn variable_watch_lists() {
    let f = formula(2, &[&[1, 2], &[-2], &[2, -1]]);
    let v = Variable::new(&f, 2);
    assert_eq!(v.watched_occ, vec![0, 1, 2]);
    assert_eq!(v.assignment, None);
    let unused = Variable::new(&formula(3, &[&[1]]), 3);
    assert_eq!(unused.assignment, Some(VarAssignment { sign: false, branching_level: 0, reason: AssignmentType::Known }));
    let mut w = Variable::new(&f, 1);
    w.add_watched_occ(7);
    w.add_watched_occ(7);
    assert_eq!(w.watched_occ, vec![0, 2, 7]);
    w.remove_watched_occ(0);
    assert_eq!(w.watched_occ, vec![2, 7]);
}

fn cdcl_solvers() -> Vec<Box<dyn Solver>> {
    vec![
        Box::new(CDCLSolver::new(VSIDS, RelSAT, BerkMin::default(), RestartLuby::default(), NoPreprocessing)),
        Box::new(CDCLSolver::new(Naive, RelSAT, NoDeletion, RestartNever, NoPreprocessing)),
        Box::new(CDCLSolver::new(
            VSIDS,
            RelSAT,
            BerkMin::default(),
            RestartGeom::default(),
            ListPreprocessor(vec![PreprocessorKind::RemoveTautology, PreprocessorKind::NiVER]),
        )),
        Box::new(CDCLSolver::new(
            VSIDS,
            RelSAT,
            NoDeletion,
            RestartFixed::default(),
            ListPreprocessor(vec![PreprocessorKind::SelfSubsumption]),
        )),
    ]
}

#[test]
fn cdcl_solves_small_formulas() {
    let sat = formula(4, &[&[1, -2], &[2, 3], &[-3, 4], &[-4, -1], &[1, 4]]);
    let unsat = formula(2, &[&[1, 2], &[-1, 2], &[1, -2], &[-1, -2]]);
    for s in cdcl_solvers() {
        match s.solve(&sat) {
            SATSolution::Satisfiable(v) => assert!(satisfies(&sat, &v)),
            other => panic!("unexpected {:?}", other),
        }
        assert_eq!(s.solve(&unsat), SATSolution::Unsatisfiable);
    }
}

#[test]
fn cdcl_opposite_unit_clauses() {
    let f = formula(2, &[&[1, 2], &[-2], &[2, 2]]);
    let state = ExecutionState::new(f, &VSIDS, &RelSAT, &BerkMin::default(), &RestartNever);
    assert!(state.is_none());
    let g = formula(2, &[&[1, 2], &[-2]]);
    let state = ExecutionState::new(g.clone(), &VSIDS, &RelSAT, &BerkMin::default(), &RestartNever);
    assert!(state.is_some());
    let answer = state.unwrap().cdcl();
    assert_eq!(answer, SATSolution::Satisfiable(vec![true, false]));
}

#[test]
fn wrappers_keep_their_parts() {
    let timed = TimedSolver::new(Bruteforce::Bruteforce);
    let f = formula(1, &[&[-1]]);
    assert_eq!(timed.solve(&f), SATSolution::Satisfiable(vec![false]));
    let limited = TimeLimitedSolver::new(Bruteforce::Bruteforce, Duration::from_secs(3));
    assert_eq!(*limited.max_duration(), Duration::from_secs(3));
    let external = ExternalSolver::new(PathBuf::from("minisat"));
    assert_eq!(external.program(), &PathBuf::from("minisat"));
}

#[test]
fn position_berkmin_deletes_long_inactive_clauses() {
    let f = formula(9, &[&[1, 2], &[1, 2, 3, 4, 5, 6, 7, 8, 9], &[-1, -2]]);
    let data = DataStructures::new(&f);
    let mut berkmin = solver::deletion_strategy::BerkMin::new();
    for c in f.clauses.iter() {
        berkmin.learn_clause(solver::dpll::Clause::new(c));
    }
    // the long clause at position 1 has 9 active literals and activity 0
    assert_eq!(berkmin.gc_clauses(&data.clauses), vec![1]);
    berkmin.conflict_contrib_hook(0);
    berkmin.conflict_contrib_hook(5);
}

#[test]
fn vsids_counts_learned_literals_and_resorts() {
    let clauses = Clauses::new(vec![
        Clause::new(&CNFClause { vars: vec![lit(1), lit(2)] }),
        Clause::new(&CNFClause { vars: vec![lit(-1), lit(2)] }),
    ]);
    let variables = cdcl_variables(2);
    let mut vsids = VSIDS.create(&clauses, &variables);
    // occurrences: 0 for x1-, 1 for x1+, 1 for x2-, 2 for x2+ (indices 0..4)
    assert_eq!(vsids.scores, vec![1, 1, 0, 2]);
    assert_eq!(vsids.counters, vec![0, 0, 0, 0]);
    vsids.on_learn(1, &clauses, &variables);
    assert_eq!(vsids.counters, vec![1, 0, 0, 1]);
    // the resort halves the scores and adds the counters
    vsids.resort_period = 1;
    let picked = vsids.pick_literal(&clauses, &variables).unwrap();
    assert_eq!(vsids.scores, vec![1, 0, 0, 2]);
    assert_eq!(vsids.counters, vec![0, 0, 0, 0]);
    assert_eq!(vsids.branchings, 0);
    assert_eq!(picked, CNFVar::new(1, true));
    // once every literal was popped, nothing is left to pick
    let mut left = 0;
    while vsids.pick_literal(&clauses, &variables).is_some() {
        left += 1;
    }
    assert_eq!(left, 3);
    vsids.on_unassign(CNFVar::new(0, false), &clauses, &variables);
    assert_eq!(vsids.pick_literal(&clauses, &variables), Some(CNFVar::new(0, false)));
    let mut relsat = RelSAT;
    let mut assigned = cdcl_variables(2);
    assigned[0].assignment = Some(VarAssignment { sign: false, branching_level: 1, reason: AssignmentType::Branching });
    assigned[1].assignment = Some(VarAssignment { sign: false, branching_level: 0, reason: AssignmentType::Known });
    let learned = relsat.find_conflict_clause(0, 1, &clauses, &assigned);
    assert_eq!(
        learned,
        Some((CNFClause { vars: vec![CNFVar::new(0, true), CNFVar::new(1, true)] }, CNFVar::new(0, true), 0))
    );
}

#[test]
fn mom_prefers_the_shortest_clauses() {
    // only x1 and x2 occur in the shortest clause
    let f = formula(5, &[&[1, 2], &[3, 4, 5]]);
    let data = DataStructures::new(&f);
    let picked = MOM.pick_branching_variable(&data.variables, &data.clauses).unwrap();
    assert!(picked.id == 0 || picked.id == 1);
    assert!(picked.sign);
}

#[test]
fn bruteforce_returns_the_smallest_model() {
    let f = formula(2, &[&[1, 2]]);
    assert_eq!(Bruteforce::Bruteforce.solve(&f), SATSolution::Satisfiable(vec![false, true]));
}

#[test]
fn clauses_reuse_the_smallest_freed_index() {
    let mut clauses = Clauses::new(vec![Clause::new(&CNFClause { vars: vec![lit(1), lit(2)] })]);
    let a = clauses.push(CNFClause { vars: vec![CNFVar::new(0, true)] });
    let b = clauses.push(CNFClause { vars: vec![CNFVar::new(1, true)] });
    let c = clauses.push(CNFClause { vars: vec![CNFVar::new(1, false)] });
    assert_eq!((a, b, c), (1, 2, 3));
    clauses.remove(c);
    clauses.remove(a);
    assert_eq!(clauses.len(), 2);
    assert_eq!(clauses.push(CNFClause { vars: vec![CNFVar::new(0, false)] }), 1);
    assert_eq!(clauses.push(CNFClause { vars: vec![CNFVar::new(0, false)] }), 3);
    assert_eq!(clauses.push(CNFClause { vars: vec![CNFVar::new(0, false)] }), 4);
    assert_eq!(clauses.len(), 5);
}

#[test]
fn clauses_iter_lists_present_indices_in_order() {
    let mut clauses = Clauses::new(vec![Clause::new(&CNFClause { vars: vec![lit(1), lit(2)] })]);
    clauses.push(CNFClause { vars: vec![CNFVar::new(0, true)] });
    clauses.push(CNFClause { vars: vec![CNFVar::new(1, true)] });
    clauses.push(CNFClause { vars: vec![CNFVar::new(1, false)] });
    clauses.remove(2);
    assert_eq!(clauses.iter(), vec![0, 1, 3]);
    assert_eq!(clauses.get(3).literals, vec![CNFVar::new(1, false)]);
}

#[test]
fn relsat_learns_a_clause_implied_by_the_database() {
    // x0 decided false at level 1 forces x1 through (x0 or x1); then (x0 or not x1) is false
    let clauses = Clauses::new(vec![
        Clause::new(&CNFClause { vars: vec![lit(1), lit(-2)] }),
        Clause::new(&CNFClause { vars: vec![lit(1), lit(2)] }),
    ]);
    let mut assigned = cdcl_variables(2);
    assigned[0].assignment = Some(VarAssignment { sign: false, branching_level: 1, reason: AssignmentType::Branching });
    assigned[1].assignment = Some(VarAssignment { sign: true, branching_level: 1, reason: AssignmentType::Forced(1) });
    let mut relsat = RelSAT;
    let learned = relsat.find_conflict_clause(0, 1, &clauses, &assigned);
    assert_eq!(learned, Some((CNFClause { vars: vec![CNFVar::new(0, true)] }, CNFVar::new(0, true), 0)));
    let (c, _, _) = learned.unwrap();
    let database = [vec![CNFVar::new(0, true), CNFVar::new(1, false)], vec![CNFVar::new(0, true), CNFVar::new(1, true)]];
    for bits in 0..4u32 {
        let val = [bits & 1 == 1, bits & 2 == 2];
        let holds = |lits: &[CNFVar]| lits.iter().any(|l| val[l.id] == l.sign);
        if database.iter().all(|d| holds(d)) {
            assert!(holds(&c.vars));
        }
    }
}

#[test]
fn relsat_keeps_a_repeated_conflict_literal() {
    // a conflict clause that names x0 twice gives a learned clause that does too
    let clauses = Clauses::new(vec![Clause::new(&CNFClause { vars: vec![lit(-1), lit(-1)] })]);
    let mut assigned = cdcl_variables(1);
    assigned[0].assignment = Some(VarAssignment { sign: true, branching_level: 1, reason: AssignmentType::Branching });
    let mut relsat = RelSAT;
    let learned = relsat.find_conflict_clause(0, 1, &clauses, &assigned);
    assert_eq!(
        learned,
        Some((CNFClause { vars: vec![CNFVar::new(0, false), CNFVar::new(0, false)] }, CNFVar::new(0, false), 0))
    );
}
