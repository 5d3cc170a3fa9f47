use solver::assignment::Assignment;
use solver::sat_solver::check_valuation;
use solver::{CNFClause, CNFVar, SATSolution, CNF};
use solver::dimacs_input::numbers_fit_in;

fn lit(n: i32) -> CNFVar {
    CNFVar::new(n.unsigned_abs() as usize, n > 0)
}

fn formula(n: usize, clauses: &[&[i32]]) -> CNF {
    CNF {
        clauses: clauses.iter().map(|c| CNFClause { vars: c.iter().map(|l| lit(*l)).collect() }).collect(),
        num_variables: n,
    }
}

#[test]
fn literal_basics() {
    let v = CNFVar::pos(3);
    assert_eq!(v.id(), 3);
    assert!(v.sign());
    assert_eq!(v.negated(), CNFVar::neg(3));
    assert_eq!(v.to_i32(), 3);
    assert_eq!(CNFVar::neg(7).to_i32(), -7);
    assert_eq!(CNFVar::neg(7).to_display_string(), "-7");
}

#[test]
fn clause_basics() {
    let mut c = CNFClause::new();
    assert_eq!(c.len(), 0);
    c.push(lit(2));
    c.push(lit(-5));
    assert_eq!(c.len(), 2);
    assert!(c.contains(&lit(-5)));
    assert!(!c.contains(&lit(5)));
    assert_eq!(c.max_variable_id(), 5);
    assert_eq!(c.to_display_string(), "(2)  (-5)  ");
    let d = c.duplicate();
    assert!(d.same_as(&c));
}

#[test]
fn formula_to_dimacs() {
    let f = formula(4, &[&[1, -2], &[2, 3, -1]]);
    // three distinct variables occur, in two clauses
    assert_eq!(f.to_dimacs(), "p cnf 3 2\n1 -2 0\n2 3 -1 0\n");
    assert_eq!(f.to_display_string(), "(1)  (-2)  \n(2)  (3)  (-1)  \n");
}

#[test]
fn formula_push_and_extend() {
    let mut f = CNF::empty();
    f.push(CNFClause::single(lit(3)));
    assert_eq!(f.num_variables, 3);
    let mut g = CNF::single(CNFClause::single(lit(-1)));
    g.extend(f);
    assert_eq!(g.clauses.len(), 2);
    assert_eq!(g.num_variables, 3);
}

#[test]
fn from_dimacs_reads_a_formula() {
    let f = CNF::from_dimacs("c a comment\np cnf 3 2\n1 -3 0\n2 3 -1 0\n").unwrap();
    assert_eq!(f.num_variables, 3);
    assert_eq!(f.clauses.len(), 2);
    assert_eq!(f.clauses[0].vars, vec![lit(1), lit(-3)]);
    assert_eq!(f.clauses[1].vars, vec![lit(2), lit(3), lit(-1)]);
    assert!(f.is_well_formed());
}

#[test]
fn from_dimacs_reports_errors() {
    assert!(CNF::from_dimacs("p cnf x y\n1 0\n").is_err());
    assert!(CNF::try_from_dimacs("p cnf 1 1\nfoo\n").unwrap().is_err());
}

#[test]
fn try_from_dimacs_refuses_sat_instances() {
    assert!(CNF::try_from_dimacs("p sat 2\n(*(1 -2))\n").is_none());
    assert!(CNF::try_from_dimacs("p cnf 2 1\n1 -2 0\n").unwrap().is_ok());
}

#[test]
fn well_formedness() {
    assert!(formula(2, &[&[1, -2]]).is_well_formed());
    assert!(!formula(1, &[&[1, -2]]).is_well_formed());
    let zero = CNF { clauses: vec![CNFClause { vars: vec![CNFVar::new(0, true)] }], num_variables: 1 };
    assert!(!zero.is_well_formed());
}

#[test]
fn valuation_check() {
    let f = formula(3, &[&[1, -2], &[2, 3]]);
    assert!(check_valuation(&f, &vec![true, true, false]));
    assert!(!check_valuation(&f, &vec![false, true, false]));
}

#[test]
fn solution_to_dimacs() {
    assert_eq!(SATSolution::Unsatisfiable.to_dimacs(), "s UNSATISFIABLE\n");
    assert_eq!(SATSolution::Unknown.to_dimacs(), "s UNKNOWN\n");
    assert_eq!(SATSolution::Satisfiable(vec![true, false]).to_dimacs(), "s SATISFIABLE\nv  1 -2 0\n\n");
    let long = SATSolution::Satisfiable(vec![true; 9]).to_dimacs();
    assert_eq!(long, "s SATISFIABLE\nv  1  2  3  4  5  6  7  8 0\nv  9 0\n\n");
    assert_eq!(SATSolution::Satisfiable(vec![false]).to_display_string(), "Satisfiable:\n-1 \n");
    assert_eq!(SATSolution::Unknown.to_display_string(), "Unknown");
}

#[test]
fn solution_kinds_are_exclusive() {
    for s in [SATSolution::Satisfiable(vec![true]), SATSolution::Unsatisfiable, SATSolution::Unknown] {
        let n = [s.is_sat(), s.is_unsat(), s.is_unknown()].iter().filter(|b| **b).count();
        assert_eq!(n, 1);
    }
}

#[test]
fn assignment_to_dimacs() {
    assert_eq!(Assignment::Satisfiable(vec![true, false, true]).to_dimacs(), "s SATISFIABLE\nv  1 -2  3 0\n");
    assert_eq!(Assignment::Unsatisfiable.to_dimacs(), "s UNSATISFIABLE\n");
    assert!(Assignment::Unknown.is_unknown());
    assert!(Assignment::from_valuation(vec![]).is_sat());
}

#[test]
fn numbers_fit_in_checks_digit_runs() {
    assert!(numbers_fit_in("p cnf 3 1\n1 -3 0\n"));
    assert!(numbers_fit_in("p cnf 1 1\n12345678901234567 0\n"));
    assert!(!numbers_fit_in("p cnf 1 1\n123456789012345678 0\n"));
    assert!(!numbers_fit_in("p cnf 1 999999999999999999\n1 0\n"));
    assert!(!numbers_fit_in("c 99999999999999999999\n"));
}

#[test]
fn dimacs_answer_has_one_line_per_eight_variables() {
    for n in [0usize, 1, 8, 9, 16, 17] {
        let v: Vec<bool> = (0..n).map(|i| i % 3 == 0).collect();
        let text = SATSolution::Satisfiable(v.clone()).to_dimacs();
        let lines: Vec<&str> = text.lines().filter(|l| l.starts_with("v ")).collect();
        assert_eq!(lines.len(), (n + 7) / 8);
        let mut read: Vec<i64> = Vec::new();
        for l in &lines {
            assert!(l.ends_with(" 0"));
            let numbers: Vec<i64> = l[2..].split_whitespace().map(|w| w.parse().unwrap()).collect();
            assert!(numbers.len() <= 9);
            read.extend(numbers[..numbers.len() - 1].iter());
        }
        let expected: Vec<i64> = (0..n).map(|i| if v[i] { i as i64 + 1 } else { -(i as i64 + 1) }).collect();
        assert_eq!(read, expected);
    }
}
