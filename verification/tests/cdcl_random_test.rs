use solver::cdcl::branching_strategies::VSIDS;
use solver::cdcl::deletion_strategies::BerkMin;
use solver::cdcl::learning_schemes::RelSAT;
use solver::cdcl::preprocessors::NoPreprocessing;
use solver::cdcl::restart_policies::{RestartFixed, RestartGeom, RestartLuby, RestartNever};
use solver::cdcl::CDCLSolver;
use solver::{Bruteforce, CNFClause, CNFVar, SATSolution, Solver, CNF};

// Random formulas of two- and three-literal clauses, from a fixed seed.
#[test]
fn cdcl_agrees_with_bruteforce_on_random_formulas() {
    let solvers: Vec<(&str, Box<dyn Solver>)> = vec![
        ("never", Box::new(CDCLSolver::new(VSIDS, RelSAT, BerkMin::default(), RestartNever, NoPreprocessing))),
        ("fixed", Box::new(CDCLSolver::new(VSIDS, RelSAT, BerkMin::default(), RestartFixed::default(), NoPreprocessing))),
        ("geom", Box::new(CDCLSolver::new(VSIDS, RelSAT, BerkMin::default(), RestartGeom::default(), NoPreprocessing))),
        ("luby", Box::new(CDCLSolver::new(VSIDS, RelSAT, BerkMin::default(), RestartLuby::default(), NoPreprocessing))),
    ];
    let mut seed: u64 = 12345;
    let mut next = |m: u64| { seed = seed.wrapping_mul(6364136223846793005).wrapping_add(1442695040888963407); (seed >> 33) % m };
    let mut failures: Vec<String> = Vec::new();
    let mut tried = 0;
    for _ in 0..2500 {
        let n = 3 + next(9) as usize;
        let m = 2 * n + next(4 * n as u64) as usize;
        let mut clauses = Vec::new();
        for _ in 0..m {
            let len = 2 + next(2) as usize;
            let vars = (0..len).map(|_| CNFVar { id: 1 + next(n as u64) as usize, sign: next(2) == 1 }).collect();
            clauses.push(CNFClause { vars });
        }
        let f = CNF { clauses, num_variables: n };
        let reference = Bruteforce::Bruteforce.solve(&f);
        tried += 1;
        for (name, s) in &solvers {
            let r = s.solve(&f);
            let ok = match &r {
                SATSolution::Satisfiable(v) => f.clauses.iter().all(|c| c.vars.iter().any(|l| v[l.id - 1] == l.sign)),
                SATSolution::Unsatisfiable => reference == SATSolution::Unsatisfiable,
                SATSolution::Unknown => false,
            };
            if !ok && failures.len() < 5 {
                failures.push(format!("{} gave {:?} (reference {:?}) on {}", name, r, reference, f.to_dimacs()));
            }
        }
    }
    assert!(failures.is_empty(), "tried {}: {:?}", tried, failures);
}
