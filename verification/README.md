# solver

A SAT-solving library written in Verus, with a command line front end.

## Layout

* `src/` — the verified library:
  * `cnf.rs`, `literals.rs`, `text.rs` — literals, clauses and formulas with
    their meaning under a valuation, and their DIMACS and readable texts;
  * `dimacs_input.rs` — reading DIMACS input through the `dimacs` crate;
  * `sat_solution.rs`, `assignment.rs` — answers and their DIMACS output;
  * `sat_solver.rs` — the `Solver` trait and the check of a valuation;
  * `bruteforce.rs`, `cadical_solver.rs` — a complete search, and CaDiCaL
    through the `cadical` crate;
  * `dpll.rs`, `dpll_state.rs`, `branching_strategy.rs` — a DPLL search,
    what its state keeps true (counters that follow the values, a stack that
    records them, decisions taken only where no clause is unit), and its
    branching heuristics; a satisfiable answer is proved to satisfy every
    formula without an empty clause, and an unsatisfiable answer to come
    only for formulas that no valuation satisfies;
  * `deletion_strategy.rs` — BerkMin over clause positions;
  * `cdcl/` — a CDCL search with watched literals and exchangeable branching
    strategies (first free variable, VSIDS), learning scheme (rel_sat),
    clause deletion (none, BerkMin), restart policies (never, fixed,
    geometric, Luby) and preprocessing passes (tautology removal,
    self-subsumption, NiVER); a clause learned by rel_sat is proved to hold
    under every valuation that satisfies the clause database, whenever each
    literal forced at the conflict's level has a reason set before it;
  * `solvers.rs` — wrappers: timed, time-limited and external solvers.
* `app/` — the command line program, the interruptible and time-limited
  drivers (async), the external solver's process handling, and the
  Jeroslow-Wang heuristic, which weighs clauses with floating point numbers.
* `tests/` — tests of the library.

Every solver states in its contract whether its satisfiable answers are
proved to be models, and whether its unsatisfiable answers are proved to come
only for formulas without a model (both on formulas without an empty clause).
Brute force, DPLL and CaDiCaL (as far as the `cadical` crate documents its
answers) prove both. The CDCL search checks a valuation against the clauses
before it answers satisfiable; that its unsatisfiable answers are right is
not proved.

The DPLL search is proved to terminate: every round lowers a measure of its
assignment stack. The CDCL search, whose termination is not proved, stops
after a fixed budget of steps and then answers `Unknown`.
