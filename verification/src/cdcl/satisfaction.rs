//! The CDCL search: unit propagation over watched literals, conflict
//! analysis by the learning scheme, backjumping, restarts and clause
//! deletion, driven by exchangeable strategies.
use vstd::prelude::*;
use crate::cdcl::branching_strategies::{BranchingStrategy, BranchingStrategyFactory};
use crate::cdcl::clause::{clause_value, clause_value_wf, Clause, ClauseId, Clauses};
use crate::cdcl::collections::{has_key, keys_distinct, queue_clear, queue_entries, queue_insert, queue_new,
    queue_pop, UnitQueue};
use crate::cdcl::deletion_strategies::{ClauseDeletionStrategy, ClauseDeletionStrategyFactory};
use crate::cdcl::learning_schemes::{clause_holds_at, decided_at, falsified, lit_holds_at, LearningScheme, LearningSchemeFactory};
use crate::cdcl::restart_policies::{RestartPolicy, RestartPolicyFactory};
use crate::cdcl::update::Update;
use crate::cdcl::variable::{no_duplicates, Assignment, AssignmentType, Variable, VariableId, Variables};
use crate::cnf::{clause_holds, clauses_formula, formula_holds, CNFClause, CNFVar, CNF};
use crate::dpll::{lemma_sorted_view, lowered, sorted_view};
use crate::sat_solution::SATSolution;
use crate::sat_solver::{no_empty_clause, nonempty_clauses_hold, nonempty_clauses_hold_in, Solver};
use crate::cdcl::preprocessors::{Preprocessor, PreprocessorFactory};
use crate::literals::{lemma_filter_take_step, lemma_sorted_single, single_literal, sorted_dedup};

verus! {

/// Two clauses that each hold one literal, the same variable with opposite signs.
pub open spec fn opposite_units(c: Seq<CNFVar>, d: Seq<CNFVar>) -> bool {
    &&& single_literal(c)
    &&& single_literal(d)
    &&& c[0].id == d[0].id
    &&& c[0].sign != d[0].sign
}

/// Some two clauses of the formula are opposite unit clauses.
pub open spec fn units_conflict(f: Seq<Seq<CNFVar>>) -> bool {
    exists|a: int, b: int| 0 <= a < b < f.len() && #[trigger] opposite_units(f[a], f[b])
}

/// A formula with two opposite unit clauses has no model.
pub proof fn lemma_units_conflict_unsatisfiable(formula: CNF)
    requires
        units_conflict(formula.formula()),
    ensures
        !formula.satisfiable(),
{
    let f = formula.formula();
    let (a, b) = choose|a: int, b: int| 0 <= a < b < f.len() && #[trigger] opposite_units(f[a], f[b]);
    assert forall|val: Seq<bool>| val.len() == formula.num_variables implies !#[trigger] crate::cnf::formula_holds(f, val) by {
        if crate::cnf::formula_holds(f, val) {
            assert(clause_holds(f[a], val));
            assert(clause_holds(f[b], val));
            let i = choose|i: int| 0 <= i < f[a].len() && (#[trigger] f[a][i]).holds_in(val);
            let j = choose|j: int| 0 <= j < f[b].len() && (#[trigger] f[b][j]).holds_in(val);
            assert(f[a][i] == f[a][0]);
            assert(f[b][j] == f[b][0]);
        }
    }
}

/// A clause that is not a unit clause.
pub open spec fn non_unit() -> spec_fn(Seq<CNFVar>) -> bool {
    |c: Seq<CNFVar>| c.len() != 1
}

/// Some clause before position `upto` is a unit clause on variable `k + 1`.
pub open spec fn unit_on(cs: Seq<CNFClause>, upto: int, k: usize) -> bool {
    exists|j: int| 0 <= j < upto && cs[j].vars@.len() == 1 && #[trigger] cs[j].vars@[0].id == k + 1
}

/// Two clauses of one literal each, the same variable with opposite signs.
pub open spec fn unit_pair(c: Seq<CNFVar>, d: Seq<CNFVar>) -> bool {
    &&& c.len() == 1
    &&& d.len() == 1
    &&& c[0].id == d[0].id
    &&& c[0].sign != d[0].sign
}

/// Two unit clauses before position `upto` on one variable with opposite signs.
pub open spec fn unit_clash(cs: Seq<CNFClause>, upto: int) -> bool {
    exists|a: int, b: int| 0 <= a < b < upto && #[trigger] unit_pair(cs[a].vars@, cs[b].vars@)
}

/// The entry records a unit clause before `upto`; when no clash was seen,
/// every such unit clause on its variable has its sign.
pub open spec fn entry_recorded(cs: Seq<CNFClause>, upto: int, no_error: bool, e: (usize, (bool, usize))) -> bool {
    &&& exists|j: int| 0 <= j < upto && cs[j].vars@.len() == 1
        && #[trigger] cs[j].vars@[0] == (CNFVar { id: (e.0 + 1) as usize, sign: e.1.0 })
    &&& no_error ==> forall|j: int| 0 <= j < upto && cs[j].vars@.len() == 1 && cs[j].vars@[0].id == e.0 + 1
        ==> #[trigger] cs[j].vars@[0].sign == e.1.0
}

/// The clauses of the search for a formula: each sorted and deduplicated,
/// the unit clauses left out, and the variables counted from 0.
pub open spec fn search_clauses(f: Seq<Seq<CNFVar>>) -> Seq<Seq<CNFVar>> {
    f.map_values(|c: Seq<CNFVar>| sorted_view(c)).filter(non_unit()).map_values(|c: Seq<CNFVar>| lowered(c))
}

/// Some clause of `f` has a literal on the variable `v`.
pub open spec fn mentions(f: Seq<Seq<CNFVar>>, v: int) -> bool {
    exists|c: int, i: int| 0 <= c < f.len() && 0 <= i < f[c].len() && #[trigger] f[c][i].id == v
}

/// The clause at `c` of `f` exists and its first or last literal is on the variable `v`.
pub open spec fn watches_var(f: Seq<Seq<CNFVar>>, c: int, v: int) -> bool {
    &&& 0 <= c < f.len()
    &&& f[c].len() > 0
    &&& (f[c][0].id == v || f[c][f[c].len() - 1].id == v)
}

/// Moves the unit clauses of the formula into the unit queue, each as
/// variable (counted from 0) -> (sign, index of the clause); `false` when two
/// of them give one variable opposite signs.
fn find_unit_clauses(cnf: &mut CNF, unit_queue: &mut UnitQueue) -> (r: bool)
    requires
        old(cnf).wf(),
        queue_entries(*old(unit_queue)).len() == 0,
    ensures
        final(cnf).num_variables == old(cnf).num_variables,
        final(cnf).formula() == old(cnf).formula().filter(non_unit()),
        final(cnf).wf(),
        r == !unit_clash(old(cnf).clauses@, old(cnf).clauses@.len() as int),
        keys_distinct(queue_entries(*final(unit_queue))),
        forall|k: usize| #[trigger] has_key(queue_entries(*final(unit_queue)), k)
            <==> unit_on(old(cnf).clauses@, old(cnf).clauses@.len() as int, k),
        forall|i: int| 0 <= i < queue_entries(*final(unit_queue)).len()
            ==> (#[trigger] queue_entries(*final(unit_queue))[i]).0 < old(cnf).num_variables,
        forall|i: int| 0 <= i < queue_entries(*final(unit_queue)).len()
            ==> entry_recorded(old(cnf).clauses@, old(cnf).clauses@.len() as int, r, #[trigger] queue_entries(*final(unit_queue))[i]),
{
    let ghost cs = cnf.clauses@;
    let ghost f = cnf.formula();
    let mut no_error = true;
    let mut kept: Vec<CNFClause> = Vec::new();
    let mut i: usize = 0;
    while i < cnf.clauses.len()
        invariant
            cnf.clauses@ == cs,
            old(cnf).clauses@ == cs,
            old(cnf).wf(),
            cnf.num_variables == old(cnf).num_variables,
            i <= cs.len(),
            f == old(cnf).formula(),
            clauses_formula(kept@) == f.take(i as int).filter(non_unit()),
            keys_distinct(queue_entries(*unit_queue)),
            forall|k: usize| #[trigger] has_key(queue_entries(*unit_queue), k) <==> unit_on(cs, i as int, k),
            forall|m: int| 0 <= m < queue_entries(*unit_queue).len() ==>
                (#[trigger] queue_entries(*unit_queue)[m]).0 < cnf.num_variables
                && entry_recorded(cs, i as int, no_error, queue_entries(*unit_queue)[m]),
            no_error == !unit_clash(cs, i as int),
        decreases cs.len() - i,
    {
        let clause = &cnf.clauses[i];
        assert(clause.vars@ == cnf.formula()[i as int]);
        if clause.vars.len() == 1 {
            let variable = clause.vars[0];
            assert(variable.in_range(cnf.num_variables as nat));
            let key = variable.id - 1;
            let ghost before = queue_entries(*unit_queue);
            let ghost was_ok = no_error;
            let previous = queue_insert(unit_queue, key, (variable.sign, i));
            match previous {
                Some((sign, _)) => {
                    if sign != variable.sign {
                        no_error = false;
                    }
                },
                None => {},
            }
            proof {
                let after = queue_entries(*unit_queue);
                let ii = i as int;
                let value = (variable.sign, i);
                assert(cs[ii].vars@[0] == variable);
                let p: int = if has_key(before, key) {
                    choose|p: int| 0 <= p < before.len() && (#[trigger] before[p]).0 == key
                        && previous == Some(before[p].1) && after == before.update(p, (key, value))
                } else {
                    before.len() as int
                };
                if !has_key(before, key) {
                    assert(after == before.push((key, value)));
                }
                assert(after.len() == before.len() || after.len() == before.len() + 1);
                assert(after[p] == (key, value));
                assert forall|m: int| 0 <= m < after.len() && m != p implies #[trigger] after[m] == before[m] by {}
                assert forall|k: usize| #[trigger] has_key(after, k) <==> unit_on(cs, ii + 1, k) by {
                    if has_key(after, k) {
                        let q = choose|q: int| 0 <= q < after.len() && (#[trigger] after[q]).0 == k;
                        if q != p {
                            assert(before[q].0 == k);
                            assert(has_key(before, k));
                            let j = choose|j: int| 0 <= j < ii && cs[j].vars@.len() == 1 && #[trigger] cs[j].vars@[0].id == k + 1;
                            assert(cs[j].vars@[0].id == k + 1);
                        } else {
                            assert(cs[ii].vars@[0].id == k + 1);
                        }
                    }
                    if unit_on(cs, ii + 1, k) {
                        let j = choose|j: int| 0 <= j < ii + 1 && cs[j].vars@.len() == 1 && #[trigger] cs[j].vars@[0].id == k + 1;
                        if j < ii {
                            assert(unit_on(cs, ii, k));
                            assert(has_key(before, k));
                            let q = choose|q: int| 0 <= q < before.len() && (#[trigger] before[q]).0 == k;
                            if q == p { assert(after[p].0 == k); } else { assert(after[q].0 == k); }
                        } else {
                            assert(after[p].0 == k);
                        }
                    }
                }
                // a clash with the new unit clause is exactly a recorded opposite sign
                assert(unit_clash(cs, ii + 1) <==> unit_clash(cs, ii)
                    || (was_ok && previous is Some && (previous->0).0 != variable.sign)
                    || (!was_ok)) by {
                    if unit_clash(cs, ii + 1) && !unit_clash(cs, ii) {
                        let (a, b) = choose|a: int, b: int| 0 <= a < b < ii + 1 && #[trigger] unit_pair(cs[a].vars@, cs[b].vars@);
                        assert(b == ii);
                        assert(unit_on(cs, ii, key)) by {
                            assert(cs[a].vars@[0].id == key + 1);
                        }
                        assert(has_key(before, key));
                        assert(entry_recorded(cs, ii, was_ok, before[p]));
                        if was_ok {
                            assert(cs[a].vars@[0].sign == before[p].1.0);
                        }
                    }
                    if was_ok && previous is Some && (previous->0).0 != variable.sign {
                        assert(has_key(before, key));
                        assert(entry_recorded(cs, ii, was_ok, before[p]));
                        let j = choose|j: int| 0 <= j < ii && cs[j].vars@.len() == 1
                            && #[trigger] cs[j].vars@[0] == (CNFVar { id: (before[p].0 + 1) as usize, sign: before[p].1.0 });
                        assert(unit_pair(cs[j].vars@, cs[ii].vars@));
                    }
                    if unit_clash(cs, ii) {
                        let (a, b) = choose|a: int, b: int| 0 <= a < b < ii && #[trigger] unit_pair(cs[a].vars@, cs[b].vars@);
                        assert(unit_pair(cs[a].vars@, cs[b].vars@));
                    }
                }
                assert forall|m: int| 0 <= m < after.len() implies
                    (#[trigger] after[m]).0 < cnf.num_variables
                    && entry_recorded(cs, ii + 1, no_error, after[m]) by {
                    if m == p {
                        assert(cs[ii].vars@[0] == (CNFVar { id: (key + 1) as usize, sign: variable.sign }));
                        if no_error {
                            assert forall|j: int| 0 <= j < ii + 1 && cs[j].vars@.len() == 1 && cs[j].vars@[0].id == key + 1
                                implies #[trigger] cs[j].vars@[0].sign == variable.sign by {
                                if j < ii {
                                    assert(unit_on(cs, ii, key));
                                    assert(has_key(before, key));
                                    assert(entry_recorded(cs, ii, was_ok, before[p]));
                                }
                            }
                        }
                    } else {
                        assert(after[m] == before[m]);
                        assert(entry_recorded(cs, ii, was_ok, before[m]));
                        let j = choose|j: int| 0 <= j < ii && cs[j].vars@.len() == 1
                            && #[trigger] cs[j].vars@[0] == (CNFVar { id: (before[m].0 + 1) as usize, sign: before[m].1.0 });
                        assert(cs[j].vars@[0] == (CNFVar { id: (before[m].0 + 1) as usize, sign: before[m].1.0 }));
                        if no_error {
                            assert(before[m].0 != key) by {
                                if has_key(before, key) {
                                    assert(keys_distinct(before));
                                    if m < p { assert(before[m].0 != before[p].0); } else { assert(before[p].0 != before[m].0); }
                                } else {
                                    assert(has_key(before, before[m].0));
                                }
                            }
                        }
                    }
                }
            }
        } else {
            let ghost k0 = kept@;
            kept.push(clause.duplicate());
            proof {
                let ii = i as int;
                assert(clauses_formula(kept@) =~= clauses_formula(k0).push(cs[ii].vars@));
                assert forall|m: int| 0 <= m < queue_entries(*unit_queue).len() implies
                    entry_recorded(cs, ii + 1, no_error, #[trigger] queue_entries(*unit_queue)[m]) by {
                    let e = queue_entries(*unit_queue)[m];
                    assert(entry_recorded(cs, ii, no_error, e));
                    let j = choose|j: int| 0 <= j < ii && cs[j].vars@.len() == 1
                        && #[trigger] cs[j].vars@[0] == (CNFVar { id: (e.0 + 1) as usize, sign: e.1.0 });
                    assert(cs[j].vars@[0] == (CNFVar { id: (e.0 + 1) as usize, sign: e.1.0 }));
                }
                assert(unit_clash(cs, ii + 1) == unit_clash(cs, ii)) by {
                    if unit_clash(cs, ii + 1) {
                        let (a, b) = choose|a: int, b: int| 0 <= a < b < ii + 1 && #[trigger] unit_pair(cs[a].vars@, cs[b].vars@);
                        assert(unit_pair(cs[a].vars@, cs[b].vars@));
                    }
                    if unit_clash(cs, ii) {
                        let (a, b) = choose|a: int, b: int| 0 <= a < b < ii && #[trigger] unit_pair(cs[a].vars@, cs[b].vars@);
                        assert(unit_pair(cs[a].vars@, cs[b].vars@));
                    }
                }
            }
        }
        proof {
            assert(f[i as int] == cs[i as int].vars@);
            lemma_filter_take_step(f, i as int, non_unit());
            assert forall|k: usize| #[trigger] unit_on(cs, i as int + 1, k) <==> unit_on(cs, i as int, k)
                || (cs[i as int].vars@.len() == 1 && cs[i as int].vars@[0].id == k + 1) by {
                if unit_on(cs, i as int + 1, k) {
                    let j = choose|j: int| 0 <= j < i + 1 && cs[j].vars@.len() == 1 && #[trigger] cs[j].vars@[0].id == k + 1;
                    if j < i {
                        assert(unit_on(cs, i as int, k));
                    }
                }
            }
        }
        i += 1;
    }
    assert(f.take(i as int) =~= f);
    cnf.clauses = kept;
    proof {
        let g = cnf.formula();
        assert forall|j: int| 0 <= j < g.len() implies crate::cnf::clause_in_range(#[trigger] g[j], cnf.num_variables as nat) by {
            assert(f.filter(non_unit()).contains(g[j]));
            f.lemma_filter_contains_rev(non_unit(), g[j]);
            let k = choose|k: int| 0 <= k < f.len() && f[k] == g[j];
        }
    }
    no_error
}

/// Each clause with its literals sorted and duplicates removed.
fn order_formula(cnf: &CNF) -> (r: CNF)
    requires
        cnf.wf(),
    ensures
        r.wf(),
        r.num_variables == cnf.num_variables,
        r.clauses@.len() == cnf.clauses@.len(),
        forall|j: int| 0 <= j < r.clauses@.len() ==> (#[trigger] r.clauses@[j]).vars@ == sorted_view(cnf.clauses@[j].vars@),
        forall|j: int| 0 <= j < r.clauses@.len() ==>
            (single_literal(cnf.clauses@[j].vars@) <==> (#[trigger] r.clauses@[j]).vars@.len() == 1),
        forall|j: int| 0 <= j < r.clauses@.len() && (#[trigger] r.clauses@[j]).vars@.len() == 1
            ==> r.clauses@[j].vars@[0] == cnf.clauses@[j].vars@[0],
{
    let mut clauses: Vec<CNFClause> = Vec::with_capacity(cnf.clauses.len());
    let mut j: usize = 0;
    while j < cnf.clauses.len()
        invariant
            cnf.wf(),
            j <= cnf.clauses@.len(),
            clauses@.len() == j,
            forall|k: int| 0 <= k < j ==> (#[trigger] clauses@[k]).vars@ == sorted_view(cnf.clauses@[k].vars@),
            forall|k: int| 0 <= k < j ==>
                (single_literal(cnf.clauses@[k].vars@) <==> (#[trigger] clauses@[k]).vars@.len() == 1),
            forall|k: int| 0 <= k < j && (#[trigger] clauses@[k]).vars@.len() == 1
                ==> clauses@[k].vars@[0] == cnf.clauses@[k].vars@[0],
            forall|k: int, i: int| 0 <= k < j && 0 <= i < clauses@[k].vars@.len()
                ==> (#[trigger] clauses@[k].vars@[i]).in_range(cnf.num_variables as nat),
        decreases cnf.clauses@.len() - j,
    {
        let sorted = sorted_dedup(&cnf.clauses[j].vars);
        proof {
            lemma_sorted_view(cnf.clauses@[j as int].vars@, sorted@);
            lemma_sorted_single(cnf.clauses@[j as int].vars@, sorted@);
            assert(cnf.formula()[j as int] == cnf.clauses@[j as int].vars@);
            assert forall|i: int| 0 <= i < sorted@.len() implies (#[trigger] sorted@[i]).in_range(cnf.num_variables as nat) by {
                let k = choose|k: int| 0 <= k < cnf.clauses@[j as int].vars@.len() && cnf.clauses@[j as int].vars@[k] == sorted@[i];
                assert(cnf.formula()[j as int][k] == sorted@[i]);
            }
        }
        clauses.push(CNFClause { vars: sorted });
        j += 1;
    }
    let r = CNF { clauses, num_variables: cnf.num_variables };
    proof {
        assert forall|k: int| 0 <= k < r.formula().len() implies crate::cnf::clause_in_range(#[trigger] r.formula()[k], r.num_variables as nat) by {
            assert(r.formula()[k] == r.clauses@[k].vars@);
        }
    }
    r
}

/// The state of a CDCL search: the clauses with their watched literals, the
/// variables with their assignments, the saved phases of the last restart,
/// the branching depth, the assigned variables in order, the literals
/// waiting to be propagated, the four strategies, and the number of steps
/// left before the search gives up.
pub struct ExecutionState<B, L, C, R> {
    clauses: Clauses,
    variables: Variables,
    variables_cache: Option<Vec<Option<Assignment>>>,
    branching_depth: usize,
    assignment_stack: Vec<VariableId>,
    unit_queue: UnitQueue,
    branching_strategy: B,
    learning_scheme: L,
    clause_deletion_strategy: C,
    restart_policy: R,
    steps_left: u64,
}

/// What one round of the search ended with.
pub enum CdclStep {
    Continue,
    Done(SATSolution),
}

/// The number of steps a search may take before it answers `Unknown`; each
/// step is one pass of one of the search loops.
pub const STEP_LIMIT: u64 = 0xffff_ffff_ffff_ffff;

impl<B: BranchingStrategy, L: LearningScheme, C: ClauseDeletionStrategy, R: RestartPolicy> ExecutionState<B, L, C, R> {
    /// The number of variables of the search.
    pub closed spec fn num_vars(&self) -> nat {
        self.variables@.len()
    }

    /// The steps left.
    pub closed spec fn steps(&self) -> u64 {
        self.steps_left
    }

    /// The literals of the clause at `c`, if there is one.
    pub closed spec fn clause_at(&self, c: int) -> Option<Seq<CNFVar>> {
        if self.clauses.has(c) { Some(self.clauses.lits_at(c)) } else { None }
    }

    /// The number of clauses that came from the formula.
    pub closed spec fn formula_clauses(&self) -> nat {
        self.clauses.formula_len()
    }

    /// Some clause of the search has no literal whose variable was decided at
    /// the current depth.
    pub closed spec fn unlearnable(&self) -> bool {
        exists|c: int| #[trigger] self.clauses.has(c) && forall|i: int| 0 <= i < self.clauses.lits_at(c).len()
            ==> !decided_at(self.variables@, (#[trigger] self.clauses.lits_at(c)[i]).id as int, self.branching_depth)
    }

    /// The assignment of the variable `v` (counted from 0).
    pub closed spec fn assignment_at(&self, v: int) -> Option<Assignment> {
        self.variables@[v].assignment
    }

    /// The clause at `c` is in the watch list of the variable `v`.
    pub closed spec fn watched_by(&self, v: int, c: usize) -> bool {
        self.variables@[v].watched_occ@.contains(c)
    }

    /// The variable `k` is queued.
    pub closed spec fn queued(&self, k: usize) -> bool {
        has_key(queue_entries(self.unit_queue), k)
    }

    /// The variable `k` is queued with the sign `b`.
    pub closed spec fn queued_sign(&self, k: usize, b: bool) -> bool {
        exists|i: int| 0 <= i < queue_entries(self.unit_queue).len()
            && #[trigger] queue_entries(self.unit_queue)[i] == (k, (b, queue_entries(self.unit_queue)[i].1.1))
    }

    /// No literal is queued.
    pub closed spec fn queue_is_empty(&self) -> bool {
        queue_entries(self.unit_queue).len() == 0
    }

    /// Some clause among those the start visits has both watches on one literal.
    pub closed spec fn has_unit_watch(&self) -> bool {
        exists|c: int| 0 <= c < self.clauses.formula_len() + self.clauses.learned_count() && c < usize::MAX
            && #[trigger] watches_one(self.clauses, c)
    }

    /// Some clause has every literal outside its watched positions false.
    pub closed spec fn has_watched_conflict(&self) -> bool {
        exists|c: int| #[trigger] self.clauses.has(c)
            && rest_falsified(self.variables@, self.clauses.view_at(c)->0)
    }

    /// The clauses are well-formed for the variables, watch lists hold no
    /// index twice, the assigned variables and the queued literals name
    /// variables of the search, and the saved phases cover every variable.
    pub closed spec fn wf(&self) -> bool {
        let n = self.variables@.len();
        &&& self.clauses.wf(n)
        &&& forall|v: int| 0 <= v < n ==> no_duplicates(#[trigger] self.variables@[v].watched_occ@)
        &&& forall|k: int| 0 <= k < self.assignment_stack@.len() ==> #[trigger] self.assignment_stack@[k] < n
        &&& keys_distinct(queue_entries(self.unit_queue))
        &&& forall|i: int| 0 <= i < queue_entries(self.unit_queue).len()
            ==> (#[trigger] queue_entries(self.unit_queue)[i]).0 < n
        &&& self.variables_cache matches Some(c) ==> c@.len() == n
    }

    /// Sets up the search for a formula: its clauses sorted and deduplicated,
    /// unit clauses moved into the unit queue, one variable per variable of
    /// the formula, and the strategies made by their factories. `None` when
    /// two unit clauses contradict each other.
    pub fn new<BF, LF, CF, RF>(formula: CNF, branching_strategy: &BF, learning_scheme: &LF,
        deletion_strategy: &CF, restart_policy: &RF) -> (r: Option<Self>)
        where
            BF: BranchingStrategyFactory<Strategy = B>,
            LF: LearningSchemeFactory<Scheme = L>,
            CF: ClauseDeletionStrategyFactory<Strategy = C>,
            RF: RestartPolicyFactory<Policy = R>,
        requires
            formula.wf(),
        ensures
            r is None <==> units_conflict(formula.formula()),
            r matches Some(s) ==> s.wf() && s.num_vars() == formula.num_variables && s.steps() == STEP_LIMIT,
            r matches Some(s) ==> forall|c: int| #[trigger] s.clause_at(c) == if 0 <= c < search_clauses(formula.formula()).len() {
                Some(search_clauses(formula.formula())[c])
            } else {
                None
            },
            r matches Some(s) ==> forall|k: usize| #[trigger] s.queued(k) <==> exists|j: int| 0 <= j < formula.clauses@.len()
                && single_literal(formula.clauses@[j].vars@) && #[trigger] formula.clauses@[j].vars@[0].id == k + 1,
            r matches Some(s) ==> forall|k: usize, b: bool| #[trigger] s.queued_sign(k, b) ==> exists|j: int|
                0 <= j < formula.clauses@.len() && single_literal(formula.clauses@[j].vars@)
                && #[trigger] formula.clauses@[j].vars@[0] == (CNFVar { id: (k + 1) as usize, sign: b }),
            r matches Some(s) ==> forall|v: int| 0 <= v < formula.num_variables ==> #[trigger] s.assignment_at(v)
                == if mentions(search_clauses(formula.formula()), v) {
                    None
                } else {
                    Some(Assignment { sign: false, branching_level: 0, reason: AssignmentType::Known })
                },
            r matches Some(s) ==> forall|v: int, c: usize| 0 <= v < formula.num_variables ==> (#[trigger] s.watched_by(v, c)
                <==> watches_var(search_clauses(formula.formula()), c as int, v)),
    {
        let mut unit_queue = queue_new(formula.num_variables);
        let mut ordered_cnf = order_formula(&formula);
        let ghost ordered = ordered_cnf.clauses@;
        let ghost sorted_f = ordered_cnf.formula();
        proof {
            let f = formula.formula();
            assert(sorted_f =~= f.map_values(|c: Seq<CNFVar>| sorted_view(c))) by {
                assert forall|j: int| 0 <= j < sorted_f.len() implies sorted_f[j] == sorted_view(f[j]) by {
                    assert(sorted_f[j] == ordered[j].vars@);
                    assert(f[j] == formula.clauses@[j].vars@);
                }
            }
        }
        let no_error = find_unit_clauses(&mut ordered_cnf, &mut unit_queue);
        proof {
            let f = formula.formula();
            assert forall|k: usize| #[trigger] has_key(queue_entries(unit_queue), k) <==> exists|j: int| 0 <= j < formula.clauses@.len()
                && single_literal(formula.clauses@[j].vars@) && #[trigger] formula.clauses@[j].vars@[0].id == k + 1 by {
                if has_key(queue_entries(unit_queue), k) {
                    assert(unit_on(ordered, ordered.len() as int, k));
                    let j = choose|j: int| 0 <= j < ordered.len() as int && ordered[j].vars@.len() == 1 && #[trigger] ordered[j].vars@[0].id == k + 1;
                    assert(single_literal(formula.clauses@[j].vars@));
                    assert(formula.clauses@[j].vars@[0].id == k + 1);
                }
                if exists|j: int| 0 <= j < formula.clauses@.len()
                    && single_literal(formula.clauses@[j].vars@) && #[trigger] formula.clauses@[j].vars@[0].id == k + 1 {
                    let j = choose|j: int| 0 <= j < formula.clauses@.len()
                        && single_literal(formula.clauses@[j].vars@) && #[trigger] formula.clauses@[j].vars@[0].id == k + 1;
                    assert(ordered[j].vars@.len() == 1);
                    assert(ordered[j].vars@[0].id == k + 1);
                    assert(unit_on(ordered, ordered.len() as int, k));
                }
            }
        }
        proof {
            // a clash of unit clauses of the ordered formula is a conflict of the formula
            let f = formula.formula();
            assert(unit_clash(ordered, ordered.len() as int) <==> units_conflict(f)) by {
                if unit_clash(ordered, ordered.len() as int) {
                    let (a, b) = choose|a: int, b: int| 0 <= a < b < ordered.len() as int
                        && #[trigger] unit_pair(ordered[a].vars@, ordered[b].vars@);
                    assert(f[a] == formula.clauses@[a].vars@ && f[b] == formula.clauses@[b].vars@);
                    assert(opposite_units(f[a], f[b]));
                }
                if units_conflict(f) {
                    let (a, b) = choose|a: int, b: int| 0 <= a < b < f.len() && #[trigger] opposite_units(f[a], f[b]);
                    assert(f[a] == formula.clauses@[a].vars@ && f[b] == formula.clauses@[b].vars@);
                    assert(unit_pair(ordered[a].vars@, ordered[b].vars@));
                }
            }
        }
        if !no_error {
            return None;
        }
        let n = ordered_cnf.num_variables;
        let mut variables: Vec<Variable> = Vec::with_capacity(n);
        let mut k: usize = 0;
        while k < n
            invariant
                k <= n,
                n == ordered_cnf.num_variables,
                variables@.len() == k,
                forall|v: int| 0 <= v < k ==> no_duplicates(#[trigger] variables@[v].watched_occ@),
                forall|v: int| 0 <= v < k ==> (#[trigger] variables@[v]).assignment
                    == if exists|c: int, i: int| 0 <= c < ordered_cnf.clauses@.len() && 0 <= i < ordered_cnf.clauses@[c].vars@.len()
                        && #[trigger] ordered_cnf.clauses@[c].vars@[i].id == v + 1 {
                        None
                    } else {
                        Some(Assignment { sign: false, branching_level: 0, reason: AssignmentType::Known })
                    },
                forall|v: int, c: int| 0 <= v < k && 0 <= c < ordered_cnf.clauses@.len() ==>
                    ((#[trigger] variables@[v]).watched_occ@.contains(c as usize) <==> {
                        let vs = #[trigger] ordered_cnf.clauses@[c].vars@;
                        vs.len() > 0 && (vs[0].id == v + 1 || vs[vs.len() - 1].id == v + 1)
                    }),
                forall|v: int, m: int| 0 <= v < k && 0 <= m < variables@[v].watched_occ@.len()
                    ==> #[trigger] variables@[v].watched_occ@[m] < ordered_cnf.clauses@.len(),
            decreases n - k,
        {
            let ghost before = variables@;
            variables.push(Variable::new(&ordered_cnf, k + 1));
            proof {
                assert forall|v: int| 0 <= v < k implies #[trigger] variables@[v] == before[v] by {}
            }
            k += 1;
        }
        let mut formula_clauses: Vec<Clause> = Vec::with_capacity(ordered_cnf.clauses.len());
        let mut j: usize = 0;
        while j < ordered_cnf.clauses.len()
            invariant
                ordered_cnf.wf(),
                n == ordered_cnf.num_variables,
                j <= ordered_cnf.clauses@.len(),
                formula_clauses@.len() == j,
                forall|m: int| 0 <= m < j ==> clause_value_wf(clause_value(#[trigger] formula_clauses@[m]), n as nat),
                forall|m: int| 0 <= m < j ==> (#[trigger] formula_clauses@[m]).literals@ == lowered(ordered_cnf.clauses@[m].vars@),
            decreases ordered_cnf.clauses@.len() - j,
        {
            proof {
                assert(ordered_cnf.formula()[j as int] == ordered_cnf.clauses@[j as int].vars@);
            }
            let c = Clause::new(&ordered_cnf.clauses[j]);
            proof {
                let lits = ordered_cnf.clauses@[j as int].vars@;
                assert forall|i: int| 0 <= i < c.literals@.len() implies (#[trigger] c.literals@[i]).id < n by {
                    assert(c.literals@[i] == lowered(lits)[i]);
                    assert(lits[i].in_range(n as nat));
                }
            }
            formula_clauses.push(c);
            j += 1;
        }
        let ghost fc = formula_clauses@;
        let clauses = Clauses::new(formula_clauses);
        assert(clauses.wf(n as nat));
        proof {
            let g = search_clauses(formula.formula());
            let h = sorted_f.filter(non_unit());
            assert(ordered_cnf.formula() == h);
            assert(g.len() == fc.len());
            assert forall|c: int| 0 <= c < g.len() implies clauses.lits_at(c) == #[trigger] g[c] by {
                assert(clauses.view_at(c) == Some(clause_value(fc[c])));
                assert(ordered_cnf.formula()[c] == ordered_cnf.clauses@[c].vars@);
            }
        }
        let assignment_stack: Vec<VariableId> = Vec::with_capacity(formula.num_variables);
        let branching_strategy = branching_strategy.create(&clauses, &variables);
        let learning_scheme = learning_scheme.create(&clauses, &variables);
        let clause_deletion_strategy = deletion_strategy.create(&clauses, &variables);
        let restart_policy = restart_policy.create();
        let st = ExecutionState {
            clauses,
            variables,
            variables_cache: None,
            branching_depth: 0,
            assignment_stack,
            unit_queue,
            branching_strategy,
            learning_scheme,
            clause_deletion_strategy,
            restart_policy,
            steps_left: STEP_LIMIT,
        };
        proof {
            let g = search_clauses(formula.formula());
            assert forall|c: int| #[trigger] st.clause_at(c) == if 0 <= c < g.len() { Some(g[c]) } else { None } by {
                if 0 <= c < g.len() {
                    assert(st.clauses.view_at(c) == Some(clause_value(fc[c])));
                    assert(st.clauses.lits_at(c) == g[c]);
                } else {
                    assert(st.clauses.view_at(c) is None);
                }
            }
            let oc = ordered_cnf.clauses@;
            assert forall|c: int| 0 <= c < g.len() implies #[trigger] g[c] == lowered(oc[c].vars@)
                && crate::cnf::clause_in_range(oc[c].vars@, n as nat) by {
                assert(st.clauses.view_at(c) == Some(clause_value(fc[c])));
                assert(st.clauses.lits_at(c) == g[c]);
                assert(ordered_cnf.formula()[c] == oc[c].vars@);
            }
            assert forall|v: int| 0 <= v < n implies #[trigger] st.assignment_at(v)
                == if mentions(g, v) {
                    None
                } else {
                    Some(Assignment { sign: false, branching_level: 0, reason: AssignmentType::Known })
                } by {
                if mentions(g, v) {
                    let (c, i) = choose|c: int, i: int| 0 <= c < g.len() && 0 <= i < g[c].len() && #[trigger] g[c][i].id == v;
                    assert(g[c] == lowered(oc[c].vars@));
                    assert(oc[c].vars@[i].in_range(n as nat));
                    assert(oc[c].vars@[i].id == v + 1);
                }
                if exists|c: int, i: int| 0 <= c < oc.len() && 0 <= i < oc[c].vars@.len()
                    && #[trigger] oc[c].vars@[i].id == v + 1 {
                    let (c, i) = choose|c: int, i: int| 0 <= c < oc.len() && 0 <= i < oc[c].vars@.len()
                        && #[trigger] oc[c].vars@[i].id == v + 1;
                    assert(g[c] == lowered(oc[c].vars@));
                    assert(g[c][i].id == v);
                }
            }
            assert forall|v: int, c: usize| 0 <= v < n implies (#[trigger] st.watched_by(v, c)
                <==> watches_var(g, c as int, v)) by {
                if st.watched_by(v, c) {
                    let m = choose|m: int| 0 <= m < st.variables@[v].watched_occ@.len() && st.variables@[v].watched_occ@[m] == c;
                    assert(st.variables@[v].watched_occ@[m] < oc.len());
                }
                if (c as int) < oc.len() {
                    let ci = c as int;
                    assert(g[ci] == lowered(oc[ci].vars@));
                    if oc[ci].vars@.len() > 0 {
                        assert(oc[ci].vars@[0].in_range(n as nat));
                        assert(oc[ci].vars@[oc[ci].vars@.len() - 1].in_range(n as nat));
                    }
                }
            }
        }
        Some(st)
    }
}

impl<B: BranchingStrategy, L: LearningScheme, C: ClauseDeletionStrategy, R: RestartPolicy> ExecutionState<B, L, C, R> {
    /// Takes one step if any is left.
    fn take_step(&mut self) -> (r: bool)
        ensures
            r == (old(self).steps_left > 0),
            final(self).steps_left == if r { (old(self).steps_left - 1) as u64 } else { 0 },
            *final(self) == (ExecutionState { steps_left: final(self).steps_left, ..*old(self) }),
    {
        if self.steps_left == 0 {
            false
        } else {
            self.steps_left = self.steps_left - 1;
            true
        }
    }

    /// Tells every strategy that the variable of the literal became unassigned.
    fn notify_unassign(&mut self, literal: CNFVar)
        ensures
            final(self).clauses == old(self).clauses,
            final(self).variables == old(self).variables,
            final(self).variables_cache == old(self).variables_cache,
            final(self).branching_depth == old(self).branching_depth,
            final(self).assignment_stack == old(self).assignment_stack,
            final(self).unit_queue == old(self).unit_queue,
            final(self).steps_left == old(self).steps_left,
    {
        self.branching_strategy.on_unassign(literal, &self.clauses, &self.variables);
        self.learning_scheme.on_unassign(literal, &self.clauses, &self.variables);
        self.clause_deletion_strategy.on_unassign(literal, &self.clauses, &self.variables);
        self.restart_policy.on_unassign(literal, &self.clauses, &self.variables);
    }

    /// Tells every strategy that the clause at `index` was learned.
    fn notify_learn(&mut self, index: ClauseId)
        ensures
            final(self).clauses == old(self).clauses,
            final(self).variables == old(self).variables,
            final(self).variables_cache == old(self).variables_cache,
            final(self).branching_depth == old(self).branching_depth,
            final(self).assignment_stack == old(self).assignment_stack,
            final(self).unit_queue == old(self).unit_queue,
            final(self).steps_left == old(self).steps_left,
    {
        self.branching_strategy.on_learn(index, &self.clauses, &self.variables);
        self.learning_scheme.on_learn(index, &self.clauses, &self.variables);
        self.clause_deletion_strategy.on_learn(index, &self.clauses, &self.variables);
        self.restart_policy.on_learn(index, &self.clauses, &self.variables);
    }

    /// Tells every strategy that the clause at `index` became empty.
    fn notify_conflict(&mut self, index: ClauseId)
        ensures
            final(self).clauses == old(self).clauses,
            final(self).variables == old(self).variables,
            final(self).variables_cache == old(self).variables_cache,
            final(self).branching_depth == old(self).branching_depth,
            final(self).assignment_stack == old(self).assignment_stack,
            final(self).unit_queue == old(self).unit_queue,
            final(self).steps_left == old(self).steps_left,
    {
        self.branching_strategy.on_conflict(index, &self.clauses, &self.variables);
        self.learning_scheme.on_conflict(index, &self.clauses, &self.variables);
        self.clause_deletion_strategy.on_conflict(index, &self.clauses, &self.variables);
        self.restart_policy.on_conflict(index, &self.clauses, &self.variables);
    }

    /// Queues the literal as forced by the clause at `reason`; `true` when the
    /// queue already held its variable with the other sign.
    fn add_to_unit_queue(&mut self, literal: CNFVar, reason: ClauseId) -> (r: bool)
        requires
            old(self).wf(),
            literal.id < old(self).num_vars(),
        ensures
            final(self).wf(),
            final(self).num_vars() == old(self).num_vars(),
            final(self).steps_left == old(self).steps_left,
            r == exists|i: int| 0 <= i < queue_entries(old(self).unit_queue).len()
                && (#[trigger] queue_entries(old(self).unit_queue)[i]).0 == literal.id
                && queue_entries(old(self).unit_queue)[i].1.0 != literal.sign,
            forall|k: usize| #[trigger] has_key(queue_entries(final(self).unit_queue), k)
                <==> (has_key(queue_entries(old(self).unit_queue), k) || k == literal.id),
            forall|i: int| 0 <= i < queue_entries(final(self).unit_queue).len()
                && (#[trigger] queue_entries(final(self).unit_queue)[i]).0 == literal.id
                ==> queue_entries(final(self).unit_queue)[i].1 == (literal.sign, reason),
            final(self).clauses == old(self).clauses,
            final(self).variables == old(self).variables,
            final(self).assignment_stack == old(self).assignment_stack,
            final(self).branching_depth == old(self).branching_depth,
            final(self).variables_cache == old(self).variables_cache,
    {
        let ghost before = queue_entries(self.unit_queue);
        let previous = queue_insert(&mut self.unit_queue, literal.id, (literal.sign, reason));
        proof {
            let after = queue_entries(self.unit_queue);
            assert forall|i: int| 0 <= i < after.len() implies (#[trigger] after[i]).0 < self.variables@.len() by {
                if has_key(before, literal.id) {
                    let p = choose|p: int| 0 <= p < before.len() && (#[trigger] before[p]).0 == literal.id
                        && previous == Some(before[p].1) && after == before.update(p, (literal.id, (literal.sign, reason)));
                    if i != p { assert(after[i] == before[i]); }
                } else {
                    assert(after == before.push((literal.id, (literal.sign, reason))));
                    if i < before.len() { assert(after[i] == before[i]); }
                }
            }
            let after = queue_entries(self.unit_queue);
            if has_key(before, literal.id) {
                let p = choose|p: int| 0 <= p < before.len() && (#[trigger] before[p]).0 == literal.id
                    && previous == Some(before[p].1) && after == before.update(p, (literal.id, (literal.sign, reason)));
                assert forall|i: int| 0 <= i < before.len() && (#[trigger] before[i]).0 == literal.id implies i == p by {}
                assert forall|k: usize| #[trigger] has_key(after, k) <==> (has_key(before, k) || k == literal.id) by {
                    if has_key(before, k) {
                        let q = choose|q: int| 0 <= q < before.len() && (#[trigger] before[q]).0 == k;
                        assert(after[q].0 == k);
                    }
                    if has_key(after, k) {
                        let q = choose|q: int| 0 <= q < after.len() && (#[trigger] after[q]).0 == k;
                        if q != p { assert(before[q].0 == k); } else { assert(before[p].0 == k); }
                    }
                }
                assert forall|i: int| 0 <= i < after.len() && (#[trigger] after[i]).0 == literal.id
                    implies after[i].1 == (literal.sign, reason) by {
                    if i != p { assert(before[i] == after[i]); }
                }
            } else {
                assert(after == before.push((literal.id, (literal.sign, reason))));
                assert forall|k: usize| #[trigger] has_key(after, k) <==> (has_key(before, k) || k == literal.id) by {
                    if has_key(before, k) {
                        let q = choose|q: int| 0 <= q < before.len() && (#[trigger] before[q]).0 == k;
                        assert(after[q].0 == k);
                    }
                    if k == literal.id {
                        assert(after[before.len() as int].0 == k);
                    }
                    if has_key(after, k) {
                        let q = choose|q: int| 0 <= q < after.len() && (#[trigger] after[q]).0 == k;
                        if q < before.len() { assert(before[q].0 == k); }
                    }
                }
                assert forall|i: int| 0 <= i < after.len() && (#[trigger] after[i]).0 == literal.id
                    implies after[i].1 == (literal.sign, reason) by {
                    if i < before.len() { assert(before[i] == after[i]); assert(has_key(before, literal.id)); }
                }
            }
        }
        match previous {
            Some((sign, _)) => sign != literal.sign,
            None => false,
        }
    }

    /// Whether one of the watched literals of the clause at `clause_index` is true.
    fn check_watched_lit_satisfied(&self, clause_index: usize) -> (r: bool)
        requires
            self.wf(),
            self.clauses.has(clause_index as int),
            self.clauses.lits_at(clause_index as int).len() > 0,
        ensures
            r == ({
                let c = self.clauses.view_at(clause_index as int)->0;
                satisfied_lit(self.variables@, c.0[c.1 as int]) || satisfied_lit(self.variables@, c.0[c.2 as int])
            }),
    {
        proof { self.clauses.lemma_clause_wf(self.variables@.len(), clause_index as int); }
        let clause = self.clauses.get(clause_index);
        let watched_index = clause.watched_literals;
        let literals = &clause.literals;
        let first = match self.variables[literals[watched_index[0]].id].assignment {
            Some(assign) => assign.sign == literals[watched_index[0]].sign,
            None => false,
        };
        let second = match self.variables[literals[watched_index[1]].id].assignment {
            Some(assign) => assign.sign == literals[watched_index[1]].sign,
            None => false,
        };
        first || second
    }
}

impl<B: BranchingStrategy, L: LearningScheme, C: ClauseDeletionStrategy, R: RestartPolicy> ExecutionState<B, L, C, R> {
    /// Moves the watch `move_index` of the clause at `clause_index`, which
    /// watched the variable `var_index`, to the literal at `lit_index`, unless
    /// that literal is already watched; `true` when it moved.
    fn change_watched_lists(&mut self, lit_index: usize, clause_index: usize, move_index: usize, var_index: usize) -> (r: bool)
        requires
            old(self).wf(),
            old(self).clauses.has(clause_index as int),
            lit_index < old(self).clauses.lits_at(clause_index as int).len(),
            move_index < 2,
            var_index < old(self).num_vars(),
        ensures
            final(self).wf(),
            final(self).num_vars() == old(self).num_vars(),
            final(self).steps_left == old(self).steps_left,
            final(self).clauses.formula_len() == old(self).clauses.formula_len(),
            forall|c: int| #[trigger] final(self).clauses.has(c) == old(self).clauses.has(c),
            forall|c: int| #[trigger] final(self).clauses.lits_at(c) == old(self).clauses.lits_at(c),
            forall|v: int| 0 <= v < final(self).num_vars() ==>
                (#[trigger] final(self).variables@[v]).assignment == old(self).variables@[v].assignment,
            r == ({
                let c = old(self).clauses.view_at(clause_index as int)->0;
                lit_index != c.1 && lit_index != c.2
            }),
            !r ==> *final(self) == *old(self),
            r ==> final(self).clauses.view_at(clause_index as int) == Some({
                let c = old(self).clauses.view_at(clause_index as int)->0;
                if move_index == 0 { (c.0, lit_index, c.2) } else { (c.0, c.1, lit_index) }
            }),
            forall|i: int| i != clause_index ==> #[trigger] final(self).clauses.view_at(i) == old(self).clauses.view_at(i),
            final(self).unit_queue == old(self).unit_queue,
            final(self).assignment_stack == old(self).assignment_stack,
            final(self).branching_depth == old(self).branching_depth,
            final(self).variables_cache == old(self).variables_cache,
    {
        let ghost n = self.variables@.len();
        proof { self.clauses.lemma_clause_wf(n, clause_index as int); }
        let watched_index = self.clauses.get(clause_index).watched_literals;
        if lit_index != watched_index[0] && lit_index != watched_index[1] {
            let new_var = self.clauses.get(clause_index).literals[lit_index].id;
            self.clauses.set_watched(clause_index, move_index, lit_index);
            self.variables[new_var].add_watched_occ(clause_index);
            self.variables[var_index].remove_watched_occ(clause_index);
            true
        } else {
            false
        }
    }
}

/// The literal is true under the assignment of its variable.
pub open spec fn satisfied_lit(variables: Seq<Variable>, l: CNFVar) -> bool {
    &&& l.id < variables.len()
    &&& variables[l.id as int].assignment matches Some(a) && a.sign == l.sign
}

/// Some literal of the clause is not false under the assignment.
pub open spec fn clause_open(variables: Seq<Variable>, lits: Seq<CNFVar>) -> bool {
    exists|i: int| 0 <= i < lits.len() && !falsified(variables, #[trigger] lits[i])
}

/// Two lists of variables with the same assignments leave the same clauses open.
pub proof fn lemma_clause_open_same(v1: Seq<Variable>, v2: Seq<Variable>, lits: Seq<CNFVar>)
    requires
        v1.len() == v2.len(),
        forall|v: int| 0 <= v < v1.len() ==> (#[trigger] v1[v]).assignment == v2[v].assignment,
    ensures
        clause_open(v1, lits) == clause_open(v2, lits),
{
    if clause_open(v1, lits) {
        let i = choose|i: int| 0 <= i < lits.len() && !falsified(v1, #[trigger] lits[i]);
        if lits[i].id < v1.len() { assert(v1[lits[i].id as int].assignment == v2[lits[i].id as int].assignment); }
        assert(!falsified(v2, lits[i]));
    }
    if clause_open(v2, lits) {
        let i = choose|i: int| 0 <= i < lits.len() && !falsified(v2, #[trigger] lits[i]);
        if lits[i].id < v1.len() { assert(v1[lits[i].id as int].assignment == v2[lits[i].id as int].assignment); }
        assert(!falsified(v1, lits[i]));
    }
}

/// Every literal of the clause outside its two watched positions is false:
/// the clause is a conflict, or unit on a watched literal.
pub open spec fn rest_falsified(variables: Seq<Variable>, c: (Seq<CNFVar>, usize, usize)) -> bool {
    forall|i: int| 0 <= i < c.0.len() && i != c.1 && i != c.2 ==> falsified(variables, #[trigger] c.0[i])
}

/// Two lists of variables with the same assignments falsify the same literals.
pub proof fn lemma_rest_falsified_same(v1: Seq<Variable>, v2: Seq<Variable>, c: (Seq<CNFVar>, usize, usize))
    requires
        v1.len() == v2.len(),
        forall|v: int| 0 <= v < v1.len() ==> (#[trigger] v2[v]).assignment == v1[v].assignment,
        rest_falsified(v1, c),
    ensures
        rest_falsified(v2, c),
{
    assert forall|i: int| 0 <= i < c.0.len() && i != c.1 && i != c.2 implies falsified(v2, #[trigger] c.0[i]) by {
        assert(falsified(v1, c.0[i]));
        assert(v2[c.0[i].id as int].assignment == v1[c.0[i].id as int].assignment);
    }
}

/// Clauses open under one list of variables stay open under another with the
/// same assignments.
proof fn lemma_assignments_open(v1: Seq<Variable>, v2: Seq<Variable>, clauses: Clauses, occ: Seq<ClauseId>)
    requires
        v1.len() == v2.len(),
        forall|v: int| 0 <= v < v1.len() ==> (#[trigger] v2[v]).assignment == v1[v].assignment,
    ensures
        forall|j: int| 0 <= j < occ.len() && clauses.has(#[trigger] occ[j] as int)
            && clauses.lits_at(occ[j] as int).len() > 0 && clause_open(v1, clauses.lits_at(occ[j] as int))
            ==> clause_open(v2, clauses.lits_at(occ[j] as int)),
{
    assert forall|j: int| 0 <= j < occ.len() && clauses.has(#[trigger] occ[j] as int)
        && clauses.lits_at(occ[j] as int).len() > 0 && clause_open(v1, clauses.lits_at(occ[j] as int))
        implies clause_open(v2, clauses.lits_at(occ[j] as int)) by {
        lemma_clause_open_same(v1, v2, clauses.lits_at(occ[j] as int));
    }
}

/// The clause at `c` exists, is not empty, and both its watches are on one literal.
pub open spec fn watches_one(clauses: Clauses, c: int) -> bool {
    &&& clauses.has(c)
    &&& (clauses.view_at(c)->0).0.len() > 0
    &&& (clauses.view_at(c)->0).1 == (clauses.view_at(c)->0).2
}

/// What operations keep, two in a row keep.
pub proof fn lemma_kept_trans<B: BranchingStrategy, L: LearningScheme, C: ClauseDeletionStrategy, R: RestartPolicy>(
    a: ExecutionState<B, L, C, R>, b: ExecutionState<B, L, C, R>, c: ExecutionState<B, L, C, R>)
    requires
        kept(&b, &a),
        kept(&c, &b),
    ensures
        kept(&c, &a),
{
    assert forall|k: int| 0 <= k < a.formula_clauses() implies #[trigger] c.clause_at(k) == a.clause_at(k) by {
        assert(c.clause_at(k) == b.clause_at(k));
    }
}

/// What an operation of the search keeps: the state stays well-formed over
/// the same variables, steps are only used up, and the clauses of the
/// formula stay as they are.
pub open spec fn kept<B: BranchingStrategy, L: LearningScheme, C: ClauseDeletionStrategy, R: RestartPolicy>(
    after: &ExecutionState<B, L, C, R>, before: &ExecutionState<B, L, C, R>) -> bool {
    &&& after.wf()
    &&& after.num_vars() == before.num_vars()
    &&& after.steps() <= before.steps()
    &&& after.formula_clauses() == before.formula_clauses()
    &&& forall|c: int| #![trigger after.clause_at(c)] #![trigger before.clause_at(c)]
        0 <= c < before.formula_clauses() ==> after.clause_at(c) == before.clause_at(c)
}


impl<B: BranchingStrategy, L: LearningScheme, C: ClauseDeletionStrategy, R: RestartPolicy> ExecutionState<B, L, C, R> {
    /// After the variable `var_index` was assigned, visits the clauses that
    /// watch it: a clause satisfied by a watched literal, or by any literal,
    /// is left alone; otherwise the watch moves to an unassigned literal that
    /// is not watched yet. A clause with no unassigned literal is a conflict
    /// and its index is returned; a clause whose only unassigned literal is
    /// its other watched literal queues that literal, and is a conflict when
    /// the queue held it with the other sign.
    fn find_new_watched(&mut self, var_index: usize) -> (r: Option<ClauseId>)
        requires
            old(self).wf(),
            var_index < old(self).num_vars(),
        ensures
            kept(final(self), old(self)),
            final(self).steps_left == old(self).steps_left,
            forall|v: int| 0 <= v < final(self).num_vars() ==>
                (#[trigger] final(self).variables@[v]).assignment == old(self).variables@[v].assignment,
            forall|c: int| #[trigger] final(self).clauses.has(c) == old(self).clauses.has(c),
            forall|c: int| #[trigger] final(self).clauses.lits_at(c) == old(self).clauses.lits_at(c),
            final(self).assignment_stack == old(self).assignment_stack,
            final(self).branching_depth == old(self).branching_depth,
            final(self).variables_cache == old(self).variables_cache,
            r matches Some(c) ==> final(self).clauses.has(c as int) && final(self).clauses.lits_at(c as int).len() > 0
                && old(self).variables@[var_index as int].watched_occ@.contains(c)
                && rest_falsified(old(self).variables@, final(self).clauses.view_at(c as int)->0),
            r is None ==> forall|j: int| 0 <= j < old(self).variables@[var_index as int].watched_occ@.len()
                && old(self).clauses.has(#[trigger] old(self).variables@[var_index as int].watched_occ@[j] as int)
                && old(self).clauses.lits_at(old(self).variables@[var_index as int].watched_occ@[j] as int).len() > 0
                ==> clause_open(old(self).variables@,
                    old(self).clauses.lits_at(old(self).variables@[var_index as int].watched_occ@[j] as int)),
    {
        let ghost n = self.variables@.len();
        let watched_occ = self.variables[var_index].watched_occ.clone();
        let ghost occ = old(self).variables@[var_index as int].watched_occ@;
        assert(watched_occ@ =~= occ);
        let mut k: usize = 0;
        while k < watched_occ.len()
            invariant
                self.wf(),
                self.variables@.len() == n,
                n == old(self).variables@.len(),
                var_index < n,
                self.steps_left == old(self).steps_left,
                k <= watched_occ@.len(),
                watched_occ@ == occ,
                occ == old(self).variables@[var_index as int].watched_occ@,
                forall|v: int| 0 <= v < n ==>
                    (#[trigger] self.variables@[v]).assignment == old(self).variables@[v].assignment,
                forall|c: int| #[trigger] self.clauses.has(c) == old(self).clauses.has(c),
                forall|c: int| #[trigger] self.clauses.lits_at(c) == old(self).clauses.lits_at(c),
                self.clauses.formula_len() == old(self).clauses.formula_len(),
                self.assignment_stack == old(self).assignment_stack,
                self.branching_depth == old(self).branching_depth,
                self.variables_cache == old(self).variables_cache,
                forall|j: int| 0 <= j < k && old(self).clauses.has(#[trigger] occ[j] as int)
                    && old(self).clauses.lits_at(occ[j] as int).len() > 0
                    ==> clause_open(old(self).variables@, old(self).clauses.lits_at(occ[j] as int)),
            decreases watched_occ@.len() - k,
        {
            let ghost k0 = k;
            let clause_index = watched_occ[k];
            k += 1;
            if !self.clauses.contains(clause_index) {
                continue;
            }
            proof { self.clauses.lemma_clause_wf(n, clause_index as int); }
            let lits_len = self.clauses.get(clause_index).literals.len();
            proof { assert(lits_len == self.clauses.lits_at(clause_index as int).len()); }
            if lits_len == 0 {
                proof { assert(occ[k0 as int] == clause_index); }
                continue;
            }
            let ghost lits = old(self).clauses.lits_at(clause_index as int);
            let ghost vars0 = old(self).variables@;
            let watched_literals = self.clauses.get(clause_index).get_watched_lits();
            let move_index: usize = if watched_literals.1.id == var_index { 1 } else { 0 };
            if self.check_watched_lit_satisfied(clause_index) {
                proof {
                    let c = self.clauses.view_at(clause_index as int)->0;
                    if satisfied_lit(self.variables@, c.0[c.1 as int]) {
                        assert(self.variables@[c.0[c.1 as int].id as int].assignment == vars0[c.0[c.1 as int].id as int].assignment);
                        assert(!falsified(vars0, lits[c.1 as int]));
                    } else {
                        assert(self.variables@[c.0[c.2 as int].id as int].assignment == vars0[c.0[c.2 as int].id as int].assignment);
                        assert(!falsified(vars0, lits[c.2 as int]));
                    }
                    assert(clause_open(vars0, lits));
                }
                continue;
            }
            let mut no_unassign = true;
            let mut done = false;
            let mut lit_index: usize = 0;
            let ghost start = self.clauses.view_at(clause_index as int)->0;
            while lit_index < lits_len && !done
                invariant
                    self.wf(),
                    self.variables@.len() == n,
                    var_index < n,
                    self.steps_left == old(self).steps_left,
                    self.clauses.has(clause_index as int),
                    lits_len == self.clauses.lits_at(clause_index as int).len(),
                    lit_index <= lits_len,
                    move_index < 2,
                    vars0 == old(self).variables@,
                    lits == old(self).clauses.lits_at(clause_index as int),
                    forall|v: int| 0 <= v < n ==>
                        (#[trigger] self.variables@[v]).assignment == old(self).variables@[v].assignment,
                    forall|c: int| #[trigger] self.clauses.has(c) == old(self).clauses.has(c),
                    forall|c: int| #[trigger] self.clauses.lits_at(c) == old(self).clauses.lits_at(c),
                    self.clauses.formula_len() == old(self).clauses.formula_len(),
                    self.assignment_stack == old(self).assignment_stack,
                    self.branching_depth == old(self).branching_depth,
                    self.variables_cache == old(self).variables_cache,
                    (done || !no_unassign) ==> clause_open(vars0, lits),
                    start.0 == lits,
                    !done ==> self.clauses.view_at(clause_index as int) == Some(start),
                    !done ==> forall|i: int| 0 <= i < lit_index && i != start.1 && i != start.2
                        ==> falsified(vars0, #[trigger] lits[i]),
                    no_unassign && !done ==> forall|i: int| 0 <= i < lit_index ==> falsified(vars0, #[trigger] lits[i]),
                    n == old(self).variables@.len(),
                decreases lits_len - lit_index,
            {
                proof { self.clauses.lemma_clause_wf(n, clause_index as int); }
                let lit = self.clauses.get(clause_index).literals[lit_index];
                proof {
                    assert(lit == lits[lit_index as int]);
                    assert(lit.id < n);
                    assert(self.variables@[lit.id as int].assignment == vars0[lit.id as int].assignment);
                }
                let ghost lit_assignment = self.variables@[lit.id as int].assignment;
                let ghost watched_before = self.clauses.view_at(clause_index as int);
                match self.variables[lit.id].assignment {
                    Some(assign) => {
                        if assign.sign == lit.sign {
                            done = true;
                        }
                    },
                    None => {
                        no_unassign = false;
                        if self.change_watched_lists(lit_index, clause_index, move_index, var_index) {
                            done = true;
                        }
                    },
                }
                proof {
                    if lit_assignment matches Some(a) && a.sign != lit.sign {
                        assert(falsified(vars0, lits[lit_index as int]));
                    }
                    if !done && lit_assignment is None {
                        assert(watched_before == Some(start));
                        assert(lit_index == start.1 || lit_index == start.2);
                    }
                    if done || !no_unassign {
                        if !falsified(vars0, lits[lit_index as int]) {
                            assert(clause_open(vars0, lits));
                        }
                    }
                }
                lit_index += 1;
            }
            if done {
                continue;
            }
            if no_unassign {
                proof {
                    assert(occ[k0 as int] == clause_index);
                    assert(lit_index == lits_len);
                    assert(self.clauses.view_at(clause_index as int) == Some(start));
                }
                return Some(clause_index);
            } else {
                proof {
                    self.clauses.lemma_clause_wf(n, clause_index as int);
                }
                let literal = if self.variables[watched_literals.0.id].assignment.is_some() {
                    watched_literals.1
                } else {
                    watched_literals.0
                };
                if self.add_to_unit_queue(literal, clause_index) {
                    proof {
                        assert(occ[k0 as int] == clause_index);
                        assert(lit_index == lits_len);
                        assert(self.clauses.view_at(clause_index as int) == Some(start));
                    }
                    return Some(clause_index);
                }
            }
        }
        None
    }

    /// Assigns the literal at the current branching depth, records it on the
    /// assignment stack and updates the watches of the clauses that watch its
    /// variable; a conflicting clause is returned.
    fn set_variable(&mut self, literal: CNFVar, assign_type: AssignmentType) -> (r: Option<ClauseId>)
        requires
            old(self).wf(),
            literal.id < old(self).num_vars(),
        ensures
            kept(final(self), old(self)),
            final(self).steps_left == old(self).steps_left,
            final(self).variables@[literal.id as int].assignment == Some(Assignment {
                sign: literal.sign, branching_level: old(self).branching_depth, reason: assign_type }),
            forall|v: int| 0 <= v < final(self).num_vars() && v != literal.id ==>
                (#[trigger] final(self).variables@[v]).assignment == old(self).variables@[v].assignment,
            final(self).assignment_stack@ == old(self).assignment_stack@.push(literal.id),
            final(self).branching_depth == old(self).branching_depth,
            final(self).variables_cache == old(self).variables_cache,
            forall|c: int| #[trigger] final(self).clauses.has(c) == old(self).clauses.has(c),
            forall|c: int| #[trigger] final(self).clauses.lits_at(c) == old(self).clauses.lits_at(c),
            r matches Some(c) ==> final(self).clauses.has(c as int)
                && old(self).variables@[literal.id as int].watched_occ@.contains(c)
                && rest_falsified(final(self).variables@, final(self).clauses.view_at(c as int)->0),
            r is None ==> forall|j: int| 0 <= j < old(self).variables@[literal.id as int].watched_occ@.len()
                && old(self).clauses.has(#[trigger] old(self).variables@[literal.id as int].watched_occ@[j] as int)
                && old(self).clauses.lits_at(old(self).variables@[literal.id as int].watched_occ@[j] as int).len() > 0
                ==> clause_open(final(self).variables@,
                    old(self).clauses.lits_at(old(self).variables@[literal.id as int].watched_occ@[j] as int)),
    {
        let assignment = Assignment { sign: literal.sign, branching_level: self.branching_depth, reason: assign_type };
        self.variables[literal.id].assignment = Some(assignment);
        self.assignment_stack.push(literal.id);
        let ghost mid = self.variables@;
        if self.variables[literal.id].watched_occ.len() > 0 {
            let r = self.find_new_watched(literal.id);
            proof {
                lemma_assignments_open(mid, self.variables@, old(self).clauses, old(self).variables@[literal.id as int].watched_occ@);
                if r is Some {
                    lemma_rest_falsified_same(mid, self.variables@, self.clauses.view_at(r->0 as int)->0);
                }
            }
            return r;
        }
        None
    }

    /// Assigns the queued literals one after the other until the queue is
    /// empty (`None`) or a clause becomes a conflict (its index). Running out
    /// of steps ends the propagation with `None`.
    fn unit_propagation(&mut self) -> (r: Option<ClauseId>)
        requires
            old(self).wf(),
        ensures
            kept(final(self), old(self)),
            r is None ==> queue_entries(final(self).unit_queue).len() == 0 || final(self).steps() == 0,
            r matches Some(c) ==> final(self).clauses.has(c as int)
                && rest_falsified(final(self).variables@, final(self).clauses.view_at(c as int)->0),
            forall|c: int| #[trigger] final(self).clauses.has(c) == old(self).clauses.has(c),
            final(self).branching_depth == old(self).branching_depth,
    {
        loop
            invariant
                kept(self, old(self)),
                forall|c: int| #[trigger] self.clauses.has(c) == old(self).clauses.has(c),
                self.branching_depth == old(self).branching_depth,
            decreases self.steps_left,
        {
            if !self.take_step() {
                return None;
            }
            match queue_pop(&mut self.unit_queue) {
                None => {
                    return None;
                },
                Some((id, (sign, reason))) => {
                    let empty_clause = self.set_variable(CNFVar::new(id, sign), AssignmentType::Forced(reason));
                    if empty_clause.is_some() {
                        return empty_clause;
                    }
                },
            }
        }
    }
}

impl<B: BranchingStrategy, L: LearningScheme, C: ClauseDeletionStrategy, R: RestartPolicy> ExecutionState<B, L, C, R> {
    /// Queues the single literal of every clause whose two watches coincide
    /// and propagates after each; `true` on a conflict.
    fn inital_unit_propagation(&mut self) -> (r: bool)
        requires
            old(self).wf(),
        ensures
            kept(final(self), old(self)),
            !r ==> final(self).queue_is_empty() || final(self).steps() == 0
                || forall|c: int| 0 <= c < old(self).clauses.formula_len() + old(self).clauses.learned_count()
                    && c < usize::MAX ==> !#[trigger] watches_one(old(self).clauses, c),
            r ==> old(self).has_unit_watch(),
    {
        let ghost n = self.variables@.len();
        let count = self.clauses.len();
        let mut i: usize = 0;
        let mut propagated = false;
        while i < count
            invariant
                kept(self, old(self)),
                n == self.variables@.len(),
                i <= count,
                count == if old(self).clauses.formula_len() + old(self).clauses.learned_count() > usize::MAX {
                    usize::MAX as nat
                } else {
                    old(self).clauses.formula_len() + old(self).clauses.learned_count()
                },
                propagated ==> queue_entries(self.unit_queue).len() == 0 || self.steps_left == 0,
                !propagated ==> self.clauses == old(self).clauses,
                !propagated ==> forall|c: int| 0 <= c < i ==> !#[trigger] watches_one(old(self).clauses, c),
                propagated ==> old(self).has_unit_watch(),
            decreases count - i,
        {
            if self.clauses.contains(i) {
                proof { self.clauses.lemma_clause_wf(n, i as int); }
                let clause = self.clauses.get(i);
                if clause.literals.len() > 0 && clause.watched_literals[0] == clause.watched_literals[1] {
                    let literal = clause.get_first_watched();
                    proof {
                        if !propagated {
                            assert(watches_one(old(self).clauses, i as int));
                            assert(old(self).has_unit_watch());
                        }
                    }
                    if self.add_to_unit_queue(literal, i) {
                        return true;
                    }
                    if self.unit_propagation().is_some() {
                        return true;
                    }
                    propagated = true;
                }
            }
            i += 1;
        }
        false
    }

    /// Adds a learned clause, registers the watches of its first literal and,
    /// unless it is a unit clause, of its last; returns its index.
    fn add_clause(&mut self, literals: CNFClause) -> (r: usize)
        requires
            old(self).wf(),
            literals.vars@.len() > 0,
            forall|i: int| 0 <= i < literals.vars@.len() ==> (#[trigger] literals.vars@[i]).id < old(self).num_vars(),
            old(self).clauses.bound() < usize::MAX,
        ensures
            kept(final(self), old(self)),
            final(self).steps_left == old(self).steps_left,
            !old(self).clauses.has(r as int),
            final(self).clauses.has(r as int),
            final(self).clauses.lits_at(r as int) == literals.vars@,
            forall|i: int| i != r ==> #[trigger] final(self).clauses.view_at(i) == old(self).clauses.view_at(i),
            forall|v: int| 0 <= v < final(self).num_vars() ==>
                (#[trigger] final(self).variables@[v]).assignment == old(self).variables@[v].assignment,
            final(self).assignment_stack == old(self).assignment_stack,
            final(self).branching_depth == old(self).branching_depth,
            final(self).unit_queue == old(self).unit_queue,
            final(self).variables_cache == old(self).variables_cache,
    {
        let ghost n = self.variables@.len();
        let unit = literals.len() == 1;
        let index = self.clauses.push(literals);
        proof { self.clauses.lemma_clause_wf(n, index as int); }
        let first = self.clauses.get(index).get_first_watched().id;
        self.variables[first].add_watched_occ(index);
        if !unit {
            let second = self.clauses.get(index).get_second_watched().id;
            self.variables[second].add_watched_occ(index);
        }
        index
    }

    /// Learns from the conflict at `empty_clause`: the learning scheme
    /// derives a clause, which is added; the assignments above the assertion
    /// level are undone; the assertion literal is queued and propagated, and
    /// a new conflict is analysed the same way. `true` when the scheme finds
    /// no clause to learn (the formula is unsatisfiable); `false` when the
    /// propagation succeeds, when the steps run out, or when no further
    /// clause index is available.
    fn backtracking(&mut self, empty_clause: ClauseId) -> (r: bool)
        requires
            old(self).wf(),
            old(self).clauses.has(empty_clause as int),
        ensures
            r ==> final(self).unlearnable(),
            kept(final(self), old(self)),
            !r ==> queue_entries(final(self).unit_queue).len() == 0 || final(self).steps_left == 0
                || final(self).clauses.bound() >= usize::MAX,
    {
        let ghost n = self.variables@.len();
        let mut empty = empty_clause;
        loop
            invariant
                kept(self, old(self)),
                n == self.variables@.len(),
                self.clauses.has(empty as int),
            decreases self.steps_left,
        {
            if !self.take_step() {
                return false;
            }
            let ghost s0 = self.steps_left;
            if empty >= self.clauses.len_formula() {
                self.notify_conflict(empty);
            }
            let found = self.learning_scheme.find_conflict_clause(empty, self.branching_depth, &self.clauses, &self.variables);
            let (conflict_clause, assertion_literal, assertion_level) = match found {
                Some(t) => t,
                None => {
                    proof {
                        assert(self.clauses.has(empty as int));
                    }
                    return true;
                },
            };
            proof {
                assert forall|i: int| 0 <= i < conflict_clause.vars@.len() implies (#[trigger] conflict_clause.vars@[i]).id < n by {
                    assert(crate::cdcl::learning_schemes::falsified(self.variables@, conflict_clause.vars@[i]));
                }
                assert(crate::cdcl::learning_schemes::falsified(self.variables@, conflict_clause.vars@[0]));
            }
            if self.clauses.index_bound_unchecked() >= usize::MAX {
                return false;
            }
            let ghost before_add = *self;
            let index = self.add_clause(conflict_clause);
            let ghost after_add = *self;
            self.notify_learn(index);
            proof {
                assert forall|c: int| 0 <= c < old(self).formula_clauses() implies #[trigger] self.clause_at(c)
                    == old(self).clause_at(c) by {
                    assert(after_add.clause_at(c) == before_add.clause_at(c));
                }
            }
            loop
                invariant
                    kept(self, old(self)),
                    n == self.variables@.len(),
                    self.steps_left == s0,
                decreases self.assignment_stack@.len(),
            {
                let id = match self.assignment_stack.pop() {
                    None => { break; },
                    Some(id) => id,
                };
                match self.variables[id].assignment {
                    Some(assign) => {
                        if assign.branching_level > assertion_level {
                            self.variables[id].assignment = None;
                            let literal = CNFVar::new(id, assign.sign);
                            self.notify_unassign(literal);
                        } else {
                            self.assignment_stack.push(id);
                            break;
                        }
                    },
                    None => {
                        self.assignment_stack.push(id);
                        break;
                    },
                }
            }
            self.branching_depth = assertion_level;
            queue_clear(&mut self.unit_queue);
            let ghost before = queue_entries(self.unit_queue);
            queue_insert(&mut self.unit_queue, assertion_literal.id, (assertion_literal.sign, index));
            proof {
                assert(!has_key(before, assertion_literal.id));
                assert(queue_entries(self.unit_queue) == before.push((assertion_literal.id, (assertion_literal.sign, index))));
            }
            match self.unit_propagation() {
                None => { return false; },
                Some(e) => { empty = e; },
            }
        }
    }

    /// Restarts the search: saves the current assignment as phases, goes
    /// back to depth 0, empties the queue and undoes every assignment.
    fn restart(&mut self)
        requires
            old(self).wf(),
        ensures
            kept(final(self), old(self)),
            final(self).steps_left == old(self).steps_left,
            final(self).variables_cache matches Some(c)
                && c@ == old(self).variables@.map_values(|v: Variable| v.assignment),
            final(self).branching_depth == 0,
            queue_entries(final(self).unit_queue).len() == 0,
            final(self).assignment_stack@.len() == 0,
            final(self).clauses == old(self).clauses,
            forall|v: int| 0 <= v < final(self).num_vars() ==> (#[trigger] final(self).variables@[v]).assignment
                == if old(self).assignment_stack@.contains(v as usize) { None } else { old(self).variables@[v].assignment },
    {
        let ghost n = self.variables@.len();
        let ghost stack = self.assignment_stack@;
        let mut cache: Vec<Option<Assignment>> = Vec::with_capacity(self.variables.len());
        let mut i: usize = 0;
        while i < self.variables.len()
            invariant
                i <= self.variables@.len(),
                cache@.len() == i,
                forall|k: int| 0 <= k < i ==> #[trigger] cache@[k] == self.variables@[k].assignment,
            decreases self.variables@.len() - i,
        {
            cache.push(self.variables[i].assignment);
            i += 1;
        }
        assert(cache@ =~= old(self).variables@.map_values(|v: Variable| v.assignment));
        self.variables_cache = Some(cache);
        self.branching_depth = 0;
        queue_clear(&mut self.unit_queue);
        while self.assignment_stack.len() > 0
            invariant
                kept(self, old(self)),
                n == self.variables@.len(),
                n == old(self).variables@.len(),
                self.steps_left == old(self).steps_left,
                self.variables_cache matches Some(c)
                    && c@ == old(self).variables@.map_values(|v: Variable| v.assignment),
                self.branching_depth == 0,
                queue_entries(self.unit_queue).len() == 0,
                self.clauses == old(self).clauses,
                stack == old(self).assignment_stack@,
                self.assignment_stack@.len() <= stack.len(),
                self.assignment_stack@ == stack.take(self.assignment_stack@.len() as int),
                forall|v: int| 0 <= v < n ==> (#[trigger] self.variables@[v]).assignment
                    == if stack.subrange(self.assignment_stack@.len() as int, stack.len() as int).contains(v as usize) {
                        None
                    } else {
                        old(self).variables@[v].assignment
                    },
            decreases self.assignment_stack@.len(),
        {
            let ghost before = self.assignment_stack@;
            let ghost vars_before = self.variables@;
            let id = self.assignment_stack.pop().unwrap();
            let ghost len = self.assignment_stack@.len() as int;
            assert(before.len() == len + 1 && before[len] == id);
            proof {
                assert(stack[len] == id);
                assert forall|v: usize| #[trigger] stack.subrange(len, stack.len() as int).contains(v)
                    <==> (v == id || stack.subrange(len + 1, stack.len() as int).contains(v)) by {
                    let sub = stack.subrange(len, stack.len() as int);
                    let sub1 = stack.subrange(len + 1, stack.len() as int);
                    if sub.contains(v) {
                        let k = choose|k: int| 0 <= k < sub.len() && sub[k] == v;
                        if k > 0 { assert(sub1[k - 1] == v); }
                    }
                    if v == id { assert(sub[0] == v); }
                    if sub1.contains(v) {
                        let k = choose|k: int| 0 <= k < sub1.len() && sub1[k] == v;
                        assert(sub[k + 1] == v);
                    }
                }
            }
            match self.variables[id].assignment {
                Some(assignment) => {
                    self.variables[id].assignment = None;
                    let literal = CNFVar::new(id, assignment.sign);
                    self.notify_unassign(literal);
                },
                None => {},
            }
            proof {
                assert(self.variables@[id as int].assignment is None);
                assert(n == self.variables.len());
                assert(self.assignment_stack@ =~= stack.take(len));
                assert forall|v: int| 0 <= v < n implies (#[trigger] self.variables@[v]).assignment
                    == if stack.subrange(len, stack.len() as int).contains(v as usize) {
                        None
                    } else {
                        old(self).variables@[v].assignment
                    } by {
                    let vu = v as usize;
                    assert(stack.subrange(len, stack.len() as int).contains(vu)
                        <==> (vu == id || stack.subrange(len + 1, stack.len() as int).contains(vu)));
                    if v != id as int {
                        assert(self.variables@[v].assignment == vars_before[v].assignment);
                        assert(vars_before[v].assignment == if stack.subrange(len + 1, stack.len() as int).contains(vu) {
                            None } else { old(self).variables@[v].assignment });
                    } else {
                        assert(stack.subrange(len, stack.len() as int).contains(vu));
                    }
                }
            }
        }
        proof {
            assert(self.assignment_stack@.len() == 0);
            assert(stack.subrange(0, stack.len() as int) =~= stack);
        }
    }
}

/// The valuation of the variables: the sign of each assignment, `false`
/// for an unassigned variable.
pub open spec fn valuation_of(variables: Seq<Variable>) -> Seq<bool> {
    variables.map_values(|v: Variable| match v.assignment {
        Some(a) => a.sign,
        None => false,
    })
}

impl<B: BranchingStrategy, L: LearningScheme, C: ClauseDeletionStrategy, R: RestartPolicy> ExecutionState<B, L, C, R> {
    /// The valuation of the current assignment.
    pub closed spec fn current_valuation(&self) -> Seq<bool> {
        valuation_of(self.variables@)
    }

    /// Every non-empty clause of the search holds under `val` (indexed by
    /// variable from 0). The search never looks at an empty clause.
    pub open spec fn satisfies_clauses_of(&self, val: Seq<bool>) -> bool {
        forall|c: int| #[trigger] self.clause_at(c) is Some && (self.clause_at(c)->0).len() > 0
            ==> clause_holds_at(val, self.clause_at(c)->0)
    }

    /// Whether every non-empty clause of the search holds under `val`.
    fn valuation_holds(&self, val: &Vec<bool>) -> (r: bool)
        requires
            self.wf(),
        ensures
            r == self.satisfies_clauses_of(val@),
    {
        let ghost n = self.variables@.len();
        let bound = self.clauses.index_bound_unchecked();
        let mut i: usize = 0;
        while i < bound
            invariant
                self.wf(),
                n == self.variables@.len(),
                i <= bound,
                bound == if self.clauses.bound() <= usize::MAX { self.clauses.bound() } else { usize::MAX as nat },
                forall|c: int| 0 <= c < i && #[trigger] self.clause_at(c) is Some && (self.clause_at(c)->0).len() > 0
                    ==> clause_holds_at(val@, self.clause_at(c)->0),
            decreases bound - i,
        {
            if self.clauses.contains(i) {
                proof { self.clauses.lemma_clause_wf(n, i as int); }
                let lits = &self.clauses.get(i).literals;
                let mut k: usize = 0;
                let mut found = false;
                while k < lits.len() && !found
                    invariant
                        k <= lits@.len(),
                        found ==> clause_holds_at(val@, lits@),
                        !found ==> forall|j: int| 0 <= j < k ==> !#[trigger] lit_holds_at(val@, lits@[j]),
                    decreases lits@.len() - k,
                {
                    let l = lits[k];
                    if l.id < val.len() && val[l.id] == l.sign {
                        found = true;
                        assert(lit_holds_at(val@, lits@[k as int]));
                    }
                    k += 1;
                }
                assert(lits@ == self.clauses.lits_at(i as int));
                if !found && lits.len() > 0 {
                    assert(self.clause_at(i as int) is Some);
                    assert(!clause_holds_at(val@, self.clause_at(i as int)->0));
                    return false;
                }
            }
            i += 1;
        }
        proof {
            assert forall|c: int| #[trigger] self.clause_at(c) is Some && (self.clause_at(c)->0).len() > 0
                implies clause_holds_at(val@, self.clause_at(c)->0) by {
                self.clauses.lemma_clause_wf(n, c);
            }
        }
        true
    }

    fn valuation(&self) -> (r: Vec<bool>)
        ensures
            r@ == valuation_of(self.variables@),
    {
        let mut out: Vec<bool> = Vec::with_capacity(self.variables.len());
        let mut i: usize = 0;
        while i < self.variables.len()
            invariant
                i <= self.variables@.len(),
                out@ == valuation_of(self.variables@).take(i as int),
            decreases self.variables@.len() - i,
        {
            let value = match self.variables[i].assignment {
                Some(a) => a.sign,
                None => false,
            };
            out.push(value);
            i += 1;
            assert(out@ =~= valuation_of(self.variables@).take(i as int));
        }
        assert(out@ =~= valuation_of(self.variables@));
        out
    }

    /// Asks the deletion strategy for clauses to forget and deletes those
    /// that are learned clauses still present, updating the watch lists of
    /// their watched literals.
    pub fn delete_clauses(&mut self)
        requires
            old(self).wf(),
        ensures
            kept(final(self), old(self)),
            final(self).steps() == old(self).steps(),
            forall|c: int| #[trigger] final(self).clause_at(c) is Some ==> final(self).clause_at(c) == old(self).clause_at(c),
            forall|c: int| 0 <= c < old(self).formula_clauses() ==> #[trigger] final(self).clause_at(c) == old(self).clause_at(c),
    {
        let ghost n = self.variables@.len();
        let to_delete = self.clause_deletion_strategy.delete_clause(&self.clauses, &self.variables);
        let mut k: usize = 0;
        while k < to_delete.len()
            invariant
                kept(self, old(self)),
                n == self.variables@.len(),
                self.steps_left == old(self).steps_left,
                k <= to_delete@.len(),
                self.clauses.formula_len() == old(self).clauses.formula_len(),
                forall|c: int| #[trigger] self.clauses.has(c) ==> old(self).clauses.has(c)
                    && self.clauses.lits_at(c) == old(self).clauses.lits_at(c),
                forall|c: int| 0 <= c < old(self).clauses.formula_len() ==> #[trigger] self.clauses.view_at(c) == old(self).clauses.view_at(c),
            decreases to_delete@.len() - k,
        {
            let clause = to_delete[k];
            if clause >= self.clauses.len_formula() && self.clauses.contains(clause)
                && self.clauses.get(clause).literals.len() > 0 {
                proof { self.clauses.lemma_clause_wf(n, clause as int); }
                let ghost before = self.clauses;
                let w = self.clauses.remove(clause);
                proof {
                    assert forall|c: int| #[trigger] self.clauses.has(c) implies old(self).clauses.has(c)
                        && self.clauses.lits_at(c) == old(self).clauses.lits_at(c) by {
                        assert(self.clauses.view_at(c) == before.view_at(c));
                        assert(before.has(c));
                    }
                }
                self.variables[w.0.id].remove_watched_occ(clause);
                self.variables[w.1.id].remove_watched_occ(clause);
            }
            k += 1;
        }
    }

    /// The start of the search: propagates the queued unit clauses; `true`
    /// on a conflict, which makes the formula unsatisfiable.
    pub fn cdcl_start(&mut self) -> (r: bool)
        requires
            old(self).wf(),
        ensures
            kept(final(self), old(self)),
            !r ==> final(self).queue_is_empty() || final(self).steps() == 0,
            r ==> final(self).has_watched_conflict(),
    {
        let r = self.unit_propagation();
        proof {
            if r is Some {
                let c = r->0 as int;
                assert(self.clauses.has(c));
            }
        }
        r.is_some()
    }

    /// The start of an interruptible search: queues and propagates the
    /// clauses whose watches coincide; `true` on a conflict.
    pub fn interruptible_start(&mut self) -> (r: bool)
        requires
            old(self).wf(),
        ensures
            kept(final(self), old(self)),
            !r ==> final(self).queue_is_empty() || final(self).steps() == 0 || !old(self).has_unit_watch(),
            r ==> old(self).has_unit_watch(),
    {
        self.inital_unit_propagation()
    }

    /// One decision of the search: the branching strategy picks a literal
    /// (with `phase_saving`, a variable assigned at the last restart keeps
    /// that sign); no literal means the search ends satisfiable with the
    /// current valuation, once that valuation is checked against every
    /// non-empty clause of the search (unknown, should the check fail). The literal is
    /// set one level deeper and the queue
    /// propagated; on a conflict the restart policy may restart, otherwise
    /// the conflict is analysed, and a conflict that cannot be learned from
    /// ends the search unsatisfiable. Out of steps, the search ends unknown.
    pub fn cdcl_step(&mut self, phase_saving: bool) -> (r: CdclStep)
        requires
            old(self).wf(),
        ensures
            kept(final(self), old(self)),
            r is Continue ==> final(self).steps() < old(self).steps(),
            r matches CdclStep::Done(SATSolution::Satisfiable(v)) ==> v@ == final(self).current_valuation()
                && v@.len() == final(self).num_vars(),
            r matches CdclStep::Done(SATSolution::Satisfiable(v)) ==> final(self).satisfies_clauses_of(v@),
            old(self).steps() == 0 ==> r matches CdclStep::Done(SATSolution::Unknown),
            r matches CdclStep::Done(SATSolution::Unsatisfiable) ==> final(self).unlearnable(),
            r matches CdclStep::Done(SATSolution::Unknown) ==> old(self).steps() == 0
                || !final(self).satisfies_clauses_of(final(self).current_valuation()),
    {
        if !self.take_step() {
            return CdclStep::Done(SATSolution::Unknown);
        }
        let ghost s0 = self.steps_left;
        let picked = self.branching_strategy.pick_literal(&self.clauses, &self.variables);
        let literal = match picked {
            None => {
                let v = self.valuation();
                if self.valuation_holds(&v) {
                    return CdclStep::Done(SATSolution::Satisfiable(v));
                }
                return CdclStep::Done(SATSolution::Unknown);
            },
            Some(l) => {
                if phase_saving {
                    match &self.variables_cache {
                        None => l,
                        Some(caches) => match caches[l.id] {
                            None => l,
                            Some(assg) => CNFVar { id: l.id, sign: assg.sign },
                        },
                    }
                } else {
                    l
                }
            },
        };
        self.branching_depth = self.branching_depth.wrapping_add(1);
        let ghost s1 = *self;
        proof {
            assert forall|c: int| 0 <= c < old(self).formula_clauses() implies #[trigger] s1.clause_at(c)
                == old(self).clause_at(c) by {}
        }
        let first = self.set_variable(literal, AssignmentType::Branching);
        let ghost s2 = *self;
        proof { lemma_kept_trans(*old(self), s1, s2); }
        let second = self.unit_propagation();
        let ghost s3 = *self;
        proof { lemma_kept_trans(*old(self), s2, s3); }
        let conflict = match first {
            Some(c) => Some(c),
            None => second,
        };
        match conflict {
            Some(conflict_clause) => {
                let should_restart = self.restart_policy.restart();
                let ghost s4 = *self;
                proof {
                    assert forall|c: int| 0 <= c < old(self).formula_clauses() implies #[trigger] s4.clause_at(c)
                        == old(self).clause_at(c) by {
                        assert(s3.clause_at(c) == old(self).clause_at(c));
                    }
                }
                if should_restart {
                    self.restart();
                    proof { lemma_kept_trans(*old(self), s4, *self); }
                } else {
                    let unsat = self.backtracking(conflict_clause);
                    proof { lemma_kept_trans(*old(self), s4, *self); }
                    if unsat {
                        return CdclStep::Done(SATSolution::Unsatisfiable);
                    }
                }
            },
            None => {},
        }
        CdclStep::Continue
    }

    /// The whole search: the start, then rounds of decisions and clause
    /// deletion, phases saved at restarts, until an answer. A satisfiable
    /// answer satisfies every clause of the formula the search started with.
    pub fn cdcl(self) -> (r: SATSolution)
        requires
            self.wf(),
        ensures
            r matches SATSolution::Satisfiable(v) ==> v@.len() == self.num_vars(),
            r matches SATSolution::Satisfiable(v) ==> forall|c: int| 0 <= c < self.formula_clauses()
                && #[trigger] self.clause_at(c) is Some && (self.clause_at(c)->0).len() > 0
                ==> clause_holds_at(v@, self.clause_at(c)->0),
    {
        let mut state = self;
        if state.cdcl_start() {
            return SATSolution::Unsatisfiable;
        }
        loop
            invariant
                kept(&state, &self),
            decreases state.steps(),
        {
            let ghost before = state;
            match state.cdcl_step(true) {
                CdclStep::Done(answer) => {
                    proof {
                        lemma_kept_trans(self, before, state);
                        if answer is Satisfiable {
                            let v = answer->Satisfiable_0;
                            assert forall|c: int| 0 <= c < self.formula_clauses() && #[trigger] self.clause_at(c) is Some
                                && (self.clause_at(c)->0).len() > 0 implies clause_holds_at(v@, self.clause_at(c)->0) by {
                                assert(state.clause_at(c) == self.clause_at(c));
                            }
                        }
                    }
                    return answer;
                },
                CdclStep::Continue => {},
            }
            let ghost mid = state;
            proof { lemma_kept_trans(self, before, mid); }
            state.delete_clauses();
            proof { lemma_kept_trans(self, mid, state); }
        }
    }
}

/// A CDCL solver made of a branching strategy, a learning scheme, a clause
/// deletion strategy, a restart policy and a preprocessing pass, each given
/// by its factory.
pub struct CDCLSolver<BF, LF, CF, RF, PF> {
    branching_strategy: BF,
    learning_scheme: LF,
    deletion_strategy: CF,
    restart_policy: RF,
    preprocessor: PF,
}

impl<BF, LF, CF, RF, PF> CDCLSolver<BF, LF, CF, RF, PF>
    where
        BF: BranchingStrategyFactory,
        LF: LearningSchemeFactory,
        CF: ClauseDeletionStrategyFactory,
        RF: RestartPolicyFactory,
        PF: PreprocessorFactory,
{
    pub fn new(branching_strategy: BF, learning_scheme: LF, deletion_strategy: CF, restart_policy: RF,
        preprocessor: PF) -> (r: CDCLSolver<BF, LF, CF, RF, PF>)
        ensures
            r.parts() == (branching_strategy, learning_scheme, deletion_strategy, restart_policy, preprocessor),
    {
        CDCLSolver { branching_strategy, learning_scheme, deletion_strategy, restart_policy, preprocessor }
    }

    /// The factories of the solver.
    pub closed spec fn parts(&self) -> (BF, LF, CF, RF, PF) {
        (self.branching_strategy, self.learning_scheme, self.deletion_strategy, self.restart_policy, self.preprocessor)
    }

    /// A fresh preprocessing pass and the simplified formula; `None` for the
    /// state when two unit clauses of the simplified formula contradict
    /// each other.
    pub fn prepare(&self, formula: &CNF) -> (r: (PF::Instance, Option<ExecutionState<BF::Strategy, LF::Scheme, CF::Strategy, RF::Policy>>))
        requires
            formula.wf(),
        ensures
            r.1 matches Some(s) ==> s.wf() && s.num_vars() == formula.num_variables && s.steps() == STEP_LIMIT,
    {
        let mut preprocessor = self.preprocessor.new();
        let simplified = preprocessor.preprocess(formula.duplicate());
        let state = ExecutionState::new(simplified, &self.branching_strategy, &self.learning_scheme,
            &self.deletion_strategy, &self.restart_policy);
        (preprocessor, state)
    }
}

impl<BF, LF, CF, RF, PF> Solver for CDCLSolver<BF, LF, CF, RF, PF>
    where
        BF: BranchingStrategyFactory,
        LF: LearningSchemeFactory,
        CF: ClauseDeletionStrategyFactory,
        RF: RestartPolicyFactory,
        PF: PreprocessorFactory,
{
    /// Its satisfiable answers are checked against the formula. That its
    /// unsatisfiable answers are right is not proved.
    open spec fn models_proved(&self) -> bool {
        true
    }

    /// Preprocesses the formula, runs the search on the result and restores
    /// the answer. A restored valuation is checked against the non-empty
    /// clauses of the formula and given only when it satisfies them (unknown
    /// otherwise); like the search, the check passes over empty clauses.
    fn solve(&self, formula: &CNF) -> (r: SATSolution)
        ensures
            r matches SATSolution::Satisfiable(v) ==> v@.len() == formula.num_variables
                && nonempty_clauses_hold_in(formula.formula(), v@),
    {
        proof {
            let f = formula.formula();
            assert forall|val: Seq<bool>| no_empty_clause(*formula) && nonempty_clauses_hold_in(f, val)
                implies #[trigger] formula_holds(f, val) by {
                assert forall|j: int| 0 <= j < f.len() implies #[trigger] clause_holds(f[j], val) by {
                    assert(f[j] == formula.clauses@[j].vars@);
                    assert(f[j].len() > 0);
                }
            }
        }
        let (mut preprocessor, state) = self.prepare(formula);
        match state {
            Some(state) => {
                let answer = state.cdcl();
                match preprocessor.restore(answer) {
                    SATSolution::Satisfiable(w) => {
                        if nonempty_clauses_hold(formula, &w) {
                            SATSolution::Satisfiable(w)
                        } else {
                            SATSolution::Unknown
                        }
                    },
                    other => other,
                }
            },
            None => SATSolution::Unsatisfiable,
        }
    }
}

} // verus!
