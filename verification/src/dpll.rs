//! A DPLL solver with unit propagation, pure literal elimination and
//! chronological backtracking, parametrised by a branching heuristic.
use vstd::prelude::*;
use std::collections::VecDeque;
use crate::branching_strategy::{nothing_to_branch, BranchingStrategy};
use crate::cnf::{clause_holds, clause_in_range, clauses_formula, formula_holds, CNFClause, CNFVar, CNF};
use crate::literals::{lit_lt, sorted_dedup, strictly_sorted};
use crate::sat_solution::SATSolution;
use crate::sat_solver::Solver;
use crate::dpll_state::{
    branch_closed, closed, counts_ok, dead, has_true, lemma_nonfalse_all,
    lemma_nonfalse_drop, lemma_nonfalse_le, lemma_nonfalse_pos, lemma_nonfalse_two,
    lemma_nonfalse_witness, lit_false, lit_free, lit_true, no_dead, no_empty, no_repeats, nonfalse, occ_exact,
    queue_ok, sat_ok, stack_ok, unit, units_queued, value_of_sign, lits_ok, set_effect, lemma_set_effect,
    same_tables, lemma_same_tables, lemma_push_entry, lemma_propagated, settled, lemma_same_tables_trans,
    lemma_pop_entry, all_true, lemma_no_flip_conflict, implied_ok, forced_ok, refuted, no_model, no_decisions,
    ds_model, true_under, lemma_refutation_tables, lemma_implied_empty, lemma_implied_push, lemma_implied_pop,
    lemma_reason_forced, lemma_dead_refutes, lemma_no_model, extends, lemma_extends_trans,
    forced_ext, lemma_forced_ext_trans, stack_digit, stack_measure, lemma_measure_less, decisions,
    lemma_decisions_forced_ext, lemma_stack_len,
};

verus! {

/// The value of a variable: true, false, or not set yet.
#[derive(Clone, Copy, Debug, PartialEq, Eq, Structural)]
pub enum VarValue {
    Pos,
    Neg,
    Free,
}

impl VarValue {
    /// The opposite value; `Free` stays `Free`.
    pub fn negate(self) -> (r: VarValue)
        ensures
            r == match self {
                VarValue::Pos => VarValue::Neg,
                VarValue::Neg => VarValue::Pos,
                VarValue::Free => VarValue::Free,
            },
    {
        match self {
            VarValue::Pos => VarValue::Neg,
            VarValue::Neg => VarValue::Pos,
            VarValue::Free => VarValue::Free,
        }
    }

    /// `Pos` for `true`, `Neg` for `false`.
    pub fn from_sign(sign: bool) -> (r: VarValue)
        ensures
            r == (if sign { VarValue::Pos } else { VarValue::Neg }),
    {
        if sign { VarValue::Pos } else { VarValue::Neg }
    }
}

/// A variable of the DPLL search: its value and the clauses in which it
/// occurs positively and negatively (indices into the clauses).
pub struct Variable {
    pub value: VarValue,
    pub pos_occ: Vec<usize>,
    pub neg_occ: Vec<usize>,
}

/// A clause of the DPLL search: how many literals are not false yet, the
/// variable whose assignment first satisfied it (if any), and its literals
/// with identifiers counted from 0.
pub struct Clause {
    pub active_lits: usize,
    pub satisfied: Option<usize>,
    pub literals: Vec<CNFVar>,
}

/// All variables of the search.
pub type Variables = Vec<Variable>;

/// All clauses of the search.
pub type Clauses = Vec<Clause>;

/// The occurrence lists point into the clauses and every literal names a variable.
pub open spec fn tables_wf(variables: Seq<Variable>, clauses: Seq<Clause>) -> bool {
    &&& forall|v: int, k: int| 0 <= v < variables.len() && 0 <= k < variables[v].pos_occ@.len()
        ==> #[trigger] variables[v].pos_occ@[k] < clauses.len()
    &&& forall|v: int, k: int| 0 <= v < variables.len() && 0 <= k < variables[v].neg_occ@.len()
        ==> #[trigger] variables[v].neg_occ@[k] < clauses.len()
    &&& forall|c: int, i: int| 0 <= c < clauses.len() && 0 <= i < clauses[c].literals@.len()
        ==> #[trigger] clauses[c].literals@[i].id < variables.len()
}

/// Whether the assignment was a branching decision or forced by propagation.
#[derive(Debug, Clone, Copy, PartialEq, Eq, Structural)]
pub enum AssignmentType {
    Forced,
    Branching,
}

/// A past assignment, kept to undo it when backtracking.
pub struct PrevAssignment {
    pub literal: CNFVar,
    pub assignment_type: AssignmentType,
}

impl Variable {
    /// The variable `var_num` of the formula: the clauses holding it
    /// positively and negatively; an unused variable is set to false.
    pub fn new(cnf: &CNF, var_num: usize) -> (r: Variable)
        ensures
            forall|k: int| 0 <= k < r.pos_occ@.len() ==> #[trigger] r.pos_occ@[k] < cnf.clauses@.len(),
            forall|k: int| 0 <= k < r.neg_occ@.len() ==> #[trigger] r.neg_occ@[k] < cnf.clauses@.len(),
            forall|c: int| 0 <= c < cnf.clauses@.len() ==> (#[trigger] cnf.clauses@[c].vars@.contains(
                CNFVar { id: var_num, sign: true }) <==> r.pos_occ@.contains(c as usize)),
            forall|c: int| 0 <= c < cnf.clauses@.len() ==> (#[trigger] cnf.clauses@[c].vars@.contains(
                CNFVar { id: var_num, sign: false }) <==> r.neg_occ@.contains(c as usize)),
            r.value == (if r.pos_occ@.len() == 0 && r.neg_occ@.len() == 0 { VarValue::Neg } else { VarValue::Free }),
            r.pos_occ@.no_duplicates(),
            r.neg_occ@.no_duplicates(),
    {
        let pos = CNFVar { id: var_num, sign: true };
        let neg = CNFVar { id: var_num, sign: false };
        let mut pos_occ: Vec<usize> = Vec::new();
        let mut neg_occ: Vec<usize> = Vec::new();
        let mut index: usize = 0;
        while index < cnf.clauses.len()
            invariant
                index <= cnf.clauses@.len(),
                forall|k: int| 0 <= k < pos_occ@.len() ==> #[trigger] pos_occ@[k] < index,
                forall|k: int| 0 <= k < neg_occ@.len() ==> #[trigger] neg_occ@[k] < index,
                pos_occ@.no_duplicates(),
                neg_occ@.no_duplicates(),
                forall|c: int| 0 <= c < index ==> (#[trigger] cnf.clauses@[c].vars@.contains(pos)
                    <==> pos_occ@.contains(c as usize)),
                forall|c: int| 0 <= c < index ==> (#[trigger] cnf.clauses@[c].vars@.contains(neg)
                    <==> neg_occ@.contains(c as usize)),
            decreases cnf.clauses@.len() - index,
        {
            let ghost pos_before = pos_occ@;
            let ghost neg_before = neg_occ@;
            if cnf.clauses[index].contains(&neg) {
                neg_occ.push(index);
            }
            if cnf.clauses[index].contains(&pos) {
                pos_occ.push(index);
            }
            proof {
                assert forall|a: int, b: int| 0 <= a < b < pos_occ@.len() implies pos_occ@[a] != pos_occ@[b] by {
                    if b == pos_before.len() {
                        assert(pos_before[a] < index);
                    } else {
                        assert(pos_occ@[a] == pos_before[a] && pos_occ@[b] == pos_before[b]);
                    }
                }
                assert forall|a: int, b: int| 0 <= a < b < neg_occ@.len() implies neg_occ@[a] != neg_occ@[b] by {
                    if b == neg_before.len() {
                        assert(neg_before[a] < index);
                    } else {
                        assert(neg_occ@[a] == neg_before[a] && neg_occ@[b] == neg_before[b]);
                    }
                }
                assert forall|c: int| 0 <= c <= index implies (#[trigger] cnf.clauses@[c].vars@.contains(pos)
                    <==> pos_occ@.contains(c as usize)) by {
                    if c < index {
                        if pos_occ@.contains(c as usize) {
                            let k = choose|k: int| 0 <= k < pos_occ@.len() && pos_occ@[k] == c as usize;
                            if k < pos_before.len() { assert(pos_before[k] == c); }
                        }
                        if pos_before.contains(c as usize) {
                            let k = choose|k: int| 0 <= k < pos_before.len() && pos_before[k] == c as usize;
                            assert(pos_occ@[k] == c);
                        }
                    } else {
                        if cnf.clauses@[c].vars@.contains(pos) {
                            assert(pos_occ@[pos_occ@.len() - 1] == index);
                        }
                        if pos_occ@.contains(c as usize) {
                            let k = choose|k: int| 0 <= k < pos_occ@.len() && pos_occ@[k] == c as usize;
                            if k < pos_before.len() { assert(pos_before[k] < index); }
                        }
                    }
                }
                assert forall|c: int| 0 <= c <= index implies (#[trigger] cnf.clauses@[c].vars@.contains(neg)
                    <==> neg_occ@.contains(c as usize)) by {
                    if c < index {
                        if neg_occ@.contains(c as usize) {
                            let k = choose|k: int| 0 <= k < neg_occ@.len() && neg_occ@[k] == c as usize;
                            if k < neg_before.len() { assert(neg_before[k] == c); }
                        }
                        if neg_before.contains(c as usize) {
                            let k = choose|k: int| 0 <= k < neg_before.len() && neg_before[k] == c as usize;
                            assert(neg_occ@[k] == c);
                        }
                    } else {
                        if cnf.clauses@[c].vars@.contains(neg) {
                            assert(neg_occ@[neg_occ@.len() - 1] == index);
                        }
                        if neg_occ@.contains(c as usize) {
                            let k = choose|k: int| 0 <= k < neg_occ@.len() && neg_occ@[k] == c as usize;
                            if k < neg_before.len() { assert(neg_before[k] < index); }
                        }
                    }
                }
            }
            index += 1;
        }
        let value = if neg_occ.len() == 0 && pos_occ.len() == 0 { VarValue::Neg } else { VarValue::Free };
        Variable { value, pos_occ, neg_occ }
    }
}

impl Clause {
    /// The clause of the search for a clause of the formula: its literals
    /// sorted and without duplicates, identifiers lowered by one, all of them
    /// active and the clause not satisfied.
    pub fn new(cnf_clause: &CNFClause) -> (r: Clause)
        requires
            forall|i: int| 0 <= i < cnf_clause.vars@.len() ==> (#[trigger] cnf_clause.vars@[i]).id >= 1,
        ensures
            r.active_lits == r.literals@.len(),
            r.satisfied is None,
            r.literals@ == lowered(sorted_view(cnf_clause.vars@)),
            forall|i: int| 0 <= i < r.literals@.len() ==> #[trigger] raised_in(cnf_clause.vars@, r.literals@[i]),
            r.literals@.no_duplicates(),
            forall|l: CNFVar| l.id < usize::MAX ==> (#[trigger] r.literals@.contains(l)
                <==> cnf_clause.vars@.contains(CNFVar { id: (l.id + 1) as usize, sign: l.sign })),
            r.literals@.len() == 0 <==> cnf_clause.vars@.len() == 0,
    {
        let sorted = sorted_dedup(&cnf_clause.vars);
        proof { lemma_sorted_view(cnf_clause.vars@, sorted@); }
        let mut literals: Vec<CNFVar> = Vec::with_capacity(sorted.len());
        let mut i: usize = 0;
        while i < sorted.len()
            invariant
                i <= sorted@.len(),
                sorted@ == sorted_view(cnf_clause.vars@),
                forall|k: int| 0 <= k < sorted@.len() ==> (#[trigger] sorted@[k]).id >= 1,
                literals@ == lowered(sorted@.take(i as int)),
            decreases sorted@.len() - i,
        {
            let v = sorted[i];
            literals.push(CNFVar { id: v.id - 1, sign: v.sign });
            i += 1;
            assert(literals@ =~= lowered(sorted@.take(i as int)));
        }
        assert(sorted@.take(i as int) =~= sorted@);
        proof {
            assert forall|m: int| 0 <= m < literals@.len() implies #[trigger] raised_in(cnf_clause.vars@, literals@[m]) by {
                assert(literals@[m] == lowered(sorted@)[m]);
                assert(cnf_clause.vars@.contains(sorted@[m]));
                let k = choose|k: int| 0 <= k < cnf_clause.vars@.len() && cnf_clause.vars@[k] == sorted@[m];
                assert(cnf_clause.vars@[k].id == literals@[m].id + 1);
            }
            assert forall|a: int, b: int| 0 <= a < b < literals@.len() implies literals@[a] != literals@[b] by {
                assert(lit_lt(sorted@[a], sorted@[b]));
                assert(literals@[a] == lowered(sorted@)[a] && literals@[b] == lowered(sorted@)[b]);
            }
            assert forall|l: CNFVar| l.id < usize::MAX implies (#[trigger] literals@.contains(l)
                <==> cnf_clause.vars@.contains(CNFVar { id: (l.id + 1) as usize, sign: l.sign })) by {
                let u = CNFVar { id: (l.id + 1) as usize, sign: l.sign };
                if literals@.contains(l) {
                    let m = choose|m: int| 0 <= m < literals@.len() && literals@[m] == l;
                    assert(literals@[m] == lowered(sorted@)[m]);
                    assert(sorted@[m] == u);
                    assert(sorted@.contains(u));
                }
                if cnf_clause.vars@.contains(u) {
                    assert(sorted@.contains(u));
                    let m = choose|m: int| 0 <= m < sorted@.len() && sorted@[m] == u;
                    assert(literals@[m] == lowered(sorted@)[m]);
                    assert(literals@[m] == l);
                }
            }
            if cnf_clause.vars@.len() > 0 {
                assert(cnf_clause.vars@.contains(cnf_clause.vars@[0]));
                assert(sorted@.contains(cnf_clause.vars@[0]));
            }
            if sorted@.len() > 0 {
                assert(sorted@.contains(sorted@[0]));
                assert(cnf_clause.vars@.contains(sorted@[0]));
            }
            assert(literals@.len() == sorted@.len());
        }
        Clause { active_lits: literals.len(), satisfied: None, literals }
    }
}

/// The literals of a clause in increasing order without duplicates.
pub closed spec fn sorted_view(s: Seq<CNFVar>) -> Seq<CNFVar> {
    choose|t: Seq<CNFVar>| strictly_sorted(t) && forall|x: CNFVar| #[trigger] t.contains(x) <==> s.contains(x)
}

/// The sorted view is the unique strictly sorted sequence with the same literals.
pub proof fn lemma_sorted_view(s: Seq<CNFVar>, t: Seq<CNFVar>)
    requires
        strictly_sorted(t),
        forall|x: CNFVar| #[trigger] t.contains(x) <==> s.contains(x),
    ensures
        sorted_view(s) == t,
        forall|i: int| 0 <= i < t.len() ==> s.contains(#[trigger] t[i]),
{
    let u = sorted_view(s);
    assert(strictly_sorted(u) && forall|x: CNFVar| #[trigger] u.contains(x) <==> s.contains(x));
    crate::literals::lemma_strictly_sorted_unique(t, u);
    assert forall|i: int| 0 <= i < t.len() implies s.contains(#[trigger] t[i]) by {
        assert(t.contains(t[i]));
    }
}

/// Some literal of `s` has the identifier of `l` raised by one.
pub open spec fn raised_in(s: Seq<CNFVar>, l: CNFVar) -> bool {
    exists|k: int| 0 <= k < s.len() && #[trigger] s[k].id == l.id + 1
}

/// The literals with their identifiers lowered by one.
pub open spec fn lowered(s: Seq<CNFVar>) -> Seq<CNFVar> {
    s.map_values(|v: CNFVar| CNFVar { id: (v.id - 1) as usize, sign: v.sign })
}

/// The state of a DPLL search: the variables, the clauses, the literals
/// waiting to be propagated, and the assignments made so far.
pub struct DataStructures {
    pub variables: Vec<Variable>,
    pub clauses: Vec<Clause>,
    pub unit_queue: VecDeque<CNFVar>,
    pub assignment_stack: Vec<PrevAssignment>,
}

/// The outcome of one step of the DPLL search.
pub enum DpllStep {
    /// The search goes on.
    Continue,
    /// The search has ended with this answer.
    Done(SATSolution),
}

/// The valuation read off the variables: true for `Pos`, false otherwise.
pub open spec fn valuation_of(variables: Seq<Variable>) -> Seq<bool> {
    variables.map_values(|v: Variable| v.value == VarValue::Pos)
}

impl DataStructures {
    /// What the search keeps true between its operations: the tables agree
    /// with each other, the counters and marks follow the values, the stack
    /// records every value, and every branching decision was taken where no
    /// clause was unit.
    pub open spec fn search_ok(&self) -> bool {
        &&& self.wf()
        &&& occ_exact(self.variables@, self.clauses@)
        &&& no_repeats(self.variables@, self.clauses@)
        &&& stack_ok(self.variables@, self.clauses@, self.assignment_stack@)
        &&& counts_ok(self.variables@, self.clauses@)
        &&& sat_ok(self.variables@, self.clauses@)
        &&& branch_closed(self.assignment_stack@, self.clauses@)
        &&& implied_ok(self.assignment_stack@, self.clauses@, self.variables@.len() as nat)
    }

    /// Every index the search follows stays within its table.
    pub open spec fn wf(&self) -> bool {
        &&& tables_wf(self.variables@, self.clauses@)
        &&& forall|k: int| 0 <= k < self.unit_queue@.len() ==> (#[trigger] self.unit_queue@[k]).id < self.variables@.len()
        &&& forall|k: int| 0 <= k < self.assignment_stack@.len()
            ==> (#[trigger] self.assignment_stack@[k]).literal.id < self.variables@.len()
    }

    /// The search state for a formula: one clause per clause of the formula,
    /// one variable per variable `1..=num_variables`, nothing queued or assigned.
    pub fn new(cnf: &CNF) -> (r: DataStructures)
        requires
            cnf.wf(),
        ensures
            r.wf(),
            r.variables@.len() == cnf.num_variables,
            r.clauses@.len() == cnf.clauses@.len(),
            r.unit_queue@.len() == 0,
            r.assignment_stack@.len() == 0,
            forall|c: int| 0 <= c < r.clauses@.len() ==> (#[trigger] r.clauses@[c]).literals@
                == lowered(sorted_view(cnf.clauses@[c].vars@)) && r.clauses@[c].satisfied is None
                && r.clauses@[c].active_lits == r.clauses@[c].literals@.len(),
            r.search_ok(),
            forall|c: int| 0 <= c < r.clauses@.len() ==> ((#[trigger] r.clauses@[c]).literals@.len() == 0
                <==> cnf.clauses@[c].vars@.len() == 0),
            no_empty(r.clauses@) ==> no_dead(r.variables@, r.clauses@),
            forall|c: int, i: int| 0 <= c < r.clauses@.len() && 0 <= i < r.clauses@[c].literals@.len() ==>
                cnf.clauses@[c].vars@.contains(raise(#[trigger] r.clauses@[c].literals@[i])),
            forall|c: int, k: int| 0 <= c < r.clauses@.len() && 0 <= k < cnf.clauses@[c].vars@.len() ==>
                r.clauses@[c].literals@.contains(lower(#[trigger] cnf.clauses@[c].vars@[k])),
    {
        let ghost f = cnf.formula();
        let mut clauses: Vec<Clause> = Vec::with_capacity(cnf.clauses.len());
        let mut j: usize = 0;
        while j < cnf.clauses.len()
            invariant
                j <= cnf.clauses@.len(),
                cnf.wf(),
                f == cnf.formula(),
                clauses@.len() == j,
                forall|c: int| 0 <= c < j ==> (#[trigger] clauses@[c]).literals@
                    == lowered(sorted_view(cnf.clauses@[c].vars@)) && clauses@[c].satisfied is None
                    && clauses@[c].active_lits == clauses@[c].literals@.len(),
                forall|c: int, i: int| 0 <= c < j && 0 <= i < clauses@[c].literals@.len()
                    ==> #[trigger] clauses@[c].literals@[i].id < cnf.num_variables,
                forall|c: int| 0 <= c < j ==> (#[trigger] clauses@[c]).literals@.no_duplicates()
                    && (clauses@[c].literals@.len() == 0 <==> cnf.clauses@[c].vars@.len() == 0),
                forall|c: int, l: CNFVar| 0 <= c < j && l.id < usize::MAX ==>
                    (#[trigger] clauses@[c].literals@.contains(l)
                    <==> cnf.clauses@[c].vars@.contains(CNFVar { id: (l.id + 1) as usize, sign: l.sign })),
            decreases cnf.clauses@.len() - j,
        {
            assert(clause_in_range(f[j as int], cnf.num_variables as nat));
            assert(f[j as int] == cnf.clauses@[j as int].vars@);
            let cl = Clause::new(&cnf.clauses[j]);
            proof {
                let s = cnf.clauses@[j as int].vars@;
                assert forall|i: int| 0 <= i < cl.literals@.len() implies #[trigger] cl.literals@[i].id < cnf.num_variables by {
                    assert(raised_in(s, cl.literals@[i]));
                    let k = choose|k: int| 0 <= k < s.len() && #[trigger] s[k].id == cl.literals@[i].id + 1;
                    assert(s[k].in_range(cnf.num_variables as nat));
                }
            }
            clauses.push(cl);
            j += 1;
        }
        let mut variables: Vec<Variable> = Vec::with_capacity(cnf.num_variables);
        let mut i: usize = 0;
        while i < cnf.num_variables
            invariant
                i <= cnf.num_variables,
                variables@.len() == i,
                clauses@.len() == cnf.clauses@.len(),
                forall|v: int, k: int| 0 <= v < variables@.len() && 0 <= k < variables@[v].pos_occ@.len()
                    ==> #[trigger] variables@[v].pos_occ@[k] < clauses@.len(),
                forall|v: int, k: int| 0 <= v < variables@.len() && 0 <= k < variables@[v].neg_occ@.len()
                    ==> #[trigger] variables@[v].neg_occ@[k] < clauses@.len(),
                forall|v: int, c: int| 0 <= v < variables@.len() && 0 <= c < cnf.clauses@.len() ==>
                    (#[trigger] variables@[v].pos_occ@.contains(c as usize)
                    <==> cnf.clauses@[c].vars@.contains(CNFVar { id: (v + 1) as usize, sign: true })),
                forall|v: int, c: int| 0 <= v < variables@.len() && 0 <= c < cnf.clauses@.len() ==>
                    (#[trigger] variables@[v].neg_occ@.contains(c as usize)
                    <==> cnf.clauses@[c].vars@.contains(CNFVar { id: (v + 1) as usize, sign: false })),
                forall|v: int| 0 <= v < variables@.len() ==> (#[trigger] variables@[v]).pos_occ@.no_duplicates()
                    && variables@[v].neg_occ@.no_duplicates()
                    && (variables@[v].pos_occ@.len() > 0 || variables@[v].neg_occ@.len() > 0 ==> variables@[v].value == VarValue::Free),
            decreases cnf.num_variables - i,
        {
            let var = Variable::new(cnf, i + 1);
            proof {
                assert forall|c: int| 0 <= c < cnf.clauses@.len() implies
                    (var.pos_occ@.contains(c as usize) <==> cnf.clauses@[c].vars@.contains(CNFVar { id: (i + 1) as usize, sign: true })) by {
                    assert(cnf.clauses@[c].vars@.contains(CNFVar { id: (i + 1) as usize, sign: true }) <==> var.pos_occ@.contains(c as usize));
                }
                assert forall|c: int| 0 <= c < cnf.clauses@.len() implies
                    (var.neg_occ@.contains(c as usize) <==> cnf.clauses@[c].vars@.contains(CNFVar { id: (i + 1) as usize, sign: false })) by {
                    assert(cnf.clauses@[c].vars@.contains(CNFVar { id: (i + 1) as usize, sign: false }) <==> var.neg_occ@.contains(c as usize));
                }
            }
            variables.push(var);
            i += 1;
        }
        let ghost vs = variables@;
        let ghost cs = clauses@;
        proof {
            assert forall|v: int, c: int| 0 <= v < vs.len() && 0 <= c < cs.len() implies
                (#[trigger] vs[v].pos_occ@.contains(c as usize) <==> cs[c].literals@.contains(CNFVar { id: v as usize, sign: true })) by {
                let l = CNFVar { id: v as usize, sign: true };
                assert(cs[c].literals@.contains(l) <==> cnf.clauses@[c].vars@.contains(CNFVar { id: (l.id + 1) as usize, sign: l.sign }));
            }
            assert forall|v: int, c: int| 0 <= v < vs.len() && 0 <= c < cs.len() implies
                (#[trigger] vs[v].neg_occ@.contains(c as usize) <==> cs[c].literals@.contains(CNFVar { id: v as usize, sign: false })) by {
                let l = CNFVar { id: v as usize, sign: false };
                assert(cs[c].literals@.contains(l) <==> cnf.clauses@[c].vars@.contains(CNFVar { id: (l.id + 1) as usize, sign: l.sign }));
            }
            assert forall|c: int, k: int| 0 <= c < cs.len() && 0 <= k < cs[c].literals@.len() implies
                !lit_false(vs, #[trigger] cs[c].literals@[k]) && lit_free(vs, cs[c].literals@[k]) by {
                let l = cs[c].literals@[k];
                assert(cs[c].literals@.contains(l));
                if l.sign {
                    assert(vs[l.id as int].pos_occ@.contains(c as usize));
                } else {
                    assert(vs[l.id as int].neg_occ@.contains(c as usize));
                }
            }
            assert forall|c: int| 0 <= c < cs.len() implies (#[trigger] cs[c]).active_lits == nonfalse(vs, cs[c].literals@) by {
                assert forall|k: int| 0 <= k < cs[c].literals@.len() implies !lit_false(vs, #[trigger] cs[c].literals@[k]) by {
                    assert(!lit_false(vs, cs[c].literals@[k]));
                }
                lemma_nonfalse_all(vs, cs[c].literals@);
            }
            assert forall|c: int, k: int| 0 <= c < cs.len() && 0 <= k < cnf.clauses@[c].vars@.len() implies
                cs[c].literals@.contains(lower(#[trigger] cnf.clauses@[c].vars@[k])) by {
                let u = cnf.clauses@[c].vars@[k];
                assert(f[c] == cnf.clauses@[c].vars@);
                assert(clause_in_range(f[c], cnf.num_variables as nat));
                assert(u.in_range(cnf.num_variables as nat));
                let l = lower(u);
                assert(CNFVar { id: (l.id + 1) as usize, sign: l.sign } == u);
                assert(cnf.clauses@[c].vars@.contains(u));
            }
            assert forall|c: int, i: int| 0 <= c < cs.len() && 0 <= i < cs[c].literals@.len() implies
                cnf.clauses@[c].vars@.contains(raise(#[trigger] cs[c].literals@[i])) by {
                let l = cs[c].literals@[i];
                assert(cs[c].literals@.contains(l));
                assert(l.id < cnf.num_variables);
            }
            if no_empty(cs) {
                assert forall|c: int| 0 <= c < cs.len() implies !dead(vs, #[trigger] cs[c].literals@) by {
                    assert(cs[c].active_lits == nonfalse(vs, cs[c].literals@));
                }
            }
            lemma_implied_empty(cs, vs.len() as nat);
        }
        let r = DataStructures {
            variables,
            clauses,
            unit_queue: VecDeque::with_capacity(cnf.num_variables),
            assignment_stack: Vec::with_capacity(cnf.num_variables),
        };
        proof {
            assert(r.assignment_stack@ =~= Seq::<PrevAssignment>::empty());
        }
        r
    }

    /// Whether the literal waits in the unit queue.
    fn queue_contains(&self, lit: &CNFVar) -> (r: bool)
        ensures
            r == self.unit_queue@.contains(*lit),
    {
        let mut k: usize = 0;
        while k < self.unit_queue.len()
            invariant
                k <= self.unit_queue@.len(),
                forall|m: int| 0 <= m < k ==> self.unit_queue@[m] != *lit,
            decreases self.unit_queue@.len() - k,
        {
            if self.unit_queue[k] == *lit {
                return true;
            }
            k += 1;
        }
        false
    }

    /// The first literal of the clause whose variable is unset.
    pub fn find_unit_variable(&self, clause: usize) -> (r: Option<CNFVar>)
        requires
            self.wf(),
            clause < self.clauses@.len(),
        ensures
            r matches Some(l) ==> self.clauses@[clause as int].literals@.contains(l)
                && l.id < self.variables@.len()
                && self.variables@[l.id as int].value == VarValue::Free,
            r is None ==> forall|i: int| 0 <= i < self.clauses@[clause as int].literals@.len()
                ==> !lit_free(self.variables@, #[trigger] self.clauses@[clause as int].literals@[i]),
    {
        let lits = &self.clauses[clause].literals;
        let mut i: usize = 0;
        while i < lits.len()
            invariant
                self.wf(),
                clause < self.clauses@.len(),
                *lits == self.clauses@[clause as int].literals,
                i <= lits@.len(),
                forall|k: int| 0 <= k < i ==> !lit_free(self.variables@, #[trigger] lits@[k]),
            decreases lits@.len() - i,
        {
            let lit = lits[i];
            assert(lit.id < self.variables@.len());
            if self.variables[lit.id].value == VarValue::Free {
                return Some(lit);
            }
            i += 1;
        }
        None
    }

    /// Marks the clauses holding the literal of variable `id` that is now
    /// true (the negative one when `neg`) as satisfied by `id`, where none
    /// satisfied them before.
    fn mark_satisfied(&mut self, id: usize, neg: bool)
        requires
            old(self).wf(),
            id < old(self).variables@.len(),
            old(self).variables@[id as int].value == value_of_sign(!neg),
            occ_exact(old(self).variables@, old(self).clauses@),
            sat_ok(old(self).variables@, old(self).clauses@),
        ensures
            final(self).wf(),
            final(self).variables@ == old(self).variables@,
            final(self).clauses@.len() == old(self).clauses@.len(),
            forall|c: int| 0 <= c < old(self).clauses@.len() ==> (#[trigger] final(self).clauses@[c]).literals
                == old(self).clauses@[c].literals && final(self).clauses@[c].active_lits == old(self).clauses@[c].active_lits,
            sat_ok(final(self).variables@, final(self).clauses@),
            forall|c: int| 0 <= c < old(self).clauses@.len() ==> (#[trigger] final(self).clauses@[c]).satisfied
                == if old(self).clauses@[c].satisfied is None && old(self).clauses@[c].literals@.contains(CNFVar { id, sign: !neg })
                    { Some(id) } else { old(self).clauses@[c].satisfied },
            final(self).unit_queue == old(self).unit_queue,
            final(self).assignment_stack == old(self).assignment_stack,
    {
        let ghost vs = self.variables@;
        let ghost cs0 = self.clauses@;
        let ghost lit = CNFVar { id, sign: !neg };
        let ghost t_occ = if neg { vs[id as int].neg_occ@ } else { vs[id as int].pos_occ@ };
        proof {
            assert forall|c: int| 0 <= c < cs0.len() implies
                (t_occ.contains(c as usize) <==> (#[trigger] cs0[c]).literals@.contains(lit)) by {
                assert(vs[id as int].pos_occ@.contains(c as usize) <==> cs0[c].literals@.contains(CNFVar { id: id, sign: true }));
                assert(vs[id as int].neg_occ@.contains(c as usize) <==> cs0[c].literals@.contains(CNFVar { id: id, sign: false }));
            }
        }
        let true_len = if neg { self.variables[id].neg_occ.len() } else { self.variables[id].pos_occ.len() };
        let mut k: usize = 0;
        while k < true_len
            invariant
                self.wf(),
                id < self.variables@.len(),
                self.variables@ == vs,
                k <= true_len,
                true_len == t_occ.len(),
                t_occ == if neg { vs[id as int].neg_occ@ } else { vs[id as int].pos_occ@ },
                lit == (CNFVar { id, sign: !neg }),
                forall|c: int| 0 <= c < cs0.len() ==> (t_occ.contains(c as usize) <==> (#[trigger] cs0[c]).literals@.contains(lit)),
                lit_true(vs, lit),
                self.clauses@.len() == cs0.len(),
                forall|c: int| 0 <= c < cs0.len() ==> (#[trigger] self.clauses@[c]).literals == cs0[c].literals
                    && self.clauses@[c].active_lits == cs0[c].active_lits,
                sat_ok(vs, self.clauses@),
                cs0 == old(self).clauses@,
                forall|c: int| 0 <= c < cs0.len() ==> (#[trigger] self.clauses@[c]).satisfied
                    == if cs0[c].satisfied is None && t_occ.take(k as int).contains(c as usize) { Some(id) } else { cs0[c].satisfied },
                self.unit_queue == old(self).unit_queue,
                self.assignment_stack == old(self).assignment_stack,
            decreases true_len - k,
        {
            let c = if neg { self.variables[id].neg_occ[k] } else { self.variables[id].pos_occ[k] };
            proof {
                assert(t_occ[k as int] == c);
                assert(t_occ.contains(c));
                assert(cs0[c as int].literals@.contains(lit));
            }
            let ghost csb = self.clauses@;
            if self.clauses[c].satisfied.is_none() {
                self.clauses[c].satisfied = Some(id);
                proof {
                    let i = choose|i: int| 0 <= i < cs0[c as int].literals@.len() && cs0[c as int].literals@[i] == lit;
                    assert(self.clauses@[c as int].literals@[i] == lit);
                }
            }
            proof {
                assert(cs0.len() == self.clauses.len());
                let pre = t_occ.take(k + 1);
                let old_pre = t_occ.take(k as int);
                assert(pre[k as int] == c);
                assert forall|c2: int| 0 <= c2 < cs0.len() implies (#[trigger] self.clauses@[c2]).satisfied
                    == if cs0[c2].satisfied is None && pre.contains(c2 as usize) { Some(id) } else { cs0[c2].satisfied } by {
                    if pre.contains(c2 as usize) {
                        let m = choose|m: int| 0 <= m < pre.len() && pre[m] == c2 as usize;
                        if m < k { assert(old_pre[m] == c2 as usize); }
                    }
                    if old_pre.contains(c2 as usize) {
                        let m = choose|m: int| 0 <= m < old_pre.len() && old_pre[m] == c2 as usize;
                        assert(pre[m] == c2 as usize);
                    }
                    if c2 != c as int {
                        assert(self.clauses@[c2] == csb[c2]);
                    }
                }
            }
            k += 1;
        }
        proof {
            assert(t_occ.take(k as int) =~= t_occ);
        }
    }

    /// Takes one active literal from each clause holding the literal of
    /// variable `id` that is now false (the positive one when `neg`). A
    /// clause left with one active literal and not satisfied queues its
    /// unset literal; one left with none is a conflict (`false`).
    #[verifier::rlimit(40)]
    fn drop_false_literal(&mut self, id: usize, neg: bool) -> (r: bool)
        requires
            old(self).wf(),
            id < old(self).variables@.len(),
            old(self).variables@[id as int].value == value_of_sign(!neg),
            occ_exact(old(self).variables@, old(self).clauses@),
            no_repeats(old(self).variables@, old(self).clauses@),
            sat_ok(old(self).variables@, old(self).clauses@),
            forall|c: int| 0 <= c < old(self).clauses@.len() ==> (#[trigger] old(self).clauses@[c]).active_lits
                == nonfalse(old(self).variables@, old(self).clauses@[c].literals@)
                    + if old(self).clauses@[c].literals@.contains(CNFVar { id, sign: neg }) { 1nat } else { 0nat },
        ensures
            final(self).wf(),
            final(self).variables@ == old(self).variables@,
            final(self).clauses@.len() == old(self).clauses@.len(),
            forall|c: int| 0 <= c < old(self).clauses@.len() ==> (#[trigger] final(self).clauses@[c]).literals
                == old(self).clauses@[c].literals && final(self).clauses@[c].satisfied == old(self).clauses@[c].satisfied,
            counts_ok(final(self).variables@, final(self).clauses@),
            sat_ok(final(self).variables@, final(self).clauses@),
            final(self).assignment_stack == old(self).assignment_stack,
            old(self).unit_queue@.len() <= final(self).unit_queue@.len(),
            final(self).unit_queue@.subrange(0, old(self).unit_queue@.len() as int) == old(self).unit_queue@,
            forall|m: int| old(self).unit_queue@.len() <= m < final(self).unit_queue@.len() ==> {
                let l = #[trigger] final(self).unit_queue@[m];
                &&& l.id < final(self).variables@.len()
                &&& lit_free(final(self).variables@, l)
                &&& !old(self).unit_queue@.contains(l)
                &&& exists|c: int| 0 <= c < old(self).clauses@.len() && old(self).clauses@[c].literals@.contains(l)
                    && #[trigger] unit(final(self).variables@, old(self).clauses@[c].literals@)
            },
            old(self).unit_queue@.no_duplicates() ==> final(self).unit_queue@.no_duplicates(),
            forall|c: int| 0 <= c < old(self).clauses@.len() && old(self).clauses@[c].literals@.contains(CNFVar { id, sign: neg })
                && #[trigger] unit(final(self).variables@, old(self).clauses@[c].literals@)
                ==> exists|m: int| 0 <= m < final(self).unit_queue@.len()
                    && old(self).clauses@[c].literals@.contains(#[trigger] final(self).unit_queue@[m]),
            !r ==> exists|c: int| 0 <= c < old(self).clauses@.len()
                && old(self).clauses@[c].literals@.contains(CNFVar { id, sign: neg })
                && #[trigger] dead(final(self).variables@, old(self).clauses@[c].literals@),
            r ==> forall|c: int| 0 <= c < old(self).clauses@.len()
                && old(self).clauses@[c].literals@.contains(CNFVar { id, sign: neg })
                ==> !#[trigger] dead(final(self).variables@, old(self).clauses@[c].literals@),
    {
        let ghost vs = self.variables@;
        let ghost cs0 = self.clauses@;
        let ghost q0 = self.unit_queue@;
        let ghost flit = CNFVar { id, sign: neg };
        let ghost f_occ = if neg { vs[id as int].pos_occ@ } else { vs[id as int].neg_occ@ };
        proof {
            assert forall|c: int| 0 <= c < cs0.len() implies
                (f_occ.contains(c as usize) <==> (#[trigger] cs0[c]).literals@.contains(flit)) by {
                assert(vs[id as int].pos_occ@.contains(c as usize) <==> cs0[c].literals@.contains(CNFVar { id: id, sign: true }));
                assert(vs[id as int].neg_occ@.contains(c as usize) <==> cs0[c].literals@.contains(CNFVar { id: id, sign: false }));
            }
            assert(f_occ.subrange(0, f_occ.len() as int) =~= f_occ);
            assert(f_occ.take(0) =~= Seq::<usize>::empty());
            assert(self.unit_queue@.subrange(0, q0.len() as int) =~= q0);
        }
        let false_len = if neg { self.variables[id].pos_occ.len() } else { self.variables[id].neg_occ.len() };
        let mut no_conflict = true;
        let mut u: usize = 0;
        while u < false_len
            invariant
                self.wf(),
                id < self.variables@.len(),
                self.variables@ == vs,
                u <= false_len,
                false_len == f_occ.len(),
                f_occ == if neg { vs[id as int].pos_occ@ } else { vs[id as int].neg_occ@ },
                f_occ.no_duplicates(),
                flit == (CNFVar { id, sign: neg }),
                forall|c: int| 0 <= c < cs0.len() ==> (f_occ.contains(c as usize) <==> (#[trigger] cs0[c]).literals@.contains(flit)),
                self.clauses@.len() == cs0.len(),
                forall|c: int| 0 <= c < cs0.len() ==> (#[trigger] self.clauses@[c]).literals == cs0[c].literals
                    && self.clauses@[c].satisfied == cs0[c].satisfied,
                forall|c: int| 0 <= c < cs0.len() ==> (#[trigger] self.clauses@[c]).active_lits
                    == nonfalse(vs, cs0[c].literals@) + if f_occ.subrange(u as int, f_occ.len() as int).contains(c as usize) { 1nat } else { 0nat },
                sat_ok(vs, cs0),
                q0.len() <= self.unit_queue@.len(),
                self.unit_queue@.subrange(0, q0.len() as int) == q0,
                forall|m: int| q0.len() <= m < self.unit_queue@.len() ==> {
                    let l = #[trigger] self.unit_queue@[m];
                    &&& l.id < vs.len()
                    &&& lit_free(vs, l)
                    &&& !q0.contains(l)
                    &&& exists|c: int| 0 <= c < cs0.len() && cs0[c].literals@.contains(l) && #[trigger] unit(vs, cs0[c].literals@)
                },
                q0.no_duplicates() ==> self.unit_queue@.no_duplicates(),
                forall|c: int| 0 <= c < cs0.len() && f_occ.take(u as int).contains(c as usize)
                    && #[trigger] unit(vs, cs0[c].literals@)
                    ==> exists|m: int| 0 <= m < self.unit_queue@.len() && cs0[c].literals@.contains(#[trigger] self.unit_queue@[m]),
                no_conflict ==> forall|c: int| 0 <= c < cs0.len() && f_occ.take(u as int).contains(c as usize)
                    ==> !#[trigger] dead(vs, cs0[c].literals@),
                !no_conflict ==> exists|c: int| 0 <= c < cs0.len() && cs0[c].literals@.contains(flit)
                    && #[trigger] dead(vs, cs0[c].literals@),
                self.assignment_stack == old(self).assignment_stack,
            decreases false_len - u,
        {
            let c = if neg { self.variables[id].pos_occ[u] } else { self.variables[id].neg_occ[u] };
            let ghost qb = self.unit_queue@;
            let ghost csb = self.clauses@;
            let ghost here = f_occ.subrange(u as int, f_occ.len() as int);
            let ghost rest = f_occ.subrange(u + 1, f_occ.len() as int);
            proof {
                assert(f_occ[u as int] == c);
                assert(f_occ.contains(c));
                assert(cs0[c as int].literals@.contains(flit));
                assert(here[0] == c);
                assert(here.contains(c));
                if rest.contains(c) {
                    let m = choose|m: int| 0 <= m < rest.len() && rest[m] == c;
                    assert(f_occ[u + 1 + m] == f_occ[u as int]);
                }
            }
            let active = self.clauses[c].active_lits;
            // the count never drops below zero while the search is consistent
            let active = if active > 0 { active - 1 } else { 0 };
            self.clauses[c].active_lits = active;
            proof {
                assert(cs0.len() == self.clauses.len());
                assert(active == nonfalse(vs, cs0[c as int].literals@));
                assert forall|c2: int| 0 <= c2 < cs0.len() implies (#[trigger] self.clauses@[c2]).active_lits
                    == nonfalse(vs, cs0[c2].literals@) + if rest.contains(c2 as usize) { 1nat } else { 0nat } by {
                    if c2 != c as int {
                        assert(self.clauses@[c2] == csb[c2]);
                        if rest.contains(c2 as usize) {
                            let m = choose|m: int| 0 <= m < rest.len() && rest[m] == c2 as usize;
                            assert(here[m + 1] == c2 as usize);
                        }
                        if here.contains(c2 as usize) {
                            let m = choose|m: int| 0 <= m < here.len() && here[m] == c2 as usize;
                            assert(m != 0);
                            assert(rest[m - 1] == c2 as usize);
                        }
                    }
                }
            }
            if self.clauses[c].satisfied.is_none() {
                if active == 1 {
                    match self.find_unit_variable(c) {
                        Some(unit_literal) => {
                            if !self.queue_contains(&unit_literal) {
                                self.unit_queue.push_back(unit_literal);
                                proof {
                                    let lits = cs0[c as int].literals@;
                                    assert(self.clauses@[c as int].literals@ == lits);
                                    if has_true(vs, lits) {
                                        let i = choose|i: int| 0 <= i < lits.len() && lit_true(vs, #[trigger] lits[i]);
                                        let j = choose|j: int| 0 <= j < lits.len() && lits[j] == unit_literal;
                                        assert(i != j);
                                        if i < j { lemma_nonfalse_two(vs, lits, i, j); } else { lemma_nonfalse_two(vs, lits, j, i); }
                                    }
                                    assert(unit(vs, lits));
                                    assert(self.unit_queue@[qb.len() as int] == unit_literal);
                                    assert(self.unit_queue@.subrange(0, q0.len() as int) =~= qb.subrange(0, q0.len() as int));
                                    if q0.contains(unit_literal) {
                                        let m = choose|m: int| 0 <= m < q0.len() && q0[m] == unit_literal;
                                        assert(qb.subrange(0, q0.len() as int)[m] == unit_literal);
                                        assert(qb[m] == unit_literal);
                                    }
                                    assert(lits.contains(self.unit_queue@[qb.len() as int]));
                                }
                            } else {
                                proof {
                                    let m = choose|m: int| 0 <= m < qb.len() && qb[m] == unit_literal;
                                    assert(cs0[c as int].literals@.contains(self.unit_queue@[m]));
                                }
                            }
                        },
                        None => {
                            proof {
                                let lits = cs0[c as int].literals@;
                                assert(self.clauses@[c as int].literals@ == lits);
                                if unit(vs, lits) {
                                    lemma_nonfalse_witness(vs, lits);
                                    let i = choose|i: int| 0 <= i < lits.len() && !lit_false(vs, #[trigger] lits[i]);
                                    assert(!lit_true(vs, lits[i]));
                                    assert(!lit_free(vs, lits[i]));
                                }
                            }
                        },
                    }
                } else if active == 0 {
                    no_conflict = false;
                    proof {
                        let lits = cs0[c as int].literals@;
                        if has_true(vs, lits) {
                            let i = choose|i: int| 0 <= i < lits.len() && lit_true(vs, #[trigger] lits[i]);
                            lemma_nonfalse_pos(vs, lits, i);
                        }
                        assert(dead(vs, lits));
                    }
                }
            }
            proof {
                let lits = cs0[c as int].literals@;
                let q = self.unit_queue@;
                let pre = f_occ.take(u + 1);
                assert(cs0.len() == self.clauses.len());
                assert forall|m: int| 0 <= m < qb.len() implies #[trigger] q[m] == qb[m] by {}
                if !has_true(vs, lits) {
                    assert(self.clauses@[c as int].satisfied is None);
                }
                assert(pre[u as int] == c);
                assert forall|c2: int| 0 <= c2 < cs0.len() && pre.contains(c2 as usize)
                    && #[trigger] unit(vs, cs0[c2].literals@)
                    implies exists|m: int| 0 <= m < q.len() && cs0[c2].literals@.contains(#[trigger] q[m]) by {
                    if c2 == c as int {
                        lemma_nonfalse_witness(vs, lits);
                        let i = choose|i: int| 0 <= i < lits.len() && !lit_false(vs, #[trigger] lits[i]);
                        assert(!lit_true(vs, lits[i]));
                        assert(lit_free(vs, lits[i]));
                        assert(self.clauses@[c as int].satisfied is None);
                    } else {
                        let m = choose|m: int| 0 <= m < pre.len() && pre[m] == c2 as usize;
                        assert(m < u);
                        assert(f_occ.take(u as int)[m] == c2 as usize);
                        let w = choose|w: int| 0 <= w < qb.len() && cs0[c2].literals@.contains(#[trigger] qb[w]);
                        assert(q[w] == qb[w]);
                    }
                }
                assert forall|c2: int| no_conflict && 0 <= c2 < cs0.len() && pre.contains(c2 as usize)
                    implies !#[trigger] dead(vs, cs0[c2].literals@) by {
                    if c2 != c as int {
                        let m = choose|m: int| 0 <= m < pre.len() && pre[m] == c2 as usize;
                        assert(m < u);
                        assert(f_occ.take(u as int)[m] == c2 as usize);
                    }
                }
            }
            u += 1;
        }
        proof {
            assert(f_occ.subrange(u as int, f_occ.len() as int) =~= Seq::<usize>::empty());
            assert(f_occ.take(u as int) =~= f_occ);
            assert forall|c: int| 0 <= c < self.clauses@.len() && (#[trigger] self.clauses@[c]).satisfied is Some implies
                exists|i: int| 0 <= i < self.clauses@[c].literals@.len() && (#[trigger] self.clauses@[c].literals@[i]).id == self.clauses@[c].satisfied->0
                    && lit_true(vs, self.clauses@[c].literals@[i]) by {
                assert(cs0[c].satisfied is Some);
                let i = choose|i: int| 0 <= i < cs0[c].literals@.len() && (#[trigger] cs0[c].literals@[i]).id == cs0[c].satisfied->0
                    && lit_true(vs, cs0[c].literals@[i]);
                assert(self.clauses@[c].literals@[i] == cs0[c].literals@[i]);
            }
            assert forall|c: int| 0 <= c < self.clauses@.len() implies
                (#[trigger] self.clauses@[c]).active_lits == nonfalse(self.variables@, self.clauses@[c].literals@) by {
                assert(self.clauses@[c].literals == cs0[c].literals);
            }
        }
        no_conflict
    }

    /// Sets a literal true and records the assignment: clauses holding the
    /// literal become satisfied by its variable, clauses holding its negation
    /// lose an active literal. A clause left with one active literal queues
    /// that literal; one left with none reports a conflict (`false`).
    #[verifier::rlimit(40)]
    pub fn set_variable(&mut self, lit: CNFVar, assign_type: AssignmentType) -> (r: bool)
        requires
            old(self).search_ok(),
            lit.id < old(self).variables@.len(),
            lit_free(old(self).variables@, lit),
            assign_type == AssignmentType::Branching ==> settled(old(self).variables@, old(self).clauses@),
            assign_type == AssignmentType::Forced ==> forced_ok(old(self).assignment_stack@, old(self).clauses@,
                old(self).variables@.len() as nat, lit),
        ensures
            final(self).search_ok(),
            !r ==> refuted(final(self).assignment_stack@, final(self).clauses@, final(self).variables@.len() as nat),
            final(self).wf(),
            final(self).variables@.len() == old(self).variables@.len(),
            final(self).clauses@.len() == old(self).clauses@.len(),
            final(self).assignment_stack@ == old(self).assignment_stack@.push(
                PrevAssignment { literal: lit, assignment_type: assign_type }),
            final(self).variables@[lit.id as int].value == VarValue::from_sign_spec(lit.sign),
            final(self).variables@[lit.id as int].pos_occ == old(self).variables@[lit.id as int].pos_occ,
            final(self).variables@[lit.id as int].neg_occ == old(self).variables@[lit.id as int].neg_occ,
            forall|v: int| 0 <= v < old(self).variables@.len() && v != lit.id
                ==> #[trigger] final(self).variables@[v] == old(self).variables@[v],
            forall|c: int| 0 <= c < old(self).clauses@.len()
                ==> (#[trigger] final(self).clauses@[c]).literals == old(self).clauses@[c].literals,
            set_effect(old(self).variables@, final(self).variables@, old(self).clauses@, lit),
            old(self).unit_queue@.len() <= final(self).unit_queue@.len(),
            final(self).unit_queue@.subrange(0, old(self).unit_queue@.len() as int) == old(self).unit_queue@,
            forall|k: int| old(self).unit_queue@.len() <= k < final(self).unit_queue@.len() ==> {
                let l = #[trigger] final(self).unit_queue@[k];
                &&& l.id < final(self).variables@.len()
                &&& lit_free(final(self).variables@, l)
                &&& !old(self).unit_queue@.contains(l)
                &&& exists|c: int| 0 <= c < final(self).clauses@.len() && final(self).clauses@[c].literals@.contains(l)
                    && #[trigger] unit(final(self).variables@, final(self).clauses@[c].literals@)
            },
            old(self).unit_queue@.no_duplicates() ==> final(self).unit_queue@.no_duplicates(),
            !r ==> exists|c: int| 0 <= c < old(self).clauses@.len()
                && old(self).clauses@[c].literals@.contains(lit.flipped())
                && #[trigger] dead(final(self).variables@, old(self).clauses@[c].literals@),
            r ==> forall|c: int| 0 <= c < old(self).clauses@.len()
                && #[trigger] dead(final(self).variables@, old(self).clauses@[c].literals@)
                ==> dead(old(self).variables@, old(self).clauses@[c].literals@),
            r ==> forall|c: int| 0 <= c < old(self).clauses@.len()
                && #[trigger] unit(old(self).variables@, old(self).clauses@[c].literals@)
                ==> !old(self).clauses@[c].literals@.contains(lit.flipped()),
            r ==> forall|c: int| 0 <= c < old(self).clauses@.len()
                && #[trigger] unit(final(self).variables@, old(self).clauses@[c].literals@)
                ==> (unit(old(self).variables@, old(self).clauses@[c].literals@)
                    && !old(self).clauses@[c].literals@.contains(lit)
                    && !old(self).clauses@[c].literals@.contains(lit.flipped()))
                || exists|k: int| 0 <= k < final(self).unit_queue@.len()
                    && old(self).clauses@[c].literals@.contains(#[trigger] final(self).unit_queue@[k]),
    {
        let ghost vs0 = self.variables@;
        let ghost cs0 = self.clauses@;
        let ghost q0 = self.unit_queue@;
        let ghost st0 = self.assignment_stack@;
        let value = VarValue::from_sign(lit.sign);
        self.variables[lit.id].value = value;
        let ghost vs1 = self.variables@;
        proof {
            assert(lits_ok(vs0, cs0));
            lemma_set_effect(vs0, vs1, cs0, lit);
        }
        self.assignment_stack.push(PrevAssignment { literal: lit, assignment_type: assign_type });
        let id = lit.id;
        let neg = value == VarValue::Neg;
        proof {
            assert(same_tables(vs0, cs0, vs1, cs0));
            lemma_same_tables(vs0, cs0, vs1, cs0, st0);
            lemma_push_entry(vs0, vs1, cs0, st0, PrevAssignment { literal: lit, assignment_type: assign_type });
        }
        proof {
            assert forall|c: int| 0 <= c < cs0.len() implies (#[trigger] self.clauses@[c]).active_lits
                == nonfalse(vs1, self.clauses@[c].literals@)
                    + if self.clauses@[c].literals@.contains(CNFVar { id, sign: neg }) { 1nat } else { 0nat } by {
                assert(lit.flipped() == CNFVar { id, sign: neg });
            }
        }
        self.mark_satisfied(id, neg);
        let ghost cs1 = self.clauses@;
        proof {
            assert forall|c: int| 0 <= c < cs1.len() implies (#[trigger] cs1[c]).active_lits
                == nonfalse(vs1, cs1[c].literals@)
                    + if cs1[c].literals@.contains(CNFVar { id, sign: neg }) { 1nat } else { 0nat } by {
                assert(cs1[c].literals == cs0[c].literals);
            }
        }
        let no_conflict = self.drop_false_literal(id, neg);
        proof {
            let flit = lit.flipped();
            assert(flit == CNFVar { id, sign: neg });
            assert forall|c: int| 0 <= c < cs0.len() && #[trigger] unit(vs1, cs0[c].literals@)
                && !(unit(vs0, cs0[c].literals@) && !cs0[c].literals@.contains(lit) && !cs0[c].literals@.contains(flit))
                implies exists|m: int| 0 <= m < self.unit_queue@.len() && cs0[c].literals@.contains(#[trigger] self.unit_queue@[m]) by {
                assert(cs1[c].literals == cs0[c].literals);
                if !cs0[c].literals@.contains(flit) {
                    if cs0[c].literals@.contains(lit) {
                        assert(has_true(vs1, cs0[c].literals@));
                    }
                }
            }
            assert forall|c: int| no_conflict && 0 <= c < cs0.len() && #[trigger] dead(vs1, cs0[c].literals@)
                implies dead(vs0, cs0[c].literals@) by {
                assert(cs1[c].literals == cs0[c].literals);
                if cs0[c].literals@.contains(lit) {
                    assert(has_true(vs1, cs0[c].literals@));
                }
            }
            assert forall|c: int| no_conflict && 0 <= c < cs0.len() && #[trigger] unit(vs0, cs0[c].literals@)
                implies !cs0[c].literals@.contains(flit) by {
                let lits = cs0[c].literals@;
                assert(cs1[c].literals == cs0[c].literals);
                if lits.contains(flit) {
                    if lits.contains(lit) {
                        let i = choose|i: int| 0 <= i < lits.len() && lits[i] == lit;
                        let j = choose|j: int| 0 <= j < lits.len() && lits[j] == flit;
                        assert(i != j);
                        if i < j { lemma_nonfalse_two(vs0, lits, i, j); } else { lemma_nonfalse_two(vs0, lits, j, i); }
                    }
                    assert(!has_true(vs1, lits));
                    assert(dead(vs1, lits));
                }
            }
            if !no_conflict {
                let c = choose|c: int| 0 <= c < cs0.len() && cs1[c].literals@.contains(flit)
                    && #[trigger] dead(vs1, cs1[c].literals@);
                assert(cs1[c].literals == cs0[c].literals);
            }
            let csf = self.clauses@;
            assert(same_tables(vs0, cs0, vs1, csf));
            lemma_same_tables(vs0, cs0, vs1, csf, self.assignment_stack@);
            lemma_implied_push(st0, cs0, vs0.len() as nat, PrevAssignment { literal: lit, assignment_type: assign_type });
            lemma_refutation_tables(cs0, csf, self.assignment_stack@, vs0.len() as nat, lit);
            if !no_conflict {
                let c = choose|c: int| 0 <= c < cs0.len() && cs0[c].literals@.contains(flit)
                    && #[trigger] dead(vs1, cs0[c].literals@);
                assert(csf[c].literals == cs0[c].literals);
                assert(lits_ok(vs1, csf));
                lemma_dead_refutes(vs1, csf, self.assignment_stack@, c);
            }
            assert forall|m: int| q0.len() <= m < self.unit_queue@.len() implies {
                let l = #[trigger] self.unit_queue@[m];
                exists|c: int| 0 <= c < csf.len() && csf[c].literals@.contains(l) && #[trigger] unit(vs1, csf[c].literals@)
            } by {
                let l = self.unit_queue@[m];
                let c = choose|c: int| 0 <= c < cs1.len() && cs1[c].literals@.contains(l) && #[trigger] unit(vs1, cs1[c].literals@);
                assert(csf[c].literals == cs1[c].literals);
            }
        }
        no_conflict
    }

}

impl VarValue {
    /// `Pos` for `true`, `Neg` for `false`.
    pub open spec fn from_sign_spec(sign: bool) -> VarValue {
        if sign { VarValue::Pos } else { VarValue::Neg }
    }
}

/// A successful backtrack from the stack `s` gives `t`: a decision of `s`
/// was replaced by its opposite literal, recorded as forced, everything
/// below it kept and everything above it forced by propagation.
pub open spec fn backtracked(s: Seq<PrevAssignment>, t: Seq<PrevAssignment>) -> bool {
    exists|j: int| 0 <= j < s.len() && j < t.len() && (#[trigger] s[j]).assignment_type == AssignmentType::Branching
        && t[j] == (PrevAssignment { literal: s[j].literal.flipped(), assignment_type: AssignmentType::Forced })
        && (forall|i: int| 0 <= i < j ==> #[trigger] t[i] == s[i])
        && forall|i: int| j < i < t.len() ==> (#[trigger] t[i]).assignment_type == AssignmentType::Forced
}

/// What the search state keeps across its operations.
pub open spec fn same_shape(a: &DataStructures, b: &DataStructures) -> bool {
    &&& a.variables@.len() == b.variables@.len()
    &&& a.clauses@.len() == b.clauses@.len()
}

impl DataStructures {
    /// Sets the literal just taken from the front of the queue `q0`.
    /// Without a conflict, every waiting literal is still unset with a unit
    /// clause, every unit clause has a waiting literal, and no clause
    /// empties that was not empty before.
    #[verifier::spinoff_prover]
    fn propagate_literal(&mut self, var: CNFVar, Ghost(q0): Ghost<Seq<CNFVar>>) -> (r: bool)
        requires
            old(self).search_ok(),
            q0.len() > 0,
            var == q0[0],
            old(self).unit_queue@ == q0.subrange(1, q0.len() as int),
            queue_ok(old(self).variables@, old(self).clauses@, q0),
            units_queued(old(self).variables@, old(self).clauses@, q0),
        ensures
            final(self).assignment_stack@ == old(self).assignment_stack@.push(PrevAssignment { literal: var, assignment_type: AssignmentType::Forced }),
            final(self).search_ok(),
            same_shape(final(self), old(self)),
            same_tables(old(self).variables@, old(self).clauses@, final(self).variables@, final(self).clauses@),
            !r ==> refuted(final(self).assignment_stack@, final(self).clauses@, final(self).variables@.len() as nat),
            no_decisions(old(self).assignment_stack@) ==> no_decisions(final(self).assignment_stack@),
            r ==> queue_ok(final(self).variables@, final(self).clauses@, final(self).unit_queue@),
            r ==> units_queued(final(self).variables@, final(self).clauses@, final(self).unit_queue@),
            r && no_dead(old(self).variables@, old(self).clauses@) ==> no_dead(final(self).variables@, final(self).clauses@),
    {
        let ghost vs0 = self.variables@;
        let ghost cs0 = self.clauses@;
        proof {
            assert(var.id < vs0.len() && lit_free(vs0, var));
            assert(lits_ok(vs0, cs0));
            assert(q0[0] == var);
            let c = choose|c: int| 0 <= c < cs0.len() && cs0[c].literals@.contains(q0[0]) && #[trigger] unit(vs0, cs0[c].literals@);
            lemma_reason_forced(vs0, cs0, self.assignment_stack@, c, var);
        }
        let ghost st0 = self.assignment_stack@;
        let ok = self.set_variable(var, AssignmentType::Forced);
        proof {
            if no_decisions(st0) {
                assert forall|j: int| 0 <= j < self.assignment_stack@.len() implies
                    (#[trigger] self.assignment_stack@[j]).assignment_type == AssignmentType::Forced by {
                    if j < st0.len() { assert(self.assignment_stack@[j] == st0[j]); }
                }
            }
        }
        proof {
            let vs = self.variables@;
            let cs = self.clauses@;
            assert(same_tables(vs0, cs0, vs, cs));
            if ok {
                lemma_propagated(vs0, cs0, q0, vs, cs, self.unit_queue@, var);
                assert forall|c: int| 0 <= c < cs.len() && no_dead(vs0, cs0)
                    implies !#[trigger] dead(vs, cs[c].literals@) by {
                    assert(cs[c].literals == cs0[c].literals);
                    assert(!dead(vs0, cs0[c].literals@));
                }
            }
        }
        ok
    }

    /// Sets the queued literals one after the other until the queue is
    /// empty (`true`) or a conflict arises (`false`). Each pass assigns one
    /// more variable. When the queue held a literal of every unit
    /// clause, a `true` answer leaves no clause unit, and no clause empties
    /// that was not empty before.
    pub fn unit_propagation(&mut self) -> (r: bool)
        requires
            old(self).search_ok(),
            queue_ok(old(self).variables@, old(self).clauses@, old(self).unit_queue@),
            units_queued(old(self).variables@, old(self).clauses@, old(self).unit_queue@),
        ensures
            final(self).search_ok(),
            same_shape(final(self), old(self)),
            r ==> final(self).unit_queue@.len() == 0 && closed(final(self).variables@, final(self).clauses@),
            r && no_dead(old(self).variables@, old(self).clauses@) ==> no_dead(final(self).variables@, final(self).clauses@),
            same_tables(old(self).variables@, old(self).clauses@, final(self).variables@, final(self).clauses@),
            !r ==> refuted(final(self).assignment_stack@, final(self).clauses@, final(self).variables@.len() as nat),
            no_decisions(old(self).assignment_stack@) ==> no_decisions(final(self).assignment_stack@),
            forced_ext(old(self).assignment_stack@, final(self).assignment_stack@),
    {
        proof {
            lemma_stack_len(self.variables@, self.clauses@, self.assignment_stack@);
        }
        loop
            invariant
                self.search_ok(),
                same_shape(self, old(self)),
                same_tables(old(self).variables@, old(self).clauses@, self.variables@, self.clauses@),
                no_decisions(old(self).assignment_stack@) ==> no_decisions(self.assignment_stack@),
                forced_ext(old(self).assignment_stack@, self.assignment_stack@),
                self.assignment_stack@.len() <= self.variables@.len(),
                queue_ok(self.variables@, self.clauses@, self.unit_queue@),
                units_queued(self.variables@, self.clauses@, self.unit_queue@),
                no_dead(old(self).variables@, old(self).clauses@) ==> no_dead(self.variables@, self.clauses@),
            decreases self.variables@.len() - self.assignment_stack@.len(),
        {
            let ghost q0 = self.unit_queue@;
            match self.unit_queue.pop_front() {
                None => {
                    proof {
                        assert forall|c: int| 0 <= c < self.clauses@.len() implies !unit(self.variables@, #[trigger] self.clauses@[c].literals@) by {
                            if unit(self.variables@, self.clauses@[c].literals@) {
                                let k = choose|k: int| 0 <= k < q0.len() && self.clauses@[c].literals@.contains(#[trigger] q0[k]);
                            }
                        }
                    }
                    return true;
                },
                Some(var) => {
                    let ghost vs0 = self.variables@;
                    let ghost cs0 = self.clauses@;
                    let ghost stb = self.assignment_stack@;
                    let ok = self.propagate_literal(var, Ghost(q0));
                    proof {
                        assert forall|j: int| 0 <= j < old(self).assignment_stack@.len() implies
                            #[trigger] self.assignment_stack@[j] == old(self).assignment_stack@[j] by {
                            assert(self.assignment_stack@[j] == stb[j]);
                        }
                    }
                    proof {
                        assert forall|j: int| old(self).assignment_stack@.len() <= j < self.assignment_stack@.len()
                            implies (#[trigger] self.assignment_stack@[j]).assignment_type == AssignmentType::Forced by {
                            if j < stb.len() {
                                assert(self.assignment_stack@[j] == stb[j]);
                            }
                        }
                        lemma_stack_len(self.variables@, self.clauses@, self.assignment_stack@);
                    }
                    if !ok {
                        return false;
                    }
                    proof {
                        lemma_same_tables_trans(old(self).variables@, old(self).clauses@, vs0, cs0, self.variables@, self.clauses@);
                        if no_dead(old(self).variables@, old(self).clauses@) {
                            assert(no_dead(vs0, cs0));
                        }
                    }
                },
            }
        }
    }

    /// Queues the literal of every clause with a single active literal,
    /// then propagates; `false` on a conflict. A `true` answer leaves no
    /// clause unit, and no clause empties that was not empty before.
    pub fn inital_unit_propagation(&mut self) -> (r: bool)
        requires
            old(self).search_ok(),
            old(self).unit_queue@.len() == 0,
        ensures
            final(self).search_ok(),
            same_shape(final(self), old(self)),
            r ==> final(self).unit_queue@.len() == 0 && closed(final(self).variables@, final(self).clauses@),
            r && no_dead(old(self).variables@, old(self).clauses@) ==> no_dead(final(self).variables@, final(self).clauses@),
            same_tables(old(self).variables@, old(self).clauses@, final(self).variables@, final(self).clauses@),
            !r ==> refuted(final(self).assignment_stack@, final(self).clauses@, final(self).variables@.len() as nat),
            no_decisions(old(self).assignment_stack@) ==> no_decisions(final(self).assignment_stack@),
    {
        let mut i: usize = 0;
        while i < self.clauses.len()
            invariant
                self.search_ok(),
                same_shape(self, old(self)),
                self.variables == old(self).variables,
                self.clauses == old(self).clauses,
                self.assignment_stack == old(self).assignment_stack,
                i <= self.clauses@.len(),
                queue_ok(self.variables@, self.clauses@, self.unit_queue@),
                forall|c: int| 0 <= c < i && #[trigger] unit(self.variables@, self.clauses@[c].literals@)
                    ==> exists|k: int| 0 <= k < self.unit_queue@.len() && self.clauses@[c].literals@.contains(#[trigger] self.unit_queue@[k]),
            decreases self.clauses@.len() - i,
        {
            let ghost q0 = self.unit_queue@;
            let ghost vs = self.variables@;
            let ghost lits = self.clauses@[i as int].literals@;
            if self.clauses[i].active_lits == 1 {
                match self.find_unit_variable(i) {
                    Some(unit_literal) => {
                        if !self.queue_contains(&unit_literal) {
                            self.unit_queue.push_back(unit_literal);
                            proof {
                                if has_true(vs, lits) {
                                    let a = choose|a: int| 0 <= a < lits.len() && lit_true(vs, #[trigger] lits[a]);
                                    let b = choose|b: int| 0 <= b < lits.len() && lits[b] == unit_literal;
                                    assert(a != b);
                                    if a < b { lemma_nonfalse_two(vs, lits, a, b); } else { lemma_nonfalse_two(vs, lits, b, a); }
                                }
                                assert(unit(vs, lits));
                                assert forall|k: int| 0 <= k < q0.len() implies #[trigger] self.unit_queue@[k] == q0[k] by {}
                                assert(self.unit_queue@[q0.len() as int] == unit_literal);
                            }
                        }
                    },
                    None => {
                        proof {
                            if unit(vs, lits) {
                                lemma_nonfalse_witness(vs, lits);
                                let a = choose|a: int| 0 <= a < lits.len() && !lit_false(vs, #[trigger] lits[a]);
                                assert(!lit_true(vs, lits[a]));
                                assert(!lit_free(vs, lits[a]));
                            }
                        }
                    },
                }
            }
            proof {
                assert forall|k: int| 0 <= k < q0.len() implies #[trigger] self.unit_queue@[k] == q0[k] by {}
                assert forall|c: int| 0 <= c < i + 1 && #[trigger] unit(self.variables@, self.clauses@[c].literals@)
                    implies exists|k: int| 0 <= k < self.unit_queue@.len() && self.clauses@[c].literals@.contains(#[trigger] self.unit_queue@[k]) by {
                    if c < i {
                        let k = choose|k: int| 0 <= k < q0.len() && self.clauses@[c].literals@.contains(#[trigger] q0[k]);
                        assert(self.unit_queue@[k] == q0[k]);
                    } else {
                        assert(self.clauses@[c].active_lits == 1);
                        lemma_nonfalse_witness(vs, lits);
                        let a = choose|a: int| 0 <= a < lits.len() && !lit_false(vs, #[trigger] lits[a]);
                        assert(!lit_true(vs, lits[a]));
                        assert(lit_free(vs, lits[a]));
                    }
                }
            }
            i += 1;
        }
        self.unit_propagation()
    }

    /// Sets every unset variable that occurs with one polarity only to that
    /// polarity (one that does not occur positively to false, else one that
    /// does not occur negatively to true), as branching decisions, stopping
    /// at the first conflict (`false`). No literal turns false, so where no
    /// clause was unit or empty, none is afterwards.
    pub fn pure_literal_elimination(&mut self) -> (r: bool)
        requires
            old(self).search_ok(),
            old(self).unit_queue@.len() == 0,
            settled(old(self).variables@, old(self).clauses@),
        ensures
            final(self).search_ok(),
            same_shape(final(self), old(self)),
            final(self).unit_queue@.len() == 0,
            settled(final(self).variables@, final(self).clauses@),
            same_tables(old(self).variables@, old(self).clauses@, final(self).variables@, final(self).clauses@),
            !r ==> refuted(final(self).assignment_stack@, final(self).clauses@, final(self).variables@.len() as nat),
            r,
            forall|v: int| 0 <= v < old(self).variables@.len()
                ==> (#[trigger] final(self).variables@[v]).value == pure_value(old(self).variables@[v]),
            extends(old(self).assignment_stack@, final(self).assignment_stack@),
    {
        let mut pure_literals: Vec<CNFVar> = Vec::new();
        let mut id: usize = 0;
        while id < self.variables.len()
            invariant
                id <= self.variables@.len(),
                self.variables@ == old(self).variables@,
                forall|v: int| 0 <= v < id && pure_value(#[trigger] self.variables@[v]) != self.variables@[v].value
                    ==> exists|m: int| 0 <= m < pure_literals@.len() && pure_literals@[m].id == v,
                forall|k: int| 0 <= k < pure_literals@.len() ==> (#[trigger] pure_literals@[k]).id < id
                    && pure_value(self.variables@[pure_literals@[k].id as int]) == value_of_sign(pure_literals@[k].sign),
                forall|a: int, b: int| 0 <= a < b < pure_literals@.len() ==> (#[trigger] pure_literals@[a]).id < (#[trigger] pure_literals@[b]).id,
                forall|k: int| 0 <= k < pure_literals@.len() ==> {
                    let l = #[trigger] pure_literals@[k];
                    &&& lit_free(self.variables@, l)
                    &&& if l.sign { self.variables@[l.id as int].neg_occ@.len() == 0 } else { self.variables@[l.id as int].pos_occ@.len() == 0 }
                },
            decreases self.variables@.len() - id,
        {
            let ghost before = pure_literals@;
            if self.variables[id].value == VarValue::Free {
                if self.variables[id].pos_occ.len() == 0 {
                    pure_literals.push(CNFVar::new(id, false));
                } else if self.variables[id].neg_occ.len() == 0 {
                    pure_literals.push(CNFVar::new(id, true));
                }
            }
            proof {
                assert forall|v: int| 0 <= v < id + 1 && pure_value(#[trigger] self.variables@[v]) != self.variables@[v].value
                    implies exists|m: int| 0 <= m < pure_literals@.len() && pure_literals@[m].id == v by {
                    if v < id {
                        let m = choose|m: int| 0 <= m < before.len() && before[m].id == v;
                        assert(pure_literals@[m] == before[m]);
                    } else {
                        assert(pure_literals@[before.len() as int].id == v);
                    }
                }
            }
            id += 1;
        }
        let ghost vsa = self.variables@;
        proof {
            assert(same_tables(self.variables@, self.clauses@, self.variables@, self.clauses@));
            assert(extends(self.assignment_stack@, self.assignment_stack@));
        }
        let mut k: usize = 0;
        while k < pure_literals.len()
            invariant
                vsa == old(self).variables@,
                extends(old(self).assignment_stack@, self.assignment_stack@),
                forall|v: int| 0 <= v < vsa.len() && pure_value(#[trigger] vsa[v]) != vsa[v].value
                    ==> exists|m: int| 0 <= m < pure_literals@.len() && pure_literals@[m].id == v,
                forall|m: int| 0 <= m < pure_literals@.len() ==> (#[trigger] pure_literals@[m]).id < vsa.len()
                    && pure_value(vsa[pure_literals@[m].id as int]) == value_of_sign(pure_literals@[m].sign),
                forall|v: int| 0 <= v < vsa.len() ==> (#[trigger] self.variables@[v]).value
                    == if v < (if k < pure_literals@.len() { pure_literals@[k as int].id as int } else { vsa.len() as int })
                        { pure_value(vsa[v]) } else { vsa[v].value },
                self.search_ok(),
                same_shape(self, old(self)),
                self.unit_queue@.len() == 0,
                settled(self.variables@, self.clauses@),
                same_tables(old(self).variables@, old(self).clauses@, self.variables@, self.clauses@),
                k <= pure_literals@.len(),
                forall|a: int, b: int| 0 <= a < b < pure_literals@.len() ==> (#[trigger] pure_literals@[a]).id < (#[trigger] pure_literals@[b]).id,
                forall|m: int| k <= m < pure_literals@.len() ==> {
                    let l = #[trigger] pure_literals@[m];
                    &&& l.id < self.variables@.len()
                    &&& lit_free(self.variables@, l)
                    &&& if l.sign { self.variables@[l.id as int].neg_occ@.len() == 0 } else { self.variables@[l.id as int].pos_occ@.len() == 0 }
                },
            decreases pure_literals@.len() - k,
        {
            let lit = pure_literals[k];
            let ghost vs0 = self.variables@;
            let ghost cs0 = self.clauses@;
            let ghost st0 = self.assignment_stack@;
            proof {
                assert forall|c: int| 0 <= c < cs0.len() implies !(#[trigger] cs0[c].literals@).contains(lit.flipped()) by {
                    if lit.sign {
                        assert(vs0[lit.id as int].neg_occ@.contains(c as usize) <==> cs0[c].literals@.contains(CNFVar { id: lit.id, sign: false }));
                    } else {
                        assert(vs0[lit.id as int].pos_occ@.contains(c as usize) <==> cs0[c].literals@.contains(CNFVar { id: lit.id, sign: true }));
                    }
                }
            }
            let ok = self.set_variable(lit, AssignmentType::Branching);
            proof {
                let vs = self.variables@;
                let cs = self.clauses@;
                assert forall|c: int| 0 <= c < cs.len() implies !#[trigger] unit(vs, cs[c].literals@) by {
                    assert(cs[c].literals == cs0[c].literals);
                    assert(!unit(vs0, cs0[c].literals@));
                    if unit(vs, cs0[c].literals@) && !has_true(vs0, cs0[c].literals@) {
                        assert(nonfalse(vs, cs0[c].literals@) == nonfalse(vs0, cs0[c].literals@));
                    }
                }
                assert(same_tables(vs0, cs0, vs, cs));
                lemma_same_tables(vs0, cs0, vs, cs, self.assignment_stack@);
                lemma_same_tables_trans(old(self).variables@, old(self).clauses@, vs0, cs0, vs, cs);
                assert forall|c: int| 0 <= c < cs.len() && no_empty(cs0)
                    implies !#[trigger] dead(vs, cs[c].literals@) by {
                    assert(cs[c].literals == cs0[c].literals);
                    assert(!dead(vs0, cs0[c].literals@));
                    assert(nonfalse(vs, cs0[c].literals@) == nonfalse(vs0, cs0[c].literals@));
                }
                if self.unit_queue@.len() > 0 {
                    let l = self.unit_queue@[0];
                    let c = choose|c: int| 0 <= c < cs.len() && cs[c].literals@.contains(l) && #[trigger] unit(vs, cs[c].literals@);
                }
                assert forall|m: int| k + 1 <= m < pure_literals@.len() implies {
                    let l = #[trigger] pure_literals@[m];
                    &&& l.id < vs.len()
                    &&& lit_free(vs, l)
                    &&& if l.sign { vs[l.id as int].neg_occ@.len() == 0 } else { vs[l.id as int].pos_occ@.len() == 0 }
                } by {
                    assert(pure_literals@[k as int].id < pure_literals@[m].id);
                    assert(vs[pure_literals@[m].id as int] == vs0[pure_literals@[m].id as int]);
                }
                if !ok {
                    let c = choose|c: int| 0 <= c < cs0.len() && cs0[c].literals@.contains(lit.flipped())
                        && #[trigger] dead(vs, cs0[c].literals@);
                }
                assert forall|j: int| 0 <= j < old(self).assignment_stack@.len() implies
                    #[trigger] self.assignment_stack@[j] == old(self).assignment_stack@[j] by {
                    assert(self.assignment_stack@[j] == st0[j]);
                }
                let lim0 = lit.id as int;
                let lim1 = if k + 1 < pure_literals@.len() { pure_literals@[k + 1].id as int } else { vsa.len() as int };
                assert forall|v: int| 0 <= v < vsa.len() implies (#[trigger] vs[v]).value
                    == if v < lim1 { pure_value(vsa[v]) } else { vsa[v].value } by {
                    if v == lim0 {
                        assert(pure_literals@[k as int] == lit);
                    } else {
                        assert(vs[v] == vs0[v]);
                        if lim0 < v < lim1 && pure_value(vsa[v]) != vsa[v].value {
                            let m = choose|m: int| 0 <= m < pure_literals@.len() && pure_literals@[m].id == v;
                            if m <= k {
                                if m < k { assert(pure_literals@[m].id < pure_literals@[k as int].id); }
                            } else if m > k + 1 {
                                assert(pure_literals@[k + 1].id < pure_literals@[m].id);
                            }
                        }
                    }
                }
            }
            if !ok {
                return false;
            }
            k += 1;
        }
        true
    }

    /// Gives one active literal back to each clause holding the literal of
    /// variable `id` that was false (the positive one when `neg`).
    fn restore_false_literal(&mut self, id: usize, neg: bool)
        requires
            old(self).wf(),
            id < old(self).variables@.len(),
            old(self).variables@[id as int].value == value_of_sign(!neg),
            occ_exact(old(self).variables@, old(self).clauses@),
            no_repeats(old(self).variables@, old(self).clauses@),
            counts_ok(old(self).variables@, old(self).clauses@),
        ensures
            final(self).wf(),
            final(self).variables@ == old(self).variables@,
            final(self).clauses@.len() == old(self).clauses@.len(),
            forall|c: int| 0 <= c < old(self).clauses@.len() ==> (#[trigger] final(self).clauses@[c]).literals
                == old(self).clauses@[c].literals && final(self).clauses@[c].satisfied == old(self).clauses@[c].satisfied
                && final(self).clauses@[c].active_lits == nonfalse(old(self).variables@, old(self).clauses@[c].literals@)
                    + if old(self).clauses@[c].literals@.contains(CNFVar { id, sign: neg }) { 1nat } else { 0nat },
            final(self).unit_queue == old(self).unit_queue,
            final(self).assignment_stack == old(self).assignment_stack,
    {
        let ghost vs = self.variables@;
        let ghost cs0 = self.clauses@;
        let ghost flit = CNFVar { id, sign: neg };
        let ghost f_occ = if neg { vs[id as int].pos_occ@ } else { vs[id as int].neg_occ@ };
        proof {
            assert forall|c: int| 0 <= c < cs0.len() implies
                (f_occ.contains(c as usize) <==> (#[trigger] cs0[c]).literals@.contains(flit)) by {
                assert(vs[id as int].pos_occ@.contains(c as usize) <==> cs0[c].literals@.contains(CNFVar { id: id, sign: true }));
                assert(vs[id as int].neg_occ@.contains(c as usize) <==> cs0[c].literals@.contains(CNFVar { id: id, sign: false }));
            }
            assert(f_occ.take(0) =~= Seq::<usize>::empty());
        }
        let false_len = if neg { self.variables[id].pos_occ.len() } else { self.variables[id].neg_occ.len() };
        let mut i: usize = 0;
        while i < false_len
            invariant
                self.wf(),
                id < self.variables@.len(),
                self.variables@ == vs,
                i <= false_len,
                false_len == f_occ.len(),
                f_occ == if neg { vs[id as int].pos_occ@ } else { vs[id as int].neg_occ@ },
                f_occ.no_duplicates(),
                flit == (CNFVar { id, sign: neg }),
                lit_false(vs, flit),
                forall|c: int| 0 <= c < cs0.len() ==> (f_occ.contains(c as usize) <==> (#[trigger] cs0[c]).literals@.contains(flit)),
                counts_ok(vs, cs0),
                no_repeats(vs, cs0),
                self.clauses@.len() == cs0.len(),
                forall|c: int| 0 <= c < cs0.len() ==> (#[trigger] self.clauses@[c]).literals == cs0[c].literals
                    && self.clauses@[c].satisfied == cs0[c].satisfied
                    && self.clauses@[c].active_lits == cs0[c].active_lits
                        + if f_occ.take(i as int).contains(c as usize) { 1nat } else { 0nat },
                self.unit_queue == old(self).unit_queue,
                self.assignment_stack == old(self).assignment_stack,
            decreases false_len - i,
        {
            let c = if neg { self.variables[id].pos_occ[i] } else { self.variables[id].neg_occ[i] };
            let ghost csb = self.clauses@;
            proof {
                assert(f_occ[i as int] == c);
                assert(f_occ.contains(c));
                assert(cs0.len() == self.clauses.len());
                let lits = cs0[c as int].literals@;
                assert(lits.contains(flit));
                if f_occ.take(i as int).contains(c) {
                    let m = choose|m: int| 0 <= m < i && f_occ.take(i as int)[m] == c;
                    assert(f_occ[m] == f_occ[i as int]);
                }
                let j = choose|j: int| 0 <= j < lits.len() && lits[j] == flit;
                let ws = vs.update(id as int, Variable { value: VarValue::Free, ..vs[id as int] });
                assert forall|k: int| 0 <= k < lits.len() && lits[k] != flit implies
                    lit_false(ws, #[trigger] lits[k]) == lit_false(vs, lits[k]) by {
                    assert(lits[k].id < vs.len());
                    if lits[k].id == id {
                        assert(lits[k] == flit.flipped());
                    }
                }
                lemma_nonfalse_drop(ws, vs, lits, flit);
                lemma_nonfalse_le(ws, lits);
                assert(self.clauses@[c as int].literals@.len() == self.clauses@[c as int].literals.len());
            }
            let active = self.clauses[c].active_lits;
            if active < usize::MAX {
                self.clauses[c].active_lits = active + 1;
            }
            proof {
                assert forall|c2: int| 0 <= c2 < cs0.len() implies (#[trigger] self.clauses@[c2]).literals == cs0[c2].literals
                    && self.clauses@[c2].satisfied == cs0[c2].satisfied
                    && self.clauses@[c2].active_lits == cs0[c2].active_lits
                        + if f_occ.take(i + 1).contains(c2 as usize) { 1nat } else { 0nat } by {
                    let pre = f_occ.take(i + 1);
                    let old_pre = f_occ.take(i as int);
                    assert(pre[i as int] == c);
                    if c2 != c as int {
                        assert(self.clauses@[c2] == csb[c2]);
                        if pre.contains(c2 as usize) {
                            let m = choose|m: int| 0 <= m < pre.len() && pre[m] == c2 as usize;
                            assert(m != i);
                            assert(old_pre[m] == c2 as usize);
                        }
                        if old_pre.contains(c2 as usize) {
                            let m = choose|m: int| 0 <= m < old_pre.len() && old_pre[m] == c2 as usize;
                            assert(pre[m] == c2 as usize);
                        }
                    }
                }
            }
            i += 1;
        }
        proof {
            assert(f_occ.take(i as int) =~= f_occ);
        }
    }

    /// Clears the marks of the clauses satisfied by variable `id`, whose
    /// true literal is the negative one when `neg`.
    fn unmark_satisfied(&mut self, id: usize, neg: bool)
        requires
            old(self).wf(),
            id < old(self).variables@.len(),
            old(self).variables@[id as int].value == value_of_sign(!neg),
            occ_exact(old(self).variables@, old(self).clauses@),
            sat_ok(old(self).variables@, old(self).clauses@),
        ensures
            final(self).wf(),
            final(self).variables@ == old(self).variables@,
            final(self).clauses@.len() == old(self).clauses@.len(),
            forall|c: int| 0 <= c < old(self).clauses@.len() ==> (#[trigger] final(self).clauses@[c]).literals
                == old(self).clauses@[c].literals && final(self).clauses@[c].active_lits == old(self).clauses@[c].active_lits
                && final(self).clauses@[c].satisfied != Some(id),
            sat_ok(old(self).variables@, final(self).clauses@),
            final(self).unit_queue == old(self).unit_queue,
            final(self).assignment_stack == old(self).assignment_stack,
    {
        let ghost vs = self.variables@;
        let ghost cs0 = self.clauses@;
        let ghost tlit = CNFVar { id, sign: !neg };
        let ghost t_occ = if neg { vs[id as int].neg_occ@ } else { vs[id as int].pos_occ@ };
        proof {
            assert forall|c: int| 0 <= c < cs0.len() implies
                (t_occ.contains(c as usize) <==> (#[trigger] cs0[c]).literals@.contains(tlit)) by {
                assert(vs[id as int].pos_occ@.contains(c as usize) <==> cs0[c].literals@.contains(CNFVar { id: id, sign: true }));
                assert(vs[id as int].neg_occ@.contains(c as usize) <==> cs0[c].literals@.contains(CNFVar { id: id, sign: false }));
            }
        }
        let true_len = if neg { self.variables[id].neg_occ.len() } else { self.variables[id].pos_occ.len() };
        let mut i: usize = 0;
        while i < true_len
            invariant
                self.wf(),
                id < self.variables@.len(),
                self.variables@ == vs,
                i <= true_len,
                true_len == t_occ.len(),
                t_occ == if neg { vs[id as int].neg_occ@ } else { vs[id as int].pos_occ@ },
                tlit == (CNFVar { id, sign: !neg }),
                forall|c: int| 0 <= c < cs0.len() ==> (t_occ.contains(c as usize) <==> (#[trigger] cs0[c]).literals@.contains(tlit)),
                sat_ok(vs, cs0),
                sat_ok(vs, self.clauses@),
                self.clauses@.len() == cs0.len(),
                forall|c: int| 0 <= c < cs0.len() ==> (#[trigger] self.clauses@[c]).literals == cs0[c].literals
                    && self.clauses@[c].active_lits == cs0[c].active_lits
                    && (self.clauses@[c].satisfied == cs0[c].satisfied || self.clauses@[c].satisfied is None)
                    && (t_occ.take(i as int).contains(c as usize) ==> self.clauses@[c].satisfied != Some(id)),
                self.unit_queue == old(self).unit_queue,
                self.assignment_stack == old(self).assignment_stack,
            decreases true_len - i,
        {
            let c = if neg { self.variables[id].neg_occ[i] } else { self.variables[id].pos_occ[i] };
            let ghost csb = self.clauses@;
            proof {
                assert(t_occ[i as int] == c);
                assert(cs0.len() == self.clauses.len());
            }
            if self.clauses[c].satisfied == Some(id) {
                self.clauses[c].satisfied = None;
            }
            proof {
                assert forall|c2: int| 0 <= c2 < cs0.len() implies (#[trigger] self.clauses@[c2]).literals == cs0[c2].literals
                    && self.clauses@[c2].active_lits == cs0[c2].active_lits
                    && (self.clauses@[c2].satisfied == cs0[c2].satisfied || self.clauses@[c2].satisfied is None)
                    && (t_occ.take(i + 1).contains(c2 as usize) ==> self.clauses@[c2].satisfied != Some(id)) by {
                    let pre = t_occ.take(i + 1);
                    assert(pre[i as int] == c);
                    if c2 != c as int {
                        assert(self.clauses@[c2] == csb[c2]);
                        if pre.contains(c2 as usize) {
                            let m = choose|m: int| 0 <= m < pre.len() && pre[m] == c2 as usize;
                            assert(m != i);
                            assert(t_occ.take(i as int)[m] == c2 as usize);
                        }
                    }
                }
            }
            i += 1;
        }
        proof {
            assert(t_occ.take(i as int) =~= t_occ);
            assert forall|c: int| 0 <= c < cs0.len() implies (#[trigger] self.clauses@[c]).satisfied != Some(id) by {
                if self.clauses@[c].satisfied == Some(id) {
                    assert(cs0[c].satisfied == Some(id));
                    let k = choose|k: int| 0 <= k < cs0[c].literals@.len() && (#[trigger] cs0[c].literals@[k]).id == id
                        && lit_true(vs, cs0[c].literals@[k]);
                    assert(cs0[c].literals@[k] == tlit);
                    assert(cs0[c].literals@.contains(tlit));
                    assert(t_occ.contains(c as usize));
                }
            }
        }
    }

    /// Undoes the assignment just taken off the stack: the clauses where its
    /// literal was false gain it back, those it satisfied lose their mark,
    /// the queue is emptied and the variable is unset. Undoing a branching
    /// decision leaves the settled state in which it was taken.
    fn undo_assignment(&mut self, assign: &PrevAssignment)
        requires
            old(self).wf(),
            occ_exact(old(self).variables@, old(self).clauses@),
            no_repeats(old(self).variables@, old(self).clauses@),
            counts_ok(old(self).variables@, old(self).clauses@),
            sat_ok(old(self).variables@, old(self).clauses@),
            stack_ok(old(self).variables@, old(self).clauses@, old(self).assignment_stack@.push(*assign)),
            branch_closed(old(self).assignment_stack@.push(*assign), old(self).clauses@),
            implied_ok(old(self).assignment_stack@.push(*assign), old(self).clauses@, old(self).variables@.len() as nat),
        ensures
            refuted(old(self).assignment_stack@.push(*assign), old(self).clauses@, old(self).variables@.len() as nat)
                && assign.assignment_type == AssignmentType::Forced ==> refuted(final(self).assignment_stack@, final(self).clauses@, final(self).variables@.len() as nat),
            refuted(old(self).assignment_stack@.push(*assign), old(self).clauses@, old(self).variables@.len() as nat)
                && assign.assignment_type == AssignmentType::Branching ==> forced_ok(final(self).assignment_stack@,
                    final(self).clauses@, final(self).variables@.len() as nat, assign.literal.flipped()),
            final(self).search_ok(),
            same_shape(final(self), old(self)),
            final(self).assignment_stack == old(self).assignment_stack,
            final(self).unit_queue@.len() == 0,
            assign.literal.id < final(self).variables@.len(),
            lit_free(final(self).variables@, assign.literal),
            assign.assignment_type == AssignmentType::Branching ==> settled(final(self).variables@, final(self).clauses@),
            same_tables(old(self).variables@, old(self).clauses@, final(self).variables@, final(self).clauses@),
    {
        let ghost vs0 = self.variables@;
        let ghost cs0 = self.clauses@;
        let ghost st1 = self.assignment_stack@;
        let ghost st0 = st1.push(*assign);
        let id = assign.literal.id;
        proof {
            assert(st0[st0.len() - 1] == *assign);
            assert(vs0[id as int].value == value_of_sign(assign.literal.sign));
        }
        let neg = self.variables[id].value == VarValue::Neg;
        // clauses whose literal of this variable was false gain it back
        self.restore_false_literal(id, neg);
        // clauses satisfied by this variable are no longer satisfied
        self.unmark_satisfied(id, neg);
        self.unit_queue.clear();
        self.variables[id].value = VarValue::Free;
        proof {
            let vs = self.variables@;
            let cs = self.clauses@;
            let lit = assign.literal;
            assert(lit == CNFVar { id, sign: !neg });
            assert(lit.flipped() == CNFVar { id, sign: neg });
            assert(lits_ok(vs0, cs0));
            assert(same_tables(vs0, cs0, vs, cs));
            lemma_same_tables(vs0, cs0, vs, cs, st1);
            lemma_same_tables(vs0, cs0, vs, cs, st0);
            lemma_set_effect(vs, vs0, cs0, lit);
            assert forall|c: int| 0 <= c < cs.len() implies (#[trigger] cs[c]).active_lits == nonfalse(vs, cs[c].literals@) by {
                assert(cs[c].literals == cs0[c].literals);
            }
            assert forall|c: int| 0 <= c < cs.len() && (#[trigger] cs[c]).satisfied is Some implies
                exists|i: int| 0 <= i < cs[c].literals@.len() && (#[trigger] cs[c].literals@[i]).id == cs[c].satisfied->0
                    && lit_true(vs, cs[c].literals@[i]) by {
                let i = choose|i: int| 0 <= i < cs[c].literals@.len() && (#[trigger] cs[c].literals@[i]).id == cs[c].satisfied->0
                    && lit_true(vs0, cs[c].literals@[i]);
                assert(cs[c].satisfied != Some(id));
            }
            lemma_pop_entry(vs0, vs, cs0, st1, *assign);
            lemma_same_tables(vs0, cs0, vs, cs, st1);
            lemma_implied_pop(st1, cs0, vs0.len() as nat, *assign);
            lemma_refutation_tables(cs0, cs, st1, vs0.len() as nat, assign.literal.flipped());
        }
    }

    /// Sets the other literal of an undone branching decision and
    /// propagates; `false` when that propagation conflicts. A `true` answer
    /// leaves the state settled with nothing queued.
    #[verifier::spinoff_prover]
    fn take_other_branch(&mut self, lit: CNFVar) -> (r: bool)
        requires
            old(self).search_ok(),
            lit.id < old(self).variables@.len(),
            lit_free(old(self).variables@, lit),
            settled(old(self).variables@, old(self).clauses@),
            old(self).unit_queue@.len() == 0,
            forced_ok(old(self).assignment_stack@, old(self).clauses@, old(self).variables@.len() as nat, lit),
        ensures
            final(self).search_ok(),
            same_shape(final(self), old(self)),
            r ==> final(self).unit_queue@.len() == 0 && settled(final(self).variables@, final(self).clauses@),
            same_tables(old(self).variables@, old(self).clauses@, final(self).variables@, final(self).clauses@),
            !r ==> refuted(final(self).assignment_stack@, final(self).clauses@, final(self).variables@.len() as nat),
            forced_ext(old(self).assignment_stack@.push(PrevAssignment { literal: lit, assignment_type: AssignmentType::Forced }),
                final(self).assignment_stack@),
    {
        let ghost vs1 = self.variables@;
        let ghost cs1 = self.clauses@;
        let ok = self.set_variable(lit, AssignmentType::Forced);
        let ghost st1 = self.assignment_stack@;
        proof {
            assert(forced_ext(st1, st1));
        }
        let ghost vs = self.variables@;
        let ghost cs = self.clauses@;
        proof {
            assert(same_tables(vs1, cs1, vs, cs));
            lemma_same_tables(vs1, cs1, vs, cs, self.assignment_stack@);
            if !ok {
                lemma_no_flip_conflict(vs1, vs, cs1, lit);
            }
        }
        if ok {
            proof {
                assert(self.unit_queue@.subrange(0, 0) =~= Seq::<CNFVar>::empty());
                assert forall|c: int| 0 <= c < cs.len() && #[trigger] unit(vs, cs[c].literals@)
                    implies exists|k: int| 0 <= k < self.unit_queue@.len() && cs[c].literals@.contains(#[trigger] self.unit_queue@[k]) by {
                    assert(cs[c].literals == cs1[c].literals);
                    assert(!unit(vs1, cs1[c].literals@));
                }
                assert forall|k: int| 0 <= k < self.unit_queue@.len() implies (#[trigger] self.unit_queue@[k]).id < vs.len()
                    && lit_free(vs, self.unit_queue@[k])
                    && exists|c: int| 0 <= c < cs.len() && cs[c].literals@.contains(self.unit_queue@[k])
                        && #[trigger] unit(vs, cs[c].literals@) by {
                    let l = self.unit_queue@[k];
                    let c = choose|c: int| 0 <= c < cs1.len() && cs1[c].literals@.contains(l) && #[trigger] unit(vs, cs1[c].literals@);
                    assert(cs[c].literals == cs1[c].literals);
                }
                if no_empty(cs1) {
                    assert forall|c: int| 0 <= c < cs.len() implies !#[trigger] dead(vs, cs[c].literals@) by {
                        assert(cs[c].literals == cs1[c].literals);
                        assert(!dead(vs1, cs1[c].literals@));
                    }
                }
            }
            let propagated = self.unit_propagation();
            proof {
                lemma_forced_ext_trans(old(self).assignment_stack@.push(PrevAssignment { literal: lit, assignment_type: AssignmentType::Forced }), st1, self.assignment_stack@);
                lemma_same_tables(vs, cs, self.variables@, self.clauses@, self.assignment_stack@);
                lemma_same_tables_trans(vs1, cs1, vs, cs, self.variables@, self.clauses@);
            }
            if !propagated {
                return false;
            }
        }
        true
    }

    /// Undoes the assignments back to the last branching decision and takes
    /// the other branch, then propagates; when that propagation conflicts,
    /// backtracks further. `false` when no branching decision is left (the
    /// formula is unsatisfiable). A `true` answer leaves the state settled
    /// with nothing queued, a decision of the stack replaced by its forced
    /// opposite and everything below it kept.
    pub fn backtracking(&mut self) -> (r: bool)
        requires
            old(self).search_ok(),
            refuted(old(self).assignment_stack@, old(self).clauses@, old(self).variables@.len() as nat),
        ensures
            !r ==> no_model(final(self).clauses@, final(self).variables@.len() as nat),
            !r ==> final(self).assignment_stack@.len() == 0,
            final(self).search_ok(),
            same_shape(final(self), old(self)),
            r ==> final(self).unit_queue@.len() == 0 && settled(final(self).variables@, final(self).clauses@),
            same_tables(old(self).variables@, old(self).clauses@, final(self).variables@, final(self).clauses@),
            r ==> backtracked(old(self).assignment_stack@, final(self).assignment_stack@),
    {
        proof {
            assert(same_tables(self.variables@, self.clauses@, self.variables@, self.clauses@));
        }
        let ghost s_old = self.assignment_stack@;
        let ghost mut a: int = s_old.len() as int;
        loop
            invariant
                self.search_ok(),
                same_shape(self, old(self)),
                same_tables(old(self).variables@, old(self).clauses@, self.variables@, self.clauses@),
                refuted(self.assignment_stack@, self.clauses@, self.variables@.len() as nat),
                s_old == old(self).assignment_stack@,
                0 <= a <= self.assignment_stack@.len(),
                a <= s_old.len(),
                forall|i: int| 0 <= i < a ==> #[trigger] self.assignment_stack@[i] == s_old[i],
                forall|i: int| a <= i < self.assignment_stack@.len()
                    ==> (#[trigger] self.assignment_stack@[i]).assignment_type == AssignmentType::Forced,
                a < self.assignment_stack@.len() ==> s_old[a].assignment_type == AssignmentType::Branching,
            decreases decisions(self.assignment_stack@), self.assignment_stack@.len(),
        {
            let ghost st0 = self.assignment_stack@;
            proof {
                assert(refuted(st0, self.clauses@, self.variables@.len() as nat));
            }
            let assign = match self.assignment_stack.pop() {
                None => {
                    proof {
                        assert(st0.len() == 0);
                        lemma_no_model(st0, self.clauses@, self.variables@.len() as nat);
                    }
                    return false;
                },
                Some(a) => a,
            };
            let ghost p = self.assignment_stack@.len() as int;
            proof {
                assert(self.assignment_stack@.push(assign) =~= st0);
                assert(st0.drop_last() =~= self.assignment_stack@);
                assert(st0.last() == assign);
                if p >= a {
                    assert(st0[p].assignment_type == AssignmentType::Forced);
                } else {
                    assert(st0[p] == s_old[p]);
                }
            }
            let ghost vs0 = self.variables@;
            let ghost cs0 = self.clauses@;
            self.undo_assignment(&assign);
            proof {
                lemma_same_tables_trans(old(self).variables@, old(self).clauses@, vs0, cs0, self.variables@, self.clauses@);
            }
            if assign.assignment_type == AssignmentType::Branching {
                let ghost vs1 = self.variables@;
                let ghost cs1 = self.clauses@;
                let ghost st_before = self.assignment_stack@;
                let other = assign.literal.negated();
                let taken = self.take_other_branch(other);
                let ghost flipped = st_before.push(PrevAssignment { literal: other, assignment_type: AssignmentType::Forced });
                proof {
                    lemma_same_tables_trans(old(self).variables@, old(self).clauses@, vs1, cs1, self.variables@, self.clauses@);
                    assert(p < a);
                    assert(self.assignment_stack@[p] == flipped[p]);
                    assert forall|i: int| 0 <= i < p implies #[trigger] self.assignment_stack@[i] == s_old[i] by {
                        assert(self.assignment_stack@[i] == flipped[i]);
                        assert(flipped[i] == st0[i]);
                    }
                    assert forall|i: int| p <= i < self.assignment_stack@.len()
                        implies (#[trigger] self.assignment_stack@[i]).assignment_type == AssignmentType::Forced by {
                        if i == p {
                            assert(self.assignment_stack@[i] == flipped[p]);
                        }
                    }
                    lemma_decisions_forced_ext(flipped, self.assignment_stack@);
                    assert(flipped.drop_last() =~= st_before);
                    assert(decisions(st0) == decisions(st_before) + 1);
                    a = p;
                }
                if taken {
                    return true;
                }
                // the other branch conflicts too: backtrack further
            } else {
                proof {
                    assert(decisions(st0) == decisions(self.assignment_stack@));
                    if p < a {
                        a = p;
                    }
                }
            }
        }
    }

    /// Whether every clause is satisfied.
    pub fn satisfaction_check(&self) -> (r: bool)
        ensures
            r == forall|c: int| 0 <= c < self.clauses@.len() ==> (#[trigger] self.clauses@[c]).satisfied is Some,
    {
        let mut c: usize = 0;
        while c < self.clauses.len()
            invariant
                c <= self.clauses@.len(),
                forall|k: int| 0 <= k < c ==> (#[trigger] self.clauses@[k]).satisfied is Some,
            decreases self.clauses@.len() - c,
        {
            if self.clauses[c].satisfied.is_none() {
                return false;
            }
            c += 1;
        }
        true
    }

    /// The valuation of the variables: true for `Pos`, false otherwise.
    pub fn valuation(&self) -> (r: Vec<bool>)
        ensures
            r@ == valuation_of(self.variables@),
    {
        let mut out: Vec<bool> = Vec::with_capacity(self.variables.len());
        let mut i: usize = 0;
        while i < self.variables.len()
            invariant
                i <= self.variables@.len(),
                out@ == valuation_of(self.variables@).take(i as int),
            decreases self.variables@.len() - i,
        {
            out.push(self.variables[i].value == VarValue::Pos);
            i += 1;
            assert(out@ =~= valuation_of(self.variables@).take(i as int));
        }
        assert(out@ =~= valuation_of(self.variables@));
        out
    }

    /// The first part of the search: the initial unit propagation.
    /// `Some(answer)` when it already decides the formula; otherwise the
    /// state is settled with nothing queued.
    #[verifier::spinoff_prover]
    pub fn dpll_start(&mut self) -> (r: Option<SATSolution>)
        requires
            old(self).search_ok(),
            old(self).unit_queue@.len() == 0,
            old(self).assignment_stack@.len() == 0,
            no_empty(old(self).clauses@) ==> no_dead(old(self).variables@, old(self).clauses@),
        ensures
            final(self).search_ok(),
            same_shape(final(self), old(self)),
            same_tables(old(self).variables@, old(self).clauses@, final(self).variables@, final(self).clauses@),
            r matches Some(s) ==> !(s is Satisfiable),
            r == Some(SATSolution::Unsatisfiable) ==> no_model(final(self).clauses@, final(self).variables@.len() as nat),
            r is Some ==> r == Some(SATSolution::Unsatisfiable),
            r is None ==> final(self).unit_queue@.len() == 0 && settled(final(self).variables@, final(self).clauses@),
    {
        proof {
            assert forall|j: int| 0 <= j < self.assignment_stack@.len() implies
                (#[trigger] self.assignment_stack@[j]).assignment_type == AssignmentType::Forced by {}
        }
        let ok = self.inital_unit_propagation();
        proof {
            lemma_same_tables(old(self).variables@, old(self).clauses@, self.variables@, self.clauses@, self.assignment_stack@);
        }
        if !ok {
            proof {
                lemma_no_model(self.assignment_stack@, self.clauses@, self.variables@.len() as nat);
            }
            return Some(SATSolution::Unsatisfiable);
        }
        None
    }

    /// Sets a branching literal, propagates and eliminates pure literals;
    /// `false` on a conflict. A `true` answer leaves the state settled with
    /// nothing queued.
    #[verifier::spinoff_prover]
    fn decide(&mut self, literal: CNFVar) -> (r: bool)
        requires
            old(self).search_ok(),
            literal.id < old(self).variables@.len(),
            lit_free(old(self).variables@, literal),
            settled(old(self).variables@, old(self).clauses@),
            old(self).unit_queue@.len() == 0,
        ensures
            final(self).search_ok(),
            same_shape(final(self), old(self)),
            same_tables(old(self).variables@, old(self).clauses@, final(self).variables@, final(self).clauses@),
            r ==> final(self).unit_queue@.len() == 0 && settled(final(self).variables@, final(self).clauses@),
            !r ==> refuted(final(self).assignment_stack@, final(self).clauses@, final(self).variables@.len() as nat),
            extends(old(self).assignment_stack@.push(PrevAssignment { literal, assignment_type: AssignmentType::Branching }),
                final(self).assignment_stack@),
    {
        let ghost vs1 = self.variables@;
        let ghost cs1 = self.clauses@;
        let ok = self.set_variable(literal, AssignmentType::Branching);
        let ghost st1 = self.assignment_stack@;
        proof {
            assert(extends(st1, st1));
        }
        let ghost vs = self.variables@;
        let ghost cs = self.clauses@;
        proof {
            assert(same_tables(vs1, cs1, vs, cs));
            lemma_same_tables(vs1, cs1, vs, cs, self.assignment_stack@);
        }
        if !ok {
            return false;
        }
        proof {
            assert(self.unit_queue@.subrange(0, 0) =~= Seq::<CNFVar>::empty());
            assert forall|c: int| 0 <= c < cs.len() && #[trigger] unit(vs, cs[c].literals@)
                implies exists|k: int| 0 <= k < self.unit_queue@.len() && cs[c].literals@.contains(#[trigger] self.unit_queue@[k]) by {
                assert(cs[c].literals == cs1[c].literals);
                assert(!unit(vs1, cs1[c].literals@));
            }
            assert forall|k: int| 0 <= k < self.unit_queue@.len() implies (#[trigger] self.unit_queue@[k]).id < vs.len()
                && lit_free(vs, self.unit_queue@[k])
                && exists|c: int| 0 <= c < cs.len() && cs[c].literals@.contains(self.unit_queue@[k])
                    && #[trigger] unit(vs, cs[c].literals@) by {
                let l = self.unit_queue@[k];
                let c = choose|c: int| 0 <= c < cs1.len() && cs1[c].literals@.contains(l) && #[trigger] unit(vs, cs1[c].literals@);
                assert(cs[c].literals == cs1[c].literals);
            }
            if no_empty(cs1) {
                assert forall|c: int| 0 <= c < cs.len() implies !#[trigger] dead(vs, cs[c].literals@) by {
                    assert(cs[c].literals == cs1[c].literals);
                    assert(!dead(vs1, cs1[c].literals@));
                }
            }
        }
        let propagated = self.unit_propagation();
        proof {
            lemma_extends_trans(old(self).assignment_stack@.push(PrevAssignment { literal, assignment_type: AssignmentType::Branching }), st1, self.assignment_stack@);
            lemma_same_tables(vs, cs, self.variables@, self.clauses@, self.assignment_stack@);
            lemma_same_tables_trans(vs1, cs1, vs, cs, self.variables@, self.clauses@);
        }
        if !propagated {
            return false;
        }
        let ghost vs2 = self.variables@;
        let ghost cs2 = self.clauses@;
        let ghost st2 = self.assignment_stack@;
        let pure = self.pure_literal_elimination();
        proof {
            lemma_extends_trans(old(self).assignment_stack@.push(PrevAssignment { literal, assignment_type: AssignmentType::Branching }), st2, self.assignment_stack@);
            lemma_same_tables_trans(vs1, cs1, vs2, cs2, self.variables@, self.clauses@);
        }
        pure
    }

    /// Whether every clause is satisfied.
    #[verifier::spinoff_prover]
    fn all_marked(&self) -> (r: bool)
        requires
            sat_ok(self.variables@, self.clauses@),
        ensures
            r == forall|c: int| 0 <= c < self.clauses@.len() ==> (#[trigger] self.clauses@[c]).satisfied is Some,
            r ==> all_true(self.variables@, self.clauses@),
    {
        let r = self.satisfaction_check();
        proof {
            if r {
                assert forall|c: int| 0 <= c < self.clauses@.len() implies has_true(self.variables@, #[trigger] self.clauses@[c].literals@) by {
                    assert(self.clauses@[c].satisfied is Some);
                    let i = choose|i: int| 0 <= i < self.clauses@[c].literals@.len()
                        && (#[trigger] self.clauses@[c].literals@[i]).id == self.clauses@[c].satisfied->0
                        && lit_true(self.variables@, self.clauses@[c].literals@[i]);
                }
            }
        }
        r
    }

    /// One round of the search: pick a literal; set it, propagate and
    /// eliminate pure literals; on a conflict backtrack. The search ends
    /// satisfiable when no literal is picked or every clause is satisfied,
    /// unsatisfiable when backtracking finds no branch left; it never ends
    /// unknown. Each round that goes on lowers the stack's measure
    /// (`stack_measure`), so the search terminates. A satisfiable answer makes
    /// every clause true when no clause is empty.
    #[verifier::spinoff_prover]
    pub fn dpll_step<B: BranchingStrategy>(&mut self, branching: &B) -> (r: DpllStep)
        requires
            old(self).search_ok(),
            old(self).unit_queue@.len() == 0,
            settled(old(self).variables@, old(self).clauses@),
        ensures
            final(self).search_ok(),
            same_shape(final(self), old(self)),
            same_tables(old(self).variables@, old(self).clauses@, final(self).variables@, final(self).clauses@),
            r is Continue ==> stack_measure(final(self).assignment_stack@, final(self).variables@.len() as nat)
                < stack_measure(old(self).assignment_stack@, old(self).variables@.len() as nat)
                && final(self).unit_queue@.len() == 0
                && settled(final(self).variables@, final(self).clauses@),
            r matches DpllStep::Done(SATSolution::Satisfiable(v)) ==> v@ == valuation_of(final(self).variables@)
                && (no_empty(final(self).clauses@) ==> all_true(final(self).variables@, final(self).clauses@)),
            r == DpllStep::Done(SATSolution::Unsatisfiable) ==> no_model(final(self).clauses@, final(self).variables@.len() as nat),
            r != DpllStep::Done(SATSolution::Unknown),
    {
        proof {
            assert(same_tables(self.variables@, self.clauses@, self.variables@, self.clauses@));
        }
        match branching.pick_branching_variable(&self.variables, &self.clauses) {
            None => {
                proof {
                    lemma_nothing_left(self.variables@, self.clauses@);
                }
                DpllStep::Done(SATSolution::Satisfiable(self.valuation()))
            },
            Some(literal) => {
                let ghost vs0 = self.variables@;
                let ghost cs0 = self.clauses@;
                let ghost s0 = self.assignment_stack@;
                let ghost n = self.variables@.len();
                let conflict = !self.decide(literal);
                let ghost s1 = self.assignment_stack@;
                proof {
                    lemma_stack_len(self.variables@, self.clauses@, s1);
                    assert(s1[s0.len() as int] == PrevAssignment { literal, assignment_type: AssignmentType::Branching });
                    assert forall|i: int| 0 <= i < s0.len() implies stack_digit(s1, i) == stack_digit(s0, i) by {
                        assert(s1[i] == s0[i]);
                    }
                    lemma_measure_less(s1, s0, s0.len(), n);
                }
                if conflict {
                    let ghost vs1 = self.variables@;
                    let ghost cs1 = self.clauses@;
                    let back = self.backtracking();
                    proof {
                        lemma_same_tables_trans(vs0, cs0, vs1, cs1, self.variables@, self.clauses@);
                    }
                    if !back {
                        return DpllStep::Done(SATSolution::Unsatisfiable);
                    }
                    proof {
                        let f = self.assignment_stack@;
                        let j = choose|j: int| 0 <= j < s1.len() && j < f.len() && (#[trigger] s1[j]).assignment_type == AssignmentType::Branching
                            && f[j].assignment_type == AssignmentType::Forced
                            && forall|i: int| 0 <= i < j ==> #[trigger] f[i] == s1[i];
                        let q: int = if j < s0.len() { j } else { s0.len() as int };
                        assert forall|i: int| 0 <= i < q implies stack_digit(f, i) == stack_digit(s0, i) by {
                            assert(f[i] == s1[i]);
                            assert(s1[i] == s0[i]);
                        }
                        if j < s0.len() {
                            assert(s1[j] == s0[j]);
                        } else if j > s0.len() {
                            assert(f[q] == s1[q]);
                        }
                        lemma_measure_less(f, s0, q as nat, n);
                    }
                }
                if self.all_marked() {
                    return DpllStep::Done(SATSolution::Satisfiable(self.valuation()));
                }
                DpllStep::Continue
            },
        }
    }

    /// The DPLL search: the initial propagation, then rounds until an
    /// answer. A satisfiable answer makes every clause true when no clause
    /// is empty.
    #[verifier::spinoff_prover]
    pub fn dpll<B: BranchingStrategy>(&mut self, branching: &B) -> (r: SATSolution)
        requires
            old(self).search_ok(),
            old(self).unit_queue@.len() == 0,
            old(self).assignment_stack@.len() == 0,
            no_empty(old(self).clauses@) ==> no_dead(old(self).variables@, old(self).clauses@),
        ensures
            final(self).search_ok(),
            same_shape(final(self), old(self)),
            same_tables(old(self).variables@, old(self).clauses@, final(self).variables@, final(self).clauses@),
            r matches SATSolution::Satisfiable(v) ==> v@ == valuation_of(final(self).variables@)
                && (no_empty(final(self).clauses@) ==> all_true(final(self).variables@, final(self).clauses@)),
            r == SATSolution::Unsatisfiable ==> no_model(final(self).clauses@, final(self).variables@.len() as nat),
            r != SATSolution::Unknown,
    {
        match self.dpll_start() {
            Some(answer) => answer,
            None => {
                loop
                    invariant
                        self.search_ok(),
                        same_shape(self, old(self)),
                        same_tables(old(self).variables@, old(self).clauses@, self.variables@, self.clauses@),
                        self.unit_queue@.len() == 0,
                        settled(self.variables@, self.clauses@),
                    decreases stack_measure(self.assignment_stack@, self.variables@.len() as nat),
                {
                    let ghost vs0 = self.variables@;
                    let ghost cs0 = self.clauses@;
                    let step = self.dpll_step(branching);
                    proof {
                        lemma_same_tables_trans(old(self).variables@, old(self).clauses@, vs0, cs0, self.variables@, self.clauses@);
                    }
                    match step {
                        DpllStep::Done(answer) => { return answer; },
                        DpllStep::Continue => {},
                    }
                }
            },
        }
    }
}

/// The literal with its identifier raised by one, as in the formula.
pub open spec fn raise(l: CNFVar) -> CNFVar {
    CNFVar { id: (l.id + 1) as usize, sign: l.sign }
}

/// The literal of the formula with its identifier lowered by one, as in the search.
pub open spec fn lower(u: CNFVar) -> CNFVar {
    CNFVar { id: (u.id - 1) as usize, sign: u.sign }
}

/// A model of the formula is a model of the clauses of the search made for it.
pub proof fn lemma_model_transfers(fcs: Seq<CNFClause>, cs: Seq<Clause>, n: nat, val: Seq<bool>)
    requires
        cs.len() == fcs.len(),
        val.len() == n,
        formula_holds(clauses_formula(fcs), val),
        forall|c: int| 0 <= c < fcs.len() ==> clause_in_range(#[trigger] fcs[c].vars@, n),
        forall|c: int, k: int| 0 <= c < cs.len() && 0 <= k < fcs[c].vars@.len() ==>
            cs[c].literals@.contains(lower(#[trigger] fcs[c].vars@[k])),
    ensures
        ds_model(val, cs),
{
    let f = clauses_formula(fcs);
    assert forall|c: int| 0 <= c < cs.len() implies true_under(val, #[trigger] cs[c].literals@) by {
        assert(f[c] == fcs[c].vars@);
        assert(clause_holds(f[c], val));
        let k = choose|k: int| 0 <= k < f[c].len() && (#[trigger] f[c][k]).holds_in(val);
        let u = fcs[c].vars@[k];
        assert(u.in_range(n));
        let l = lower(u);
        assert(cs[c].literals@.contains(l));
        let i = choose|i: int| 0 <= i < cs[c].literals@.len() && cs[c].literals@[i] == l;
        assert(val[cs[c].literals@[i].id as int] == cs[c].literals@[i].sign);
    }
}

/// A clause of the formula holding the raised literals of a clause of the
/// search with a true literal is true under the valuation of the search.
#[verifier::spinoff_prover]
pub proof fn lemma_clause_holds(vars: Seq<CNFVar>, lits: Seq<CNFVar>, vs: Seq<Variable>)
    requires
        has_true(vs, lits),
        vs.len() < usize::MAX,
        forall|i: int| 0 <= i < lits.len() ==> (#[trigger] lits[i]).id < vs.len() && vars.contains(raise(lits[i])),
    ensures
        clause_holds(vars, valuation_of(vs)),
{
    let val = valuation_of(vs);
    let i = choose|i: int| 0 <= i < lits.len() && lit_true(vs, #[trigger] lits[i]);
    let l = lits[i];
    let u = raise(l);
    assert(vars.contains(u));
    let k = choose|k: int| 0 <= k < vars.len() && vars[k] == u;
    assert(val[l.id as int] == (vs[l.id as int].value == VarValue::Pos));
    assert(vars[k].holds_in(val));
}

/// A valuation that makes a literal of every clause of the search true
/// satisfies the formula the search was made for.
#[verifier::spinoff_prover]
pub proof fn lemma_solution_holds(fcs: Seq<CNFClause>, vs: Seq<Variable>, cs: Seq<Clause>)
    requires
        cs.len() == fcs.len(),
        all_true(vs, cs),
        vs.len() < usize::MAX,
        forall|c: int, i: int| 0 <= c < cs.len() && 0 <= i < cs[c].literals@.len()
            ==> (#[trigger] cs[c].literals@[i]).id < vs.len() && fcs[c].vars@.contains(raise(cs[c].literals@[i])),
    ensures
        formula_holds(clauses_formula(fcs), valuation_of(vs)),
{
    let f = clauses_formula(fcs);
    assert forall|j: int| 0 <= j < f.len() implies clause_holds(#[trigger] f[j], valuation_of(vs)) by {
        assert(f[j] == fcs[j].vars@);
        assert(has_true(vs, cs[j].literals@));
        lemma_clause_holds(fcs[j].vars@, cs[j].literals@, vs);
    }
}

/// The value pure literal elimination gives a variable: an unset variable
/// that does not occur positively becomes false, else one that does not
/// occur negatively becomes true; every other keeps its value.
pub open spec fn pure_value(v: Variable) -> VarValue {
    if v.value == VarValue::Free && v.pos_occ@.len() == 0 {
        VarValue::Neg
    } else if v.value == VarValue::Free && v.neg_occ@.len() == 0 {
        VarValue::Pos
    } else {
        v.value
    }
}

/// Where the state is settled and the heuristic offers nothing, every
/// clause has a true literal, unless some clause is empty.
#[verifier::spinoff_prover]
pub proof fn lemma_nothing_left(vs: Seq<Variable>, cs: Seq<Clause>)
    requires
        tables_wf(vs, cs),
        sat_ok(vs, cs),
        settled(vs, cs),
        nothing_to_branch(vs, cs),
    ensures
        no_empty(cs) ==> all_true(vs, cs),
{
    if no_empty(cs) {
        assert forall|c: int| 0 <= c < cs.len() implies has_true(vs, #[trigger] cs[c].literals@) by {
            let lits = cs[c].literals@;
            if !has_true(vs, lits) {
                assert(cs[c].satisfied is None);
                assert(!dead(vs, lits));
                lemma_nonfalse_witness(vs, lits);
                let i = choose|i: int| 0 <= i < lits.len() && !lit_false(vs, #[trigger] lits[i]);
                assert(lits[i].id < vs.len());
                assert(!lit_true(vs, lits[i]));
                assert(vs[lits[i].id as int].value != VarValue::Free);
            }
        }
    }
}

/// A DPLL based SAT solver using the given branching strategy.
pub struct SatisfactionSolver<B: BranchingStrategy> {
    pub strategy: B,
}

impl<B: BranchingStrategy> SatisfactionSolver<B> {
    pub fn new(strategy: B) -> (r: SatisfactionSolver<B>)
        ensures
            r.strategy == strategy,
    {
        SatisfactionSolver { strategy }
    }
}

impl<B: BranchingStrategy> Solver for SatisfactionSolver<B> {
    /// Its satisfiable answers are proved to be models.
    open spec fn models_proved(&self) -> bool {
        true
    }

    /// Its unsatisfiable answers are proved right.
    open spec fn refutations_proved(&self) -> bool {
        true
    }

    /// Runs the DPLL search. A satisfiable answer holds one value per
    /// variable, `true` exactly for the variables set positively.
    /// When no clause is empty, a satisfiable answer satisfies the formula.
    /// The search always ends with an answer, never `Unknown`.
    #[verifier::spinoff_prover]
    fn solve(&self, formula: &CNF) -> (r: SATSolution)
        ensures
            r matches SATSolution::Satisfiable(v) ==> v@.len() == formula.num_variables
                && ((forall|j: int| 0 <= j < formula.clauses@.len() ==> (#[trigger] formula.clauses@[j]).vars@.len() > 0)
                    ==> formula.satisfied_by(v@)),
            r is Unsatisfiable ==> !formula.satisfiable(),
            !(r is Unknown),
    {
        let mut data = DataStructures::new(formula);
        let ghost vs0 = data.variables@;
        let ghost cs0 = data.clauses@;
        let r = data.dpll(&self.strategy);
        proof {
            if r is Satisfiable && (forall|j: int| 0 <= j < formula.clauses@.len() ==> (#[trigger] formula.clauses@[j]).vars@.len() > 0) {
                let vs = data.variables@;
                let cs = data.clauses@;
                assert forall|c: int| 0 <= c < cs0.len() implies (#[trigger] cs0[c].literals@).len() > 0 by {
                    assert(formula.clauses@[c].vars@.len() > 0);
                }
                lemma_same_tables(vs0, cs0, vs, cs, data.assignment_stack@);
                assert forall|c: int, i: int| 0 <= c < cs.len() && 0 <= i < cs[c].literals@.len()
                    implies (#[trigger] cs[c].literals@[i]).id < vs.len() && formula.clauses@[c].vars@.contains(raise(cs[c].literals@[i])) by {
                    assert(cs[c].literals == cs0[c].literals);
                    assert(cs0[c].literals@[i] == cs[c].literals@[i]);
                }
                lemma_solution_holds(formula.clauses@, vs, cs);
            }
            if r is Unsatisfiable && formula.satisfiable() {
                let f = formula.formula();
                let val = choose|val: Seq<bool>| val.len() == formula.num_variables && #[trigger] formula_holds(f, val);
                assert forall|c: int| 0 <= c < formula.clauses@.len() implies
                    clause_in_range(#[trigger] formula.clauses@[c].vars@, formula.num_variables as nat) by {
                    assert(f[c] == formula.clauses@[c].vars@);
                }
                lemma_model_transfers(formula.clauses@, cs0, formula.num_variables as nat, val);
                lemma_refutation_tables(cs0, data.clauses@, data.assignment_stack@, formula.num_variables as nat, CNFVar { id: 0, sign: true });
                assert(ds_model(val, data.clauses@));
            }
        }
        r
    }
}

} // verus!
