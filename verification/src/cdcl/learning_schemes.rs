//! Learning schemes: how the CDCL search derives a clause from a conflict.
use vstd::prelude::*;
use std::collections::VecDeque;
use crate::cdcl::clause::{ClauseId, Clauses};
use crate::cdcl::collections::{set_contains, set_elements, set_insert, set_new};
use crate::cdcl::update::Update;
use crate::cdcl::variable::{Assignment, AssignmentType, Variable, Variables};
use crate::cnf::{CNFClause, CNFVar};

verus! {

/// The literal is false under the assignment of its variable.
pub open spec fn falsified(variables: Seq<Variable>, l: CNFVar) -> bool {
    &&& l.id < variables.len()
    &&& variables[l.id as int].assignment matches Some(a) && a.sign != l.sign
}

/// The branching level at which the variable of the literal was set.
pub open spec fn level_of(variables: Seq<Variable>, l: CNFVar) -> usize {
    (variables[l.id as int].assignment->0).branching_level
}

/// A clause learned at `depth`, with its assertion literal and the level to
/// go back to: every literal is false under the assignment, the first one is
/// the assertion literal, which was set at `depth`, and the level is the
/// largest level of the literals set at other levels (0 when there is none).
pub open spec fn learned_at(variables: Seq<Variable>, depth: usize, c: Seq<CNFVar>, l: CNFVar, level: usize) -> bool {
    &&& c.len() > 0
    &&& c[0] == l
    &&& forall|i: int| 0 <= i < c.len() ==> falsified(variables, #[trigger] c[i])
    &&& level_of(variables, l) == depth
    &&& forall|i: int| 0 <= i < c.len() && level_of(variables, #[trigger] c[i]) != depth
        ==> level_of(variables, c[i]) <= level
    &&& (level == 0 || exists|i: int| 0 <= i < c.len() && level_of(variables, #[trigger] c[i]) != depth
        && level_of(variables, c[i]) == level)
}

/// The variable was set by a decision (not forced by a clause) at `depth`.
pub open spec fn decided_at(variables: Seq<Variable>, id: int, depth: usize) -> bool {
    &&& 0 <= id < variables.len()
    &&& variables[id].assignment matches Some(a) && a.branching_level == depth && !(a.reason is Forced)
}

/// No two literals of the clause name the same variable.
pub open spec fn distinct_vars(c: Seq<CNFVar>) -> bool {
    forall|a: int, b: int| 0 <= a < b < c.len() ==> (#[trigger] c[a]).id != (#[trigger] c[b]).id
}

/// At most one variable was set by a decision at `depth`.
pub open spec fn one_decision_at(variables: Seq<Variable>, depth: usize) -> bool {
    forall|v1: int, v2: int| #[trigger] decided_at(variables, v1, depth) && #[trigger] decided_at(variables, v2, depth) ==> v1 == v2
}

/// The literal is true under the valuation `val` (indexed by variable).
pub open spec fn lit_holds_at(val: Seq<bool>, l: CNFVar) -> bool {
    l.id < val.len() && val[l.id as int] == l.sign
}

/// Some literal of the clause is true under `val`.
pub open spec fn clause_holds_at(val: Seq<bool>, c: Seq<CNFVar>) -> bool {
    exists|i: int| 0 <= i < c.len() && #[trigger] lit_holds_at(val, c[i])
}

/// Every clause of the database is true under `val`.
pub open spec fn db_holds(val: Seq<bool>, clauses: Clauses) -> bool {
    forall|i: int| #[trigger] clauses.has(i) ==> clause_holds_at(val, clauses.lits_at(i))
}

/// The reason `r` of the variable `v`, set to `a` at the current depth,
/// holds its literal once, and every other literal of it is false and was
/// set before `v` (a smaller `rank`).
pub open spec fn reason_ok(variables: Seq<Variable>, clauses: Clauses, v: usize, sign: bool, r: usize,
    rank: spec_fn(usize) -> nat) -> bool {
    &&& clauses.has(r as int)
    &&& distinct_vars(clauses.lits_at(r as int))
    &&& clauses.lits_at(r as int).contains(CNFVar { id: v, sign })
    &&& forall|u: CNFVar| #[trigger] clauses.lits_at(r as int).contains(u) && u.id != v
        ==> falsified(variables, u) && rank(u.id) < rank(v)
}

/// The implication graph of a conflict: every literal of the conflict
/// clause is false, and every variable forced at `depth` has a reason as
/// [`reason_ok`] describes, under an order `rank` of the assignments.
pub open spec fn reasons_ordered(variables: Seq<Variable>, clauses: Clauses, depth: usize, empty: int,
    rank: spec_fn(usize) -> nat) -> bool {
    &&& forall|u: CNFVar| #[trigger] clauses.lits_at(empty).contains(u) ==> falsified(variables, u)
    &&& forall|v: usize| v < variables.len() ==> match #[trigger] variables[v as int].assignment {
        Some(a) => match a.reason {
            AssignmentType::Forced(r) => a.branching_level == depth ==> reason_ok(variables, clauses, v, a.sign, r, rank),
            _ => true,
        },
        None => true,
    }
}

/// `justified` only grows with the clause and the set of visited variables.
pub proof fn lemma_justified_grows(variables: Seq<Variable>, clauses: Clauses, depth: usize, c1: Seq<CNFVar>,
    vis1: Set<usize>, c2: Seq<CNFVar>, vis2: Set<usize>, e: usize)
    requires
        justified(variables, clauses, depth, c1, vis1, e),
        forall|l: CNFVar| #[trigger] c1.contains(l) ==> c2.contains(l),
        vis1.subset_of(vis2),
    ensures
        justified(variables, clauses, depth, c2, vis2, e),
{
    match variables[e as int].assignment {
        None => {},
        Some(a) => {
            let neg = CNFVar { id: e, sign: !a.sign };
            if c1.contains(neg) {
                assert(c2.contains(neg));
            }
        },
    }
}

/// What the search knows of the variable `e` it went through: it is
/// unset, or the clause holds its negation, or it was forced at `depth`
/// and, when its reason exists, every variable of the reason was visited.
pub open spec fn justified(variables: Seq<Variable>, clauses: Clauses, depth: usize, c: Seq<CNFVar>, vis: Set<usize>,
    e: usize) -> bool {
    match variables[e as int].assignment {
        None => true,
        Some(a) => c.contains(CNFVar { id: e, sign: !a.sign })
            || (a.reason matches AssignmentType::Forced(r) && a.branching_level == depth
                && (clauses.has(r as int) ==> forall|u: CNFVar| #[trigger] clauses.lits_at(r as int).contains(u) ==> vis.contains(u.id))),
    }
}

/// Under a valuation that satisfies the database and falsifies the clause
/// `c`, every variable the search went through keeps its assigned value.
pub proof fn lemma_agree(variables: Seq<Variable>, clauses: Clauses, depth: usize, empty: int, c: Seq<CNFVar>,
    vis: Set<usize>, rank: spec_fn(usize) -> nat, val: Seq<bool>, e: usize)
    requires
        reasons_ordered(variables, clauses, depth, empty, rank),
        val.len() == variables.len(),
        db_holds(val, clauses),
        !clause_holds_at(val, c),
        vis.contains(e),
        e < variables.len(),
        variables[e as int].assignment is Some,
        forall|x: usize| #[trigger] vis.contains(x) ==> x < variables.len() && justified(variables, clauses, depth, c, vis, x),
    ensures
        val[e as int] == (variables[e as int].assignment->0).sign,
    decreases rank(e),
{
    let a = variables[e as int].assignment->0;
    assert(justified(variables, clauses, depth, c, vis, e));
    let neg = CNFVar { id: e, sign: !a.sign };
    if c.contains(neg) {
        let i = choose|i: int| 0 <= i < c.len() && c[i] == neg;
        assert(!lit_holds_at(val, c[i]));
    } else {
        let r = a.reason->Forced_0;
        assert(a.reason matches AssignmentType::Forced(r) && a.branching_level == depth);
        assert(reason_ok(variables, clauses, e, a.sign, r, rank));
        let lits = clauses.lits_at(r as int);
        assert(clauses.has(r as int));
        assert(clause_holds_at(val, lits));
        let i = choose|i: int| 0 <= i < lits.len() && #[trigger] lit_holds_at(val, lits[i]);
        let u = lits[i];
        assert(lits.contains(u));
        if u.id != e {
            assert(falsified(variables, u) && rank(u.id) < rank(e));
            assert(vis.contains(u.id));
            lemma_agree(variables, clauses, depth, empty, c, vis, rank, val, u.id);
        } else {
            let own = CNFVar { id: e, sign: a.sign };
            let k = choose|k: int| 0 <= k < lits.len() && lits[k] == own;
            if k != i {
                assert(distinct_vars(lits));
                if k < i { assert(lits[k].id != lits[i].id); } else { assert(lits[i].id != lits[k].id); }
            }
        }
    }
}

/// Derives a clause from a conflict.
pub trait LearningScheme: Update {
    /// Finds a cut in the implication graph of the conflict at `empty_clause`:
    /// the learned clause, its assertion literal and the level to go back to.
    /// When the conflict clause is false and each variable forced at the
    /// current depth has a reason set before it ([`reasons_ordered`]), every
    /// valuation that satisfies the clause database satisfies the learned
    /// clause.
    fn find_conflict_clause(&mut self, empty_clause: ClauseId, branching_depth: usize, clauses: &Clauses,
        variables: &Variables) -> (r: Option<(CNFClause, CNFVar, usize)>)
        requires
            clauses.wf(variables@.len()),
        ensures
            r matches Some((c, l, level)) ==> learned_at(variables@, branching_depth, c.vars@, l, level),
            r is None && clauses.has(empty_clause as int) ==> forall|i: int| 0 <= i < clauses.lits_at(empty_clause as int).len()
                ==> !decided_at(variables@, (#[trigger] clauses.lits_at(empty_clause as int)[i]).id as int, branching_depth),
            r matches Some((c, l, level)) ==> forall|rank: spec_fn(usize) -> nat, val: Seq<bool>|
                #![trigger reasons_ordered(variables@, *clauses, branching_depth, empty_clause as int, rank), db_holds(val, *clauses)]
                reasons_ordered(variables@, *clauses, branching_depth, empty_clause as int, rank)
                && val.len() == variables@.len() && db_holds(val, *clauses) ==> clause_holds_at(val, c.vars@),
    ;
}

/// Makes a fresh learning scheme for a search.
pub trait LearningSchemeFactory {
    type Scheme: LearningScheme;

    fn create(&self, clauses: &Clauses, variables: &Variables) -> Self::Scheme;
}

/// A set of indices below `n` has at most `n` elements.
pub proof fn lemma_bounded_set_len(s: Set<usize>, n: nat)
    requires
        s.finite(),
        forall|e: usize| #[trigger] s.contains(e) ==> e < n,
    ensures
        s.len() <= n,
    decreases n,
{
    if n == 0 {
        assert(s =~= Set::<usize>::empty());
    } else {
        let top = (n - 1) as usize;
        if n - 1 <= usize::MAX {
            lemma_bounded_set_len(s.remove(top), (n - 1) as nat);
        } else {
            lemma_bounded_set_len(s, (n - 1) as nat);
        }
    }
}

/// The rel_sat scheme: from the conflict clause, follow the reasons of the
/// literals forced at the current level; every other literal reached joins
/// the learned clause, negated.
pub struct RelSAT;

impl Update for RelSAT {}

impl LearningScheme for RelSAT {
    /// A clause is learned whenever the conflict clause exists and names a
    /// variable decided at the current depth.
    fn find_conflict_clause(&mut self, empty_clause: ClauseId, branching_depth: usize, clauses: &Clauses,
        variables: &Variables) -> (r: Option<(CNFClause, CNFVar, usize)>)
        ensures
            clauses.has(empty_clause as int) && (exists|i: int| 0 <= i < clauses.lits_at(empty_clause as int).len()
                && decided_at(variables@, (#[trigger] clauses.lits_at(empty_clause as int)[i]).id as int, branching_depth))
                ==> r is Some,
            r matches Some((c, l, level)) ==> distinct_vars(clauses.lits_at(empty_clause as int))
                ==> distinct_vars(c.vars@),
            r matches Some((c, l, level)) ==> distinct_vars(clauses.lits_at(empty_clause as int))
                && one_decision_at(variables@, branching_depth)
                ==> forall|i: int| 1 <= i < c.vars@.len() ==> level_of(variables@, #[trigger] c.vars@[i]) != branching_depth,
    {
        if !clauses.contains(empty_clause) {
            return None;
        }
        let ghost lits0 = clauses.lits_at(empty_clause as int);
        let ghost hyp = distinct_vars(lits0);
        let ghost wid: int = if exists|i: int| 0 <= i < lits0.len()
            && decided_at(variables@, (#[trigger] lits0[i]).id as int, branching_depth) {
            (choose|i: int| 0 <= i < lits0.len()
                && decided_at(variables@, (#[trigger] lits0[i]).id as int, branching_depth)) as int
        } else {
            -1
        };
        let ghost wpos: int = if wid >= 0 { wid } else { 0 };
        let ghost wvar: int = if wid >= 0 { lits0[wpos].id as int } else { -1 };
        let n = variables.len();
        proof { clauses.lemma_clause_wf(n as nat, empty_clause as int); }
        let start = &clauses.get(empty_clause).literals;
        let mut literal_queue: VecDeque<usize> = VecDeque::new();
        let mut visited = set_new();
        let mut k: usize = 0;
        while k < start.len()
            invariant
                n == variables@.len(),
                forall|i: int| 0 <= i < start@.len() ==> (#[trigger] start@[i]).id < n,
                k <= start@.len(),
                set_elements(visited).finite(),
                forall|e: usize| #[trigger] set_elements(visited).contains(e) ==> e < n,
                forall|i: int| 0 <= i < literal_queue@.len() ==> #[trigger] literal_queue@[i] < n,
                start@ == lits0,
                forall|i: int| 0 <= i < k ==> literal_queue@.contains(#[trigger] start@[i].id),
                literal_queue@.len() == k,
                forall|i: int| 0 <= i < k ==> #[trigger] literal_queue@[i] == start@[i].id,
                forall|i: int| 0 <= i < k ==> set_elements(visited).contains(#[trigger] literal_queue@[i]),
                forall|x: usize| #[trigger] set_elements(visited).contains(x) ==> literal_queue@.contains(x),
            decreases start@.len() - k,
        {
            let id = start[k].id;
            let ghost q_before = literal_queue@;
            literal_queue.push_back(id);
            proof {
                assert(literal_queue@[q_before.len() as int] == id);
                assert forall|i: int| 0 <= i < k implies #[trigger] literal_queue@[i] == start@[i].id by {
                    assert(literal_queue@[i] == q_before[i]);
                }
                assert forall|i: int| 0 <= i < k + 1 implies literal_queue@.contains(#[trigger] start@[i].id) by {
                    if i < k {
                        let p = choose|p: int| 0 <= p < q_before.len() && q_before[p] == start@[i].id;
                        assert(literal_queue@[p] == start@[i].id);
                    }
                }
                assert forall|x: usize| #[trigger] set_elements(visited).insert(id).contains(x) implies literal_queue@.contains(x) by {
                    if x != id {
                        let p = choose|p: int| 0 <= p < q_before.len() && q_before[p] == x;
                        assert(literal_queue@[p] == x);
                    }
                }
            }
            set_insert(&mut visited, id);
            k += 1;
        }
        proof {
            if wid >= 0 {
                assert(literal_queue@.contains(start@[wpos].id));
            }
            if hyp {
                assert forall|a: int, b: int| 0 <= a < b < literal_queue@.len()
                    implies #[trigger] literal_queue@[a] != #[trigger] literal_queue@[b] by {
                    assert(literal_queue@[a] == start@[a].id && literal_queue@[b] == start@[b].id);
                }
            }
        }
        proof {
            lemma_bounded_set_len(set_elements(visited), n as nat);
            assert forall|i: int| 0 <= i < lits0.len() implies set_elements(visited).contains((#[trigger] lits0[i]).id) by {
                assert(literal_queue@[i] == start@[i].id);
            }
        }
        let mut clause = CNFClause::with_capacity(literal_queue.len());
        let mut assertion_literal: Option<CNFVar> = None;
        let mut assertion_level: usize = 0;
        loop
            invariant
                clauses.wf(n as nat),
                n == variables@.len(),
                set_elements(visited).finite(),
                set_elements(visited).len() <= n,
                forall|e: usize| #[trigger] set_elements(visited).contains(e) ==> e < n,
                forall|i: int| 0 <= i < literal_queue@.len() ==> #[trigger] literal_queue@[i] < n,
                forall|i: int| 0 <= i < clause.vars@.len() ==> falsified(variables@, #[trigger] clause.vars@[i]),
                assertion_literal matches Some(l) ==> clause.vars@.len() > 0 && clause.vars@[0] == l
                    && level_of(variables@, l) == branching_depth,
                forall|i: int| 0 <= i < clause.vars@.len() && level_of(variables@, #[trigger] clause.vars@[i]) != branching_depth
                    ==> level_of(variables@, clause.vars@[i]) <= assertion_level,
                assertion_level == 0 || exists|i: int| 0 <= i < clause.vars@.len()
                    && level_of(variables@, #[trigger] clause.vars@[i]) != branching_depth
                    && level_of(variables@, clause.vars@[i]) == assertion_level,
                wid >= 0 ==> decided_at(variables@, wvar, branching_depth),
                wid >= 0 ==> literal_queue@.contains(wvar as usize) || assertion_literal is Some,
                hyp ==> forall|a: int, b: int| 0 <= a < b < literal_queue@.len()
                    ==> #[trigger] literal_queue@[a] != #[trigger] literal_queue@[b],
                hyp ==> forall|i: int, q: int| 0 <= i < clause.vars@.len() && 0 <= q < literal_queue@.len()
                    ==> (#[trigger] clause.vars@[i]).id != #[trigger] literal_queue@[q],
                hyp ==> distinct_vars(clause.vars@),
                forall|q: int| 0 <= q < literal_queue@.len() ==> set_elements(visited).contains(#[trigger] literal_queue@[q]),
                forall|i: int| 0 <= i < clause.vars@.len() ==> set_elements(visited).contains((#[trigger] clause.vars@[i]).id),
                forall|i: int| 0 <= i < clause.vars@.len() && level_of(variables@, #[trigger] clause.vars@[i]) == branching_depth
                    ==> decided_at(variables@, clause.vars@[i].id as int, branching_depth),
                assertion_literal matches Some(l) ==> decided_at(variables@, l.id as int, branching_depth),
                forall|i: int| 0 <= i < lits0.len() ==> set_elements(visited).contains((#[trigger] lits0[i]).id),
                forall|x: usize| #[trigger] set_elements(visited).contains(x) ==> literal_queue@.contains(x)
                    || justified(variables@, *clauses, branching_depth, clause.vars@, set_elements(visited), x),
            ensures
                wid >= 0 ==> assertion_literal is Some,
                forall|i: int| 0 <= i < lits0.len() ==> set_elements(visited).contains((#[trigger] lits0[i]).id),
                forall|x: usize| #[trigger] set_elements(visited).contains(x) ==> x < n
                    && justified(variables@, *clauses, branching_depth, clause.vars@, set_elements(visited), x),
            decreases n - set_elements(visited).len(), literal_queue@.len(),
        {
            let ghost q_before = literal_queue@;
            let id = match literal_queue.pop_front() {
                None => { break; },
                Some(id) => id,
            };
            let ghost c_pre = clause.vars@;
            let ghost vis_pre = set_elements(visited);
            proof {
                assert forall|x: usize| #[trigger] vis_pre.contains(x) implies x == id || literal_queue@.contains(x)
                    || justified(variables@, *clauses, branching_depth, c_pre, vis_pre, x) by {
                    if q_before.contains(x) && x != id {
                        let p = choose|p: int| 0 <= p < q_before.len() && q_before[p] == x;
                        assert(p > 0);
                        assert(literal_queue@[p - 1] == x);
                    }
                }
            }
            proof {
                if wid >= 0 && id as int != wvar && assertion_literal is None {
                    let p = choose|p: int| 0 <= p < q_before.len() && q_before[p] == wvar as usize;
                    assert(p > 0);
                    assert(literal_queue@[p - 1] == wvar as usize);
                }
            }
            match variables[id].assignment {
                Some(Assignment { branching_level, reason: AssignmentType::Forced(reason), .. })
                    if branching_level == branching_depth => {
                    if clauses.contains(reason) {
                        proof { clauses.lemma_clause_wf(n as nat, reason as int); }
                        let lits = &clauses.get(reason).literals;
                        let ghost q0 = literal_queue@.len();
                        let ghost v0 = set_elements(visited).len();
                        let mut j: usize = 0;
                        while j < lits.len()
                            invariant
                                n == variables@.len(),
                                forall|i: int| 0 <= i < lits@.len() ==> (#[trigger] lits@[i]).id < n,
                                j <= lits@.len(),
                                set_elements(visited).finite(),
                                set_elements(visited).len() <= n,
                                forall|e: usize| #[trigger] set_elements(visited).contains(e) ==> e < n,
                                forall|i: int| 0 <= i < literal_queue@.len() ==> #[trigger] literal_queue@[i] < n,
                                set_elements(visited).len() >= v0,
                                set_elements(visited).len() > v0 || literal_queue@.len() == q0,
                                wid >= 0 ==> literal_queue@.contains(wvar as usize) || assertion_literal is Some,
                                hyp ==> forall|a: int, b: int| 0 <= a < b < literal_queue@.len()
                                    ==> #[trigger] literal_queue@[a] != #[trigger] literal_queue@[b],
                                hyp ==> forall|i: int, q: int| 0 <= i < clause.vars@.len() && 0 <= q < literal_queue@.len()
                                    ==> (#[trigger] clause.vars@[i]).id != #[trigger] literal_queue@[q],
                                forall|q: int| 0 <= q < literal_queue@.len() ==> set_elements(visited).contains(#[trigger] literal_queue@[q]),
                                forall|i: int| 0 <= i < clause.vars@.len() ==> set_elements(visited).contains((#[trigger] clause.vars@[i]).id),
                                clause.vars@ == c_pre,
                                vis_pre.subset_of(set_elements(visited)),
                                forall|i: int| 0 <= i < j ==> set_elements(visited).contains((#[trigger] lits@[i]).id),
                                forall|x: usize| #[trigger] set_elements(visited).contains(x) ==> x == id || literal_queue@.contains(x)
                                    || justified(variables@, *clauses, branching_depth, c_pre, set_elements(visited), x),
                            decreases lits@.len() - j,
                        {
                            let lid = lits[j].id;
                            let ghost vis0 = set_elements(visited);
                            let ghost qa = literal_queue@;
                            let inserted = set_insert(&mut visited, lid);
                            proof {
                                if !inserted {
                                    assert(set_elements(visited) =~= vis0);
                                }
                            }
                            if inserted {
                                let ghost qb = literal_queue@;
                                literal_queue.push_back(lid);
                                proof {
                                    assert(literal_queue@[qb.len() as int] == lid);
                                    assert forall|q: int| 0 <= q < qb.len() implies #[trigger] literal_queue@[q] == qb[q] by {}
                                    assert forall|q: int| 0 <= q < qb.len() implies qb[q] != lid by {
                                        assert(vis0.contains(qb[q]));
                                    }
                                    assert forall|i: int| 0 <= i < clause.vars@.len() implies (#[trigger] clause.vars@[i]).id != lid by {
                                        assert(vis0.contains(clause.vars@[i].id));
                                    }
                                    if wid >= 0 && qb.contains(wvar as usize) {
                                        let p = choose|p: int| 0 <= p < qb.len() && qb[p] == wvar as usize;
                                        assert(literal_queue@[p] == wvar as usize);
                                    }
                                }
                            }
                            proof {
                                lemma_bounded_set_len(set_elements(visited), n as nat);
                                assert forall|x: usize| #[trigger] set_elements(visited).contains(x) implies x == id
                                    || literal_queue@.contains(x)
                                    || justified(variables@, *clauses, branching_depth, c_pre, set_elements(visited), x) by {
                                    if x == lid {
                                        if inserted {
                                            assert(literal_queue@[literal_queue@.len() - 1] == lid);
                                        }
                                    }
                                    if x != lid || !inserted {
                                        if qa.contains(x) {
                                            let p = choose|p: int| 0 <= p < qa.len() && qa[p] == x;
                                            assert(literal_queue@[p] == x);
                                        } else if x != id && vis0.contains(x) {
                                            lemma_justified_grows(variables@, *clauses, branching_depth, c_pre, vis0,
                                                c_pre, set_elements(visited), x);
                                        }
                                    }
                                }
                            }
                            j += 1;
                        }
                        proof {
                            assert(lits@ == clauses.lits_at(reason as int));
                            assert forall|u: CNFVar| #[trigger] clauses.lits_at(reason as int).contains(u)
                                implies set_elements(visited).contains(u.id) by {
                                let i = choose|i: int| 0 <= i < lits@.len() && lits@[i] == u;
                                assert(set_elements(visited).contains(lits@[i].id));
                            }
                            assert(justified(variables@, *clauses, branching_depth, c_pre, set_elements(visited), id));
                        }
                    }
                },
                Some(a) => {
                    let literal = CNFVar::new(id, !a.sign);
                    let ghost prev = clause.vars@;
                    let ghost w: int = if assertion_level != 0 {
                        choose|i: int| 0 <= i < prev.len()
                            && level_of(variables@, #[trigger] prev[i]) != branching_depth
                            && level_of(variables@, prev[i]) == assertion_level
                    } else { 0 };
                    clause.push(literal);
                    let ghost pushed = clause.vars@;
                    proof {
                        assert(pushed[pushed.len() - 1] == literal);
                        assert(falsified(variables@, literal));
                        if assertion_level != 0 {
                            assert(pushed[w] == prev[w]);
                        }
                    }
                    if a.branching_level != branching_depth {
                        if a.branching_level > assertion_level {
                            assertion_level = a.branching_level;
                            assert(level_of(variables@, clause.vars@[clause.vars@.len() - 1]) == assertion_level);
                        }
                    } else {
                        let last_index = clause.vars.len() - 1;
                        let first = clause.vars[0];
                        let last = clause.vars[last_index];
                        clause.vars.set(0, last);
                        clause.vars.set(last_index, first);
                        assertion_literal = Some(literal);
                        proof {
                            let li = last_index as int;
                            assert forall|i: int| 0 <= i < clause.vars@.len() implies
                                #[trigger] clause.vars@[i] == pushed[if i == 0 { li } else if i == li { 0 } else { i }] by {}
                            assert forall|i: int| 0 <= i < clause.vars@.len() implies falsified(variables@, #[trigger] clause.vars@[i]) by {
                                let j = if i == 0 { li } else if i == li { 0 } else { i };
                                assert(clause.vars@[i] == pushed[j]);
                            }
                            assert forall|i: int| 0 <= i < clause.vars@.len() && level_of(variables@, #[trigger] clause.vars@[i]) != branching_depth
                                implies level_of(variables@, clause.vars@[i]) <= assertion_level by {
                                let j = if i == 0 { li } else if i == li { 0 } else { i };
                                assert(clause.vars@[i] == pushed[j]);
                            }
                            if assertion_level != 0 {
                                let w2 = if w == 0 { li } else if w == li { 0 } else { w };
                                assert(clause.vars@[w2] == pushed[w]);
                            }
                        }
                    }
                    proof {
                        assert forall|l: CNFVar| #[trigger] pushed.contains(l) implies clause.vars@.contains(l) by {
                            let j = choose|j: int| 0 <= j < pushed.len() && pushed[j] == l;
                            if a.branching_level != branching_depth {
                                assert(clause.vars@[j] == l);
                            } else {
                                let li = pushed.len() - 1;
                                let k = if j == 0 { li } else if j == li { 0 } else { j };
                                assert(clause.vars@[k] == pushed[j]);
                            }
                        }
                        assert(pushed.contains(pushed[pushed.len() - 1]));
                        assert forall|l: CNFVar| #[trigger] c_pre.contains(l) implies clause.vars@.contains(l) by {
                            let p = choose|p: int| 0 <= p < prev.len() && prev[p] == l;
                            assert(pushed[p] == prev[p]);
                            assert(pushed.contains(l));
                        }
                        assert(clause.vars@.contains(literal));
                    }
                },
                None => {},
            }
            proof {
                assert(forall|l: CNFVar| #[trigger] c_pre.contains(l) ==> clause.vars@.contains(l));
                assert(justified(variables@, *clauses, branching_depth, clause.vars@, set_elements(visited), id));
                assert(forall|x: usize| #[trigger] set_elements(visited).contains(x) ==> x == id || literal_queue@.contains(x)
                    || justified(variables@, *clauses, branching_depth, c_pre, set_elements(visited), x));
                assert forall|x: usize| #[trigger] set_elements(visited).contains(x) implies literal_queue@.contains(x)
                    || justified(variables@, *clauses, branching_depth, clause.vars@, set_elements(visited), x) by {
                    if x != id && !literal_queue@.contains(x) {
                        lemma_justified_grows(variables@, *clauses, branching_depth, c_pre, set_elements(visited),
                            clause.vars@, set_elements(visited), x);
                    }
                }
            }
        }
        proof {
            assert forall|rank: spec_fn(usize) -> nat, val: Seq<bool>|
                reasons_ordered(variables@, *clauses, branching_depth, empty_clause as int, rank)
                && val.len() == variables@.len() && db_holds(val, *clauses)
                implies clause_holds_at(val, clause.vars@) by {
                if !clause_holds_at(val, clause.vars@) {
                    assert(clauses.has(empty_clause as int));
                    assert(clause_holds_at(val, lits0));
                    let i = choose|i: int| 0 <= i < lits0.len() && #[trigger] lit_holds_at(val, lits0[i]);
                    let u = lits0[i];
                    assert(lits0.contains(u));
                    assert(falsified(variables@, u));
                    assert(set_elements(visited).contains(u.id));
                    lemma_agree(variables@, *clauses, branching_depth, empty_clause as int, clause.vars@,
                        set_elements(visited), rank, val, u.id);
                }
            }
        }
        match assertion_literal {
            Some(literal) => Some((clause, literal, assertion_level)),
            None => None,
        }
    }
}

/// rel_sat keeps no state, so it makes its own instances.
impl LearningSchemeFactory for RelSAT {
    type Scheme = RelSAT;

    fn create(&self, _clauses: &Clauses, _variables: &Variables) -> RelSAT {
        RelSAT
    }
}

} // verus!
