//! Clause deletion strategies: which learned clauses the CDCL search forgets.
use vstd::prelude::*;
use std::collections::HashMap;
use std::collections::VecDeque;
use crate::cdcl::clause::{ClauseId, Clauses};
use crate::cdcl::collections::{elements_distinct, set_elements, set_insert, set_into_vec, set_new};
use crate::cdcl::update::Update;
use crate::cdcl::variable::{Variable, Variables};
use crate::literals::lemma_filter_take_step;

verus! {

broadcast use vstd::std_specs::hash::group_hash_axioms;

/// Chooses learned clauses to delete.
pub trait ClauseDeletionStrategy: Update {
    /// The indices of the clauses to delete, each once.
    fn delete_clause(&mut self, clauses: &Clauses, variables: &Variables) -> (r: Vec<ClauseId>)
        requires
            clauses.wf(variables@.len()),
    ;
}

/// Makes a fresh deletion strategy for a search.
pub trait ClauseDeletionStrategyFactory {
    type Strategy: ClauseDeletionStrategy;

    fn create(&self, clauses: &Clauses, variables: &Variables) -> Self::Strategy;
}

/// Deletes nothing.
pub struct NoDeletionInstance;

impl Update for NoDeletionInstance {}

impl ClauseDeletionStrategy for NoDeletionInstance {
    fn delete_clause(&mut self, _clauses: &Clauses, _variables: &Variables) -> (r: Vec<ClauseId>)
        ensures
            r@.len() == 0,
    {
        Vec::new()
    }
}

/// Makes strategies that delete nothing.
pub struct NoDeletion;

impl ClauseDeletionStrategyFactory for NoDeletion {
    type Strategy = NoDeletionInstance;

    fn create(&self, _clauses: &Clauses, _variables: &Variables) -> NoDeletionInstance {
        NoDeletionInstance
    }
}

/// Keeps every clause; it makes its own instances.
pub struct IdentityDeletionStrategy;

impl Update for IdentityDeletionStrategy {}

impl ClauseDeletionStrategy for IdentityDeletionStrategy {
    fn delete_clause(&mut self, _clauses: &Clauses, _variables: &Variables) -> (r: Vec<ClauseId>)
        ensures
            r@.len() == 0,
    {
        Vec::new()
    }
}

impl ClauseDeletionStrategyFactory for IdentityDeletionStrategy {
    type Strategy = IdentityDeletionStrategy;

    fn create(&self, _clauses: &Clauses, _variables: &Variables) -> IdentityDeletionStrategy {
        IdentityDeletionStrategy
    }
}

/// Both watched literals of the clause at `c` are unassigned.
pub open spec fn watched_unassigned(clauses: &Clauses, variables: Seq<Variable>, c: usize) -> bool {
    &&& clauses.has(c as int)
    &&& {
        let v = clauses.view_at(c as int)->0;
        &&& v.0.len() > 0
        &&& variables[v.0[v.1 as int].id as int].assignment is None
        &&& variables[v.0[v.2 as int].id as int].assignment is None
    }
}

/// BerkMin deletes the clause at position `k` of the clauses with unassigned
/// watched literals (in the order they were learned): among the first `pct`
/// (the young ones) those with more than 42 literals and activity below 7,
/// among the others those with more than 8 literals and activity below the
/// threshold.
pub open spec fn berkmin_test(k: int, pct: int, clauses: &Clauses, activity: Map<usize, usize>,
    threshold: usize, id: usize) -> bool {
    &&& clauses.has(id as int)
    &&& activity.contains_key(id)
    &&& if k < pct {
        42 < clauses.lits_at(id as int).len() && activity[id] < 7
    } else {
        8 < clauses.lits_at(id as int).len() && activity[id] < threshold
    }
}

/// The clause `id` is deleted: it stands at a position of `candidates` whose test it fails.
pub open spec fn berkmin_doomed(candidates: Seq<usize>, pct: int, clauses: &Clauses,
    activity: Map<usize, usize>, threshold: usize, id: usize) -> bool {
    exists|k: int| 0 <= k < candidates.len() && candidates[k] == id
        && #[trigger] berkmin_test(k, pct, clauses, activity, threshold, candidates[k])
}

/// The clauses whose watched literals are both unassigned.
pub open spec fn unassigned_pred(clauses: &Clauses, variables: Seq<Variable>) -> spec_fn(usize) -> bool {
    |c: usize| watched_unassigned(clauses, variables, c)
}

/// The clauses not listed in `deleted`.
pub open spec fn kept_pred(deleted: Seq<usize>) -> spec_fn(usize) -> bool {
    |c: usize| !deleted.contains(c)
}

/// BerkMin: learned clauses carry an activity, raised by each conflict they
/// take part in; clauses whose watched literals are unassigned are deleted
/// when long and inactive, the young ones by a stricter rule. The threshold
/// for old clauses rises with each round.
pub struct BerkMinInstance {
    activity: HashMap<ClauseId, usize>,
    insertion_order: VecDeque<ClauseId>,
    threshold: usize,
}

impl BerkMinInstance {
    /// The activity of each registered learned clause.
    pub closed spec fn activity(&self) -> Map<usize, usize> {
        self.activity@
    }

    /// The registered learned clauses, oldest first.
    pub closed spec fn order(&self) -> Seq<usize> {
        self.insertion_order@
    }

    /// The activity below which old clauses are deleted.
    pub closed spec fn threshold(&self) -> usize {
        self.threshold
    }
}

impl Update for BerkMinInstance {
    /// Registers the learned clause with activity 0, as the youngest.
    fn on_learn(&mut self, learned_clause: ClauseId, _clauses: &Clauses, _variables: &Variables)
        ensures
            final(self).order() == old(self).order().push(learned_clause),
            final(self).activity() == old(self).activity().insert(learned_clause, 0),
            final(self).threshold() == old(self).threshold(),
    {
        self.insertion_order.push_back(learned_clause);
        self.activity.insert(learned_clause, 0);
    }

    /// Raises the activity of the clause by one (wrapping); an unregistered
    /// clause is left alone.
    fn on_conflict(&mut self, empty_clause: ClauseId, _clauses: &Clauses, _variables: &Variables)
        ensures
            final(self).order() == old(self).order(),
            final(self).threshold() == old(self).threshold(),
            final(self).activity() == if old(self).activity().contains_key(empty_clause) {
                old(self).activity().insert(empty_clause,
                    old(self).activity()[empty_clause].wrapping_add(1))
            } else {
                old(self).activity()
            },
    {
        match self.activity.get(&empty_clause) {
            Some(a) => {
                let raised = a.wrapping_add(1);
                self.activity.insert(empty_clause, raised);
            },
            None => {},
        }
    }
}

impl BerkMinInstance {
    /// Whether both watched literals of the clause at `c` are unassigned.
    fn is_unassigned(clauses: &Clauses, variables: &Variables, c: usize) -> (r: bool)
        requires
            clauses.wf(variables@.len()),
        ensures
            r == watched_unassigned(clauses, variables@, c),
    {
        if !clauses.contains(c) {
            return false;
        }
        proof { clauses.lemma_clause_wf(variables@.len(), c as int); }
        let clause = clauses.get(c);
        if clause.literals.len() == 0 {
            return false;
        }
        let first = clause.literals[clause.watched_literals[0]].id;
        let second = clause.literals[clause.watched_literals[1]].id;
        variables[first].assignment.is_none() && variables[second].assignment.is_none()
    }
}

impl ClauseDeletionStrategy for BerkMinInstance {
    /// Deletes the clauses that BerkMin's rule dooms (the young ones are the
    /// first sixteenth of all clauses, counted among the candidates), forgets
    /// them, and raises the threshold by one (wrapping).
    fn delete_clause(&mut self, clauses: &Clauses, variables: &Variables) -> (r: Vec<ClauseId>)
        ensures
            ({
                let candidates = old(self).order().filter(unassigned_pred(clauses, variables@));
                let pct = (if clauses.formula_len() + clauses.learned_count() > usize::MAX {
                    usize::MAX as int
                } else {
                    (clauses.formula_len() + clauses.learned_count()) as int
                }) / 16;
                &&& elements_distinct(r@)
                &&& forall|id: usize| #[trigger] r@.contains(id) <==> berkmin_doomed(candidates, pct, clauses,
                    old(self).activity(), old(self).threshold(), id)
                &&& final(self).order() == old(self).order().filter(kept_pred(r@))
                &&& forall|id: usize| #[trigger] final(self).activity().contains_key(id) <==>
                    old(self).activity().contains_key(id) && !r@.contains(id)
                &&& forall|id: usize| #[trigger] final(self).activity().contains_key(id) ==>
                    final(self).activity()[id] == old(self).activity()[id]
                &&& final(self).threshold() == old(self).threshold().wrapping_add(1)
            }),
    {
        let pct = clauses.len() / 16;
        let ghost order = self.insertion_order@;
        let mut candidates: Vec<usize> = Vec::new();
        let mut i: usize = 0;
        while i < self.insertion_order.len()
            invariant
                clauses.wf(variables@.len()),
                self.insertion_order@ == order,
                i <= order.len(),
                candidates@ == order.take(i as int).filter(unassigned_pred(clauses, variables@)),
            decreases order.len() - i,
        {
            let c = self.insertion_order[i];
            let keep = BerkMinInstance::is_unassigned(clauses, variables, c);
            if keep {
                candidates.push(c);
            }
            proof {
                lemma_filter_take_step(order, i as int, unassigned_pred(clauses, variables@));
            }
            i += 1;
        }
        assert(order.take(i as int) =~= order);
        let ghost act = self.activity@;
        let threshold = self.threshold;
        let mut doomed = set_new();
        let mut k: usize = 0;
        while k < candidates.len()
            invariant
                self.activity@ == act,
                self.threshold == threshold,
                k <= candidates@.len(),
                set_elements(doomed).finite(),
                forall|id: usize| #[trigger] set_elements(doomed).contains(id) <==> exists|j: int| 0 <= j < k
                    && candidates@[j] == id && #[trigger] berkmin_test(j, pct as int, clauses, act, threshold, candidates@[j]),
            decreases candidates@.len() - k,
        {
            let id = candidates[k];
            let length = if clauses.contains(id) { clauses.get(id).literals.len() } else { 0 };
            let test = match self.activity.get(&id) {
                Some(a) => if k < pct { 42 < length && *a < 7 } else { 8 < length && *a < threshold },
                None => false,
            };
            proof {
                if clauses.has(id as int) {
                    assert(length == clauses.lits_at(id as int).len());
                }
            }
            if test {
                assert(berkmin_test(k as int, pct as int, clauses, act, threshold, candidates@[k as int]));
                set_insert(&mut doomed, id);
            } else {
                assert(!berkmin_test(k as int, pct as int, clauses, act, threshold, candidates@[k as int]));
            }
            k += 1;
        }
        let result = set_into_vec(doomed);
        let mut kept: VecDeque<usize> = VecDeque::new();
        let mut i: usize = 0;
        while i < self.insertion_order.len()
            invariant
                self.insertion_order@ == order,
                i <= order.len(),
                kept@ == order.take(i as int).filter(kept_pred(result@)),
            decreases order.len() - i,
        {
            let c = self.insertion_order[i];
            let mut gone = false;
            let mut j: usize = 0;
            while j < result.len()
                invariant
                    j <= result@.len(),
                    gone == exists|m: int| 0 <= m < j && result@[m] == c,
                decreases result@.len() - j,
            {
                if result[j] == c {
                    gone = true;
                }
                j += 1;
            }
            if !gone {
                kept.push_back(c);
            }
            proof {
                assert(gone == result@.contains(c));
                lemma_filter_take_step(order, i as int, kept_pred(result@));
            }
            i += 1;
        }
        assert(order.take(i as int) =~= order);
        self.insertion_order = kept;
        let mut m: usize = 0;
        while m < result.len()
            invariant
                m <= result@.len(),
                self.insertion_order@ == order.filter(kept_pred(result@)),
                self.threshold == threshold,
                forall|id: usize| #[trigger] self.activity@.contains_key(id) <==>
                    act.contains_key(id) && !(exists|j: int| 0 <= j < m && result@[j] == id),
                forall|id: usize| #[trigger] self.activity@.contains_key(id) ==> self.activity@[id] == act[id],
            decreases result@.len() - m,
        {
            let id = result[m];
            self.activity.remove(&id);
            m += 1;
        }
        self.threshold = self.threshold.wrapping_add(1);
        proof {
            let cands = order.filter(unassigned_pred(clauses, variables@));
            assert(candidates@ == cands);
            assert forall|id: usize| #[trigger] result@.contains(id) <==> berkmin_doomed(cands, pct as int, clauses, act, threshold, id) by {
                assert(result@.contains(id) <==> set_elements(doomed).contains(id));
            }
            assert(self.insertion_order@ == order.filter(kept_pred(result@)));
        }
        result
    }
}

/// Makes BerkMin strategies with the given initial threshold.
pub struct BerkMin(usize);

impl ClauseDeletionStrategyFactory for BerkMin {
    type Strategy = BerkMinInstance;

    /// No clause registered; the threshold starts at the factory's value.
    fn create(&self, _clauses: &Clauses, _variables: &Variables) -> (r: BerkMinInstance)
        ensures
            r.activity() == Map::<usize, usize>::empty(),
            r.order() == Seq::<usize>::empty(),
            r.threshold() == self.initial_threshold(),
    {
        BerkMinInstance { activity: HashMap::new(), insertion_order: VecDeque::new(), threshold: self.0 }
    }
}

impl BerkMin {
    /// The initial threshold.
    pub closed spec fn initial_threshold(&self) -> usize {
        self.0
    }
}

impl Default for BerkMin {
    /// An initial threshold of 60.
    fn default() -> (r: BerkMin)
        ensures
            r.initial_threshold() == 60,
    {
        BerkMin(60)
    }
}

} // verus!
