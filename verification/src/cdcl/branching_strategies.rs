//! Branching strategies of the CDCL search: the first unassigned variable,
//! and VSIDS.
use vstd::prelude::*;
use crate::cdcl::clause::{clause_value_wf, ClauseId, Clauses};
use crate::cdcl::collections::{items_distinct, map_of_pairs, pq_entries, pq_from_pairs, pq_into_pairs,
    pq_pop, pq_push, ScorePair, ScoreQueue};
use crate::cdcl::update::Update;
use crate::cdcl::variable::Variables;
use crate::cnf::CNFVar;

verus! {

/// Chooses the next literal to branch on.
pub trait BranchingStrategy: Update {
    /// An unassigned variable with a polarity, or `None`.
    fn pick_literal(&mut self, clauses: &Clauses, variables: &Variables) -> (r: Option<CNFVar>)
        ensures
            r matches Some(l) ==> l.id < variables@.len() && variables@[l.id as int].assignment is None,
    ;
}

/// Makes a fresh branching strategy for a search.
pub trait BranchingStrategyFactory {
    type Strategy: BranchingStrategy;

    fn create(&self, clauses: &Clauses, variables: &Variables) -> Self::Strategy
        requires
            clauses.wf(variables@.len()),
    ;
}

/// Branches on the first unassigned variable, positively.
pub struct NaiveInstance;

impl Update for NaiveInstance {}

impl BranchingStrategy for NaiveInstance {
    fn pick_literal(&mut self, _clauses: &Clauses, variables: &Variables) -> (r: Option<CNFVar>)
        ensures
            r matches Some(l) ==> l.sign && forall|k: int| 0 <= k < l.id ==> (#[trigger] variables@[k]).assignment is Some,
            r is None ==> forall|k: int| 0 <= k < variables@.len() ==> (#[trigger] variables@[k]).assignment is Some,
    {
        let mut i: usize = 0;
        while i < variables.len()
            invariant
                i <= variables@.len(),
                forall|k: int| 0 <= k < i ==> (#[trigger] variables@[k]).assignment is Some,
            decreases variables@.len() - i,
        {
            if variables[i].assignment.is_none() {
                return Some(CNFVar::new(i, true));
            }
            i += 1;
        }
        None
    }
}

/// Makes naive branching strategies.
pub struct Naive;

impl BranchingStrategyFactory for Naive {
    type Strategy = NaiveInstance;

    fn create(&self, _clauses: &Clauses, _variables: &Variables) -> NaiveInstance {
        NaiveInstance
    }
}

/// Variable State Independent Decaying Sum: every literal has a score,
/// initially its number of occurrences; learned clauses add to counters,
/// and every `resort_period` branchings the scores are halved and the
/// counters added. The unassigned literal of highest score is chosen.
pub struct VSIDSInstance {
    pub resort_period: usize,
    pub branchings: usize,
    pub priority_queue: ScoreQueue,
    pub scores: Vec<usize>,
    pub counters: Vec<usize>,
}

/// The index of a literal: twice its variable, plus one when positive.
pub open spec fn literal_index(l: CNFVar) -> int {
    2 * l.id + if l.sign { 1int } else { 0int }
}

/// How often the learned clause names the literal of index `idx` (among
/// literals whose index fits in a `usize`).
pub open spec fn learn_count(lits: Seq<CNFVar>, idx: int) -> nat
    decreases lits.len(),
{
    if lits.len() == 0 {
        0
    } else {
        learn_count(lits.drop_last(), idx) + if lits.last().id <= usize::MAX / 2 && literal_index(lits.last()) == idx {
            1nat
        } else {
            0nat
        }
    }
}

/// One more than `a + n`, modulo the `usize` range, is what wrapping addition
/// of one gives on `a + n` taken modulo that range.
proof fn lemma_wrapping_step(a: int, n: int, c: usize)
    requires
        0 <= a,
        0 <= n,
        c as int == (a + n) % (usize::MAX as int + 1),
    ensures
        c.wrapping_add(1) as int == (a + n + 1) % (usize::MAX as int + 1),
{
    let m = usize::MAX as int + 1;
    vstd::arithmetic::div_mod::lemma_add_mod_noop(a + n, 1, m);
    vstd::arithmetic::div_mod::lemma_small_mod(1, m as nat);
    if c < usize::MAX {
        vstd::arithmetic::div_mod::lemma_small_mod((c + 1) as nat, m as nat);
    } else {
        vstd::arithmetic::div_mod::lemma_mod_self_0(m);
    }
}

impl VSIDSInstance {
    /// The queue and the counters cover the same literals as the scores.
    pub open spec fn wf(&self) -> bool {
        &&& self.counters@.len() == self.scores@.len()
        &&& pq_entries(self.priority_queue).dom().finite()
        &&& forall|k: usize| #[trigger] pq_entries(self.priority_queue).contains_key(k) ==> k < self.scores@.len()
    }

    /// Twice the variable, plus one when the literal is positive.
    pub fn literal_to_index(literal: &CNFVar) -> (r: usize)
        requires
            literal.id <= usize::MAX / 2,
        ensures
            r == literal_index(*literal),
    {
        let mut index = 2 * literal.id;
        if literal.sign {
            index += 1;
        }
        index
    }

    /// Indices and literals correspond one to one: the literal of the index
    /// of a literal is that literal, and the index of the literal of an index
    /// is that index.
    pub proof fn lemma_index_literal_inverse(l: CNFVar, k: usize)
        ensures
            literal_index(l) / 2 == l.id && (literal_index(l) % 2 == 1) == l.sign,
            literal_index(CNFVar { id: k / 2, sign: k % 2 == 1 }) == k,
    {
    }

    /// The literal of an index.
    pub fn index_to_literal(index: usize) -> (r: CNFVar)
        ensures
            r.id == index / 2,
            r.sign == (index % 2 == 1),
    {
        CNFVar { id: index / 2, sign: index % 2 == 1 }
    }
}

impl Update for VSIDSInstance {
    /// Adds one to the counter of every literal of the learned clause.
    fn on_learn(&mut self, learned_clause: ClauseId, clauses: &Clauses, _variables: &Variables)
        ensures
            final(self).scores == old(self).scores,
            final(self).priority_queue == old(self).priority_queue,
            final(self).branchings == old(self).branchings,
            final(self).resort_period == old(self).resort_period,
            final(self).counters@.len() == old(self).counters@.len(),
            forall|i: int| 0 <= i < old(self).counters@.len() ==> #[trigger] final(self).counters@[i] as int
                == (old(self).counters@[i] + if clauses.has(learned_clause as int) {
                    learn_count(clauses.lits_at(learned_clause as int), i) } else { 0nat }) % (usize::MAX as int + 1),
    {
        let ghost m = usize::MAX as int + 1;
        proof {
            assert forall|i: int| 0 <= i < old(self).counters@.len() implies #[trigger] old(self).counters@[i] as int
                == (old(self).counters@[i] + 0nat) % m by {
                vstd::arithmetic::div_mod::lemma_small_mod(old(self).counters@[i] as nat, m as nat);
            }
        }
        if clauses.contains(learned_clause) {
            let lits = &clauses.get(learned_clause).literals;
            let ghost all = clauses.lits_at(learned_clause as int);
            assert(lits@ == all);
            let mut k: usize = 0;
            assert(all.take(0) =~= Seq::<CNFVar>::empty());
            while k < lits.len()
                invariant
                    k <= lits@.len(),
                    lits@ == all,
                    m == usize::MAX as int + 1,
                    self.counters@.len() == old(self).counters@.len(),
                    self.scores == old(self).scores,
                    self.priority_queue == old(self).priority_queue,
                    self.branchings == old(self).branchings,
                    self.resort_period == old(self).resort_period,
                    forall|i: int| 0 <= i < old(self).counters@.len() ==> #[trigger] self.counters@[i] as int
                        == (old(self).counters@[i] + learn_count(all.take(k as int), i)) % m,
                decreases lits@.len() - k,
            {
                let lit = lits[k];
                let ghost before = self.counters@;
                proof {
                    assert(all.take(k + 1).drop_last() =~= all.take(k as int));
                    assert(all.take(k + 1).last() == lit);
                }
                if lit.id <= usize::MAX / 2 {
                    let index = VSIDSInstance::literal_to_index(&lit);
                    if index < self.counters.len() {
                        let c = self.counters[index];
                        proof {
                            lemma_wrapping_step(old(self).counters@[index as int] as int,
                                learn_count(all.take(k as int), index as int) as int, c);
                        }
                        self.counters.set(index, c.wrapping_add(1));
                    }
                }
                k += 1;
            }
            assert(all.take(k as int) =~= all);
        }
    }

    /// Puts the literal back into the queue with its score.
    fn on_unassign(&mut self, literal: CNFVar, _clauses: &Clauses, _variables: &Variables)
        ensures
            final(self).scores == old(self).scores,
            final(self).counters == old(self).counters,
            final(self).branchings == old(self).branchings,
            final(self).resort_period == old(self).resort_period,
            pq_entries(final(self).priority_queue) == if literal.id <= usize::MAX / 2
                && literal_index(literal) < old(self).scores@.len() {
                pq_entries(old(self).priority_queue).insert(literal_index(literal) as usize,
                    old(self).scores@[literal_index(literal)])
            } else {
                pq_entries(old(self).priority_queue)
            },
    {
        if literal.id <= usize::MAX / 2 {
            let index = VSIDSInstance::literal_to_index(&literal);
            if index < self.scores.len() {
                let score = self.scores[index];
                pq_push(&mut self.priority_queue, index, score);
            }
        }
    }
}

/// The priority with which the literal of index `k` is queued when the
/// literals are popped: its score where the queue was just rebuilt (0 for an
/// index without a score), its old priority otherwise.
pub open spec fn queued_priority(old_queue: Map<usize, usize>, scores: Seq<usize>, rebuilt: bool, k: usize) -> usize {
    if rebuilt {
        if k < scores.len() { scores[k as int] } else { 0 }
    } else {
        old_queue[k]
    }
}

impl BranchingStrategy for VSIDSInstance {
    /// Counts the branching; every `resort_period` branchings halves the
    /// scores, adds the counters and requeues with the new scores. Then pops
    /// literals until an unassigned one; `None` once the queue is empty.
    fn pick_literal(&mut self, _clauses: &Clauses, variables: &Variables) -> (r: Option<CNFVar>)
        ensures
            final(self).resort_period == old(self).resort_period,
            final(self).branchings == if old(self).branchings.wrapping_add(1) >= old(self).resort_period {
                0
            } else {
                old(self).branchings.wrapping_add(1)
            },
            final(self).scores@.len() == old(self).scores@.len(),
            final(self).counters@.len() == old(self).counters@.len(),
            forall|i: int| 0 <= i < old(self).scores@.len() ==> #[trigger] final(self).scores@[i]
                == if old(self).branchings.wrapping_add(1) >= old(self).resort_period && i < old(self).counters@.len() {
                    (old(self).scores@[i] / 2).wrapping_add(old(self).counters@[i])
                } else {
                    old(self).scores@[i]
                },
            forall|i: int| 0 <= i < old(self).counters@.len() ==> #[trigger] final(self).counters@[i]
                == if old(self).branchings.wrapping_add(1) >= old(self).resort_period && i < old(self).scores@.len() {
                    0
                } else {
                    old(self).counters@[i]
                },
            r is None ==> pq_entries(final(self).priority_queue).dom().len() == 0,
            forall|k: usize| #[trigger] pq_entries(final(self).priority_queue).contains_key(k)
                ==> pq_entries(old(self).priority_queue).contains_key(k),
            r matches Some(l) ==> {
                let idx = literal_index(l) as usize;
                let rebuilt = old(self).branchings.wrapping_add(1) >= old(self).resort_period;
                let p = queued_priority(pq_entries(old(self).priority_queue), final(self).scores@, rebuilt, idx);
                &&& l.id <= usize::MAX / 2
                &&& pq_entries(old(self).priority_queue).contains_key(idx)
                &&& !pq_entries(final(self).priority_queue).contains_key(idx)
                &&& forall|k: usize| #[trigger] pq_entries(final(self).priority_queue).contains_key(k)
                    ==> pq_entries(final(self).priority_queue)[k] <= p
            },
    {
        let ghost rebuilt = old(self).branchings.wrapping_add(1) >= old(self).resort_period;
        self.branchings = self.branchings.wrapping_add(1);
        if self.branchings >= self.resort_period {
            self.branchings = 0;
            let mut i: usize = 0;
            while i < self.scores.len() && i < self.counters.len()
                invariant
                    i <= self.scores@.len(),
                    i <= self.counters@.len(),
                    self.scores@.len() == old(self).scores@.len(),
                    self.counters@.len() == old(self).counters@.len(),
                    self.branchings == 0,
                    self.resort_period == old(self).resort_period,
                    self.priority_queue == old(self).priority_queue,
                    forall|j: int| 0 <= j < self.scores@.len() ==> #[trigger] self.scores@[j]
                        == if j < i { (old(self).scores@[j] / 2).wrapping_add(old(self).counters@[j]) } else { old(self).scores@[j] },
                    forall|j: int| 0 <= j < self.counters@.len() ==> #[trigger] self.counters@[j]
                        == if j < i { 0 } else { old(self).counters@[j] },
                decreases self.scores@.len() - i,
            {
                let new = (self.scores[i] / 2).wrapping_add(self.counters[i]);
                self.scores.set(i, new);
                self.counters.set(i, 0);
                i += 1;
            }
            let ghost scores_after = self.scores;
            let ghost counters_after = self.counters;
            let mut queue = pq_from_pairs(Vec::new());
            std::mem::swap(&mut queue, &mut self.priority_queue);
            let pairs = pq_into_pairs(queue);
            let mut rescored: Vec<ScorePair> = Vec::with_capacity(pairs.len());
            let mut k: usize = 0;
            while k < pairs.len()
                invariant
                    k <= pairs@.len(),
                    items_distinct(pairs@),
                    rescored@.len() == k,
                    forall|m: int| 0 <= m < k ==> (#[trigger] rescored@[m]).0 == pairs@[m].0
                        && rescored@[m].1 == if pairs@[m].0 < self.scores@.len() { self.scores@[pairs@[m].0 as int] } else { 0 },
                    self.scores == scores_after,
                    self.counters == counters_after,
                    self.branchings == 0,
                    self.resort_period == old(self).resort_period,
                decreases pairs@.len() - k,
            {
                let (id, _) = pairs[k];
                let score = if id < self.scores.len() { self.scores[id] } else { 0 };
                rescored.push((id, score));
                k += 1;
            }
            assert(items_distinct(rescored@)) by {
                assert forall|a: int, b: int| 0 <= a < b < rescored@.len() implies (#[trigger] rescored@[a]).0 != (#[trigger] rescored@[b]).0 by {
                    assert(rescored@[a].0 == pairs@[a].0 && rescored@[b].0 == pairs@[b].0);
                }
            }
            self.priority_queue = pq_from_pairs(rescored);
            proof {
                let oldq = pq_entries(old(self).priority_queue);
                let newq = pq_entries(self.priority_queue);
                assert forall|key: usize| #[trigger] newq.contains_key(key) <==> oldq.contains_key(key) by {
                    if newq.contains_key(key) {
                        let i = choose|i: int| 0 <= i < rescored@.len() && (#[trigger] rescored@[i]).0 == key;
                        assert(pairs@[i].0 == key);
                    }
                    if oldq.contains_key(key) {
                        let i = choose|i: int| 0 <= i < pairs@.len() && (#[trigger] pairs@[i]).0 == key;
                        assert(rescored@[i].0 == key);
                    }
                }
                assert forall|key: usize| #[trigger] newq.contains_key(key)
                    implies newq[key] == queued_priority(oldq, self.scores@, true, key) by {
                    let i = choose|i: int| 0 <= i < rescored@.len() && (#[trigger] rescored@[i]).0 == key;
                    assert(newq[rescored@[i].0] == rescored@[i].1);
                }
            }
        }
        let ghost mid = pq_entries(self.priority_queue);
        assert(forall|key: usize| #[trigger] mid.contains_key(key) ==> pq_entries(old(self).priority_queue).contains_key(key)
            && mid[key] == queued_priority(pq_entries(old(self).priority_queue), self.scores@, rebuilt, key));
        loop
            invariant
                forall|key: usize| #[trigger] mid.contains_key(key) ==> pq_entries(old(self).priority_queue).contains_key(key)
                    && mid[key] == queued_priority(pq_entries(old(self).priority_queue), self.scores@, rebuilt, key),
                forall|key: usize| #[trigger] pq_entries(self.priority_queue).contains_key(key)
                    ==> mid.contains_key(key) && pq_entries(self.priority_queue)[key] == mid[key],
                rebuilt == (old(self).branchings.wrapping_add(1) >= old(self).resort_period),
                self.resort_period == old(self).resort_period,
                self.branchings == if old(self).branchings.wrapping_add(1) >= old(self).resort_period {
                    0
                } else {
                    old(self).branchings.wrapping_add(1)
                },
                self.scores@.len() == old(self).scores@.len(),
                self.counters@.len() == old(self).counters@.len(),
                forall|i: int| 0 <= i < old(self).scores@.len() ==> #[trigger] self.scores@[i]
                    == if old(self).branchings.wrapping_add(1) >= old(self).resort_period && i < old(self).counters@.len() {
                        (old(self).scores@[i] / 2).wrapping_add(old(self).counters@[i])
                    } else {
                        old(self).scores@[i]
                    },
                forall|i: int| 0 <= i < old(self).counters@.len() ==> #[trigger] self.counters@[i]
                    == if old(self).branchings.wrapping_add(1) >= old(self).resort_period && i < old(self).scores@.len() {
                        0
                    } else {
                        old(self).counters@[i]
                    },
            decreases pq_entries(self.priority_queue).dom().len(),
        {
            let ghost before = pq_entries(self.priority_queue);
            match pq_pop(&mut self.priority_queue) {
                None => { return None; },
                Some((index, _)) => {
                    let lit = VSIDSInstance::index_to_literal(index);
                    proof {
                        VSIDSInstance::lemma_index_literal_inverse(lit, index);
                        assert(literal_index(lit) == index);
                        assert(before.contains_key(index));
                        assert forall|key: usize| #[trigger] pq_entries(self.priority_queue).contains_key(key)
                            implies pq_entries(self.priority_queue)[key] <= mid[index] by {
                            assert(before.contains_key(key));
                        }
                    }
                    if lit.id < variables.len() && variables[lit.id].assignment.is_none() {
                        return Some(lit);
                    }
                },
            }
        }
    }
}

/// Makes VSIDS strategies.
pub struct VSIDS;

impl BranchingStrategyFactory for VSIDS {
    type Strategy = VSIDSInstance;

    /// Scores every literal by its number of occurrences in the clauses;
    /// counters start at zero; every literal is queued; scores are resorted
    /// every 255 branchings.
    fn create(&self, clauses: &Clauses, variables: &Variables) -> (r: VSIDSInstance)
        ensures
            r.wf(),
            r.resort_period == 255,
            r.branchings == 0,
            r.scores@.len() == if variables@.len() <= usize::MAX / 2 { 2 * variables@.len() } else { 0 },
    {
        let n = if variables.len() <= usize::MAX / 2 { 2 * variables.len() } else { 0 };
        let mut scores: Vec<usize> = Vec::with_capacity(n);
        let mut counters: Vec<usize> = Vec::with_capacity(n);
        let mut i: usize = 0;
        while i < n
            invariant
                i <= n,
                scores@.len() == i,
                counters@.len() == i,
            decreases n - i,
        {
            scores.push(0);
            counters.push(0);
            i += 1;
        }
        let bound = clauses.index_bound_unchecked();
        let mut c: usize = 0;
        while c < bound
            invariant
                c <= bound,
                scores@.len() == n,
            decreases bound - c,
        {
            if clauses.contains(c) {
                let lits = &clauses.get(c).literals;
                let mut k: usize = 0;
                while k < lits.len()
                    invariant
                        k <= lits@.len(),
                        scores@.len() == n,
                    decreases lits@.len() - k,
                {
                    let lit = lits[k];
                    if lit.id <= usize::MAX / 2 {
                        let index = VSIDSInstance::literal_to_index(&lit);
                        if index < scores.len() {
                            let s = scores[index];
                            scores.set(index, s.wrapping_add(1));
                        }
                    }
                    k += 1;
                }
            }
            c += 1;
        }
        let mut pairs: Vec<ScorePair> = Vec::with_capacity(n);
        let mut j: usize = 0;
        while j < n
            invariant
                j <= n,
                scores@.len() == n,
                pairs@.len() == j,
                forall|m: int| 0 <= m < j ==> (#[trigger] pairs@[m]) == (m as usize, scores@[m]),
            decreases n - j,
        {
            pairs.push((j, scores[j]));
            j += 1;
        }
        let priority_queue = pq_from_pairs(pairs);
        proof {
            assert forall|k: usize| #[trigger] pq_entries(priority_queue).contains_key(k) implies k < n by {
                let m = choose|m: int| 0 <= m < pairs@.len() && (#[trigger] pairs@[m]).0 == k;
                assert(pairs@[m] == (m as usize, scores@[m]));
            }
        }
        VSIDSInstance { resort_period: 255, priority_queue, branchings: 0, scores, counters }
    }
}

} // verus!
