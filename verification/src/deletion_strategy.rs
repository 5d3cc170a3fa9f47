//! A clause deletion strategy over the clauses of the DPLL search: BerkMin
//! with activities counted per clause position.
use vstd::prelude::*;
use std::collections::HashMap;
use crate::dpll::{Clause, Clauses};

verus! {

broadcast use vstd::std_specs::hash::group_hash_axioms;

/// Index of a clause.
pub type ClauseId = usize;

/// Chooses clauses to delete, learns of new clauses and of clauses taking
/// part in conflicts.
pub trait CDCLDeletionStrategy {
    /// The strategy knows every clause it will look at.
    spec fn gc_ready(&self, clauses: Seq<Clause>) -> bool;

    /// The indices of the clauses to delete.
    fn gc_clauses(&mut self, clauses: &Clauses) -> Vec<ClauseId>
        requires
            old(self).gc_ready(clauses@),
    ;

    /// A clause was learned.
    fn learn_clause(&mut self, clause: Clause);

    /// The clause at `index` took part in a conflict.
    fn conflict_contrib_hook(&mut self, index: ClauseId);
}

/// The indices below `n` that satisfy `p`, in increasing order.
pub open spec fn indices_where(n: nat, p: spec_fn(int) -> bool) -> Seq<usize>
    decreases n,
{
    if n == 0 {
        Seq::empty()
    } else {
        let s = indices_where((n - 1) as nat, p);
        if p(n - 1) { s.push((n - 1) as usize) } else { s }
    }
}

/// The indices below `n` that satisfy `p` are below `n`, at most `n` of them.
pub proof fn lemma_indices_where_bounds(n: nat, p: spec_fn(int) -> bool)
    ensures
        indices_where(n, p).len() <= n,
        forall|m: int| 0 <= m < indices_where(n, p).len() ==> #[trigger] indices_where(n, p)[m] < n,
    decreases n,
{
    if n > 0 {
        lemma_indices_where_bounds((n - 1) as nat, p);
        let s = indices_where((n - 1) as nat, p);
        assert forall|m: int| 0 <= m < indices_where(n, p).len() implies #[trigger] indices_where(n, p)[m] < n by {
            if m < s.len() {
                assert(indices_where(n, p)[m] == s[m]);
            }
        }
    }
}

/// A young clause (at position `k` among the first sixteenth) is deleted
/// when it has more than 42 active literals and activity below 7.
pub open spec fn young_doomed(clauses: Seq<Clause>, act: Map<usize, u32>) -> spec_fn(int) -> bool {
    |k: int| clauses[k].active_lits > 42 && act[k as usize] < 7
}

/// An old clause (at position `k` after the first sixteenth, counted from
/// there) is deleted when it has more than 8 active literals and activity
/// below the threshold.
pub open spec fn old_doomed(clauses: Seq<Clause>, act: Map<usize, u32>, threshold: u32) -> spec_fn(int) -> bool {
    |k: int| clauses[(clauses.len() / 16) + k].active_lits > 8 && act[k as usize] < threshold
}

/// The negation of a predicate.
pub open spec fn not_p(p: spec_fn(int) -> bool) -> spec_fn(int) -> bool {
    |k: int| !p(k)
}

/// BerkMin over clause positions: the first sixteenth of the clauses are
/// young, the rest old; activities are kept per position.
pub struct BerkMin {
    activity: HashMap<ClauseId, u32>,
    threshold: u32,
}

impl BerkMin {
    /// No activity yet, threshold 60.
    pub fn new() -> (r: BerkMin)
        ensures
            r.activity() == Map::<usize, u32>::empty(),
            r.threshold() == 60,
    {
        BerkMin { activity: HashMap::new(), threshold: 60 }
    }

    /// The activity per clause position.
    pub closed spec fn activity(&self) -> Map<usize, u32> {
        self.activity@
    }

    /// The activity below which old clauses are deleted.
    pub closed spec fn threshold(&self) -> u32 {
        self.threshold
    }
}

impl CDCLDeletionStrategy for BerkMin {
    /// Every position the young and the old clauses are counted by has an activity.
    open spec fn gc_ready(&self, clauses: Seq<Clause>) -> bool {
        forall|k: usize| k < clauses.len() - clauses.len() / 16 ==> #[trigger] self.activity().contains_key(k)
    }

    /// Returns the doomed old positions (counted from the first old clause),
    /// then the doomed young ones; the activities of the kept clauses, old
    /// ones first, are renumbered from 0; the threshold rises by one
    /// (wrapping).
    fn gc_clauses(&mut self, clauses: &Clauses) -> (r: Vec<ClauseId>)
        ensures
            ({
                let split = clauses@.len() / 16;
                let old_len = (clauses@.len() - split) as nat;
                let act = old(self).activity();
                let young_p = young_doomed(clauses@, act);
                let old_p = old_doomed(clauses@, act, old(self).threshold());
                let kept = indices_where(old_len, not_p(old_p)) + indices_where(split as nat, not_p(young_p));
                &&& r@ == indices_where(old_len, old_p) + indices_where(split as nat, young_p)
                &&& final(self).threshold() == old(self).threshold().wrapping_add(1)
                &&& final(self).activity() == Map::new(|k: usize| k < kept.len(), |k: usize| act[kept[k as int]])
            }),
    {
        let len = clauses.len();
        let split = len / 16;
        let old_len = len - split;
        let ghost act = self.activity@;
        assert(old(self).gc_ready(clauses@));
        assert(old(self).activity() == act);
        assert(forall|k: usize| k < clauses@.len() - clauses@.len() / 16 ==> #[trigger] old(self).activity().contains_key(k));
        assert(forall|k: usize| k < clauses@.len() - clauses@.len() / 16 ==> #[trigger] act.contains_key(k));
        let ghost young_p = young_doomed(clauses@, act);
        let ghost old_p = old_doomed(clauses@, act, self.threshold);
        let mut young_out: Vec<usize> = Vec::new();
        let mut young_in: Vec<usize> = Vec::new();
        let mut i: usize = 0;
        while i < split
            invariant
                split == clauses@.len() / 16,
                i <= split,
                self.activity@ == act,
                young_p == young_doomed(clauses@, act),
                forall|k: usize| k < clauses@.len() - clauses@.len() / 16 ==> #[trigger] act.contains_key(k),
                young_out@ == indices_where(i as nat, young_p),
                young_in@ == indices_where(i as nat, not_p(young_p)),
            decreases split - i,
        {
            let doomed = clauses[i].active_lits > 42 && *self.activity.get(&i).unwrap() < 7;
            if doomed {
                young_out.push(i);
            } else {
                young_in.push(i);
            }
            i += 1;
        }
        let mut old_out: Vec<usize> = Vec::new();
        let mut old_in: Vec<usize> = Vec::new();
        let mut i: usize = 0;
        while i < old_len
            invariant
                len == clauses@.len(),
                split == clauses@.len() / 16,
                old_len == clauses@.len() - split,
                i <= old_len,
                self.activity@ == act,
                old_p == old_doomed(clauses@, act, self.threshold),
                forall|k: usize| k < clauses@.len() - clauses@.len() / 16 ==> #[trigger] act.contains_key(k),
                old_out@ == indices_where(i as nat, old_p),
                old_in@ == indices_where(i as nat, not_p(old_p)),
            decreases old_len - i,
        {
            let doomed = clauses[split + i].active_lits > 8 && *self.activity.get(&i).unwrap() < self.threshold;
            if doomed {
                old_out.push(i);
            } else {
                old_in.push(i);
            }
            i += 1;
        }
        self.threshold = self.threshold.wrapping_add(1);
        let ghost kept = old_in@ + young_in@;
        proof {
            lemma_indices_where_bounds(old_len as nat, not_p(old_p));
            lemma_indices_where_bounds(split as nat, not_p(young_p));
            assert forall|m: int| 0 <= m < kept.len() implies (#[trigger] kept[m]) < clauses@.len() - clauses@.len() / 16 by {
                if m < old_in@.len() {
                    assert(kept[m] == old_in@[m]);
                } else {
                    assert(kept[m] == young_in@[m - old_in@.len()]);
                }
            }
        }
        let mut activity: HashMap<ClauseId, u32> = HashMap::new();
        let mut new_i: usize = 0;
        while new_i < old_in.len() + young_in.len()
            invariant
                new_i <= old_in@.len() + young_in@.len(),
                old_in@.len() + young_in@.len() <= len,
                len == clauses@.len(),
                kept == old_in@ + young_in@,
                self.activity@ == act,
                forall|k: usize| k < clauses@.len() - clauses@.len() / 16 ==> #[trigger] act.contains_key(k),
                forall|m: int| 0 <= m < kept.len() ==> (#[trigger] kept[m]) < clauses@.len() - clauses@.len() / 16,
                activity@ == Map::new(|k: usize| k < new_i, |k: usize| act[kept[k as int]]),
            decreases old_in@.len() + young_in@.len() - new_i,
        {
            let i = if new_i < old_in.len() { old_in[new_i] } else { young_in[new_i - old_in.len()] };
            assert(i == kept[new_i as int]);
            assert(act.contains_key(i));
            let a = *self.activity.get(&i).unwrap();
            activity.insert(new_i, a);
            new_i += 1;
            assert(activity@ =~= Map::new(|k: usize| k < new_i, |k: usize| act[kept[k as int]]));
        }
        self.activity = activity;
        old_out.append(&mut young_out);
        old_out
    }

    /// Registers activity 0 at the position after the known ones, unless
    /// that position already has one.
    fn learn_clause(&mut self, _clause: Clause)
        ensures
            final(self).threshold() == old(self).threshold(),
            final(self).activity() == if old(self).activity().contains_key(old(self).activity().len() as usize) {
                old(self).activity()
            } else {
                old(self).activity().insert(old(self).activity().len() as usize, 0)
            },
    {
        let key = self.activity.len();
        if !self.activity.contains_key(&key) {
            self.activity.insert(key, 0);
        }
    }

    /// Raises the activity of the position by one (wrapping), or sets it to
    /// 1 when it had none.
    fn conflict_contrib_hook(&mut self, index: ClauseId)
        ensures
            final(self).threshold() == old(self).threshold(),
            final(self).activity() == old(self).activity().insert(index,
                if old(self).activity().contains_key(index) { old(self).activity()[index].wrapping_add(1) } else { 1 }),
    {
        let raised = match self.activity.get(&index) {
            Some(a) => a.wrapping_add(1),
            None => 1,
        };
        self.activity.insert(index, raised);
    }
}

} // verus!
