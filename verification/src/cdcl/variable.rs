//! The variables of the CDCL search.
use vstd::prelude::*;
use crate::cdcl::clause::ClauseId;
use crate::cnf::CNF;

verus! {

/// Index of a variable, counted from 0.
pub type VariableId = usize;

/// Why a variable has its value: forced by a clause, a branching decision,
/// or known from the start (it occurs in no clause).
#[derive(Debug, Clone, Copy, PartialEq, Eq, Structural)]
pub enum AssignmentType {
    Forced(ClauseId),
    Branching,
    Known,
}

/// The value of a variable, the branching level at which it was set, and why.
#[derive(Debug, Clone, Copy, PartialEq, Eq, Structural)]
pub struct Assignment {
    pub sign: bool,
    pub branching_level: usize,
    pub reason: AssignmentType,
}

/// A variable of the CDCL search: the clauses that watch one of its
/// literals (each listed once) and its assignment, if any.
#[derive(Debug)]
pub struct Variable {
    pub watched_occ: Vec<ClauseId>,
    pub assignment: Option<Assignment>,
}

/// All variables of the search.
pub type Variables = Vec<Variable>;

/// No clause index is listed twice.
pub open spec fn no_duplicates(s: Seq<ClauseId>) -> bool {
    forall|a: int, b: int| 0 <= a < b < s.len() ==> s[a] != s[b]
}

impl Variable {
    /// The variable `var_num` of a formula whose clauses are sorted: it is
    /// watched by the clauses whose first or last literal names it; a
    /// variable that occurs in no clause is known to be false.
    pub fn new(cnf: &CNF, var_num: usize) -> (r: Variable)
        ensures
            no_duplicates(r.watched_occ@),
            forall|k: int| 0 <= k < r.watched_occ@.len() ==> #[trigger] r.watched_occ@[k] < cnf.clauses@.len(),
            forall|c: int| 0 <= c < cnf.clauses@.len() ==> (r.watched_occ@.contains(c as usize) <==> {
                let vs = #[trigger] cnf.clauses@[c].vars@;
                vs.len() > 0 && (vs[0].id == var_num || vs[vs.len() - 1].id == var_num)
            }),
            r.assignment == if exists|c: int, i: int| 0 <= c < cnf.clauses@.len() && 0 <= i < cnf.clauses@[c].vars@.len()
                && #[trigger] cnf.clauses@[c].vars@[i].id == var_num {
                None
            } else {
                Some(Assignment { sign: false, branching_level: 0, reason: AssignmentType::Known })
            },
    {
        let mut used = false;
        let mut watched_occ: Vec<ClauseId> = Vec::new();
        let mut index: usize = 0;
        while index < cnf.clauses.len()
            invariant
                index <= cnf.clauses@.len(),
                no_duplicates(watched_occ@),
                forall|k: int| 0 <= k < watched_occ@.len() ==> #[trigger] watched_occ@[k] < index,
                forall|c: int| 0 <= c < index ==> (watched_occ@.contains(c as usize) <==> {
                    let vs = #[trigger] cnf.clauses@[c].vars@;
                    vs.len() > 0 && (vs[0].id == var_num || vs[vs.len() - 1].id == var_num)
                }),
                used == exists|c: int, i: int| 0 <= c < index && 0 <= i < cnf.clauses@[c].vars@.len()
                    && #[trigger] cnf.clauses@[c].vars@[i].id == var_num,
            decreases cnf.clauses@.len() - index,
        {
            let vars = &cnf.clauses[index].vars;
            let mut i: usize = 0;
            let ghost used_before = used;
            while i < vars.len()
                invariant
                    i <= vars@.len(),
                    *vars == cnf.clauses@[index as int].vars,
                    index < cnf.clauses@.len(),
                    used == (used_before || exists|k: int| 0 <= k < i && #[trigger] vars@[k].id == var_num),
                decreases vars@.len() - i,
            {
                if vars[i].id == var_num {
                    used = true;
                }
                i += 1;
            }
            proof {
                if used && !used_before {
                    let k = choose|k: int| 0 <= k < i && #[trigger] vars@[k].id == var_num;
                    assert(cnf.clauses@[index as int].vars@[k].id == var_num);
                }
                if used_before {
                    let (c, k) = choose|c: int, k: int| 0 <= c < index && 0 <= k < cnf.clauses@[c].vars@.len()
                        && #[trigger] cnf.clauses@[c].vars@[k].id == var_num;
                    assert(cnf.clauses@[c].vars@[k].id == var_num);
                }
                assert(used == exists|c: int, k: int| 0 <= c < index + 1 && 0 <= k < cnf.clauses@[c].vars@.len()
                    && #[trigger] cnf.clauses@[c].vars@[k].id == var_num) by {
                    if exists|c: int, k: int| 0 <= c < index + 1 && 0 <= k < cnf.clauses@[c].vars@.len()
                        && #[trigger] cnf.clauses@[c].vars@[k].id == var_num {
                        let (c, k) = choose|c: int, k: int| 0 <= c < index + 1 && 0 <= k < cnf.clauses@[c].vars@.len()
                            && #[trigger] cnf.clauses@[c].vars@[k].id == var_num;
                        if c == index {
                            assert(vars@[k].id == var_num);
                        }
                    }
                }
            }
            let ghost before = watched_occ@;
            let n = vars.len();
            if n > 0 && (vars[0].id == var_num || vars[n - 1].id == var_num) {
                watched_occ.push(index);
            }
            proof {
                assert forall|c: int| 0 <= c < index + 1 implies (watched_occ@.contains(c as usize) <==> {
                    let vs = #[trigger] cnf.clauses@[c].vars@;
                    vs.len() > 0 && (vs[0].id == var_num || vs[vs.len() - 1].id == var_num)
                }) by {
                    if watched_occ@.contains(c as usize) {
                        let k = choose|k: int| 0 <= k < watched_occ@.len() && watched_occ@[k] == c as usize;
                        if k < before.len() { assert(before[k] == c); assert(before.contains(c as usize)); }
                    }
                    if c < index && before.contains(c as usize) {
                        let k = choose|k: int| 0 <= k < before.len() && before[k] == c as usize;
                        assert(watched_occ@[k] == c);
                    }
                    if c == index && before.contains(c as usize) {
                        let k = choose|k: int| 0 <= k < before.len() && before[k] == c as usize;
                        assert(before[k] < index);
                    }
                    if c == index && watched_occ@.len() > before.len() {
                        assert(watched_occ@[before.len() as int] == index);
                    }
                }
            }
            index += 1;
        }
        let assignment = if used {
            None
        } else {
            Some(Assignment { sign: false, branching_level: 0, reason: AssignmentType::Known })
        };
        Variable { watched_occ, assignment }
    }

    /// Lists a clause among the watching clauses, unless it is listed already.
    pub fn add_watched_occ(&mut self, index: ClauseId)
        requires
            no_duplicates(old(self).watched_occ@),
        ensures
            no_duplicates(final(self).watched_occ@),
            final(self).assignment == old(self).assignment,
            forall|c: ClauseId| #[trigger] final(self).watched_occ@.contains(c) <==> (old(self).watched_occ@.contains(c) || c == index),
    {
        let mut k: usize = 0;
        while k < self.watched_occ.len()
            invariant
                k <= self.watched_occ@.len(),
                self.watched_occ@ == old(self).watched_occ@,
                self.assignment == old(self).assignment,
                no_duplicates(self.watched_occ@),
                forall|m: int| 0 <= m < k ==> self.watched_occ@[m] != index,
            decreases self.watched_occ@.len() - k,
        {
            if self.watched_occ[k] == index {
                proof { assert(old(self).watched_occ@.contains(index)); }
                return;
            }
            k += 1;
        }
        self.watched_occ.push(index);
        proof {
            assert forall|c: ClauseId| #[trigger] self.watched_occ@.contains(c) <==> (old(self).watched_occ@.contains(c) || c == index) by {
                if self.watched_occ@.contains(c) {
                    let m = choose|m: int| 0 <= m < self.watched_occ@.len() && self.watched_occ@[m] == c;
                    if m < old(self).watched_occ@.len() { assert(old(self).watched_occ@[m] == c); }
                }
                if old(self).watched_occ@.contains(c) {
                    let m = choose|m: int| 0 <= m < old(self).watched_occ@.len() && old(self).watched_occ@[m] == c;
                    assert(self.watched_occ@[m] == c);
                }
                if c == index {
                    assert(self.watched_occ@[old(self).watched_occ@.len() as int] == c);
                }
            }
        }
    }

    /// Removes a clause from the watching clauses, if it is listed.
    pub fn remove_watched_occ(&mut self, index: ClauseId)
        requires
            no_duplicates(old(self).watched_occ@),
        ensures
            no_duplicates(final(self).watched_occ@),
            final(self).assignment == old(self).assignment,
            forall|c: ClauseId| #[trigger] final(self).watched_occ@.contains(c) <==> (old(self).watched_occ@.contains(c) && c != index),
    {
        let mut k: usize = 0;
        while k < self.watched_occ.len()
            invariant
                k <= self.watched_occ@.len(),
                self.watched_occ@ == old(self).watched_occ@,
                self.assignment == old(self).assignment,
                no_duplicates(self.watched_occ@),
                forall|m: int| 0 <= m < k ==> self.watched_occ@[m] != index,
            decreases self.watched_occ@.len() - k,
        {
            if self.watched_occ[k] == index {
                let ghost before = self.watched_occ@;
                self.watched_occ.remove(k);
                proof {
                    before.remove_ensures(k as int);
                    assert forall|a: int, b: int| 0 <= a < b < self.watched_occ@.len() implies self.watched_occ@[a] != self.watched_occ@[b] by {
                        let a2 = if a < k { a } else { a + 1 };
                        let b2 = if b < k { b } else { b + 1 };
                        assert(self.watched_occ@[a] == before[a2]);
                        assert(self.watched_occ@[b] == before[b2]);
                    }
                    assert forall|c: ClauseId| #[trigger] self.watched_occ@.contains(c) <==> (before.contains(c) && c != index) by {
                        if self.watched_occ@.contains(c) {
                            let m = choose|m: int| 0 <= m < self.watched_occ@.len() && self.watched_occ@[m] == c;
                            let m2 = if m < k { m } else { m + 1 };
                            assert(before[m2] == c);
                            assert(m2 != k);
                        }
                        if before.contains(c) && c != index {
                            let m = choose|m: int| 0 <= m < before.len() && before[m] == c;
                            assert(m != k);
                            if m < k { assert(self.watched_occ@[m] == c); } else { assert(self.watched_occ@[m - 1] == c); }
                        }
                    }
                }
                return;
            }
            k += 1;
        }
        proof {
            assert forall|c: ClauseId| #[trigger] self.watched_occ@.contains(c) <==> (old(self).watched_occ@.contains(c) && c != index) by {
                if c == index && self.watched_occ@.contains(c) {
                    let m = choose|m: int| 0 <= m < self.watched_occ@.len() && self.watched_occ@[m] == c;
                }
            }
        }
    }
}

} // verus!
