//! The clauses of the CDCL search: the clauses of the formula, which stay,
//! and learned clauses, which can be deleted again.
use vstd::prelude::*;
use stable_vec::StableVec;
use crate::cnf::{CNFClause, CNFVar};

verus! {

/// Index of a clause: the clauses of the formula first, learned clauses after them.
pub type ClauseId = usize;

/// A clause of the CDCL search: its literals (identifiers counted from 0)
/// and the positions of its two watched literals.
#[derive(Debug)]
pub struct Clause {
    pub literals: Vec<CNFVar>,
    pub watched_literals: [usize; 2],
}

/// The plain value of a clause: its literals and its two watched positions.
pub type ClauseValue = (Seq<CNFVar>, usize, usize);

/// The plain value of a clause.
pub open spec fn clause_value(c: Clause) -> (Seq<CNFVar>, usize, usize) {
    (c.literals@, c.watched_literals[0], c.watched_literals[1])
}

/// The watched positions point into the literals, when there are any.
pub open spec fn positions_ok(c: (Seq<CNFVar>, usize, usize)) -> bool {
    c.0.len() > 0 ==> c.1 < c.0.len() && c.2 < c.0.len()
}

/// Every literal names one of the first `n` variables.
pub open spec fn ids_below(c: (Seq<CNFVar>, usize, usize), n: nat) -> bool {
    forall|i: int| 0 <= i < c.0.len() ==> (#[trigger] c.0[i]).id < n
}

/// The watched positions point into the literals (when there are any) and
/// every literal names one of the first `n` variables.
pub open spec fn clause_value_wf(c: (Seq<CNFVar>, usize, usize), n: nat) -> bool {
    &&& positions_ok(c)
    &&& ids_below(c, n)
}

impl Clause {
    /// The clause of the search for a clause of the formula: identifiers
    /// lowered by one, the first and the last literal watched.
    pub fn new(cnf_clause: &CNFClause) -> (r: Clause)
        requires
            forall|i: int| 0 <= i < cnf_clause.vars@.len() ==> (#[trigger] cnf_clause.vars@[i]).id >= 1,
        ensures
            r.literals@ == crate::dpll::lowered(cnf_clause.vars@),
            r.watched_literals[0] == 0,
            r.watched_literals[1] == if r.literals@.len() > 0 { (r.literals@.len() - 1) as usize } else { 0 },
    {
        let mut literals: Vec<CNFVar> = Vec::with_capacity(cnf_clause.vars.len());
        let mut i: usize = 0;
        while i < cnf_clause.vars.len()
            invariant
                i <= cnf_clause.vars@.len(),
                forall|k: int| 0 <= k < cnf_clause.vars@.len() ==> (#[trigger] cnf_clause.vars@[k]).id >= 1,
                literals@ == crate::dpll::lowered(cnf_clause.vars@.take(i as int)),
            decreases cnf_clause.vars@.len() - i,
        {
            let v = cnf_clause.vars[i];
            literals.push(CNFVar { id: v.id - 1, sign: v.sign });
            i += 1;
            assert(literals@ =~= crate::dpll::lowered(cnf_clause.vars@.take(i as int)));
        }
        assert(cnf_clause.vars@.take(i as int) =~= cnf_clause.vars@);
        let last = if literals.len() > 0 { literals.len() - 1 } else { 0 };
        Clause { literals, watched_literals: [0, last] }
    }

    pub fn get_watched_lits(&self) -> (r: (CNFVar, CNFVar))
        requires
            self.watched_literals[0] < self.literals@.len(),
            self.watched_literals[1] < self.literals@.len(),
        ensures
            r.0 == self.literals@[self.watched_literals[0] as int],
            r.1 == self.literals@[self.watched_literals[1] as int],
    {
        (self.literals[self.watched_literals[0]], self.literals[self.watched_literals[1]])
    }

    pub fn get_first_watched(&self) -> (r: CNFVar)
        requires
            self.watched_literals[0] < self.literals@.len(),
        ensures
            r == self.literals@[self.watched_literals[0] as int],
    {
        self.literals[self.watched_literals[0]]
    }

    pub fn get_second_watched(&self) -> (r: CNFVar)
        requires
            self.watched_literals[1] < self.literals@.len(),
        ensures
            r == self.literals@[self.watched_literals[1] as int],
    {
        self.literals[self.watched_literals[1]]
    }
}

/// The learned clauses, held in a `stable_vec::StableVec`, whose indices stay
/// valid when other clauses are removed. Verus cannot declare the crate's
/// type (its generic core is bound by a trait of the crate), so the library
/// holds it in this opaque struct.
#[verifier::external_body]
pub struct LearnedSlots {
    slots: StableVec<Clause>,
}

/// The filled slots of the stable vector and the values of their clauses.
pub uninterp spec fn slot_contents(s: LearnedSlots) -> Map<usize, (Seq<CNFVar>, usize, usize)>;

/// The index the next `push` of the stable vector returns; every filled slot lies below it.
pub uninterp spec fn slot_bound(s: LearnedSlots) -> nat;

/// No filled slot.
pub open spec fn no_slots() -> Map<usize, ClauseValue> {
    Map::empty()
}

/// `StableVec::new`. Claimed: no slot, next index 0.
#[verifier::external_body]
fn slots_new() -> (r: LearnedSlots)
    ensures
        slot_contents(r) == no_slots(),
        slot_bound(r) == 0,
{
    LearnedSlots { slots: StableVec::new() }
}

/// `StableVec::push`. Claimed: the clause fills the slot at the next index,
/// which is returned, and the next index moves past it.
#[verifier::external_body]
fn slots_push(s: &mut LearnedSlots, c: Clause) -> (r: usize)
    ensures
        r == slot_bound(*old(s)),
        slot_bound(*final(s)) == slot_bound(*old(s)) + 1,
        slot_contents(*final(s)) == slot_contents(*old(s)).insert(r, clause_value(c)),
{
    s.slots.push(c)
}

/// `StableVec::insert` at an index below the next index (the crate panics at
/// or beyond its capacity, which is at least the next index). Claimed: the
/// slot holds the clause afterwards; the next index is unchanged.
#[verifier::external_body]
fn slots_insert(s: &mut LearnedSlots, index: usize, c: Clause)
    requires
        index < slot_bound(*old(s)),
    ensures
        slot_bound(*final(s)) == slot_bound(*old(s)),
        slot_contents(*final(s)) == slot_contents(*old(s)).insert(index, clause_value(c)),
{
    s.slots.insert(index, c);
}

/// `StableVec::remove` at an index below the next index. Claimed: the slot is
/// emptied and its clause returned, `None` when it was empty.
#[verifier::external_body]
fn slots_remove(s: &mut LearnedSlots, index: usize) -> (r: Option<Clause>)
    requires
        index < slot_bound(*old(s)),
    ensures
        slot_bound(*final(s)) == slot_bound(*old(s)),
        slot_contents(*final(s)) == slot_contents(*old(s)).remove(index),
        match r {
            Some(c) => slot_contents(*old(s)).contains_key(index) && clause_value(c) == slot_contents(*old(s))[index],
            None => !slot_contents(*old(s)).contains_key(index),
        },
{
    s.slots.remove(index)
}

/// `StableVec::get`. Claimed: the clause of a filled slot, `None` for an empty one.
#[verifier::external_body]
fn slots_get(s: &LearnedSlots, index: usize) -> (r: Option<&Clause>)
    ensures
        match r {
            Some(c) => slot_contents(*s).contains_key(index) && clause_value(*c) == slot_contents(*s)[index],
            None => !slot_contents(*s).contains_key(index),
        },
{
    s.slots.get(index)
}

/// `StableVec::num_elements`. Claimed: the number of filled slots.
#[verifier::external_body]
fn slots_num_elements(s: &LearnedSlots) -> (r: usize)
    ensures
        r == slot_contents(*s).dom().len(),
{
    s.slots.num_elements()
}

/// The clauses of the search: those of the formula, then the learned ones.
/// Deleted learned clauses leave their index free; the next learned clause
/// takes the smallest free index.
pub struct Clauses {
    formula: Vec<Clause>,
    additional_clauses: LearnedSlots,
    used_indices: Vec<usize>,
}

impl Clauses {
    /// The clause at each index: a clause of the formula, or a filled learned slot.
    pub closed spec fn view_at(&self, index: int) -> Option<(Seq<CNFVar>, usize, usize)> {
        if 0 <= index < self.formula@.len() {
            Some(clause_value(self.formula@[index]))
        } else if index >= self.formula@.len() && index - self.formula@.len() <= usize::MAX
            && slot_contents(self.additional_clauses).contains_key(
            (index - self.formula@.len()) as usize) {
            Some(slot_contents(self.additional_clauses)[(index - self.formula@.len()) as usize])
        } else {
            None
        }
    }

    /// The number of clauses of the formula.
    pub closed spec fn formula_len(&self) -> nat {
        self.formula@.len()
    }

    /// The number of learned clauses.
    pub closed spec fn learned_count(&self) -> nat {
        slot_contents(self.additional_clauses).dom().len()
    }

    /// One past the largest index a clause can have.
    pub closed spec fn bound(&self) -> nat {
        self.formula@.len() + slot_bound(self.additional_clauses)
    }

    /// The free indices of learned clauses are empty slots below the next
    /// index, each listed once; every clause lies below the bound, which fits
    /// in `usize`, and its watched positions point into its literals.
    pub closed spec fn indices_wf(&self) -> bool {
        &&& forall|k: int| 0 <= k < self.used_indices@.len() ==> #[trigger] self.used_indices@[k] < slot_bound(self.additional_clauses)
            && !slot_contents(self.additional_clauses).contains_key(self.used_indices@[k])
        &&& forall|a: int, b: int| 0 <= a < b < self.used_indices@.len() ==> self.used_indices@[a] != self.used_indices@[b]
        &&& forall|k: usize| k < slot_bound(self.additional_clauses) && !slot_contents(self.additional_clauses).contains_key(k)
            ==> #[trigger] self.used_indices@.contains(k)
        &&& slot_contents(self.additional_clauses).dom().finite()
        &&& forall|i: int| 0 <= i < self.bound() && (#[trigger] self.view_at(i)) is Some ==> positions_ok(self.view_at(i)->0)
        &&& forall|i: int| #[trigger] self.view_at(i) is Some ==> 0 <= i < self.bound()
        &&& self.bound() <= usize::MAX
    }

    /// Every literal of every clause names one of the first `n` variables.
    pub closed spec fn lits_below(&self, n: nat) -> bool {
        forall|i: int| 0 <= i < self.bound() && (#[trigger] self.view_at(i)) is Some ==> ids_below(self.view_at(i)->0, n)
    }

    /// The clauses are well-formed for `n` variables.
    pub open spec fn wf(&self, n: nat) -> bool {
        &&& self.indices_wf()
        &&& self.lits_below(n)
    }

    pub fn new(formula: Vec<Clause>) -> (r: Clauses)
        ensures
            r.formula_len() == formula@.len(),
            r.bound() == formula@.len(),
            forall|i: int| 0 <= i < formula@.len() ==> r.view_at(i) == Some(clause_value(#[trigger] formula@[i])),
            forall|i: int| i >= formula@.len() ==> #[trigger] r.view_at(i) is None,
            forall|i: int| i < 0 ==> #[trigger] r.view_at(i) is None,
            forall|n: nat| (forall|i: int| 0 <= i < formula@.len() ==> clause_value_wf(clause_value(#[trigger] formula@[i]), n))
                ==> #[trigger] r.wf(n),
    {
        let count = formula.len();
        let r = Clauses { formula, additional_clauses: slots_new(), used_indices: Vec::new() };
        proof {
            assert(r.bound() == count);
            assert forall|i: int| #[trigger] r.view_at(i) is Some implies 0 <= i < r.bound() by {}
            assert forall|n: nat| (forall|i: int| 0 <= i < r.formula@.len() ==> clause_value_wf(clause_value(#[trigger] r.formula@[i]), n))
                implies #[trigger] r.wf(n) by {
                assert forall|i: int| 0 <= i < r.bound() && (#[trigger] r.view_at(i)) is Some
                    implies clause_value_wf(r.view_at(i)->0, n) by {
                    assert(r.view_at(i) == Some(clause_value(r.formula@[i])));
                }
            }
        }
        r
    }
}

impl Clauses {
    /// The literals of the clause at `index`.
    pub open spec fn lits_at(&self, index: int) -> Seq<CNFVar> {
        (self.view_at(index)->0).0
    }

    /// The clause at `index` exists.
    pub open spec fn has(&self, index: int) -> bool {
        self.view_at(index) is Some
    }

    /// The smallest of a non-empty list of indices, with its position.
    fn min_position(v: &Vec<usize>) -> (r: usize)
        requires
            v@.len() > 0,
        ensures
            r < v@.len(),
            forall|k: int| 0 <= k < v@.len() ==> v@[r as int] <= #[trigger] v@[k],
    {
        let mut best: usize = 0;
        let mut k: usize = 1;
        while k < v.len()
            invariant
                1 <= k <= v@.len(),
                best < k,
                forall|m: int| 0 <= m < k ==> v@[best as int] <= #[trigger] v@[m],
            decreases v@.len() - k,
        {
            if v[k] < v[best] {
                best = k;
            }
            k += 1;
        }
        best
    }

    /// Adds a learned clause, watching its first and last literal, at the
    /// smallest free index, or after all others when none is free. Returns
    /// its index.
    pub fn push(&mut self, clause: CNFClause) -> (r: usize)
        requires
            old(self).indices_wf(),
            old(self).bound() < usize::MAX,
        ensures
            final(self).indices_wf(),
            forall|n: nat| #[trigger] old(self).lits_below(n)
                && (forall|i: int| 0 <= i < clause.vars@.len() ==> (#[trigger] clause.vars@[i]).id < n)
                ==> final(self).lits_below(n),
            final(self).formula_len() == old(self).formula_len(),
            r >= old(self).formula_len(),
            !old(self).has(r as int),
            final(self).view_at(r as int) == Some((clause.vars@,
                0usize, if clause.vars@.len() > 0 { (clause.vars@.len() - 1) as usize } else { 0usize })),
            forall|i: int| i != r ==> #[trigger] final(self).view_at(i) == old(self).view_at(i),
            final(self).bound() <= old(self).bound() + 1,
            final(self).learned_count() == old(self).learned_count() + 1,
            (exists|i: int| old(self).formula_len() <= i < old(self).bound() && !#[trigger] old(self).has(i))
                ==> forall|i: int| old(self).formula_len() <= i < r ==> #[trigger] old(self).has(i),
            !(exists|i: int| old(self).formula_len() <= i < old(self).bound() && !#[trigger] old(self).has(i))
                ==> r == old(self).bound(),
    {
        let len = clause.vars.len();
        let last = if len > 0 { len - 1 } else { 0 };
        let ghost vars_view = clause.vars@;
        let c = Clause { literals: clause.vars, watched_literals: [0, last] };
        let base = self.formula.len();
        if self.used_indices.len() > 0 {
            let p = Self::min_position(&self.used_indices);
            let index = self.used_indices[p];
            let ghost before = self.used_indices@;
            let ghost slots0 = slot_contents(self.additional_clauses);
            self.used_indices.remove(p);
            slots_insert(&mut self.additional_clauses, index, c);
            proof {
                assert(before.contains(index));
                assert(!slots0.contains_key(index));
                assert(!old(self).has(base + index));
                assert(old(self).formula_len() <= base + index < old(self).bound());
                assert forall|i: int| old(self).formula_len() <= i < base + index implies #[trigger] old(self).has(i) by {
                    let k = (i - base) as usize;
                    if !old(self).has(i) {
                        assert(!slots0.contains_key(k));
                        assert(before.contains(k));
                        let q = choose|q: int| 0 <= q < before.len() && before[q] == k;
                        assert(before[p as int] <= before[q]);
                    }
                }
                assert(slot_contents(self.additional_clauses).dom() =~= slots0.dom().insert(index));
                assert forall|k: usize| k < slot_bound(self.additional_clauses) && !slot_contents(self.additional_clauses).contains_key(k)
                    implies #[trigger] self.used_indices@.contains(k) by {
                    assert(before.contains(k));
                    let q = choose|q: int| 0 <= q < before.len() && before[q] == k;
                    assert(q != p);
                    if q < p { assert(self.used_indices@[q] == k); } else { assert(self.used_indices@[q - 1] == k); }
                }
                assert forall|k: int| 0 <= k < self.used_indices@.len() implies #[trigger] self.used_indices@[k] < slot_bound(self.additional_clauses)
                    && !slot_contents(self.additional_clauses).contains_key(self.used_indices@[k]) by {
                    if k < p { assert(self.used_indices@[k] == before[k]); } else { assert(self.used_indices@[k] == before[k + 1]); }
                }
                assert forall|a: int, b: int| 0 <= a < b < self.used_indices@.len() implies self.used_indices@[a] != self.used_indices@[b] by {
                    let a2 = if a < p { a } else { a + 1 };
                    let b2 = if b < p { b } else { b + 1 };
                    assert(self.used_indices@[a] == before[a2]);
                    assert(self.used_indices@[b] == before[b2]);
                }
                assert forall|i: int| i != base + index implies #[trigger] self.view_at(i) == old(self).view_at(i) by {}
                assert(self.view_at(base + index) == Some(clause_value(c)));
                assert forall|i: int| 0 <= i < self.bound() && (#[trigger] self.view_at(i)) is Some implies positions_ok(self.view_at(i)->0) by {
                    if i != base + index {
                        assert(self.view_at(i) == old(self).view_at(i));
                    }
                }
                assert forall|n: nat| #[trigger] old(self).lits_below(n)
                    && (forall|i: int| 0 <= i < vars_view.len() ==> (#[trigger] vars_view[i]).id < n)
                    implies self.lits_below(n) by {
                    assert forall|i: int| 0 <= i < self.bound() && (#[trigger] self.view_at(i)) is Some implies ids_below(self.view_at(i)->0, n) by {
                        if i != base + index {
                            assert(self.view_at(i) == old(self).view_at(i));
                        }
                    }
                }
            }
            base + index
        } else {
            let ghost slots0 = slot_contents(self.additional_clauses);
            let index = slots_push(&mut self.additional_clauses, c);
            proof {
                assert(!slots0.contains_key(index)) by {
                    if slots0.contains_key(index) {
                        assert(old(self).view_at(base + index) is Some);
                    }
                }
                assert(slot_contents(self.additional_clauses).dom() =~= slots0.dom().insert(index));
                assert(!(exists|i: int| old(self).formula_len() <= i < old(self).bound() && !#[trigger] old(self).has(i))) by {
                    if exists|i: int| old(self).formula_len() <= i < old(self).bound() && !#[trigger] old(self).has(i) {
                        let i = choose|i: int| old(self).formula_len() <= i < old(self).bound() && !#[trigger] old(self).has(i);
                        let k = (i - base) as usize;
                        assert(!slots0.contains_key(k));
                        assert(old(self).used_indices@.contains(k));
                    }
                }
                assert forall|i: int| i != base + index implies #[trigger] self.view_at(i) == old(self).view_at(i) by {}
                assert forall|i: int| 0 <= i < self.bound() && (#[trigger] self.view_at(i)) is Some implies positions_ok(self.view_at(i)->0) by {
                    if i != base + index {
                        assert(self.view_at(i) == old(self).view_at(i));
                    }
                }
                assert forall|n: nat| #[trigger] old(self).lits_below(n)
                    && (forall|i: int| 0 <= i < vars_view.len() ==> (#[trigger] vars_view[i]).id < n)
                    implies self.lits_below(n) by {
                    assert forall|i: int| 0 <= i < self.bound() && (#[trigger] self.view_at(i)) is Some implies ids_below(self.view_at(i)->0, n) by {
                        if i != base + index {
                            assert(self.view_at(i) == old(self).view_at(i));
                        }
                    }
                }
                assert forall|k: int| 0 <= k < self.used_indices@.len() implies #[trigger] self.used_indices@[k] < slot_bound(self.additional_clauses)
                    && !slot_contents(self.additional_clauses).contains_key(self.used_indices@[k]) by {}
            }
            base + index
        }
    }

    /// The number of clauses: those of the formula and the learned ones
    /// (saturating at `usize::MAX`).
    pub fn len(&self) -> (r: usize)
        ensures
            r == if self.formula_len() + self.learned_count() > usize::MAX {
                usize::MAX as nat
            } else {
                self.formula_len() + self.learned_count()
            },
    {
        self.formula.len().saturating_add(slots_num_elements(&self.additional_clauses))
    }

    /// The number of clauses of the formula; learned clauses have larger indices.
    pub fn len_formula(&self) -> (r: usize)
        ensures
            r == self.formula_len(),
    {
        self.formula.len()
    }

    /// One past the largest index a clause can have (saturating at `usize::MAX`).
    pub fn index_bound_unchecked(&self) -> (r: usize)
        ensures
            r == if self.bound() <= usize::MAX { self.bound() } else { usize::MAX as nat },
    {
        self.formula.len().saturating_add(slots_next_index(&self.additional_clauses))
    }

    /// The indices of the clauses present, the formula's first, in
    /// increasing order; `get` gives the clause at each.
    pub fn iter(&self) -> (r: Vec<usize>)
        requires
            self.indices_wf(),
        ensures
            forall|a: int, b: int| 0 <= a < b < r@.len() ==> r@[a] < r@[b],
            forall|x: usize| #[trigger] r@.contains(x) <==> self.has(x as int),
    {
        let bound = self.index_bound_unchecked();
        let mut out: Vec<usize> = Vec::new();
        let mut i: usize = 0;
        while i < bound
            invariant
                self.indices_wf(),
                i <= bound,
                bound == self.bound(),
                forall|a: int, b: int| 0 <= a < b < out@.len() ==> out@[a] < out@[b],
                forall|a: int| 0 <= a < out@.len() ==> out@[a] < i,
                forall|x: usize| #[trigger] out@.contains(x) <==> (x < i && self.has(x as int)),
            decreases bound - i,
        {
            if self.contains(i) {
                let ghost before = out@;
                out.push(i);
                proof {
                    assert forall|x: usize| #[trigger] out@.contains(x) <==> (x < i + 1 && self.has(x as int)) by {
                        if x == i {
                            assert(out@[before.len() as int] == i);
                        } else if out@.contains(x) {
                            let p = choose|p: int| 0 <= p < out@.len() && out@[p] == x;
                            assert(p < before.len());
                            assert(before[p] == x);
                            assert(before.contains(x));
                        } else if x < i && self.has(x as int) {
                            assert(before.contains(x));
                            let p = choose|p: int| 0 <= p < before.len() && before[p] == x;
                            assert(out@[p] == x);
                        }
                    }
                }
            } else {
                proof {
                    assert forall|x: usize| #[trigger] out@.contains(x) <==> (x < i + 1 && self.has(x as int)) by {
                        if out@.contains(x) {
                            let p = choose|p: int| 0 <= p < out@.len() && out@[p] == x;
                        }
                    }
                }
            }
            i += 1;
        }
        out
    }

    /// Whether a clause exists at `index`.
    pub fn contains(&self, index: usize) -> (r: bool)
        ensures
            r == self.has(index as int),
    {
        if index < self.formula.len() {
            true
        } else {
            slots_get(&self.additional_clauses, index - self.formula.len()).is_some()
        }
    }

    /// The clause at `index`.
    pub fn get(&self, index: usize) -> (r: &Clause)
        requires
            self.has(index as int),
        ensures
            Some(clause_value(*r)) == self.view_at(index as int),
    {
        if index < self.formula.len() {
            &self.formula[index]
        } else {
            match slots_get(&self.additional_clauses, index - self.formula.len()) {
                Some(c) => c,
                None => vstd::pervasive::unreached(),
            }
        }
    }

    /// Sets one watched position of the clause at `index`.
    pub fn set_watched(&mut self, index: usize, which: usize, value: usize)
        requires
            old(self).indices_wf(),
            old(self).has(index as int),
            which < 2,
            value < old(self).lits_at(index as int).len(),
        ensures
            final(self).indices_wf(),
            forall|n: nat| #[trigger] old(self).lits_below(n) ==> final(self).lits_below(n),
            final(self).formula_len() == old(self).formula_len(),
            final(self).bound() == old(self).bound(),
            final(self).view_at(index as int) == Some({
                let c = old(self).view_at(index as int)->0;
                if which == 0 { (c.0, value, c.2) } else { (c.0, c.1, value) }
            }),
            forall|i: int| i != index ==> #[trigger] final(self).view_at(i) == old(self).view_at(i),
    {
        if index < self.formula.len() {
            self.formula[index].watched_literals[which] = value;
            proof {
                assert forall|i: int| i != index implies #[trigger] self.view_at(i) == old(self).view_at(i) by {}
            }
        } else {
            let k = index - self.formula.len();
            let ghost before = slot_contents(self.additional_clauses);
            match slots_remove(&mut self.additional_clauses, k) {
                Some(c) => {
                    let mut c = c;
                    c.watched_literals[which] = value;
                    slots_insert(&mut self.additional_clauses, k, c);
                    proof {
                        assert(slot_contents(self.additional_clauses) =~= before.insert(k, {
                            let v = before[k];
                            if which == 0 { (v.0, value, v.2) } else { (v.0, v.1, value) }
                        }));
                    }
                },
                None => {},
            }
            proof {
                assert forall|i: int| i != index implies #[trigger] self.view_at(i) == old(self).view_at(i) by {}
            }
        }
        proof {
            assert forall|i: int| 0 <= i < self.bound() && (#[trigger] self.view_at(i)) is Some implies positions_ok(self.view_at(i)->0) by {
                if i != index {
                    assert(self.view_at(i) == old(self).view_at(i));
                }
            }
            assert forall|n: nat| #[trigger] old(self).lits_below(n) implies self.lits_below(n) by {
                assert forall|i: int| 0 <= i < self.bound() && (#[trigger] self.view_at(i)) is Some implies ids_below(self.view_at(i)->0, n) by {
                    if i != index {
                        assert(self.view_at(i) == old(self).view_at(i));
                    } else {
                        assert(old(self).view_at(i) is Some);
                    }
                }
            }
            assert forall|k: int| 0 <= k < self.used_indices@.len() implies #[trigger] self.used_indices@[k] < slot_bound(self.additional_clauses)
                && !slot_contents(self.additional_clauses).contains_key(self.used_indices@[k]) by {}
        }
    }

    /// Deletes the learned clause at `index`, freeing its index, and returns
    /// its two watched literals. The clause must be a learned one with literals.
    pub fn remove(&mut self, index: usize) -> (r: (CNFVar, CNFVar))
        requires
            old(self).indices_wf(),
            index >= old(self).formula_len(),
            old(self).has(index as int),
            old(self).lits_at(index as int).len() > 0,
        ensures
            final(self).indices_wf(),
            forall|n: nat| #[trigger] old(self).lits_below(n) ==> final(self).lits_below(n),
            final(self).formula_len() == old(self).formula_len(),
            final(self).bound() == old(self).bound(),
            !final(self).has(index as int),
            forall|i: int| i != index ==> #[trigger] final(self).view_at(i) == old(self).view_at(i),
            ({
                let c = old(self).view_at(index as int)->0;
                r == (c.0[c.1 as int], c.0[c.2 as int])
            }),
            final(self).learned_count() == old(self).learned_count() - 1,
    {
        let k = index - self.formula.len();
        let ghost before = self.used_indices@;
        let ghost slots0 = slot_contents(self.additional_clauses);
        match slots_remove(&mut self.additional_clauses, k) {
            Some(c) => {
                self.used_indices.push(k);
                proof {
                    assert(slot_contents(self.additional_clauses).dom() =~= slots0.dom().remove(k));
                    assert forall|j: usize| j < slot_bound(self.additional_clauses) && !slot_contents(self.additional_clauses).contains_key(j)
                        implies #[trigger] self.used_indices@.contains(j) by {
                        if j == k {
                            assert(self.used_indices@[before.len() as int] == k);
                        } else {
                            assert(before.contains(j));
                            let q = choose|q: int| 0 <= q < before.len() && before[q] == j;
                            assert(self.used_indices@[q] == j);
                        }
                    }
                    assert forall|i: int| i != index implies #[trigger] self.view_at(i) == old(self).view_at(i) by {}
                    assert forall|i: int| 0 <= i < self.bound() && (#[trigger] self.view_at(i)) is Some implies positions_ok(self.view_at(i)->0) by {
                        assert(self.view_at(i) == old(self).view_at(i));
                    }
                    assert forall|n: nat| #[trigger] old(self).lits_below(n) implies self.lits_below(n) by {
                        assert forall|i: int| 0 <= i < self.bound() && (#[trigger] self.view_at(i)) is Some implies ids_below(self.view_at(i)->0, n) by {
                            assert(self.view_at(i) == old(self).view_at(i));
                        }
                    }
                    assert(positions_ok(old(self).view_at(index as int)->0));
                    assert forall|m: int| 0 <= m < self.used_indices@.len() implies #[trigger] self.used_indices@[m] < slot_bound(self.additional_clauses)
                        && !slot_contents(self.additional_clauses).contains_key(self.used_indices@[m]) by {
                        if m < before.len() { assert(self.used_indices@[m] == before[m]); }
                    }
                    assert forall|a: int, b: int| 0 <= a < b < self.used_indices@.len() implies self.used_indices@[a] != self.used_indices@[b] by {
                        if b == before.len() {
                            assert(self.used_indices@[a] == before[a]);
                            assert(!slot_contents(old(self).additional_clauses).contains_key(before[a]));
                        }
                    }
                }
                c.get_watched_lits()
            },
            None => vstd::pervasive::unreached(),
        }
    }
}

impl Clauses {
    /// Every literal of an existing clause names one of the `n` variables, its
    /// watched positions point into its literals, and its index is below the bound.
    pub proof fn lemma_clause_wf(&self, n: nat, index: int)
        requires
            self.wf(n),
            self.has(index),
        ensures
            0 <= index < self.bound(),
            self.bound() <= usize::MAX,
            clause_value_wf(self.view_at(index)->0, n),
            forall|k: int| 0 <= k < self.lits_at(index).len() ==> (#[trigger] self.lits_at(index)[k]).id < n,
    {
    }
}

/// `StableVec::next_push_index`. Claimed: the index the next `push` returns.
#[verifier::external_body]
fn slots_next_index(s: &LearnedSlots) -> (r: usize)
    ensures
        r == slot_bound(*s),
{
    s.slots.next_push_index()
}

} // verus!
