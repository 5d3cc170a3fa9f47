//! The CNF representation of a formula: literals, clauses and formulas,
//! together with their meaning under a valuation.
use vstd::prelude::*;
use crate::text::{int_text, nat_text, push_int, push_nat, string_push_str};

verus! {

broadcast use vstd::std_specs::hash::group_hash_axioms;

/// Identifier of a variable; formulas number their variables from 1.
pub type VarId = usize;

/// A literal: a variable together with its polarity (`true` is positive).
#[derive(Clone, Copy, Debug, PartialEq, Eq, Structural, PartialOrd, Ord, Hash)]
pub struct CNFVar {
    pub id: VarId,
    pub sign: bool,
}

/// A clause: the disjunction of its literals.
#[derive(Clone, Debug, PartialEq, Eq)]
pub struct CNFClause {
    pub vars: Vec<CNFVar>,
}

/// A formula in conjunctive normal form over the variables `1..=num_variables`.
#[derive(Clone, Debug)]
pub struct CNF {
    pub clauses: Vec<CNFClause>,
    pub num_variables: usize,
}

// ---------------------------------------------------------------------------
// Meaning of literals, clauses and formulas.
// ---------------------------------------------------------------------------

/// The larger of two naturals.
pub open spec fn nat_max(a: nat, b: nat) -> nat {
    if a >= b { a } else { b }
}

impl CNFVar {
    /// The literal lies among the variables `1..=n`.
    pub open spec fn in_range(self, n: nat) -> bool {
        1 <= self.id && self.id <= n
    }

    /// The literal is true under `val`, where `val[i]` is the value of variable `i + 1`.
    pub open spec fn holds_in(self, val: Seq<bool>) -> bool {
        val[self.id - 1] == self.sign
    }

    /// The literal with the opposite polarity.
    pub open spec fn flipped(self) -> CNFVar {
        CNFVar { id: self.id, sign: !self.sign }
    }

    /// `to_i32` cannot overflow on this literal.
    pub open spec fn fits_i32(self) -> bool {
        self.sign || (self.id as i32) != i32::MIN
    }

    /// The signed DIMACS number of the literal (the identifier truncated to `i32`).
    pub open spec fn dimacs_number(self) -> i32 {
        if self.sign { self.id as i32 } else { (-(self.id as i32)) as i32 }
    }
}

/// Every literal of the clause lies among the variables `1..=n`.
pub open spec fn clause_in_range(c: Seq<CNFVar>, n: nat) -> bool {
    forall|i: int| 0 <= i < c.len() ==> (#[trigger] c[i]).in_range(n)
}

/// Some literal of the clause is true under `val`.
pub open spec fn clause_holds(c: Seq<CNFVar>, val: Seq<bool>) -> bool {
    exists|i: int| 0 <= i < c.len() && (#[trigger] c[i]).holds_in(val)
}

/// Every clause of the formula lies among the variables `1..=n`.
pub open spec fn formula_in_range(f: Seq<Seq<CNFVar>>, n: nat) -> bool {
    forall|j: int| 0 <= j < f.len() ==> clause_in_range(#[trigger] f[j], n)
}

/// Every clause of the formula is true under `val`.
pub open spec fn formula_holds(f: Seq<Seq<CNFVar>>, val: Seq<bool>) -> bool {
    forall|j: int| 0 <= j < f.len() ==> clause_holds(#[trigger] f[j], val)
}

/// Some valuation of the variables `1..=n` makes the formula true.
pub open spec fn formula_satisfiable(f: Seq<Seq<CNFVar>>, n: nat) -> bool {
    exists|val: Seq<bool>| val.len() == n && #[trigger] formula_holds(f, val)
}

/// The largest identifier among the literals, 0 for no literal.
pub open spec fn lits_max_id(c: Seq<CNFVar>) -> nat
    decreases c.len(),
{
    if c.len() == 0 {
        0
    } else {
        nat_max(lits_max_id(c.drop_last()), c.last().id as nat)
    }
}

/// The largest identifier among the clauses, 0 for no clause.
pub open spec fn clauses_max_id(cs: Seq<CNFClause>) -> nat
    decreases cs.len(),
{
    if cs.len() == 0 {
        0
    } else {
        nat_max(clauses_max_id(cs.drop_last()), lits_max_id(cs.last().vars@))
    }
}

/// Every literal of the clause is no larger than its maximum.
pub proof fn lemma_lits_max_id_bounds(c: Seq<CNFVar>)
    ensures
        forall|i: int| 0 <= i < c.len() ==> (#[trigger] c[i]).id <= lits_max_id(c),
        c.len() > 0 ==> exists|i: int| 0 <= i < c.len() && c[i].id == lits_max_id(c),
    decreases c.len(),
{
    if c.len() > 0 {
        lemma_lits_max_id_bounds(c.drop_last());
        assert forall|i: int| 0 <= i < c.len() implies (#[trigger] c[i]).id <= lits_max_id(c) by {
            if i < c.len() - 1 {
                assert(c.drop_last()[i] == c[i]);
            }
        }
        if lits_max_id(c) != c.last().id {
            let k = choose|i: int| 0 <= i < c.drop_last().len() && c.drop_last()[i].id == lits_max_id(c.drop_last());
            assert(c[k] == c.drop_last()[k]);
        }
    }
}

/// Every clause's literals are no larger than the clauses' maximum.
pub proof fn lemma_clauses_max_id_bounds(cs: Seq<CNFClause>)
    ensures
        forall|j: int, i: int| 0 <= j < cs.len() && 0 <= i < cs[j].vars@.len()
            ==> (#[trigger] cs[j].vars@[i]).id <= clauses_max_id(cs),
    decreases cs.len(),
{
    if cs.len() > 0 {
        lemma_clauses_max_id_bounds(cs.drop_last());
        lemma_lits_max_id_bounds(cs.last().vars@);
        assert forall|j: int, i: int| 0 <= j < cs.len() && 0 <= i < cs[j].vars@.len()
            implies (#[trigger] cs[j].vars@[i]).id <= clauses_max_id(cs) by {
            if j < cs.len() - 1 {
                assert(cs.drop_last()[j] == cs[j]);
            }
        }
    }
}

/// The sequence of literal sequences of a list of clauses.
pub open spec fn clauses_formula(cs: Seq<CNFClause>) -> Seq<Seq<CNFVar>> {
    cs.map_values(|c: CNFClause| c.vars@)
}

impl CNF {
    /// The formula as a sequence of literal sequences.
    pub open spec fn formula(self) -> Seq<Seq<CNFVar>> {
        clauses_formula(self.clauses@)
    }

    /// Every literal names a variable in `1..=num_variables`; this is what the solvers expect.
    pub open spec fn wf(self) -> bool {
        formula_in_range(self.formula(), self.num_variables as nat)
    }

    /// No literal names a variable beyond `num_variables`.
    pub open spec fn covers(self) -> bool {
        forall|j: int, i: int| 0 <= j < self.clauses@.len() && 0 <= i < self.clauses@[j].vars@.len()
            ==> (#[trigger] self.clauses@[j].vars@[i]).id <= self.num_variables
    }

    /// The formula is true under `val`.
    pub open spec fn satisfied_by(self, val: Seq<bool>) -> bool {
        formula_holds(self.formula(), val)
    }

    /// Some valuation of `1..=num_variables` makes the formula true.
    pub open spec fn satisfiable(self) -> bool {
        formula_satisfiable(self.formula(), self.num_variables as nat)
    }
}

// ---------------------------------------------------------------------------
// Literals
// ---------------------------------------------------------------------------

impl CNFVar {
    pub fn new(id: VarId, sign: bool) -> (r: CNFVar)
        ensures
            r.id == id,
            r.sign == sign,
    {
        CNFVar { id, sign }
    }

    pub fn pos(id: VarId) -> (r: CNFVar)
        ensures
            r.id == id,
            r.sign,
    {
        CNFVar { id, sign: true }
    }

    pub fn neg(id: VarId) -> (r: CNFVar)
        ensures
            r.id == id,
            !r.sign,
    {
        CNFVar { id, sign: false }
    }

    pub fn id(&self) -> (r: VarId)
        ensures
            r == self.id,
    {
        self.id
    }

    pub fn sign(&self) -> (r: bool)
        ensures
            r == self.sign,
    {
        self.sign
    }

    /// The literal with the opposite polarity (the unary minus of the original).
    pub fn negated(&self) -> (r: CNFVar)
        ensures
            r == self.flipped(),
    {
        CNFVar { id: self.id, sign: !self.sign }
    }

    /// The signed DIMACS number: `id` when positive, `-id` when negative.
    pub fn to_i32(&self) -> (r: i32)
        requires
            self.fits_i32(),
        ensures
            r == self.dimacs_number(),
    {
        let v = self.id as i32;
        if self.sign {
            v
        } else {
            -v
        }
    }

    /// The text of the literal: its DIMACS number.
    pub fn to_display_string(&self) -> (r: String)
        requires
            self.fits_i32(),
        ensures
            r@ == int_text(self.dimacs_number() as int),
    {
        let mut s = String::new();
        push_int(&mut s, self.to_i32() as i64);
        assert(s@ =~= int_text(self.dimacs_number() as int));
        s
    }
}

// ---------------------------------------------------------------------------
// Clauses
// ---------------------------------------------------------------------------

impl CNFClause {
    pub fn new() -> (r: CNFClause)
        ensures
            r.vars@ == Seq::<CNFVar>::empty(),
    {
        CNFClause { vars: Vec::new() }
    }

    pub fn with_capacity(capacity: usize) -> (r: CNFClause)
        ensures
            r.vars@ == Seq::<CNFVar>::empty(),
    {
        CNFClause { vars: Vec::with_capacity(capacity) }
    }

    pub fn single(var: CNFVar) -> (r: CNFClause)
        ensures
            r.vars@ == seq![var],
    {
        let mut vars = Vec::new();
        vars.push(var);
        CNFClause { vars }
    }

    pub fn from_vars(vars: Vec<CNFVar>) -> (r: CNFClause)
        ensures
            r.vars@ == vars@,
    {
        CNFClause { vars }
    }

    pub fn push(&mut self, v: CNFVar)
        ensures
            final(self).vars@ == old(self).vars@.push(v),
    {
        self.vars.push(v)
    }

    pub fn len(&self) -> (r: usize)
        ensures
            r == self.vars@.len(),
    {
        self.vars.len()
    }

    pub fn extend(&mut self, c: CNFClause)
        ensures
            final(self).vars@ == old(self).vars@ + c.vars@,
    {
        let mut other = c.vars;
        self.vars.append(&mut other);
    }

    /// A copy with the same literals.
    pub fn duplicate(&self) -> (r: CNFClause)
        ensures
            r.vars@ == self.vars@,
    {
        let mut vars: Vec<CNFVar> = Vec::with_capacity(self.vars.len());
        let mut i: usize = 0;
        while i < self.vars.len()
            invariant
                i <= self.vars@.len(),
                vars@ == self.vars@.take(i as int),
            decreases self.vars@.len() - i,
        {
            vars.push(self.vars[i]);
            i += 1;
            assert(vars@ =~= self.vars@.take(i as int));
        }
        assert(self.vars@.take(i as int) =~= self.vars@);
        CNFClause { vars }
    }

    /// The same literals in the same order.
    pub fn same_as(&self, other: &CNFClause) -> (r: bool)
        ensures
            r == (self.vars@ == other.vars@),
    {
        if self.vars.len() != other.vars.len() {
            assert(self.vars@.len() != other.vars@.len());
            return false;
        }
        let mut i: usize = 0;
        while i < self.vars.len()
            invariant
                i <= self.vars@.len(),
                self.vars@.len() == other.vars@.len(),
                forall|k: int| 0 <= k < i ==> self.vars@[k] == other.vars@[k],
            decreases self.vars@.len() - i,
        {
            if self.vars[i] != other.vars[i] {
                return false;
            }
            i += 1;
        }
        assert(self.vars@ =~= other.vars@);
        true
    }

    /// Whether the clause holds the given literal.
    pub fn contains(&self, lit: &CNFVar) -> (r: bool)
        ensures
            r == self.vars@.contains(*lit),
    {
        let mut i: usize = 0;
        while i < self.vars.len()
            invariant
                i <= self.vars@.len(),
                forall|k: int| 0 <= k < i ==> self.vars@[k] != *lit,
            decreases self.vars@.len() - i,
        {
            if self.vars[i] == *lit {
                return true;
            }
            i += 1;
        }
        false
    }

    /// The largest variable identifier in the clause, 0 when it is empty.
    pub fn max_variable_id(&self) -> (r: usize)
        ensures
            r == lits_max_id(self.vars@),
    {
        let mut m: usize = 0;
        let mut i: usize = 0;
        while i < self.vars.len()
            invariant
                i <= self.vars@.len(),
                m == lits_max_id(self.vars@.take(i as int)),
            decreases self.vars@.len() - i,
        {
            let id = self.vars[i].id;
            assert(self.vars@.take(i + 1).drop_last() =~= self.vars@.take(i as int));
            if id > m {
                m = id;
            }
            i += 1;
        }
        assert(self.vars@.take(i as int) =~= self.vars@);
        m
    }

    /// The text of the clause: each literal in parentheses followed by two spaces.
    pub fn to_display_string(&self) -> (r: String)
        requires
            forall|i: int| 0 <= i < self.vars@.len() ==> (#[trigger] self.vars@[i]).fits_i32(),
        ensures
            r@ == clause_display(self.vars@),
    {
        let mut s = String::new();
        let mut i: usize = 0;
        while i < self.vars.len()
            invariant
                i <= self.vars@.len(),
                forall|k: int| 0 <= k < self.vars@.len() ==> (#[trigger] self.vars@[k]).fits_i32(),
                s@ == clause_display(self.vars@.take(i as int)),
            decreases self.vars@.len() - i,
        {
            assert(self.vars@.take(i + 1).drop_last() =~= self.vars@.take(i as int));
            string_push_str(&mut s, "(");
            push_int(&mut s, self.vars[i].to_i32() as i64);
            string_push_str(&mut s, ")  ");
            proof {
                reveal_strlit("(");
                reveal_strlit(")  ");
            }
            i += 1;
            assert(s@ =~= clause_display(self.vars@.take(i as int)));
        }
        assert(self.vars@.take(i as int) =~= self.vars@);
        s
    }
}

/// Text of a clause: `(n)  ` for each literal with DIMACS number `n`.
pub open spec fn clause_display(c: Seq<CNFVar>) -> Seq<char>
    decreases c.len(),
{
    if c.len() == 0 {
        Seq::empty()
    } else {
        clause_display(c.drop_last()) + seq!['('] + int_text(c.last().dimacs_number() as int) + seq![')', ' ', ' ']
    }
}

// ---------------------------------------------------------------------------
// Formulas
// ---------------------------------------------------------------------------

/// The DIMACS line of a clause: each DIMACS number followed by a space, then `0` and a newline.
pub open spec fn clause_dimacs_lits(c: Seq<CNFVar>) -> Seq<char>
    decreases c.len(),
{
    if c.len() == 0 {
        Seq::empty()
    } else {
        clause_dimacs_lits(c.drop_last()) + int_text(c.last().dimacs_number() as int) + seq![' ']
    }
}

/// The DIMACS lines of a list of clauses.
pub open spec fn clauses_dimacs(cs: Seq<Seq<CNFVar>>) -> Seq<char>
    decreases cs.len(),
{
    if cs.len() == 0 {
        Seq::empty()
    } else {
        clauses_dimacs(cs.drop_last()) + clause_dimacs_lits(cs.last()) + seq!['0', '\n']
    }
}

/// The identifiers occurring in a formula.
pub open spec fn formula_ids(f: Seq<Seq<CNFVar>>) -> Set<usize> {
    Set::new(|id: usize| exists|j: int, i: int| 0 <= j < f.len() && 0 <= i < f[j].len() && #[trigger] f[j][i].id == id)
}

/// The DIMACS text of a formula: the header with the number of distinct
/// variables and of clauses, then one line per clause.
pub open spec fn formula_dimacs(f: Seq<Seq<CNFVar>>) -> Seq<char> {
    seq!['p', ' ', 'c', 'n', 'f', ' '] + nat_text(formula_ids(f).len()) + seq![' '] + nat_text(f.len())
        + seq!['\n'] + clauses_dimacs(f)
}

/// The text of a formula: each clause's text followed by a newline.
pub open spec fn formula_display(f: Seq<Seq<CNFVar>>) -> Seq<char>
    decreases f.len(),
{
    if f.len() == 0 {
        Seq::empty()
    } else {
        formula_display(f.drop_last()) + clause_display(f.last()) + seq!['\n']
    }
}

/// Every literal of the formula can be written as an `i32`.
pub open spec fn formula_fits_i32(f: Seq<Seq<CNFVar>>) -> bool {
    forall|j: int, i: int| 0 <= j < f.len() && 0 <= i < f[j].len() ==> (#[trigger] f[j][i]).fits_i32()
}

impl CNF {
    pub fn empty() -> (r: CNF)
        ensures
            r.clauses@ == Seq::<CNFClause>::empty(),
            r.num_variables == 0,
    {
        CNF { clauses: Vec::new(), num_variables: 0 }
    }

    pub fn single(clause: CNFClause) -> (r: CNF)
        ensures
            r.clauses@ == seq![clause],
            r.num_variables == lits_max_id(clause.vars@),
    {
        let n = clause.max_variable_id();
        let mut clauses = Vec::new();
        clauses.push(clause);
        CNF { num_variables: n, clauses }
    }

    /// Appends a clause and widens `num_variables` to cover it.
    pub fn push(&mut self, c: CNFClause)
        ensures
            final(self).clauses@ == old(self).clauses@.push(c),
            final(self).num_variables == nat_max(old(self).num_variables as nat, lits_max_id(c.vars@)),
    {
        let m = c.max_variable_id();
        if m > self.num_variables {
            self.num_variables = m;
        }
        self.clauses.push(c);
    }

    /// Appends the clauses of `c`; when `c` has clauses, widens `num_variables`
    /// to cover them (the `num_variables` of `c` is not consulted).
    pub fn extend(&mut self, c: CNF)
        ensures
            final(self).clauses@ == old(self).clauses@ + c.clauses@,
            final(self).num_variables == if c.clauses@.len() == 0 {
                old(self).num_variables as nat
            } else {
                nat_max(old(self).num_variables as nat, clauses_max_id(c.clauses@))
            },
    {
        if c.clauses.len() > 0 {
            let m = max_id_of_clauses(&c.clauses);
            if m > self.num_variables {
                self.num_variables = m;
            }
            let mut other = c.clauses;
            self.clauses.append(&mut other);
        }
    }

    /// A formula of the given clauses whose `num_variables` is the largest
    /// identifier among them, 0 when there is none.
    pub fn from_clauses(clauses: Vec<CNFClause>) -> (r: CNF)
        ensures
            r.clauses@ == clauses@,
            r.num_variables == clauses_max_id(clauses@),
    {
        let n = max_id_of_clauses(&clauses);
        CNF { clauses, num_variables: n }
    }

    /// The clauses, in order.
    pub fn into_clauses(self) -> (r: Vec<CNFClause>)
        ensures
            r@ == self.clauses@,
    {
        self.clauses
    }

    /// Whether every literal names a variable in `1..=num_variables`, as the
    /// solvers expect.
    pub fn is_well_formed(&self) -> (r: bool)
        ensures
            r == self.wf(),
    {
        let ghost f = self.formula();
        let mut j: usize = 0;
        while j < self.clauses.len()
            invariant
                f == self.formula(),
                j <= self.clauses@.len(),
                forall|k: int| 0 <= k < j ==> clause_in_range(#[trigger] f[k], self.num_variables as nat),
            decreases self.clauses@.len() - j,
        {
            let vars = &self.clauses[j].vars;
            assert(vars@ == f[j as int]);
            let mut i: usize = 0;
            while i < vars.len()
                invariant
                    i <= vars@.len(),
                    j < f.len(),
                    f == self.formula(),
                    vars@ == f[j as int],
                    forall|k: int| 0 <= k < i ==> (#[trigger] vars@[k]).in_range(self.num_variables as nat),
                decreases vars@.len() - i,
            {
                let id = vars[i].id;
                if id < 1 || id > self.num_variables {
                    assert(!vars@[i as int].in_range(self.num_variables as nat));
                    assert(!clause_in_range(f[j as int], self.num_variables as nat));
                    return false;
                }
                i += 1;
            }
            j += 1;
        }
        true
    }

    /// A copy with the same clauses and the same `num_variables`.
    pub fn duplicate(&self) -> (r: CNF)
        ensures
            r.formula() == self.formula(),
            r.clauses@.len() == self.clauses@.len(),
            r.num_variables == self.num_variables,
    {
        let mut clauses: Vec<CNFClause> = Vec::with_capacity(self.clauses.len());
        let mut j: usize = 0;
        while j < self.clauses.len()
            invariant
                j <= self.clauses@.len(),
                clauses@.len() == j,
                forall|k: int| 0 <= k < j ==> (#[trigger] clauses@[k]).vars@ == self.clauses@[k].vars@,
            decreases self.clauses@.len() - j,
        {
            clauses.push(self.clauses[j].duplicate());
            j += 1;
        }
        let r = CNF { clauses, num_variables: self.num_variables };
        assert(r.formula() =~= self.formula());
        r
    }

    /// The formula in DIMACS format.
    pub fn to_dimacs(&self) -> (r: String)
        requires
            formula_fits_i32(self.formula()),
        ensures
            r@ == formula_dimacs(self.formula()),
    {
        let ghost f = self.formula();
        let distinct = count_distinct_ids(self);
        let mut out = String::new();
        string_push_str(&mut out, "p cnf ");
        push_nat(&mut out, distinct as u64);
        string_push_str(&mut out, " ");
        push_nat(&mut out, self.clauses.len() as u64);
        string_push_str(&mut out, "\n");
        proof {
            reveal_strlit("p cnf ");
            reveal_strlit(" ");
            reveal_strlit("\n");
        }
        let ghost header = out@;
        assert(header =~= seq!['p', ' ', 'c', 'n', 'f', ' '] + nat_text(formula_ids(f).len()) + seq![' ']
            + nat_text(f.len()) + seq!['\n']);
        let mut j: usize = 0;
        while j < self.clauses.len()
            invariant
                j <= self.clauses@.len(),
                f == self.formula(),
                formula_fits_i32(f),
                out@ == header + clauses_dimacs(f.take(j as int)),
            decreases self.clauses@.len() - j,
        {
            let clause = &self.clauses[j];
            let ghost c = clause.vars@;
            assert(c == f[j as int]);
            let ghost before = out@;
            let mut i: usize = 0;
            while i < clause.vars.len()
                invariant
                    i <= c.len(),
                    c == clause.vars@,
                    j < f.len(),
                    c == f[j as int],
                    formula_fits_i32(f),
                    out@ == before + clause_dimacs_lits(c.take(i as int)),
                decreases c.len() - i,
            {
                assert(c[i as int] == f[j as int][i as int]);
                push_int(&mut out, clause.vars[i].to_i32() as i64);
                string_push_str(&mut out, " ");
                proof { reveal_strlit(" "); }
                assert(c.take(i + 1).drop_last() =~= c.take(i as int));
                i += 1;
                assert(out@ =~= before + clause_dimacs_lits(c.take(i as int)));
            }
            string_push_str(&mut out, "0\n");
            proof { reveal_strlit("0\n"); }
            assert(c.take(i as int) =~= c);
            assert(f.take(j + 1).drop_last() =~= f.take(j as int));
            j += 1;
            assert(out@ =~= header + clauses_dimacs(f.take(j as int)));
        }
        assert(f.take(j as int) =~= f);
        assert(out@ =~= formula_dimacs(f));
        out
    }

    /// The text of the formula: one clause text per line.
    pub fn to_display_string(&self) -> (r: String)
        requires
            formula_fits_i32(self.formula()),
        ensures
            r@ == formula_display(self.formula()),
    {
        let ghost f = self.formula();
        let mut out = String::new();
        let mut j: usize = 0;
        while j < self.clauses.len()
            invariant
                j <= self.clauses@.len(),
                f == self.formula(),
                formula_fits_i32(f),
                out@ == formula_display(f.take(j as int)),
            decreases self.clauses@.len() - j,
        {
            assert(self.clauses@[j as int].vars@ == f[j as int]);
            assert forall|i: int| 0 <= i < self.clauses@[j as int].vars@.len()
                implies (#[trigger] self.clauses@[j as int].vars@[i]).fits_i32() by {
                assert(f[j as int][i] == self.clauses@[j as int].vars@[i]);
            }
            let line = self.clauses[j].to_display_string();
            string_push_str(&mut out, line.as_str());
            string_push_str(&mut out, "\n");
            proof { reveal_strlit("\n"); }
            assert(f.take(j + 1).drop_last() =~= f.take(j as int));
            j += 1;
            assert(out@ =~= formula_display(f.take(j as int)));
        }
        assert(f.take(j as int) =~= f);
        out
    }
}

/// The largest identifier among the clauses.
fn max_id_of_clauses(clauses: &Vec<CNFClause>) -> (r: usize)
    ensures
        r == clauses_max_id(clauses@),
{
    let mut m: usize = 0;
    let mut j: usize = 0;
    while j < clauses.len()
        invariant
            j <= clauses@.len(),
            m == clauses_max_id(clauses@.take(j as int)),
        decreases clauses@.len() - j,
    {
        let c = clauses[j].max_variable_id();
        assert(clauses@.take(j + 1).drop_last() =~= clauses@.take(j as int));
        if c > m {
            m = c;
        }
        j += 1;
    }
    assert(clauses@.take(j as int) =~= clauses@);
    m
}

/// The number of distinct identifiers in the formula.
fn count_distinct_ids(cnf: &CNF) -> (r: usize)
    ensures
        r == formula_ids(cnf.formula()).len(),
{
    let ghost f = cnf.formula();
    let mut seen: std::collections::HashSet<usize> = std::collections::HashSet::new();
    let mut j: usize = 0;
    while j < cnf.clauses.len()
        invariant
            j <= cnf.clauses@.len(),
            f == cnf.formula(),
            seen@ == formula_ids(f.take(j as int)),
        decreases cnf.clauses@.len() - j,
    {
        let clause = &cnf.clauses[j];
        let ghost c = clause.vars@;
        assert(c == f[j as int]);
        let mut i: usize = 0;
        while i < clause.vars.len()
            invariant
                i <= c.len(),
                c == clause.vars@,
                c == f[j as int],
                j < f.len(),
                seen@ == formula_ids(f.take(j as int)).union(
                    Set::new(|id: usize| exists|k: int| 0 <= k < i && #[trigger] c[k].id == id)),
            decreases c.len() - i,
        {
            seen.insert(clause.vars[i].id);
            i += 1;
            assert(seen@ =~= formula_ids(f.take(j as int)).union(
                Set::new(|id: usize| exists|k: int| 0 <= k < i && #[trigger] c[k].id == id))) by {
                assert(c[i - 1].id == clause.vars@[i - 1].id);
            }
        }
        let ghost fj1 = f.take(j + 1);
        assert forall|id: usize| #[trigger] formula_ids(fj1).contains(id)
            <==> seen@.contains(id) by {
            if formula_ids(fj1).contains(id) {
                let (a, b) = choose|a: int, b: int| 0 <= a < fj1.len() && 0 <= b < fj1[a].len() && #[trigger] fj1[a][b].id == id;
                if a < j {
                    assert(f.take(j as int)[a][b].id == id);
                } else {
                    assert(c[b].id == id);
                }
            }
            if seen@.contains(id) {
                if formula_ids(f.take(j as int)).contains(id) {
                    let (a, b) = choose|a: int, b: int| 0 <= a < f.take(j as int).len() && 0 <= b < f.take(j as int)[a].len() && #[trigger] f.take(j as int)[a][b].id == id;
                    assert(fj1[a][b].id == id);
                } else {
                    let k = choose|k: int| 0 <= k < i && #[trigger] c[k].id == id;
                    assert(fj1[j as int][k].id == id);
                }
            }
        }
        assert(seen@ =~= formula_ids(fj1));
        j += 1;
    }
    assert(f.take(j as int) =~= f);
    seen.len()
}

} // verus!
