//! Preprocessing: passes that simplify a formula before the CDCL search and
//! turn the answer for the simplified formula back into one for the formula.
use vstd::prelude::*;
use crate::cnf::{clause_holds, clauses_formula, formula_holds, CNFClause, CNFVar, CNF};
use crate::literals::lemma_filter_take_step;
use crate::sat_solution::SATSolution;
use crate::dpll::{lemma_sorted_view, sorted_view};
use crate::literals::sorted_dedup;

verus! {

/// A preprocessing pass.
pub trait Preprocessor {
    /// The simplified formula, over the same variables.
    fn preprocess(&mut self, cnf: CNF) -> (r: CNF)
        requires
            cnf.wf(),
        ensures
            r.wf(),
            r.num_variables == cnf.num_variables,
    ;

    /// The answer for the formula, from the answer for the simplified
    /// formula; a valuation keeps its length.
    fn restore(&mut self, assignment: SATSolution) -> (r: SATSolution)
        ensures
            r matches SATSolution::Satisfiable(w) ==> (assignment matches SATSolution::Satisfiable(v)
                && w@.len() == v@.len()),
    ;
}

/// Makes a fresh preprocessing pass for each formula.
pub trait PreprocessorFactory {
    type Instance: Preprocessor;

    fn new(&self) -> Self::Instance;
}

/// Leaves the formula and the answer as they are.
pub struct NoPreprocessingInstance;

impl Preprocessor for NoPreprocessingInstance {
    fn preprocess(&mut self, cnf: CNF) -> (r: CNF)
        ensures
            r == cnf,
    {
        cnf
    }

    fn restore(&mut self, assignment: SATSolution) -> (r: SATSolution)
        ensures
            r == assignment,
    {
        assignment
    }
}

/// Makes passes that change nothing.
pub struct NoPreprocessing;

impl PreprocessorFactory for NoPreprocessing {
    type Instance = NoPreprocessingInstance;

    fn new(&self) -> NoPreprocessingInstance {
        NoPreprocessingInstance
    }
}

/// The clause holds some literal together with its negation.
pub open spec fn tautology(c: Seq<CNFVar>) -> bool {
    exists|i: int, j: int| #![trigger c[i], c[j]] 0 <= i < c.len() && 0 <= j < c.len() && c[j] == c[i].flipped()
}

/// A clause that is not a tautology.
pub open spec fn not_tautology() -> spec_fn(Seq<CNFVar>) -> bool {
    |c: Seq<CNFVar>| !tautology(c)
}

/// A tautology within the variables of a valuation is true under it.
pub proof fn lemma_tautology_holds(c: Seq<CNFVar>, val: Seq<bool>)
    requires
        tautology(c),
        crate::cnf::clause_in_range(c, val.len()),
    ensures
        clause_holds(c, val),
{
    let (i, j) = choose|i: int, j: int| #![trigger c[i], c[j]] 0 <= i < c.len() && 0 <= j < c.len() && c[j] == c[i].flipped();
    assert(c[i].in_range(val.len()));
    if !c[i].holds_in(val) {
        assert(c[j].holds_in(val));
    }
}

/// Whether the clause holds some literal together with its negation.
fn is_tautology(clause: &CNFClause) -> (r: bool)
    ensures
        r == tautology(clause.vars@),
{
    let mut k: usize = 0;
    while k < clause.vars.len()
        invariant
            k <= clause.vars@.len(),
            forall|i: int| 0 <= i < k ==> !clause.vars@.contains((#[trigger] clause.vars@[i]).flipped()),
        decreases clause.vars@.len() - k,
    {
        let variable = clause.vars[k];
        if clause.contains(&variable.negated()) {
            proof {
                let j = choose|j: int| 0 <= j < clause.vars@.len() && clause.vars@[j] == variable.flipped();
                assert(clause.vars@[j] == clause.vars@[k as int].flipped());
            }
            return true;
        }
        k += 1;
    }
    proof {
        if tautology(clause.vars@) {
            let (i, j) = choose|i: int, j: int| #![trigger clause.vars@[i], clause.vars@[j]] 0 <= i < clause.vars@.len() && 0 <= j < clause.vars@.len()
                && clause.vars@[j] == clause.vars@[i].flipped();
            assert(clause.vars@.contains(clause.vars@[i].flipped()));
        }
    }
    false
}

/// Removes the tautologies of the formula; the answer stays as it is.
pub struct RemoveTautologyInstance;

impl Preprocessor for RemoveTautologyInstance {
    /// The clauses that are not tautologies, in their order; a valuation of
    /// the variables satisfies the result exactly when it satisfies the formula.
    fn preprocess(&mut self, cnf: CNF) -> (r: CNF)
        ensures
            r.formula() == cnf.formula().filter(not_tautology()),
            forall|val: Seq<bool>| val.len() == cnf.num_variables ==>
                (#[trigger] r.satisfied_by(val) <==> cnf.satisfied_by(val)),
    {
        let ghost f = cnf.formula();
        let mut clauses: Vec<CNFClause> = Vec::new();
        let mut j: usize = 0;
        while j < cnf.clauses.len()
            invariant
                f == cnf.formula(),
                j <= cnf.clauses@.len(),
                clauses_formula(clauses@) == f.take(j as int).filter(not_tautology()),
            decreases cnf.clauses@.len() - j,
        {
            let ghost before = clauses@;
            if !is_tautology(&cnf.clauses[j]) {
                clauses.push(cnf.clauses[j].duplicate());
                assert(clauses_formula(clauses@) =~= clauses_formula(before).push(cnf.clauses@[j as int].vars@));
            }
            proof {
                assert(f[j as int] == cnf.clauses@[j as int].vars@);
                lemma_filter_take_step(f, j as int, not_tautology());
            }
            j += 1;
        }
        assert(f.take(j as int) =~= f);
        let r = CNF { clauses, num_variables: cnf.num_variables };
        proof {
            let g = r.formula();
            assert forall|k: int| 0 <= k < g.len() implies crate::cnf::clause_in_range(#[trigger] g[k], r.num_variables as nat) by {
                assert(f.filter(not_tautology()).contains(g[k]));
                f.lemma_filter_contains_rev(not_tautology(), g[k]);
            }
            assert forall|val: Seq<bool>| val.len() == cnf.num_variables implies
                (#[trigger] r.satisfied_by(val) <==> cnf.satisfied_by(val)) by {
                if r.satisfied_by(val) {
                    assert forall|k: int| 0 <= k < f.len() implies clause_holds(#[trigger] f[k], val) by {
                        if tautology(f[k]) {
                            lemma_tautology_holds(f[k], val);
                        } else {
                            f.lemma_filter_contains(not_tautology(), k);
                            let m = choose|m: int| 0 <= m < g.len() && g[m] == f[k];
                            assert(clause_holds(g[m], val));
                        }
                    }
                }
                if cnf.satisfied_by(val) {
                    assert forall|k: int| 0 <= k < g.len() implies clause_holds(#[trigger] g[k], val) by {
                        assert(f.filter(not_tautology()).contains(g[k]));
                        f.lemma_filter_contains_rev(not_tautology(), g[k]);
                        let m = choose|m: int| 0 <= m < f.len() && f[m] == g[k];
                        assert(clause_holds(f[m], val));
                    }
                }
            }
        }
        r
    }

    fn restore(&mut self, assignment: SATSolution) -> (r: SATSolution)
        ensures
            r == assignment,
    {
        assignment
    }
}

/// Makes passes that remove tautologies.
pub struct RemoveTautology;

impl RemoveTautology {
    pub fn new() -> (r: RemoveTautology)
        ensures
            r == RemoveTautology,
    {
        RemoveTautology
    }
}

impl PreprocessorFactory for RemoveTautology {
    type Instance = RemoveTautologyInstance;

    fn new(&self) -> RemoveTautologyInstance {
        RemoveTautologyInstance
    }
}

/// The bit of variable `i` (counted from 1) in a clause signature: 1 shifted
/// left `i - 1` times, bits beyond the width of `usize` falling off.
pub open spec fn sig_mask(i: nat) -> usize
    decreases i,
{
    if i <= 1 { 1 } else { sig_mask((i - 1) as nat) << 1usize }
}

/// The signature of a clause over the variables `1..=k`: the bits of the
/// variables whose literal with the given sign the clause holds.
pub open spec fn sig_upto(c: Seq<CNFVar>, k: nat, sign: bool) -> usize
    decreases k,
{
    if k == 0 {
        0
    } else {
        let rest = sig_upto(c, (k - 1) as nat, sign);
        if c.contains(CNFVar { id: k as usize, sign }) { rest | sig_mask(k) } else { rest }
    }
}

/// Bit `j` of `v`.
pub open spec fn bit(v: usize, j: usize) -> bool {
    (v >> j) & 1usize == 1usize
}

/// For the first 32 variables, the bit of variable `i` is bit `i - 1`.
pub proof fn lemma_sig_mask(i: nat)
    requires
        1 <= i <= 32,
    ensures
        sig_mask(i) == (1usize << ((i - 1) as usize)),
    decreases i,
{
    if i > 1 {
        lemma_sig_mask((i - 1) as nat);
        let j = (i - 2) as usize;
        assert((1usize << j) << 1usize == 1usize << ((j + 1) as usize)) by (bit_vector)
            requires
                j < 31,
        ;
    } else {
        assert(1usize << 0usize == 1usize) by (bit_vector);
    }
}

/// Over the first 32 variables, bit `i - 1` of a signature is set exactly
/// when the clause holds the literal of `i` with that sign.
pub proof fn lemma_sig_bits(c: Seq<CNFVar>, k: nat, s: bool)
    requires
        k <= 32,
    ensures
        forall|j: usize| j < 32 ==> (#[trigger] bit(sig_upto(c, k, s), j)
            <==> (j < k && c.contains(CNFVar { id: (j + 1) as usize, sign: s }))),
    decreases k,
{
    if k == 0 {
        assert forall|j: usize| j < 32 implies !#[trigger] bit(0usize, j) by {
            assert((0usize >> j) & 1usize == 0usize) by (bit_vector);
        }
    } else {
        lemma_sig_bits(c, (k - 1) as nat, s);
        lemma_sig_mask(k);
        let rest = sig_upto(c, (k - 1) as nat, s);
        let t = (k - 1) as usize;
        let m = 1usize << t;
        assert forall|j: usize| j < 32 implies (#[trigger] bit(sig_upto(c, k, s), j)
            <==> (j < k && c.contains(CNFVar { id: (j + 1) as usize, sign: s }))) by {
            assert(bit(rest | m, j) == (bit(rest, j) || bit(m, j))) by (bit_vector);
            assert(bit(m, j) == (j == t)) by (bit_vector)
                requires
                    t < 32,
                    j < 32,
                    m == 1usize << t,
            ;
            assert(bit(rest, j) == (j < k - 1 && c.contains(CNFVar { id: (j + 1) as usize, sign: s })));
            if j == t {
                assert((j + 1) as usize == k as usize);
            }
        }
    }
}

/// When the signatures of `a` cover those of `b` over the first `n <= 32`
/// variables, every literal of `b` within them is a literal of `a`.
pub proof fn lemma_sig_subset(a: Seq<CNFVar>, b: Seq<CNFVar>, n: nat)
    requires
        n <= 32,
        (sig_upto(a, n, true) | sig_upto(b, n, true)) == sig_upto(a, n, true),
        (sig_upto(a, n, false) | sig_upto(b, n, false)) == sig_upto(a, n, false),
        crate::cnf::clause_in_range(b, n),
    ensures
        forall|l: CNFVar| #[trigger] b.contains(l) ==> a.contains(l),
{
    lemma_sig_bits(a, n, true);
    lemma_sig_bits(b, n, true);
    lemma_sig_bits(a, n, false);
    lemma_sig_bits(b, n, false);
    assert forall|l: CNFVar| #[trigger] b.contains(l) implies a.contains(l) by {
        let i = choose|i: int| 0 <= i < b.len() && b[i] == l;
        assert(b[i].in_range(n));
        let j = (l.id - 1) as usize;
        let pa = sig_upto(a, n, l.sign);
        let pb = sig_upto(b, n, l.sign);
        assert(CNFVar { id: (j + 1) as usize, sign: l.sign } == l);
        assert(bit(pb, j));
        assert((pa | pb) == pa);
        assert(bit(pa, j)) by (bit_vector)
            requires
                (pa | pb) == pa,
                bit(pb, j),
        ;
    }
}

/// The signature of the literals of one sign of a clause over `1..=num_vars`.
fn sig(clause: &CNFClause, num_vars: usize, sign: bool) -> (r: usize)
    ensures
        r == sig_upto(clause.vars@, num_vars as nat, sign),
{
    let mut mask: usize = 1;
    let mut result: usize = 0;
    let mut i: usize = 0;
    while i < num_vars
        invariant
            i <= num_vars,
            mask == sig_mask((i + 1) as nat),
            result == sig_upto(clause.vars@, i as nat, sign),
        decreases num_vars - i,
    {
        if clause.contains(&CNFVar { id: i + 1, sign }) {
            result = result | mask;
        }
        mask = mask << 1usize;
        i += 1;
    }
    result
}

/// Whether the signature of `clause1` covers that of `clause2`, for both signs.
fn subsumption_test(clause1: &CNFClause, clause2: &CNFClause, num_vars: usize) -> (r: bool)
    ensures
        r == ({
            let p1 = sig_upto(clause1.vars@, num_vars as nat, true);
            let p2 = sig_upto(clause2.vars@, num_vars as nat, true);
            let n1 = sig_upto(clause1.vars@, num_vars as nat, false);
            let n2 = sig_upto(clause2.vars@, num_vars as nat, false);
            (p1 | p2) == p1 && (n1 | n2) == n1
        }),
{
    let pos_first = sig(clause1, num_vars, true);
    let pos_second = sig(clause2, num_vars, true);
    let neg_first = sig(clause1, num_vars, false);
    let neg_second = sig(clause2, num_vars, false);
    if pos_first | pos_second == pos_first {
        if neg_first | neg_second == neg_first {
            return true;
        }
    }
    false
}

/// Every clause lies among the variables `1..=n`.
pub open spec fn clauses_in_range(cs: Seq<CNFClause>, n: nat) -> bool {
    forall|j: int| 0 <= j < cs.len() ==> crate::cnf::clause_in_range(#[trigger] cs[j].vars@, n)
}

/// The clause without the literal.
fn without_literal(clause: &CNFClause, lit: CNFVar) -> (r: CNFClause)
    ensures
        r.vars@ == strip(clause.vars@, lit),
        forall|i: int| 0 <= i < r.vars@.len() ==> clause.vars@.contains(#[trigger] r.vars@[i]),
        forall|m: CNFVar| #[trigger] clause.vars@.contains(m) && m != lit ==> r.vars@.contains(m),
        !r.vars@.contains(lit),
{
    let mut vars: Vec<CNFVar> = Vec::new();
    let mut i: usize = 0;
    while i < clause.vars.len()
        invariant
            i <= clause.vars@.len(),
            vars@ == clause.vars@.take(i as int).filter(not_lit(lit)),
        decreases clause.vars@.len() - i,
    {
        if clause.vars[i] != lit {
            vars.push(clause.vars[i]);
        }
        proof { lemma_filter_take_step(clause.vars@, i as int, not_lit(lit)); }
        i += 1;
    }
    assert(clause.vars@.take(i as int) =~= clause.vars@);
    proof {
        assert forall|k: int| 0 <= k < vars@.len() implies clause.vars@.contains(#[trigger] vars@[k]) by {
            assert(clause.vars@.filter(not_lit(lit)).contains(vars@[k]));
            clause.vars@.lemma_filter_contains_rev(not_lit(lit), vars@[k]);
        }
        assert forall|m: CNFVar| #[trigger] clause.vars@.contains(m) && m != lit implies vars@.contains(m) by {
            let k = choose|k: int| 0 <= k < clause.vars@.len() && clause.vars@[k] == m;
            clause.vars@.lemma_filter_contains(not_lit(lit), k);
        }
        if vars@.contains(lit) {
            clause.vars@.lemma_filter_contains_rev(not_lit(lit), lit);
        }
    }
    CNFClause { vars }
}

/// The clauses other than those with exactly the literals of `clause`.
fn without_clause(clauses: &Vec<CNFClause>, clause: &CNFClause) -> (r: Vec<CNFClause>)
    ensures
        clauses_formula(r@) == drop_clause(clauses_formula(clauses@), clause.vars@),
        forall|n: nat| clauses_in_range(clauses@, n) ==> #[trigger] clauses_in_range(r@, n),
        forall|c: Seq<CNFVar>| #[trigger] clauses_formula(r@).contains(c)
            <==> (clauses_formula(clauses@).contains(c) && c != clause.vars@),
{
    let ghost f = clauses_formula(clauses@);
    let mut out: Vec<CNFClause> = Vec::new();
    let mut i: usize = 0;
    while i < clauses.len()
        invariant
            f == clauses_formula(clauses@),
            i <= clauses@.len(),
            clauses_formula(out@) == f.take(i as int).filter(other_clause(clause.vars@)),
            forall|k: int| 0 <= k < out@.len() ==> exists|m: int| 0 <= m < i && (#[trigger] out@[k]).vars@ == clauses@[m].vars@,
        decreases clauses@.len() - i,
    {
        let ghost before = out@;
        if !clauses[i].same_as(clause) {
            out.push(clauses[i].duplicate());
            assert(clauses_formula(out@) =~= clauses_formula(before).push(clauses@[i as int].vars@));
            assert(out@[out@.len() - 1].vars@ == clauses@[i as int].vars@);
        }
        proof {
            assert(f[i as int] == clauses@[i as int].vars@);
            lemma_filter_take_step(f, i as int, other_clause(clause.vars@));
            assert forall|k: int| 0 <= k < out@.len() implies exists|m: int| 0 <= m < i + 1 && (#[trigger] out@[k]).vars@ == clauses@[m].vars@ by {
                if k < before.len() {
                    assert(out@[k] == before[k]);
                    let m = choose|m: int| 0 <= m < i && before[k].vars@ == clauses@[m].vars@;
                    assert(out@[k].vars@ == clauses@[m].vars@);
                } else {
                    assert(out@[k].vars@ == clauses@[i as int].vars@);
                }
            }
        }
        i += 1;
    }
    assert(f.take(i as int) =~= f);
    proof {
        assert forall|n: nat| clauses_in_range(clauses@, n) implies #[trigger] clauses_in_range(out@, n) by {
            assert forall|k: int| 0 <= k < out@.len() implies crate::cnf::clause_in_range(#[trigger] out@[k].vars@, n) by {
                let m = choose|m: int| 0 <= m < clauses@.len() && out@[k].vars@ == clauses@[m].vars@;
                assert(crate::cnf::clause_in_range(clauses@[m].vars@, n));
            }
        }
        let g = clauses_formula(out@);
        assert forall|c: Seq<CNFVar>| #[trigger] g.contains(c)
            <==> (f.contains(c) && c != clause.vars@) by {
            if g.contains(c) {
                f.lemma_filter_contains_rev(other_clause(clause.vars@), c);
            }
            if f.contains(c) && c != clause.vars@ {
                let k = choose|k: int| 0 <= k < f.len() && f[k] == c;
                f.lemma_filter_contains(other_clause(clause.vars@), k);
            }
        }
    }
    out
}

/// Every clause holds the literal.
pub open spec fn all_contain(f: Seq<Seq<CNFVar>>, l: CNFVar) -> bool {
    forall|j: int| 0 <= j < f.len() ==> (#[trigger] f[j]).contains(l)
}

/// Every valuation of the `n` variables that makes `orig` true makes `f` true.
pub open spec fn implied_by(orig: Seq<Seq<CNFVar>>, f: Seq<Seq<CNFVar>>, n: nat) -> bool {
    forall|val: Seq<bool>| val.len() == n && formula_holds(orig, val) ==> #[trigger] formula_holds(f, val)
}

/// `f` and `orig` are true under the same valuations of the `n` variables.
pub open spec fn same_models(orig: Seq<Seq<CNFVar>>, f: Seq<Seq<CNFVar>>, n: nat) -> bool {
    forall|val: Seq<bool>| val.len() == n ==> (#[trigger] formula_holds(f, val) <==> formula_holds(orig, val))
}

/// A formula is true exactly when each clause it contains is.
pub proof fn lemma_holds_members(f: Seq<Seq<CNFVar>>, val: Seq<bool>)
    ensures
        formula_holds(f, val) <==> (forall|c: Seq<CNFVar>| #[trigger] f.contains(c) ==> clause_holds(c, val)),
{
    if formula_holds(f, val) {
        assert forall|c: Seq<CNFVar>| #[trigger] f.contains(c) implies clause_holds(c, val) by {
            let j = choose|j: int| 0 <= j < f.len() && f[j] == c;
            assert(clause_holds(f[j], val));
        }
    }
    if forall|c: Seq<CNFVar>| #[trigger] f.contains(c) ==> clause_holds(c, val) {
        assert forall|j: int| 0 <= j < f.len() implies clause_holds(#[trigger] f[j], val) by {
            assert(f.contains(f[j]));
        }
    }
}

/// Self-subsuming resolution: where `p` and `q` are true, `p` without the
/// literal `x` is true when the literals of `q` other than the negation
/// of `x` are among them.
pub proof fn lemma_strengthen(p: Seq<CNFVar>, q: Seq<CNFVar>, c: Seq<CNFVar>, d: Seq<CNFVar>, x: CNFVar, val: Seq<bool>)
    requires
        clause_holds(p, val),
        clause_holds(q, val),
        forall|m: CNFVar| #[trigger] p.contains(m) && m != x ==> c.contains(m),
        forall|m: CNFVar| #[trigger] q.contains(m) && m != x.flipped() ==> d.contains(m),
        forall|m: CNFVar| #[trigger] d.contains(m) ==> c.contains(m),
    ensures
        clause_holds(c, val),
{
    let m = if x.holds_in(val) {
        let i = choose|i: int| 0 <= i < q.len() && (#[trigger] q[i]).holds_in(val);
        assert(q.contains(q[i]));
        assert(d.contains(q[i]));
        q[i]
    } else {
        let i = choose|i: int| 0 <= i < p.len() && (#[trigger] p[i]).holds_in(val);
        assert(p.contains(p[i]));
        p[i]
    };
    assert(c.contains(m));
    let k = choose|k: int| 0 <= k < c.len() && c[k] == m;
    assert(c[k].holds_in(val));
}

/// Adding a clause `new_c` that every model has and removing the clauses
/// equal to `old_c`, which `new_c` implies, keeps the models.
pub proof fn lemma_replace(orig: Seq<Seq<CNFVar>>, cur: Seq<Seq<CNFVar>>, next: Seq<Seq<CNFVar>>,
    old_c: Seq<CNFVar>, new_c: Seq<CNFVar>, n: nat)
    requires
        same_models(orig, cur, n),
        new_c != old_c,
        forall|g: Seq<CNFVar>| #[trigger] next.contains(g) <==> (cur.push(new_c).contains(g) && g != old_c),
        forall|m: CNFVar| #[trigger] new_c.contains(m) ==> old_c.contains(m),
        forall|val: Seq<bool>| val.len() == n && formula_holds(orig, val) ==> #[trigger] clause_holds(new_c, val),
    ensures
        same_models(orig, next, n),
{
    let pushed = cur.push(new_c);
    assert forall|g: Seq<CNFVar>| #[trigger] pushed.contains(g) <==> (cur.contains(g) || g == new_c) by {
        if pushed.contains(g) {
            let j = choose|j: int| 0 <= j < pushed.len() && pushed[j] == g;
            if j < cur.len() {
                assert(cur[j] == g);
            }
        }
        if cur.contains(g) {
            let j = choose|j: int| 0 <= j < cur.len() && cur[j] == g;
            assert(pushed[j] == g);
        }
        if g == new_c {
            assert(pushed[cur.len() as int] == g);
        }
    }
    assert forall|val: Seq<bool>| val.len() == n implies (#[trigger] formula_holds(next, val) <==> formula_holds(orig, val)) by {
        lemma_holds_members(next, val);
        lemma_holds_members(cur, val);
        if formula_holds(orig, val) {
            assert(formula_holds(cur, val));
            assert(clause_holds(new_c, val));
        }
        if formula_holds(next, val) {
            assert(next.contains(new_c));
            assert(clause_holds(new_c, val));
            let i = choose|i: int| 0 <= i < new_c.len() && (#[trigger] new_c[i]).holds_in(val);
            assert(new_c.contains(new_c[i]));
            let k = choose|k: int| 0 <= k < old_c.len() && old_c[k] == new_c[i];
            assert(old_c[k].holds_in(val));
            assert(clause_holds(old_c, val));
            assert forall|c: Seq<CNFVar>| #[trigger] cur.contains(c) implies clause_holds(c, val) by {
                if c != old_c {
                    assert(next.contains(c));
                }
            }
            assert(formula_holds(cur, val));
        }
    }
}

/// A clause of a formula with the models of `orig`, pushed on a list of
/// clauses that every model has and that hold the literal, keeps both.
pub proof fn lemma_push_implied(small: bool, orig: Seq<Seq<CNFVar>>, cur: Seq<Seq<CNFVar>>, before: Seq<Seq<CNFVar>>,
    after: Seq<Seq<CNFVar>>, m: int, l: CNFVar, n: nat)
    requires
        0 <= m < cur.len(),
        small ==> same_models(orig, cur, n),
        small ==> implied_by(orig, before, n),
        all_contain(before, l),
        cur[m].contains(l),
        after == before.push(cur[m]),
    ensures
        small ==> implied_by(orig, after, n),
        all_contain(after, l),
{
    if small {
    assert forall|val: Seq<bool>| val.len() == n && formula_holds(orig, val) implies #[trigger] formula_holds(after, val) by {
        assert(formula_holds(cur, val));
        assert(formula_holds(before, val));
        assert(clause_holds(cur[m], val));
        assert forall|j: int| 0 <= j < after.len() implies clause_holds(#[trigger] after[j], val) by {
            if j < before.len() {
                assert(after[j] == before[j]);
            }
        }
    }
    }
    assert forall|j: int| 0 <= j < after.len() implies (#[trigger] after[j]).contains(l) by {
        if j < before.len() {
            assert(after[j] == before[j]);
        }
    }
}

/// Keeping some of the clauses of a list keeps what holds of each of them.
pub proof fn lemma_fewer_implied(small: bool, orig: Seq<Seq<CNFVar>>, before: Seq<Seq<CNFVar>>, after: Seq<Seq<CNFVar>>,
    l: CNFVar, n: nat)
    requires
        small ==> implied_by(orig, before, n),
        all_contain(before, l),
        forall|g: Seq<CNFVar>| #[trigger] after.contains(g) ==> before.contains(g),
    ensures
        small ==> implied_by(orig, after, n),
        all_contain(after, l),
{
    if small {
    assert forall|val: Seq<bool>| val.len() == n && formula_holds(orig, val) implies #[trigger] formula_holds(after, val) by {
        assert(formula_holds(before, val));
        lemma_holds_members(before, val);
        lemma_holds_members(after, val);
    }
    }
    assert forall|j: int| 0 <= j < after.len() implies (#[trigger] after[j]).contains(l) by {
        assert(after.contains(after[j]));
        let i = choose|i: int| 0 <= i < before.len() && before[i] == after[j];
    }
}

/// The clause without the literal `l`.
pub open spec fn strip(c: Seq<CNFVar>, l: CNFVar) -> Seq<CNFVar> {
    c.filter(not_lit(l))
}

/// A literal other than `l`.
pub open spec fn not_lit(l: CNFVar) -> spec_fn(CNFVar) -> bool {
    |x: CNFVar| x != l
}

/// The formula without the clauses equal to `c`.
pub open spec fn drop_clause(f: Seq<Seq<CNFVar>>, c: Seq<CNFVar>) -> Seq<Seq<CNFVar>> {
    f.filter(other_clause(c))
}

/// A clause other than `c`.
pub open spec fn other_clause(c: Seq<CNFVar>) -> spec_fn(Seq<CNFVar>) -> bool {
    |d: Seq<CNFVar>| d != c
}

/// The signatures (over the first `n` variables) of `c1` cover those of `c2`,
/// for both signs.
pub open spec fn sig_covers(c1: Seq<CNFVar>, c2: Seq<CNFVar>, n: nat) -> bool {
    let p1 = sig_upto(c1, n, true);
    let p2 = sig_upto(c2, n, true);
    let n1 = sig_upto(c1, n, false);
    let n2 = sig_upto(c2, n, false);
    (p1 | p2) == p1 && (n1 | n2) == n1
}

/// One pair `pv = C ∨ x`, `nv = D ∨ ¬x` of self-subsumption on `x`, on the
/// clauses `cls` and the remaining clauses `negs` with `¬x`: `C` replaces
/// `C ∨ x` (and the row stops), or `D` replaces `D ∨ ¬x`, or nothing.
pub open spec fn ss_pair(cls: Seq<Seq<CNFVar>>, negs: Seq<Seq<CNFVar>>, pv: Seq<CNFVar>, nv: Seq<CNFVar>,
    x: usize, n: nat) -> (Seq<Seq<CNFVar>>, Seq<Seq<CNFVar>>, bool) {
    let cv = strip(pv, CNFVar { id: x, sign: true });
    let dv = strip(nv, CNFVar { id: x, sign: false });
    if cv.len() > 0 && dv.len() > 0 {
        if sig_covers(cv, dv, n) {
            (drop_clause(cls.push(cv), pv), negs, true)
        } else if sig_covers(dv, cv, n) {
            (drop_clause(cls.push(dv), nv), drop_clause(negs, nv), false)
        } else {
            (cls, negs, false)
        }
    } else {
        (cls, negs, false)
    }
}

/// The clause `pv` tried against the clauses `old_neg` from position `q` on.
pub open spec fn ss_row(cls: Seq<Seq<CNFVar>>, negs: Seq<Seq<CNFVar>>, pv: Seq<CNFVar>, old_neg: Seq<Seq<CNFVar>>,
    q: int, x: usize, n: nat) -> (Seq<Seq<CNFVar>>, Seq<Seq<CNFVar>>)
    decreases old_neg.len() - q,
{
    if q < 0 || q >= old_neg.len() {
        (cls, negs)
    } else {
        let s = ss_pair(cls, negs, pv, old_neg[q], x, n);
        if s.2 { (s.0, s.1) } else { ss_row(s.0, s.1, pv, old_neg, q + 1, x, n) }
    }
}

/// The clauses `poss` with `x`, from position `p` on, each tried against the
/// clauses with `¬x` left at that point.
pub open spec fn ss_rows(cls: Seq<Seq<CNFVar>>, negs: Seq<Seq<CNFVar>>, poss: Seq<Seq<CNFVar>>, p: int,
    x: usize, n: nat) -> (Seq<Seq<CNFVar>>, Seq<Seq<CNFVar>>)
    decreases poss.len() - p,
{
    if p < 0 || p >= poss.len() {
        (cls, negs)
    } else {
        let r = ss_row(cls, negs, poss[p], negs, 0, x, n);
        ss_rows(r.0, r.1, poss, p + 1, x, n)
    }
}

/// Self-subsumption on the variables `k + 1` to `n`, one after the other.
pub open spec fn ss_vars(cls: Seq<Seq<CNFVar>>, k: int, n: nat) -> Seq<Seq<CNFVar>>
    decreases n - k,
{
    if k < 0 || k >= n {
        cls
    } else {
        let x = (k + 1) as usize;
        let r = ss_rows(cls, cls.filter(has_only_neg(x)), cls.filter(has_pos(x)), 0, x, n);
        ss_vars(r.0, k + 1, n)
    }
}

/// Every literal of `c` is a literal of `d`.
pub open spec fn sub_clause_of(c: Seq<CNFVar>, d: Seq<CNFVar>) -> bool {
    forall|x: CNFVar| #[trigger] c.contains(x) ==> d.contains(x)
}

/// Every clause of `f` is a sub-clause of a clause of `orig`.
pub open spec fn within(f: Seq<Seq<CNFVar>>, orig: Seq<Seq<CNFVar>>) -> bool {
    forall|c: Seq<CNFVar>| #[trigger] f.contains(c) ==> exists|d: Seq<CNFVar>| #[trigger] orig.contains(d) && sub_clause_of(c, d)
}

/// Some clause of `orig` holds every literal of `c`.
pub open spec fn covered_by(c: Seq<CNFVar>, orig: Seq<Seq<CNFVar>>) -> bool {
    exists|d: Seq<CNFVar>| #[trigger] orig.contains(d) && sub_clause_of(c, d)
}

/// Filtering keeps sub-clauses within the original clauses.
pub proof fn lemma_within_filter(f: Seq<Seq<CNFVar>>, orig: Seq<Seq<CNFVar>>, pred: spec_fn(Seq<CNFVar>) -> bool)
    requires
        within(f, orig),
    ensures
        within(f.filter(pred), orig),
{
    assert forall|c: Seq<CNFVar>| #[trigger] f.filter(pred).contains(c) implies covered_by(c, orig) by {
        f.lemma_filter_contains_rev(pred, c);
        assert(f.contains(c));
    }
}

/// Dropping a clause keeps sub-clauses within the original clauses.
pub proof fn lemma_within_drop(f: Seq<Seq<CNFVar>>, c: Seq<CNFVar>, orig: Seq<Seq<CNFVar>>)
    requires
        within(f, orig),
    ensures
        within(drop_clause(f, c), orig),
{
    assert forall|e: Seq<CNFVar>| #[trigger] drop_clause(f, c).contains(e) implies covered_by(e, orig) by {
        f.lemma_filter_contains_rev(other_clause(c), e);
        assert(f.contains(e));
    }
}

/// Adding a covered clause keeps sub-clauses within the original clauses.
pub proof fn lemma_within_push(f: Seq<Seq<CNFVar>>, c: Seq<CNFVar>, orig: Seq<Seq<CNFVar>>)
    requires
        within(f, orig),
        covered_by(c, orig),
    ensures
        within(f.push(c), orig),
{
    assert forall|e: Seq<CNFVar>| #[trigger] f.push(c).contains(e) implies covered_by(e, orig) by {
        let i = choose|i: int| 0 <= i < f.push(c).len() && f.push(c)[i] == e;
        if i < f.len() {
            assert(f[i] == e);
            assert(f.contains(e));
        }
    }
}

/// A clause without one of its literals is covered wherever the clause is.
pub proof fn lemma_strip_covered(c: Seq<CNFVar>, l: CNFVar, orig: Seq<Seq<CNFVar>>)
    requires
        covered_by(c, orig),
    ensures
        covered_by(strip(c, l), orig),
{
    let d = choose|d: Seq<CNFVar>| #[trigger] orig.contains(d) && sub_clause_of(c, d);
    assert forall|x: CNFVar| #[trigger] strip(c, l).contains(x) implies d.contains(x) by {
        c.lemma_filter_contains_rev(not_lit(l), x);
    }
}

/// One row of self-subsumption keeps the clauses within the original ones.
pub proof fn lemma_ss_row_within(cls: Seq<Seq<CNFVar>>, negs: Seq<Seq<CNFVar>>, pv: Seq<CNFVar>,
    old_neg: Seq<Seq<CNFVar>>, q: int, x: usize, n: nat, orig: Seq<Seq<CNFVar>>)
    requires
        within(cls, orig),
        within(negs, orig),
        within(old_neg, orig),
        covered_by(pv, orig),
    ensures
        within(ss_row(cls, negs, pv, old_neg, q, x, n).0, orig),
        within(ss_row(cls, negs, pv, old_neg, q, x, n).1, orig),
    decreases old_neg.len() - q,
{
    if 0 <= q < old_neg.len() {
        let nv = old_neg[q];
        assert(old_neg.contains(nv));
        let cv = strip(pv, CNFVar { id: x, sign: true });
        let dv = strip(nv, CNFVar { id: x, sign: false });
        lemma_strip_covered(pv, CNFVar { id: x, sign: true }, orig);
        lemma_strip_covered(nv, CNFVar { id: x, sign: false }, orig);
        lemma_within_push(cls, cv, orig);
        lemma_within_push(cls, dv, orig);
        lemma_within_drop(cls.push(cv), pv, orig);
        lemma_within_drop(cls.push(dv), nv, orig);
        lemma_within_drop(negs, nv, orig);
        assert(covered_by(nv, orig));
        assert(within(drop_clause(cls.push(cv), pv), orig));
        assert(within(drop_clause(cls.push(dv), nv), orig));
        assert(within(drop_clause(negs, nv), orig));
        let s = ss_pair(cls, negs, pv, nv, x, n);
        assert(within(s.0, orig) && within(s.1, orig));
        if !s.2 {
            lemma_ss_row_within(s.0, s.1, pv, old_neg, q + 1, x, n, orig);
        }
    }
}

/// The rows of self-subsumption keep the clauses within the original ones.
pub proof fn lemma_ss_rows_within(cls: Seq<Seq<CNFVar>>, negs: Seq<Seq<CNFVar>>, poss: Seq<Seq<CNFVar>>, p: int,
    x: usize, n: nat, orig: Seq<Seq<CNFVar>>)
    requires
        within(cls, orig),
        within(negs, orig),
        within(poss, orig),
    ensures
        within(ss_rows(cls, negs, poss, p, x, n).0, orig),
    decreases poss.len() - p,
{
    if 0 <= p < poss.len() {
        assert(poss.contains(poss[p]));
        lemma_ss_row_within(cls, negs, poss[p], negs, 0, x, n, orig);
        let r = ss_row(cls, negs, poss[p], negs, 0, x, n);
        lemma_ss_rows_within(r.0, r.1, poss, p + 1, x, n, orig);
    }
}

/// Self-subsumption only strengthens: every clause of its result is a
/// sub-clause of a clause it started from.
pub proof fn lemma_ss_vars_within(cls: Seq<Seq<CNFVar>>, k: int, n: nat, orig: Seq<Seq<CNFVar>>)
    requires
        within(cls, orig),
    ensures
        within(ss_vars(cls, k, n), orig),
    decreases n - k,
{
    if 0 <= k < n {
        let x = (k + 1) as usize;
        lemma_within_filter(cls, orig, has_only_neg(x));
        lemma_within_filter(cls, orig, has_pos(x));
        lemma_ss_rows_within(cls, cls.filter(has_only_neg(x)), cls.filter(has_pos(x)), 0, x, n, orig);
        let r = ss_rows(cls, cls.filter(has_only_neg(x)), cls.filter(has_pos(x)), 0, x, n);
        lemma_ss_vars_within(r.0, k + 1, n, orig);
    }
}

/// Self-subsuming resolution: for each variable `x`, a clause `C ∨ x`
/// and a clause `D ∨ ¬x` whose signatures show `D` within `C` (or the
/// other way round) let `C` replace `C ∨ x` (or `D` replace `D ∨ ¬x`).
/// Signatures hold one bit per variable, so only the variables that fit in
/// the width of `usize` are compared. The answer stays as it is.
pub struct SelfSubsumptionInstance;

impl Preprocessor for SelfSubsumptionInstance {
    /// The result is the formula after self-subsumption on each variable in
    /// turn (`ss_vars`). Where every variable has a bit of its own in a
    /// signature (at most 32 variables), a valuation of the variables
    /// satisfies the result exactly when it satisfies the formula.
    fn preprocess(&mut self, cnf: CNF) -> (r: CNF)
        ensures
            cnf.num_variables <= 32 ==> forall|val: Seq<bool>| val.len() == cnf.num_variables ==>
                (#[trigger] r.satisfied_by(val) <==> cnf.satisfied_by(val)),
            r.formula() == ss_vars(cnf.formula(), 0, cnf.num_variables as nat),
            within(r.formula(), cnf.formula()),
    {
        let n = cnf.num_variables;
        let ghost orig = cnf.formula();
        proof {
            assert forall|c: Seq<CNFVar>| #[trigger] orig.contains(c) implies covered_by(c, orig) by {
                assert(sub_clause_of(c, c));
            }
            lemma_ss_vars_within(orig, 0, n as nat, orig);
        }
        let ghost nn = n as nat;
        let ghost small = n <= 32;
        let mut old_clauses: Vec<CNFClause> = Vec::new();
        let mut j: usize = 0;
        while j < cnf.clauses.len()
            invariant
                cnf.wf(),
                orig == cnf.formula(),
                n == cnf.num_variables,
                j <= cnf.clauses@.len(),
                clauses_in_range(old_clauses@, n as nat),
                clauses_formula(old_clauses@) == orig.take(j as int),
            decreases cnf.clauses@.len() - j,
        {
            assert(cnf.formula()[j as int] == cnf.clauses@[j as int].vars@);
            let ghost before = clauses_formula(old_clauses@);
            old_clauses.push(cnf.clauses[j].duplicate());
            assert(clauses_formula(old_clauses@) =~= before.push(cnf.clauses@[j as int].vars@));
            assert(orig.take(j + 1) =~= orig.take(j as int).push(orig[j as int]));
            j += 1;
        }
        assert(orig.take(j as int) =~= orig);
        let ghost target = ss_vars(orig, 0, nn);
        let mut k: usize = 0;
        while k < n
            invariant
                ss_vars(clauses_formula(old_clauses@), k as int, nn) == target,
                k <= n,
                n == cnf.num_variables,
                nn == n,
                small == (n <= 32),
                clauses_in_range(old_clauses@, n as nat),
                small ==> same_models(orig, clauses_formula(old_clauses@), nn),
            decreases n - k,
        {
            let variable_number = k + 1;
            let neg_var = CNFVar { id: variable_number, sign: false };
            let pos_var = CNFVar { id: variable_number, sign: true };
            let mut pos_occ: Vec<CNFClause> = Vec::new();
            let mut neg_occ: Vec<CNFClause> = Vec::new();
            let ghost cls0 = clauses_formula(old_clauses@);
            let mut m: usize = 0;
            while m < old_clauses.len()
                invariant
                    clauses_formula(old_clauses@) == cls0,
                    pos_var == (CNFVar { id: variable_number, sign: true }),
                    neg_var == (CNFVar { id: variable_number, sign: false }),
                    clauses_formula(pos_occ@) == cls0.take(m as int).filter(has_pos(variable_number)),
                    clauses_formula(neg_occ@) == cls0.take(m as int).filter(has_only_neg(variable_number)),
                    m <= old_clauses@.len(),
                    clauses_in_range(old_clauses@, n as nat),
                    clauses_in_range(pos_occ@, n as nat),
                    clauses_in_range(neg_occ@, n as nat),
                    small ==> same_models(orig, clauses_formula(old_clauses@), nn),
                    small ==> implied_by(orig, clauses_formula(pos_occ@), nn),
                    small ==> implied_by(orig, clauses_formula(neg_occ@), nn),
                    all_contain(clauses_formula(pos_occ@), pos_var),
                    all_contain(clauses_formula(neg_occ@), neg_var),
                decreases old_clauses@.len() - m,
            {
                let ghost cur = clauses_formula(old_clauses@);
                let ghost c = old_clauses@[m as int].vars@;
                assert(cur[m as int] == c);
                proof {
                    lemma_filter_take_step(cls0, m as int, has_pos(variable_number));
                    lemma_filter_take_step(cls0, m as int, has_only_neg(variable_number));
                }
                if old_clauses[m].contains(&pos_var) {
                    let ghost before = clauses_formula(pos_occ@);
                    pos_occ.push(old_clauses[m].duplicate());
                    proof {
                        assert(clauses_formula(pos_occ@) =~= before.push(c));
                        lemma_push_implied(small, orig, cur, before, clauses_formula(pos_occ@), m as int, pos_var, nn);
                    }
                } else if old_clauses[m].contains(&neg_var) {
                    let ghost before = clauses_formula(neg_occ@);
                    neg_occ.push(old_clauses[m].duplicate());
                    proof {
                        assert(clauses_formula(neg_occ@) =~= before.push(c));
                        lemma_push_implied(small, orig, cur, before, clauses_formula(neg_occ@), m as int, neg_var, nn);
                    }
                }
                m += 1;
            }
            proof {
                assert(cls0.take(m as int) =~= cls0);
            }
            let ghost poss = clauses_formula(pos_occ@);
            let ghost x = variable_number;
            let ghost rows_target = ss_rows(cls0, clauses_formula(neg_occ@), poss, 0, x, nn);
            assert(ss_vars(cls0, k as int, nn) == ss_vars(rows_target.0, k + 1, nn));
            let mut p: usize = 0;
            while p < pos_occ.len()
                invariant
                    clauses_formula(pos_occ@) == poss,
                    x == variable_number,
                    ss_rows(clauses_formula(old_clauses@), clauses_formula(neg_occ@), poss, p as int, x, nn) == rows_target,
                    p <= pos_occ@.len(),
                    nn == n,
                    small == (n <= 32),
                    pos_var == (CNFVar { id: variable_number, sign: true }),
                    neg_var == (CNFVar { id: variable_number, sign: false }),
                    clauses_in_range(old_clauses@, n as nat),
                    clauses_in_range(pos_occ@, n as nat),
                    clauses_in_range(neg_occ@, n as nat),
                    small ==> same_models(orig, clauses_formula(old_clauses@), nn),
                    small ==> implied_by(orig, clauses_formula(pos_occ@), nn),
                    small ==> implied_by(orig, clauses_formula(neg_occ@), nn),
                    all_contain(clauses_formula(pos_occ@), pos_var),
                    all_contain(clauses_formula(neg_occ@), neg_var),
                decreases pos_occ@.len() - p,
            {
                let pos_clause = &pos_occ[p];
                let mut old_neg: Vec<CNFClause> = Vec::new();
                let mut q: usize = 0;
                while q < neg_occ.len()
                    invariant
                        q <= neg_occ@.len(),
                        clauses_in_range(neg_occ@, n as nat),
                        clauses_in_range(old_neg@, n as nat),
                        clauses_formula(old_neg@) == clauses_formula(neg_occ@).take(q as int),
                    decreases neg_occ@.len() - q,
                {
                    let ghost before = clauses_formula(old_neg@);
                    old_neg.push(neg_occ[q].duplicate());
                    assert(clauses_formula(old_neg@) =~= before.push(neg_occ@[q as int].vars@));
                    assert(clauses_formula(neg_occ@).take(q + 1)
                        =~= clauses_formula(neg_occ@).take(q as int).push(neg_occ@[q as int].vars@));
                    q += 1;
                }
                assert(clauses_formula(neg_occ@).take(q as int) =~= clauses_formula(neg_occ@));
                let ghost on = clauses_formula(old_neg@);
                let ghost pv0 = pos_clause.vars@;
                let ghost row_target = ss_row(clauses_formula(old_clauses@), clauses_formula(neg_occ@), pv0, on, 0, x, nn);
                proof {
                    assert(poss[p as int] == pv0);
                }
                let ghost mut stopped = false;
                let mut q: usize = 0;
                while q < old_neg.len()
                    invariant_except_break
                        !stopped,
                    invariant
                        on == clauses_formula(old_neg@),
                        pv0 == pos_clause.vars@,
                        x == variable_number,
                        !stopped ==> ss_row(clauses_formula(old_clauses@), clauses_formula(neg_occ@), pv0, on, q as int, x, nn)
                            == row_target,
                        stopped ==> (clauses_formula(old_clauses@), clauses_formula(neg_occ@)) == row_target,
                        q <= old_neg@.len(),
                        p < pos_occ@.len(),
                        nn == n,
                        small == (n <= 32),
                        pos_var == (CNFVar { id: variable_number, sign: true }),
                        neg_var == (CNFVar { id: variable_number, sign: false }),
                        pos_clause == pos_occ@[p as int],
                        clauses_in_range(old_clauses@, n as nat),
                        clauses_in_range(pos_occ@, n as nat),
                        clauses_in_range(neg_occ@, n as nat),
                        clauses_in_range(old_neg@, n as nat),
                        small ==> same_models(orig, clauses_formula(old_clauses@), nn),
                        small ==> implied_by(orig, clauses_formula(pos_occ@), nn),
                        small ==> implied_by(orig, clauses_formula(neg_occ@), nn),
                        small ==> implied_by(orig, clauses_formula(old_neg@), nn),
                        all_contain(clauses_formula(pos_occ@), pos_var),
                        all_contain(clauses_formula(neg_occ@), neg_var),
                        all_contain(clauses_formula(old_neg@), neg_var),
                    ensures
                        (clauses_formula(old_clauses@), clauses_formula(neg_occ@)) == row_target,
                    decreases old_neg@.len() - q,
                {
                    let neg_clause = &old_neg[q];
                    let no_var_neg_clause = without_literal(neg_clause, neg_var);
                    let no_var_pos_clause = without_literal(pos_clause, pos_var);
                    let ghost pv = pos_clause.vars@;
                    let ghost nv = neg_clause.vars@;
                    let ghost cv = no_var_pos_clause.vars@;
                    let ghost dv = no_var_neg_clause.vars@;
                    proof {
                        assert(crate::cnf::clause_in_range(old_neg@[q as int].vars@, n as nat));
                        assert(crate::cnf::clause_in_range(pos_occ@[p as int].vars@, n as nat));
                        assert forall|i: int| 0 <= i < dv.len() implies (#[trigger] dv[i]).in_range(n as nat) by {
                            assert(nv.contains(dv[i]));
                        }
                        assert forall|i: int| 0 <= i < cv.len() implies (#[trigger] cv[i]).in_range(n as nat) by {
                            assert(pv.contains(cv[i]));
                        }
                        assert(clauses_formula(pos_occ@)[p as int] == pv);
                        assert(clauses_formula(old_neg@)[q as int] == nv);
                        assert(pv.contains(pos_var));
                        assert(nv.contains(neg_var));
                        assert(on[q as int] == nv);
                    }
                    let ghost cur_cls = clauses_formula(old_clauses@);
                    let ghost cur_negs = clauses_formula(neg_occ@);
                    let ghost step = ss_pair(cur_cls, cur_negs, pv, nv, x, nn);
                    proof {
                        assert(ss_row(cur_cls, cur_negs, pv0, on, q as int, x, nn)
                            == if step.2 { (step.0, step.1) } else { ss_row(step.0, step.1, pv0, on, q + 1, x, nn) });
                    }
                    if no_var_neg_clause.len() > 0 && no_var_pos_clause.len() > 0 {
                        if subsumption_test(&no_var_pos_clause, &no_var_neg_clause, n) {
                            let ghost cur = clauses_formula(old_clauses@);
                            old_clauses.push(no_var_pos_clause);
                            proof { assert(clauses_formula(old_clauses@) =~= cur.push(cv)); }
                            old_clauses = without_clause(&old_clauses, pos_clause);
                            proof {
                                if small {
                                    lemma_sig_subset(cv, dv, nn);
                                    assert forall|val: Seq<bool>| val.len() == nn && formula_holds(orig, val)
                                        implies #[trigger] clause_holds(cv, val) by {
                                        assert(formula_holds(clauses_formula(pos_occ@), val));
                                        assert(formula_holds(clauses_formula(old_neg@), val));
                                        assert(clause_holds(clauses_formula(pos_occ@)[p as int], val));
                                        assert(clause_holds(clauses_formula(old_neg@)[q as int], val));
                                        lemma_strengthen(pv, nv, cv, dv, pos_var, val);
                                    }
                                    lemma_replace(orig, cur, clauses_formula(old_clauses@), pv, cv, nn);
                                }
                                assert((clauses_formula(old_clauses@), clauses_formula(neg_occ@)) == (step.0, step.1));
                                stopped = true;
                            }
                            break;
                        } else if subsumption_test(&no_var_neg_clause, &no_var_pos_clause, n) {
                            let ghost cur = clauses_formula(old_clauses@);
                            let ghost negs = clauses_formula(neg_occ@);
                            old_clauses.push(no_var_neg_clause);
                            proof { assert(clauses_formula(old_clauses@) =~= cur.push(dv)); }
                            old_clauses = without_clause(&old_clauses, neg_clause);
                            neg_occ = without_clause(&neg_occ, neg_clause);
                            proof {
                                if small {
                                    lemma_sig_subset(dv, cv, nn);
                                    assert forall|val: Seq<bool>| val.len() == nn && formula_holds(orig, val)
                                        implies #[trigger] clause_holds(dv, val) by {
                                        assert(formula_holds(clauses_formula(pos_occ@), val));
                                        assert(formula_holds(clauses_formula(old_neg@), val));
                                        assert(clause_holds(clauses_formula(pos_occ@)[p as int], val));
                                        assert(clause_holds(clauses_formula(old_neg@)[q as int], val));
                                        lemma_strengthen(nv, pv, dv, cv, neg_var, val);
                                    }
                                    lemma_replace(orig, cur, clauses_formula(old_clauses@), nv, dv, nn);
                                }
                                lemma_fewer_implied(small, orig, negs, clauses_formula(neg_occ@), neg_var, nn);
                            }
                        }
                    }
                    q += 1;
                }
                proof {
                    assert((clauses_formula(old_clauses@), clauses_formula(neg_occ@)) == row_target);
                }
                p += 1;
            }
            proof {
                assert((clauses_formula(old_clauses@), clauses_formula(neg_occ@)) == rows_target);
            }
            k += 1;
        }
        let r = CNF { num_variables: n, clauses: old_clauses };
        proof {
            assert forall|j: int| 0 <= j < r.formula().len() implies crate::cnf::clause_in_range(#[trigger] r.formula()[j], n as nat) by {
                assert(r.formula()[j] == r.clauses@[j].vars@);
            }
        }
        r
    }

    fn restore(&mut self, assignment: SATSolution) -> (r: SATSolution)
        ensures
            r == assignment,
    {
        assignment
    }
}

/// Makes self-subsumption passes.
pub struct SelfSubsumption;

impl PreprocessorFactory for SelfSubsumption {
    type Instance = SelfSubsumptionInstance;

    fn new(&self) -> SelfSubsumptionInstance {
        SelfSubsumptionInstance
    }
}

/// Some literal of the clause names a variable of `val` and is true under it.
pub open spec fn clause_true_in(c: Seq<CNFVar>, val: Seq<bool>) -> bool {
    exists|i: int| 0 <= i < c.len() && 1 <= c[i].id <= val.len() && (#[trigger] c[i]).holds_in(val)
}

/// Every non-empty clause is true under `val`; an empty clause counts as satisfied.
pub open spec fn nonempty_clauses_hold(cs: Seq<CNFClause>, val: Seq<bool>) -> bool {
    forall|j: int| 0 <= j < cs.len() && cs[j].vars@.len() > 0 ==> clause_true_in(#[trigger] cs[j].vars@, val)
}

/// The literals of another variable than `var`.
pub open spec fn other_var(var: usize) -> spec_fn(CNFVar) -> bool {
    |x: CNFVar| x.id != var
}

/// No clause holds a literal together with its negation.
pub open spec fn tautology_free(f: Seq<Seq<CNFVar>>) -> bool {
    forall|j: int| 0 <= j < f.len() ==> !tautology(#[trigger] f[j])
}

/// Clauses with the same literals are true under the same valuations, and
/// are tautologies together.
pub proof fn lemma_same_literals(a: Seq<CNFVar>, b: Seq<CNFVar>, val: Seq<bool>)
    requires
        forall|x: CNFVar| #[trigger] a.contains(x) <==> b.contains(x),
    ensures
        clause_holds(a, val) == clause_holds(b, val),
        tautology(a) == tautology(b),
{
    if clause_holds(a, val) {
        let i = choose|i: int| 0 <= i < a.len() && (#[trigger] a[i]).holds_in(val);
        assert(a.contains(a[i]));
        assert(b.contains(a[i]));
        let k = choose|k: int| 0 <= k < b.len() && b[k] == a[i];
        assert(b[k].holds_in(val));
    }
    if clause_holds(b, val) {
        let i = choose|i: int| 0 <= i < b.len() && (#[trigger] b[i]).holds_in(val);
        assert(b.contains(b[i]));
        assert(a.contains(b[i]));
        let k = choose|k: int| 0 <= k < a.len() && a[k] == b[i];
        assert(a[k].holds_in(val));
    }
    if tautology(a) {
        let (i, j) = choose|i: int, j: int| #![trigger a[i], a[j]] 0 <= i < a.len() && 0 <= j < a.len() && a[j] == a[i].flipped();
        assert(a.contains(a[i]) && a.contains(a[j]));
        assert(b.contains(a[i]) && b.contains(a[j]));
        let k1 = choose|k: int| 0 <= k < b.len() && b[k] == a[i];
        let k2 = choose|k: int| 0 <= k < b.len() && b[k] == a[j];
        assert(b[k2] == b[k1].flipped());
    }
    if tautology(b) {
        let (i, j) = choose|i: int, j: int| #![trigger b[i], b[j]] 0 <= i < b.len() && 0 <= j < b.len() && b[j] == b[i].flipped();
        assert(b.contains(b[i]) && b.contains(b[j]));
        assert(a.contains(b[i]) && a.contains(b[j]));
        let k1 = choose|k: int| 0 <= k < a.len() && a[k] == b[i];
        let k2 = choose|k: int| 0 <= k < a.len() && a[k] == b[j];
        assert(a[k2] == a[k1].flipped());
    }
}

/// The resolvent on `var` of a clause with the positive literal of `var`
/// (and not a tautology) and a clause without it is true under every
/// valuation that makes both true.
pub proof fn lemma_resolvent_holds(p: Seq<CNFVar>, q: Seq<CNFVar>, var: usize, val: Seq<bool>)
    requires
        p.contains(CNFVar { id: var, sign: true }),
        !tautology(p),
        !q.contains(CNFVar { id: var, sign: true }),
        clause_holds(p, val),
        clause_holds(q, val),
    ensures
        clause_holds(p.filter(other_var(var)) + q.filter(other_var(var)), val),
{
    let pf = p.filter(other_var(var));
    let qf = q.filter(other_var(var));
    let r = pf + qf;
    let x = CNFVar { id: var, sign: true };
    if val[var - 1] {
        let i = choose|i: int| 0 <= i < q.len() && (#[trigger] q[i]).holds_in(val);
        if q[i].id == var {
            assert(q[i] == x);
            assert(q.contains(x));
        }
        q.lemma_filter_contains(other_var(var), i);
        let k = choose|k: int| 0 <= k < qf.len() && qf[k] == q[i];
        assert(r[pf.len() + k] == q[i]);
        assert(r[pf.len() + k].holds_in(val));
    } else {
        let i = choose|i: int| 0 <= i < p.len() && (#[trigger] p[i]).holds_in(val);
        if p[i].id == var {
            let k = choose|k: int| 0 <= k < p.len() && p[k] == x;
            assert(p[i] == p[k].flipped());
        }
        p.lemma_filter_contains(other_var(var), i);
        let k = choose|k: int| 0 <= k < pf.len() && pf[k] == p[i];
        assert(r[k] == p[i]);
        assert(r[k].holds_in(val));
    }
}

/// Resolution on `var`: the literals of both clauses other than those of `var`.
fn resolution(clause1: &CNFClause, clause2: &CNFClause, resolution_variable: usize) -> (r: CNFClause)
    ensures
        r.vars@ == clause1.vars@.filter(other_var(resolution_variable))
            + clause2.vars@.filter(other_var(resolution_variable)),
        forall|i: int| 0 <= i < r.vars@.len() ==> clause1.vars@.contains(#[trigger] r.vars@[i])
            || clause2.vars@.contains(r.vars@[i]),
{
    let mut vars: Vec<CNFVar> = Vec::new();
    let mut i: usize = 0;
    while i < clause1.vars.len()
        invariant
            i <= clause1.vars@.len(),
            vars@ == clause1.vars@.take(i as int).filter(other_var(resolution_variable)),
        decreases clause1.vars@.len() - i,
    {
        if clause1.vars[i].id != resolution_variable {
            vars.push(clause1.vars[i]);
        }
        proof { lemma_filter_take_step(clause1.vars@, i as int, other_var(resolution_variable)); }
        i += 1;
    }
    assert(clause1.vars@.take(i as int) =~= clause1.vars@);
    let ghost first = vars@;
    let mut second: Vec<CNFVar> = Vec::new();
    let mut i: usize = 0;
    while i < clause2.vars.len()
        invariant
            i <= clause2.vars@.len(),
            second@ == clause2.vars@.take(i as int).filter(other_var(resolution_variable)),
        decreases clause2.vars@.len() - i,
    {
        if clause2.vars[i].id != resolution_variable {
            second.push(clause2.vars[i]);
        }
        proof { lemma_filter_take_step(clause2.vars@, i as int, other_var(resolution_variable)); }
        i += 1;
    }
    assert(clause2.vars@.take(i as int) =~= clause2.vars@);
    let ghost snd = second@;
    vars.append(&mut second);
    proof {
        assert forall|k: int| 0 <= k < vars@.len() implies clause1.vars@.contains(#[trigger] vars@[k])
            || clause2.vars@.contains(vars@[k]) by {
            if k < first.len() {
                assert(vars@[k] == first[k]);
                assert(clause1.vars@.filter(other_var(resolution_variable)).contains(first[k]));
                clause1.vars@.lemma_filter_contains_rev(other_var(resolution_variable), first[k]);
            } else {
                assert(vars@[k] == snd[k - first.len()]);
                assert(clause2.vars@.filter(other_var(resolution_variable)).contains(snd[k - first.len()]));
                clause2.vars@.lemma_filter_contains_rev(other_var(resolution_variable), snd[k - first.len()]);
            }
        }
    }
    CNFClause { vars }
}

/// NiVER, non-increasing variable elimination by resolution: a variable is
/// eliminated when the non-tautological resolvents of its positive and
/// negative clauses are fewer than those clauses (and not none); this is
/// repeated until no variable qualifies. The eliminated clauses are kept,
/// and a valuation is extended to the eliminated variables, last first, by
/// trying true and then false against all clauses seen so far.
pub struct NiVER {
    removed_clauses_stack: Vec<(usize, Vec<CNFClause>)>,
    cnf_result: CNF,
}

impl NiVER {
    pub fn new() -> (r: NiVER)
        ensures
            r.stack_len() == 0,
    {
        NiVER { removed_clauses_stack: Vec::new(), cnf_result: CNF { clauses: Vec::new(), num_variables: 0 } }
    }

    /// The number of eliminated variables waiting to be restored.
    pub closed spec fn stack_len(&self) -> nat {
        self.removed_clauses_stack@.len()
    }

    /// Whether every non-empty clause of the clauses seen so far has a true
    /// literal under `assignment` (a literal outside it counts as false).
    fn is_sat(&self, assignment: &Vec<bool>) -> (r: bool)
        ensures
            r == nonempty_clauses_hold(self.cnf_result.clauses@, assignment@),
    {
        let mut j: usize = 0;
        while j < self.cnf_result.clauses.len()
            invariant
                j <= self.cnf_result.clauses@.len(),
                forall|k: int| 0 <= k < j && self.cnf_result.clauses@[k].vars@.len() > 0
                    ==> clause_true_in(#[trigger] self.cnf_result.clauses@[k].vars@, assignment@),
            decreases self.cnf_result.clauses@.len() - j,
        {
            let clause = &self.cnf_result.clauses[j];
            if clause.len() > 0 {
                let mut clause_sat = false;
                let mut i: usize = 0;
                while i < clause.vars.len()
                    invariant
                        i <= clause.vars@.len(),
                        clause_sat == exists|k: int| 0 <= k < i && (#[trigger] clause.vars@[k]).holds_in(assignment@)
                            && 1 <= clause.vars@[k].id <= assignment@.len(),
                    decreases clause.vars@.len() - i,
                {
                    let var = clause.vars[i];
                    if var.id >= 1 && var.id - 1 < assignment.len() && assignment[var.id - 1] == var.sign {
                        clause_sat = true;
                    }
                    i += 1;
                }
                if !clause_sat {
                    return false;
                }
            }
            j += 1;
        }
        true
    }
}

/// Every clause has a true literal under `val`.
pub open spec fn all_hold(cs: Seq<CNFClause>, val: Seq<bool>) -> bool {
    forall|k: int| 0 <= k < cs.len() ==> clause_holds(#[trigger] cs[k].vars@, val)
}

/// No clause is a tautology.
pub open spec fn none_tautological(cs: Seq<CNFClause>) -> bool {
    forall|k: int| 0 <= k < cs.len() ==> !tautology(#[trigger] cs[k].vars@)
}

/// The clauses of both sides of a resolution are true under `val`, and those
/// with the positive literal are no tautologies.
pub open spec fn sides_hold(pos: Seq<CNFClause>, neg: Seq<CNFClause>, val: Seq<bool>) -> bool {
    &&& none_tautological(pos)
    &&& all_hold(pos, val)
    &&& all_hold(neg, val)
}

/// The clauses hold the same literals.
pub open spec fn same_lits(c: Seq<CNFVar>, d: Seq<CNFVar>) -> bool {
    forall|x: CNFVar| #[trigger] c.contains(x) <==> d.contains(x)
}

/// The resolvent of `p` and `q` on the variable `x`: their literals of other variables.
pub open spec fn resolvent(p: Seq<CNFVar>, q: Seq<CNFVar>, x: usize) -> Seq<CNFVar> {
    p.filter(other_var(x)) + q.filter(other_var(x))
}

/// No literal of the clause names the variable `x`.
pub open spec fn free_of(c: Seq<CNFVar>, x: usize) -> bool {
    forall|i: int| 0 <= i < c.len() ==> (#[trigger] c[i]).id != x
}

/// Every clause is true under `val` (a literal outside `val` counts as false).
pub open spec fn all_true(f: Seq<Seq<CNFVar>>, val: Seq<bool>) -> bool {
    forall|j: int| 0 <= j < f.len() ==> clause_true_in(#[trigger] f[j], val)
}

/// The positive literal of `x`.
pub open spec fn pos_lit(x: usize) -> CNFVar {
    CNFVar { id: x, sign: true }
}

/// The negative literal of `x`.
pub open spec fn neg_lit(x: usize) -> CNFVar {
    CNFVar { id: x, sign: false }
}

/// The clauses of the elimination of `x`: each holds a literal of `x`, and
/// each resolvent of one holding `x` with one not holding it is a tautology
/// or has the literals of a clause that satisfies `in_rest`.
pub open spec fn resolvents_kept(e: Seq<Seq<CNFVar>>, x: usize, rest: Seq<Seq<CNFVar>>) -> bool {
    &&& forall|a: int| 0 <= a < e.len() ==> (#[trigger] e[a]).contains(pos_lit(x)) || e[a].contains(neg_lit(x))
    &&& forall|a: int, b: int| #![trigger e[a], e[b]] 0 <= a < e.len() && 0 <= b < e.len()
        && e[a].contains(pos_lit(x)) && !e[b].contains(pos_lit(x))
        ==> tautology(resolvent(e[a], e[b], x))
            || exists|c: Seq<CNFVar>| #[trigger] rest.contains(c) && same_lits(c, resolvent(e[a], e[b], x))
}

/// Setting a variable that a clause does not name keeps its truth.
pub proof fn lemma_free_of_update(c: Seq<CNFVar>, x: usize, val: Seq<bool>, b: bool)
    requires
        free_of(c, x),
        1 <= x <= val.len(),
    ensures
        clause_true_in(c, val.update(x - 1, b)) == clause_true_in(c, val),
        forall|i: int| 0 <= i < c.len() && 1 <= c[i].id <= val.len()
            ==> ((#[trigger] c[i]).holds_in(val.update(x - 1, b)) == c[i].holds_in(val)),
{
    let w = val.update(x - 1, b);
    assert forall|i: int| 0 <= i < c.len() && 1 <= c[i].id <= val.len() implies ((#[trigger] c[i]).holds_in(w) == c[i].holds_in(val)) by {
        if 1 <= c[i].id <= val.len() {
            assert(w[c[i].id - 1] == val[c[i].id - 1]);
        }
    }
    if clause_true_in(c, w) {
        let i = choose|i: int| 0 <= i < c.len() && 1 <= c[i].id <= w.len() && (#[trigger] c[i]).holds_in(w);
        assert(c[i].holds_in(val));
    }
    if clause_true_in(c, val) {
        let i = choose|i: int| 0 <= i < c.len() && 1 <= c[i].id <= val.len() && (#[trigger] c[i]).holds_in(val);
        assert(c[i].holds_in(w));
    }
}

/// A valuation that satisfies the remaining clauses, none of which names
/// `x`, and the resolvents of the clauses of `x`, extends to those clauses
/// by setting `x` to true or to false.
pub proof fn lemma_extend_eliminated(rest: Seq<Seq<CNFVar>>, e: Seq<Seq<CNFVar>>, x: usize, val: Seq<bool>)
    requires
        1 <= x <= val.len(),
        all_true(rest, val),
        forall|j: int| 0 <= j < rest.len() ==> free_of(#[trigger] rest[j], x),
        forall|a: int| 0 <= a < e.len() ==> crate::cnf::clause_in_range(#[trigger] e[a], val.len()),
        resolvents_kept(e, x, rest),
    ensures
        all_true(rest + e, val.update(x - 1, true)) || all_true(rest + e, val.update(x - 1, false)),
{
    let vt = val.update(x - 1, true);
    let vf = val.update(x - 1, false);
    let f = rest + e;
    assert forall|j: int| 0 <= j < rest.len() implies clause_true_in(#[trigger] rest[j], vt)
        && clause_true_in(rest[j], vf) by {
        lemma_free_of_update(rest[j], x, val, true);
        lemma_free_of_update(rest[j], x, val, false);
    }
    if !all_true(f, vt) {
        let jb = choose|j: int| 0 <= j < f.len() && !clause_true_in(#[trigger] f[j], vt);
        if jb < rest.len() {
            assert(f[jb] == rest[jb]);
        }
        let b = jb - rest.len();
        assert(f[jb] == e[b]);
        let d = e[b];
        // d does not hold x, so it holds ¬x
        if d.contains(pos_lit(x)) {
            let i = choose|i: int| 0 <= i < d.len() && d[i] == pos_lit(x);
            assert(d[i].holds_in(vt));
        }
        let dx = d.filter(other_var(x));
        // every literal of d other than those of x is false under vt, and so under vf
        assert forall|i: int| 0 <= i < dx.len() implies !(#[trigger] dx[i]).holds_in(vf) by {
            assert(d.filter(other_var(x)).contains(dx[i]));
            d.lemma_filter_contains_rev(other_var(x), dx[i]);
            d.lemma_filter_pred(other_var(x), i);
            let k = choose|k: int| 0 <= k < d.len() && d[k] == dx[i];
            assert(d[k].in_range(val.len()));
            assert(vf[dx[i].id - 1] == vt[dx[i].id - 1]);
        }
        assert forall|j: int| 0 <= j < f.len() implies clause_true_in(#[trigger] f[j], vf) by {
            if j < rest.len() {
                assert(f[j] == rest[j]);
            } else {
                let a = j - rest.len();
                assert(f[j] == e[a]);
                let c = e[a];
                if c.contains(neg_lit(x)) {
                    let i = choose|i: int| 0 <= i < c.len() && c[i] == neg_lit(x);
                    assert(c[i].holds_in(vf));
                } else {
                    assert(c.contains(pos_lit(x)));
                    let cx = c.filter(other_var(x));
                    let r = resolvent(c, d, x);
                    assert(r == cx + dx);
                    // a literal of r that is true under vf lies in cx, hence in c
                    assert forall|i: int| 0 <= i < r.len() && 1 <= r[i].id <= vf.len() && (#[trigger] r[i]).holds_in(vf)
                        implies clause_true_in(c, vf) by {
                        if i >= cx.len() {
                            assert(r[i] == dx[i - cx.len()]);
                        } else {
                            assert(r[i] == cx[i]);
                            assert(c.filter(other_var(x)).contains(cx[i]));
                            c.lemma_filter_contains_rev(other_var(x), cx[i]);
                            let k = choose|k: int| 0 <= k < c.len() && c[k] == cx[i];
                            assert(c[k].holds_in(vf));
                        }
                    }
                    assert(crate::cnf::clause_in_range(c, val.len()));
                    assert forall|i: int| 0 <= i < r.len() implies (#[trigger] r[i]).in_range(val.len()) by {
                        if i >= cx.len() {
                            assert(r[i] == dx[i - cx.len()]);
                            assert(d.filter(other_var(x)).contains(dx[i - cx.len()]));
                            d.lemma_filter_contains_rev(other_var(x), dx[i - cx.len()]);
                            let k = choose|k: int| 0 <= k < d.len() && d[k] == dx[i - cx.len()];
                            assert(d[k].in_range(val.len()));
                        } else {
                            assert(r[i] == cx[i]);
                            assert(c.filter(other_var(x)).contains(cx[i]));
                            c.lemma_filter_contains_rev(other_var(x), cx[i]);
                            let k = choose|k: int| 0 <= k < c.len() && c[k] == cx[i];
                        }
                    }
                    assert(e[a] == c && e[b] == d);
                    if tautology(r) {
                        let (i, k) = choose|i: int, k: int| #![trigger r[i], r[k]] 0 <= i < r.len() && 0 <= k < r.len()
                            && r[k] == r[i].flipped();
                        assert(r[i].in_range(val.len()) && r[k].in_range(val.len()));
                        if r[i].holds_in(vf) {
                            assert(clause_true_in(c, vf));
                        } else {
                            assert(r[k].holds_in(vf));
                            assert(clause_true_in(c, vf));
                        }
                    } else {
                        let cl = choose|cl: Seq<CNFVar>| #[trigger] rest.contains(cl) && same_lits(cl, r);
                        let w = choose|w: int| 0 <= w < rest.len() && rest[w] == cl;
                        assert(clause_true_in(rest[w], vf));
                        let i = choose|i: int| 0 <= i < cl.len() && 1 <= cl[i].id <= vf.len() && (#[trigger] cl[i]).holds_in(vf);
                        assert(cl.contains(cl[i]));
                        assert(r.contains(cl[i]));
                        let k = choose|k: int| 0 <= k < r.len() && r[k] == cl[i];
                        assert(r[k].holds_in(vf));
                    }
                }
            }
        }
    }
}

/// The clause is among the current clauses or among the clauses of an
/// eliminated variable above position `k` of the stack.
pub open spec fn in_later(stack: Seq<(usize, Vec<CNFClause>)>, cur: Seq<Seq<CNFVar>>, k: int, c: Seq<CNFVar>) -> bool {
    cur.contains(c) || exists|j: int| k < j < stack.len() && #[trigger] stack_formula(stack, j).contains(c)
}

/// The elimination at position `k` of the stack: each of its clauses holds a
/// literal of its variable; each resolvent of one holding the positive
/// literal with one not holding it is a tautology or has the literals of a
/// clause that came later; and no later clause names the variable.
pub open spec fn entry_closed(stack: Seq<(usize, Vec<CNFClause>)>, cur: Seq<Seq<CNFVar>>, k: int) -> bool {
    let x = stack[k].0;
    let e = stack_formula(stack, k);
    &&& forall|a: int| 0 <= a < e.len() ==> (#[trigger] e[a]).contains(pos_lit(x)) || e[a].contains(neg_lit(x))
    &&& forall|a: int, b: int| #![trigger e[a], e[b]] 0 <= a < e.len() && 0 <= b < e.len()
        && e[a].contains(pos_lit(x)) && !e[b].contains(pos_lit(x))
        ==> tautology(resolvent(e[a], e[b], x))
            || exists|c: Seq<CNFVar>| #[trigger] in_later(stack, cur, k, c) && same_lits(c, resolvent(e[a], e[b], x))
    &&& forall|c: Seq<CNFVar>| #[trigger] in_later(stack, cur, k, c) ==> free_of(c, x)
}

/// Every elimination on the stack is closed in this sense.
pub open spec fn eliminations_closed(stack: Seq<(usize, Vec<CNFClause>)>, cur: Seq<Seq<CNFVar>>) -> bool {
    forall|k: int| 0 <= k < stack.len() ==> #[trigger] entry_closed(stack, cur, k)
}

/// A clause with the literals of a clause free of `x` is free of `x`.
pub proof fn lemma_same_lits_free_of(a: Seq<CNFVar>, b: Seq<CNFVar>, x: usize)
    requires
        same_lits(a, b),
        free_of(b, x),
    ensures
        free_of(a, x),
{
    assert forall|i: int| 0 <= i < a.len() implies (#[trigger] a[i]).id != x by {
        assert(a.contains(a[i]));
        assert(b.contains(a[i]));
        let k = choose|k: int| 0 <= k < b.len() && b[k] == a[i];
    }
}

/// A resolvent on `x` is free of `x`, and of every variable both clauses are free of.
pub proof fn lemma_resolvent_free_of(p: Seq<CNFVar>, q: Seq<CNFVar>, x: usize)
    ensures
        free_of(resolvent(p, q, x), x),
        forall|y: usize| free_of(p, y) && free_of(q, y) ==> #[trigger] free_of(resolvent(p, q, x), y),
{
    let pf = p.filter(other_var(x));
    let qf = q.filter(other_var(x));
    let r = resolvent(p, q, x);
    assert forall|i: int| 0 <= i < r.len() implies (#[trigger] r[i]).id != x
        && p.contains(r[i]) || q.contains(r[i]) by {
        if i < pf.len() {
            assert(r[i] == pf[i]);
            p.lemma_filter_pred(other_var(x), i);
            assert(p.filter(other_var(x)).contains(pf[i]));
            p.lemma_filter_contains_rev(other_var(x), pf[i]);
        } else {
            assert(r[i] == qf[i - pf.len()]);
            q.lemma_filter_pred(other_var(x), i - pf.len());
            assert(q.filter(other_var(x)).contains(qf[i - pf.len()]));
            q.lemma_filter_contains_rev(other_var(x), qf[i - pf.len()]);
        }
    }
    assert forall|y: usize| free_of(p, y) && free_of(q, y) implies #[trigger] free_of(resolvent(p, q, x), y) by {
        assert forall|i: int| 0 <= i < r.len() implies (#[trigger] r[i]).id != y by {
            if p.contains(r[i]) {
                let k = choose|k: int| 0 <= k < p.len() && p[k] == r[i];
            } else {
                let k = choose|k: int| 0 <= k < q.len() && q[k] == r[i];
            }
        }
    }
}

/// The clauses of the eliminated variable at `k` of the stack.
pub open spec fn stack_formula(stack: Seq<(usize, Vec<CNFClause>)>, k: int) -> Seq<Seq<CNFVar>> {
    clauses_formula(stack[k].1@)
}

/// Every clause of `original` is among `current` or among the clauses of
/// some eliminated variable on the stack.
pub open spec fn covered(original: Seq<Seq<CNFVar>>, current: Seq<Seq<CNFVar>>,
    stack: Seq<(usize, Vec<CNFClause>)>) -> bool {
    forall|c: Seq<CNFVar>| #[trigger] original.contains(c) ==> current.contains(c)
        || exists|k: int| 0 <= k < stack.len() && #[trigger] stack_formula(stack, k).contains(c)
}

/// The eliminated variables lie in `1..=n`, and their clauses are non-empty
/// and lie among the variables `1..=n`.
pub open spec fn stack_wf(stack: Seq<(usize, Vec<CNFClause>)>, n: nat) -> bool {
    forall|k: int| 0 <= k < stack.len() ==> {
        &&& 1 <= (#[trigger] stack[k]).0 <= n
        &&& clauses_in_range(stack[k].1@, n)
        &&& forall|j: int| 0 <= j < stack[k].1@.len() ==> (#[trigger] stack[k].1@[j]).vars@.len() > 0
    }
}

impl NiVER {
    /// The formula the last `preprocess` produced, extended by the clauses restored so far.
    pub closed spec fn result_formula(&self) -> Seq<Seq<CNFVar>> {
        self.cnf_result.formula()
    }

    /// The state after simplifying `original`: every clause of it is among
    /// the result or among the eliminated clauses, all within the variables
    /// of the result, and the eliminated clauses are non-empty.
    pub closed spec fn prepared_for(&self, original: Seq<Seq<CNFVar>>) -> bool {
        let n = self.cnf_result.num_variables as nat;
        &&& covered(original, self.cnf_result.formula(), self.removed_clauses_stack@)
        &&& eliminations_closed(self.removed_clauses_stack@, self.cnf_result.formula())
        &&& stack_wf(self.removed_clauses_stack@, n)
        &&& clauses_in_range(self.cnf_result.clauses@, n)
        &&& crate::cnf::formula_in_range(original, n)
    }

    /// The variable `x` was eliminated.
    pub closed spec fn eliminated(&self, x: usize) -> bool {
        exists|k: int| 0 <= k < self.removed_clauses_stack@.len() && #[trigger] self.removed_clauses_stack@[k].0 == x
    }

    /// The number of variables of the simplified formula.
    pub closed spec fn result_num_variables(&self) -> usize {
        self.cnf_result.num_variables
    }

    /// Sorts the literals of every clause and removes duplicates.
    fn remove_dupl_variables(clauses: &mut Vec<CNFClause>)
        ensures
            final(clauses)@.len() == old(clauses)@.len(),
            forall|j: int| 0 <= j < final(clauses)@.len() ==>
                (#[trigger] final(clauses)@[j]).vars@ == sorted_view(old(clauses)@[j].vars@),
            forall|n: nat| clauses_in_range(old(clauses)@, n) ==> #[trigger] clauses_in_range(final(clauses)@, n),
            forall|j: int, x: CNFVar| 0 <= j < final(clauses)@.len() ==>
                (#[trigger] final(clauses)@[j].vars@.contains(x) <==> old(clauses)@[j].vars@.contains(x)),
    {
        let mut j: usize = 0;
        while j < clauses.len()
            invariant
                j <= clauses@.len(),
                clauses@.len() == old(clauses)@.len(),
                forall|k: int| 0 <= k < j ==> (#[trigger] clauses@[k]).vars@ == sorted_view(old(clauses)@[k].vars@),
                forall|k: int| j <= k < clauses@.len() ==> #[trigger] clauses@[k] == old(clauses)@[k],
                forall|k: int, i: int| 0 <= k < j && 0 <= i < clauses@[k].vars@.len()
                    ==> old(clauses)@[k].vars@.contains(#[trigger] clauses@[k].vars@[i]),
                forall|k: int, x: CNFVar| 0 <= k < j ==>
                    (#[trigger] clauses@[k].vars@.contains(x) <==> old(clauses)@[k].vars@.contains(x)),
            decreases clauses@.len() - j,
        {
            let sorted = sorted_dedup(&clauses[j].vars);
            proof { lemma_sorted_view(clauses@[j as int].vars@, sorted@); }
            clauses.set(j, CNFClause { vars: sorted });
            j += 1;
        }
        proof {
            assert forall|n: nat| clauses_in_range(old(clauses)@, n) implies #[trigger] clauses_in_range(clauses@, n) by {
                assert forall|k: int| 0 <= k < clauses@.len() implies crate::cnf::clause_in_range(#[trigger] clauses@[k].vars@, n) by {
                    assert forall|i: int| 0 <= i < clauses@[k].vars@.len() implies (#[trigger] clauses@[k].vars@[i]).in_range(n) by {
                        assert(old(clauses)@[k].vars@.contains(clauses@[k].vars@[i]));
                        assert(crate::cnf::clause_in_range(old(clauses)@[k].vars@, n));
                    }
                }
            }
        }
    }
}

/// A clause with the positive literal of `x`.
pub open spec fn has_pos(x: usize) -> spec_fn(Seq<CNFVar>) -> bool {
    |c: Seq<CNFVar>| c.contains(CNFVar { id: x, sign: true })
}

/// A clause with the negative literal of `x` and not the positive one.
pub open spec fn has_only_neg(x: usize) -> spec_fn(Seq<CNFVar>) -> bool {
    |c: Seq<CNFVar>| !c.contains(CNFVar { id: x, sign: true }) && c.contains(CNFVar { id: x, sign: false })
}

/// How many clauses of `negs` give with `p` a resolvent on `x` that is not a tautology.
pub open spec fn row_count(p: Seq<CNFVar>, negs: Seq<Seq<CNFVar>>, x: usize) -> nat
    decreases negs.len(),
{
    if negs.len() == 0 {
        0
    } else {
        row_count(p, negs.drop_last(), x) + if tautology(resolvent(p, negs.last(), x)) { 0nat } else { 1nat }
    }
}

/// How many pairs of a clause of `poss` and one of `negs` give a resolvent on
/// `x` that is not a tautology.
pub open spec fn pairs_count(poss: Seq<Seq<CNFVar>>, negs: Seq<Seq<CNFVar>>, x: usize) -> nat
    decreases poss.len(),
{
    if poss.len() == 0 {
        0
    } else {
        pairs_count(poss.drop_last(), negs, x) + row_count(poss.last(), negs, x)
    }
}

/// No pair without clauses on one side.
pub proof fn lemma_pairs_count_empty(poss: Seq<Seq<CNFVar>>, negs: Seq<Seq<CNFVar>>, x: usize)
    requires
        poss.len() == 0 || negs.len() == 0,
    ensures
        pairs_count(poss, negs, x) == 0,
    decreases poss.len(),
{
    if poss.len() > 0 {
        lemma_pairs_count_empty(poss.drop_last(), negs, x);
    }
}

/// The elimination of `x` pays: some resolvents, and fewer than the clauses
/// with a literal of `x`.
pub open spec fn elimination_pays(f: Seq<Seq<CNFVar>>, x: usize) -> bool {
    let poss = f.filter(has_pos(x));
    let negs = f.filter(has_only_neg(x));
    0 < pairs_count(poss, negs, x) < poss.len() + negs.len()
}

impl NiVER {
    /// One attempt to eliminate `variable_number`: splits the clauses into
    /// those with its positive literal, those with its negative literal and
    /// the others, and builds the non-tautological resolvents (each sorted
    /// and deduplicated). When they are fewer than the clauses they replace,
    /// and not none, the variable is eliminated: its clauses go on the stack
    /// and the resolvents, followed by the other clauses, replace the
    /// clauses. Returns whether it was eliminated.
    fn eliminate(&mut self, old_clauses: &mut Vec<CNFClause>, variable_number: usize, n: usize,
        Ghost(original): Ghost<Seq<Seq<CNFVar>>>) -> (r: bool)
        requires
            1 <= variable_number <= n,
            clauses_in_range(old(old_clauses)@, n as nat),
            stack_wf(old(self).removed_clauses_stack@, n as nat),
            covered(original, clauses_formula(old(old_clauses)@), old(self).removed_clauses_stack@),
            eliminations_closed(old(self).removed_clauses_stack@, clauses_formula(old(old_clauses)@)),
        ensures
            eliminations_closed(final(self).removed_clauses_stack@, clauses_formula(final(old_clauses)@)),
            clauses_in_range(final(old_clauses)@, n as nat),
            stack_wf(final(self).removed_clauses_stack@, n as nat),
            covered(original, clauses_formula(final(old_clauses)@), final(self).removed_clauses_stack@),
            final(self).cnf_result == old(self).cnf_result,
            r ==> final(old_clauses)@.len() < old(old_clauses)@.len(),
            !r ==> final(old_clauses)@ == old(old_clauses)@,
            r == elimination_pays(clauses_formula(old(old_clauses)@), variable_number),
            tautology_free(clauses_formula(old(old_clauses)@)) ==> tautology_free(clauses_formula(final(old_clauses)@)),
            forall|val: Seq<bool>| tautology_free(clauses_formula(old(old_clauses)@))
                && #[trigger] formula_holds(clauses_formula(old(old_clauses)@), val)
                ==> formula_holds(clauses_formula(final(old_clauses)@), val),
    {
        let ghost f = clauses_formula(old_clauses@);
        let ghost st = self.removed_clauses_stack@;
        let pos_var = CNFVar { id: variable_number, sign: true };
        let neg_var = CNFVar { id: variable_number, sign: false };
        proof {
            // the current clauses are free of every eliminated variable
            assert forall|j: int, k: int| 0 <= j < f.len() && 0 <= k < st.len() implies free_of(#[trigger] f[j], (#[trigger] st[k]).0) by {
                assert(entry_closed(st, f, k));
                assert(f.contains(f[j]));
                assert(in_later(st, f, k, f[j]));
            }
        }
        let mut pos_occ: Vec<CNFClause> = Vec::new();
        let mut neg_occ: Vec<CNFClause> = Vec::new();
        let mut no_occ: Vec<CNFClause> = Vec::new();
        let mut m: usize = 0;
        while m < old_clauses.len()
            invariant
                f == clauses_formula(old_clauses@),
                m <= old_clauses@.len(),
                pos_occ@.len() + neg_occ@.len() + no_occ@.len() == m,
                clauses_in_range(old_clauses@, n as nat),
                clauses_in_range(pos_occ@, n as nat),
                clauses_in_range(neg_occ@, n as nat),
                clauses_in_range(no_occ@, n as nat),
                forall|j: int| 0 <= j < pos_occ@.len() ==> (#[trigger] pos_occ@[j]).vars@.len() > 0,
                forall|j: int| 0 <= j < neg_occ@.len() ==> (#[trigger] neg_occ@[j]).vars@.len() > 0,
                forall|j: int| 0 <= j < m ==> clauses_formula(pos_occ@).contains(#[trigger] f[j])
                    || clauses_formula(neg_occ@).contains(f[j]) || clauses_formula(no_occ@).contains(f[j]),
                forall|j: int| 0 <= j < pos_occ@.len() ==> (#[trigger] pos_occ@[j]).vars@.contains(pos_var)
                    && f.contains(pos_occ@[j].vars@),
                forall|j: int| 0 <= j < neg_occ@.len() ==> !(#[trigger] neg_occ@[j]).vars@.contains(pos_var)
                    && f.contains(neg_occ@[j].vars@) && neg_occ@[j].vars@.contains(neg_var),
                forall|j: int| 0 <= j < no_occ@.len() ==> f.contains((#[trigger] no_occ@[j]).vars@)
                    && !no_occ@[j].vars@.contains(pos_var) && !no_occ@[j].vars@.contains(neg_var),
                clauses_formula(pos_occ@) == f.take(m as int).filter(has_pos(variable_number)),
                clauses_formula(neg_occ@) == f.take(m as int).filter(has_only_neg(variable_number)),
                pos_var == (CNFVar { id: variable_number, sign: true }),
                neg_var == (CNFVar { id: variable_number, sign: false }),
            decreases old_clauses@.len() - m,
        {
            let clause = &old_clauses[m];
            let ghost (p0, n0, o0) = (pos_occ@, neg_occ@, no_occ@);
            assert(f[m as int] == clause.vars@);
            proof {
                lemma_filter_take_step(f, m as int, has_pos(variable_number));
                lemma_filter_take_step(f, m as int, has_only_neg(variable_number));
            }
            if clause.contains(&pos_var) {
                pos_occ.push(clause.duplicate());
                assert(clauses_formula(pos_occ@) =~= clauses_formula(p0).push(clause.vars@));
                assert(clauses_formula(pos_occ@)[p0.len() as int] == f[m as int]);
            } else if clause.contains(&neg_var) {
                neg_occ.push(clause.duplicate());
                assert(clauses_formula(neg_occ@) =~= clauses_formula(n0).push(clause.vars@));
                assert(clauses_formula(neg_occ@)[n0.len() as int] == f[m as int]);
            } else {
                no_occ.push(clause.duplicate());
                assert(clauses_formula(no_occ@) =~= clauses_formula(o0).push(clause.vars@));
                assert(clauses_formula(no_occ@)[o0.len() as int] == f[m as int]);
            }
            proof {
                assert(f.contains(f[m as int]));
                assert forall|j: int| 0 <= j < pos_occ@.len() implies (#[trigger] pos_occ@[j]).vars@.contains(pos_var)
                    && f.contains(pos_occ@[j].vars@) by {
                    if j < p0.len() { assert(pos_occ@[j] == p0[j]); }
                }
                assert forall|j: int| 0 <= j < neg_occ@.len() implies !(#[trigger] neg_occ@[j]).vars@.contains(pos_var)
                    && f.contains(neg_occ@[j].vars@) && neg_occ@[j].vars@.contains(neg_var) by {
                    if j < n0.len() { assert(neg_occ@[j] == n0[j]); }
                }
                assert forall|j: int| 0 <= j < no_occ@.len() implies f.contains((#[trigger] no_occ@[j]).vars@)
                    && !no_occ@[j].vars@.contains(pos_var) && !no_occ@[j].vars@.contains(neg_var) by {
                    if j < o0.len() { assert(no_occ@[j] == o0[j]); }
                }
                assert forall|j: int| 0 <= j < m + 1 implies clauses_formula(pos_occ@).contains(#[trigger] f[j])
                    || clauses_formula(neg_occ@).contains(f[j]) || clauses_formula(no_occ@).contains(f[j]) by {
                    if j < m {
                        if clauses_formula(p0).contains(f[j]) {
                            let w = choose|w: int| 0 <= w < clauses_formula(p0).len() && clauses_formula(p0)[w] == f[j];
                            assert(clauses_formula(pos_occ@)[w] == f[j]);
                        } else if clauses_formula(n0).contains(f[j]) {
                            let w = choose|w: int| 0 <= w < clauses_formula(n0).len() && clauses_formula(n0)[w] == f[j];
                            assert(clauses_formula(neg_occ@)[w] == f[j]);
                        } else {
                            let w = choose|w: int| 0 <= w < clauses_formula(o0).len() && clauses_formula(o0)[w] == f[j];
                            assert(clauses_formula(no_occ@)[w] == f[j]);
                        }
                    }
                }
            }
            m += 1;
        }
        let ghost poss = clauses_formula(pos_occ@);
        let ghost negs = clauses_formula(neg_occ@);
        proof {
            assert(f.take(m as int) =~= f);
        }
        let mut new_combined: Vec<CNFClause> = Vec::new();
        if pos_occ.len() > 0 && neg_occ.len() > 0 {
            let mut p: usize = 0;
            while p < pos_occ.len()
                invariant
                    p <= pos_occ@.len(),
                    clauses_in_range(pos_occ@, n as nat),
                    clauses_in_range(neg_occ@, n as nat),
                    clauses_in_range(new_combined@, n as nat),
                    forall|j: int| 0 <= j < pos_occ@.len() ==> (#[trigger] pos_occ@[j]).vars@.contains(pos_var),
                    forall|j: int| 0 <= j < neg_occ@.len() ==> !(#[trigger] neg_occ@[j]).vars@.contains(pos_var),
                    pos_var == (CNFVar { id: variable_number, sign: true }),
                    none_tautological(new_combined@),
                    forall|val: Seq<bool>| #[trigger] sides_hold(pos_occ@, neg_occ@, val) ==> all_hold(new_combined@, val),
                    self.removed_clauses_stack@ == st,
                    forall|j: int, k: int| 0 <= j < pos_occ@.len() && 0 <= k < st.len()
                        ==> free_of((#[trigger] pos_occ@[j]).vars@, (#[trigger] st[k]).0),
                    forall|j: int, k: int| 0 <= j < neg_occ@.len() && 0 <= k < st.len()
                        ==> free_of((#[trigger] neg_occ@[j]).vars@, (#[trigger] st[k]).0),
                    forall|m: int, k: int| 0 <= m < new_combined@.len() && 0 <= k < st.len()
                        ==> free_of((#[trigger] new_combined@[m]).vars@, (#[trigger] st[k]).0),
                    forall|m: int| 0 <= m < new_combined@.len() ==> free_of((#[trigger] new_combined@[m]).vars@, variable_number),
                    forall|a: int, b: int| #![trigger pos_occ@[a], neg_occ@[b]] 0 <= a < p && 0 <= b < neg_occ@.len()
                        && !tautology(resolvent(pos_occ@[a].vars@, neg_occ@[b].vars@, variable_number))
                        ==> exists|m: int| 0 <= m < new_combined@.len()
                            && same_lits(#[trigger] new_combined@[m].vars@, resolvent(pos_occ@[a].vars@, neg_occ@[b].vars@, variable_number)),
                    poss == clauses_formula(pos_occ@),
                    negs == clauses_formula(neg_occ@),
                    new_combined@.len() == pairs_count(poss.take(p as int), negs, variable_number),
                decreases pos_occ@.len() - p,
            {
                let mut q: usize = 0;
                proof {
                    assert(negs.take(0) =~= Seq::<Seq<CNFVar>>::empty());
                }
                while q < neg_occ.len()
                    invariant
                        p < pos_occ@.len(),
                        q <= neg_occ@.len(),
                        clauses_in_range(pos_occ@, n as nat),
                        clauses_in_range(neg_occ@, n as nat),
                        clauses_in_range(new_combined@, n as nat),
                        forall|j: int| 0 <= j < pos_occ@.len() ==> (#[trigger] pos_occ@[j]).vars@.contains(pos_var),
                        forall|j: int| 0 <= j < neg_occ@.len() ==> !(#[trigger] neg_occ@[j]).vars@.contains(pos_var),
                        pos_var == (CNFVar { id: variable_number, sign: true }),
                        none_tautological(new_combined@),
                        forall|val: Seq<bool>| #[trigger] sides_hold(pos_occ@, neg_occ@, val) ==> all_hold(new_combined@, val),
                        self.removed_clauses_stack@ == st,
                        forall|j: int, k: int| 0 <= j < pos_occ@.len() && 0 <= k < st.len()
                            ==> free_of((#[trigger] pos_occ@[j]).vars@, (#[trigger] st[k]).0),
                        forall|j: int, k: int| 0 <= j < neg_occ@.len() && 0 <= k < st.len()
                            ==> free_of((#[trigger] neg_occ@[j]).vars@, (#[trigger] st[k]).0),
                        forall|m: int, k: int| 0 <= m < new_combined@.len() && 0 <= k < st.len()
                            ==> free_of((#[trigger] new_combined@[m]).vars@, (#[trigger] st[k]).0),
                        forall|m: int| 0 <= m < new_combined@.len() ==> free_of((#[trigger] new_combined@[m]).vars@, variable_number),
                        forall|a: int, b: int| #![trigger pos_occ@[a], neg_occ@[b]] 0 <= a < pos_occ@.len() && 0 <= b < neg_occ@.len()
                            && (a < p || (a == p && b < q))
                            && !tautology(resolvent(pos_occ@[a].vars@, neg_occ@[b].vars@, variable_number))
                            ==> exists|m: int| 0 <= m < new_combined@.len()
                                && same_lits(#[trigger] new_combined@[m].vars@, resolvent(pos_occ@[a].vars@, neg_occ@[b].vars@, variable_number)),
                        poss == clauses_formula(pos_occ@),
                        negs == clauses_formula(neg_occ@),
                        new_combined@.len() == pairs_count(poss.take(p as int), negs, variable_number)
                            + row_count(poss[p as int], negs.take(q as int), variable_number),
                    decreases neg_occ@.len() - q,
                {
                    proof {
                        assert(negs.take(q + 1).drop_last() =~= negs.take(q as int));
                        assert(negs.take(q + 1).last() == neg_occ@[q as int].vars@);
                        assert(poss[p as int] == pos_occ@[p as int].vars@);
                    }
                    let resolution_clause = resolution(&pos_occ[p], &neg_occ[q], variable_number);
                    if !is_tautology(&resolution_clause) {
                        proof {
                            assert(crate::cnf::clause_in_range(pos_occ@[p as int].vars@, n as nat));
                            assert(crate::cnf::clause_in_range(neg_occ@[q as int].vars@, n as nat));
                            assert forall|i: int| 0 <= i < resolution_clause.vars@.len() implies
                                (#[trigger] resolution_clause.vars@[i]).in_range(n as nat) by {
                                if pos_occ@[p as int].vars@.contains(resolution_clause.vars@[i]) {
                                    let w = choose|w: int| 0 <= w < pos_occ@[p as int].vars@.len()
                                        && pos_occ@[p as int].vars@[w] == resolution_clause.vars@[i];
                                } else {
                                    let w = choose|w: int| 0 <= w < neg_occ@[q as int].vars@.len()
                                        && neg_occ@[q as int].vars@[w] == resolution_clause.vars@[i];
                                }
                            }
                        }
                        let ghost before = new_combined@;
                        let ghost res = resolution_clause;
                        new_combined.push(resolution_clause);
                        let ghost pushed = new_combined@;
                        NiVER::remove_dupl_variables(&mut new_combined);
                        proof {
                            let x = variable_number;
                            let rv = resolvent(pos_occ@[p as int].vars@, neg_occ@[q as int].vars@, x);
                            assert(res.vars@ == rv);
                            lemma_resolvent_free_of(pos_occ@[p as int].vars@, neg_occ@[q as int].vars@, x);
                            assert forall|m: int| 0 <= m < new_combined@.len() implies same_lits(#[trigger] new_combined@[m].vars@, pushed[m].vars@) by {}
                            assert forall|m: int, k: int| 0 <= m < new_combined@.len() && 0 <= k < st.len()
                                implies free_of((#[trigger] new_combined@[m]).vars@, (#[trigger] st[k]).0) by {
                                assert(same_lits(new_combined@[m].vars@, pushed[m].vars@));
                                if m < before.len() {
                                    assert(pushed[m] == before[m]);
                                } else {
                                    assert(pushed[m] == res);
                                    assert(free_of(pos_occ@[p as int].vars@, st[k].0));
                                    assert(free_of(neg_occ@[q as int].vars@, st[k].0));
                                    assert(free_of(rv, st[k].0));
                                }
                                lemma_same_lits_free_of(new_combined@[m].vars@, pushed[m].vars@, st[k].0);
                            }
                            assert forall|m: int| 0 <= m < new_combined@.len() implies free_of((#[trigger] new_combined@[m]).vars@, x) by {
                                if m < before.len() {
                                    assert(pushed[m] == before[m]);
                                } else {
                                    assert(pushed[m] == res);
                                }
                                lemma_same_lits_free_of(new_combined@[m].vars@, pushed[m].vars@, x);
                            }
                            assert forall|a: int, b: int| #![trigger pos_occ@[a], neg_occ@[b]] 0 <= a < pos_occ@.len() && 0 <= b < neg_occ@.len()
                                && (a < p || (a == p && b < q + 1))
                                && !tautology(resolvent(pos_occ@[a].vars@, neg_occ@[b].vars@, x))
                                implies exists|m: int| 0 <= m < new_combined@.len()
                                    && same_lits(#[trigger] new_combined@[m].vars@, resolvent(pos_occ@[a].vars@, neg_occ@[b].vars@, x)) by {
                                if a == p && b == q {
                                    let m = (new_combined@.len() - 1) as int;
                                    assert(pushed[m] == res);
                                    assert(same_lits(new_combined@[m].vars@, rv));
                                } else {
                                    let m = choose|m: int| 0 <= m < before.len()
                                        && same_lits(#[trigger] before[m].vars@, resolvent(pos_occ@[a].vars@, neg_occ@[b].vars@, x));
                                    assert(pushed[m] == before[m]);
                                    assert(same_lits(new_combined@[m].vars@, resolvent(pos_occ@[a].vars@, neg_occ@[b].vars@, x)));
                                }
                            }
                            assert forall|k: int| 0 <= k < new_combined@.len() implies !tautology(#[trigger] new_combined@[k].vars@) by {
                                lemma_same_literals(new_combined@[k].vars@, pushed[k].vars@, Seq::empty());
                                if k < before.len() { assert(pushed[k] == before[k]); } else { assert(pushed[k] == res); }
                            }
                            assert forall|val: Seq<bool>| #[trigger] sides_hold(pos_occ@, neg_occ@, val) implies all_hold(new_combined@, val) by {
                                assert forall|k: int| 0 <= k < new_combined@.len() implies clause_holds(#[trigger] new_combined@[k].vars@, val) by {
                                    lemma_same_literals(new_combined@[k].vars@, pushed[k].vars@, val);
                                    if k < before.len() {
                                        assert(pushed[k] == before[k]);
                                        assert(all_hold(before, val));
                                    } else {
                                        assert(pushed[k] == res);
                                        assert(clause_holds(pos_occ@[p as int].vars@, val));
                                        assert(clause_holds(neg_occ@[q as int].vars@, val));
                                        assert(!tautology(pos_occ@[p as int].vars@));
                                        lemma_resolvent_holds(pos_occ@[p as int].vars@, neg_occ@[q as int].vars@, variable_number, val);
                                    }
                                }
                            }
                        }
                    }
                    q += 1;
                }
                proof {
                    assert(negs.take(q as int) =~= negs);
                    assert(poss.take(p + 1).drop_last() =~= poss.take(p as int));
                    assert(poss.take(p + 1).last() == poss[p as int]);
                }
                p += 1;
            }
            proof {
                assert(poss.take(p as int) =~= poss);
            }
        } else {
            proof {
                lemma_pairs_count_empty(poss, negs, variable_number);
            }
        }
        proof {
            assert(none_tautological(new_combined@));
            assert(forall|val: Seq<bool>| #[trigger] sides_hold(pos_occ@, neg_occ@, val) ==> all_hold(new_combined@, val));
            assert(forall|m: int, k: int| 0 <= m < new_combined@.len() && 0 <= k < st.len()
                ==> free_of((#[trigger] new_combined@[m]).vars@, (#[trigger] st[k]).0));
            assert(forall|m: int| 0 <= m < new_combined@.len() ==> free_of((#[trigger] new_combined@[m]).vars@, variable_number));
            assert(forall|a: int, b: int| #![trigger pos_occ@[a], neg_occ@[b]] 0 <= a < pos_occ@.len() && 0 <= b < neg_occ@.len()
                && !tautology(resolvent(pos_occ@[a].vars@, neg_occ@[b].vars@, variable_number))
                ==> exists|m: int| 0 <= m < new_combined@.len()
                    && same_lits(#[trigger] new_combined@[m].vars@, resolvent(pos_occ@[a].vars@, neg_occ@[b].vars@, variable_number)));
        }
        if new_combined.len() != 0 && new_combined.len() < pos_occ.len() + neg_occ.len() {
            let ghost (p0, n0, o0) = (pos_occ@, neg_occ@, no_occ@);
            let ghost old_stack = self.removed_clauses_stack@;
            pos_occ.append(&mut neg_occ);
            let ghost removed = pos_occ@;
            self.removed_clauses_stack.push((variable_number, pos_occ));
            let ghost combined = new_combined@;
            new_combined.append(&mut no_occ);
            *old_clauses = new_combined;
            proof {
                let stack = self.removed_clauses_stack@;
                let last = stack.len() - 1;
                assert(stack[last].1@ == removed);
                assert(removed == p0 + n0);
                assert(old_clauses@ == combined + o0);
                assert forall|j: int| 0 <= j < removed.len() implies (#[trigger] removed[j]).vars@.len() > 0 by {
                    if j < p0.len() { assert(removed[j] == p0[j]); } else { assert(removed[j] == n0[j - p0.len()]); }
                }
                assert(clauses_in_range(removed, n as nat)) by {
                    assert forall|j: int| 0 <= j < removed.len() implies crate::cnf::clause_in_range(#[trigger] removed[j].vars@, n as nat) by {
                        if j < p0.len() { assert(removed[j] == p0[j]); } else { assert(removed[j] == n0[j - p0.len()]); }
                    }
                }
                assert(clauses_in_range(old_clauses@, n as nat)) by {
                    assert forall|j: int| 0 <= j < old_clauses@.len() implies crate::cnf::clause_in_range(#[trigger] old_clauses@[j].vars@, n as nat) by {
                        if j < combined.len() { assert(old_clauses@[j] == combined[j]); } else { assert(old_clauses@[j] == o0[j - combined.len()]); }
                    }
                }
                assert(stack_wf(stack, n as nat)) by {
                    assert forall|k: int| 0 <= k < stack.len() implies {
                        &&& 1 <= (#[trigger] stack[k]).0 <= n
                        &&& clauses_in_range(stack[k].1@, n as nat)
                        &&& forall|j: int| 0 <= j < stack[k].1@.len() ==> (#[trigger] stack[k].1@[j]).vars@.len() > 0
                    } by {
                        if k < last { assert(stack[k] == old_stack[k]); }
                    }
                }
                assert forall|c: Seq<CNFVar>| #[trigger] original.contains(c) implies clauses_formula(old_clauses@).contains(c)
                    || exists|k: int| 0 <= k < stack.len() && #[trigger] stack_formula(stack, k).contains(c) by {
                    if f.contains(c) {
                        let j = choose|j: int| 0 <= j < f.len() && f[j] == c;
                        if clauses_formula(p0).contains(f[j]) {
                            let w = choose|w: int| 0 <= w < clauses_formula(p0).len() && clauses_formula(p0)[w] == f[j];
                            assert(stack_formula(stack, last)[w] == c);
                            assert(stack_formula(stack, last).contains(c));
                        } else if clauses_formula(n0).contains(f[j]) {
                            let w = choose|w: int| 0 <= w < clauses_formula(n0).len() && clauses_formula(n0)[w] == f[j];
                            assert(stack_formula(stack, last)[p0.len() + w] == c);
                            assert(stack_formula(stack, last).contains(c));
                        } else {
                            let w = choose|w: int| 0 <= w < clauses_formula(o0).len() && clauses_formula(o0)[w] == f[j];
                            assert(clauses_formula(old_clauses@)[combined.len() + w] == c);
                        }
                    } else {
                        let k = choose|k: int| 0 <= k < old_stack.len() && #[trigger] stack_formula(old_stack, k).contains(c);
                        assert(stack[k] == old_stack[k]);
                        assert(stack_formula(stack, k).contains(c));
                    }
                }
                let g = clauses_formula(old_clauses@);
                let x = variable_number;
                let top = st.len() as int;
                let fc = clauses_formula(combined);
                let fo = clauses_formula(o0);
                let er = stack_formula(stack, top);
                assert(g =~= fc + fo);
                assert(er =~= clauses_formula(p0) + clauses_formula(n0));
                assert forall|k: int| 0 <= k < st.len() implies stack_formula(stack, k) == stack_formula(st, k) by {
                    assert(stack[k] == st[k]);
                }
                // clauses of the old formula are among the eliminated ones or the new formula
                assert forall|c: Seq<CNFVar>| #[trigger] f.contains(c) implies er.contains(c) || g.contains(c) by {
                    let j = choose|j: int| 0 <= j < f.len() && f[j] == c;
                    if clauses_formula(p0).contains(f[j]) {
                        let w = choose|w: int| 0 <= w < clauses_formula(p0).len() && clauses_formula(p0)[w] == f[j];
                        assert(er[w] == c);
                    } else if clauses_formula(n0).contains(f[j]) {
                        let w = choose|w: int| 0 <= w < clauses_formula(n0).len() && clauses_formula(n0)[w] == f[j];
                        assert(er[p0.len() + w] == c);
                    } else {
                        let w = choose|w: int| 0 <= w < fo.len() && fo[w] == f[j];
                        assert(g[fc.len() + w] == c);
                    }
                }
                // eliminated clauses came from the old formula
                assert forall|c: Seq<CNFVar>| #[trigger] er.contains(c) implies f.contains(c) by {
                    let w = choose|w: int| 0 <= w < er.len() && er[w] == c;
                    if w < p0.len() {
                        assert(er[w] == p0[w].vars@);
                    } else {
                        assert(er[w] == n0[w - p0.len()].vars@);
                    }
                }
                assert forall|k: int| 0 <= k < stack.len() implies #[trigger] entry_closed(stack, g, k) by {
                    if k < top {
                        assert(entry_closed(st, f, k));
                        let y = st[k].0;
                        let e = stack_formula(st, k);
                        assert(stack[k].0 == y);
                        assert(stack_formula(stack, k) == e);
                        // what was later stays later
                        assert forall|c: Seq<CNFVar>| #[trigger] in_later(st, f, k, c) implies in_later(stack, g, k, c) by {
                            if f.contains(c) {
                                if er.contains(c) {
                                    assert(stack_formula(stack, top).contains(c));
                                }
                            } else {
                                let j = choose|j: int| k < j < st.len() && #[trigger] stack_formula(st, j).contains(c);
                                assert(stack_formula(stack, j).contains(c));
                            }
                        }
                        // what is later now was later before, or comes from it
                        assert forall|c: Seq<CNFVar>| #[trigger] in_later(stack, g, k, c) implies free_of(c, y) by {
                            if g.contains(c) {
                                let w = choose|w: int| 0 <= w < g.len() && g[w] == c;
                                if w < fc.len() {
                                    assert(g[w] == combined[w].vars@);
                                } else {
                                    assert(g[w] == o0[w - fc.len()].vars@);
                                    assert(f.contains(c));
                                    assert(in_later(st, f, k, c));
                                }
                            } else {
                                let j = choose|j: int| k < j < stack.len() && #[trigger] stack_formula(stack, j).contains(c);
                                if j == top {
                                    assert(f.contains(c));
                                    assert(in_later(st, f, k, c));
                                } else {
                                    assert(stack_formula(st, j).contains(c));
                                    assert(in_later(st, f, k, c));
                                }
                            }
                        }
                        assert forall|a: int, b: int| #![trigger e[a], e[b]] 0 <= a < e.len() && 0 <= b < e.len()
                            && e[a].contains(pos_lit(y)) && !e[b].contains(pos_lit(y))
                            && !tautology(resolvent(e[a], e[b], y))
                            implies exists|c: Seq<CNFVar>| #[trigger] in_later(stack, g, k, c) && same_lits(c, resolvent(e[a], e[b], y)) by {
                            let c = choose|c: Seq<CNFVar>| #[trigger] in_later(st, f, k, c) && same_lits(c, resolvent(e[a], e[b], y));
                            assert(in_later(stack, g, k, c));
                        }
                    } else {
                        assert(stack[top].0 == x);
                        assert forall|c: Seq<CNFVar>| #[trigger] in_later(stack, g, top, c) implies free_of(c, x) by {
                            assert(g.contains(c));
                            let w = choose|w: int| 0 <= w < g.len() && g[w] == c;
                            if w < fc.len() {
                                assert(g[w] == combined[w].vars@);
                            } else {
                                let oc = o0[w - fc.len()].vars@;
                                assert(g[w] == oc);
                                assert forall|i: int| 0 <= i < oc.len() implies (#[trigger] oc[i]).id != x by {
                                    if oc[i].id == x {
                                        if oc[i].sign { assert(oc[i] == pos_var); } else { assert(oc[i] == neg_var); }
                                        assert(oc.contains(oc[i]));
                                    }
                                }
                            }
                        }
                        assert forall|a: int| 0 <= a < er.len() implies (#[trigger] er[a]).contains(pos_lit(x)) || er[a].contains(neg_lit(x)) by {
                            if a < p0.len() { assert(er[a] == p0[a].vars@); } else { assert(er[a] == n0[a - p0.len()].vars@); }
                        }
                        assert forall|a: int, b: int| #![trigger er[a], er[b]] 0 <= a < er.len() && 0 <= b < er.len()
                            && er[a].contains(pos_lit(x)) && !er[b].contains(pos_lit(x))
                            && !tautology(resolvent(er[a], er[b], x))
                            implies exists|c: Seq<CNFVar>| #[trigger] in_later(stack, g, top, c) && same_lits(c, resolvent(er[a], er[b], x)) by {
                            if b < p0.len() {
                                assert(er[b] == p0[b].vars@);
                            }
                            if a >= p0.len() {
                                assert(er[a] == n0[a - p0.len()].vars@);
                            }
                            assert(er[a] == p0[a].vars@);
                            assert(er[b] == n0[b - p0.len()].vars@);
                            assert(p0[a] == pos_occ@[a]);
                            let m = choose|m: int| 0 <= m < combined.len()
                                && same_lits(#[trigger] combined[m].vars@, resolvent(p0[a].vars@, n0[b - p0.len()].vars@, x));
                            assert(g[m] == combined[m].vars@);
                            assert(g.contains(g[m]));
                            assert(in_later(stack, g, top, g[m]));
                        }
                    }
                }
                if tautology_free(f) {
                    assert forall|j: int| 0 <= j < g.len() implies !tautology(#[trigger] g[j]) by {
                        if j < combined.len() {
                            assert(old_clauses@[j] == combined[j]);
                        } else {
                            assert(old_clauses@[j] == o0[j - combined.len()]);
                            assert(f.contains(o0[j - combined.len()].vars@));
                            let k = choose|k: int| 0 <= k < f.len() && f[k] == o0[j - combined.len()].vars@;
                        }
                    }
                }
                assert forall|val: Seq<bool>| tautology_free(f) && #[trigger] formula_holds(f, val)
                    implies formula_holds(g, val) by {
                    assert(sides_hold(p0, n0, val)) by {
                        assert forall|k: int| 0 <= k < p0.len() implies !tautology(#[trigger] p0[k].vars@)
                            && clause_holds(p0[k].vars@, val) by {
                            let w = choose|w: int| 0 <= w < f.len() && f[w] == p0[k].vars@;
                        }
                        assert forall|k: int| 0 <= k < n0.len() implies clause_holds(#[trigger] n0[k].vars@, val) by {
                            let w = choose|w: int| 0 <= w < f.len() && f[w] == n0[k].vars@;
                        }
                    }
                    assert(all_hold(combined, val));
                    assert forall|j: int| 0 <= j < g.len() implies clause_holds(#[trigger] g[j], val) by {
                        if j < combined.len() {
                            assert(old_clauses@[j] == combined[j]);
                        } else {
                            assert(old_clauses@[j] == o0[j - combined.len()]);
                            let w = choose|w: int| 0 <= w < f.len() && f[w] == o0[j - combined.len()].vars@;
                        }
                    }
                }
            }
            true
        } else {
            false
        }
    }
}

/// The eliminations on the stack can be undone, the last first: a valuation
/// of `n` variables that makes the current clauses true extends to one that
/// also makes the clauses of every eliminated variable true.
pub proof fn lemma_unwind_eliminations(stack: Seq<(usize, Vec<CNFClause>)>, cur: Seq<Seq<CNFVar>>, n: nat, val: Seq<bool>)
    requires
        eliminations_closed(stack, cur),
        stack_wf(stack, n),
        val.len() == n,
        all_true(cur, val),
    ensures
        exists|w: Seq<bool>| w.len() == n && all_true(cur, w)
            && forall|k: int| 0 <= k < stack.len() ==> #[trigger] all_true(stack_formula(stack, k), w),
    decreases stack.len(),
{
    if stack.len() == 0 {
        assert(val.len() == n && all_true(cur, val));
    } else {
        let top = stack.len() - 1;
        let x = stack[top].0;
        let ef = stack_formula(stack, top);
        assert(entry_closed(stack, cur, top));
        assert(1 <= x <= n && clauses_in_range(stack[top].1@, n));
        assert forall|j: int| 0 <= j < cur.len() implies free_of(#[trigger] cur[j], x) by {
            assert(cur.contains(cur[j]));
            assert(in_later(stack, cur, top, cur[j]));
        }
        assert forall|a: int| 0 <= a < ef.len() implies crate::cnf::clause_in_range(#[trigger] ef[a], val.len()) by {
            assert(ef[a] == stack[top].1@[a].vars@);
        }
        assert(resolvents_kept(ef, x, cur)) by {
            assert forall|a: int, b: int| #![trigger ef[a], ef[b]] 0 <= a < ef.len() && 0 <= b < ef.len()
                && ef[a].contains(pos_lit(x)) && !ef[b].contains(pos_lit(x))
                && !tautology(resolvent(ef[a], ef[b], x))
                implies exists|c: Seq<CNFVar>| #[trigger] cur.contains(c) && same_lits(c, resolvent(ef[a], ef[b], x)) by {
                let c = choose|c: Seq<CNFVar>| #[trigger] in_later(stack, cur, top, c)
                    && same_lits(c, resolvent(ef[a], ef[b], x));
                assert(cur.contains(c));
            }
        }
        lemma_extend_eliminated(cur, ef, x, val);
        let val2 = if all_true(cur + ef, val.update(x - 1, true)) { val.update(x - 1, true) } else { val.update(x - 1, false) };
        let stack2 = stack.drop_last();
        let cur2 = cur + ef;
        assert forall|k: int, c: Seq<CNFVar>| 0 <= k < stack2.len()
            implies (#[trigger] in_later(stack2, cur2, k, c) <==> in_later(stack, cur, k, c)) by {
            if in_later(stack2, cur2, k, c) {
                if cur2.contains(c) {
                    let w = choose|w: int| 0 <= w < cur2.len() && cur2[w] == c;
                    if w < cur.len() {
                        assert(cur[w] == c);
                    } else {
                        assert(ef[w - cur.len()] == c);
                        assert(stack_formula(stack, top).contains(c));
                    }
                } else {
                    let j = choose|j: int| k < j < stack2.len() && #[trigger] stack_formula(stack2, j).contains(c);
                    assert(stack_formula(stack, j) == stack_formula(stack2, j));
                }
            }
            if in_later(stack, cur, k, c) {
                if cur.contains(c) {
                    let w = choose|w: int| 0 <= w < cur.len() && cur[w] == c;
                    assert(cur2[w] == c);
                } else {
                    let j = choose|j: int| k < j < stack.len() && #[trigger] stack_formula(stack, j).contains(c);
                    if j == top {
                        let w = choose|w: int| 0 <= w < ef.len() && ef[w] == c;
                        assert(cur2[cur.len() + w] == c);
                    } else {
                        assert(stack_formula(stack, j) == stack_formula(stack2, j));
                    }
                }
            }
        }
        assert(eliminations_closed(stack2, cur2)) by {
            assert forall|k: int| 0 <= k < stack2.len() implies #[trigger] entry_closed(stack2, cur2, k) by {
                assert(entry_closed(stack, cur, k));
                assert(stack2[k] == stack[k]);
                assert(stack_formula(stack, k) == stack_formula(stack2, k));
                let y = stack2[k].0;
                let e = stack_formula(stack2, k);
                assert forall|c: Seq<CNFVar>| #[trigger] in_later(stack2, cur2, k, c) implies free_of(c, y) by {
                    assert(in_later(stack, cur, k, c));
                }
                assert forall|a: int, b: int| #![trigger e[a], e[b]] 0 <= a < e.len() && 0 <= b < e.len()
                    && e[a].contains(pos_lit(y)) && !e[b].contains(pos_lit(y))
                    && !tautology(resolvent(e[a], e[b], y))
                    implies exists|c: Seq<CNFVar>| #[trigger] in_later(stack2, cur2, k, c) && same_lits(c, resolvent(e[a], e[b], y)) by {
                    let c = choose|c: Seq<CNFVar>| #[trigger] in_later(stack, cur, k, c) && same_lits(c, resolvent(e[a], e[b], y));
                    assert(in_later(stack2, cur2, k, c));
                }
            }
        }
        assert(stack_wf(stack2, n)) by {
            assert forall|k: int| 0 <= k < stack2.len() implies {
                &&& 1 <= (#[trigger] stack2[k]).0 <= n
                &&& clauses_in_range(stack2[k].1@, n)
                &&& forall|j: int| 0 <= j < stack2[k].1@.len() ==> (#[trigger] stack2[k].1@[j]).vars@.len() > 0
            } by {
                assert(stack2[k] == stack[k]);
            }
        }
        lemma_unwind_eliminations(stack2, cur2, n, val2);
        let w = choose|w: Seq<bool>| w.len() == n && all_true(cur2, w)
            && forall|k: int| 0 <= k < stack2.len() ==> #[trigger] all_true(stack_formula(stack2, k), w);
        assert(all_true(cur, w)) by {
            assert forall|j: int| 0 <= j < cur.len() implies clause_true_in(#[trigger] cur[j], w) by {
                assert(cur2[j] == cur[j]);
            }
        }
        assert forall|k: int| 0 <= k < stack.len() implies #[trigger] all_true(stack_formula(stack, k), w) by {
            if k == top {
                assert forall|j: int| 0 <= j < ef.len() implies clause_true_in(#[trigger] ef[j], w) by {
                    assert(cur2[cur.len() + j] == ef[j]);
                }
            } else {
                assert(stack_formula(stack, k) == stack_formula(stack2, k));
                assert(all_true(stack_formula(stack2, k), w));
            }
        }
    }
}

impl Preprocessor for NiVER {
    /// Tries to eliminate the variables `1..=num_variables` in turn, and
    /// repeats while one was eliminated. Afterwards every clause of the
    /// formula is among the result or among the eliminated clauses; when no
    /// clause of the formula is a tautology, every valuation that satisfies
    /// the formula satisfies the result.
    fn preprocess(&mut self, cnf: CNF) -> (r: CNF)
        ensures
            old(self).stack_len() == 0 ==> final(self).prepared_for(cnf.formula()),
            forall|x: usize| #[trigger] old(self).eliminated(x) ==> final(self).eliminated(x),
            final(self).result_formula() == r.formula(),
            final(self).result_num_variables() == cnf.num_variables,
            forall|val: Seq<bool>| tautology_free(cnf.formula()) && #[trigger] formula_holds(cnf.formula(), val)
                ==> formula_holds(r.formula(), val),
            r.num_variables == cnf.num_variables,
            r.clauses@.len() <= cnf.clauses@.len(),
            forall|x: usize| 1 <= x <= cnf.num_variables ==> !#[trigger] elimination_pays(r.formula(), x),
            r.satisfiable() ==> cnf.satisfiable(),
            tautology_free(cnf.formula()) && cnf.satisfiable() ==> r.satisfiable(),
    {
        let n = cnf.num_variables;
        let ghost len0 = cnf.clauses@.len();
        let ghost original = cnf.formula();
        let ghost stack0 = self.removed_clauses_stack@;
        let mut old_clauses = cnf.clauses;
        proof {
            assert forall|j: int| 0 <= j < old_clauses@.len() implies crate::cnf::clause_in_range(#[trigger] old_clauses@[j].vars@, n as nat) by {
                assert(original[j] == old_clauses@[j].vars@);
            }
            assert forall|c: Seq<CNFVar>| #[trigger] original.contains(c) implies clauses_formula(old_clauses@).contains(c) by {}
        }
        // eliminations of an earlier run stay below those of this one
        let mut earlier: Vec<(usize, Vec<CNFClause>)> = Vec::new();
        std::mem::swap(&mut earlier, &mut self.removed_clauses_stack);
        let mut change = true;
        assert(clauses_formula(old_clauses@) =~= original);
        while change
            invariant
                n == cnf.num_variables,
                original == cnf.formula(),
                eliminations_closed(self.removed_clauses_stack@, clauses_formula(old_clauses@)),
                tautology_free(original) ==> tautology_free(clauses_formula(old_clauses@)),
                forall|val: Seq<bool>| tautology_free(original) && #[trigger] formula_holds(original, val)
                    ==> formula_holds(clauses_formula(old_clauses@), val),
                clauses_in_range(old_clauses@, n as nat),
                stack_wf(self.removed_clauses_stack@, n as nat),
                covered(original, clauses_formula(old_clauses@), self.removed_clauses_stack@),
                old_clauses@.len() <= len0,
                !change ==> forall|x: usize| 1 <= x <= n ==> !#[trigger] elimination_pays(clauses_formula(old_clauses@), x),
            decreases old_clauses@.len() + if change { 1int } else { 0int },
        {
            change = false;
            let ghost start = old_clauses@.len();
            let ghost start_clauses = old_clauses@;
            let mut k: usize = 0;
            while k < n
                invariant
                    k <= n,
                    original == cnf.formula(),
                    eliminations_closed(self.removed_clauses_stack@, clauses_formula(old_clauses@)),
                    tautology_free(original) ==> tautology_free(clauses_formula(old_clauses@)),
                    forall|val: Seq<bool>| tautology_free(original) && #[trigger] formula_holds(original, val)
                        ==> formula_holds(clauses_formula(old_clauses@), val),
                    clauses_in_range(old_clauses@, n as nat),
                    stack_wf(self.removed_clauses_stack@, n as nat),
                    covered(original, clauses_formula(old_clauses@), self.removed_clauses_stack@),
                    change ==> old_clauses@.len() < start,
                    !change ==> old_clauses@.len() == start,
                    !change ==> old_clauses@ == start_clauses,
                    !change ==> forall|x: usize| 1 <= x <= k ==> !#[trigger] elimination_pays(clauses_formula(old_clauses@), x),
                    n == cnf.num_variables,
                decreases n - k,
            {
                let ghost before = clauses_formula(old_clauses@);
                if self.eliminate(&mut old_clauses, k + 1, n, Ghost(original)) {
                    change = true;
                }
                proof {
                    assert forall|val: Seq<bool>| tautology_free(original) && #[trigger] formula_holds(original, val)
                        implies formula_holds(clauses_formula(old_clauses@), val) by {
                        assert(formula_holds(before, val));
                    }
                }
                k += 1;
            }
        }
        self.cnf_result = CNF { clauses: old_clauses, num_variables: n };
        let r = self.cnf_result.duplicate();
        proof {
            assert forall|j: int| 0 <= j < r.formula().len() implies crate::cnf::clause_in_range(#[trigger] r.formula()[j], n as nat) by {
                assert(r.formula()[j] == self.cnf_result.clauses@[j].vars@);
            }
            let cur = r.formula();
            let stack = self.removed_clauses_stack@;
            if r.satisfiable() {
                let val = choose|val: Seq<bool>| val.len() == n as nat && #[trigger] formula_holds(cur, val);
                assert forall|j: int| 0 <= j < cur.len() implies clause_true_in(#[trigger] cur[j], val) by {
                    assert(clause_holds(cur[j], val));
                    assert(crate::cnf::clause_in_range(cur[j], n as nat));
                    let i = choose|i: int| 0 <= i < cur[j].len() && (#[trigger] cur[j][i]).holds_in(val);
                    assert(cur[j][i].in_range(n as nat));
                }
                lemma_unwind_eliminations(stack, cur, n as nat, val);
                let w = choose|w: Seq<bool>| w.len() == n as nat && all_true(cur, w)
                    && forall|k: int| 0 <= k < stack.len() ==> #[trigger] all_true(stack_formula(stack, k), w);
                assert forall|j: int| 0 <= j < original.len() implies clause_holds(#[trigger] original[j], w) by {
                    let c = original[j];
                    assert(original.contains(c));
                    if cur.contains(c) {
                        let q = choose|q: int| 0 <= q < cur.len() && cur[q] == c;
                        assert(clause_true_in(cur[q], w));
                    } else {
                        let k = choose|k: int| 0 <= k < stack.len() && #[trigger] stack_formula(stack, k).contains(c);
                        assert(all_true(stack_formula(stack, k), w));
                        let q = choose|q: int| 0 <= q < stack_formula(stack, k).len() && stack_formula(stack, k)[q] == c;
                        assert(clause_true_in(stack_formula(stack, k)[q], w));
                    }
                }
                assert(formula_holds(original, w));
            }
            if tautology_free(original) && cnf.satisfiable() {
                let val = choose|val: Seq<bool>| val.len() == n as nat && #[trigger] formula_holds(original, val);
                assert(formula_holds(cur, val));
            }
        }
        let ghost fresh_stack = self.removed_clauses_stack@;
        earlier.append(&mut self.removed_clauses_stack);
        self.removed_clauses_stack = earlier;
        proof {
            if stack0.len() == 0 {
                assert(self.removed_clauses_stack@ =~= fresh_stack);
            }
            assert forall|x: usize| #[trigger] old(self).eliminated(x) implies self.eliminated(x) by {
                let k = choose|k: int| 0 <= k < stack0.len() && #[trigger] stack0[k].0 == x;
                assert(self.removed_clauses_stack@[k] == stack0[k]);
            }
        }
        r
    }

    /// A satisfying valuation is extended to the eliminated variables, the
    /// last eliminated first: the clauses of the variable rejoin the clauses
    /// seen so far, and the variable is set to true, or to false when true
    /// leaves one of those clauses false; when both do, the answer is
    /// unsatisfiable. Other answers stay as they are. A valuation of the
    /// simplified formula, one value per variable, always comes back as a
    /// valuation of the original formula.
    fn restore(&mut self, assignment: SATSolution) -> (r: SATSolution)
        ensures
            forall|original: Seq<Seq<CNFVar>>| #[trigger] old(self).prepared_for(original)
                ==> (assignment matches SATSolution::Satisfiable(v) && v@.len() == old(self).result_num_variables()
                    && formula_holds(old(self).result_formula(), v@))
                ==> (r matches SATSolution::Satisfiable(w) && formula_holds(original, w@)),
            !(assignment is Satisfiable) ==> r == assignment,
            r matches SATSolution::Satisfiable(w) ==> (assignment matches SATSolution::Satisfiable(v)
                && w@.len() == v@.len()
                && forall|i: int| 0 <= i < w@.len() && !old(self).eliminated((i + 1) as usize) ==> #[trigger] w@[i] == v@[i]),
    {
        let ghost stack0 = self.removed_clauses_stack@;
        match assignment {
            SATSolution::Satisfiable(v) => {
                let ghost v0 = v@;
                let ghost self0 = *self;
                let mut assign = v;
                proof {
                    assert forall|original: Seq<Seq<CNFVar>>| #[trigger] self0.prepared_for(original)
                        && v0.len() == self0.cnf_result.num_variables
                        && formula_holds(self0.cnf_result.formula(), v0) implies {
                        &&& forall|j: int| 0 <= j < self.cnf_result.clauses@.len()
                            ==> (#[trigger] self.cnf_result.clauses@[j]).vars@.len() > 0
                        &&& all_true(self.cnf_result.formula(), assign@)
                    } by {
                        let c = self.cnf_result.formula();
                        let n = self.cnf_result.num_variables as nat;
                        assert forall|j: int| 0 <= j < self.cnf_result.clauses@.len()
                            implies (#[trigger] self.cnf_result.clauses@[j]).vars@.len() > 0 by {
                            assert(c[j] == self.cnf_result.clauses@[j].vars@);
                            assert(clause_holds(c[j], v0));
                        }
                        assert forall|j: int| 0 <= j < c.len() implies clause_true_in(#[trigger] c[j], assign@) by {
                            assert(c[j] == self.cnf_result.clauses@[j].vars@);
                            assert(crate::cnf::clause_in_range(self.cnf_result.clauses@[j].vars@, n));
                            assert(clause_holds(c[j], v0));
                            let i = choose|i: int| 0 <= i < c[j].len() && (#[trigger] c[j][i]).holds_in(v0);
                            assert(c[j][i].in_range(n));
                        }
                    }
                }
                loop
                    invariant
                        assign@.len() == v0.len(),
                        self0 == *old(self),
                        stack0 == old(self).removed_clauses_stack@,
                        self.removed_clauses_stack@.len() <= stack0.len(),
                        forall|k: int| 0 <= k < self.removed_clauses_stack@.len()
                            ==> #[trigger] self.removed_clauses_stack@[k] == stack0[k],
                        forall|i: int| 0 <= i < assign@.len() && !old(self).eliminated((i + 1) as usize)
                            ==> #[trigger] assign@[i] == v0[i],
                        assignment matches SATSolution::Satisfiable(w) && w@ == v0,
                        self.cnf_result.num_variables == self0.cnf_result.num_variables,
                        forall|original: Seq<Seq<CNFVar>>| #[trigger] self0.prepared_for(original)
                            && v0.len() == self0.cnf_result.num_variables
                            && formula_holds(self0.cnf_result.formula(), v0) ==> {
                            &&& self.prepared_for(original)
                            &&& forall|j: int| 0 <= j < self.cnf_result.clauses@.len()
                                ==> (#[trigger] self.cnf_result.clauses@[j]).vars@.len() > 0
                            &&& all_true(self.cnf_result.formula(), assign@)
                        },
                    ensures
                        self.removed_clauses_stack@.len() == 0,
                    decreases self.removed_clauses_stack@.len(),
                {
                    let ghost before = *self;
                    let ghost assign0 = assign@;
                    let (elim_variable, elim_clauses) = match self.removed_clauses_stack.pop() {
                        None => { break; },
                        Some(entry) => entry,
                    };
                    let ghost bstack = before.removed_clauses_stack@;
                    let ghost top = bstack.len() - 1;
                    proof {
                        assert(bstack == self.removed_clauses_stack@.push((elim_variable, elim_clauses)));
                        assert(bstack[top] == (elim_variable, elim_clauses));
                        assert(stack0[top] == bstack[top]);
                        assert(old(self).eliminated(elim_variable));
                    }
                    if elim_variable == 0 || elim_variable - 1 >= assign.len() {
                        proof {
                            assert forall|original: Seq<Seq<CNFVar>>| !(#[trigger] self0.prepared_for(original)
                                && v0.len() == self0.cnf_result.num_variables
                                && formula_holds(self0.cnf_result.formula(), v0)) by {
                                if self0.prepared_for(original) && v0.len() == self0.cnf_result.num_variables
                                    && formula_holds(self0.cnf_result.formula(), v0) {
                                    assert(before.prepared_for(original));
                                    assert(stack_wf(bstack, before.cnf_result.num_variables as nat));
                                    assert(1 <= bstack[top].0 <= before.cnf_result.num_variables);
                                }
                            }
                        }
                        return SATSolution::Unknown;
                    }
                    let ghost e_clauses = elim_clauses@;
                    let mut elim = elim_clauses;
                    let ghost cnf_before = self.cnf_result.clauses@;
                    self.cnf_result.clauses.append(&mut elim);
                    let ghost cf = clauses_formula(cnf_before);
                    let ghost ef = clauses_formula(e_clauses);
                    proof {
                        assert(self.cnf_result.clauses@ == cnf_before + e_clauses);
                        assert(self.cnf_result.formula() =~= cf + ef);
                        assert(bstack[top].1@ == e_clauses);
                        assert(stack_formula(bstack, top) == ef);
                    }
                    let x = elim_variable;
                    assign.set(x - 1, true);
                    let ghost vt = assign@;
                    let mut ok = self.is_sat(&assign);
                    if !ok {
                        assign.set(x - 1, false);
                        ok = self.is_sat(&assign);
                        if !ok {
                            proof {
                                let vf = assign@;
                                assert(vt == assign0.update(x - 1, true));
                                assert(vf == assign0.update(x - 1, false));
                                assert forall|original: Seq<Seq<CNFVar>>| !(#[trigger] self0.prepared_for(original)
                                    && v0.len() == self0.cnf_result.num_variables
                                    && formula_holds(self0.cnf_result.formula(), v0)) by {
                                    if self0.prepared_for(original) && v0.len() == self0.cnf_result.num_variables
                                        && formula_holds(self0.cnf_result.formula(), v0) {
                                        let n = before.cnf_result.num_variables as nat;
                                        assert(before.prepared_for(original));
                                        assert(eliminations_closed(bstack, cf));
                                        assert(entry_closed(bstack, cf, top));
                                        assert(stack_wf(bstack, n));
                                        assert(1 <= bstack[top].0 <= n);
                                        assert(clauses_in_range(bstack[top].1@, n));
                                        assert forall|j: int| 0 <= j < cf.len() implies free_of(#[trigger] cf[j], x) by {
                                            assert(cf.contains(cf[j]));
                                            assert(in_later(bstack, cf, top, cf[j]));
                                        }
                                        assert forall|a: int| 0 <= a < ef.len() implies crate::cnf::clause_in_range(#[trigger] ef[a], assign0.len()) by {
                                            assert(ef[a] == e_clauses[a].vars@);
                                        }
                                        assert(resolvents_kept(ef, x, cf)) by {
                                            assert forall|a: int, b: int| #![trigger ef[a], ef[b]] 0 <= a < ef.len() && 0 <= b < ef.len()
                                                && ef[a].contains(pos_lit(x)) && !ef[b].contains(pos_lit(x))
                                                && !tautology(resolvent(ef[a], ef[b], x))
                                                implies exists|c: Seq<CNFVar>| #[trigger] cf.contains(c) && same_lits(c, resolvent(ef[a], ef[b], x)) by {
                                                let c = choose|c: Seq<CNFVar>| #[trigger] in_later(bstack, cf, top, c)
                                                    && same_lits(c, resolvent(ef[a], ef[b], x));
                                                assert(cf.contains(c));
                                            }
                                        }
                                        lemma_extend_eliminated(cf, ef, x, assign0);
                                        let all = self.cnf_result.clauses@;
                                        assert forall|val: Seq<bool>| all_true(cf + ef, val) implies #[trigger] nonempty_clauses_hold(all, val) by {
                                            assert forall|j: int| 0 <= j < all.len() && all[j].vars@.len() > 0
                                                implies clause_true_in(#[trigger] all[j].vars@, val) by {
                                                assert((cf + ef)[j] == all[j].vars@);
                                            }
                                        }
                                        assert(nonempty_clauses_hold(all, vt) || nonempty_clauses_hold(all, vf));
                                    }
                                }
                            }
                            return SATSolution::Unsatisfiable;
                        }
                    }
                    proof {
                        let stack = self.removed_clauses_stack@;
                        let all = self.cnf_result.clauses@;
                        assert forall|original: Seq<Seq<CNFVar>>| #[trigger] self0.prepared_for(original)
                            && v0.len() == self0.cnf_result.num_variables
                            && formula_holds(self0.cnf_result.formula(), v0) implies {
                            &&& self.prepared_for(original)
                            &&& forall|j: int| 0 <= j < self.cnf_result.clauses@.len()
                                ==> (#[trigger] self.cnf_result.clauses@[j]).vars@.len() > 0
                            &&& all_true(self.cnf_result.formula(), assign@)
                        } by {
                            let n = self.cnf_result.num_variables as nat;
                            let cur = self.cnf_result.formula();
                            assert(before.prepared_for(original));
                            assert(stack_wf(bstack, n));
                            assert(1 <= bstack[top].0 <= n && clauses_in_range(bstack[top].1@, n));
                            assert forall|k: int| 0 <= k < stack.len() implies stack[k] == bstack[k] by {}
                            assert(stack_wf(stack, n)) by {
                                assert forall|k: int| 0 <= k < stack.len() implies {
                                    &&& 1 <= (#[trigger] stack[k]).0 <= n
                                    &&& clauses_in_range(stack[k].1@, n)
                                    &&& forall|j: int| 0 <= j < stack[k].1@.len() ==> (#[trigger] stack[k].1@[j]).vars@.len() > 0
                                } by {
                                    assert(stack[k] == bstack[k]);
                                }
                            }
                            assert forall|j: int| 0 <= j < all.len() implies (#[trigger] all[j]).vars@.len() > 0 by {
                                if j < cnf_before.len() {
                                    assert(all[j] == cnf_before[j]);
                                } else {
                                    assert(all[j] == e_clauses[j - cnf_before.len()]);
                                    assert(bstack[top].1@[j - cnf_before.len()].vars@.len() > 0);
                                }
                            }
                            assert(clauses_in_range(all, n)) by {
                                assert forall|j: int| 0 <= j < all.len() implies
                                    crate::cnf::clause_in_range(#[trigger] all[j].vars@, n) by {
                                    if j < cnf_before.len() {
                                        assert(all[j] == cnf_before[j]);
                                    } else {
                                        assert(all[j] == e_clauses[j - cnf_before.len()]);
                                    }
                                }
                            }
                            assert forall|j: int| 0 <= j < cur.len() implies clause_true_in(#[trigger] cur[j], assign@) by {
                                assert(cur[j] == all[j].vars@);
                                assert(all[j].vars@.len() > 0);
                            }
                            // the clauses after each remaining entry are the same as before
                            assert forall|k: int, c: Seq<CNFVar>| 0 <= k < stack.len()
                                implies (#[trigger] in_later(stack, cur, k, c) <==> in_later(bstack, cf, k, c)) by {
                                if in_later(stack, cur, k, c) {
                                    if cur.contains(c) {
                                        let w = choose|w: int| 0 <= w < cur.len() && cur[w] == c;
                                        if w < cf.len() {
                                            assert(cf[w] == c);
                                        } else {
                                            assert(ef[w - cf.len()] == c);
                                            assert(stack_formula(bstack, top).contains(c));
                                        }
                                    } else {
                                        let j = choose|j: int| k < j < stack.len() && #[trigger] stack_formula(stack, j).contains(c);
                                        assert(stack_formula(bstack, j) == stack_formula(stack, j));
                                    }
                                }
                                if in_later(bstack, cf, k, c) {
                                    if cf.contains(c) {
                                        let w = choose|w: int| 0 <= w < cf.len() && cf[w] == c;
                                        assert(cur[w] == c);
                                    } else {
                                        let j = choose|j: int| k < j < bstack.len() && #[trigger] stack_formula(bstack, j).contains(c);
                                        if j == top {
                                            let w = choose|w: int| 0 <= w < ef.len() && ef[w] == c;
                                            assert(cur[cf.len() + w] == c);
                                        } else {
                                            assert(stack_formula(bstack, j) == stack_formula(stack, j));
                                        }
                                    }
                                }
                            }
                            assert(eliminations_closed(stack, cur)) by {
                                assert forall|k: int| 0 <= k < stack.len() implies #[trigger] entry_closed(stack, cur, k) by {
                                    assert(entry_closed(bstack, cf, k));
                                    assert(stack_formula(bstack, k) == stack_formula(stack, k));
                                    let y = stack[k].0;
                                    let e = stack_formula(stack, k);
                                    assert forall|c: Seq<CNFVar>| #[trigger] in_later(stack, cur, k, c) implies free_of(c, y) by {
                                        assert(in_later(bstack, cf, k, c));
                                    }
                                    assert forall|a: int, b: int| #![trigger e[a], e[b]] 0 <= a < e.len() && 0 <= b < e.len()
                                        && e[a].contains(pos_lit(y)) && !e[b].contains(pos_lit(y))
                                        && !tautology(resolvent(e[a], e[b], y))
                                        implies exists|c: Seq<CNFVar>| #[trigger] in_later(stack, cur, k, c) && same_lits(c, resolvent(e[a], e[b], y)) by {
                                        let c = choose|c: Seq<CNFVar>| #[trigger] in_later(bstack, cf, k, c) && same_lits(c, resolvent(e[a], e[b], y));
                                        assert(in_later(stack, cur, k, c));
                                    }
                                }
                            }
                            assert forall|c: Seq<CNFVar>| #[trigger] original.contains(c) implies cur.contains(c)
                                || exists|k: int| 0 <= k < stack.len() && #[trigger] stack_formula(stack, k).contains(c) by {
                                if cf.contains(c) {
                                    let w = choose|w: int| 0 <= w < cf.len() && cf[w] == c;
                                    assert(cur[w] == c);
                                } else {
                                    let k = choose|k: int| 0 <= k < bstack.len() && #[trigger] stack_formula(bstack, k).contains(c);
                                    if k == top {
                                        let w = choose|w: int| 0 <= w < ef.len() && ef[w] == c;
                                        assert(cur[cf.len() + w] == c);
                                    } else {
                                        assert(stack_formula(stack, k) == stack_formula(bstack, k));
                                    }
                                }
                            }
                        }
                    }
                }
                proof {
                    assert forall|original: Seq<Seq<CNFVar>>| #[trigger] self0.prepared_for(original)
                        && v0.len() == self0.cnf_result.num_variables
                        && formula_holds(self0.cnf_result.formula(), v0) implies formula_holds(original, assign@) by {
                        let cur = self.cnf_result.formula();
                        assert forall|j: int| 0 <= j < original.len() implies clause_holds(#[trigger] original[j], assign@) by {
                            assert(original.contains(original[j]));
                            assert(cur.contains(original[j]));
                            let w = choose|w: int| 0 <= w < cur.len() && cur[w] == original[j];
                            assert(clause_true_in(cur[w], assign@));
                        }
                    }
                }
                SATSolution::Satisfiable(assign)
            },
            other => other,
        }
    }
}

/// NiVER makes its own passes.
impl PreprocessorFactory for NiVER {
    type Instance = NiVER;

    fn new(&self) -> NiVER {
        NiVER::new()
    }
}

/// The preprocessing passes a list can hold.
pub enum PreprocessorKind {
    NoPreprocessing,
    RemoveTautology,
    SelfSubsumption,
    NiVER,
}

/// A pass of any of the kinds.
pub enum AnyPreprocessor {
    NoPreprocessing(NoPreprocessingInstance),
    RemoveTautology(RemoveTautologyInstance),
    SelfSubsumption(SelfSubsumptionInstance),
    NiVER(NiVER),
}

/// What a pass does to a formula `f`, giving `g`, when it was `p` before
/// and `q` after: no preprocessing gives the formula back, tautology removal
/// keeps the clauses that are not tautologies, self-subsumption strengthens
/// clauses variable by variable (keeping the models where signatures hold
/// every variable, at most 32), and NiVER, started without eliminations,
/// records how to restore an answer.
pub open spec fn pass_effect(p: AnyPreprocessor, q: AnyPreprocessor, f: CNF, g: CNF) -> bool {
    &&& g.wf()
    &&& g.num_variables == f.num_variables
    &&& match p {
        AnyPreprocessor::NoPreprocessing(_) => q is NoPreprocessing && g == f,
        AnyPreprocessor::RemoveTautology(_) => q is RemoveTautology
            && g.formula() == f.formula().filter(not_tautology()),
        AnyPreprocessor::SelfSubsumption(_) => q is SelfSubsumption
            && g.formula() == ss_vars(f.formula(), 0, f.num_variables as nat)
            && (f.num_variables <= 32 ==> forall|val: Seq<bool>| val.len() == f.num_variables ==>
                (#[trigger] g.satisfied_by(val) <==> f.satisfied_by(val))),
        AnyPreprocessor::NiVER(m) => q matches AnyPreprocessor::NiVER(n)
            && (m.stack_len() == 0 ==> n.prepared_for(f.formula()))
            && n.result_formula() == g.formula() && n.result_num_variables() == f.num_variables,
    }
}

/// What a pass does to an answer `a`, giving `b`, when it was `p`: the
/// passes other than NiVER give the answer back; NiVER turns a model of the
/// formula it produced into a model of the formula it was given.
pub open spec fn restore_effect(p: AnyPreprocessor, a: SATSolution, b: SATSolution) -> bool {
    &&& b matches SATSolution::Satisfiable(w) ==> (a matches SATSolution::Satisfiable(v) && w@.len() == v@.len())
    &&& match p {
        AnyPreprocessor::NiVER(n) => forall|original: Seq<Seq<CNFVar>>| #[trigger] n.prepared_for(original)
            ==> (a matches SATSolution::Satisfiable(v) && v@.len() == n.result_num_variables()
                && formula_holds(n.result_formula(), v@))
            ==> (b matches SATSolution::Satisfiable(w) && formula_holds(original, w@)),
        _ => b == a,
    }
}

impl Preprocessor for AnyPreprocessor {
    fn preprocess(&mut self, cnf: CNF) -> (r: CNF)
        ensures
            pass_effect(*old(self), *final(self), cnf, r),
    {
        match self {
            AnyPreprocessor::NoPreprocessing(p) => p.preprocess(cnf),
            AnyPreprocessor::RemoveTautology(p) => p.preprocess(cnf),
            AnyPreprocessor::SelfSubsumption(p) => p.preprocess(cnf),
            AnyPreprocessor::NiVER(p) => p.preprocess(cnf),
        }
    }

    fn restore(&mut self, assignment: SATSolution) -> (r: SATSolution)
        ensures
            restore_effect(*old(self), assignment, r),
    {
        match self {
            AnyPreprocessor::NoPreprocessing(p) => p.restore(assignment),
            AnyPreprocessor::RemoveTautology(p) => p.restore(assignment),
            AnyPreprocessor::SelfSubsumption(p) => p.restore(assignment),
            AnyPreprocessor::NiVER(p) => p.restore(assignment),
        }
    }
}

/// Runs several passes: preprocessing in their order, restoring in the
/// opposite order.
pub struct ListPreprocessorInstance {
    preprocessors: Vec<AnyPreprocessor>,
}

impl ListPreprocessorInstance {
    /// The number of passes.
    pub closed spec fn len(&self) -> nat {
        self.preprocessors@.len()
    }
}

impl ListPreprocessorInstance {
    /// The passes.
    pub closed spec fn passes(&self) -> Seq<AnyPreprocessor> {
        self.preprocessors@
    }
}

impl Preprocessor for ListPreprocessorInstance {
    /// Each pass in turn works on what the one before it gave.
    fn preprocess(&mut self, cnf: CNF) -> (r: CNF)
        ensures
            final(self).passes().len() == old(self).passes().len(),
            exists|fs: Seq<CNF>| #![trigger fs.len()] fs.len() == old(self).passes().len() + 1 && fs[0] == cnf
                && fs[fs.len() - 1] == r
                && forall|i: int| 0 <= i < old(self).passes().len()
                    ==> pass_effect(old(self).passes()[i], #[trigger] final(self).passes()[i], fs[i], fs[i + 1]),
    {
        let mut acc = cnf;
        let mut i: usize = 0;
        let ghost mut fs: Seq<CNF> = seq![cnf];
        while i < self.preprocessors.len()
            invariant
                i <= self.preprocessors@.len(),
                self.preprocessors@.len() == old(self).preprocessors@.len(),
                acc.wf(),
                acc.num_variables == cnf.num_variables,
                fs.len() == i + 1,
                fs[0] == cnf,
                fs[i as int] == acc,
                forall|j: int| 0 <= j < i ==> pass_effect(old(self).preprocessors@[j], #[trigger] self.preprocessors@[j], fs[j], fs[j + 1]),
                forall|j: int| i <= j < self.preprocessors@.len() ==> #[trigger] self.preprocessors@[j] == old(self).preprocessors@[j],
            decreases self.preprocessors@.len() - i,
        {
            let ghost before = self.preprocessors@;
            acc = self.preprocessors[i].preprocess(acc);
            proof {
                fs = fs.push(acc);
                assert forall|j: int| 0 <= j < i + 1 implies pass_effect(old(self).preprocessors@[j], #[trigger] self.preprocessors@[j], fs[j], fs[j + 1]) by {
                    if j < i {
                        assert(self.preprocessors@[j] == before[j]);
                    }
                }
                assert forall|j: int| i + 1 <= j < self.preprocessors@.len() implies #[trigger] self.preprocessors@[j] == old(self).preprocessors@[j] by {
                    assert(self.preprocessors@[j] == before[j]);
                }
            }
            i += 1;
        }
        proof {
            assert(fs[fs.len() - 1] == acc);
        }
        acc
    }

    /// Each pass, last first, works on what the one after it gave.
    fn restore(&mut self, assignment: SATSolution) -> (r: SATSolution)
        ensures
            exists|ans: Seq<SATSolution>| #![trigger ans.len()] ans.len() == old(self).passes().len() + 1
                && ans[old(self).passes().len() as int] == assignment && ans[0] == r
                && forall|i: int| 0 <= i < old(self).passes().len()
                    ==> restore_effect(#[trigger] old(self).passes()[i], ans[i + 1], ans[i]),
    {
        let mut acc = assignment;
        let mut i: usize = self.preprocessors.len();
        let ghost n = self.preprocessors@.len();
        let ghost mut ans: Seq<SATSolution> = Seq::new((n + 1) as nat, |k: int| assignment);
        while i > 0
            invariant
                i <= self.preprocessors@.len(),
                n == old(self).preprocessors@.len(),
                self.preprocessors@.len() == n,
                ans.len() == n + 1,
                ans[n as int] == assignment,
                ans[i as int] == acc,
                acc matches SATSolution::Satisfiable(w) ==> (assignment matches SATSolution::Satisfiable(v)
                    && w@.len() == v@.len()),
                forall|j: int| i <= j < n ==> restore_effect(#[trigger] old(self).preprocessors@[j], ans[j + 1], ans[j]),
                forall|j: int| 0 <= j < i ==> #[trigger] self.preprocessors@[j] == old(self).preprocessors@[j],
            decreases i,
        {
            i -= 1;
            let ghost prev = acc;
            let ghost before = self.preprocessors@;
            acc = self.preprocessors[i].restore(acc);
            proof {
                ans = ans.update(i as int, acc);
                assert forall|j: int| 0 <= j < i implies #[trigger] self.preprocessors@[j] == old(self).preprocessors@[j] by {
                    assert(self.preprocessors@[j] == before[j]);
                }
                assert(acc is Satisfiable ==> prev is Satisfiable);
            }
        }
        acc
    }
}

/// Makes a list of passes of the given kinds, in that order.
pub struct ListPreprocessor(pub Vec<PreprocessorKind>);

impl PreprocessorFactory for ListPreprocessor {
    type Instance = ListPreprocessorInstance;

    fn new(&self) -> (r: ListPreprocessorInstance)
        ensures
            r.len() == self.0@.len(),
    {
        let mut preprocessors: Vec<AnyPreprocessor> = Vec::with_capacity(self.0.len());
        let mut i: usize = 0;
        while i < self.0.len()
            invariant
                i <= self.0@.len(),
                preprocessors@.len() == i,
            decreases self.0@.len() - i,
        {
            let p = match self.0[i] {
                PreprocessorKind::NoPreprocessing => AnyPreprocessor::NoPreprocessing(NoPreprocessingInstance),
                PreprocessorKind::RemoveTautology => AnyPreprocessor::RemoveTautology(RemoveTautologyInstance),
                PreprocessorKind::SelfSubsumption => AnyPreprocessor::SelfSubsumption(SelfSubsumptionInstance),
                PreprocessorKind::NiVER => AnyPreprocessor::NiVER(NiVER::new()),
            };
            preprocessors.push(p);
            i += 1;
        }
        ListPreprocessorInstance { preprocessors }
    }
}

} // verus!
