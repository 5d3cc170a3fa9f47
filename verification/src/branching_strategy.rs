//! Branching heuristics for the DPLL solver.
use vstd::prelude::*;
use crate::cnf::CNFVar;
use crate::dpll::{tables_wf, Clause, Clauses, VarValue, Variable, Variables};
use crate::dpll_state::{no_repeats, occ_exact};

verus! {

/// A heuristic that chooses the next literal to set true during the DPLL
/// search. It looks at the current variables and clauses and suggests an
/// unset variable with a polarity, or `None`.
/// It answers `None` only where every clause not marked satisfied has all of
/// its variables set.
pub trait BranchingStrategy {
    fn pick_branching_variable(&self, variables: &Variables, clauses: &Clauses) -> (r: Option<CNFVar>)
        requires
            tables_wf(variables@, clauses@),
            occ_exact(variables@, clauses@),
        ensures
            r matches Some(l) ==> l.id < variables@.len() && variables@[l.id as int].value == VarValue::Free,
            r is None ==> nothing_to_branch(variables@, clauses@),
    ;
}

/// Every clause not marked satisfied has all of its variables set.
pub open spec fn nothing_to_branch(variables: Seq<Variable>, clauses: Seq<Clause>) -> bool {
    forall|c: int, i: int| 0 <= c < clauses.len() && clauses[c].satisfied is None && 0 <= i < clauses[c].literals@.len()
        ==> variables[(#[trigger] clauses[c].literals@[i]).id as int].value != VarValue::Free
}

/// With no variable unset there is nothing to branch on.
pub proof fn lemma_all_set(variables: Seq<Variable>, clauses: Seq<Clause>)
    requires
        tables_wf(variables, clauses),
        forall|v: int| 0 <= v < variables.len() ==> (#[trigger] variables[v]).value != VarValue::Free,
    ensures
        nothing_to_branch(variables, clauses),
{
    assert forall|c: int, i: int| 0 <= c < clauses.len() && clauses[c].satisfied is None && 0 <= i < clauses[c].literals@.len()
        implies variables[(#[trigger] clauses[c].literals@[i]).id as int].value != VarValue::Free by {
        assert(clauses[c].literals@[i].id < variables.len());
    }
}

/// Where the unset variables occur in satisfied clauses only, there is nothing to branch on.
pub proof fn lemma_unset_only_satisfied(variables: Seq<Variable>, clauses: Seq<Clause>)
    requires
        tables_wf(variables, clauses),
        occ_exact(variables, clauses),
        clauses.len() <= usize::MAX,
        forall|v: int| 0 <= v < variables.len() && (#[trigger] variables[v]).value == VarValue::Free
            ==> unsatisfied_count(variables[v].pos_occ@, clauses) == 0 && unsatisfied_count(variables[v].neg_occ@, clauses) == 0,
    ensures
        nothing_to_branch(variables, clauses),
{
    assert forall|c: int, i: int| 0 <= c < clauses.len() && clauses[c].satisfied is None && 0 <= i < clauses[c].literals@.len()
        implies variables[(#[trigger] clauses[c].literals@[i]).id as int].value != VarValue::Free by {
        let l = clauses[c].literals@[i];
        let v = l.id as int;
        assert(c as usize as int == c);
        assert(l.id < variables.len());
        assert(clauses[c].literals@.contains(l));
        if variables[v].value == VarValue::Free {
            if l.sign {
                assert(l == CNFVar { id: v as usize, sign: true });
                assert(variables[v].pos_occ@.contains(c as usize));
                lemma_unsatisfied_count_zero(variables[v].pos_occ@, clauses);
                let k = choose|k: int| 0 <= k < variables[v].pos_occ@.len() && variables[v].pos_occ@[k] == c as usize;
                assert(clauses[variables[v].pos_occ@[k] as int].satisfied is Some);
            } else {
                assert(l == CNFVar { id: v as usize, sign: false });
                assert(variables[v].neg_occ@.contains(c as usize));
                lemma_unsatisfied_count_zero(variables[v].neg_occ@, clauses);
                let k = choose|k: int| 0 <= k < variables[v].neg_occ@.len() && variables[v].neg_occ@[k] == c as usize;
                assert(clauses[variables[v].neg_occ@[k] as int].satisfied is Some);
            }
        }
    }
}

/// With no unsatisfied clause counted, every listed clause is marked satisfied.
pub proof fn lemma_unsatisfied_count_zero(occ: Seq<usize>, clauses: Seq<Clause>)
    requires
        unsatisfied_count(occ, clauses) == 0,
    ensures
        forall|k: int| 0 <= k < occ.len() ==> clauses[#[trigger] occ[k] as int].satisfied is Some,
    decreases occ.len(),
{
    if occ.len() > 0 {
        lemma_unsatisfied_count_zero(occ.drop_last(), clauses);
        assert forall|k: int| 0 <= k < occ.len() implies clauses[#[trigger] occ[k] as int].satisfied is Some by {
            if k < occ.len() - 1 {
                assert(occ.drop_last()[k] == occ[k]);
            }
        }
    }
}

/// Where the first unset variable among the first `n` does not exist, none of them is unset.
pub proof fn lemma_first_free_none(variables: Seq<Variable>, n: int)
    requires
        first_free(variables, n) is None,
    ensures
        forall|v: int| 0 <= v < n ==> (#[trigger] variables[v]).value != VarValue::Free,
    decreases n,
{
    if n > 0 {
        lemma_first_free_none(variables, n - 1);
    }
}

/// A heuristic that chooses the first unset variable, positively.
pub struct NaiveBranching;

/// The first unset variable among the first `n`, if any.
pub open spec fn first_free(variables: Seq<Variable>, n: int) -> Option<usize>
    decreases n,
{
    if n <= 0 {
        None
    } else {
        match first_free(variables, n - 1) {
            Some(i) => Some(i),
            None => if variables[n - 1].value == VarValue::Free { Some((n - 1) as usize) } else { None },
        }
    }
}

impl BranchingStrategy for NaiveBranching {
    fn pick_branching_variable(&self, variables: &Variables, clauses: &Clauses) -> (r: Option<CNFVar>)
        ensures
            r == match first_free(variables@, variables@.len() as int) {
                Some(i) => Some(CNFVar { id: i, sign: true }),
                None => None,
            },
            r matches Some(l) ==> l.sign && l.id < variables@.len() && variables@[l.id as int].value == VarValue::Free
                && forall|v: int| 0 <= v < l.id ==> (#[trigger] variables@[v]).value != VarValue::Free,
            r is None ==> forall|v: int| 0 <= v < variables@.len() ==> (#[trigger] variables@[v]).value != VarValue::Free,
    {
        let mut i: usize = 0;
        while i < variables.len()
            invariant
                i <= variables@.len(),
                first_free(variables@, i as int) is None,
            decreases variables@.len() - i,
        {
            if variables[i].value == VarValue::Free {
                proof {
                    lemma_first_free_extends(variables@, i as int + 1, variables@.len() as int);
                    lemma_first_free_none(variables@, i as int);
                }
                return Some(CNFVar::new(i, true));
            }
            i += 1;
        }
        proof {
            lemma_first_free_none(variables@, i as int);
            lemma_all_set(variables@, clauses@);
        }
        None
    }
}

/// Once found among the first `n`, the first unset variable stays the same for larger prefixes.
pub proof fn lemma_first_free_extends(variables: Seq<Variable>, n: int, m: int)
    requires
        0 <= n <= m <= usize::MAX + 1,
        first_free(variables, n) is Some,
    ensures
        first_free(variables, m) == first_free(variables, n),
        first_free(variables, n)->0 < n,
        variables[first_free(variables, n)->0 as int].value == VarValue::Free,
    decreases m,
{
    if m > n {
        lemma_first_free_extends(variables, n, m - 1);
    } else {
        lemma_first_free_found(variables, n);
    }
}

/// The variable found is unset and among the first `n`.
pub proof fn lemma_first_free_found(variables: Seq<Variable>, n: int)
    requires
        first_free(variables, n) is Some,
        n <= usize::MAX + 1,
    ensures
        0 <= first_free(variables, n)->0 < n,
        variables[first_free(variables, n)->0 as int].value == VarValue::Free,
    decreases n,
{
    if n > 0 {
        if first_free(variables, n - 1) is Some {
            lemma_first_free_found(variables, n - 1);
        }
    }
}

/// The number of clauses among `occ` that are not satisfied.
pub open spec fn unsatisfied_count(occ: Seq<usize>, clauses: Seq<Clause>) -> nat
    decreases occ.len(),
{
    if occ.len() == 0 {
        0
    } else {
        unsatisfied_count(occ.drop_last(), clauses) + if clauses[occ.last() as int].satisfied is None { 1nat } else { 0nat }
    }
}

/// Counts the clauses mentioned in `occ` that are not satisfied at the moment.
pub fn count_number_of_clauses(occ: &Vec<usize>, clauses: &Clauses) -> (r: usize)
    requires
        forall|k: int| 0 <= k < occ@.len() ==> #[trigger] occ@[k] < clauses@.len(),
    ensures
        r == unsatisfied_count(occ@, clauses@),
{
    let mut n: usize = 0;
    let mut k: usize = 0;
    while k < occ.len()
        invariant
            k <= occ@.len(),
            forall|j: int| 0 <= j < occ@.len() ==> #[trigger] occ@[j] < clauses@.len(),
            n == unsatisfied_count(occ@.take(k as int), clauses@),
            n <= k,
        decreases occ@.len() - k,
    {
        assert(occ@.take(k + 1).drop_last() =~= occ@.take(k as int));
        if clauses[occ[k]].satisfied.is_none() {
            n += 1;
        }
        k += 1;
    }
    assert(occ@.take(k as int) =~= occ@);
    n
}

/// The positive and negative counts of unsatisfied clauses of variable `i`.
pub open spec fn occ_counts(variables: Seq<Variable>, clauses: Seq<Clause>, i: int) -> (nat, nat) {
    (unsatisfied_count(variables[i].pos_occ@, clauses), unsatisfied_count(variables[i].neg_occ@, clauses))
}

/// Dynamic Largest Individual Sum over the first `n` variables: the best
/// count so far and the literal chosen. A variable replaces the choice only
/// with a strictly larger count; its polarity is positive when the positive
/// count is strictly larger.
pub open spec fn dlis_scan(variables: Seq<Variable>, clauses: Seq<Clause>, n: int) -> (nat, Option<CNFVar>)
    decreases n,
{
    if n <= 0 {
        (0, None)
    } else {
        let (max, choice) = dlis_scan(variables, clauses, n - 1);
        if variables[n - 1].value == VarValue::Free {
            let (pos, neg) = occ_counts(variables, clauses, n - 1);
            let (sign, local) = if pos > neg { (true, pos) } else { (false, neg) };
            if local > max { (local, Some(CNFVar { id: (n - 1) as usize, sign })) } else { (max, choice) }
        } else {
            (max, choice)
        }
    }
}

/// Dynamic Largest Combined Sum over the first `n` variables: as DLIS with
/// the sum of both counts.
pub open spec fn dlcs_scan(variables: Seq<Variable>, clauses: Seq<Clause>, n: int) -> (nat, Option<CNFVar>)
    decreases n,
{
    if n <= 0 {
        (0, None)
    } else {
        let (max, choice) = dlcs_scan(variables, clauses, n - 1);
        if variables[n - 1].value == VarValue::Free {
            let (pos, neg) = occ_counts(variables, clauses, n - 1);
            let h = pos + neg;
            if h > max { (h, Some(CNFVar { id: (n - 1) as usize, sign: pos > neg })) } else { (max, choice) }
        } else {
            (max, choice)
        }
    }
}

/// The number of clauses not yet satisfied in which the literal occurs.
pub open spec fn literal_count(variables: Seq<Variable>, clauses: Seq<Clause>, l: CNFVar) -> nat {
    if l.sign {
        unsatisfied_count(variables[l.id as int].pos_occ@, clauses)
    } else {
        unsatisfied_count(variables[l.id as int].neg_occ@, clauses)
    }
}

/// The number of clauses not yet satisfied in which the variable `v`
/// occurs, with either sign.
pub open spec fn variable_count(variables: Seq<Variable>, clauses: Seq<Clause>, v: int) -> nat {
    literal_count(variables, clauses, CNFVar { id: v as usize, sign: true })
        + literal_count(variables, clauses, CNFVar { id: v as usize, sign: false })
}

/// The DLIS choice among the first `n` variables: `Some(l)` is an unset
/// variable with the polarity that occurs in more unsatisfied clauses (the
/// negative one on a tie); no literal of an unset variable occurs in more
/// unsatisfied clauses than `l`, and every unset variable before `l`'s
/// occurs in fewer; `l` occurs in at least one. `None` when no literal of
/// an unset variable occurs in an unsatisfied clause.
pub open spec fn dlis_choice(variables: Seq<Variable>, clauses: Seq<Clause>, n: int, r: Option<CNFVar>) -> bool {
    match r {
        Some(l) => {
            &&& 0 <= l.id < n
            &&& variables[l.id as int].value == VarValue::Free
            &&& literal_count(variables, clauses, l) > 0
            &&& (l.sign <==> literal_count(variables, clauses, CNFVar { id: l.id, sign: true })
                > literal_count(variables, clauses, CNFVar { id: l.id, sign: false }))
            &&& forall|v: int, b: bool| 0 <= v < n && variables[v].value == VarValue::Free
                ==> #[trigger] literal_count(variables, clauses, CNFVar { id: v as usize, sign: b }) <= literal_count(variables, clauses, l)
            &&& forall|v: int, b: bool| 0 <= v < l.id && variables[v].value == VarValue::Free
                ==> #[trigger] literal_count(variables, clauses, CNFVar { id: v as usize, sign: b }) < literal_count(variables, clauses, l)
        },
        None => forall|v: int, b: bool| 0 <= v < n && variables[v].value == VarValue::Free
            ==> #[trigger] literal_count(variables, clauses, CNFVar { id: v as usize, sign: b }) == 0,
    }
}

/// The DLCS choice among the first `n` variables: `Some(l)` is an unset
/// variable occurring in the most unsatisfied clauses, counting both signs,
/// the first such one, with the polarity that occurs more (negative on a
/// tie); it occurs in at least one. `None` when no unset variable occurs
/// in an unsatisfied clause.
pub open spec fn dlcs_choice(variables: Seq<Variable>, clauses: Seq<Clause>, n: int, r: Option<CNFVar>) -> bool {
    match r {
        Some(l) => {
            &&& 0 <= l.id < n
            &&& variables[l.id as int].value == VarValue::Free
            &&& variable_count(variables, clauses, l.id as int) > 0
            &&& (l.sign <==> literal_count(variables, clauses, CNFVar { id: l.id, sign: true })
                > literal_count(variables, clauses, CNFVar { id: l.id, sign: false }))
            &&& forall|v: int| 0 <= v < n && (#[trigger] variables[v]).value == VarValue::Free
                ==> variable_count(variables, clauses, v) <= variable_count(variables, clauses, l.id as int)
            &&& forall|v: int| 0 <= v < l.id && (#[trigger] variables[v]).value == VarValue::Free
                ==> variable_count(variables, clauses, v) < variable_count(variables, clauses, l.id as int)
        },
        None => forall|v: int| 0 <= v < n && (#[trigger] variables[v]).value == VarValue::Free
            ==> variable_count(variables, clauses, v) == 0,
    }
}

/// What the DLIS scan picks is the DLIS choice.
pub proof fn lemma_dlis_scan_chooses(variables: Seq<Variable>, clauses: Seq<Clause>, n: int)
    requires
        0 <= n <= variables.len(),
        variables.len() <= usize::MAX,
    ensures
        dlis_choice(variables, clauses, n, dlis_scan(variables, clauses, n).1),
        dlis_scan(variables, clauses, n).1 is None ==> dlis_scan(variables, clauses, n).0 == 0,
        dlis_scan(variables, clauses, n).1 matches Some(l)
            ==> dlis_scan(variables, clauses, n).0 == literal_count(variables, clauses, l),
    decreases n,
{
    if n > 0 {
        lemma_dlis_scan_chooses(variables, clauses, n - 1);
        let (m, c) = dlis_scan(variables, clauses, n - 1);
        let v = n - 1;
        if variables[v].value == VarValue::Free {
            let lp = CNFVar { id: v as usize, sign: true };
            let ln = CNFVar { id: v as usize, sign: false };
            assert(literal_count(variables, clauses, lp) == occ_counts(variables, clauses, v).0);
            assert(literal_count(variables, clauses, ln) == occ_counts(variables, clauses, v).1);
        }
        let r = dlis_scan(variables, clauses, n).1;
        assert forall|u: int, b: bool| 0 <= u < n && variables[u].value == VarValue::Free
            implies #[trigger] literal_count(variables, clauses, CNFVar { id: u as usize, sign: b }) <= dlis_scan(variables, clauses, n).0 by {
            if u < n - 1 {
                if c is Some {
                } else {
                }
            } else {
                assert(CNFVar { id: u as usize, sign: b } == CNFVar { id: v as usize, sign: b });
            }
        }
    }
}

/// What the DLCS scan picks is the DLCS choice.
#[verifier::rlimit(40)]
pub proof fn lemma_dlcs_scan_chooses(variables: Seq<Variable>, clauses: Seq<Clause>, n: int)
    requires
        0 <= n <= variables.len(),
        variables.len() <= usize::MAX,
    ensures
        dlcs_choice(variables, clauses, n, dlcs_scan(variables, clauses, n).1),
        dlcs_scan(variables, clauses, n).1 is None ==> dlcs_scan(variables, clauses, n).0 == 0,
        dlcs_scan(variables, clauses, n).1 matches Some(l)
            ==> dlcs_scan(variables, clauses, n).0 == variable_count(variables, clauses, l.id as int),
        forall|u: int| 0 <= u < n && (#[trigger] variables[u]).value == VarValue::Free
            ==> variable_count(variables, clauses, u) <= dlcs_scan(variables, clauses, n).0,
    decreases n,
{
    if n > 0 {
        lemma_dlcs_scan_chooses(variables, clauses, n - 1);
        let v = n - 1;
        let lp = CNFVar { id: v as usize, sign: true };
        let ln = CNFVar { id: v as usize, sign: false };
        assert(literal_count(variables, clauses, lp) == occ_counts(variables, clauses, v).0);
        assert(literal_count(variables, clauses, ln) == occ_counts(variables, clauses, v).1);
        assert(variable_count(variables, clauses, v) == occ_counts(variables, clauses, v).0 + occ_counts(variables, clauses, v).1);
        let m = dlcs_scan(variables, clauses, n).0;
        assert forall|u: int| 0 <= u < n && (#[trigger] variables[u]).value == VarValue::Free
            implies variable_count(variables, clauses, u) <= m by {
            if u < n - 1 {
                assert(variable_count(variables, clauses, u) <= dlcs_scan(variables, clauses, n - 1).0);
            }
        }
    }
}

/// A choice of a scan names an unset variable among the first `n`.
pub open spec fn choice_ok(variables: Seq<Variable>, n: int, c: Option<CNFVar>) -> bool {
    c matches Some(l) ==> l.id < n && variables[l.id as int].value == VarValue::Free
}

/// Dynamic Largest Individual Sum (DLIS): the literal that appears in the
/// most clauses not yet satisfied.
pub struct DLIS;

impl BranchingStrategy for DLIS {
    fn pick_branching_variable(&self, variables: &Variables, clauses: &Clauses) -> (r: Option<CNFVar>)
        ensures
            r == dlis_scan(variables@, clauses@, variables@.len() as int).1,
            dlis_choice(variables@, clauses@, variables@.len() as int, r),
    {
        let mut max: usize = 0;
        let mut cnf_var: Option<CNFVar> = None;
        let mut i: usize = 0;
        while i < variables.len()
            invariant
                i <= variables@.len(),
                tables_wf(variables@, clauses@),
                (max as nat, cnf_var) == dlis_scan(variables@, clauses@, i as int),
                choice_ok(variables@, i as int, cnf_var),
            decreases variables@.len() - i,
        {
            if variables[i].value == VarValue::Free {
                let pos = count_number_of_clauses(&variables[i].pos_occ, clauses);
                let neg = count_number_of_clauses(&variables[i].neg_occ, clauses);
                let (sign, local_max) = if pos > neg { (true, pos) } else { (false, neg) };
                if local_max > max {
                    max = local_max;
                    cnf_var = Some(CNFVar::new(i, sign));
                }
            }
            i += 1;
        }
        proof {
            lemma_dlis_scan_chooses(variables@, clauses@, i as int);
            if cnf_var is None {
                lemma_dlis_none(variables@, clauses@, i as int);
                assert(clauses@.len() == clauses.len());
                lemma_unset_only_satisfied(variables@, clauses@);
            }
        }
        cnf_var
    }
}

/// Dynamic Largest Combined Sum (DLCS): the variable that appears in the
/// most clauses not yet satisfied, set to its more frequent polarity.
pub struct DLCS;

impl BranchingStrategy for DLCS {
    fn pick_branching_variable(&self, variables: &Variables, clauses: &Clauses) -> (r: Option<CNFVar>)
        ensures
            r == dlcs_scan(variables@, clauses@, variables@.len() as int).1,
            dlcs_choice(variables@, clauses@, variables@.len() as int, r),
    {
        let mut max: u128 = 0;
        let mut cnf_var: Option<CNFVar> = None;
        let mut i: usize = 0;
        while i < variables.len()
            invariant
                i <= variables@.len(),
                tables_wf(variables@, clauses@),
                (max as nat, cnf_var) == dlcs_scan(variables@, clauses@, i as int),
                choice_ok(variables@, i as int, cnf_var),
            decreases variables@.len() - i,
        {
            if variables[i].value == VarValue::Free {
                let pos = count_number_of_clauses(&variables[i].pos_occ, clauses);
                let neg = count_number_of_clauses(&variables[i].neg_occ, clauses);
                let h = pos as u128 + neg as u128;
                if h > max {
                    max = h;
                    cnf_var = Some(CNFVar::new(i, pos > neg));
                }
            }
            i += 1;
        }
        proof {
            lemma_dlcs_scan_chooses(variables@, clauses@, i as int);
            if cnf_var is None {
                lemma_dlcs_none(variables@, clauses@, i as int);
                assert(clauses@.len() == clauses.len());
                lemma_unset_only_satisfied(variables@, clauses@);
            }
        }
        cnf_var
    }
}

/// The width MOM looks at: the least number of active literals of a clause,
/// but at least 2; `None` when there is no clause.
pub open spec fn mom_width(clauses: Seq<Clause>, n: int) -> Option<usize>
    decreases n,
{
    if n <= 0 {
        None
    } else {
        let a = clauses[n - 1].active_lits;
        match mom_width(clauses, n - 1) {
            None => Some(if a < 2 { 2usize } else { a }),
            Some(w) => Some(if a < w { if a < 2 { 2usize } else { a } } else { w }),
        }
    }
}

/// How many clauses among `occ` have exactly `w` active literals.
pub open spec fn width_count(occ: Seq<usize>, clauses: Seq<Clause>, w: usize) -> nat
    decreases occ.len(),
{
    if occ.len() == 0 {
        0
    } else {
        width_count(occ.drop_last(), clauses, w) + if clauses[occ.last() as int].active_lits == w { 1nat } else { 0nat }
    }
}

/// The product, or `usize::MAX` where it does not fit.
pub open spec fn sat_mul(a: usize, b: usize) -> usize {
    if a * b > usize::MAX { usize::MAX } else { (a * b) as usize }
}

/// The sum, or `usize::MAX` where it does not fit.
pub open spec fn sat_add(a: usize, b: usize) -> usize {
    if a + b > usize::MAX { usize::MAX } else { (a + b) as usize }
}

/// The MOM score of a variable with `hp` positive and `hn` negative
/// occurrences in the shortest clauses, among `len` clauses:
/// `(hp + hn) * len² + hp * hn`, saturating at `usize::MAX`. The occurrences
/// count first; the product favours variables that occur with both signs.
pub open spec fn mom_key(hp: usize, hn: usize, len: usize) -> usize {
    sat_add(sat_mul(sat_add(hp, hn), sat_mul(len, len)), sat_mul(hp, hn))
}

/// `a * b`, saturating at `usize::MAX`.
fn saturating_product(a: usize, b: usize) -> (r: usize)
    ensures
        r == sat_mul(a, b),
{
    match a.checked_mul(b) {
        Some(x) => x,
        None => usize::MAX,
    }
}

/// `a + b`, saturating at `usize::MAX`.
fn saturating_sum(a: usize, b: usize) -> (r: usize)
    ensures
        r == sat_add(a, b),
{
    match a.checked_add(b) {
        Some(x) => x,
        None => usize::MAX,
    }
}

/// The best (key, variable) among the unset variables of the first `n`;
/// later variables win ties, as `max_by_key` does.
pub open spec fn mom_scan(variables: Seq<Variable>, clauses: Seq<Clause>, w: usize, n: int) -> Option<(usize, usize)>
    decreases n,
{
    if n <= 0 {
        None
    } else {
        let prev = mom_scan(variables, clauses, w, n - 1);
        if variables[n - 1].value == VarValue::Free {
            let hp = width_count(variables[n - 1].pos_occ@, clauses, w);
            let hn = width_count(variables[n - 1].neg_occ@, clauses, w);
            let k = mom_key(hp as usize, hn as usize, clauses.len() as usize);
            match prev {
                None => Some((k, (n - 1) as usize)),
                Some((bk, bi)) => if k >= bk { Some((k, (n - 1) as usize)) } else { prev },
            }
        } else {
            prev
        }
    }
}

/// The width of a clause as MOM counts it: its number of active literals,
/// but at least 2.
pub open spec fn counted_width(c: Clause) -> usize {
    if c.active_lits < 2 { 2 } else { c.active_lits }
}

/// `w` is the width MOM looks at among the first `n` clauses: the least
/// counted width of a clause.
pub open spec fn shortest_width(clauses: Seq<Clause>, n: int, w: usize) -> bool {
    &&& forall|c: int| 0 <= c < n ==> counted_width(#[trigger] clauses[c]) >= w
    &&& exists|c: int| 0 <= c < n && counted_width(#[trigger] clauses[c]) == w
}

/// The MOM score of variable `v` for width `w`: its occurrences, positive
/// and negative, in the clauses of that width, combined by [`mom_key`].
pub open spec fn mom_score(variables: Seq<Variable>, clauses: Seq<Clause>, w: usize, v: int) -> usize {
    mom_key(width_count(variables[v].pos_occ@, clauses, w) as usize,
        width_count(variables[v].neg_occ@, clauses, w) as usize, clauses.len() as usize)
}

/// How often variable `v` occurs, with either sign, in the clauses of width `w`.
pub open spec fn width_occurrences(variables: Seq<Variable>, clauses: Seq<Clause>, w: usize, v: int) -> nat {
    width_count(variables[v].pos_occ@, clauses, w) + width_count(variables[v].neg_occ@, clauses, w)
}

/// The MOM choice: `Some(l)` is an unset variable, set positively, whose
/// score for the shortest width is the highest among the unset variables,
/// and the last such one; `None` when there is no clause or no unset variable.
pub open spec fn mom_choice(variables: Seq<Variable>, clauses: Seq<Clause>, r: Option<CNFVar>) -> bool {
    let n = variables.len() as int;
    match r {
        Some(l) => {
            &&& l.sign
            &&& 0 <= l.id < n
            &&& variables[l.id as int].value == VarValue::Free
            &&& forall|w: usize| #[trigger] shortest_width(clauses, clauses.len() as int, w) ==> {
                &&& forall|v: int| 0 <= v < n && variables[v].value == VarValue::Free
                    ==> #[trigger] mom_score(variables, clauses, w, v) <= mom_score(variables, clauses, w, l.id as int)
                &&& forall|v: int| l.id < v < n && variables[v].value == VarValue::Free
                    ==> #[trigger] mom_score(variables, clauses, w, v) < mom_score(variables, clauses, w, l.id as int)
            }
        },
        None => clauses.len() == 0 || forall|v: int| 0 <= v < n ==> (#[trigger] variables[v]).value != VarValue::Free,
    }
}

/// The width MOM computes is the shortest width.
pub proof fn lemma_mom_width_shortest(clauses: Seq<Clause>, n: int)
    requires
        0 <= n <= clauses.len(),
    ensures
        n > 0 <==> mom_width(clauses, n) is Some,
        mom_width(clauses, n) matches Some(w) ==> shortest_width(clauses, n, w),
    decreases n,
{
    if n > 0 {
        lemma_mom_width_shortest(clauses, n - 1);
        let w = mom_width(clauses, n).unwrap();
        let a = clauses[n - 1].active_lits;
        if n - 1 > 0 {
            let w0 = mom_width(clauses, n - 1).unwrap();
            let c0 = choose|c: int| 0 <= c < n - 1 && counted_width(#[trigger] clauses[c]) == w0;
            if a < w0 {
                assert(counted_width(clauses[n - 1]) == w);
            } else {
                assert(counted_width(clauses[c0]) == w);
            }
        } else {
            assert(counted_width(clauses[n - 1]) == w);
        }
    }
}

/// The shortest width is unique.
pub proof fn lemma_shortest_width_unique(clauses: Seq<Clause>, n: int, w1: usize, w2: usize)
    requires
        shortest_width(clauses, n, w1),
        shortest_width(clauses, n, w2),
    ensures
        w1 == w2,
{
    let c1 = choose|c: int| 0 <= c < n && counted_width(#[trigger] clauses[c]) == w1;
    let c2 = choose|c: int| 0 <= c < n && counted_width(#[trigger] clauses[c]) == w2;
    assert(counted_width(clauses[c1]) >= w2);
    assert(counted_width(clauses[c2]) >= w1);
}

/// The MOM scan keeps the unset variable of the highest score, the last
/// one on a tie.
pub proof fn lemma_mom_scan_best(variables: Seq<Variable>, clauses: Seq<Clause>, w: usize, n: int)
    requires
        0 <= n <= variables.len(),
        variables.len() <= usize::MAX,
    ensures
        mom_scan(variables, clauses, w, n) matches Some((k, i)) ==> {
            &&& i < n
            &&& variables[i as int].value == VarValue::Free
            &&& k == mom_score(variables, clauses, w, i as int)
            &&& forall|v: int| 0 <= v < n && variables[v].value == VarValue::Free
                ==> #[trigger] mom_score(variables, clauses, w, v) <= k
            &&& forall|v: int| i < v < n && variables[v].value == VarValue::Free
                ==> #[trigger] mom_score(variables, clauses, w, v) < k
        },
    decreases n,
{
    if n > 0 {
        lemma_mom_scan_best(variables, clauses, w, n - 1);
        let prev = mom_scan(variables, clauses, w, n - 1);
        if prev is None {
            lemma_mom_none(variables, clauses, w, n - 1);
        }
        let last = n - 1;
        if variables[last].value == VarValue::Free {
            let hp = width_count(variables[last].pos_occ@, clauses, w);
            let hn = width_count(variables[last].neg_occ@, clauses, w);
            assert(mom_key(hp as usize, hn as usize, clauses.len() as usize) == mom_score(variables, clauses, w, last));
        }
        if let Some((k, i)) = mom_scan(variables, clauses, w, n) {
            assert forall|v: int| 0 <= v < n && variables[v].value == VarValue::Free
                implies #[trigger] mom_score(variables, clauses, w, v) <= k by {
                if v < n - 1 {
                    assert(prev is Some);
                }
            }
            assert forall|v: int| i < v < n && variables[v].value == VarValue::Free
                implies #[trigger] mom_score(variables, clauses, w, v) < k by {
                if v < n - 1 {
                    assert(prev is Some);
                } else {
                    assert(v == last);
                    assert(i != last);
                    assert(prev == Some((k, i)));
                    assert(!(mom_score(variables, clauses, w, last) >= k));
                }
            }
        }
    }
}

/// A width count is at most the length of the list it counts in.
pub proof fn lemma_width_count_bound(occ: Seq<usize>, clauses: Seq<Clause>, w: usize)
    ensures
        width_count(occ, clauses, w) <= occ.len(),
    decreases occ.len(),
{
    if occ.len() > 0 {
        lemma_width_count_bound(occ.drop_last(), clauses, w);
    }
}

/// A list of distinct indices below `m` has at most `m` entries.
pub proof fn lemma_distinct_below(occ: Seq<usize>, m: nat)
    requires
        occ.no_duplicates(),
        forall|k: int| 0 <= k < occ.len() ==> #[trigger] occ[k] < m,
    ensures
        occ.len() <= m,
{
    occ.unique_seq_to_set();
    assert forall|e: usize| #[trigger] occ.to_set().contains(e) implies e < m by {
        let k = choose|k: int| 0 <= k < occ.len() && occ[k] == e;
    }
    crate::cdcl::learning_schemes::lemma_bounded_set_len(occ.to_set(), m);
}

/// Where the scores cannot saturate, a variable with more occurrences in
/// the clauses of the width scores higher: the occurrences count first.
pub proof fn lemma_mom_key_orders_occurrences(hp1: usize, hn1: usize, hp2: usize, hn2: usize, len: usize)
    requires
        hp1 <= len && hn1 <= len && hp2 <= len && hn2 <= len,
        hp1 + hn1 > hp2 + hn2,
        2 * len * len * len + len * len <= usize::MAX,
    ensures
        mom_key(hp1, hn1, len) > mom_key(hp2, hn2, len),
{
    let l = len as int;
    let s1 = hp1 + hn1;
    let s2 = hp2 + hn2;
    assert(l * l <= 2 * l * l * l + l * l) by (nonlinear_arith)
        requires l >= 0;
    assert(2 * l <= 2 * l * l * l + l * l) by (nonlinear_arith)
        requires l >= 0;
    assert(sat_mul(len, len) == l * l);
    assert(sat_add(hp1, hn1) == s1 && sat_add(hp2, hn2) == s2);
    assert(s1 * (l * l) <= 2 * l * l * l) by (nonlinear_arith)
        requires s1 <= 2 * l, l >= 0;
    assert(s2 * (l * l) <= 2 * l * l * l) by (nonlinear_arith)
        requires s2 <= 2 * l, l >= 0;
    assert(hp1 * hn1 <= l * l) by (nonlinear_arith)
        requires 0 <= hp1 <= l, 0 <= hn1 <= l;
    assert(hp2 * hn2 < l * l) by (nonlinear_arith)
        requires 0 <= hp2 <= l, 0 <= hn2 <= l, hp2 + hn2 < 2 * l;
    assert(s1 * (l * l) >= s2 * (l * l) + l * l) by (nonlinear_arith)
        requires s1 >= s2 + 1, l >= 0;
    assert(s1 * (l * l) >= 0 && s2 * (l * l) >= 0 && hp1 * hn1 >= 0 && hp2 * hn2 >= 0) by (nonlinear_arith)
        requires s1 >= 0, s2 >= 0, l >= 0, hp1 >= 0, hn1 >= 0, hp2 >= 0, hn2 >= 0;
    assert(sat_mul(sat_add(hp1, hn1), sat_mul(len, len)) == s1 * (l * l));
    assert(sat_mul(sat_add(hp2, hn2), sat_mul(len, len)) == s2 * (l * l));
    assert(sat_mul(hp1, hn1) == hp1 * hn1);
    assert(sat_mul(hp2, hn2) == hp2 * hn2);
}

/// Where the scores cannot saturate and no occurrence list repeats a
/// clause, a variable of the highest score has the most occurrences, of
/// either sign, in the clauses of the width.
pub proof fn lemma_mom_most_occurrences(variables: Seq<Variable>, clauses: Seq<Clause>, w: usize, l: int, v: int)
    requires
        tables_wf(variables, clauses),
        no_repeats(variables, clauses),
        clauses.len() <= usize::MAX,
        2 * clauses.len() * clauses.len() * clauses.len() + clauses.len() * clauses.len() <= usize::MAX,
        0 <= l < variables.len(),
        0 <= v < variables.len(),
        mom_score(variables, clauses, w, v) <= mom_score(variables, clauses, w, l),
    ensures
        width_occurrences(variables, clauses, w, v) <= width_occurrences(variables, clauses, w, l),
{
    let len = clauses.len();
    assert forall|x: int| 0 <= x < variables.len() implies width_count(#[trigger] variables[x].pos_occ@, clauses, w) <= len
        && width_count(variables[x].neg_occ@, clauses, w) <= len by {
        assert(variables[x].pos_occ@.no_duplicates() && variables[x].neg_occ@.no_duplicates());
        assert forall|k: int| 0 <= k < variables[x].pos_occ@.len() implies #[trigger] variables[x].pos_occ@[k] < len by {}
        assert forall|k: int| 0 <= k < variables[x].neg_occ@.len() implies #[trigger] variables[x].neg_occ@[k] < len by {}
        lemma_distinct_below(variables[x].pos_occ@, len);
        lemma_distinct_below(variables[x].neg_occ@, len);
        lemma_width_count_bound(variables[x].pos_occ@, clauses, w);
        lemma_width_count_bound(variables[x].neg_occ@, clauses, w);
    }
    let hpv = width_count(variables[v].pos_occ@, clauses, w);
    let hnv = width_count(variables[v].neg_occ@, clauses, w);
    let hpl = width_count(variables[l].pos_occ@, clauses, w);
    let hnl = width_count(variables[l].neg_occ@, clauses, w);
    if hpv + hnv > hpl + hnl {
        lemma_mom_key_orders_occurrences(hpv as usize, hnv as usize, hpl as usize, hnl as usize, len as usize);
    }
}

/// Where DLIS chooses nothing among the first `n` variables, every unset
/// one occurs in no unsatisfied clause.
pub proof fn lemma_dlis_none(variables: Seq<Variable>, clauses: Seq<Clause>, n: int)
    requires
        dlis_scan(variables, clauses, n).1 is None,
    ensures
        dlis_scan(variables, clauses, n).0 == 0,
        forall|v: int| 0 <= v < n && (#[trigger] variables[v]).value == VarValue::Free
            ==> unsatisfied_count(variables[v].pos_occ@, clauses) == 0 && unsatisfied_count(variables[v].neg_occ@, clauses) == 0,
    decreases n,
{
    if n > 0 {
        lemma_dlis_none(variables, clauses, n - 1);
    }
}

/// Where DLCS chooses nothing among the first `n` variables, every unset
/// one occurs in no unsatisfied clause.
pub proof fn lemma_dlcs_none(variables: Seq<Variable>, clauses: Seq<Clause>, n: int)
    requires
        dlcs_scan(variables, clauses, n).1 is None,
    ensures
        dlcs_scan(variables, clauses, n).0 == 0,
        forall|v: int| 0 <= v < n && (#[trigger] variables[v]).value == VarValue::Free
            ==> unsatisfied_count(variables[v].pos_occ@, clauses) == 0 && unsatisfied_count(variables[v].neg_occ@, clauses) == 0,
    decreases n,
{
    if n > 0 {
        lemma_dlcs_none(variables, clauses, n - 1);
    }
}

/// Where MOM scores nothing among the first `n` variables, none of them is unset.
pub proof fn lemma_mom_none(variables: Seq<Variable>, clauses: Seq<Clause>, w: usize, n: int)
    requires
        mom_scan(variables, clauses, w, n) is None,
    ensures
        forall|v: int| 0 <= v < n ==> (#[trigger] variables[v]).value != VarValue::Free,
    decreases n,
{
    if n > 0 {
        lemma_mom_none(variables, clauses, w, n - 1);
    }
}

/// Counts the clauses among `occ` with exactly `w` active literals.
fn count_width(occ: &Vec<usize>, clauses: &Clauses, w: usize) -> (r: usize)
    requires
        forall|k: int| 0 <= k < occ@.len() ==> #[trigger] occ@[k] < clauses@.len(),
    ensures
        r == width_count(occ@, clauses@, w),
{
    let mut n: usize = 0;
    let mut k: usize = 0;
    while k < occ.len()
        invariant
            k <= occ@.len(),
            forall|j: int| 0 <= j < occ@.len() ==> #[trigger] occ@[j] < clauses@.len(),
            n == width_count(occ@.take(k as int), clauses@, w),
            n <= k,
        decreases occ@.len() - k,
    {
        assert(occ@.take(k + 1).drop_last() =~= occ@.take(k as int));
        if clauses[occ[k]].active_lits == w {
            n += 1;
        }
        k += 1;
    }
    assert(occ@.take(k as int) =~= occ@);
    n
}

/// Maximum number of Occurrences in the Minimum length clauses (MOM): the
/// unset variable that appears most in the shortest clauses, positively.
pub struct MOM;

impl BranchingStrategy for MOM {
    fn pick_branching_variable(&self, variables: &Variables, clauses: &Clauses) -> (r: Option<CNFVar>)
        ensures
            r == match mom_width(clauses@, clauses@.len() as int) {
                None => None,
                Some(w) => match mom_scan(variables@, clauses@, w, variables@.len() as int) {
                    None => None,
                    Some((k, i)) => Some(CNFVar { id: i, sign: true }),
                },
            },
            mom_choice(variables@, clauses@, r),
            r matches Some(l) ==> forall|w: usize| #[trigger] shortest_width(clauses@, clauses@.len() as int, w)
                && no_repeats(variables@, clauses@)
                && 2 * clauses@.len() * clauses@.len() * clauses@.len() + clauses@.len() * clauses@.len() <= usize::MAX
                ==> forall|v: int| 0 <= v < variables@.len() && variables@[v].value == VarValue::Free
                    ==> #[trigger] width_occurrences(variables@, clauses@, w, v)
                        <= width_occurrences(variables@, clauses@, w, l.id as int),
    {
        if clauses.len() == 0 {
            return None;
        }
        assert(clauses@.len() > 0);
        let mut w: usize = 0;
        let mut c: usize = 0;
        while c < clauses.len()
            invariant
                c <= clauses@.len(),
                c > 0 ==> mom_width(clauses@, c as int) == Some(w),
            decreases clauses@.len() - c,
        {
            let a = clauses[c].active_lits;
            let a2 = if a < 2 { 2 } else { a };
            if c == 0 || a < w {
                w = a2;
            }
            c += 1;
        }
        let mut best: Option<(usize, usize)> = None;
        let mut i: usize = 0;
        while i < variables.len()
            invariant
                i <= variables@.len(),
                tables_wf(variables@, clauses@),
                mom_width(clauses@, clauses@.len() as int) == Some(w),
                best == mom_scan(variables@, clauses@, w, i as int),
                best matches Some((k, b)) ==> b < i && variables@[b as int].value == VarValue::Free,
            decreases variables@.len() - i,
        {
            if variables[i].value == VarValue::Free {
                let hp = count_width(&variables[i].pos_occ, clauses, w);
                let hn = count_width(&variables[i].neg_occ, clauses, w);
                let len = clauses.len();
                let k = saturating_sum(saturating_product(saturating_sum(hp, hn), saturating_product(len, len)),
                    saturating_product(hp, hn));
                match best {
                    None => { best = Some((k, i)); },
                    Some((bk, _)) => {
                        if k >= bk {
                            best = Some((k, i));
                        }
                    },
                }
            }
            i += 1;
        }
        proof {
            if best is None {
                lemma_mom_none(variables@, clauses@, w, i as int);
                lemma_all_set(variables@, clauses@);
            }
            let cs = clauses@;
            let vs = variables@;
            lemma_mom_width_shortest(cs, cs.len() as int);
            lemma_mom_scan_best(vs, cs, w, vs.len() as int);
            if let Some((k, b)) = best {
                assert forall|w2: usize| #[trigger] shortest_width(cs, cs.len() as int, w2) implies w2 == w by {
                    lemma_shortest_width_unique(cs, cs.len() as int, w, w2);
                }
                assert forall|w2: usize| #[trigger] shortest_width(cs, cs.len() as int, w2)
                    && no_repeats(vs, cs)
                    && 2 * cs.len() * cs.len() * cs.len() + cs.len() * cs.len() <= usize::MAX
                    implies forall|v: int| 0 <= v < vs.len() && vs[v].value == VarValue::Free
                        ==> #[trigger] width_occurrences(vs, cs, w2, v) <= width_occurrences(vs, cs, w2, b as int) by {
                    assert(w2 == w);
                    assert forall|v: int| 0 <= v < vs.len() && vs[v].value == VarValue::Free
                        implies #[trigger] width_occurrences(vs, cs, w2, v) <= width_occurrences(vs, cs, w2, b as int) by {
                        assert(mom_score(vs, cs, w, v) <= k);
                        lemma_mom_most_occurrences(vs, cs, w, b as int, v);
                    }
                }
            }
        }
        match best {
            None => None,
            Some((_, b)) => Some(CNFVar::pos(b)),
        }
    }
}

} // verus!
