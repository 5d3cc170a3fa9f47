//! What the DPLL search keeps true of its state: the counters of the
//! clauses follow the values of the variables, the assignment stack records
//! every value, and every branching decision was taken in a state without
//! unit or empty clauses. The facts about counting literals live here too.
use vstd::prelude::*;
use crate::cnf::CNFVar;
use crate::dpll::{tables_wf, AssignmentType, Clause, PrevAssignment, VarValue, Variable};

verus! {

/// The value that makes a literal of this sign true.
pub open spec fn value_of_sign(sign: bool) -> VarValue {
    if sign { VarValue::Pos } else { VarValue::Neg }
}

/// The literal is true under the values of the variables.
pub open spec fn lit_true(vs: Seq<Variable>, l: CNFVar) -> bool {
    vs[l.id as int].value == value_of_sign(l.sign)
}

/// The literal is false under the values of the variables.
pub open spec fn lit_false(vs: Seq<Variable>, l: CNFVar) -> bool {
    vs[l.id as int].value == value_of_sign(!l.sign)
}

/// The variable of the literal has no value yet.
pub open spec fn lit_free(vs: Seq<Variable>, l: CNFVar) -> bool {
    vs[l.id as int].value == VarValue::Free
}

/// How many of the literals are not false.
pub open spec fn nonfalse(vs: Seq<Variable>, lits: Seq<CNFVar>) -> nat
    decreases lits.len(),
{
    if lits.len() == 0 {
        0
    } else {
        nonfalse(vs, lits.drop_last()) + if lit_false(vs, lits.last()) { 0nat } else { 1nat }
    }
}

/// Some literal is true.
pub open spec fn has_true(vs: Seq<Variable>, lits: Seq<CNFVar>) -> bool {
    exists|i: int| 0 <= i < lits.len() && lit_true(vs, #[trigger] lits[i])
}

/// The clause is not true and has exactly one literal that is not false.
pub open spec fn unit(vs: Seq<Variable>, lits: Seq<CNFVar>) -> bool {
    !has_true(vs, lits) && nonfalse(vs, lits) == 1
}

/// The clause is not true and all of its literals are false.
pub open spec fn dead(vs: Seq<Variable>, lits: Seq<CNFVar>) -> bool {
    !has_true(vs, lits) && nonfalse(vs, lits) == 0
}

/// The literal was set by an entry of the stack.
pub open spec fn st_true(st: Seq<PrevAssignment>, l: CNFVar) -> bool {
    exists|j: int| 0 <= j < st.len() && (#[trigger] st[j]).literal == l
}

/// How many of the literals the stack does not make false.
pub open spec fn st_nonfalse(st: Seq<PrevAssignment>, lits: Seq<CNFVar>) -> nat
    decreases lits.len(),
{
    if lits.len() == 0 {
        0
    } else {
        st_nonfalse(st, lits.drop_last()) + if st_true(st, lits.last().flipped()) { 0nat } else { 1nat }
    }
}

/// The stack makes some literal true.
pub open spec fn st_has_true(st: Seq<PrevAssignment>, lits: Seq<CNFVar>) -> bool {
    exists|i: int| 0 <= i < lits.len() && st_true(st, #[trigger] lits[i])
}

/// Under the first `k` entries of the stack, no clause is unit, and, where
/// no clause is empty, none has all of its literals false.
pub open spec fn closed_at(st: Seq<PrevAssignment>, k: int, cs: Seq<Clause>) -> bool {
    forall|c: int| 0 <= c < cs.len() && !st_has_true(st.take(k), #[trigger] cs[c].literals@)
        ==> st_nonfalse(st.take(k), cs[c].literals@) != 1
            && (no_empty(cs) ==> st_nonfalse(st.take(k), cs[c].literals@) != 0)
}

/// No clause is unit, and, where no clause is empty, none is dead.
pub open spec fn settled(vs: Seq<Variable>, cs: Seq<Clause>) -> bool {
    &&& closed(vs, cs)
    &&& no_empty(cs) ==> no_dead(vs, cs)
}

/// Every branching decision of the stack was taken in a settled state.
pub open spec fn branch_closed(st: Seq<PrevAssignment>, cs: Seq<Clause>) -> bool {
    forall|k: int| 0 <= k < st.len() && (#[trigger] st[k]).assignment_type == AssignmentType::Branching
        ==> closed_at(st, k, cs)
}

/// No clause is unit.
pub open spec fn closed(vs: Seq<Variable>, cs: Seq<Clause>) -> bool {
    forall|c: int| 0 <= c < cs.len() ==> !unit(vs, #[trigger] cs[c].literals@)
}

/// Every clause has a true literal.
pub open spec fn all_true(vs: Seq<Variable>, cs: Seq<Clause>) -> bool {
    forall|c: int| 0 <= c < cs.len() ==> has_true(vs, #[trigger] cs[c].literals@)
}

/// No clause is dead.
pub open spec fn no_dead(vs: Seq<Variable>, cs: Seq<Clause>) -> bool {
    forall|c: int| 0 <= c < cs.len() ==> !dead(vs, #[trigger] cs[c].literals@)
}

/// No clause is empty.
pub open spec fn no_empty(cs: Seq<Clause>) -> bool {
    forall|c: int| 0 <= c < cs.len() ==> (#[trigger] cs[c].literals@).len() > 0
}

/// The occurrence lists name exactly the clauses with each literal.
pub open spec fn occ_exact(vs: Seq<Variable>, cs: Seq<Clause>) -> bool {
    &&& forall|v: int, c: int| 0 <= v < vs.len() && 0 <= c < cs.len()
        ==> (#[trigger] vs[v].pos_occ@.contains(c as usize) <==> cs[c].literals@.contains(CNFVar { id: v as usize, sign: true }))
    &&& forall|v: int, c: int| 0 <= v < vs.len() && 0 <= c < cs.len()
        ==> (#[trigger] vs[v].neg_occ@.contains(c as usize) <==> cs[c].literals@.contains(CNFVar { id: v as usize, sign: false }))
}

/// No occurrence list and no clause names anything twice.
pub open spec fn no_repeats(vs: Seq<Variable>, cs: Seq<Clause>) -> bool {
    &&& forall|v: int| 0 <= v < vs.len() ==> (#[trigger] vs[v]).pos_occ@.no_duplicates() && vs[v].neg_occ@.no_duplicates()
    &&& forall|c: int| 0 <= c < cs.len() ==> (#[trigger] cs[c]).literals@.no_duplicates()
}

/// Every entry of the stack holds the value of its variable, no variable
/// has two entries, and every variable of a clause that has a value has an entry.
pub open spec fn stack_ok(vs: Seq<Variable>, cs: Seq<Clause>, st: Seq<PrevAssignment>) -> bool {
    &&& forall|j: int| 0 <= j < st.len() ==> (#[trigger] st[j]).literal.id < vs.len()
        && vs[st[j].literal.id as int].value == value_of_sign(st[j].literal.sign)
    &&& forall|j: int, k: int| 0 <= j < st.len() && 0 <= k < st.len() && j != k
        ==> (#[trigger] st[j]).literal.id != (#[trigger] st[k]).literal.id
    &&& forall|c: int, i: int| 0 <= c < cs.len() && 0 <= i < cs[c].literals@.len()
        && !lit_free(vs, #[trigger] cs[c].literals@[i])
        ==> exists|j: int| 0 <= j < st.len() && (#[trigger] st[j]).literal.id == cs[c].literals@[i].id
}

/// The number of active literals of each clause is the number of its literals that are not false.
pub open spec fn counts_ok(vs: Seq<Variable>, cs: Seq<Clause>) -> bool {
    forall|c: int| 0 <= c < cs.len() ==> (#[trigger] cs[c]).active_lits == nonfalse(vs, cs[c].literals@)
}

/// A clause marked satisfied by a variable has a true literal of that variable.
pub open spec fn sat_ok(vs: Seq<Variable>, cs: Seq<Clause>) -> bool {
    forall|c: int| 0 <= c < cs.len() && (#[trigger] cs[c]).satisfied is Some ==>
        exists|i: int| 0 <= i < cs[c].literals@.len() && (#[trigger] cs[c].literals@[i]).id == cs[c].satisfied->0
            && lit_true(vs, cs[c].literals@[i])
}

/// The literals waiting for propagation are distinct, unset, and each is
/// the last literal of a unit clause.
pub open spec fn queue_ok(vs: Seq<Variable>, cs: Seq<Clause>, q: Seq<CNFVar>) -> bool {
    &&& q.no_duplicates()
    &&& forall|k: int| 0 <= k < q.len() ==> (#[trigger] q[k]).id < vs.len() && lit_free(vs, q[k])
        && exists|c: int| 0 <= c < cs.len() && cs[c].literals@.contains(q[k]) && #[trigger] unit(vs, cs[c].literals@)
}

/// Every unit clause has a literal waiting for propagation.
pub open spec fn units_queued(vs: Seq<Variable>, cs: Seq<Clause>, q: Seq<CNFVar>) -> bool {
    forall|c: int| 0 <= c < cs.len() && unit(vs, #[trigger] cs[c].literals@)
        ==> exists|k: int| 0 <= k < q.len() && cs[c].literals@.contains(#[trigger] q[k])
}

/// The occurrence lists and the literals are the same in both states.
pub open spec fn same_tables(vs0: Seq<Variable>, cs0: Seq<Clause>, vs1: Seq<Variable>, cs1: Seq<Clause>) -> bool {
    &&& vs1.len() == vs0.len()
    &&& cs1.len() == cs0.len()
    &&& forall|v: int| 0 <= v < vs0.len() ==> (#[trigger] vs1[v]).pos_occ == vs0[v].pos_occ && vs1[v].neg_occ == vs0[v].neg_occ
    &&& forall|c: int| 0 <= c < cs0.len() ==> (#[trigger] cs1[c]).literals == cs0[c].literals
}

/// Having the same tables is transitive.
pub proof fn lemma_same_tables_trans(vs0: Seq<Variable>, cs0: Seq<Clause>, vs1: Seq<Variable>, cs1: Seq<Clause>,
    vs2: Seq<Variable>, cs2: Seq<Clause>)
    requires
        same_tables(vs0, cs0, vs1, cs1),
        same_tables(vs1, cs1, vs2, cs2),
    ensures
        same_tables(vs0, cs0, vs2, cs2),
{
    assert forall|v: int| 0 <= v < vs0.len() implies (#[trigger] vs2[v]).pos_occ == vs0[v].pos_occ && vs2[v].neg_occ == vs0[v].neg_occ by {
        assert(vs1[v].pos_occ == vs0[v].pos_occ);
    }
    assert forall|c: int| 0 <= c < cs0.len() implies (#[trigger] cs2[c]).literals == cs0[c].literals by {
        assert(cs1[c].literals == cs0[c].literals);
    }
}

/// What depends on the tables alone holds in both of two states with the same tables.
pub proof fn lemma_same_tables(vs0: Seq<Variable>, cs0: Seq<Clause>, vs1: Seq<Variable>, cs1: Seq<Clause>, st: Seq<PrevAssignment>)
    requires
        same_tables(vs0, cs0, vs1, cs1),
    ensures
        tables_wf(vs0, cs0) == tables_wf(vs1, cs1),
        occ_exact(vs0, cs0) == occ_exact(vs1, cs1),
        no_repeats(vs0, cs0) == no_repeats(vs1, cs1),
        no_empty(cs0) == no_empty(cs1),
        branch_closed(st, cs0) == branch_closed(st, cs1),
        stack_ok(vs1, cs0, st) == stack_ok(vs1, cs1, st),
        lits_ok(vs0, cs0) == lits_ok(vs1, cs1),
        settled(vs1, cs0) == settled(vs1, cs1),
        closed(vs1, cs0) == closed(vs1, cs1),
        no_dead(vs1, cs0) == no_dead(vs1, cs1),
{
    if closed(vs1, cs0) {
        assert forall|c: int| 0 <= c < cs1.len() implies !unit(vs1, #[trigger] cs1[c].literals@) by {
            assert(cs1[c].literals == cs0[c].literals);
        }
    }
    if closed(vs1, cs1) {
        assert forall|c: int| 0 <= c < cs0.len() implies !unit(vs1, #[trigger] cs0[c].literals@) by {
            assert(cs1[c].literals == cs0[c].literals);
        }
    }
    if no_dead(vs1, cs0) {
        assert forall|c: int| 0 <= c < cs1.len() implies !dead(vs1, #[trigger] cs1[c].literals@) by {
            assert(cs1[c].literals == cs0[c].literals);
        }
    }
    if no_dead(vs1, cs1) {
        assert forall|c: int| 0 <= c < cs0.len() implies !dead(vs1, #[trigger] cs0[c].literals@) by {
            assert(cs1[c].literals == cs0[c].literals);
        }
    }
    assert forall|c: int| 0 <= c < cs0.len() implies (#[trigger] cs1[c]).literals@ == cs0[c].literals@ by {}
    assert forall|v: int| 0 <= v < vs0.len() implies (#[trigger] vs1[v]).pos_occ@ == vs0[v].pos_occ@
        && vs1[v].neg_occ@ == vs0[v].neg_occ@ by {}
    if no_empty(cs0) {
        assert forall|c: int| 0 <= c < cs1.len() implies (#[trigger] cs1[c].literals@).len() > 0 by {
            assert(cs0[c].literals@.len() > 0);
        }
    }
    if no_empty(cs1) {
        assert forall|c: int| 0 <= c < cs0.len() implies (#[trigger] cs0[c].literals@).len() > 0 by {
            assert(cs1[c].literals@.len() > 0);
        }
    }
    assert forall|k: int| 0 <= k <= st.len() implies closed_at(st, k, cs0) == #[trigger] closed_at(st, k, cs1) by {
        let p = st.take(k);
        if closed_at(st, k, cs0) {
            assert forall|c: int| 0 <= c < cs1.len() && !st_has_true(p, #[trigger] cs1[c].literals@)
                implies st_nonfalse(p, cs1[c].literals@) != 1
                    && (no_empty(cs1) ==> st_nonfalse(p, cs1[c].literals@) != 0) by {
                assert(cs1[c].literals@ == cs0[c].literals@);
            }
        }
        if closed_at(st, k, cs1) {
            assert forall|c: int| 0 <= c < cs0.len() && !st_has_true(p, #[trigger] cs0[c].literals@)
                implies st_nonfalse(p, cs0[c].literals@) != 1
                    && (no_empty(cs0) ==> st_nonfalse(p, cs0[c].literals@) != 0) by {
                assert(cs1[c].literals@ == cs0[c].literals@);
            }
        }
    }
    if occ_exact(vs0, cs0) {
        assert forall|v: int, c: int| 0 <= v < vs1.len() && 0 <= c < cs1.len()
            implies (#[trigger] vs1[v].pos_occ@.contains(c as usize) <==> cs1[c].literals@.contains(CNFVar { id: v as usize, sign: true }))
            by { assert(vs0[v].pos_occ@.contains(c as usize) <==> cs0[c].literals@.contains(CNFVar { id: v as usize, sign: true })); }
        assert forall|v: int, c: int| 0 <= v < vs1.len() && 0 <= c < cs1.len()
            implies (#[trigger] vs1[v].neg_occ@.contains(c as usize) <==> cs1[c].literals@.contains(CNFVar { id: v as usize, sign: false }))
            by { assert(vs0[v].neg_occ@.contains(c as usize) <==> cs0[c].literals@.contains(CNFVar { id: v as usize, sign: false })); }
    }
    if occ_exact(vs1, cs1) {
        assert forall|v: int, c: int| 0 <= v < vs0.len() && 0 <= c < cs0.len()
            implies (#[trigger] vs0[v].pos_occ@.contains(c as usize) <==> cs0[c].literals@.contains(CNFVar { id: v as usize, sign: true }))
            by { assert(vs1[v].pos_occ@.contains(c as usize) <==> cs1[c].literals@.contains(CNFVar { id: v as usize, sign: true })); }
        assert forall|v: int, c: int| 0 <= v < vs0.len() && 0 <= c < cs0.len()
            implies (#[trigger] vs0[v].neg_occ@.contains(c as usize) <==> cs0[c].literals@.contains(CNFVar { id: v as usize, sign: false }))
            by { assert(vs1[v].neg_occ@.contains(c as usize) <==> cs1[c].literals@.contains(CNFVar { id: v as usize, sign: false })); }
    }
    if no_repeats(vs0, cs0) {
        assert forall|v: int| 0 <= v < vs1.len() implies (#[trigger] vs1[v]).pos_occ@.no_duplicates() && vs1[v].neg_occ@.no_duplicates()
            by { assert(vs0[v].pos_occ@.no_duplicates()); }
        assert forall|c: int| 0 <= c < cs1.len() implies (#[trigger] cs1[c]).literals@.no_duplicates()
            by { assert(cs0[c].literals@.no_duplicates()); }
    }
    if no_repeats(vs1, cs1) {
        assert forall|v: int| 0 <= v < vs0.len() implies (#[trigger] vs0[v]).pos_occ@.no_duplicates() && vs0[v].neg_occ@.no_duplicates()
            by { assert(vs1[v].pos_occ@.no_duplicates()); }
        assert forall|c: int| 0 <= c < cs0.len() implies (#[trigger] cs0[c]).literals@.no_duplicates()
            by { assert(cs1[c].literals@.no_duplicates()); }
    }
    if lits_ok(vs0, cs0) {
        assert forall|c: int, i: int| 0 <= c < cs1.len() && 0 <= i < cs1[c].literals@.len()
            implies #[trigger] cs1[c].literals@[i].id < vs1.len() by { assert(cs0[c].literals@[i].id < vs0.len()); }
        assert forall|c: int| 0 <= c < cs1.len() implies (#[trigger] cs1[c]).literals@.no_duplicates()
            by { assert(cs0[c].literals@.no_duplicates()); }
    }
    if lits_ok(vs1, cs1) {
        assert forall|c: int, i: int| 0 <= c < cs0.len() && 0 <= i < cs0[c].literals@.len()
            implies #[trigger] cs0[c].literals@[i].id < vs0.len() by { assert(cs1[c].literals@[i].id < vs1.len()); }
        assert forall|c: int| 0 <= c < cs0.len() implies (#[trigger] cs0[c]).literals@.no_duplicates()
            by { assert(cs1[c].literals@.no_duplicates()); }
    }
    if stack_ok(vs1, cs0, st) {
        assert forall|c: int, i: int| 0 <= c < cs1.len() && 0 <= i < cs1[c].literals@.len()
            && !lit_free(vs1, #[trigger] cs1[c].literals@[i])
            implies exists|j: int| 0 <= j < st.len() && (#[trigger] st[j]).literal.id == cs1[c].literals@[i].id by {
            assert(cs1[c].literals@[i] == cs0[c].literals@[i]);
        }
    }
    if stack_ok(vs1, cs1, st) {
        assert forall|c: int, i: int| 0 <= c < cs0.len() && 0 <= i < cs0[c].literals@.len()
            && !lit_free(vs1, #[trigger] cs0[c].literals@[i])
            implies exists|j: int| 0 <= j < st.len() && (#[trigger] st[j]).literal.id == cs0[c].literals@[i].id by {
            assert(cs1[c].literals@[i] == cs0[c].literals@[i]);
        }
    }
    if tables_wf(vs0, cs0) {
        assert forall|v: int, k: int| 0 <= v < vs1.len() && 0 <= k < vs1[v].pos_occ@.len()
            implies #[trigger] vs1[v].pos_occ@[k] < cs1.len() by { assert(vs0[v].pos_occ@[k] < cs0.len()); }
        assert forall|v: int, k: int| 0 <= v < vs1.len() && 0 <= k < vs1[v].neg_occ@.len()
            implies #[trigger] vs1[v].neg_occ@[k] < cs1.len() by { assert(vs0[v].neg_occ@[k] < cs0.len()); }
        assert forall|c: int, i: int| 0 <= c < cs1.len() && 0 <= i < cs1[c].literals@.len()
            implies #[trigger] cs1[c].literals@[i].id < vs1.len() by { assert(cs0[c].literals@[i].id < vs0.len()); }
    }
    if tables_wf(vs1, cs1) {
        assert forall|v: int, k: int| 0 <= v < vs0.len() && 0 <= k < vs0[v].pos_occ@.len()
            implies #[trigger] vs0[v].pos_occ@[k] < cs0.len() by { assert(vs1[v].pos_occ@[k] < cs1.len()); }
        assert forall|v: int, k: int| 0 <= v < vs0.len() && 0 <= k < vs0[v].neg_occ@.len()
            implies #[trigger] vs0[v].neg_occ@[k] < cs0.len() by { assert(vs1[v].neg_occ@[k] < cs1.len()); }
        assert forall|c: int, i: int| 0 <= c < cs0.len() && 0 <= i < cs0[c].literals@.len()
            implies #[trigger] cs0[c].literals@[i].id < vs0.len() by { assert(cs1[c].literals@[i].id < vs1.len()); }
    }
    if branch_closed(st, cs0) {
        assert forall|k: int| 0 <= k < st.len() && (#[trigger] st[k]).assignment_type == AssignmentType::Branching
            implies closed_at(st, k, cs1) by {
            assert(closed_at(st, k, cs0));
        }
    }
    if branch_closed(st, cs1) {
        assert forall|k: int| 0 <= k < st.len() && (#[trigger] st[k]).assignment_type == AssignmentType::Branching
            implies closed_at(st, k, cs0) by {
            assert(closed_at(st, k, cs1));
        }
    }
}

/// Pushing the entry of a newly set variable keeps the stack recording
/// every value; a branching decision taken where the state is closed keeps
/// every branching decision closed.
pub proof fn lemma_push_entry(vs0: Seq<Variable>, vs1: Seq<Variable>, cs: Seq<Clause>, st0: Seq<PrevAssignment>, e: PrevAssignment)
    requires
        stack_ok(vs0, cs, st0),
        lits_ok(vs0, cs),
        branch_closed(st0, cs),
        e.literal.id < vs0.len(),
        vs1.len() == vs0.len(),
        lit_free(vs0, e.literal),
        vs1[e.literal.id as int].value == value_of_sign(e.literal.sign),
        forall|v: int| 0 <= v < vs0.len() && v != e.literal.id ==> (#[trigger] vs1[v]).value == vs0[v].value,
        e.assignment_type == AssignmentType::Branching ==> settled(vs0, cs),
    ensures
        stack_ok(vs1, cs, st0.push(e)),
        branch_closed(st0.push(e), cs),
{
    let st = st0.push(e);
    let id = e.literal.id;
    assert forall|j: int, k: int| 0 <= j < st.len() && 0 <= k < st.len() && j != k
        implies (#[trigger] st[j]).literal.id != (#[trigger] st[k]).literal.id by {
        if j == st0.len() {
            assert(vs0[st0[k].literal.id as int].value == value_of_sign(st0[k].literal.sign));
        } else if k == st0.len() {
            assert(vs0[st0[j].literal.id as int].value == value_of_sign(st0[j].literal.sign));
        } else {
            assert(st[j] == st0[j] && st[k] == st0[k]);
        }
    }
    assert forall|j: int| 0 <= j < st.len() implies (#[trigger] st[j]).literal.id < vs1.len()
        && vs1[st[j].literal.id as int].value == value_of_sign(st[j].literal.sign) by {
        if j < st0.len() {
            assert(st[j] == st0[j]);
            assert(vs0[st0[j].literal.id as int].value == value_of_sign(st0[j].literal.sign));
        }
    }
    assert forall|c: int, i: int| 0 <= c < cs.len() && 0 <= i < cs[c].literals@.len()
        && !lit_free(vs1, #[trigger] cs[c].literals@[i])
        implies exists|j: int| 0 <= j < st.len() && (#[trigger] st[j]).literal.id == cs[c].literals@[i].id by {
        assert(cs[c].literals@[i].id < vs0.len());
        if cs[c].literals@[i].id == id {
            assert(st[st0.len() as int].literal.id == id);
        } else {
            assert(!lit_free(vs0, cs[c].literals@[i]));
            let j = choose|j: int| 0 <= j < st0.len() && (#[trigger] st0[j]).literal.id == cs[c].literals@[i].id;
            assert(st[j] == st0[j]);
        }
    }
    {
        assert forall|k: int| 0 <= k < st.len() && (#[trigger] st[k]).assignment_type == AssignmentType::Branching
            implies closed_at(st, k, cs) by {
            if k < st0.len() {
                assert(st.take(k) =~= st0.take(k));
                assert(st[k] == st0[k]);
                assert(closed_at(st0, k, cs));
            } else {
                assert(st.take(k) =~= st0);
                assert(st0.take(st0.len() as int) =~= st0);
                lemma_closed_stack(vs0, cs, st0);
            }
        }
    }
}

/// A literal other than `var` waiting for the unit clause `c` still waits,
/// unset, for it after `var` is set without a conflict.
pub proof fn lemma_reason_kept(vs0: Seq<Variable>, cs0: Seq<Clause>, vs: Seq<Variable>, cs: Seq<Clause>,
    var: CNFVar, l: CNFVar, c: int)
    requires
        lits_ok(vs0, cs0),
        0 <= c < cs0.len(),
        cs0[c].literals@.contains(l),
        unit(vs0, cs0[c].literals@),
        lit_free(vs0, l),
        l != var,
        cs.len() == cs0.len(),
        cs[c].literals == cs0[c].literals,
        vs.len() == vs0.len(),
        forall|v: int| 0 <= v < vs0.len() && v != var.id ==> #[trigger] vs[v] == vs0[v],
        set_effect(vs0, vs, cs0, var),
        !cs0[c].literals@.contains(var.flipped()),
        lit_free(vs0, var),
    ensures
        l.id < vs.len(),
        lit_free(vs, l),
        unit(vs, cs[c].literals@),
{
    let lits = cs0[c].literals@;
    let j = choose|j: int| 0 <= j < lits.len() && lits[j] == l;
    assert(lits[j].id < vs0.len());
    if l.id == var.id {
        if l.sign == var.sign {
            assert(l == var);
        } else {
            assert(l == var.flipped());
        }
    }
    if lits.contains(var) {
        let i = choose|i: int| 0 <= i < lits.len() && lits[i] == var;
        assert(i != j);
        assert(!lit_false(vs0, var));
        if i < j { lemma_nonfalse_two(vs0, lits, i, j); } else { lemma_nonfalse_two(vs0, lits, j, i); }
    }
    assert(vs[l.id as int] == vs0[l.id as int]);
}

/// After the first waiting literal `var` is taken from the queue `q0` and
/// set without a conflict, leaving the queue `q`, every waiting literal is
/// still unset with a unit clause, and every unit clause has a waiting literal.
#[verifier::spinoff_prover]
#[verifier::rlimit(80)]
pub proof fn lemma_propagated(vs0: Seq<Variable>, cs0: Seq<Clause>, q0: Seq<CNFVar>,
    vs: Seq<Variable>, cs: Seq<Clause>, q: Seq<CNFVar>, var: CNFVar)
    requires
        queue_ok(vs0, cs0, q0),
        units_queued(vs0, cs0, q0),
        q0.len() > 0,
        var == q0[0],
        lits_ok(vs0, cs0),
        cs.len() == cs0.len(),
        forall|c: int| 0 <= c < cs0.len() ==> (#[trigger] cs[c]).literals == cs0[c].literals,
        vs.len() == vs0.len(),
        forall|v: int| 0 <= v < vs0.len() && v != var.id ==> #[trigger] vs[v] == vs0[v],
        set_effect(vs0, vs, cs0, var),
        q0.len() - 1 <= q.len(),
        q.subrange(0, q0.len() - 1) == q0.subrange(1, q0.len() as int),
        forall|k: int| q0.len() - 1 <= k < q.len() ==> {
            let l = #[trigger] q[k];
            &&& l.id < vs.len()
            &&& lit_free(vs, l)
            &&& !q0.subrange(1, q0.len() as int).contains(l)
            &&& exists|c: int| 0 <= c < cs.len() && cs[c].literals@.contains(l) && #[trigger] unit(vs, cs[c].literals@)
        },
        q0.subrange(1, q0.len() as int).no_duplicates() ==> q.no_duplicates(),
        forall|c: int| 0 <= c < cs0.len() && #[trigger] unit(vs0, cs0[c].literals@)
            ==> !cs0[c].literals@.contains(var.flipped()),
        forall|c: int| 0 <= c < cs0.len() && #[trigger] unit(vs, cs0[c].literals@)
            ==> (unit(vs0, cs0[c].literals@) && !cs0[c].literals@.contains(var) && !cs0[c].literals@.contains(var.flipped()))
            || exists|k: int| 0 <= k < q.len() && cs0[c].literals@.contains(#[trigger] q[k]),
    ensures
        queue_ok(vs, cs, q),
        units_queued(vs, cs, q),
{
    let q1 = q0.subrange(1, q0.len() as int);
    assert forall|k: int| 0 <= k < q1.len() implies #[trigger] q1[k] == q0[k + 1] by {}
    assert forall|k: int| 0 <= k < q1.len() implies #[trigger] q[k] == q1[k] by {
        assert(q.subrange(0, q1.len() as int)[k] == q1[k]);
    }
    assert(q1.no_duplicates()) by {
        assert forall|a: int, b: int| 0 <= a < b < q1.len() implies q1[a] != q1[b] by {
            assert(q1[a] == q0[a + 1] && q1[b] == q0[b + 1]);
        }
    }
    assert forall|k: int| 0 <= k < q.len() implies (#[trigger] q[k]).id < vs.len() && lit_free(vs, q[k])
        && exists|c: int| 0 <= c < cs.len() && cs[c].literals@.contains(q[k]) && #[trigger] unit(vs, cs[c].literals@) by {
        if k < q1.len() {
            let l = q1[k];
            assert(l == q0[k + 1]);
            assert(l != var);
            assert(q[k] == l);
            let c = choose|c: int| 0 <= c < cs0.len() && cs0[c].literals@.contains(l) && #[trigger] unit(vs0, cs0[c].literals@);
            lemma_reason_kept(vs0, cs0, vs, cs, var, l, c);
        } else {
            let l = q[k];
            let c = choose|c: int| 0 <= c < cs.len() && cs[c].literals@.contains(l) && #[trigger] unit(vs, cs[c].literals@);
        }
    }
    assert forall|c: int| 0 <= c < cs.len() && #[trigger] unit(vs, cs[c].literals@)
        implies exists|k: int| 0 <= k < q.len() && cs[c].literals@.contains(#[trigger] q[k]) by {
        assert(cs[c].literals == cs0[c].literals);
        if unit(vs0, cs0[c].literals@) && !cs0[c].literals@.contains(var) && !cs0[c].literals@.contains(var.flipped()) {
            let k = choose|k: int| 0 <= k < q0.len() && cs0[c].literals@.contains(#[trigger] q0[k]);
            assert(k != 0);
            assert(q[k - 1] == q0[k]);
        }
    }
}

/// Taking the last entry off the stack and unsetting its variable keeps the
/// stack recording every value; undoing a branching decision gets back the
/// settled state in which it was taken.
pub proof fn lemma_pop_entry(vs0: Seq<Variable>, vs: Seq<Variable>, cs: Seq<Clause>, st1: Seq<PrevAssignment>, e: PrevAssignment)
    requires
        stack_ok(vs0, cs, st1.push(e)),
        branch_closed(st1.push(e), cs),
        lits_ok(vs0, cs),
        vs.len() == vs0.len(),
        e.literal.id < vs0.len(),
        vs[e.literal.id as int].value == VarValue::Free,
        forall|v: int| 0 <= v < vs0.len() && v != e.literal.id ==> (#[trigger] vs[v]).value == vs0[v].value,
    ensures
        stack_ok(vs, cs, st1),
        branch_closed(st1, cs),
        e.assignment_type == AssignmentType::Branching ==> settled(vs, cs),
{
    let st0 = st1.push(e);
    let id = e.literal.id;
    assert(st0[st0.len() - 1] == e);
    assert forall|j: int| 0 <= j < st1.len() implies (#[trigger] st1[j]).literal.id < vs.len()
        && vs[st1[j].literal.id as int].value == value_of_sign(st1[j].literal.sign) by {
        assert(st1[j] == st0[j]);
        assert(st0[j].literal.id != st0[st0.len() - 1].literal.id);
    }
    assert forall|j: int, k: int| 0 <= j < st1.len() && 0 <= k < st1.len() && j != k
        implies (#[trigger] st1[j]).literal.id != (#[trigger] st1[k]).literal.id by {
        assert(st1[j] == st0[j] && st1[k] == st0[k]);
    }
    assert forall|c: int, i: int| 0 <= c < cs.len() && 0 <= i < cs[c].literals@.len()
        && !lit_free(vs, #[trigger] cs[c].literals@[i])
        implies exists|j: int| 0 <= j < st1.len() && (#[trigger] st1[j]).literal.id == cs[c].literals@[i].id by {
        assert(cs[c].literals@[i].id < vs0.len());
        assert(!lit_free(vs0, cs[c].literals@[i]));
        let j = choose|j: int| 0 <= j < st0.len() && (#[trigger] st0[j]).literal.id == cs[c].literals@[i].id;
        assert(j != st0.len() - 1);
        assert(st1[j] == st0[j]);
    }
    assert forall|k: int| 0 <= k < st1.len() && (#[trigger] st1[k]).assignment_type == AssignmentType::Branching
        implies closed_at(st1, k, cs) by {
        assert(st1[k] == st0[k]);
        assert(st1.take(k) =~= st0.take(k));
        assert(closed_at(st0, k, cs));
    }
    if e.assignment_type == AssignmentType::Branching {
        assert(closed_at(st0, st0.len() - 1, cs));
        assert(st1.take(st1.len() as int) =~= st0.take(st0.len() - 1));
        assert(closed_at(st1, st1.len() as int, cs));
        lemma_closed_stack(vs, cs, st1);
    }
}

/// Where no clause is unit, setting a literal cannot leave a clause with
/// its negation dead.
pub proof fn lemma_no_flip_conflict(vs0: Seq<Variable>, vs: Seq<Variable>, cs: Seq<Clause>, lit: CNFVar)
    requires
        set_effect(vs0, vs, cs, lit),
        closed(vs0, cs),
    ensures
        forall|c: int| 0 <= c < cs.len() && cs[c].literals@.contains(lit.flipped())
            ==> !#[trigger] dead(vs, cs[c].literals@),
{
    assert forall|c: int| 0 <= c < cs.len() && cs[c].literals@.contains(lit.flipped())
        implies !#[trigger] dead(vs, cs[c].literals@) by {
        assert(!unit(vs0, cs[c].literals@));
    }
}

// ---------------------------------------------------------------------------
// Refutation

/// Under `m` (the value of each variable, counted from 0) every clause has a true literal.
pub open spec fn ds_model(m: Seq<bool>, cs: Seq<Clause>) -> bool {
    forall|c: int| 0 <= c < cs.len() ==> true_under(m, #[trigger] cs[c].literals@)
}

/// Under `m` some literal is true.
pub open spec fn true_under(m: Seq<bool>, lits: Seq<CNFVar>) -> bool {
    exists|i: int| 0 <= i < lits.len() && m[(#[trigger] lits[i]).id as int] == lits[i].sign
}

/// `m` agrees with every branching decision of the stack.
pub closed spec fn agrees_decisions(m: Seq<bool>, st: Seq<PrevAssignment>) -> bool {
    forall|b: int| 0 <= b < st.len() && (#[trigger] st[b]).assignment_type == AssignmentType::Branching
        ==> m[st[b].literal.id as int] == st[b].literal.sign
}

/// Every model of `n` variables that agrees with the branching decisions
/// of the stack makes the literal true.
pub closed spec fn forced_ok(st: Seq<PrevAssignment>, cs: Seq<Clause>, n: nat, l: CNFVar) -> bool {
    forall|m: Seq<bool>| m.len() == n && #[trigger] ds_model(m, cs) && agrees_decisions(m, st)
        ==> m[l.id as int] == l.sign
}

/// Every forced entry of the stack is made true by every model of `n`
/// variables that agrees with the branching decisions before it.
pub closed spec fn implied_ok(st: Seq<PrevAssignment>, cs: Seq<Clause>, n: nat) -> bool {
    forall|j: int| 0 <= j < st.len() && (#[trigger] st[j]).assignment_type == AssignmentType::Forced
        ==> forced_ok(st.take(j), cs, n, st[j].literal)
}

/// No model of `n` variables agrees with all branching decisions of the stack.
pub closed spec fn refuted(st: Seq<PrevAssignment>, cs: Seq<Clause>, n: nat) -> bool {
    forall|m: Seq<bool>| m.len() == n && #[trigger] ds_model(m, cs) ==> !agrees_decisions(m, st)
}

/// No valuation of the `n` variables makes every clause true.
pub open spec fn no_model(cs: Seq<Clause>, n: nat) -> bool {
    forall|m: Seq<bool>| m.len() == n ==> !#[trigger] ds_model(m, cs)
}

/// The stack `b` starts with the entries of `a`.
pub open spec fn extends(a: Seq<PrevAssignment>, b: Seq<PrevAssignment>) -> bool {
    a.len() <= b.len() && forall|j: int| 0 <= j < a.len() ==> #[trigger] b[j] == a[j]
}

/// Extending is transitive.
pub proof fn lemma_extends_trans(a: Seq<PrevAssignment>, b: Seq<PrevAssignment>, c: Seq<PrevAssignment>)
    requires
        extends(a, b),
        extends(b, c),
    ensures
        extends(a, c),
{
    assert forall|j: int| 0 <= j < a.len() implies #[trigger] c[j] == a[j] by {
        assert(c[j] == b[j]);
    }
}

/// The stack holds no branching decision.
pub open spec fn no_decisions(st: Seq<PrevAssignment>) -> bool {
    forall|j: int| 0 <= j < st.len() ==> (#[trigger] st[j]).assignment_type == AssignmentType::Forced
}

/// The refutation facts depend on the literals of the clauses alone.
pub proof fn lemma_refutation_tables(cs0: Seq<Clause>, cs1: Seq<Clause>, st: Seq<PrevAssignment>, n: nat, l: CNFVar)
    requires
        cs1.len() == cs0.len(),
        forall|c: int| 0 <= c < cs0.len() ==> (#[trigger] cs1[c]).literals == cs0[c].literals,
    ensures
        implied_ok(st, cs0, n) == implied_ok(st, cs1, n),
        refuted(st, cs0, n) == refuted(st, cs1, n),
        forced_ok(st, cs0, n, l) == forced_ok(st, cs1, n, l),
        forall|m: Seq<bool>| #![trigger ds_model(m, cs0)] #![trigger ds_model(m, cs1)] ds_model(m, cs0) == ds_model(m, cs1),
{
    assert forall|m: Seq<bool>| #![trigger ds_model(m, cs0)] #![trigger ds_model(m, cs1)] ds_model(m, cs0) == ds_model(m, cs1) by {
        if ds_model(m, cs0) {
            assert forall|c: int| 0 <= c < cs1.len() implies true_under(m, #[trigger] cs1[c].literals@) by {
                assert(cs1[c].literals@ == cs0[c].literals@);
                assert(true_under(m, cs0[c].literals@));
            }
        }
        if ds_model(m, cs1) {
            assert forall|c: int| 0 <= c < cs0.len() implies true_under(m, #[trigger] cs0[c].literals@) by {
                assert(cs1[c].literals@ == cs0[c].literals@);
                assert(true_under(m, cs1[c].literals@));
            }
        }
    }
    reveal(forced_ok);
    reveal(implied_ok);
    reveal(refuted);
    assert forall|p: Seq<PrevAssignment>, x: CNFVar| #[trigger] forced_ok(p, cs0, n, x) == forced_ok(p, cs1, n, x) by {
        if forced_ok(p, cs0, n, x) {
            assert forall|m: Seq<bool>| m.len() == n && #[trigger] ds_model(m, cs1) && agrees_decisions(m, p)
                implies m[x.id as int] == x.sign by {
                assert(ds_model(m, cs0));
            }
        }
        if forced_ok(p, cs1, n, x) {
            assert forall|m: Seq<bool>| m.len() == n && #[trigger] ds_model(m, cs0) && agrees_decisions(m, p)
                implies m[x.id as int] == x.sign by {
                assert(ds_model(m, cs1));
            }
        }
    }
    if refuted(st, cs0, n) {
        assert forall|m: Seq<bool>| m.len() == n && #[trigger] ds_model(m, cs1) implies !agrees_decisions(m, st) by {
            assert(ds_model(m, cs0));
        }
    }
    if refuted(st, cs1, n) {
        assert forall|m: Seq<bool>| m.len() == n && #[trigger] ds_model(m, cs0) implies !agrees_decisions(m, st) by {
            assert(ds_model(m, cs1));
        }
    }
    if implied_ok(st, cs0, n) {
        assert forall|j: int| 0 <= j < st.len() && (#[trigger] st[j]).assignment_type == AssignmentType::Forced
            implies forced_ok(st.take(j), cs1, n, st[j].literal) by {
            assert(forced_ok(st.take(j), cs0, n, st[j].literal));
        }
    }
    if implied_ok(st, cs1, n) {
        assert forall|j: int| 0 <= j < st.len() && (#[trigger] st[j]).assignment_type == AssignmentType::Forced
            implies forced_ok(st.take(j), cs0, n, st[j].literal) by {
            assert(forced_ok(st.take(j), cs1, n, st[j].literal));
        }
    }
}

/// The empty stack has nothing to justify.
pub proof fn lemma_implied_empty(cs: Seq<Clause>, n: nat)
    ensures
        implied_ok(Seq::<PrevAssignment>::empty(), cs, n),
{
    reveal(implied_ok);
}

/// Pushing a decision, or a forced literal that every agreeing model makes
/// true, keeps every forced entry justified.
pub proof fn lemma_implied_push(st: Seq<PrevAssignment>, cs: Seq<Clause>, n: nat, e: PrevAssignment)
    requires
        implied_ok(st, cs, n),
        e.assignment_type == AssignmentType::Forced ==> forced_ok(st, cs, n, e.literal),
    ensures
        implied_ok(st.push(e), cs, n),
{
    reveal(implied_ok);
    let st1 = st.push(e);
    assert forall|j: int| 0 <= j < st1.len() && (#[trigger] st1[j]).assignment_type == AssignmentType::Forced
        implies forced_ok(st1.take(j), cs, n, st1[j].literal) by {
        if j < st.len() {
            assert(st1.take(j) =~= st.take(j));
            assert(st1[j] == st[j]);
        } else {
            assert(st1.take(j) =~= st);
        }
    }
}

/// Taking the last entry off keeps the others justified; taking a forced
/// entry off keeps the stack refuted, and taking a decision off a refuted
/// stack justifies its negation.
pub proof fn lemma_implied_pop(st: Seq<PrevAssignment>, cs: Seq<Clause>, n: nat, e: PrevAssignment)
    requires
        implied_ok(st.push(e), cs, n),
    ensures
        implied_ok(st, cs, n),
        refuted(st.push(e), cs, n) && e.assignment_type == AssignmentType::Forced ==> refuted(st, cs, n),
        refuted(st.push(e), cs, n) && e.assignment_type == AssignmentType::Branching
            ==> forced_ok(st, cs, n, e.literal.flipped()),
{
    reveal(implied_ok);
    reveal(refuted);
    reveal(forced_ok);
    reveal(agrees_decisions);
    let st1 = st.push(e);
    assert forall|j: int| 0 <= j < st.len() && (#[trigger] st[j]).assignment_type == AssignmentType::Forced
        implies forced_ok(st.take(j), cs, n, st[j].literal) by {
        assert(st1.take(j) =~= st.take(j));
        assert(st1[j] == st[j]);
    }
    assert forall|m: Seq<bool>| m.len() == n && #[trigger] ds_model(m, cs) && agrees_decisions(m, st)
        && m[e.literal.id as int] == e.literal.sign implies agrees_decisions(m, st1) by {
        assert forall|b: int| 0 <= b < st1.len() && (#[trigger] st1[b]).assignment_type == AssignmentType::Branching
            implies m[st1[b].literal.id as int] == st1[b].literal.sign by {
            if b < st.len() {
                assert(st1[b] == st[b]);
            }
        }
    }
    assert forall|m: Seq<bool>| m.len() == n && #[trigger] ds_model(m, cs) && agrees_decisions(m, st)
        && e.assignment_type == AssignmentType::Forced implies agrees_decisions(m, st1) by {
        assert forall|b: int| 0 <= b < st1.len() && (#[trigger] st1[b]).assignment_type == AssignmentType::Branching
            implies m[st1[b].literal.id as int] == st1[b].literal.sign by {
            if b < st.len() {
                assert(st1[b] == st[b]);
            }
        }
    }
}

/// A model that agrees with the decisions agrees with every entry.
proof fn lemma_agrees_all(st: Seq<PrevAssignment>, cs: Seq<Clause>, n: nat, m: Seq<bool>)
    requires
        implied_ok(st, cs, n),
        m.len() == n,
        ds_model(m, cs),
        agrees_decisions(m, st),
    ensures
        forall|j: int| 0 <= j < st.len() ==> m[(#[trigger] st[j]).literal.id as int] == st[j].literal.sign,
{
    reveal(implied_ok);
    reveal(agrees_decisions);
    assert forall|j: int| 0 <= j < st.len() implies m[(#[trigger] st[j]).literal.id as int] == st[j].literal.sign by {
        if st[j].assignment_type == AssignmentType::Forced {
            assert(forced_ok(st.take(j), cs, n, st[j].literal));
            reveal(forced_ok);
            assert forall|b: int| 0 <= b < st.take(j).len() && (#[trigger] st.take(j)[b]).assignment_type == AssignmentType::Branching
                implies m[st.take(j)[b].literal.id as int] == st.take(j)[b].literal.sign by {
                assert(st.take(j)[b] == st[b]);
            }
            assert(agrees_decisions(m, st.take(j)));
        }
    }
}

/// The literal of a unit clause is made true by every model that agrees
/// with the decisions.
pub proof fn lemma_reason_forced(vs: Seq<Variable>, cs: Seq<Clause>, st: Seq<PrevAssignment>, c: int, l: CNFVar)
    requires
        stack_ok(vs, cs, st),
        lits_ok(vs, cs),
        implied_ok(st, cs, vs.len()),
        0 <= c < cs.len(),
        unit(vs, cs[c].literals@),
        cs[c].literals@.contains(l),
        lit_free(vs, l),
    ensures
        forced_ok(st, cs, vs.len(), l),
{
    reveal(forced_ok);
    let n = vs.len();
    let lits = cs[c].literals@;
    assert forall|m: Seq<bool>| m.len() == n && #[trigger] ds_model(m, cs) && agrees_decisions(m, st)
        implies m[l.id as int] == l.sign by {
        lemma_agrees_all(st, cs, n, m);
        assert(true_under(m, lits));
        let i = choose|i: int| 0 <= i < lits.len() && m[(#[trigger] lits[i]).id as int] == lits[i].sign;
        let k = choose|k: int| 0 <= k < lits.len() && lits[k] == l;
        if lits[i] != l {
            assert(lits[i].id < vs.len());
            if !lit_false(vs, lits[i]) {
                assert(i != k);
                if i < k { lemma_nonfalse_two(vs, lits, i, k); } else { lemma_nonfalse_two(vs, lits, k, i); }
            }
            lemma_values_follow_stack(vs, cs, st, c, i);
            let j = choose|j: int| 0 <= j < st.len() && (#[trigger] st[j]).literal == lits[i].flipped();
            assert(m[st[j].literal.id as int] == st[j].literal.sign);
        }
    }
}

/// A dead clause refutes the decisions.
pub proof fn lemma_dead_refutes(vs: Seq<Variable>, cs: Seq<Clause>, st: Seq<PrevAssignment>, c: int)
    requires
        stack_ok(vs, cs, st),
        lits_ok(vs, cs),
        implied_ok(st, cs, vs.len()),
        0 <= c < cs.len(),
        dead(vs, cs[c].literals@),
    ensures
        refuted(st, cs, vs.len()),
{
    reveal(refuted);
    let n = vs.len();
    let lits = cs[c].literals@;
    assert forall|m: Seq<bool>| m.len() == n && #[trigger] ds_model(m, cs) implies !agrees_decisions(m, st) by {
        if agrees_decisions(m, st) {
            lemma_agrees_all(st, cs, n, m);
            assert(true_under(m, lits));
            let i = choose|i: int| 0 <= i < lits.len() && m[(#[trigger] lits[i]).id as int] == lits[i].sign;
            assert(lits[i].id < vs.len());
            if !lit_false(vs, lits[i]) {
                lemma_nonfalse_pos(vs, lits, i);
            }
            lemma_values_follow_stack(vs, cs, st, c, i);
            let j = choose|j: int| 0 <= j < st.len() && (#[trigger] st[j]).literal == lits[i].flipped();
            assert(m[st[j].literal.id as int] == st[j].literal.sign);
        }
    }
}

/// A refuted stack without decisions leaves no model.
pub proof fn lemma_no_model(st: Seq<PrevAssignment>, cs: Seq<Clause>, n: nat)
    requires
        refuted(st, cs, n),
        no_decisions(st),
    ensures
        no_model(cs, n),
{
    reveal(refuted);
    reveal(agrees_decisions);
    assert forall|m: Seq<bool>| m.len() == n implies !#[trigger] ds_model(m, cs) by {
        assert forall|b: int| 0 <= b < st.len() && (#[trigger] st[b]).assignment_type == AssignmentType::Branching
            implies m[st[b].literal.id as int] == st[b].literal.sign by {}
    }
}

// ---------------------------------------------------------------------------
// Counting

/// At most every literal is not false.
pub proof fn lemma_nonfalse_le(vs: Seq<Variable>, lits: Seq<CNFVar>)
    ensures
        nonfalse(vs, lits) <= lits.len(),
    decreases lits.len(),
{
    if lits.len() > 0 {
        lemma_nonfalse_le(vs, lits.drop_last());
    }
}

/// A literal that is not false counts.
pub proof fn lemma_nonfalse_pos(vs: Seq<Variable>, lits: Seq<CNFVar>, i: int)
    requires
        0 <= i < lits.len(),
        !lit_false(vs, lits[i]),
    ensures
        nonfalse(vs, lits) >= 1,
    decreases lits.len(),
{
    if i < lits.len() - 1 {
        lemma_nonfalse_pos(vs, lits.drop_last(), i);
    }
}

/// When no literal is false, every literal counts.
pub proof fn lemma_nonfalse_all(vs: Seq<Variable>, lits: Seq<CNFVar>)
    requires
        forall|i: int| 0 <= i < lits.len() ==> !lit_false(vs, #[trigger] lits[i]),
    ensures
        nonfalse(vs, lits) == lits.len(),
    decreases lits.len(),
{
    if lits.len() > 0 {
        assert forall|i: int| 0 <= i < lits.drop_last().len() implies !lit_false(vs, #[trigger] lits.drop_last()[i]) by {
            assert(lits.drop_last()[i] == lits[i]);
        }
        lemma_nonfalse_all(vs, lits.drop_last());
        assert(lits.last() == lits[lits.len() - 1]);
    }
}

/// Two literals that are not false count twice.
pub proof fn lemma_nonfalse_two(vs: Seq<Variable>, lits: Seq<CNFVar>, i: int, j: int)
    requires
        0 <= i < j < lits.len(),
        !lit_false(vs, lits[i]),
        !lit_false(vs, lits[j]),
    ensures
        nonfalse(vs, lits) >= 2,
    decreases lits.len(),
{
    if j < lits.len() - 1 {
        lemma_nonfalse_two(vs, lits.drop_last(), i, j);
    } else {
        lemma_nonfalse_pos(vs, lits.drop_last(), i);
    }
}

/// With some literal not false, one is found.
pub proof fn lemma_nonfalse_witness(vs: Seq<Variable>, lits: Seq<CNFVar>)
    requires
        nonfalse(vs, lits) >= 1,
    ensures
        exists|i: int| 0 <= i < lits.len() && !lit_false(vs, #[trigger] lits[i]),
    decreases lits.len(),
{
    if lit_false(vs, lits.last()) {
        lemma_nonfalse_witness(vs, lits.drop_last());
        let i = choose|i: int| 0 <= i < lits.drop_last().len() && !lit_false(vs, #[trigger] lits.drop_last()[i]);
        assert(lits[i] == lits.drop_last()[i]);
    } else {
        assert(!lit_false(vs, lits[lits.len() - 1]));
    }
}

/// When one literal `x` turns false and no other changes, the count of a
/// list without repeats drops by one exactly when `x` is in it.
pub proof fn lemma_nonfalse_drop(vs: Seq<Variable>, ws: Seq<Variable>, lits: Seq<CNFVar>, x: CNFVar)
    requires
        lits.no_duplicates(),
        forall|i: int| 0 <= i < lits.len() && lits[i] != x ==> lit_false(vs, #[trigger] lits[i]) == lit_false(ws, lits[i]),
        !lit_false(vs, x),
        lit_false(ws, x),
    ensures
        nonfalse(ws, lits) + (if lits.contains(x) { 1nat } else { 0nat }) == nonfalse(vs, lits),
    decreases lits.len(),
{
    if lits.len() > 0 {
        let init = lits.drop_last();
        assert forall|i: int| 0 <= i < init.len() && init[i] != x implies
            lit_false(vs, #[trigger] init[i]) == lit_false(ws, init[i]) by {
            assert(init[i] == lits[i]);
        }
        assert(init.no_duplicates());
        lemma_nonfalse_drop(vs, ws, init, x);
        let last = lits.last();
        assert(last == lits[lits.len() - 1]);
        if last == x {
            assert(lits.contains(x));
            if init.contains(x) {
                let i = choose|i: int| 0 <= i < init.len() && init[i] == x;
                assert(lits[i] == lits[lits.len() - 1]);
            }
        } else {
            if lits.contains(x) {
                let i = choose|i: int| 0 <= i < lits.len() && lits[i] == x;
                assert(init[i] == x);
            }
            if init.contains(x) {
                let i = choose|i: int| 0 <= i < init.len() && init[i] == x;
                assert(lits[i] == x);
            }
        }
    }
}

/// What setting the unset variable of `lit` so that `lit` is true does to
/// the clauses: those with neither `lit` nor its negation keep their count
/// and truth, those with `lit` become true, those with its negation lose
/// one literal that is not false, and nothing true turns untrue.
pub open spec fn set_effect(vs: Seq<Variable>, ws: Seq<Variable>, cs: Seq<Clause>, lit: CNFVar) -> bool {
    &&& forall|c: int| 0 <= c < cs.len() && !cs[c].literals@.contains(lit) && !cs[c].literals@.contains(lit.flipped())
        ==> nonfalse(ws, #[trigger] cs[c].literals@) == nonfalse(vs, cs[c].literals@)
            && has_true(ws, cs[c].literals@) == has_true(vs, cs[c].literals@)
    &&& forall|c: int| 0 <= c < cs.len() ==> nonfalse(ws, #[trigger] cs[c].literals@)
        + (if cs[c].literals@.contains(lit.flipped()) { 1nat } else { 0nat }) == nonfalse(vs, cs[c].literals@)
    &&& forall|c: int| 0 <= c < cs.len() && (#[trigger] cs[c].literals@).contains(lit) ==> has_true(ws, cs[c].literals@)
    &&& forall|c: int| 0 <= c < cs.len() && has_true(vs, #[trigger] cs[c].literals@) ==> has_true(ws, cs[c].literals@)
    &&& forall|c: int| 0 <= c < cs.len() && has_true(ws, #[trigger] cs[c].literals@)
        ==> has_true(vs, cs[c].literals@) || cs[c].literals@.contains(lit)
    &&& forall|c: int| 0 <= c < cs.len() && (#[trigger] cs[c].literals@).contains(lit.flipped())
        ==> nonfalse(ws, cs[c].literals@) + 1 == nonfalse(vs, cs[c].literals@)
}

/// The literals of every clause name variables of the table and hold no repeats.
pub open spec fn lits_ok(vs: Seq<Variable>, cs: Seq<Clause>) -> bool {
    &&& forall|c: int, i: int| 0 <= c < cs.len() && 0 <= i < cs[c].literals@.len()
        ==> #[trigger] cs[c].literals@[i].id < vs.len()
    &&& forall|c: int| 0 <= c < cs.len() ==> (#[trigger] cs[c]).literals@.no_duplicates()
}

/// Setting an unset variable has the effect described by `set_effect`.
pub proof fn lemma_set_effect(vs: Seq<Variable>, ws: Seq<Variable>, cs: Seq<Clause>, lit: CNFVar)
    requires
        lits_ok(vs, cs),
        lit.id < vs.len(),
        ws.len() == vs.len(),
        lit_free(vs, lit),
        ws[lit.id as int].value == value_of_sign(lit.sign),
        forall|v: int| 0 <= v < vs.len() && v != lit.id ==> (#[trigger] ws[v]).value == vs[v].value,
    ensures
        set_effect(vs, ws, cs, lit),
{
    assert forall|c: int| 0 <= c < cs.len() implies {
        let lits = #[trigger] cs[c].literals@;
        &&& (!lits.contains(lit) && !lits.contains(lit.flipped()) ==> nonfalse(ws, lits) == nonfalse(vs, lits)
            && has_true(ws, lits) == has_true(vs, lits))
        &&& (lits.contains(lit) ==> has_true(ws, lits))
        &&& (has_true(vs, lits) ==> has_true(ws, lits))
        &&& (has_true(ws, lits) ==> has_true(vs, lits) || lits.contains(lit))
        &&& (lits.contains(lit.flipped()) ==> nonfalse(ws, lits) + 1 == nonfalse(vs, lits))
        &&& nonfalse(ws, lits) + (if lits.contains(lit.flipped()) { 1nat } else { 0nat }) == nonfalse(vs, lits)
    } by {
        let lits = cs[c].literals@;
        assert forall|i: int| 0 <= i < lits.len() && lits[i] != lit.flipped() implies
            lit_false(vs, #[trigger] lits[i]) == lit_false(ws, lits[i]) by {
            assert(lits[i].id < vs.len());
        }
        lemma_nonfalse_drop(vs, ws, lits, lit.flipped());
        if has_true(vs, lits) {
            let i = choose|i: int| 0 <= i < lits.len() && lit_true(vs, #[trigger] lits[i]);
            assert(lits[i].id < vs.len());
            assert(lit_true(ws, lits[i]));
        }
        if lits.contains(lit) {
            let i = choose|i: int| 0 <= i < lits.len() && lits[i] == lit;
            assert(lit_true(ws, lits[i]));
        }
        if !lits.contains(lit) && has_true(ws, lits) {
            let i = choose|i: int| 0 <= i < lits.len() && lit_true(ws, #[trigger] lits[i]);
            assert(lits[i].id < vs.len());
            assert(lit_true(vs, lits[i]));
        }
    }
}

/// Counts under the values and under a stack agree where falsity agrees.
pub proof fn lemma_nonfalse_st(vs: Seq<Variable>, st: Seq<PrevAssignment>, lits: Seq<CNFVar>)
    requires
        forall|i: int| 0 <= i < lits.len() ==> lit_false(vs, #[trigger] lits[i]) == st_true(st, lits[i].flipped()),
    ensures
        nonfalse(vs, lits) == st_nonfalse(st, lits),
    decreases lits.len(),
{
    if lits.len() > 0 {
        assert forall|i: int| 0 <= i < lits.drop_last().len() implies
            lit_false(vs, #[trigger] lits.drop_last()[i]) == st_true(st, lits.drop_last()[i].flipped()) by {
            assert(lits.drop_last()[i] == lits[i]);
        }
        lemma_nonfalse_st(vs, st, lits.drop_last());
        assert(lits.last() == lits[lits.len() - 1]);
    }
}

/// Where the stack records every value, truth under the values and under
/// the stack agree for the literals of the clauses.
pub proof fn lemma_values_follow_stack(vs: Seq<Variable>, cs: Seq<Clause>, st: Seq<PrevAssignment>, c: int, i: int)
    requires
        stack_ok(vs, cs, st),
        0 <= c < cs.len(),
        0 <= i < cs[c].literals@.len(),
        cs[c].literals@[i].id < vs.len(),
    ensures
        lit_true(vs, cs[c].literals@[i]) == st_true(st, cs[c].literals@[i]),
        lit_false(vs, cs[c].literals@[i]) == st_true(st, cs[c].literals@[i].flipped()),
{
    let l = cs[c].literals@[i];
    if st_true(st, l) {
        let j = choose|j: int| 0 <= j < st.len() && (#[trigger] st[j]).literal == l;
        assert(st[j].literal.id < vs.len());
    }
    if st_true(st, l.flipped()) {
        let j = choose|j: int| 0 <= j < st.len() && (#[trigger] st[j]).literal == l.flipped();
        assert(st[j].literal.id < vs.len());
    }
    if !lit_free(vs, l) {
        let j = choose|j: int| 0 <= j < st.len() && (#[trigger] st[j]).literal.id == l.id;
        assert(vs[st[j].literal.id as int].value == value_of_sign(st[j].literal.sign));
        if st[j].literal.sign == l.sign {
            assert(st[j].literal == l);
        } else {
            assert(st[j].literal == l.flipped());
        }
    }
}

/// Where the stack records every value, the state is settled exactly when
/// it is settled under the whole stack.
pub proof fn lemma_closed_stack(vs: Seq<Variable>, cs: Seq<Clause>, st: Seq<PrevAssignment>)
    requires
        stack_ok(vs, cs, st),
        forall|c: int, i: int| 0 <= c < cs.len() && 0 <= i < cs[c].literals@.len()
            ==> #[trigger] cs[c].literals@[i].id < vs.len(),
    ensures
        settled(vs, cs) == closed_at(st, st.len() as int, cs),
{
    assert(st.take(st.len() as int) =~= st);
    assert forall|c: int| 0 <= c < cs.len() implies
        (#[trigger] has_true(vs, cs[c].literals@) == st_has_true(st, cs[c].literals@)
        && nonfalse(vs, cs[c].literals@) == st_nonfalse(st, cs[c].literals@)) by {
        let lits = cs[c].literals@;
        assert forall|i: int| 0 <= i < lits.len() implies
            (lit_true(vs, #[trigger] lits[i]) == st_true(st, lits[i])
            && lit_false(vs, lits[i]) == st_true(st, lits[i].flipped())) by {
            lemma_values_follow_stack(vs, cs, st, c, i);
        }
        lemma_nonfalse_st(vs, st, lits);
        if has_true(vs, lits) {
            let i = choose|i: int| 0 <= i < lits.len() && lit_true(vs, #[trigger] lits[i]);
            assert(st_true(st, lits[i]));
        }
        if st_has_true(st, lits) {
            let i = choose|i: int| 0 <= i < lits.len() && st_true(st, #[trigger] lits[i]);
            assert(lit_true(vs, lits[i]));
        }
    }
}


/// `b` extends `a` with forced assignments only.
pub open spec fn forced_ext(a: Seq<PrevAssignment>, b: Seq<PrevAssignment>) -> bool {
    &&& extends(a, b)
    &&& forall|j: int| a.len() <= j < b.len() ==> (#[trigger] b[j]).assignment_type == AssignmentType::Forced
}

/// Extending with forced assignments is transitive.
pub proof fn lemma_forced_ext_trans(a: Seq<PrevAssignment>, b: Seq<PrevAssignment>, c: Seq<PrevAssignment>)
    requires
        forced_ext(a, b),
        forced_ext(b, c),
    ensures
        forced_ext(a, c),
{
    assert forall|j: int| a.len() <= j < c.len() implies (#[trigger] c[j]).assignment_type == AssignmentType::Forced by {
        if j < b.len() {
            assert(c[j] == b[j]);
        }
    }
}

/// The digit of position `i` of a stack: 0 for a forced assignment, 1 for a
/// branching decision, 2 where the stack has no entry.
pub open spec fn stack_digit(st: Seq<PrevAssignment>, i: int) -> int {
    if 0 <= i < st.len() {
        if st[i].assignment_type == AssignmentType::Forced { 0 } else { 1 }
    } else {
        2
    }
}

/// The first `k` digits of the stack read as a number in base 3. Over as
/// many digits as there are variables, every step of the search lowers it.
pub open spec fn stack_measure(st: Seq<PrevAssignment>, k: nat) -> nat
    decreases k,
{
    if k == 0 {
        0
    } else {
        (3 * stack_measure(st, (k - 1) as nat) + stack_digit(st, k - 1)) as nat
    }
}

/// Stacks with the same first `k` digits have the same measure over them.
pub proof fn lemma_measure_prefix(s: Seq<PrevAssignment>, t: Seq<PrevAssignment>, k: nat)
    requires
        forall|i: int| 0 <= i < k ==> stack_digit(s, i) == stack_digit(t, i),
    ensures
        stack_measure(s, k) == stack_measure(t, k),
    decreases k,
{
    if k > 0 {
        lemma_measure_prefix(s, t, (k - 1) as nat);
        assert(stack_digit(s, k - 1) == stack_digit(t, k - 1));
    }
}

/// A smaller measure over `k` digits stays smaller over more digits.
pub proof fn lemma_measure_grow(s: Seq<PrevAssignment>, t: Seq<PrevAssignment>, k: nat, m: nat)
    requires
        k <= m,
        stack_measure(s, k) < stack_measure(t, k),
    ensures
        stack_measure(s, m) < stack_measure(t, m),
    decreases m - k,
{
    if k < m {
        assert(stack_measure(s, k + 1) < stack_measure(t, k + 1)) by {
            assert(0 <= stack_digit(s, k as int) <= 2);
            assert(0 <= stack_digit(t, k as int) <= 2);
        }
        lemma_measure_grow(s, t, k + 1, m);
    }
}

/// Two stacks with the same digits before position `j` and a smaller digit
/// at `j` (below `n`) compare the same way over `n` digits.
pub proof fn lemma_measure_less(s: Seq<PrevAssignment>, t: Seq<PrevAssignment>, j: nat, n: nat)
    requires
        j < n,
        forall|i: int| 0 <= i < j ==> stack_digit(s, i) == stack_digit(t, i),
        stack_digit(s, j as int) < stack_digit(t, j as int),
    ensures
        stack_measure(s, n) < stack_measure(t, n),
{
    lemma_measure_prefix(s, t, j);
    assert(stack_measure(s, j + 1) < stack_measure(t, j + 1));
    lemma_measure_grow(s, t, j + 1, n);
}

/// The number of branching decisions on the stack.
pub open spec fn decisions(st: Seq<PrevAssignment>) -> nat
    decreases st.len(),
{
    if st.len() == 0 {
        0
    } else {
        decisions(st.drop_last()) + if st.last().assignment_type == AssignmentType::Forced { 0nat } else { 1nat }
    }
}

/// Forced assignments add no decision.
pub proof fn lemma_decisions_forced_ext(a: Seq<PrevAssignment>, b: Seq<PrevAssignment>)
    requires
        forced_ext(a, b),
    ensures
        decisions(b) == decisions(a),
    decreases b.len(),
{
    if b.len() > a.len() {
        assert(forced_ext(a, b.drop_last())) by {
            assert forall|j: int| 0 <= j < a.len() implies #[trigger] b.drop_last()[j] == a[j] by {
                assert(b[j] == a[j]);
            }
            assert forall|j: int| a.len() <= j < b.drop_last().len() implies
                (#[trigger] b.drop_last()[j]).assignment_type == AssignmentType::Forced by {
                assert(b[j].assignment_type == AssignmentType::Forced);
            }
        }
        lemma_decisions_forced_ext(a, b.drop_last());
        assert(b.last().assignment_type == AssignmentType::Forced);
    } else {
        assert(b =~= a) by {
            assert forall|j: int| 0 <= j < a.len() implies b[j] == a[j] by {}
        }
    }
}

/// A stack holds at most one entry per variable.
pub proof fn lemma_stack_len(vs: Seq<Variable>, cs: Seq<Clause>, st: Seq<PrevAssignment>)
    requires
        stack_ok(vs, cs, st),
    ensures
        st.len() <= vs.len(),
{
    let ids = st.map_values(|a: PrevAssignment| a.literal.id);
    assert(ids.no_duplicates()) by {
        assert forall|j: int, k: int| 0 <= j < ids.len() && 0 <= k < ids.len() && j != k implies ids[j] != ids[k] by {
            assert(st[j].literal.id != st[k].literal.id);
        }
    }
    ids.unique_seq_to_set();
    assert forall|e: usize| #[trigger] ids.to_set().contains(e) implies e < vs.len() by {
        let j = choose|j: int| 0 <= j < ids.len() && ids[j] == e;
        assert(st[j].literal.id < vs.len());
    }
    crate::cdcl::learning_schemes::lemma_bounded_set_len(ids.to_set(), vs.len());
}

} // verus!
