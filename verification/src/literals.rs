//! Ordering and deduplicating the literals of a clause.
use vstd::prelude::*;
use crate::cnf::CNFVar;

verus! {

/// The order of literals: by identifier, the negative literal before the positive one.
pub open spec fn lit_lt(a: CNFVar, b: CNFVar) -> bool {
    a.id < b.id || (a.id == b.id && !a.sign && b.sign)
}

/// The literals are strictly increasing, hence free of duplicates.
pub open spec fn strictly_sorted(s: Seq<CNFVar>) -> bool {
    forall|i: int, j: int| 0 <= i < j < s.len() ==> lit_lt(#[trigger] s[i], #[trigger] s[j])
}

/// Two strictly sorted sequences with the same literals are equal.
pub proof fn lemma_strictly_sorted_unique(t: Seq<CNFVar>, u: Seq<CNFVar>)
    requires
        strictly_sorted(t),
        strictly_sorted(u),
        forall|x: CNFVar| #[trigger] t.contains(x) <==> u.contains(x),
    ensures
        t == u,
    decreases t.len() + u.len(),
{
    if t.len() == 0 {
        if u.len() > 0 {
            assert(u.contains(u[0]));
            assert(t.contains(u[0]));
        }
        assert(t =~= u);
    } else if u.len() == 0 {
        assert(t.contains(t[0]));
        assert(u.contains(t[0]));
    } else {
        // the first elements are the least of the same set
        assert(t.contains(t[0]));
        assert(u.contains(u[0]));
        assert(u.contains(t[0]));
        assert(t.contains(u[0]));
        let a = choose|k: int| 0 <= k < u.len() && u[k] == t[0];
        let b = choose|k: int| 0 <= k < t.len() && t[k] == u[0];
        if a > 0 {
            assert(lit_lt(u[0], u[a]));
            if b > 0 {
                assert(lit_lt(t[0], t[b]));
            }
        }
        assert(t[0] == u[0]);
        let t1 = t.drop_first();
        let u1 = u.drop_first();
        assert forall|i: int, j: int| 0 <= i < j < t1.len() implies lit_lt(#[trigger] t1[i], #[trigger] t1[j]) by {
            assert(t1[i] == t[i + 1] && t1[j] == t[j + 1]);
        }
        assert forall|i: int, j: int| 0 <= i < j < u1.len() implies lit_lt(#[trigger] u1[i], #[trigger] u1[j]) by {
            assert(u1[i] == u[i + 1] && u1[j] == u[j + 1]);
        }
        assert forall|x: CNFVar| #[trigger] t1.contains(x) <==> u1.contains(x) by {
            if t1.contains(x) {
                let k = choose|k: int| 0 <= k < t1.len() && t1[k] == x;
                assert(t[k + 1] == x);
                assert(lit_lt(t[0], t[k + 1]));
                assert(t.contains(x));
                let m = choose|m: int| 0 <= m < u.len() && u[m] == x;
                assert(m != 0);
                assert(u1[m - 1] == x);
            }
            if u1.contains(x) {
                let k = choose|k: int| 0 <= k < u1.len() && u1[k] == x;
                assert(u[k + 1] == x);
                assert(lit_lt(u[0], u[k + 1]));
                assert(u.contains(x));
                assert(t.contains(x));
                let m = choose|m: int| 0 <= m < t.len() && t[m] == x;
                assert(m != 0);
                assert(t1[m - 1] == x);
            }
        }
        lemma_strictly_sorted_unique(t1, u1);
        assert(t =~= seq![t[0]] + t1);
        assert(u =~= seq![u[0]] + u1);
    }
}

/// Filtering a prefix one element longer.
pub proof fn lemma_filter_take_step<A>(s: Seq<A>, i: int, p: spec_fn(A) -> bool)
    requires
        0 <= i < s.len(),
    ensures
        s.take(i + 1).filter(p) == if p(s[i]) { s.take(i).filter(p).push(s[i]) } else { s.take(i).filter(p) },
{
    reveal(Seq::filter);
    assert(s.take(i + 1).drop_last() =~= s.take(i));
}

/// The clause holds a single literal, possibly repeated.
pub open spec fn single_literal(c: Seq<CNFVar>) -> bool {
    c.len() > 0 && forall|i: int| 0 <= i < c.len() ==> #[trigger] c[i] == c[0]
}

/// A strictly sorted sequence with the literals of `c` has one element
/// exactly when `c` holds a single literal, and that literal then.
pub proof fn lemma_sorted_single(c: Seq<CNFVar>, t: Seq<CNFVar>)
    requires
        strictly_sorted(t),
        forall|x: CNFVar| #[trigger] t.contains(x) <==> c.contains(x),
    ensures
        single_literal(c) <==> t.len() == 1,
        t.len() == 1 ==> t[0] == c[0],
{
    if t.len() == 1 {
        assert(t.contains(t[0]));
        assert forall|i: int| 0 <= i < c.len() implies c[i] == t[0] by {
            assert(c.contains(c[i]));
            assert(t.contains(c[i]));
            let k = choose|k: int| 0 <= k < t.len() && t[k] == c[i];
        }
        let k = choose|k: int| 0 <= k < c.len() && c[k] == t[0];
        assert(c[0] == t[0]);
    }
    if single_literal(c) {
        assert(c.contains(c[0]));
        assert(t.contains(c[0]));
        if t.len() >= 2 {
            assert(t.contains(t[0]));
            assert(t.contains(t[1]));
            assert(c.contains(t[0]));
            assert(c.contains(t[1]));
            let a = choose|k: int| 0 <= k < c.len() && c[k] == t[0];
            let b = choose|k: int| 0 <= k < c.len() && c[k] == t[1];
            assert(lit_lt(t[0], t[1]));
        }
    }
}

/// `a < b` for literals, in the order above.
pub fn lit_less(a: &CNFVar, b: &CNFVar) -> (r: bool)
    ensures
        r == lit_lt(*a, *b),
{
    a.id < b.id || (a.id == b.id && !a.sign && b.sign)
}

/// The literals sorted in increasing order with duplicates removed.
pub fn sorted_dedup(lits: &Vec<CNFVar>) -> (r: Vec<CNFVar>)
    ensures
        strictly_sorted(r@),
        forall|x: CNFVar| #[trigger] r@.contains(x) <==> lits@.contains(x),
{
    let mut out: Vec<CNFVar> = Vec::new();
    let mut i: usize = 0;
    while i < lits.len()
        invariant
            i <= lits@.len(),
            strictly_sorted(out@),
            forall|x: CNFVar| #[trigger] out@.contains(x) <==> lits@.take(i as int).contains(x),
        decreases lits@.len() - i,
    {
        let x = lits[i];
        // find the first position whose literal is not smaller than x
        let mut p: usize = 0;
        while p < out.len() && lit_less(&out[p], &x)
            invariant
                p <= out@.len(),
                forall|k: int| 0 <= k < p ==> lit_lt(#[trigger] out@[k], x),
            decreases out@.len() - p,
        {
            p += 1;
        }
        let ghost before = out@;
        if p < out.len() && out[p] == x {
            // already present
        } else {
            out.insert(p, x);
            proof {
                assert forall|a: int, b: int| 0 <= a < b < out@.len() implies lit_lt(#[trigger] out@[a], #[trigger] out@[b]) by {
                    if a < p && b < p {
                        assert(out@[a] == before[a] && out@[b] == before[b]);
                    } else if a < p && b == p {
                    } else if a < p && b > p {
                        assert(out@[a] == before[a] && out@[b] == before[b - 1]);
                    } else if a == p {
                        assert(out@[b] == before[b - 1]);
                        if p < before.len() {
                            assert(!lit_lt(before[p as int], x));
                            assert(before[p as int] != x);
                            if b - 1 > p {
                                assert(lit_lt(before[p as int], before[b - 1]));
                            }
                        }
                    } else {
                        assert(out@[a] == before[a - 1] && out@[b] == before[b - 1]);
                    }
                }
            }
        }
        proof {
            assert(lits@.take(i + 1) =~= lits@.take(i as int).push(x));
            assert forall|y: CNFVar| #[trigger] out@.contains(y) <==> lits@.take(i + 1).contains(y) by {
                if out@.contains(y) {
                    let k = choose|k: int| 0 <= k < out@.len() && #[trigger] out@[k] == y;
                    if y != x {
                        if before.len() < out@.len() {
                            if k < p { assert(before[k] == y); } else { assert(before[k - 1] == y); }
                        } else {
                            assert(before[k] == y);
                        }
                        assert(before.contains(y));
                        let m = choose|m: int| 0 <= m < lits@.take(i as int).len() && #[trigger] lits@.take(i as int)[m] == y;
                        assert(lits@.take(i + 1)[m] == y);
                    } else {
                        assert(lits@.take(i + 1)[i as int] == y);
                    }
                }
                if lits@.take(i + 1).contains(y) {
                    let m = choose|m: int| 0 <= m < lits@.take(i + 1).len() && #[trigger] lits@.take(i + 1)[m] == y;
                    if m < i {
                        assert(lits@.take(i as int)[m] == y);
                        assert(before.contains(y));
                        let k = choose|k: int| 0 <= k < before.len() && #[trigger] before[k] == y;
                        if before.len() < out@.len() {
                            if k < p { assert(out@[k] == y); } else { assert(out@[k + 1] == y); }
                        } else {
                            assert(out@[k] == y);
                        }
                    } else {
                        if before.len() < out@.len() {
                            assert(out@[p as int] == y);
                        } else {
                            assert(out@[p as int] == y);
                        }
                    }
                }
            }
        }
        i += 1;
    }
    assert(lits@.take(i as int) =~= lits@);
    out
}

} // verus!
