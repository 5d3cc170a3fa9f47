//! A solver that tries every valuation.
use vstd::prelude::*;
use crate::cnf::{formula_holds, formula_in_range, CNF};
use crate::sat_solution::{SATSolution, Valuation};
use crate::sat_solver::{check_valuation, Solver};

verus! {

/// `a` comes before `b` in lexicographic order, `false` before `true` and
/// the first entry (variable 1) first.
pub open spec fn lex_less(a: Seq<bool>, b: Seq<bool>) -> bool {
    &&& a.len() == b.len()
    &&& exists|i: int| 0 <= i < a.len() && #[trigger] a.take(i) == b.take(i) && !a[i] && b[i]
}

/// A simple CNF solver that checks all possible valuations, in the order of
/// binary counting with variable 1 as the most significant bit, starting
/// with every variable false.
pub enum Bruteforce {
    Bruteforce,
}

impl Solver for Bruteforce {
    /// Its satisfiable answers are proved to be models.
    open spec fn models_proved(&self) -> bool {
        true
    }

    /// Its unsatisfiable answers are proved right.
    open spec fn refutations_proved(&self) -> bool {
        true
    }

    fn solve(&self, formula: &CNF) -> (r: SATSolution)
        ensures
            match r {
                SATSolution::Satisfiable(v) => v@.len() == formula.num_variables
                    && formula.satisfied_by(v@)
                    && forall|w: Seq<bool>| #[trigger] lex_less(w, v@) ==> !formula.satisfied_by(w),
                SATSolution::Unsatisfiable => !formula.satisfiable(),
                SATSolution::Unknown => false,
            },
    {
        let mut valuation: Valuation = Vec::new();
        let mut k: usize = 0;
        while k < formula.num_variables
            invariant
                k <= formula.num_variables,
                valuation@.len() == k,
                forall|i: int| 0 <= i < k ==> !valuation@[i],
            decreases formula.num_variables - k,
        {
            valuation.push(false);
            k += 1;
        }
        if guess(formula, 0, &mut valuation) {
            proof {
                assert forall|w: Seq<bool>| #[trigger] lex_less(w, valuation@) implies !formula.satisfied_by(w) by {
                    assert(w.take(0) =~= valuation@.take(0));
                }
            }
            SATSolution::Satisfiable(valuation)
        } else {
            proof {
                assert forall|w: Seq<bool>| w.len() == formula.num_variables
                    implies !#[trigger] formula_holds(formula.formula(), w) by {
                    assert(w.take(0) =~= valuation@.take(0));
                    assert(!formula.satisfied_by(w));
                }
            }
            SATSolution::Unsatisfiable
        }
    }
}

/// Searches the valuations that agree with `valuation` on its first `change`
/// entries, trying `false` before `true` for each later entry. On success
/// `valuation` is the satisfying valuation found; otherwise it is unchanged
/// and no valuation with that prefix satisfies the formula.
pub fn guess(formula: &CNF, change: usize, valuation: &mut Valuation) -> (r: bool)
    requires
        formula_in_range(formula.formula(), old(valuation)@.len()),
        change <= old(valuation)@.len(),
        forall|i: int| change <= i < old(valuation)@.len() ==> !old(valuation)@[i],
    ensures
        final(valuation)@.len() == old(valuation)@.len(),
        r ==> formula.satisfied_by(final(valuation)@),
        r ==> final(valuation)@.take(change as int) == old(valuation)@.take(change as int),
        !r ==> final(valuation)@ == old(valuation)@,
        r ==> forall|w: Seq<bool>| w.take(change as int) == old(valuation)@.take(change as int)
            && #[trigger] lex_less(w, final(valuation)@) ==> !formula.satisfied_by(w),
        !r ==> forall|w: Seq<bool>| w.len() == old(valuation)@.len()
            && w.take(change as int) == old(valuation)@.take(change as int)
            ==> !#[trigger] formula.satisfied_by(w),
    decreases old(valuation)@.len() - change,
{
    let ghost orig = valuation@;
    if change == valuation.len() {
        let r = check_valuation(formula, valuation);
        proof {
            assert forall|w: Seq<bool>| w.take(change as int) == orig.take(change as int)
                && #[trigger] lex_less(w, valuation@) implies !formula.satisfied_by(w) by {
                assert(w =~= w.take(change as int));
                assert(orig =~= orig.take(change as int));
                let i = choose|i: int| 0 <= i < w.len() && #[trigger] w.take(i) == valuation@.take(i) && !w[i] && valuation@[i];
            }
            assert forall|w: Seq<bool>| w.len() == orig.len() && #[trigger] w.take(change as int) == orig.take(change as int)
                implies w == orig by {
                assert(w =~= w.take(change as int));
                assert(orig =~= orig.take(change as int));
            }
        }
        r
    } else {
        if guess(formula, change + 1, valuation) {
            proof {
                let fin = valuation@;
                assert(valuation@.take(change as int) =~= valuation@.take(change + 1).take(change as int));
                assert(orig.take(change as int) =~= orig.take(change + 1).take(change as int));
                assert(fin[change as int] == fin.take(change + 1)[change as int]);
                assert(!fin[change as int]);
                assert forall|w: Seq<bool>| w.take(change as int) == orig.take(change as int)
                    && #[trigger] lex_less(w, fin) implies !formula.satisfied_by(w) by {
                    let i = choose|i: int| 0 <= i < w.len() && #[trigger] w.take(i) == fin.take(i) && !w[i] && fin[i];
                    if i < change {
                        assert(w[i] == w.take(change as int)[i]);
                        assert(fin[i] == fin.take(change as int)[i]);
                    } else if i == change {
                    } else {
                        assert(w[change as int] == w.take(i)[change as int]);
                        assert(fin[change as int] == fin.take(i)[change as int]);
                        assert(w.take(change + 1) =~= orig.take(change + 1)) by {
                            assert forall|k: int| 0 <= k < change + 1 implies #[trigger] w.take(change + 1)[k] == orig.take(change + 1)[k] by {
                                if k < change {
                                    assert(w.take(change as int)[k] == orig.take(change as int)[k]);
                                }
                            }
                        }
                    }
                }
            }
            true
        } else {
            valuation.set(change, true);
            let ghost flipped = valuation@;
            let res = guess(formula, change + 1, valuation);
            if !res {
                valuation.set(change, false);
                proof {
                    assert(valuation@ =~= orig);
                    assert forall|w: Seq<bool>| w.len() == orig.len() && w.take(change as int) == orig.take(change as int)
                        implies !#[trigger] formula.satisfied_by(w) by {
                        assert forall|k: int| 0 <= k < change implies #[trigger] w[k] == orig[k] by {
                            assert(w.take(change as int)[k] == orig.take(change as int)[k]);
                        }
                        if w[change as int] {
                            assert(w.take(change + 1) =~= flipped.take(change + 1));
                        } else {
                            assert(w.take(change + 1) =~= orig.take(change + 1));
                        }
                    }
                }
            } else {
                proof {
                    let fin = valuation@;
                    assert(valuation@.take(change as int) =~= valuation@.take(change + 1).take(change as int));
                    assert(orig.take(change as int) =~= flipped.take(change + 1).take(change as int));
                    assert(fin[change as int] == fin.take(change + 1)[change as int]);
                    assert(fin[change as int]);
                    assert forall|w: Seq<bool>| w.take(change as int) == orig.take(change as int)
                        && #[trigger] lex_less(w, fin) implies !formula.satisfied_by(w) by {
                        let i = choose|i: int| 0 <= i < w.len() && #[trigger] w.take(i) == fin.take(i) && !w[i] && fin[i];
                        if i < change {
                            assert(w[i] == w.take(change as int)[i]);
                            assert(fin[i] == fin.take(change as int)[i]);
                            assert(orig[i] == orig.take(change as int)[i]);
                        } else if !w[change as int] {
                            assert(w.take(change + 1) =~= orig.take(change + 1)) by {
                                assert forall|k: int| 0 <= k < change + 1 implies #[trigger] w.take(change + 1)[k] == orig.take(change + 1)[k] by {
                                    if k < change {
                                        assert(w.take(change as int)[k] == orig.take(change as int)[k]);
                                    }
                                }
                            }
                        } else {
                            assert(i > change);
                            assert(w.take(change + 1) =~= flipped.take(change + 1)) by {
                                assert forall|k: int| 0 <= k < change + 1 implies #[trigger] w.take(change + 1)[k] == flipped.take(change + 1)[k] by {
                                    if k < change {
                                        assert(w.take(change as int)[k] == orig.take(change as int)[k]);
                                    }
                                }
                            }
                        }
                    }
                }
            }
            res
        }
    }
}

} // verus!
