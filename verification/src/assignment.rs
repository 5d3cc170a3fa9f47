//! An earlier form of a solver's answer, printed on a single `v` line.
use vstd::prelude::*;
use crate::sat_solution::value_word;
use crate::text::{push_nat, string_push, string_push_str};

verus! {

/// The answer of a solver: a satisfying valuation, unsatisfiable, or unknown.
#[derive(PartialEq, Eq, Clone, Debug)]
pub enum Assignment {
    Satisfiable(Vec<bool>),
    Unsatisfiable,
    Unknown,
}

/// The words of the first `n` variables, separated by single spaces.
pub open spec fn joined_value_words(v: Seq<bool>, n: int) -> Seq<char>
    decreases n,
{
    if n <= 0 {
        Seq::empty()
    } else if n == 1 {
        value_word(v, 0)
    } else {
        joined_value_words(v, n - 1) + seq![' '] + value_word(v, n - 1)
    }
}

/// The answer in DIMACS output format, all literals on one `v` line.
pub open spec fn assignment_dimacs(a: Assignment) -> Seq<char> {
    match a {
        Assignment::Unsatisfiable => "s UNSATISFIABLE\n"@,
        Assignment::Unknown => "s UNKNOWN\n"@,
        Assignment::Satisfiable(v) => "s SATISFIABLE\nv "@ + joined_value_words(v@, v@.len() as int) + " 0\n"@,
    }
}

impl Assignment {
    pub fn from_valuation(v: Vec<bool>) -> (r: Assignment)
        ensures
            r == Assignment::Satisfiable(v),
    {
        Assignment::Satisfiable(v)
    }

    pub fn is_sat(&self) -> (r: bool)
        ensures
            r == (self is Satisfiable),
    {
        match self {
            Assignment::Satisfiable(_) => true,
            _ => false,
        }
    }

    pub fn is_unsat(&self) -> (r: bool)
        ensures
            r == (self is Unsatisfiable),
    {
        match self {
            Assignment::Unsatisfiable => true,
            _ => false,
        }
    }

    pub fn is_unknown(&self) -> (r: bool)
        ensures
            r == (self is Unknown),
    {
        match self {
            Assignment::Unknown => true,
            _ => false,
        }
    }

    /// The answer in DIMACS output format with every literal on one `v` line.
    pub fn to_dimacs(&self) -> (r: String)
        ensures
            r@ == assignment_dimacs(*self),
    {
        let mut out = String::new();
        match self {
            Assignment::Unsatisfiable => {
                string_push_str(&mut out, "s UNSATISFIABLE\n");
            },
            Assignment::Unknown => {
                string_push_str(&mut out, "s UNKNOWN\n");
            },
            Assignment::Satisfiable(v) => {
                string_push_str(&mut out, "s SATISFIABLE\nv ");
                let ghost header = out@;
                let mut i: usize = 0;
                while i < v.len()
                    invariant
                        i <= v@.len(),
                        out@ == header + joined_value_words(v@, i as int),
                    decreases v@.len() - i,
                {
                    if i > 0 {
                        string_push(&mut out, ' ');
                    }
                    if v[i] {
                        string_push(&mut out, ' ');
                    } else {
                        string_push(&mut out, '-');
                    }
                    push_nat(&mut out, (i + 1) as u64);
                    i += 1;
                    assert(out@ =~= header + joined_value_words(v@, i as int));
                }
                string_push_str(&mut out, " 0\n");
            },
        }
        out
    }
}

} // verus!
