//! Reading formulas in DIMACS format through the `dimacs` crate.
use vstd::prelude::*;
use crate::cnf::{CNFClause, CNFVar, CNF};

verus! {

/// The parse error of the `dimacs` crate.
#[verifier::external_type_specification]
#[verifier::external_body]
pub struct ExDimacsParseError(dimacs::ParseError);

/// A parsed DIMACS instance in plain values: a `.cnf` instance with its
/// declared number of variables and its clauses, each literal given as its
/// variable and whether it is positive; or a `.sat` instance, which this
/// library does not read.
pub enum ParsedDimacs {
    Cnf { num_vars: u64, clauses: Vec<Vec<(u64, bool)>> },
    Sat,
}

/// The mathematical value of a [`ParsedDimacs`].
pub enum ParsedDimacsView {
    Cnf(u64, Seq<Seq<(u64, bool)>>),
    Sat,
}

impl View for ParsedDimacs {
    type V = ParsedDimacsView;

    open spec fn view(&self) -> ParsedDimacsView {
        match self {
            ParsedDimacs::Cnf { num_vars, clauses } => ParsedDimacsView::Cnf(
                *num_vars,
                clauses@.map_values(|c: Vec<(u64, bool)>| c@),
            ),
            ParsedDimacs::Sat => ParsedDimacsView::Sat,
        }
    }
}

/// What `dimacs::parse_dimacs` makes of a text: `None` when it reports a
/// parse error, the instance otherwise.
pub uninterp spec fn dimacs_parse(input: Seq<char>) -> Option<ParsedDimacsView>;

/// An error while reading a DIMACS text, as reported by the `dimacs` crate.
#[derive(Debug)]
pub struct DimacsError {
    pub error: dimacs::ParseError,
}

/// An ASCII decimal digit, the only characters the crate's lexer reads as digits.
pub open spec fn is_digit_char(c: char) -> bool {
    '0' <= c && c <= '9'
}

/// The length of the run of digits that ends just before position `k`.
pub open spec fn digit_run(s: Seq<char>, k: int) -> nat
    decreases k,
{
    if k <= 0 || k > s.len() {
        0
    } else if is_digit_char(s[k - 1]) {
        digit_run(s, k - 1) + 1
    } else {
        0
    }
}

/// No run of digits is longer than 17: every number of the text fits in an
/// `i64`, negated too, and a declared clause count times the 16 bytes of a
/// clause stays below `isize::MAX`.
pub open spec fn numbers_fit(s: Seq<char>) -> bool {
    forall|k: int| 0 <= k <= s.len() ==> #[trigger] digit_run(s, k) <= 17
}

/// Whether every run of digits of the text has at most 17 digits, which is
/// what [`CNF::from_dimacs`] and [`CNF::try_from_dimacs`] require.
pub fn numbers_fit_in(input: &str) -> (r: bool)
    ensures
        r == numbers_fit(input@),
{
    broadcast use vstd::string::axiom_spec_iter;
    let mut run: usize = 0;
    let mut ok = true;
    for c in it: input.chars()
        invariant
            it.seq() == input@,
            it.index() <= input@.len(),
            run == if digit_run(input@, it.index() as int) > 18 { 18 } else { digit_run(input@, it.index() as int) },
            ok == forall|k: int| 0 <= k <= it.index() ==> #[trigger] digit_run(input@, k) <= 17,
            run <= 18,
    {
        let ghost k = it.index() as int;
        if '0' <= c && c <= '9' {
            if run < 18 {
                run = run + 1;
            }
        } else {
            run = 0;
        }
        proof {
            assert(input@[k] == c);
            assert(digit_run(input@, k + 1) == if is_digit_char(c) { digit_run(input@, k) + 1 } else { 0 });
        }
        if run > 17 {
            ok = false;
        }
        assert(ok == forall|j: int| 0 <= j <= k + 1 ==> #[trigger] digit_run(input@, j) <= 17) by {
            if ok {
                assert forall|j: int| 0 <= j <= k + 1 implies #[trigger] digit_run(input@, j) <= 17 by {
                    if j <= k {
                    }
                }
            } else if run > 17 {
                assert(digit_run(input@, k + 1) > 17);
            }
        }
    }
    ok
}

/// Calls `dimacs::parse_dimacs` and converts the instance into plain values.
/// Claimed: the result is the named parse of the input, and an error exactly
/// when the crate reports one. Nothing is claimed of which texts parse.
/// Texts with a number of more than 17 digits are left out: the crate's lexer
/// accumulates digits in a `u64` and its parser negates them as `i64`, which
/// overflows on longer numbers, and it reserves room for the declared number
/// of clauses at once, which panics when that room exceeds `isize::MAX` bytes.
#[verifier::external_body]
fn parse_dimacs_text(input: &str) -> (r: Result<ParsedDimacs, dimacs::ParseError>)
    requires
        numbers_fit(input@),
    ensures
        match r {
            Ok(p) => dimacs_parse(input@) == Some(p@),
            Err(_) => dimacs_parse(input@) is None,
        },
{
    match dimacs::parse_dimacs(input) {
        Ok(dimacs::Instance::Cnf { clauses, num_vars }) => Ok(ParsedDimacs::Cnf {
            num_vars,
            clauses: clauses.iter().map(|c| c.lits().iter().map(|l| (l.var().to_u64(), match l.sign() {
                dimacs::Sign::Pos => true,
                dimacs::Sign::Neg => false,
            })).collect()).collect(),
        }),
        Ok(dimacs::Instance::Sat { .. }) => Ok(ParsedDimacs::Sat),
        Err(e) => Err(e),
    }
}

/// The literal for a parsed (variable, positive) pair.
pub open spec fn parsed_lit(p: (u64, bool)) -> CNFVar {
    CNFVar { id: p.0 as usize, sign: p.1 }
}

/// The formula of parsed clauses.
pub open spec fn parsed_formula(cs: Seq<Seq<(u64, bool)>>) -> Seq<Seq<CNFVar>> {
    cs.map_values(|c: Seq<(u64, bool)>| c.map_values(|p: (u64, bool)| parsed_lit(p)))
}

/// Builds the formula of a parsed `.cnf` instance: identifiers are converted
/// with `as usize` and `num_variables` is the declared number of variables.
pub fn cnf_from_parsed(num_vars: u64, clauses: &Vec<Vec<(u64, bool)>>) -> (r: CNF)
    ensures
        r.num_variables == num_vars as usize,
        r.formula() == parsed_formula(clauses@.map_values(|c: Vec<(u64, bool)>| c@)),
        r.clauses@.len() == clauses@.len(),
{
    let ghost pcs = clauses@.map_values(|c: Vec<(u64, bool)>| c@);
    let mut out: Vec<CNFClause> = Vec::with_capacity(clauses.len());
    let mut j: usize = 0;
    while j < clauses.len()
        invariant
            j <= clauses@.len(),
            pcs == clauses@.map_values(|c: Vec<(u64, bool)>| c@),
            out@.len() == j,
            forall|k: int| 0 <= k < j ==> (#[trigger] out@[k]).vars@ == parsed_formula(pcs)[k],
        decreases clauses@.len() - j,
    {
        let lits = &clauses[j];
        let mut vars: Vec<CNFVar> = Vec::with_capacity(lits.len());
        let mut i: usize = 0;
        while i < lits.len()
            invariant
                i <= lits@.len(),
                vars@ == lits@.take(i as int).map_values(|p: (u64, bool)| parsed_lit(p)),
            decreases lits@.len() - i,
        {
            let (v, s) = lits[i];
            vars.push(CNFVar { id: v as usize, sign: s });
            i += 1;
            assert(vars@ =~= lits@.take(i as int).map_values(|p: (u64, bool)| parsed_lit(p)));
        }
        assert(lits@.take(i as int) =~= lits@);
        assert(pcs[j as int] == lits@);
        out.push(CNFClause { vars });
        j += 1;
    }
    let r = CNF { clauses: out, num_variables: num_vars as usize };
    assert(r.formula() =~= parsed_formula(pcs));
    r
}

impl CNF {
    /// Reads a formula in DIMACS `.cnf` format. The input must not be a
    /// DIMACS `.sat` instance (see [`CNF::try_from_dimacs`]), and no number
    /// in it may have more than 17 digits (see [`numbers_fit_in`]).
    pub fn from_dimacs(input: &str) -> (r: Result<CNF, DimacsError>)
        requires
            dimacs_parse(input@) != Some(ParsedDimacsView::Sat),
            numbers_fit(input@),
        ensures
            match dimacs_parse(input@) {
                None => r is Err,
                Some(ParsedDimacsView::Cnf(n, cs)) => r matches Ok(cnf)
                    && cnf.num_variables == n as usize && cnf.formula() == parsed_formula(cs),
                Some(ParsedDimacsView::Sat) => false,
            },
    {
        match parse_dimacs_text(input) {
            Ok(ParsedDimacs::Cnf { num_vars, clauses }) => Ok(cnf_from_parsed(num_vars, &clauses)),
            Ok(ParsedDimacs::Sat) => vstd::pervasive::unreached(),
            Err(e) => Err(DimacsError { error: e }),
        }
    }

    /// Reads a formula in DIMACS format; `None` when the text is a DIMACS
    /// `.sat` instance, which [`CNF::from_dimacs`] does not accept.
    pub fn try_from_dimacs(input: &str) -> (r: Option<Result<CNF, DimacsError>>)
        requires
            numbers_fit(input@),
        ensures
            r is None <==> dimacs_parse(input@) == Some(ParsedDimacsView::Sat),
            r matches Some(res) ==> match dimacs_parse(input@) {
                None => res is Err,
                Some(ParsedDimacsView::Cnf(n, cs)) => res matches Ok(cnf)
                    && cnf.num_variables == n as usize && cnf.formula() == parsed_formula(cs),
                Some(ParsedDimacsView::Sat) => false,
            },
    {
        match parse_dimacs_text(input) {
            Ok(ParsedDimacs::Sat) => None,
            _ => Some(CNF::from_dimacs(input)),
        }
    }
}

} // verus!
