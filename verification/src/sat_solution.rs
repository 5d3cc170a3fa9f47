//! The answer of a solver.
use vstd::prelude::*;
use crate::text::{digit_char, nat_text, push_nat, string_push, string_push_str};

verus! {

/// A valuation: entry `i` is the value of variable `i + 1`.
pub type Valuation = Vec<bool>;

/// How many literals a `v` line of the DIMACS answer holds.
pub const MAX_LITERALS_PER_LINE: usize = 8;

/// The answer of a solver.
#[derive(PartialEq, Eq, Clone, Debug)]
pub enum SATSolution {
    Satisfiable(Valuation),
    Unsatisfiable,
    Unknown,
}

/// The word for variable `i + 1` in an answer: a space when it is true, a
/// minus when it is false, then its number.
pub open spec fn value_word(v: Seq<bool>, i: int) -> Seq<char> {
    seq![if v[i] { ' ' } else { '-' }] + nat_text((i + 1) as nat)
}

/// The words for the variables `from + 1 ..= to`, each followed by a space.
pub open spec fn value_words(v: Seq<bool>, from: int, to: int) -> Seq<char>
    decreases to - from,
{
    if to <= from {
        Seq::empty()
    } else {
        value_words(v, from, to - 1) + value_word(v, to - 1) + seq![' ']
    }
}

/// The end of the line that starts at `start`.
pub open spec fn line_end(len: int, start: int) -> int {
    if start + MAX_LITERALS_PER_LINE < len { start + MAX_LITERALS_PER_LINE } else { len }
}

/// The `v` lines of the DIMACS answer from variable `start + 1` on.
pub open spec fn dimacs_value_lines(v: Seq<bool>, start: int) -> Seq<char>
    decreases v.len() - start,
{
    if start < 0 || start >= v.len() {
        Seq::empty()
    } else {
        seq!['v', ' '] + value_words(v, start, line_end(v.len() as int, start)) + seq!['0', '\n']
            + dimacs_value_lines(v, line_end(v.len() as int, start))
    }
}

/// The lines of the readable answer from variable `start + 1` on.
pub open spec fn display_value_lines(v: Seq<bool>, start: int) -> Seq<char>
    decreases v.len() - start,
{
    if start < 0 || start >= v.len() {
        Seq::empty()
    } else {
        value_words(v, start, line_end(v.len() as int, start)) + seq!['\n']
            + display_value_lines(v, line_end(v.len() as int, start))
    }
}

/// The answer in DIMACS output format.
pub open spec fn solution_dimacs(s: SATSolution) -> Seq<char> {
    match s {
        SATSolution::Unsatisfiable => "s UNSATISFIABLE\n"@,
        SATSolution::Unknown => "s UNKNOWN\n"@,
        SATSolution::Satisfiable(v) => "s SATISFIABLE\n"@ + dimacs_value_lines(v@, 0) + "\n"@,
    }
}

/// The readable answer.
pub open spec fn solution_display(s: SATSolution) -> Seq<char> {
    match s {
        SATSolution::Unsatisfiable => "Unsatisfiable"@,
        SATSolution::Unknown => "Unknown"@,
        SATSolution::Satisfiable(v) => "Satisfiable:\n"@ + display_value_lines(v@, 0),
    }
}

/// The test for a line break.
pub open spec fn newline_test() -> spec_fn(char) -> bool {
    |c: char| c == '\n'
}

/// The number of line breaks in a text.
pub open spec fn line_breaks(s: Seq<char>) -> nat {
    s.filter(newline_test()).len()
}

/// Line breaks add up over concatenation.
proof fn lemma_line_breaks_add(a: Seq<char>, b: Seq<char>)
    ensures
        line_breaks(a + b) == line_breaks(a) + line_breaks(b),
{
    Seq::filter_distributes_over_add(a, b, newline_test());
}

/// A single character is one line break or none.
proof fn lemma_line_breaks_char(c: char)
    ensures
        line_breaks(seq![c]) == if c == '\n' { 1nat } else { 0nat },
{
    reveal(Seq::filter);
    assert(seq![c].drop_last() =~= Seq::<char>::empty());
    assert(Seq::<char>::empty().filter(newline_test()) =~= Seq::<char>::empty());
}

/// A number's notation holds no line break.
proof fn lemma_nat_text_unbroken(n: nat)
    ensures
        line_breaks(nat_text(n)) == 0,
    decreases n,
{
    if n < 10 {
        lemma_line_breaks_char(digit_char(n));
    } else {
        lemma_nat_text_unbroken(n / 10);
        lemma_line_breaks_char(digit_char((n % 10) as nat));
        assert(nat_text(n) == nat_text(n / 10) + seq![digit_char((n % 10) as nat)]);
        lemma_line_breaks_add(nat_text(n / 10), seq![digit_char((n % 10) as nat)]);
    }
}

/// The words of a line hold no line break.
proof fn lemma_value_words_unbroken(v: Seq<bool>, from: int, to: int)
    requires
        0 <= from,
        to <= v.len(),
    ensures
        line_breaks(value_words(v, from, to)) == 0,
    decreases to - from,
{
    if to > from {
        lemma_value_words_unbroken(v, from, to - 1);
        let c = if v[to - 1] { ' ' } else { '-' };
        lemma_line_breaks_char(c);
        lemma_nat_text_unbroken(to as nat);
        lemma_line_breaks_add(seq![c], nat_text(to as nat));
        lemma_line_breaks_char(' ');
        lemma_line_breaks_add(value_words(v, from, to - 1), value_word(v, to - 1));
        lemma_line_breaks_add(value_words(v, from, to - 1) + value_word(v, to - 1), seq![' ']);
    }
}

/// The `v` lines from variable `start + 1` on are one line per eight
/// variables, the last one possibly shorter.
proof fn lemma_value_lines_count(v: Seq<bool>, start: int)
    requires
        0 <= start <= v.len(),
    ensures
        line_breaks(dimacs_value_lines(v, start)) == (v.len() - start + 7) / 8,
    decreases v.len() - start,
{
    if start < v.len() {
        let end = line_end(v.len() as int, start);
        lemma_value_lines_count(v, end);
        lemma_value_words_unbroken(v, start, end);
        let head = seq!['v', ' '];
        let tail = seq!['0', '\n'];
        assert(line_breaks(head) == 0) by {
            assert(head == seq!['v'] + seq![' ']);
            lemma_line_breaks_char('v');
            lemma_line_breaks_char(' ');
            lemma_line_breaks_add(seq!['v'], seq![' ']);
        }
        assert(line_breaks(tail) == 1) by {
            assert(tail == seq!['0'] + seq!['\n']);
            lemma_line_breaks_char('0');
            lemma_line_breaks_char('\n');
            lemma_line_breaks_add(seq!['0'], seq!['\n']);
        }
        let words = value_words(v, start, end);
        lemma_line_breaks_add(head, words);
        lemma_line_breaks_add(head + words, tail);
        lemma_line_breaks_add(head + words + tail, dimacs_value_lines(v, end));
    }
}

/// The DIMACS answer for a valuation of `n` variables has one `v` line for
/// every eight variables, the last one possibly shorter: `ceil(n / 8)` lines.
pub proof fn lemma_dimacs_line_count(v: Seq<bool>)
    ensures
        line_breaks(dimacs_value_lines(v, 0)) == (v.len() + 7) / 8,
{
    lemma_value_lines_count(v, 0);
}

/// Appends the words for the variables `from + 1 ..= to`.
fn push_value_words(out: &mut String, v: &Vec<bool>, from: usize, to: usize)
    requires
        from <= to <= v@.len(),
    ensures
        final(out)@ == old(out)@ + value_words(v@, from as int, to as int),
{
    let mut i = from;
    while i < to
        invariant
            from <= i <= to <= v@.len(),
            out@ == old(out)@ + value_words(v@, from as int, i as int),
        decreases to - i,
    {
        if v[i] {
            string_push(out, ' ');
        } else {
            string_push(out, '-');
        }
        push_nat(out, (i + 1) as u64);
        string_push(out, ' ');
        i += 1;
        assert(out@ =~= old(out)@ + value_words(v@, from as int, i as int));
    }
}

impl SATSolution {
    pub fn from_valuation(v: Valuation) -> (r: SATSolution)
        ensures
            r == SATSolution::Satisfiable(v),
    {
        SATSolution::Satisfiable(v)
    }

    pub fn is_sat(&self) -> (r: bool)
        ensures
            r == (self is Satisfiable),
    {
        match self {
            SATSolution::Satisfiable(_) => true,
            _ => false,
        }
    }

    pub fn is_unsat(&self) -> (r: bool)
        ensures
            r == (self is Unsatisfiable),
    {
        match self {
            SATSolution::Unsatisfiable => true,
            _ => false,
        }
    }

    pub fn is_unknown(&self) -> (r: bool)
        ensures
            r == (self is Unknown),
    {
        match self {
            SATSolution::Unknown => true,
            _ => false,
        }
    }

    /// The answer in DIMACS output format: `s UNSATISFIABLE`, `s UNKNOWN`, or
    /// `s SATISFIABLE` followed by `v` lines of at most eight literals each.
    pub fn to_dimacs(&self) -> (r: String)
        ensures
            r@ == solution_dimacs(*self),
    {
        let mut out = String::new();
        match self {
            SATSolution::Unsatisfiable => {
                string_push_str(&mut out, "s UNSATISFIABLE\n");
            },
            SATSolution::Unknown => {
                string_push_str(&mut out, "s UNKNOWN\n");
            },
            SATSolution::Satisfiable(v) => {
                string_push_str(&mut out, "s SATISFIABLE\n");
                let ghost header = out@;
                let mut start: usize = 0;
                while start < v.len()
                    invariant
                        start <= v@.len(),
                        out@ + dimacs_value_lines(v@, start as int) == header + dimacs_value_lines(v@, 0),
                    decreases v@.len() - start,
                {
                    let end = if v.len() - start > MAX_LITERALS_PER_LINE {
                        start + MAX_LITERALS_PER_LINE
                    } else {
                        v.len()
                    };
                    assert(end == line_end(v@.len() as int, start as int));
                    let ghost before = out@;
                    string_push(&mut out, 'v');
                    string_push(&mut out, ' ');
                    push_value_words(&mut out, v, start, end);
                    string_push(&mut out, '0');
                    string_push(&mut out, '\n');
                    assert(out@ =~= before + seq!['v', ' '] + value_words(v@, start as int, end as int) + seq!['0', '\n']);
                    assert(dimacs_value_lines(v@, start as int) == seq!['v', ' '] + value_words(v@, start as int, end as int)
                        + seq!['0', '\n'] + dimacs_value_lines(v@, end as int));
                    assert(out@ + dimacs_value_lines(v@, end as int) =~= before + dimacs_value_lines(v@, start as int));
                    start = end;
                }
                assert(dimacs_value_lines(v@, start as int) == Seq::<char>::empty());
                assert(out@ =~= header + dimacs_value_lines(v@, 0));
                string_push_str(&mut out, "\n");
            },
        }
        out
    }

    /// The readable answer: `Unsatisfiable`, `Unknown`, or `Satisfiable:`
    /// followed by lines of at most eight literals each.
    pub fn to_display_string(&self) -> (r: String)
        ensures
            r@ == solution_display(*self),
    {
        let mut out = String::new();
        match self {
            SATSolution::Unsatisfiable => {
                string_push_str(&mut out, "Unsatisfiable");
            },
            SATSolution::Unknown => {
                string_push_str(&mut out, "Unknown");
            },
            SATSolution::Satisfiable(v) => {
                string_push_str(&mut out, "Satisfiable:\n");
                let ghost header = out@;
                let mut start: usize = 0;
                while start < v.len()
                    invariant
                        start <= v@.len(),
                        out@ + display_value_lines(v@, start as int) == header + display_value_lines(v@, 0),
                    decreases v@.len() - start,
                {
                    let end = if v.len() - start > MAX_LITERALS_PER_LINE {
                        start + MAX_LITERALS_PER_LINE
                    } else {
                        v.len()
                    };
                    let ghost before = out@;
                    push_value_words(&mut out, v, start, end);
                    string_push(&mut out, '\n');
                    assert(display_value_lines(v@, start as int) == value_words(v@, start as int, end as int)
                        + seq!['\n'] + display_value_lines(v@, end as int));
                    assert(out@ + display_value_lines(v@, end as int) =~= before + display_value_lines(v@, start as int));
                    start = end;
                }
                assert(display_value_lines(v@, start as int) == Seq::<char>::empty());
                assert(out@ =~= header + display_value_lines(v@, 0));
            },
        }
        out
    }
}

} // verus!
