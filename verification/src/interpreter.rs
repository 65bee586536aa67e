//! Running a program: reading its statements, recording the assignments, and replacing and
//! reducing each expression until it stops changing, with a written record of each stage.

use vstd::prelude::*;
use crate::error::{ParseError, Parsed};
use crate::text::{push_char, push_str};
use crate::ast::expr::{
    Assignment, Statement, Unzip, Unzipped, assignments_of, expressions_of, parse_statements,
};
use crate::ast::node::{Node, Term, term_len};
use crate::ast::node::node_ref::NodeRef;
use crate::ast::node::deep_clone::NodeDeepClone;
use crate::ast::node::display::{display_ok, term_text};
use crate::ast::node::rewriting::{lemma_subst_assign_empty, node_reduce, subst_assign};
use crate::ast::node::assignments::{Assignments, insert_many_assignments, insert_many_spec};
use crate::ast::node::variable::{VarV, var_text};
use crate::cli::{CLIArgs, LogLevel, level_rank};
use crate::stdlib::{stdlib_assignments, stdlib_table};

verus! {

/// Why a run gives no output.
#[derive(Debug, Clone, Copy, PartialEq, Eq, Structural)]
pub enum InterpretError {
    /// The program text does not read.
    Parse(ParseError),
    /// The run would stop the program here: a reduction it does not handle, a term that cannot
    /// be written out or whose length does not fit in a `usize`, or a standard library that
    /// does not read.
    Stops,
    /// An expression kept changing for more rounds than the run allowed.
    OutOfFuel,
}

/// The record of one expression: the expression as read, the terms it became as assigned names
/// were replaced, and the terms it became as it was reduced.
#[derive(Debug)]
pub struct NodeHist {
    pub original: NodeDeepClone,
    pub assignment_subs: Vec<NodeDeepClone>,
    pub reductions: Vec<NodeDeepClone>,
}

/// The value of a record: the terms it holds.
pub struct HistV {
    pub original: Term,
    pub subs: Seq<Term>,
    pub reductions: Seq<Term>,
}

/// The terms the copies stand for.
pub open spec fn clone_terms(v: Seq<NodeDeepClone>) -> Seq<Term> {
    v.map_values(|c: NodeDeepClone| c@)
}

impl View for NodeHist {
    type V = HistV;

    open spec fn view(&self) -> HistV {
        HistV {
            original: self.original@,
            subs: clone_terms(self.assignment_subs@),
            reductions: clone_terms(self.reductions@),
        }
    }
}

impl NodeHist {
    /// A record of `original` with no stages yet.
    pub fn new(original: NodeDeepClone) -> (r: NodeHist)
        ensures
            r@ == (HistV { original: original@, subs: Seq::empty(), reductions: Seq::empty() }),
    {
        let r = NodeHist { original, assignment_subs: Vec::new(), reductions: Vec::new() };
        assert(r@.subs =~= Seq::<Term>::empty());
        assert(r@.reductions =~= Seq::<Term>::empty());
        r
    }
}

/// How a loop that rewrites a term until it stops changing ends: with the terms it recorded,
/// stopping the program, or out of rounds.
pub enum Trace {
    Done(Seq<Term>),
    Stops,
    OutOfFuel,
}

/// `pre` put in front of the terms of `tr`, if it ended with terms.
pub open spec fn prepend_all(pre: Seq<Term>, tr: Trace) -> Trace {
    match tr {
        Trace::Done(s) => Trace::Done(pre + s),
        Trace::Stops => Trace::Stops,
        Trace::OutOfFuel => Trace::OutOfFuel,
    }
}

/// The terms the replacing loop records after it recorded `last`, with `fuel` more rounds
/// allowed: the next term is `last` with the assigned names replaced; the loop ends when that
/// is `last` again.
pub open spec fn subs_after(last: Term, a: Map<VarV, Term>, fuel: nat) -> Trace
    decreases fuel,
{
    let next = subst_assign(last, a, None);
    if next == last {
        Trace::Done(Seq::empty())
    } else if fuel == 0 {
        Trace::OutOfFuel
    } else {
        prepend_all(seq![next], subs_after(next, a, (fuel - 1) as nat))
    }
}

/// The terms the replacing loop records for the expression `t`: it always records the first
/// replacement, then goes on until a replacement changes nothing.
pub open spec fn subst_trace(t: Term, a: Map<VarV, Term>, fuel: nat) -> Trace {
    let t1 = subst_assign(t, a, None);
    prepend_all(seq![t1], subs_after(t1, a, fuel))
}

/// The terms the reducing loop records after it recorded `last`, with `fuel` more rounds
/// allowed: the next term is `last` reduced by one step; the loop ends when that is `last`
/// again.
pub open spec fn reds_after(last: Term, fuel: nat) -> Trace
    decreases fuel,
{
    match node_reduce(last, None, None) {
        None => Trace::Stops,
        Some(next) => if next == last {
            Trace::Done(Seq::empty())
        } else if fuel == 0 {
            Trace::OutOfFuel
        } else {
            prepend_all(seq![next], reds_after(next, (fuel - 1) as nat))
        },
    }
}

/// The terms the reducing loop records for the term `t`: it always records the first step, then
/// goes on until a step changes nothing.
pub open spec fn reduce_trace(t: Term, fuel: nat) -> Trace {
    match node_reduce(t, None, None) {
        None => Trace::Stops,
        Some(t1) => prepend_all(seq![t1], reds_after(t1, fuel)),
    }
}

/// The record of the expression `t`, or why there is none.
pub open spec fn hist_of(t: Term, a: Map<VarV, Term>, fuel: nat) -> Result<HistV, InterpretError> {
    match subst_trace(t, a, fuel) {
        Trace::Done(subs) => match reduce_trace(subs.last(), fuel) {
            Trace::Done(reds) => Ok(HistV { original: t, subs, reductions: reds }),
            Trace::Stops => Err(InterpretError::Stops),
            Trace::OutOfFuel => Err(InterpretError::OutOfFuel),
        },
        Trace::Stops => Err(InterpretError::Stops),
        Trace::OutOfFuel => Err(InterpretError::OutOfFuel),
    }
}

/// The records of the expressions `ts` in order; the first expression without one decides why
/// there are none.
pub open spec fn hists_of(ts: Seq<Term>, a: Map<VarV, Term>, fuel: nat) -> Result<
    Seq<HistV>,
    InterpretError,
>
    decreases ts.len(),
{
    if ts.len() == 0 {
        Ok(Seq::empty())
    } else {
        match hists_of(ts.drop_last(), a, fuel) {
            Ok(hs) => match hist_of(ts.last(), a, fuel) {
                Ok(h) => Ok(hs.push(h)),
                Err(e) => Err(e),
            },
            Err(e) => Err(e),
        }
    }
}

proof fn lemma_prepend_all_push(pre: Seq<Term>, t: Term, tr: Trace)
    ensures
        prepend_all(pre, prepend_all(seq![t], tr)) == prepend_all(pre.push(t), tr),
{
    match tr {
        Trace::Done(s) => {
            assert(pre + (seq![t] + s) =~= pre.push(t) + s);
        },
        _ => {},
    }
}

/// Replaces the assigned names in `expr` again and again until that changes nothing, giving
/// back a copy of each term it became (see `subst_trace`).
fn replace_until_fixed(expr: &mut NodeRef<Node>, a: &Assignments, fuel: usize) -> (r: Result<
    Vec<NodeDeepClone>,
    InterpretError,
>)
    requires
        a.wf(),
    ensures
        match subst_trace(old(expr)@, a@, fuel as nat) {
            Trace::Done(subs) => r matches Ok(v) && clone_terms(v@) == subs && subs.len() > 0
                && final(expr)@ == subs.last(),
            Trace::Stops => false,
            Trace::OutOfFuel => r == Err::<Vec<NodeDeepClone>, InterpretError>(
                InterpretError::OutOfFuel,
            ),
        },
{
    let ghost t0 = expr@;
    Node::substitute_assignments(expr, a, None);
    let mut subs: Vec<NodeDeepClone> = Vec::new();
    subs.push(expr.deep_clone());
    let mut left = fuel;
    assert(clone_terms(subs@) =~= seq![expr@]);
    while true
        invariant
            a.wf(),
            t0 == old(expr)@,
            subs.len() > 0,
            clone_terms(subs@).last() == expr@,
            subst_trace(t0, a@, fuel as nat) == prepend_all(
                clone_terms(subs@),
                subs_after(expr@, a@, left as nat),
            ),
        decreases left,
    {
        let ghost last = expr@;
        let ghost before = clone_terms(subs@);
        Node::substitute_assignments(expr, a, None);
        let copy = expr.deep_clone();
        let last_index = subs.len() - 1;
        assert(clone_terms(subs@)[last_index as int] == subs@[last_index as int]@);
        if subs[last_index].same_as(&copy) {
            assert(expr@ == last);
            assert(before + Seq::<Term>::empty() =~= before);
            return Ok(subs);
        }
        if left == 0 {
            return Err(InterpretError::OutOfFuel);
        }
        proof {
            lemma_prepend_all_push(before, expr@, subs_after(expr@, a@, (left - 1) as nat));
        }
        left = left - 1;
        subs.push(copy);
        assert(clone_terms(subs@) =~= before.push(expr@));
    }
    Err(InterpretError::OutOfFuel)
}

/// Reduces `expr` again and again until a step changes nothing, giving back a copy of each term
/// it became (see `reduce_trace`).
fn reduce_until_fixed(expr: &mut NodeRef<Node>, fuel: usize) -> (r: Result<
    Vec<NodeDeepClone>,
    InterpretError,
>)
    ensures
        match reduce_trace(old(expr)@, fuel as nat) {
            Trace::Done(reds) => r matches Ok(v) && clone_terms(v@) == reds,
            Trace::Stops => r == Err::<Vec<NodeDeepClone>, InterpretError>(InterpretError::Stops),
            Trace::OutOfFuel => r == Err::<Vec<NodeDeepClone>, InterpretError>(
                InterpretError::OutOfFuel,
            ),
        },
{
    let ghost t0 = expr@;
    if !Node::can_reduce(expr) {
        return Err(InterpretError::Stops);
    }
    Node::reduce(expr, None, None);
    let mut reds: Vec<NodeDeepClone> = Vec::new();
    reds.push(expr.deep_clone());
    let mut left = fuel;
    assert(clone_terms(reds@) =~= seq![expr@]);
    while true
        invariant
            t0 == old(expr)@,
            reds.len() > 0,
            clone_terms(reds@).last() == expr@,
            reduce_trace(t0, fuel as nat) == prepend_all(
                clone_terms(reds@),
                reds_after(expr@, left as nat),
            ),
        decreases left,
    {
        let ghost before = clone_terms(reds@);
        if !Node::can_reduce(expr) {
            return Err(InterpretError::Stops);
        }
        Node::reduce(expr, None, None);
        let copy = expr.deep_clone();
        let last_index = reds.len() - 1;
        assert(clone_terms(reds@)[last_index as int] == reds@[last_index as int]@);
        if reds[last_index].same_as(&copy) {
            assert(before + Seq::<Term>::empty() =~= before);
            return Ok(reds);
        }
        if left == 0 {
            return Err(InterpretError::OutOfFuel);
        }
        proof {
            lemma_prepend_all_push(before, expr@, reds_after(expr@, (left - 1) as nat));
        }
        left = left - 1;
        reds.push(copy);
        assert(clone_terms(reds@) =~= before.push(expr@));
    }
    Err(InterpretError::OutOfFuel)
}

/// Records each expression of `statements` in order: its assigned names replaced until that
/// changes nothing, then reduced until that changes nothing. The first expression that cannot
/// be recorded gives the error.
pub fn handle_expressions(statements: &Unzipped, assignments: &Assignments, fuel: usize) -> (r:
    Result<Vec<NodeHist>, InterpretError>)
    requires
        assignments.wf(),
    ensures
        match hists_of(
            statements.expressions@.map_values(|e: NodeRef<Node>| e@),
            assignments@,
            fuel as nat,
        ) {
            Ok(hs) => r matches Ok(v) && v@.map_values(|h: NodeHist| h@) == hs,
            Err(e) => r == Err::<Vec<NodeHist>, InterpretError>(e),
        },
{
    let ghost ts = statements.expressions@.map_values(|e: NodeRef<Node>| e@);
    let mut hists: Vec<NodeHist> = Vec::new();
    let mut i: usize = 0;
    assert(ts.take(0) =~= Seq::<Term>::empty());
    assert(hists@.map_values(|h: NodeHist| h@) =~= Seq::<HistV>::empty());
    while i < statements.expressions.len()
        invariant
            assignments.wf(),
            i <= statements.expressions.len(),
            ts == statements.expressions@.map_values(|e: NodeRef<Node>| e@),
            hists_of(ts.take(i as int), assignments@, fuel as nat) == Ok::<
                Seq<HistV>,
                InterpretError,
            >(hists@.map_values(|h: NodeHist| h@)),
        decreases statements.expressions.len() - i,
    {
        let ghost before = hists@.map_values(|h: NodeHist| h@);
        assert(ts.take(i + 1).drop_last() =~= ts.take(i as int));
        assert(ts.take(i + 1).last() == ts[i as int]);
        let expression = &statements.expressions[i];
        assert(expression@ == ts[i as int]);
        let mut hist = NodeHist::new(expression.deep_clone());
        let mut work = NodeRef::new(expression.borrow().duplicate());
        match replace_until_fixed(&mut work, assignments, fuel) {
            Ok(subs) => {
                hist.assignment_subs = subs;
            },
            Err(e) => {
                proof {
                    lemma_hists_err_extends(ts, assignments@, fuel as nat, i as int + 1);
                }
                return Err(e);
            },
        }
        match reduce_until_fixed(&mut work, fuel) {
            Ok(reds) => {
                hist.reductions = reds;
            },
            Err(e) => {
                proof {
                    lemma_hists_err_extends(ts, assignments@, fuel as nat, i as int + 1);
                }
                return Err(e);
            },
        }
        let ghost hv = hist@;
        hists.push(hist);
        assert(hists@.map_values(|h: NodeHist| h@) =~= before.push(hv));
        i = i + 1;
    }
    assert(ts.take(i as int) =~= ts);
    Ok(hists)
}

/// Once the records of a prefix of the expressions fail, the records of all of them fail the
/// same way.
proof fn lemma_hists_err_extends(ts: Seq<Term>, a: Map<VarV, Term>, fuel: nat, i: int)
    requires
        0 <= i <= ts.len(),
        hists_of(ts.take(i), a, fuel) is Err,
    ensures
        hists_of(ts, a, fuel) == hists_of(ts.take(i), a, fuel),
    decreases ts.len() - i,
{
    if i == ts.len() {
        assert(ts.take(i) =~= ts);
    } else {
        assert(ts.take(i + 1).drop_last() =~= ts.take(i));
        lemma_hists_err_extends(ts, a, fuel, i + 1);
    }
}

/// Whether a term can be written out and its length fits in a `usize`.
pub open spec fn printable(t: Term) -> bool {
    display_ok(t) && term_len(t) <= usize::MAX
}

/// A row of `n` equals signs.
pub open spec fn rule(n: nat) -> Seq<char> {
    Seq::new(n, |i: int| '=')
}

/// The heading line of a section: 25 equals signs, the title between spaces, 25 equals signs.
pub open spec fn banner(title: Seq<char>) -> Seq<char> {
    rule(25) + seq![' '] + title + seq![' '] + rule(25) + seq!['\n']
}

/// How an assignment is written out: `name := term`.
pub open spec fn assignment_text(a: (VarV, Term)) -> Seq<char> {
    var_text(a.0) + " := "@ + term_text(a.1)
}

/// The assignments `asg` written out one to a line.
pub open spec fn assignment_lines(asg: Seq<(VarV, Term)>) -> Seq<char>
    decreases asg.len(),
{
    if asg.len() == 0 {
        Seq::empty()
    } else {
        assignment_lines(asg.drop_last()) + assignment_text(asg.last()) + seq!['\n']
    }
}

/// What a run writes about the assignments it read: from the level `Assignment` on, a heading
/// (where there are any) and the assignments one to a line; below it nothing.
pub open spec fn assignments_section(asg: Seq<(VarV, Term)>, level: LogLevel) -> Seq<char> {
    if level_rank(level) >= level_rank(LogLevel::Assignment) {
        (if asg.len() > 0 {
            banner("Assignments"@)
        } else {
            Seq::empty()
        }) + assignment_lines(asg)
    } else {
        Seq::empty()
    }
}

/// Whether the term of every assignment in `asg` can be written out.
pub open spec fn bodies_printable(asg: Seq<(VarV, Term)>) -> bool {
    forall|i: int| 0 <= i < asg.len() ==> printable(#[trigger] asg[i].1)
}

/// Whether the assignments section can be written out.
pub open spec fn assignments_printable(asg: Seq<(VarV, Term)>, level: LogLevel) -> bool {
    level_rank(level) >= level_rank(LogLevel::Assignment) ==> bodies_printable(asg)
}

/// The terms `ts` written out one to a line, each after `prefix`.
pub open spec fn term_lines(prefix: Seq<char>, ts: Seq<Term>) -> Seq<char>
    decreases ts.len(),
{
    if ts.len() == 0 {
        Seq::empty()
    } else {
        term_lines(prefix, ts.drop_last()) + prefix + term_text(ts.last()) + seq!['\n']
    }
}

/// Whether every term of `ts` can be written out.
pub open spec fn all_printable(ts: Seq<Term>) -> bool {
    forall|i: int| 0 <= i < ts.len() ==> printable(#[trigger] ts[i])
}

/// What a run writes about one expression: from the level `All` on, a heading and the
/// expression as read; from `AssignmentReplacements` on, the terms it became as names were
/// replaced (where there are any); and the terms it became as it was reduced.
pub open spec fn hist_section(h: HistV, level: LogLevel) -> Seq<char> {
    (if level_rank(level) >= level_rank(LogLevel::All) {
        banner("Expressions"@) + "(Original)\n\t"@ + term_text(h.original) + "\n\n"@
    } else {
        Seq::empty()
    }) + (if level_rank(level) >= level_rank(LogLevel::AssignmentReplacements) && h.subs.len()
        > 0 {
        "(Assignment Replacements)\n"@ + term_lines("\t"@, h.subs) + seq!['\n']
    } else {
        Seq::empty()
    }) + (if level_rank(level) >= level_rank(LogLevel::ReductionsOnly) {
        "(Reductions):\n"@ + term_lines("     => "@, h.reductions)
    } else {
        Seq::empty()
    })
}

/// Whether the section about one expression can be written out.
pub open spec fn hist_printable(h: HistV, level: LogLevel) -> bool {
    &&& level_rank(level) >= level_rank(LogLevel::All) ==> printable(h.original)
    &&& level_rank(level) >= level_rank(LogLevel::AssignmentReplacements) ==> all_printable(h.subs)
    &&& level_rank(level) >= level_rank(LogLevel::ReductionsOnly) ==> all_printable(h.reductions)
}

/// The sections about the expressions, in order.
pub open spec fn hists_section(hs: Seq<HistV>, level: LogLevel) -> Seq<char>
    decreases hs.len(),
{
    if hs.len() == 0 {
        Seq::empty()
    } else {
        hists_section(hs.drop_last(), level) + hist_section(hs.last(), level)
    }
}

/// Whether every expression's section can be written out.
pub open spec fn hists_printable(hs: Seq<HistV>, level: LogLevel) -> bool {
    forall|i: int| 0 <= i < hs.len() ==> hist_printable(#[trigger] hs[i], level)
}

/// What a run of the program `input` writes, or why it writes nothing: the table starts from
/// the standard library unless `nostdlib`; the statements are read; the assignments are written
/// out and added to the table (see `insert_many_spec`); each expression is recorded; the
/// records are written out; a last empty line ends the text.
pub open spec fn run(input: Seq<char>, nostdlib: bool, level: LogLevel, fuel: nat) -> Result<
    Seq<char>,
    InterpretError,
> {
    let start = if nostdlib {
        Some(Map::<VarV, Term>::empty())
    } else {
        stdlib_table()
    };
    match start {
        None => Err(InterpretError::Stops),
        Some(m0) => match parse_statements(input) {
            Parsed::Refused(e) => Err(InterpretError::Parse(e)),
            Parsed::Aborts => Err(InterpretError::Stops),
            Parsed::Value(sts) => {
                let asg = assignments_of(sts);
                if !assignments_printable(asg, level) {
                    Err(InterpretError::Stops)
                } else {
                    let m1 = insert_many_spec(m0, asg).0;
                    match hists_of(expressions_of(sts), m1, fuel) {
                        Err(e) => Err(e),
                        Ok(hs) => if hists_printable(hs, level) {
                            Ok(assignments_section(asg, level) + hists_section(hs, level) + seq![
                                '\n',
                            ])
                        } else {
                            Err(InterpretError::Stops)
                        },
                    }
                }
            },
        },
    }
}

proof fn lemma_subs_after_fixed(last: Term, a: Map<VarV, Term>, fuel: nat)
    ensures
        subs_after(last, a, fuel) matches Trace::Done(s) ==> (s.len() == 0 ==> subst_assign(
            last,
            a,
            None,
        ) == last) && (s.len() > 0 ==> subst_assign(s.last(), a, None) == s.last()),
    decreases fuel,
{
    let next = subst_assign(last, a, None);
    if next != last && fuel > 0 {
        lemma_subs_after_fixed(next, a, (fuel - 1) as nat);
        match subs_after(next, a, (fuel - 1) as nat) {
            Trace::Done(rest) => {
                assert((seq![next] + rest).last() == if rest.len() > 0 {
                    rest.last()
                } else {
                    next
                });
            },
            _ => {},
        }
    }
}

/// When replacing assigned names comes to an end, it has recorded at least one term, and
/// replacing names in the last one changes nothing.
pub proof fn lemma_subst_trace_fixed(t: Term, a: Map<VarV, Term>, fuel: nat)
    ensures
        subst_trace(t, a, fuel) matches Trace::Done(s) ==> s.len() > 0 && subst_assign(
            s.last(),
            a,
            None,
        ) == s.last(),
{
    let t1 = subst_assign(t, a, None);
    lemma_subs_after_fixed(t1, a, fuel);
    match subs_after(t1, a, fuel) {
        Trace::Done(rest) => {
            assert((seq![t1] + rest).last() == if rest.len() > 0 {
                rest.last()
            } else {
                t1
            });
        },
        _ => {},
    }
}

proof fn lemma_reds_after_fixed(last: Term, fuel: nat)
    ensures
        reds_after(last, fuel) matches Trace::Done(s) ==> (s.len() == 0 ==> node_reduce(
            last,
            None,
            None,
        ) == Some(last)) && (s.len() > 0 ==> node_reduce(s.last(), None, None) == Some(s.last())),
    decreases fuel,
{
    match node_reduce(last, None, None) {
        Some(next) => {
            if next != last && fuel > 0 {
                lemma_reds_after_fixed(next, (fuel - 1) as nat);
                match reds_after(next, (fuel - 1) as nat) {
                    Trace::Done(rest) => {
                        assert((seq![next] + rest).last() == if rest.len() > 0 {
                            rest.last()
                        } else {
                            next
                        });
                    },
                    _ => {},
                }
            }
        },
        None => {},
    }
}

/// When reducing comes to an end, it has recorded at least one term, and one more step
/// leaves the last one as it is.
pub proof fn lemma_reduce_trace_fixed(t: Term, fuel: nat)
    ensures
        reduce_trace(t, fuel) matches Trace::Done(s) ==> s.len() > 0 && node_reduce(
            s.last(),
            None,
            None,
        ) == Some(s.last()),
{
    match node_reduce(t, None, None) {
        Some(t1) => {
            lemma_reds_after_fixed(t1, fuel);
            match reds_after(t1, fuel) {
                Trace::Done(rest) => {
                    assert((seq![t1] + rest).last() == if rest.len() > 0 {
                        rest.last()
                    } else {
                        t1
                    });
                },
                _ => {},
            }
        },
        None => {},
    }
}

/// A level writes what every lower level writes: the assignments section of the lower level is
/// empty or the same, and the section about an expression at the lower level ends the one at
/// the higher level.
pub proof fn lemma_higher_level_writes_more(
    asg: Seq<(VarV, Term)>,
    h: HistV,
    lo: LogLevel,
    hi: LogLevel,
)
    requires
        level_rank(lo) <= level_rank(hi),
    ensures
        assignments_section(asg, lo).len() == 0 || assignments_section(asg, lo)
            == assignments_section(asg, hi),
        hist_section(h, lo).len() <= hist_section(h, hi).len(),
        hist_section(h, hi).subrange(
            hist_section(h, hi).len() - hist_section(h, lo).len(),
            hist_section(h, hi).len() as int,
        ) == hist_section(h, lo),
{
    let orig = banner("Expressions"@) + "(Original)\n\t"@ + term_text(h.original) + "\n\n"@;
    let subs = "(Assignment Replacements)\n"@ + term_lines("\t"@, h.subs) + seq!['\n'];
    let reds = "(Reductions):\n"@ + term_lines("     => "@, h.reductions);
    let a_lo = if level_rank(lo) >= 3 { orig } else { Seq::<char>::empty() };
    let a_hi = if level_rank(hi) >= 3 { orig } else { Seq::<char>::empty() };
    let b_lo = if level_rank(lo) >= 1 && h.subs.len() > 0 { subs } else { Seq::<char>::empty() };
    let b_hi = if level_rank(hi) >= 1 && h.subs.len() > 0 { subs } else { Seq::<char>::empty() };
    assert(hist_section(h, lo) == a_lo + b_lo + reds);
    assert(hist_section(h, hi) == a_hi + b_hi + reds);
    let whole = hist_section(h, hi);
    let part = hist_section(h, lo);
    if level_rank(lo) >= 3 {
        assert(part =~= whole);
        assert(whole.subrange(0, whole.len() as int) =~= whole);
    } else if level_rank(lo) >= 1 {
        assert(part =~= b_hi + reds);
        assert(whole =~= a_hi + part);
        assert(whole.subrange(whole.len() - part.len(), whole.len() as int) =~= part);
    } else {
        assert(part =~= reds);
        assert(whole =~= (a_hi + b_hi) + part);
        assert(whole.subrange(whole.len() - part.len(), whole.len() as int) =~= part);
    }
}

/// Whether `a` is `b` with some items left out (matched from the left).
pub open spec fn subsequence<A>(a: Seq<A>, b: Seq<A>) -> bool
    decreases b.len(),
{
    if a.len() == 0 {
        true
    } else if b.len() == 0 {
        false
    } else if a[0] == b[0] {
        subsequence(a.drop_first(), b.drop_first())
    } else {
        subsequence(a, b.drop_first())
    }
}

proof fn lemma_subsequence_refl<A>(a: Seq<A>)
    ensures
        subsequence(a, a),
    decreases a.len(),
{
    if a.len() > 0 {
        lemma_subsequence_refl(a.drop_first());
    }
}

proof fn lemma_subsequence_prefix_more<A>(a: Seq<A>, b: Seq<A>, c: Seq<A>)
    requires
        subsequence(a, b),
    ensures
        subsequence(a, c + b),
    decreases c.len(),
{
    if c.len() > 0 && a.len() > 0 {
        lemma_subsequence_prefix_more(a, b, c.drop_first());
        assert((c + b).drop_first() =~= c.drop_first() + b);
        if a[0] == c[0] {
            lemma_subsequence_drop_first(a, c.drop_first() + b);
        }
    }
}

proof fn lemma_subsequence_drop_first<A>(a: Seq<A>, b: Seq<A>)
    requires
        a.len() > 0,
        subsequence(a, b),
    ensures
        subsequence(a.drop_first(), b),
    decreases b.len(),
{
    let a1 = a.drop_first();
    if b.len() > 0 && a1.len() > 0 {
        if a[0] == b[0] {
            if a1[0] == b[0] {
                lemma_subsequence_drop_first(a1, b.drop_first());
            }
        } else {
            lemma_subsequence_drop_first(a, b.drop_first());
            if a1[0] == b[0] {
                lemma_subsequence_drop_first(a1, b.drop_first());
            }
        }
    }
}

proof fn lemma_subsequence_concat<A>(a1: Seq<A>, b1: Seq<A>, a2: Seq<A>, b2: Seq<A>)
    requires
        subsequence(a1, b1),
        subsequence(a2, b2),
    ensures
        subsequence(a1 + a2, b1 + b2),
    decreases b1.len(),
{
    if a1.len() == 0 {
        assert(a1 + a2 =~= a2);
        lemma_subsequence_prefix_more(a2, b2, b1);
    } else {
        assert((a1 + a2)[0] == a1[0]);
        assert((b1 + b2)[0] == b1[0]);
        assert((a1 + a2).drop_first() =~= a1.drop_first() + a2);
        assert((b1 + b2).drop_first() =~= b1.drop_first() + b2);
        if a1[0] == b1[0] {
            lemma_subsequence_concat(a1.drop_first(), b1.drop_first(), a2, b2);
        } else {
            lemma_subsequence_concat(a1, b1.drop_first(), a2, b2);
        }
    }
}

/// Where the line of `s` that holds position `i` ends: just after the next `\n`, or at the
/// end of `s`.
pub open spec fn line_end(s: Seq<char>, i: int) -> int
    decreases s.len() - i,
{
    if i < 0 || i >= s.len() {
        s.len() as int
    } else if s[i] == '\n' {
        i + 1
    } else {
        line_end(s, i + 1)
    }
}

/// A line that holds a position of the text ends after it and within the text.
pub proof fn lemma_line_end_bounds(s: Seq<char>, i: int)
    requires
        0 <= i < s.len(),
    ensures
        i < line_end(s, i) <= s.len(),
    decreases s.len() - i,
{
    if s[i] != '\n' {
        if i + 1 < s.len() {
            lemma_line_end_bounds(s, i + 1);
        } else {
            assert(line_end(s, i + 1) == s.len());
        }
    }
}

/// The lines of `s` in order, each with the `\n` that closes it (the last may have none).
pub open spec fn lines(s: Seq<char>) -> Seq<Seq<char>>
    decreases s.len(),
{
    if s.len() == 0 {
        Seq::empty()
    } else {
        proof {
            lemma_line_end_bounds(s, 0);
        }
        let k = line_end(s, 0);
        seq![s.take(k)] + lines(s.skip(k))
    }
}

/// Whether `s` is empty or ends a line.
pub open spec fn ends_line(s: Seq<char>) -> bool {
    s.len() == 0 || s.last() == '\n'
}

proof fn lemma_ends_line_concat(x: Seq<char>, y: Seq<char>)
    requires
        ends_line(y),
        y.len() == 0 ==> ends_line(x),
    ensures
        ends_line(x + y),
{
    if y.len() == 0 {
        assert(x + y =~= x);
    } else {
        assert((x + y).last() == y.last());
    }
}

proof fn lemma_line_end_concat(x: Seq<char>, y: Seq<char>, i: int)
    requires
        0 <= i < x.len(),
        x.last() == '\n',
    ensures
        line_end(x + y, i) == line_end(x, i),
    decreases x.len() - i,
{
    assert((x + y)[i] == x[i]);
    if x[i] != '\n' {
        lemma_line_end_concat(x, y, i + 1);
    }
}

/// The lines of a text that ends a line, followed by more text, are its lines followed by
/// the lines of what follows.
proof fn lemma_lines_concat(x: Seq<char>, y: Seq<char>)
    requires
        ends_line(x),
    ensures
        lines(x + y) == lines(x) + lines(y),
    decreases x.len(),
{
    if x.len() == 0 {
        assert(x + y =~= y);
        assert(lines(x) + lines(y) =~= lines(y));
    } else {
        let k = line_end(x, 0);
        lemma_line_end_bounds(x, 0);
        lemma_line_end_concat(x, y, 0);
        let xy = x + y;
        assert(xy.take(k) =~= x.take(k));
        assert(xy.skip(k) =~= x.skip(k) + y);
        if k < x.len() {
            assert(x.skip(k).last() == x.last());
        }
        lemma_lines_concat(x.skip(k), y);
        assert(lines(xy) =~= seq![x.take(k)] + lines(x.skip(k)) + lines(y));
        assert(lines(x) =~= seq![x.take(k)] + lines(x.skip(k)));
        assert(lines(xy) =~= lines(x) + lines(y));
    }
}

proof fn lemma_term_lines_ends_line(prefix: Seq<char>, ts: Seq<Term>)
    ensures
        ends_line(term_lines(prefix, ts)),
{
    if ts.len() > 0 {
        let s = term_lines(prefix, ts.drop_last()) + prefix + term_text(ts.last()) + seq!['\n'];
        assert(s.last() == '\n');
    }
}

proof fn lemma_assignments_section_ends_line(asg: Seq<(VarV, Term)>, level: LogLevel)
    ensures
        ends_line(assignments_section(asg, level)),
{
    if level_rank(level) >= level_rank(LogLevel::Assignment) {
        if asg.len() > 0 {
            let s = assignment_lines(asg.drop_last()) + assignment_text(asg.last()) + seq!['\n'];
            assert(s.last() == '\n');
            lemma_ends_line_concat(banner("Assignments"@), assignment_lines(asg));
        } else {
            assert(Seq::<char>::empty() + assignment_lines(asg) =~= Seq::<char>::empty());
        }
    }
}

/// The lines a level writes about one expression are those a higher level writes about it,
/// with some left out; both end a line.
proof fn lemma_hist_section_lines(h: HistV, lo: LogLevel, hi: LogLevel)
    requires
        level_rank(lo) <= level_rank(hi),
    ensures
        ends_line(hist_section(h, lo)),
        ends_line(hist_section(h, hi)),
        subsequence(lines(hist_section(h, lo)), lines(hist_section(h, hi))),
{
    reveal_strlit("\n\n");
    reveal_strlit("(Reductions):\n");
    let orig = banner("Expressions"@) + "(Original)\n\t"@ + term_text(h.original) + "\n\n"@;
    let subs = "(Assignment Replacements)\n"@ + term_lines("\t"@, h.subs) + seq!['\n'];
    let reds = "(Reductions):\n"@ + term_lines("     => "@, h.reductions);
    let a_lo = if level_rank(lo) >= 3 { orig } else { Seq::<char>::empty() };
    let a_hi = if level_rank(hi) >= 3 { orig } else { Seq::<char>::empty() };
    let b_lo = if level_rank(lo) >= 1 && h.subs.len() > 0 { subs } else { Seq::<char>::empty() };
    let b_hi = if level_rank(hi) >= 1 && h.subs.len() > 0 { subs } else { Seq::<char>::empty() };
    assert(hist_section(h, lo) == a_lo + b_lo + reds);
    assert(hist_section(h, hi) == a_hi + b_hi + reds);
    lemma_term_lines_ends_line("     => "@, h.reductions);
    assert(ends_line("(Reductions):\n"@));
    lemma_ends_line_concat("(Reductions):\n"@, term_lines("     => "@, h.reductions));
    assert(ends_line(orig)) by {
        assert(orig.last() == '\n');
    }
    assert(ends_line(subs)) by {
        assert(subs.last() == '\n');
    }
    lemma_ends_line_concat(a_lo + b_lo, reds);
    lemma_ends_line_concat(a_hi + b_hi, reds);
    let whole = hist_section(h, hi);
    let part = hist_section(h, lo);
    let pre = if level_rank(lo) >= 3 {
        Seq::<char>::empty()
    } else if level_rank(lo) >= 1 {
        a_hi
    } else {
        a_hi + b_hi
    };
    assert(ends_line(pre)) by {
        if level_rank(lo) < 1 {
            if b_hi.len() > 0 {
                lemma_ends_line_concat(a_hi, b_hi);
            } else {
                assert(a_hi + b_hi =~= a_hi);
            }
        }
    }
    assert(whole =~= pre + part);
    lemma_lines_concat(pre, part);
    lemma_subsequence_refl(lines(part));
    lemma_subsequence_prefix_more(lines(part), lines(part), lines(pre));
}

proof fn lemma_hists_section_lines(hs: Seq<HistV>, lo: LogLevel, hi: LogLevel)
    requires
        level_rank(lo) <= level_rank(hi),
    ensures
        ends_line(hists_section(hs, lo)),
        ends_line(hists_section(hs, hi)),
        subsequence(lines(hists_section(hs, lo)), lines(hists_section(hs, hi))),
    decreases hs.len(),
{
    if hs.len() > 0 {
        let rest = hs.drop_last();
        lemma_hists_section_lines(rest, lo, hi);
        lemma_hist_section_lines(hs.last(), lo, hi);
        lemma_ends_line_concat(hists_section(rest, lo), hist_section(hs.last(), lo));
        lemma_ends_line_concat(hists_section(rest, hi), hist_section(hs.last(), hi));
        lemma_lines_concat(hists_section(rest, lo), hist_section(hs.last(), lo));
        lemma_lines_concat(hists_section(rest, hi), hist_section(hs.last(), hi));
        lemma_subsequence_concat(
            lines(hists_section(rest, lo)),
            lines(hists_section(rest, hi)),
            lines(hist_section(hs.last(), lo)),
            lines(hist_section(hs.last(), hi)),
        );
    }
}

/// A lower level writes the lines a higher level writes, with some left out: where a run at
/// the higher level writes its text, a run at the lower level writes one too, and its lines
/// are the higher level's lines with some left out.
pub proof fn lemma_lower_level_output_subsequence(
    input: Seq<char>,
    nostdlib: bool,
    lo: LogLevel,
    hi: LogLevel,
    fuel: nat,
)
    requires
        level_rank(lo) <= level_rank(hi),
    ensures
        run(input, nostdlib, hi, fuel) matches Ok(b) ==> run(input, nostdlib, lo, fuel) matches Ok(
            a,
        ) && subsequence(lines(a), lines(b)),
{
    match run(input, nostdlib, hi, fuel) {
        Ok(b) => {
            let start = if nostdlib {
                Some(Map::<VarV, Term>::empty())
            } else {
                stdlib_table()
            };
            let m0 = start->0;
            let sts = parse_statements(input)->Value_0;
            let asg = assignments_of(sts);
            let m1 = insert_many_spec(m0, asg).0;
            let hs = hists_of(expressions_of(sts), m1, fuel)->Ok_0;
            assert(assignments_printable(asg, lo));
            assert forall|i: int| 0 <= i < hs.len() implies hist_printable(#[trigger] hs[i], lo) by {
                assert(hist_printable(hs[i], hi));
            }
            let al = assignments_section(asg, lo);
            let ah = assignments_section(asg, hi);
            let hl = hists_section(hs, lo);
            let hh = hists_section(hs, hi);
            let a = al + hl + seq!['\n'];
            assert(run(input, nostdlib, lo, fuel) == Ok::<Seq<char>, InterpretError>(a));
            assert(b == ah + hh + seq!['\n']);
            lemma_higher_level_writes_more(asg, hs.last(), lo, hi);
            lemma_assignments_section_ends_line(asg, lo);
            lemma_assignments_section_ends_line(asg, hi);
            lemma_hists_section_lines(hs, lo, hi);
            if al.len() == 0 {
                assert(lines(al) =~= Seq::<Seq<char>>::empty());
            } else {
                lemma_subsequence_refl(lines(ah));
            }
            assert(subsequence(lines(al), lines(ah)));
            lemma_ends_line_concat(al, hl);
            lemma_ends_line_concat(ah, hh);
            lemma_lines_concat(al, hl);
            lemma_lines_concat(ah, hh);
            lemma_lines_concat(al + hl, seq!['\n']);
            lemma_lines_concat(ah + hh, seq!['\n']);
            lemma_subsequence_concat(lines(al), lines(ah), lines(hl), lines(hh));
            lemma_subsequence_refl(lines(seq!['\n']));
            lemma_subsequence_concat(
                lines(al) + lines(hl),
                lines(ah) + lines(hh),
                lines(seq!['\n']),
                lines(seq!['\n']),
            );
        },
        Err(_) => {},
    }
}

/// At the lowest level a run writes no assignments section, and about each expression only
/// the reductions: no heading, no term as read and no replacements of names.
pub proof fn lemma_reductions_only_writes_reductions(asg: Seq<(VarV, Term)>, h: HistV)
    ensures
        assignments_section(asg, LogLevel::ReductionsOnly).len() == 0,
        hist_section(h, LogLevel::ReductionsOnly) == "(Reductions):\n"@ + term_lines(
            "     => "@,
            h.reductions,
        ),
{
    assert(hist_section(h, LogLevel::ReductionsOnly) =~= Seq::<char>::empty() + Seq::<char>::empty()
        + ("(Reductions):\n"@ + term_lines("     => "@, h.reductions)));
}

/// The records of expressions are the records of each expression, in order.
proof fn lemma_hists_of_each(ts: Seq<Term>, a: Map<VarV, Term>, fuel: nat)
    ensures
        hists_of(ts, a, fuel) matches Ok(hs) ==> hs.len() == ts.len() && forall|i: int|
            0 <= i < ts.len() ==> hist_of(#[trigger] ts[i], a, fuel) == Ok::<HistV, InterpretError>(
                hs[i],
            ),
    decreases ts.len(),
{
    if ts.len() > 0 {
        lemma_hists_of_each(ts.drop_last(), a, fuel);
        match hists_of(ts, a, fuel) {
            Ok(hs) => {
                let prev = hists_of(ts.drop_last(), a, fuel)->Ok_0;
                assert(hs == prev.push(hist_of(ts.last(), a, fuel)->Ok_0));
                assert forall|i: int| 0 <= i < ts.len() implies hist_of(#[trigger] ts[i], a, fuel)
                    == Ok::<HistV, InterpretError>(hs[i]) by {
                    if i < ts.len() - 1 {
                        assert(ts.drop_last()[i] == ts[i]);
                    }
                }
            },
            Err(_) => {},
        }
    }
}

/// The table a run works with: it starts from the standard library, or from nothing with
/// `nostdlib`, and the program's assignments are added to it. The run writes the assignments
/// section and then the records of the expressions, in order: each expression's first
/// replacement puts the table's terms in for its names, replacing goes on until nothing changes,
/// and the last replacement is reduced. So without the library a program without assignments
/// replaces no name and each expression is reduced as written.
pub proof fn lemma_start_table_law(input: Seq<char>, nostdlib: bool, level: LogLevel, fuel: nat)
    ensures
        run(input, nostdlib, level, fuel) matches Ok(o) ==> exists|hs: Seq<HistV>|
            #![trigger hists_section(hs, level)]
            {
                let sts = parse_statements(input)->Value_0;
                let es = expressions_of(sts);
                let asg = assignments_of(sts);
                let table = insert_many_spec(
                    if nostdlib {
                        Map::<VarV, Term>::empty()
                    } else {
                        stdlib_table()->0
                    },
                    asg,
                ).0;
                &&& o == assignments_section(asg, level) + hists_section(hs, level) + seq!['\n']
                &&& hs.len() == es.len()
                &&& forall|i: int|
                    0 <= i < hs.len() ==> {
                        &&& (#[trigger] hs[i]).original == es[i]
                        &&& hs[i].subs.len() > 0
                        &&& reduce_trace(hs[i].subs.last(), fuel) == Trace::Done(hs[i].reductions)
                        &&& hs[i].subs[0] == subst_assign(es[i], table, None)
                        &&& subst_assign(hs[i].subs.last(), table, None) == hs[i].subs.last()
                        &&& nostdlib && asg.len() == 0 ==> hs[i].subs == seq![es[i]]
                    }
            },
{
    match run(input, nostdlib, level, fuel) {
        Ok(o) => {
            let sts = parse_statements(input)->Value_0;
            let es = expressions_of(sts);
            let asg = assignments_of(sts);
            let m0 = if nostdlib {
                Map::<VarV, Term>::empty()
            } else {
                stdlib_table()->0
            };
            let table = insert_many_spec(m0, asg).0;
            let hs = hists_of(es, table, fuel)->Ok_0;
            assert(o == assignments_section(asg, level) + hists_section(hs, level) + seq!['\n']);
            lemma_hists_of_each(es, table, fuel);
            assert forall|i: int| 0 <= i < hs.len() implies {
                &&& (#[trigger] hs[i]).original == es[i]
                &&& hs[i].subs.len() > 0
                &&& reduce_trace(hs[i].subs.last(), fuel) == Trace::Done(hs[i].reductions)
                &&& hs[i].subs[0] == subst_assign(es[i], table, None)
                &&& subst_assign(hs[i].subs.last(), table, None) == hs[i].subs.last()
                &&& nostdlib && asg.len() == 0 ==> hs[i].subs == seq![es[i]]
            } by {
                let e = es[i];
                assert(hist_of(e, table, fuel) == Ok::<HistV, InterpretError>(hs[i]));
                lemma_subst_trace_fixed(e, table, fuel);
                let t1 = subst_assign(e, table, None);
                let subs = subst_trace(e, table, fuel)->Done_0;
                match subs_after(t1, table, fuel) {
                    Trace::Done(rest) => {
                        assert(subs == seq![t1] + rest);
                        assert(subs[0] == t1);
                    },
                    _ => {},
                }
                if nostdlib && asg.len() == 0 {
                    assert(table == m0);
                    lemma_subst_assign_empty(e, None);
                    assert(subs_after(e, table, fuel) == Trace::Done(Seq::<Term>::empty()));
                    assert(subs =~= seq![e]);
                }
            }
            assert(hists_section(hs, level) == hists_section(hs, level));
        },
        Err(_) => {},
    }
}

/// Appends `n` equals signs.
fn write_rule(out: &mut String, n: usize)
    ensures
        final(out)@ == old(out)@ + rule(n as nat),
{
    let mut i: usize = 0;
    while i < n
        invariant
            i <= n,
            out@ == old(out)@ + rule(i as nat),
        decreases n - i,
    {
        push_char(out, '=');
        i = i + 1;
        assert(out@ =~= old(out)@ + rule(i as nat));
    }
}

/// Appends the heading line of a section.
fn write_banner(out: &mut String, title: &str)
    ensures
        final(out)@ == old(out)@ + banner(title@),
{
    write_rule(out, 25);
    push_char(out, ' ');
    push_str(out, title);
    push_char(out, ' ');
    write_rule(out, 25);
    push_char(out, '\n');
    assert(out@ =~= old(out)@ + banner(title@));
}

/// Whether every copy in `ts` can be written out.
fn check_all_printable(ts: &Vec<NodeDeepClone>) -> (r: bool)
    ensures
        r == all_printable(clone_terms(ts@)),
{
    let mut i: usize = 0;
    while i < ts.len()
        invariant
            i <= ts.len(),
            forall|k: int| 0 <= k < i ==> printable(#[trigger] clone_terms(ts@)[k]),
        decreases ts.len() - i,
    {
        assert(clone_terms(ts@)[i as int] == ts@[i as int]@);
        if !ts[i].printable() {
            return false;
        }
        i = i + 1;
    }
    true
}

/// Appends the terms of `ts` one to a line, each after `prefix`.
fn write_term_lines(out: &mut String, prefix: &str, ts: &Vec<NodeDeepClone>)
    requires
        all_printable(clone_terms(ts@)),
    ensures
        final(out)@ == old(out)@ + term_lines(prefix@, clone_terms(ts@)),
{
    let ghost all = clone_terms(ts@);
    let mut i: usize = 0;
    assert(all.take(0) =~= Seq::<Term>::empty());
    assert(old(out)@ + Seq::<char>::empty() =~= old(out)@);
    while i < ts.len()
        invariant
            i <= ts.len(),
            all == clone_terms(ts@),
            all_printable(all),
            out@ == old(out)@ + term_lines(prefix@, all.take(i as int)),
        decreases ts.len() - i,
    {
        let ghost before = out@;
        assert(all[i as int] == ts@[i as int]@);
        assert(printable(all[i as int]));
        push_str(out, prefix);
        ts[i].write_to(out);
        push_char(out, '\n');
        assert(all.take(i + 1).drop_last() =~= all.take(i as int));
        assert(all.take(i + 1).last() == all[i as int]);
        assert(out@ =~= old(out)@ + term_lines(prefix@, all.take(i + 1)));
        i = i + 1;
    }
    assert(all.take(i as int) =~= all);
}

/// Whether the section about `h` can be written out at `level`.
fn check_hist_printable(h: &NodeHist, level: LogLevel) -> (r: bool)
    ensures
        r == hist_printable(h@, level),
{
    let a = !level.at_least(LogLevel::All) || h.original.printable();
    let b = !level.at_least(LogLevel::AssignmentReplacements) || check_all_printable(
        &h.assignment_subs,
    );
    let c = !level.at_least(LogLevel::ReductionsOnly) || check_all_printable(&h.reductions);
    a && b && c
}

/// Appends the section about `h`.
fn write_hist(out: &mut String, h: &NodeHist, level: LogLevel)
    requires
        hist_printable(h@, level),
    ensures
        final(out)@ == old(out)@ + hist_section(h@, level),
{
    let ghost start = out@;
    if level.at_least(LogLevel::All) {
        write_banner(out, "Expressions");
        push_str(out, "(Original)\n\t");
        h.original.write_to(out);
        push_str(out, "\n\n");
    }
    let ghost mid1 = out@;
    if level.at_least(LogLevel::AssignmentReplacements) && h.assignment_subs.len() > 0 {
        push_str(out, "(Assignment Replacements)\n");
        write_term_lines(out, "\t", &h.assignment_subs);
        push_char(out, '\n');
    }
    let ghost mid2 = out@;
    if level.at_least(LogLevel::ReductionsOnly) {
        push_str(out, "(Reductions):\n");
        write_term_lines(out, "     => ", &h.reductions);
    }
    assert(out@ =~= start + hist_section(h@, level));
}

/// Whether the body of every assignment in `asg` can be written out.
fn check_assignments_printable(asg: &Vec<Assignment>) -> (r: bool)
    ensures
        r == bodies_printable(asg@.map_values(|a: Assignment| a@)),
{
    let ghost av = asg@.map_values(|a: Assignment| a@);
    let mut i: usize = 0;
    while i < asg.len()
        invariant
            i <= asg.len(),
            av == asg@.map_values(|a: Assignment| a@),
            forall|k: int| 0 <= k < i ==> printable(#[trigger] av[k].1),
        decreases asg.len() - i,
    {
        assert(av[i as int] == asg@[i as int]@);
        let body = NodeDeepClone::from_node(asg[i].body.borrow());
        if !body.printable() {
            assert(!printable(av[i as int].1));
            return false;
        }
        i = i + 1;
    }
    true
}

/// Whether the section about every record in `hists` can be written out at `level`.
fn check_hists_printable(hists: &Vec<NodeHist>, level: LogLevel) -> (r: bool)
    ensures
        r == hists_printable(hists@.map_values(|h: NodeHist| h@), level),
{
    let ghost hs = hists@.map_values(|h: NodeHist| h@);
    let mut i: usize = 0;
    while i < hists.len()
        invariant
            i <= hists.len(),
            hs == hists@.map_values(|h: NodeHist| h@),
            forall|k: int| 0 <= k < i ==> hist_printable(#[trigger] hs[k], level),
        decreases hists.len() - i,
    {
        assert(hs[i as int] == hists@[i as int]@);
        if !check_hist_printable(&hists[i], level) {
            return false;
        }
        i = i + 1;
    }
    true
}

/// Writes out the assignments read (from the level `Assignment` on) and adds them to the table,
/// in order, as `insert_many_assignments` does.
pub fn handle_assignments(
    statements: &Unzipped,
    assignments: &mut Assignments,
    args: &CLIArgs,
    out: &mut String,
) -> (r: Result<(), InterpretError>)
    requires
        old(assignments).wf(),
    ensures
        ({
            let asg = statements.assignments@.map_values(|a: Assignment| a@);
            if assignments_printable(asg, args.loglevel) {
                &&& r is Ok
                &&& final(out)@ == old(out)@ + assignments_section(asg, args.loglevel)
                &&& final(assignments).wf()
                &&& final(assignments)@ == insert_many_spec(old(assignments)@, asg).0
            } else {
                &&& r == Err::<(), InterpretError>(InterpretError::Stops)
                &&& final(out)@ == old(out)@
                &&& final(assignments)@ == old(assignments)@
            }
        }),
{
    let ghost asg = statements.assignments@.map_values(|a: Assignment| a@);
    let n = statements.assignments.len();
    if args.loglevel.at_least(LogLevel::Assignment) {
        if !check_assignments_printable(&statements.assignments) {
            return Err(InterpretError::Stops);
        }
        let ghost start = out@;
        if n > 0 {
            write_banner(out, "Assignments");
        }
        let ghost head = out@;
        let mut j: usize = 0;
        assert(asg.take(0) =~= Seq::<(VarV, Term)>::empty());
        assert(head + Seq::<char>::empty() =~= head);
        while j < n
            invariant
                j <= n,
                n == statements.assignments.len(),
                asg == statements.assignments@.map_values(|a: Assignment| a@),
                forall|k: int| 0 <= k < n ==> printable(#[trigger] asg[k].1),
                out@ == head + assignment_lines(asg.take(j as int)),
            decreases n - j,
        {
            let a = &statements.assignments[j];
            assert(asg[j as int] == a@);
            assert(printable(asg[j as int].1));
            a.bound.write_to(out);
            push_str(out, " := ");
            a.body.borrow().write_to(out);
            push_char(out, '\n');
            assert(asg.take(j + 1).drop_last() =~= asg.take(j as int));
            assert(asg.take(j + 1).last() == asg[j as int]);
            assert(out@ =~= head + assignment_lines(asg.take(j + 1)));
            j = j + 1;
        }
        assert(asg.take(j as int) =~= asg);
        assert(out@ =~= start + assignments_section(asg, args.loglevel));
    } else {
        assert(old(out)@ + Seq::<char>::empty() =~= old(out)@);
    }
    let mut copies: Vec<Assignment> = Vec::new();
    let mut k: usize = 0;
    while k < n
        invariant
            k <= n,
            n == statements.assignments.len(),
            asg == statements.assignments@.map_values(|a: Assignment| a@),
            copies@.map_values(|a: Assignment| a@) == asg.take(k as int),
        decreases n - k,
    {
        let ghost before = copies@.map_values(|a: Assignment| a@);
        assert(asg[k as int] == statements.assignments@[k as int]@);
        let dup = statements.assignments[k].duplicate();
        let ghost dv = dup@;
        copies.push(dup);
        assert(copies@.map_values(|a: Assignment| a@) =~= before.push(dv));
        assert(asg.take(k + 1) =~= asg.take(k as int).push(asg[k as int]));
        k = k + 1;
    }
    assert(asg.take(k as int) =~= asg);
    let _ = insert_many_assignments(assignments, copies);
    Ok(())
}

/// Runs the program `input` with the settings `args`, allowing each loop that replaces or
/// reduces an expression `fuel` rounds after its first, and gives back what the run writes (see
/// `run`).
pub fn interpret(input: &str, args: &CLIArgs, fuel: usize) -> (r: Result<String, InterpretError>)
    requires
        12 * input@.len() <= usize::MAX,
    ensures
        match run(input@, args.nostdlib, args.loglevel, fuel as nat) {
            Ok(text) => r matches Ok(s) && s@ == text,
            Err(e) => r == Err::<String, InterpretError>(e),
        },
{
    let mut assignments = if args.nostdlib {
        let a = Assignments::new();
        assert(a@ =~= Map::<VarV, Term>::empty());
        a
    } else {
        match stdlib_assignments() {
            Some(a) => a,
            None => {
                return Err(InterpretError::Stops);
            },
        }
    };
    let sts = match Statement::read(input) {
        Parsed::Value(v) => v,
        Parsed::Refused(e) => {
            return Err(InterpretError::Parse(e));
        },
        Parsed::Aborts => {
            return Err(InterpretError::Stops);
        },
    };
    let statements = sts.unzip();
    let mut out = String::new();
    match handle_assignments(&statements, &mut assignments, args, &mut out) {
        Ok(()) => {},
        Err(e) => {
            return Err(e);
        },
    }
    let hists = match handle_expressions(&statements, &assignments, fuel) {
        Ok(h) => h,
        Err(e) => {
            return Err(e);
        },
    };
    let ghost hs = hists@.map_values(|h: NodeHist| h@);
    if !check_hists_printable(&hists, args.loglevel) {
        return Err(InterpretError::Stops);
    }
    let ghost head = out@;
    let mut j: usize = 0;
    assert(hs.take(0) =~= Seq::<HistV>::empty());
    assert(head + Seq::<char>::empty() =~= head);
    while j < hists.len()
        invariant
            j <= hists.len(),
            hs == hists@.map_values(|h: NodeHist| h@),
            hists_printable(hs, args.loglevel),
            out@ == head + hists_section(hs.take(j as int), args.loglevel),
        decreases hists.len() - j,
    {
        assert(hs[j as int] == hists@[j as int]@);
        assert(hist_printable(hs[j as int], args.loglevel));
        write_hist(&mut out, &hists[j], args.loglevel);
        assert(hs.take(j + 1).drop_last() =~= hs.take(j as int));
        assert(hs.take(j + 1).last() == hs[j as int]);
        assert(out@ =~= head + hists_section(hs.take(j + 1), args.loglevel));
        j = j + 1;
    }
    assert(hs.take(j as int) =~= hs);
    push_char(&mut out, '\n');
    Ok(out)
}

} // verus!
