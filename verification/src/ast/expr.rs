//! Statements: assignments `NAME := term` and expressions to evaluate.

use vstd::prelude::*;
use crate::ast::node::{Node, Term};
use crate::ast::node::node_ref::NodeRef;
use crate::ast::node::variable::{Variable, VarV, parse_variable, var_text};
use crate::ast::node::term_len;
use crate::ast::node::display::{display_ok, term_text};
use crate::ast::node::reading::parse_node;
use crate::ast::node::rewriting::node_reduce;
use crate::error::{ParseError, Parsed};
use crate::text::{
    find_pair, find_pair_in, lemma_find_pair_from_facts, lemma_lines_total,
    lemma_total_len_concat, lemma_trim_facts, lines_of, push_str, split_lines, starts_with_space,
    str_starts_with_space, string_of, total_len, trim, trim_str,
};

verus! {

/// An assignment `bound := body`.
#[derive(Debug)]
pub struct Assignment {
    pub bound: Variable,
    pub body: NodeRef<Node>,
}

impl View for Assignment {
    type V = (VarV, Term);

    open spec fn view(&self) -> (VarV, Term) {
        (self.bound@, self.body@)
    }
}

impl Assignment {
    /// The assignment `bound := body`.
    pub fn new(bound: Variable, body: NodeRef<Node>) -> (r: Assignment)
        ensures
            r.bound == bound,
            r.body == body,
    {
        Assignment { bound, body }
    }

    /// How this assignment is written out: `name := term`.
    pub fn to_string(&self) -> (r: String)
        requires
            display_ok(self.body@),
            term_len(self.body@) <= usize::MAX,
        ensures
            r@ == var_text(self.bound@) + " := "@ + term_text(self.body@),
    {
        let mut out = String::new();
        self.bound.write_to(&mut out);
        push_str(&mut out, " := ");
        self.body.borrow().write_to(&mut out);
        assert(out@ =~= var_text(self.bound@) + " := "@ + term_text(self.body@));
        out
    }

    /// A copy of this assignment.
    pub fn duplicate(&self) -> (r: Assignment)
        ensures
            r@ == self@,
    {
        Assignment { bound: self.bound.duplicate(), body: NodeRef::new(self.body.borrow().duplicate()) }
    }
}

/// The value of a statement.
pub enum StatementV {
    Assign(VarV, Term),
    Expr(Term),
}

/// One line of a program: an assignment, or an expression to evaluate.
#[derive(Debug)]
pub enum Statement {
    Assignment(Assignment),
    Expression(NodeRef<Node>),
}

impl View for Statement {
    type V = StatementV;

    open spec fn view(&self) -> StatementV {
        match self {
            Statement::Assignment(a) => StatementV::Assign(a.bound@, a.body@),
            Statement::Expression(e) => StatementV::Expr(e@),
        }
    }
}

impl Statement {
    /// The statement that assigns `body` to `bound`.
    pub fn new_assignment(bound: Variable, body: NodeRef<Node>) -> (r: Statement)
        ensures
            r@ == StatementV::Assign(bound@, body@),
    {
        Statement::Assignment(Assignment::new(bound, body))
    }

    /// Whether this statement is an assignment.
    pub fn is_assignment(&self) -> (r: bool)
        ensures
            r == (self@ is Assign),
    {
        match self {
            Statement::Assignment(_) => true,
            Statement::Expression(_) => false,
        }
    }

    /// How this statement is written out: an assignment as `name := term`, an expression as
    /// its term.
    pub fn to_string(&self) -> (r: String)
        requires
            display_ok(statement_term(self@)),
            term_len(statement_term(self@)) <= usize::MAX,
        ensures
            r@ == match self@ {
                StatementV::Assign(v, t) => var_text(v) + " := "@ + term_text(t),
                StatementV::Expr(t) => term_text(t),
            },
    {
        match self {
            Statement::Assignment(a) => a.to_string(),
            Statement::Expression(e) => e.to_string(),
        }
    }

    /// The assignment this statement is.
    pub fn into_assignment(self) -> (r: Assignment)
        requires
            self@ is Assign,
        ensures
            self@ == StatementV::Assign(r@.0, r@.1),
    {
        match self {
            Statement::Assignment(a) => a,
            Statement::Expression(e) => {
                proof {
                    assert(false);
                }
                Assignment {
                    bound: crate::ast::node::variable::Variable { ident: String::new(), subtext: None },
                    body: e,
                }
            },
        }
    }

    /// The expression this statement is.
    pub fn into_expression(self) -> (r: NodeRef<Node>)
        requires
            self@ is Expr,
        ensures
            self@ == StatementV::Expr(r@),
    {
        match self {
            Statement::Expression(e) => e,
            Statement::Assignment(a) => {
                proof {
                    assert(false);
                }
                a.body
            },
        }
    }

    /// Whether this statement is an expression.
    pub fn is_expression(&self) -> (r: bool)
        ensures
            r == (self@ is Expr),
    {
        !self.is_assignment()
    }

    /// Splits `s` into the lines that hold one statement each: a line that starts with white
    /// space continues the line before it, and is appended to it with its white space trimmed.
    pub fn make_lines(s: &str) -> (r: Vec<String>)
        ensures
            r@.map_values(|l: String| l@) == statement_lines(s@),
    {
        let lines = split_lines(s);
        let ghost ls = lines_of(s@);
        let mut v: Vec<String> = Vec::new();
        let mut i: usize = 0;
        assert(ls.take(0) =~= Seq::<Seq<char>>::empty());
        while i < lines.len()
            invariant
                i <= lines.len(),
                lines@.map_values(|l: &str| l@) == ls,
                v@.map_values(|l: String| l@) == join_lines(ls.take(i as int)),
            decreases lines.len() - i,
        {
            let line: &str = lines[i];
            let ghost before = v@.map_values(|l: String| l@);
            assert(line@ == ls[i as int]);
            assert(ls.take(i + 1).drop_last() =~= ls.take(i as int));
            assert(ls.take(i + 1).last() == ls[i as int]);
            if i > 0 && str_starts_with_space(line) {
                assert(before.len() > 0);
                match v.pop() {
                    Some(last) => {
                        let mut last = last;
                        push_str(&mut last, trim_str(line));
                        v.push(last);
                        assert(v@.map_values(|l: String| l@) =~= before.update(
                            before.len() - 1,
                            before.last() + trim(line@),
                        ));
                    },
                    None => {
                        assert(false);
                    },
                }
            } else {
                if i > 0 {
                    assert(before.len() > 0);
                }
                v.push(string_of(line));
                assert(v@.map_values(|l: String| l@) =~= before.push(line@));
            }
            i = i + 1;
        }
        assert(ls.take(i as int) =~= ls);
        v
    }

    /// Reads the statements of `s` as `parse` does, reporting as `Aborts` the text on which
    /// reading would stop the program.
    pub fn read(s: &str) -> (r: Parsed<Vec<Statement>>)
        requires
            12 * s@.len() <= usize::MAX,
        ensures
            match parse_statements(s@) {
                Parsed::Value(sts) => r matches Parsed::Value(v) && v@.map_values(
                    |st: Statement| st@,
                ) == sts,
                Parsed::Refused(e) => r == Parsed::<Vec<Statement>>::Refused(e),
                Parsed::Aborts => r is Aborts,
            },
    {
        let lines = Statement::make_lines(s);
        let ghost ls = statement_lines(s@);
        proof {
            lemma_statement_lines_len(s@);
        }
        let mut v: Vec<Statement> = Vec::new();
        let mut i: usize = 0;
        assert(ls.skip(0) =~= ls);
        assert(v@.map_values(|st: Statement| st@) =~= Seq::<StatementV>::empty());
        while i < lines.len()
            invariant
                i <= lines.len(),
                lines@.map_values(|l: String| l@) == ls,
                12 * s@.len() <= usize::MAX,
                forall|k: int| 0 <= k < ls.len() ==> #[trigger] ls[k].len() <= s@.len(),
                parse_statements(s@) == prepend(
                    v@.map_values(|st: Statement| st@),
                    parse_lines(ls.skip(i as int)),
                ),
            decreases lines.len() - i,
        {
            let line: &str = lines[i].as_str();
            let ghost before = v@.map_values(|st: Statement| st@);
            let ghost rest = ls.skip(i as int);
            assert(line@ == ls[i as int]);
            assert(rest[0] == line@);
            assert(rest.drop_first() =~= ls.skip(i + 1));
            let n = line.unicode_len();
            if n == 0 {
                i = i + 1;
                continue;
            }
            let st = match Statement::read_line(line) {
                Parsed::Value(st) => st,
                Parsed::Refused(e) => {
                    return Parsed::Refused(e);
                },
                Parsed::Aborts => {
                    return Parsed::Aborts;
                },
            };
            let ghost stv = st@;
            v.push(st);
            proof {
                lemma_prepend_push(before, stv, parse_lines(ls.skip(i + 1)));
                assert(v@.map_values(|st: Statement| st@) =~= before.push(stv));
            }
            i = i + 1;
        }
        assert(ls.skip(i as int) =~= Seq::<Seq<char>>::empty());
        assert(v@.map_values(|st: Statement| st@) + Seq::<StatementV>::empty() =~= v@.map_values(
            |st: Statement| st@,
        ));
        Parsed::Value(v)
    }

    /// Reads one line that is not empty as a statement.
    fn read_line(line: &str) -> (r: Parsed<Statement>)
        requires
            12 * line@.len() <= usize::MAX,
        ensures
            r.agrees(parse_line(line@)),
    {
        proof {
            lemma_find_pair_from_facts(line@, ':', '=', 0);
            lemma_trim_facts(line@);
        }
        match find_pair_in(line, ':', '=') {
            Some(k) => {
                let n = line.unicode_len();
                if k == 0 || k + 2 == n {
                    return Parsed::Refused(ParseError::InvalidAssignment);
                }
                let bound = line.substring_char(0, k);
                let body = line.substring_char(k + 2, n);
                assert(bound@ =~= line@.take(k as int));
                assert(body@ =~= line@.skip(k + 2));
                proof {
                    lemma_trim_facts(body@);
                    lemma_trim_facts(bound@);
                }
                let v = match Variable::read(trim_str(bound)) {
                    Parsed::Value(v) => v,
                    Parsed::Refused(e) => {
                        return Parsed::Refused(e);
                    },
                    Parsed::Aborts => {
                        return Parsed::Aborts;
                    },
                };
                let t = match Node::read(trim_str(body)) {
                    Parsed::Value(t) => t,
                    Parsed::Refused(e) => {
                        return Parsed::Refused(e);
                    },
                    Parsed::Aborts => {
                        return Parsed::Aborts;
                    },
                };
                Parsed::Value(Statement::new_assignment(v, NodeRef::new(t)))
            },
            None => {
                match Node::read(trim_str(line)) {
                    Parsed::Value(t) => Parsed::Value(Statement::Expression(NodeRef::new(t))),
                    Parsed::Refused(e) => Parsed::Refused(e),
                    Parsed::Aborts => Parsed::Aborts,
                }
            },
        }
    }

    /// Reads the statements of `s`, one for each line of `make_lines` that is not empty: a line
    /// with `:=` assigns the term after its first `:=` to the variable before it, any other line
    /// is an expression. The first line that cannot be read gives the error.
    pub fn parse(s: &str) -> (r: Result<Vec<Statement>, ParseError>)
        requires
            !(parse_statements(s@) is Aborts),
            12 * s@.len() <= usize::MAX,
        ensures
            match parse_statements(s@) {
                Parsed::Value(sts) => r matches Ok(v) && v@.map_values(|st: Statement| st@)
                    == sts,
                Parsed::Refused(e) => r == Err::<Vec<Statement>, ParseError>(e),
                Parsed::Aborts => false,
            },
    {
        match Statement::read(s) {
            Parsed::Value(v) => Ok(v),
            Parsed::Refused(e) => Err(e),
            Parsed::Aborts => {
                proof {
                    assert(false);
                }
                Err(ParseError::InvalidAssignment)
            },
        }
    }

    /// Reduces an expression by one step (see `Node::reduce`); an assignment stays as it is.
    pub fn reduce(&mut self)
        requires
            statement_reduces(old(self)@),
        ensures
            final(self)@ == reduce_statement(old(self)@),
    {
        match self {
            Statement::Expression(node) => {
                Node::reduce(node, None, None);
            },
            Statement::Assignment(_) => {},
        }
    }
}

/// The assignments and the expressions of a list of statements, apart.
pub struct Unzipped {
    pub assignments: Vec<Assignment>,
    pub expressions: Vec<NodeRef<Node>>,
}

/// The assignments among `sts`, in order.
pub open spec fn assignments_of(sts: Seq<StatementV>) -> Seq<(VarV, Term)>
    decreases sts.len(),
{
    if sts.len() == 0 {
        Seq::empty()
    } else {
        let prev = assignments_of(sts.drop_last());
        match sts.last() {
            StatementV::Assign(v, t) => prev.push((v, t)),
            StatementV::Expr(_) => prev,
        }
    }
}

/// The expressions among `sts`, in order.
pub open spec fn expressions_of(sts: Seq<StatementV>) -> Seq<Term>
    decreases sts.len(),
{
    if sts.len() == 0 {
        Seq::empty()
    } else {
        let prev = expressions_of(sts.drop_last());
        match sts.last() {
            StatementV::Assign(..) => prev,
            StatementV::Expr(t) => prev.push(t),
        }
    }
}

/// Parting a list of statements into its assignments and its expressions.
pub trait Unzip: Sized {
    /// The statements held, in order.
    spec fn statements(&self) -> Seq<StatementV>;

    /// Parts the statements into the assignments and the expressions, each kept in the order
    /// in which they came.
    fn unzip(self) -> (r: Unzipped)
        ensures
            r.assignments@.map_values(|a: Assignment| a@) == assignments_of(self.statements()),
            r.expressions@.map_values(|e: NodeRef<Node>| e@) == expressions_of(self.statements()),
    ;
}

impl Unzip for Vec<Statement> {
    open spec fn statements(&self) -> Seq<StatementV> {
        self@.map_values(|st: Statement| st@)
    }

    fn unzip(self) -> (r: Unzipped) {
        let ghost all = self@.map_values(|st: Statement| st@);
        let mut v = self;
        let mut assignments: Vec<Assignment> = Vec::new();
        let mut expressions: Vec<NodeRef<Node>> = Vec::new();
        let ghost mut i: int = 0;
        assert(all.take(0) =~= Seq::<StatementV>::empty());
        assert(all.skip(0) =~= all);
        while v.len() > 0
            invariant
                0 <= i <= all.len(),
                v@.map_values(|st: Statement| st@) == all.skip(i),
                assignments@.map_values(|a: Assignment| a@) == assignments_of(all.take(i)),
                expressions@.map_values(|e: NodeRef<Node>| e@) == expressions_of(all.take(i)),
            decreases v.len(),
        {
            let ghost a_before = assignments@.map_values(|a: Assignment| a@);
            let ghost e_before = expressions@.map_values(|e: NodeRef<Node>| e@);
            assert(v@.map_values(|st: Statement| st@).len() == v@.len());
            assert(i < all.len());
            assert(v@.map_values(|st: Statement| st@)[0] == v@[0]@);
            assert(all.skip(i)[0] == all[i]);
            let ghost old_v = v@;
            let st = v.remove(0);
            assert(v@ == old_v.remove(0));
            assert(st@ == all[i]);
            assert(all.take(i + 1).drop_last() =~= all.take(i));
            assert(all.take(i + 1).last() == all[i]);
            match st {
                Statement::Assignment(a) => {
                    assignments.push(a);
                    assert(assignments@.map_values(|a: Assignment| a@) =~= a_before.push(a@));
                    assert(expressions@.map_values(|e: NodeRef<Node>| e@) =~= e_before);
                },
                Statement::Expression(e) => {
                    expressions.push(e);
                    assert(expressions@.map_values(|e: NodeRef<Node>| e@) =~= e_before.push(e@));
                    assert(assignments@.map_values(|a: Assignment| a@) =~= a_before);
                },
            }
            proof {
                assert forall|k: int| 0 <= k < v@.len() implies (#[trigger] v@[k])@ == all.skip(i + 1)[k] by {
                    assert(v@[k] == old_v[k + 1]);
                    assert(old_v.map_values(|st: Statement| st@)[k + 1] == all.skip(i)[k + 1]);
                }
                assert(v@.map_values(|st: Statement| st@) =~= all.skip(i + 1));
                i = i + 1;
            }
        }
        assert(all.take(i) =~= all);
        Unzipped { assignments, expressions }
    }
}

/// The term of a statement: the assigned term, or the expression.
pub open spec fn statement_term(st: StatementV) -> Term {
    match st {
        StatementV::Assign(_, t) => t,
        StatementV::Expr(t) => t,
    }
}

/// Whether a line continues the statement of the line before it.
pub open spec fn continues(l: Seq<char>) -> bool {
    starts_with_space(l)
}

/// The lines `ls` with each line after the first that starts with white space trimmed and
/// appended to the line before it.
pub open spec fn join_lines(ls: Seq<Seq<char>>) -> Seq<Seq<char>>
    decreases ls.len(),
{
    if ls.len() == 0 {
        Seq::empty()
    } else {
        let prev = join_lines(ls.drop_last());
        if prev.len() > 0 && continues(ls.last()) {
            prev.update(prev.len() - 1, prev.last() + trim(ls.last()))
        } else {
            prev.push(ls.last())
        }
    }
}

/// The lines of `s` that hold one statement each.
pub open spec fn statement_lines(s: Seq<char>) -> Seq<Seq<char>> {
    join_lines(lines_of(s))
}

/// Reading one line as a statement: with `:=` in it, an assignment of the term after the first
/// `:=` to the variable before it (both sides must hold something); else an expression.
pub open spec fn parse_line(l: Seq<char>) -> Parsed<StatementV> {
    match find_pair(l, ':', '=') {
        Some(k) => {
            let bound = l.take(k);
            let body = l.skip(k + 2);
            if bound.len() == 0 || body.len() == 0 {
                Parsed::Refused(ParseError::InvalidAssignment)
            } else {
                match parse_variable(trim(bound)) {
                    Parsed::Value(v) => match parse_node(trim(body)) {
                        Parsed::Value(t) => Parsed::Value(StatementV::Assign(v, t)),
                        Parsed::Refused(e) => Parsed::Refused(e),
                        Parsed::Aborts => Parsed::Aborts,
                    },
                    Parsed::Refused(e) => Parsed::Refused(e),
                    Parsed::Aborts => Parsed::Aborts,
                }
            }
        },
        None => match parse_node(trim(l)) {
            Parsed::Value(t) => Parsed::Value(StatementV::Expr(t)),
            Parsed::Refused(e) => Parsed::Refused(e),
            Parsed::Aborts => Parsed::Aborts,
        },
    }
}

/// `pre` put in front of the statements that `p` reads, if it reads any.
pub open spec fn prepend(pre: Seq<StatementV>, p: Parsed<Seq<StatementV>>) -> Parsed<
    Seq<StatementV>,
> {
    match p {
        Parsed::Value(rest) => Parsed::Value(pre + rest),
        Parsed::Refused(e) => Parsed::Refused(e),
        Parsed::Aborts => Parsed::Aborts,
    }
}

/// Reading the lines `ls` in order, empty lines skipped; the first line that cannot be read
/// decides the outcome.
pub open spec fn parse_lines(ls: Seq<Seq<char>>) -> Parsed<Seq<StatementV>>
    decreases ls.len(),
{
    if ls.len() == 0 {
        Parsed::Value(Seq::empty())
    } else if ls[0].len() == 0 {
        parse_lines(ls.drop_first())
    } else {
        match parse_line(ls[0]) {
            Parsed::Value(st) => prepend(seq![st], parse_lines(ls.drop_first())),
            Parsed::Refused(e) => Parsed::Refused(e),
            Parsed::Aborts => Parsed::Aborts,
        }
    }
}

/// Reading all statements of `s`.
pub open spec fn parse_statements(s: Seq<char>) -> Parsed<Seq<StatementV>> {
    parse_lines(statement_lines(s))
}

/// Whether reducing the statement comes to an end: an expression whose reduction does.
pub open spec fn statement_reduces(st: StatementV) -> bool {
    match st {
        StatementV::Expr(t) => node_reduce(t, None, None) is Some,
        StatementV::Assign(..) => true,
    }
}

/// A statement after `Statement::reduce`.
pub open spec fn reduce_statement(st: StatementV) -> StatementV {
    match st {
        StatementV::Expr(t) => StatementV::Expr(node_reduce(t, None, None)->0),
        StatementV::Assign(v, t) => StatementV::Assign(v, t),
    }
}

/// The lines of `ls` that are not empty, in order.
pub open spec fn nonempty_lines(ls: Seq<Seq<char>>) -> Seq<Seq<char>>
    decreases ls.len(),
{
    if ls.len() == 0 {
        Seq::empty()
    } else if ls[0].len() == 0 {
        nonempty_lines(ls.drop_first())
    } else {
        seq![ls[0]] + nonempty_lines(ls.drop_first())
    }
}

/// A line read as a statement is an assignment exactly when it holds `:=`.
proof fn lemma_parse_line_kind(l: Seq<char>)
    ensures
        parse_line(l) matches Parsed::Value(st) ==> (st is Assign <==> find_pair(l, ':', '=') is Some),
{
}

/// Reading lines succeeds exactly when every line that is not empty reads; then there is one
/// statement for each such line, in order, an assignment exactly where the line holds `:=`.
pub proof fn lemma_parse_lines_law(ls: Seq<Seq<char>>)
    ensures
        (parse_lines(ls) is Value) <==> (forall|i: int| 0 <= i < nonempty_lines(ls).len()
            ==> #[trigger] parse_line(nonempty_lines(ls)[i]) is Value),
        parse_lines(ls) matches Parsed::Value(sts) ==> sts.len() == nonempty_lines(ls).len()
            && forall|i: int| 0 <= i < sts.len() ==> ((#[trigger] sts[i]) is Assign
            <==> find_pair(nonempty_lines(ls)[i], ':', '=') is Some),
    decreases ls.len(),
{
    if ls.len() > 0 {
        let rest = ls.drop_first();
        lemma_parse_lines_law(rest);
        let ne = nonempty_lines(ls);
        let ner = nonempty_lines(rest);
        if ls[0].len() > 0 {
            assert(ne == seq![ls[0]] + ner);
            assert(ne[0] == ls[0]);
            assert forall|i: int| 0 <= i < ner.len() implies ne[i + 1] == ner[i] by {}
            lemma_parse_line_kind(ls[0]);
            match parse_line(ls[0]) {
                Parsed::Value(st) => {
                    if parse_lines(rest) is Value {
                        assert forall|i: int| 0 <= i < ne.len() implies #[trigger] parse_line(
                            ne[i],
                        ) is Value by {
                            if i > 0 {
                                assert(ne[i] == ner[i - 1]);
                                assert(parse_line(ner[i - 1]) is Value);
                            }
                        }
                        let rs = parse_lines(rest)->Value_0;
                        let sts = seq![st] + rs;
                        assert(parse_lines(ls) == Parsed::Value(sts));
                        assert forall|i: int| 0 <= i < sts.len() implies ((#[trigger] sts[i]) is Assign
                            <==> find_pair(ne[i], ':', '=') is Some) by {
                            if i > 0 {
                                assert(sts[i] == rs[i - 1]);
                                assert(ne[i] == ner[i - 1]);
                            }
                        }
                    } else {
                        let j = choose|j: int| 0 <= j < ner.len() && !(#[trigger] parse_line(
                            ner[j],
                        ) is Value);
                        assert(ne[j + 1] == ner[j]);
                        assert(!(parse_line(ne[j + 1]) is Value));
                    }
                },
                _ => {
                    assert(!(parse_line(ne[0]) is Value));
                },
            }
        } else {
            assert(ne == ner);
        }
    }
}

/// Reading the statements of a text succeeds exactly when every statement line that is not
/// empty reads; then there is one statement for each such line, in order, and a statement is an
/// assignment exactly when its line holds `:=`.
pub proof fn lemma_parse_statements_law(s: Seq<char>)
    ensures
        (parse_statements(s) is Value) <==> (forall|i: int| 0 <= i < nonempty_lines(
            statement_lines(s),
        ).len() ==> #[trigger] parse_line(nonempty_lines(statement_lines(s))[i]) is Value),
        parse_statements(s) matches Parsed::Value(sts) ==> sts.len() == nonempty_lines(
            statement_lines(s),
        ).len() && forall|i: int| 0 <= i < sts.len() ==> ((#[trigger] sts[i]) is Assign
            <==> find_pair(nonempty_lines(statement_lines(s))[i], ':', '=') is Some),
{
    lemma_parse_lines_law(statement_lines(s));
}

/// Joining continuation lines never gives more lines than there were.
pub proof fn lemma_join_lines_count(ls: Seq<Seq<char>>)
    ensures
        join_lines(ls).len() <= ls.len(),
    decreases ls.len(),
{
    if ls.len() > 0 {
        lemma_join_lines_count(ls.drop_last());
    }
}

/// Lines none of which continues the line before it are kept as they are.
pub proof fn lemma_join_lines_plain(ls: Seq<Seq<char>>)
    requires
        forall|i: int| 1 <= i < ls.len() ==> !continues(#[trigger] ls[i]),
    ensures
        join_lines(ls) == ls,
    decreases ls.len(),
{
    if ls.len() > 0 {
        let init = ls.drop_last();
        assert forall|i: int| 1 <= i < init.len() implies !continues(#[trigger] init[i]) by {
            assert(init[i] == ls[i]);
        }
        lemma_join_lines_plain(init);
        if ls.len() > 1 {
            assert(!continues(ls[ls.len() - 1]));
        }
        assert(init.push(ls.last()) =~= ls);
    }
}

/// Parting statements into assignments and expressions loses none and adds none.
pub proof fn lemma_unzip_counts(sts: Seq<StatementV>)
    ensures
        assignments_of(sts).len() + expressions_of(sts).len() == sts.len(),
    decreases sts.len(),
{
    if sts.len() > 0 {
        lemma_unzip_counts(sts.drop_last());
    }
}

proof fn lemma_prepend_push(pre: Seq<StatementV>, st: StatementV, p: Parsed<Seq<StatementV>>)
    ensures
        prepend(pre, prepend(seq![st], p)) == prepend(pre.push(st), p),
{
    match p {
        Parsed::Value(rest) => {
            assert(pre + (seq![st] + rest) =~= pre.push(st) + rest);
        },
        _ => {},
    }
}

proof fn lemma_join_lines_len(ls: Seq<Seq<char>>)
    ensures
        forall|k: int| 0 <= k < join_lines(ls).len() ==> #[trigger] join_lines(ls)[k].len()
            <= total_len(ls),
    decreases ls.len(),
{
    if ls.len() > 0 {
        let init = ls.drop_last();
        let l = ls.last();
        let one = seq![l];
        lemma_join_lines_len(init);
        lemma_total_len_concat(init, one);
        assert(init + one =~= ls);
        assert(one.drop_first() =~= Seq::<Seq<char>>::empty());
        assert(total_len(one.drop_first()) == 0);
        assert(total_len(one) == one[0].len() + total_len(one.drop_first()));
        lemma_trim_facts(l);
        let prev = join_lines(init);
        assert forall|k: int| 0 <= k < join_lines(ls).len() implies #[trigger] join_lines(
            ls,
        )[k].len() <= total_len(ls) by {
            if k < prev.len() {
                assert(prev[k].len() <= total_len(init));
            }
        }
    }
}

/// Each statement line of a text is no longer than the text.
proof fn lemma_statement_lines_len(s: Seq<char>)
    ensures
        forall|k: int| 0 <= k < statement_lines(s).len() ==> #[trigger] statement_lines(s)[k].len()
            <= s.len(),
{
    lemma_join_lines_len(lines_of(s));
    lemma_lines_total(s);
}

} // verus!
