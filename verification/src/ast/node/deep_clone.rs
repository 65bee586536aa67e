//! Standalone copies of terms, kept as the record of each stage of an evaluation.

use vstd::prelude::*;
use crate::LAMBDA_CHAR;
use crate::text::{byte_len, checked_str_len, more_than_one_byte, push_char, push_str, str_len};
use crate::ast::node::{Node, Term, term_len};
use crate::ast::node::node_ref::NodeRef;
use crate::ast::node::variable::{Variable, VarV, var_len, var_text};
use crate::ast::node::display::{display_ok, term_text, lemma_term_len_parts};

verus! {

/// A copy of a term.
#[derive(Debug)]
pub enum NodeDeepClone {
    Application(Box<ApplicationDeepClone>),
    Abstraction(Box<AbstractionDeepClone>),
    Variable(Box<VariableDeepClone>),
}

/// A copy of an application.
#[derive(Debug)]
pub struct ApplicationDeepClone {
    pub left: Box<NodeDeepClone>,
    pub right: Box<NodeDeepClone>,
}

/// A copy of an abstraction.
#[derive(Debug)]
pub struct AbstractionDeepClone {
    pub bound: Box<VariableDeepClone>,
    pub body: Box<NodeDeepClone>,
    pub was_curried: bool,
}

/// A copy of a variable.
#[derive(Debug, Clone, PartialEq, Eq, Hash)]
pub struct VariableDeepClone {
    pub ident: String,
    pub subtext: Option<String>,
}

impl View for VariableDeepClone {
    type V = VarV;

    open spec fn view(&self) -> VarV {
        VarV {
            ident: self.ident@,
            subtext: match self.subtext {
                Some(st) => Some(st@),
                None => None,
            },
        }
    }
}

/// The term a copy stands for.
pub open spec fn clone_term(n: &NodeDeepClone) -> Term
    decreases n,
{
    match n {
        NodeDeepClone::Variable(v) => Term::Var((**v)@),
        NodeDeepClone::Abstraction(ab) => Term::Abs(
            (*ab.bound)@,
            Box::new(clone_term(&*ab.body)),
            ab.was_curried,
        ),
        NodeDeepClone::Application(ap) => Term::App(
            Box::new(clone_term(&*ap.left)),
            Box::new(clone_term(&*ap.right)),
        ),
    }
}

impl View for NodeDeepClone {
    type V = Term;

    open spec fn view(&self) -> Term {
        clone_term(self)
    }
}

impl View for ApplicationDeepClone {
    type V = Term;

    open spec fn view(&self) -> Term {
        Term::App(Box::new((*self.left)@), Box::new((*self.right)@))
    }
}

impl View for AbstractionDeepClone {
    type V = Term;

    open spec fn view(&self) -> Term {
        Term::Abs((*self.bound)@, Box::new((*self.body)@), self.was_curried)
    }
}

impl VariableDeepClone {
    /// A copy of `v`.
    fn from_variable(v: &Variable) -> (r: VariableDeepClone)
        ensures
            r@ == v@,
    {
        VariableDeepClone {
            ident: v.ident.clone(),
            subtext: match &v.subtext {
                Some(st) => Some(st.clone()),
                None => None,
            },
        }
    }

    /// A copy of the variable that `node` holds.
    pub fn deep_clone_from(node: NodeRef<Node>) -> (r: Box<Self>)
        requires
            node@ is Var,
        ensures
            Term::Var((*r)@) == node@,
    {
        match node.borrow() {
            Node::Variable(var) => Box::new(VariableDeepClone::from_variable(var)),
            _ => {
                proof {
                    assert(false);
                }
                Box::new(VariableDeepClone { ident: String::new(), subtext: None })
            },
        }
    }

    /// A copy of the variable that `node` holds.
    pub fn deep_clone_var_from(node: NodeRef<Variable>) -> (r: Box<Self>)
        ensures
            (*r)@ == node@,
    {
        Box::new(VariableDeepClone::from_variable(node.borrow()))
    }

    /// The number of bytes the variable took in the text it was read from.
    pub fn len(&self) -> (r: usize)
        requires
            var_len(self@) <= usize::MAX,
        ensures
            r == var_len(self@),
    {
        let n = str_len(self.ident.as_str());
        match &self.subtext {
            Some(st) => {
                let m = str_len(st.as_str());
                if m != 1 {
                    n + m + 3
                } else {
                    n + m + 1
                }
            },
            None => n,
        }
    }

    /// Whether two copies are of the same variable.
    pub fn same_as(&self, other: &VariableDeepClone) -> (r: bool)
        ensures
            r == (self@ == other@),
    {
        let same_ident = self.ident == other.ident;
        let same_sub = match (&self.subtext, &other.subtext) {
            (Some(a), Some(b)) => *a == *b,
            (None, None) => true,
            _ => false,
        };
        same_ident && same_sub
    }

    /// Appends how the variable is written out to `out`.
    pub fn write_to(&self, out: &mut String)
        ensures
            final(out)@ == old(out)@ + var_text(self@),
    {
        push_str(out, self.ident.as_str());
        match &self.subtext {
            Some(sub) => {
                if more_than_one_byte(sub.as_str()) {
                    push_char(out, '_');
                    push_char(out, '{');
                    push_str(out, sub.as_str());
                    push_char(out, '}');
                } else {
                    push_char(out, '_');
                    push_str(out, sub.as_str());
                }
            },
            None => {},
        }
        proof {
            let v = self@;
            match v.subtext {
                Some(sub) => {
                    if byte_len(sub) > 1 {
                        assert(final(out)@ =~= old(out)@ + var_text(v));
                    } else {
                        assert(final(out)@ =~= old(out)@ + var_text(v));
                    }
                },
                None => {
                    assert(final(out)@ =~= old(out)@ + var_text(v));
                },
            }
        }
    }

    /// How the variable is written out.
    pub fn to_string(&self) -> (r: String)
        ensures
            r@ == var_text(self@),
    {
        let mut out = String::new();
        self.write_to(&mut out);
        assert(out@ =~= var_text(self@));
        out
    }
}

/// Whether comparing a copy with a live term comes to an end within `depth` nested calls: the
/// comparison makes the same comparison again before it can answer.
pub open spec fn term_comparison_returns(depth: nat) -> bool
    decreases depth,
{
    if depth == 0 {
        false
    } else {
        term_comparison_returns((depth - 1) as nat)
    }
}

/// Comparing a copy with a live term never comes to an end, however deep the calls may go.
pub proof fn lemma_term_comparison_never_returns(depth: nat)
    ensures
        !term_comparison_returns(depth),
    decreases depth,
{
    if depth > 0 {
        lemma_term_comparison_never_returns((depth - 1) as nat);
    }
}

impl NodeDeepClone {
    /// A copy of `n`.
    pub fn from_node(n: &Node) -> (r: NodeDeepClone)
        ensures
            r@ == n@,
        decreases n,
    {
        match n {
            Node::Variable(v) => NodeDeepClone::Variable(Box::new(VariableDeepClone::from_variable(v))),
            Node::Abstraction(ab) => NodeDeepClone::Abstraction(
                Box::new(
                    AbstractionDeepClone {
                        bound: Box::new(VariableDeepClone::from_variable(ab.bound.borrow())),
                        body: Box::new(NodeDeepClone::from_node(ab.body.borrow())),
                        was_curried: ab.was_curried,
                    },
                ),
            ),
            Node::Application(ap) => NodeDeepClone::Application(
                Box::new(
                    ApplicationDeepClone {
                        left: Box::new(NodeDeepClone::from_node(ap.left.borrow())),
                        right: Box::new(NodeDeepClone::from_node(ap.right.borrow())),
                    },
                ),
            ),
        }
    }

    /// A copy of the term `node` holds.
    pub fn deep_clone_from(node: NodeRef<Node>) -> (r: NodeDeepClone)
        ensures
            r@ == node@,
    {
        NodeDeepClone::from_node(node.borrow())
    }

    /// The number of bytes the term took in the text it was read from.
    pub fn len(&self) -> (r: usize)
        requires
            term_len(self@) <= usize::MAX,
        ensures
            r == term_len(self@),
        decreases self,
    {
        match self {
            NodeDeepClone::Variable(v) => v.len(),
            NodeDeepClone::Abstraction(ab) => ab.len(),
            NodeDeepClone::Application(ap) => ap.len(),
        }
    }

    /// Whether two copies are of the same term.
    pub fn same_as(&self, other: &NodeDeepClone) -> (r: bool)
        ensures
            r == (self@ == other@),
        decreases self,
    {
        match (self, other) {
            (NodeDeepClone::Variable(a), NodeDeepClone::Variable(b)) => a.same_as(b),
            (NodeDeepClone::Abstraction(a), NodeDeepClone::Abstraction(b)) => {
                let r = a.bound.same_as(&b.bound) && a.was_curried == b.was_curried
                    && a.body.same_as(&b.body);
                proof {
                    if !r && self@ == other@ {
                        assert((*a.bound)@ == (*b.bound)@);
                        assert((*a.body)@ == (*b.body)@);
                    }
                }
                r
            },
            (NodeDeepClone::Application(a), NodeDeepClone::Application(b)) => {
                let r = a.left.same_as(&b.left) && a.right.same_as(&b.right);
                proof {
                    if !r && self@ == other@ {
                        assert((*a.left)@ == (*b.left)@);
                        assert((*a.right)@ == (*b.right)@);
                    }
                }
                r
            },
            _ => false,
        }
    }

    /// Compares this copy with the term `node` holds: borrows the term and compares the copy with
    /// it (see `same_as_term`). That comparison never comes to an end (see
    /// `lemma_term_comparison_never_returns`), so no call of this one does either.
    pub fn same_as_node(&self, node: &NodeRef<Node>) -> (r: bool)
        requires
            exists|d: nat| term_comparison_returns(d),
    {
        self.same_as_term(node.borrow())
    }

    /// Compares this copy with the term `node`: the comparison makes the same comparison again,
    /// so no call comes to an end (see `lemma_term_comparison_never_returns`).
    pub fn same_as_term(&self, node: &Node) -> (r: bool)
        requires
            exists|d: nat| term_comparison_returns(d),
        decreases choose|d: nat| term_comparison_returns(d),
    {
        proof {
            lemma_term_comparison_never_returns(choose|d: nat| term_comparison_returns(d));
        }
        self.same_as_term(node)
    }

    /// Appends how the term is written out to `out`.
    pub fn write_to(&self, out: &mut String)
        requires
            display_ok(self@),
            term_len(self@) <= usize::MAX,
        ensures
            final(out)@ == old(out)@ + term_text(self@),
        decreases self,
    {
        match self {
            NodeDeepClone::Variable(v) => v.write_to(out),
            NodeDeepClone::Abstraction(ab) => ab.write_to(out),
            NodeDeepClone::Application(ap) => ap.write_to(out),
        }
    }

    /// How the term is written out.
    pub fn to_string(&self) -> (r: String)
        requires
            display_ok(self@),
            term_len(self@) <= usize::MAX,
        ensures
            r@ == term_text(self@),
    {
        let mut out = String::new();
        self.write_to(&mut out);
        assert(out@ =~= term_text(self@));
        out
    }
}

impl VariableDeepClone {
    /// The number of bytes the variable took in the text it was read from, where that number
    /// fits in a `usize`.
    pub fn checked_len(&self) -> (r: Option<usize>)
        ensures
            match r {
                Some(n) => n == var_len(self@),
                None => var_len(self@) > usize::MAX,
            },
    {
        let n = match checked_str_len(self.ident.as_str()) {
            Some(n) => n,
            None => {
                return None;
            },
        };
        match &self.subtext {
            Some(st) => {
                let m = match checked_str_len(st.as_str()) {
                    Some(m) => m,
                    None => {
                        return None;
                    },
                };
                let extra: usize = if m != 1 { 3 } else { 1 };
                match n.checked_add(m) {
                    Some(nm) => nm.checked_add(extra),
                    None => None,
                }
            },
            None => Some(n),
        }
    }
}

impl NodeDeepClone {
    /// The number of bytes the term took in the text it was read from, where that number
    /// fits in a `usize`.
    pub fn checked_len(&self) -> (r: Option<usize>)
        ensures
            match r {
                Some(n) => n == term_len(self@),
                None => term_len(self@) > usize::MAX,
            },
        decreases self,
    {
        match self {
            NodeDeepClone::Variable(v) => v.checked_len(),
            NodeDeepClone::Abstraction(ab) => {
                match (ab.bound.checked_len(), ab.body.checked_len()) {
                    (Some(b), Some(body)) => match b.checked_add(body) {
                        Some(x) => x.checked_add(2),
                        None => None,
                    },
                    _ => None,
                }
            },
            NodeDeepClone::Application(ap) => {
                match (ap.left.checked_len(), ap.right.checked_len()) {
                    (Some(l), Some(r)) => l.checked_add(r),
                    _ => None,
                }
            },
        }
    }

    /// Whether the term can be written out: each abstraction marked curried has an abstraction
    /// as its body.
    pub fn can_display(&self) -> (r: bool)
        ensures
            r == display_ok(self@),
        decreases self,
    {
        match self {
            NodeDeepClone::Variable(v) => {
                assert(self@ == Term::Var((**v)@));
                true
            },
            NodeDeepClone::Abstraction(ab) => {
                assert(self@ == Term::Abs((*ab.bound)@, Box::new((*ab.body)@), ab.was_curried));
                if ab.was_curried {
                    match &*ab.body {
                        NodeDeepClone::Abstraction(inner) => {
                            assert((*ab.body)@ == Term::Abs(
                                (*inner.bound)@,
                                Box::new((*inner.body)@),
                                inner.was_curried,
                            ));
                            inner.body.can_display()
                        },
                        NodeDeepClone::Variable(v) => {
                            assert((*ab.body)@ == Term::Var((**v)@));
                            false
                        },
                        NodeDeepClone::Application(ap) => {
                            assert((*ab.body)@ == Term::App(
                                Box::new((*ap.left)@),
                                Box::new((*ap.right)@),
                            ));
                            false
                        },
                    }
                } else {
                    ab.body.can_display()
                }
            },
            NodeDeepClone::Application(ap) => {
                assert(self@ == Term::App(Box::new((*ap.left)@), Box::new((*ap.right)@)));
                ap.left.can_display() && ap.right.can_display()
            },
        }
    }

    /// Whether the term can be written out and its length fits in a `usize`.
    pub fn printable(&self) -> (r: bool)
        ensures
            r == (display_ok(self@) && term_len(self@) <= usize::MAX),
    {
        self.can_display() && self.checked_len().is_some()
    }
}

impl ApplicationDeepClone {
    /// A copy of the application that `node` holds.
    pub fn deep_clone_from(node: NodeRef<Node>) -> (r: Box<Self>)
        requires
            node@ is App,
        ensures
            (*r)@ == node@,
    {
        match node.borrow() {
            Node::Application(ap) => Box::new(
                ApplicationDeepClone {
                    left: Box::new(NodeDeepClone::from_node(ap.left.borrow())),
                    right: Box::new(NodeDeepClone::from_node(ap.right.borrow())),
                },
            ),
            _ => {
                proof {
                    assert(false);
                }
                Box::new(
                    ApplicationDeepClone {
                        left: Box::new(NodeDeepClone::from_node(node.borrow())),
                        right: Box::new(NodeDeepClone::from_node(node.borrow())),
                    },
                )
            },
        }
    }

    /// The number of characters the application took in the text it was read from.
    pub fn len(&self) -> (r: usize)
        requires
            term_len(self@) <= usize::MAX,
        ensures
            r == term_len(self@),
        decreases self,
    {
        self.left.len() + self.right.len()
    }

    /// Appends how the application is written out to `out`.
    pub fn write_to(&self, out: &mut String)
        requires
            display_ok(self@),
            term_len(self@) <= usize::MAX,
        ensures
            final(out)@ == old(out)@ + term_text(self@),
        decreases self,
    {
        proof {
            lemma_term_len_parts(self@);
        }
        let ghost start = out@;
        if self.len() > 2 {
            self.left.write_to(out);
            push_char(out, '(');
            self.right.write_to(out);
            push_char(out, ')');
        } else {
            self.left.write_to(out);
            self.right.write_to(out);
        }
        assert(out@ =~= start + term_text(self@));
    }

    /// How the term is written out.
    pub fn to_string(&self) -> (r: String)
        requires
            display_ok(self@),
            term_len(self@) <= usize::MAX,
        ensures
            r@ == term_text(self@),
    {
        let mut out = String::new();
        self.write_to(&mut out);
        assert(out@ =~= term_text(self@));
        out
    }
}

impl AbstractionDeepClone {
    /// A copy of the abstraction that `node` holds.
    pub fn deep_clone_from(node: NodeRef<Node>) -> (r: Box<Self>)
        requires
            node@ is Abs,
        ensures
            (*r)@ == node@,
    {
        match node.borrow() {
            Node::Abstraction(ab) => Box::new(
                AbstractionDeepClone {
                    bound: Box::new(VariableDeepClone::from_variable(ab.bound.borrow())),
                    body: Box::new(NodeDeepClone::from_node(ab.body.borrow())),
                    was_curried: ab.was_curried,
                },
            ),
            _ => {
                proof {
                    assert(false);
                }
                Box::new(
                    AbstractionDeepClone {
                        bound: Box::new(VariableDeepClone { ident: String::new(), subtext: None }),
                        body: Box::new(NodeDeepClone::from_node(node.borrow())),
                        was_curried: false,
                    },
                )
            },
        }
    }

    /// The number of characters the abstraction took in the text it was read from.
    pub fn len(&self) -> (r: usize)
        requires
            term_len(self@) <= usize::MAX,
        ensures
            r == term_len(self@),
        decreases self,
    {
        self.bound.len() + self.body.len() + 2
    }

    /// Appends how the abstraction is written out to `out`.
    pub fn write_to(&self, out: &mut String)
        requires
            display_ok(self@),
            term_len(self@) <= usize::MAX,
        ensures
            final(out)@ == old(out)@ + term_text(self@),
        decreases self,
    {
        proof {
            lemma_term_len_parts(self@);
        }
        let ghost start = out@;
        if self.was_curried {
            match &*self.body {
                NodeDeepClone::Abstraction(inner) => {
                    proof {
                        lemma_term_len_parts((**inner)@);
                    }
                    push_char(out, LAMBDA_CHAR);
                    self.bound.write_to(out);
                    inner.bound.write_to(out);
                    push_char(out, '.');
                    inner.body.write_to(out);
                    assert(out@ =~= start + term_text(self@));
                },
                _ => {
                    proof {
                        assert(false);
                    }
                },
            }
        } else {
            push_char(out, LAMBDA_CHAR);
            self.bound.write_to(out);
            push_char(out, '.');
            self.body.write_to(out);
            assert(out@ =~= start + term_text(self@));
        }
    }

    /// How the term is written out.
    pub fn to_string(&self) -> (r: String)
        requires
            display_ok(self@),
            term_len(self@) <= usize::MAX,
        ensures
            r@ == term_text(self@),
    {
        let mut out = String::new();
        self.write_to(&mut out);
        assert(out@ =~= term_text(self@));
        out
    }
}

/// A copy of a term has the term's length and written text, and can be written out exactly
/// when the term can: for every term, whatever its length.
pub proof fn lemma_copy_keeps_length_and_text(n: Node, c: NodeDeepClone)
    requires
        c@ == n@,
    ensures
        term_len(c@) == term_len(n@),
        term_text(c@) == term_text(n@),
        display_ok(c@) == display_ok(n@),
{
}

/// A copy of a variable has the variable's length and written text.
pub proof fn lemma_variable_copy_keeps_length(v: Variable, c: VariableDeepClone)
    requires
        c@ == v@,
    ensures
        var_len(c@) == var_len(v@),
        var_text(c@) == var_text(v@),
{
}

impl NodeRef<Node> {
    /// A copy of the held term.
    pub fn deep_clone(&self) -> (r: NodeDeepClone)
        ensures
            r@ == self@,
    {
        NodeDeepClone::from_node(self.borrow())
    }
}

} // verus!
