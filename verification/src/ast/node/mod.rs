//! Lambda terms: variables, abstractions and applications.

pub mod variable;
pub mod node_ref;
pub mod reading;
pub mod abstraction;
pub mod application;
pub mod assignments;
pub mod rewriting;
pub mod display;
pub mod deep_clone;

use vstd::prelude::*;
use crate::ast::node::variable::{Variable, VarV, var_len, lemma_parsed_variable_len};
use crate::ast::node::node_ref::NodeRef;
use crate::LAMBDA_CHAR;
use crate::error::{ParseError, Parsed};
use crate::text::{byte_len, lemma_byte_len_bounds, str_len, str_starts_with};
use crate::ast::node::reading::parse_node;

verus! {

/// The mathematical value of a lambda term. An abstraction records whether it was written in
/// the curried form `Lxy.body`.
pub enum Term {
    Var(VarV),
    Abs(VarV, Box<Term>, bool),
    App(Box<Term>, Box<Term>),
}

/// An application: a function part applied to an argument.
#[derive(Debug)]
pub struct Application {
    pub left: NodeRef<Node>,
    pub right: NodeRef<Node>,
}

/// An abstraction `Lx.body`; `was_curried` records that it was written `Lxy.body`, with the
/// inner abstraction as its body.
#[derive(Debug)]
pub struct Abstraction {
    pub bound: NodeRef<Variable>,
    pub body: NodeRef<Node>,
    pub was_curried: bool,
}

/// Which kind of term a node is.
#[derive(Debug, Clone, Copy, PartialEq, Eq, Structural)]
pub enum NodeVariant {
    Application,
    Abstraction,
    Variable,
}

/// Which kind of term `t` is.
pub open spec fn term_variant(t: Term) -> NodeVariant {
    match t {
        Term::Var(_) => NodeVariant::Variable,
        Term::Abs(..) => NodeVariant::Abstraction,
        Term::App(..) => NodeVariant::Application,
    }
}

/// A lambda term.
#[derive(Debug)]
pub enum Node {
    Application(Application),
    Abstraction(Abstraction),
    Variable(Variable),
}

/// The term a node stands for.
pub open spec fn node_term(n: &Node) -> Term
    decreases n,
{
    match n {
        Node::Variable(v) => Term::Var(v@),
        Node::Abstraction(ab) => Term::Abs(
            (*ab.bound.inner)@,
            Box::new(node_term(&*ab.body.inner)),
            ab.was_curried,
        ),
        Node::Application(ap) => Term::App(
            Box::new(node_term(&*ap.left.inner)),
            Box::new(node_term(&*ap.right.inner)),
        ),
    }
}

impl View for Node {
    type V = Term;

    open spec fn view(&self) -> Term {
        node_term(self)
    }
}

impl View for Abstraction {
    type V = Term;

    open spec fn view(&self) -> Term {
        Term::Abs(self.bound@, Box::new(self.body@), self.was_curried)
    }
}

impl View for Application {
    type V = Term;

    open spec fn view(&self) -> Term {
        Term::App(Box::new(self.left@), Box::new(self.right@))
    }
}

/// The number of bytes a term takes when written the way it was read: a variable its own
/// length, an abstraction two more than its bound variable and body, an application the sum of
/// its parts.
pub open spec fn term_len(t: Term) -> nat
    decreases t,
{
    match t {
        Term::Var(v) => var_len(v),
        Term::Abs(b, body, _) => var_len(b) + term_len(*body) + 2,
        Term::App(l, r) => term_len(*l) + term_len(*r),
    }
}


impl Node {
    /// Reads a term from `s`: an abstraction if `s` starts with the lambda character, a variable
    /// if one variable spans all of `s`, else an application.
    pub fn parse_str(s: &str) -> (r: Result<Node, ParseError>)
        requires
            !(parse_node(s@) is Aborts),
            12 * s@.len() <= usize::MAX,
        ensures
            match parse_node(s@) {
                Parsed::Value(t) => r matches Ok(n) && n@ == t,
                Parsed::Refused(e) => r == Err::<Node, ParseError>(e),
                Parsed::Aborts => false,
            },
    {
        match Node::read(s) {
            Parsed::Value(n) => Ok(n),
            Parsed::Refused(e) => Err(e),
            Parsed::Aborts => {
                proof {
                    assert(false);
                }
                Err(ParseError::InvalidApplication)
            },
        }
    }

    /// Reads a term as `parse_str` does, reporting as `Aborts` the text on which reading would
    /// stop the program.
    pub fn read(s: &str) -> (r: Parsed<Node>)
        requires
            12 * s@.len() <= usize::MAX,
        ensures
            r.agrees(parse_node(s@)),
        decreases s@.len(), 2int,
    {
        if str_starts_with(s, LAMBDA_CHAR) {
            return match Abstraction::read(s, true) {
                Parsed::Value(ab) => Parsed::Value(Node::Abstraction(ab)),
                Parsed::Refused(e) => Parsed::Refused(e),
                Parsed::Aborts => Parsed::Aborts,
            };
        }
        match Variable::read(s) {
            Parsed::Value(v) => {
                proof {
                    lemma_parsed_variable_len(s@);
                    lemma_byte_len_bounds(s@);
                }
                if v.len() == str_len(s) {
                    return Parsed::Value(Node::Variable(v));
                }
            },
            Parsed::Refused(_) => {},
            Parsed::Aborts => {
                return Parsed::Aborts;
            },
        }
        match Application::read(s) {
            Parsed::Value(ap) => Parsed::Value(Node::Application(ap)),
            Parsed::Refused(e) => Parsed::Refused(e),
            Parsed::Aborts => Parsed::Aborts,
        }
    }

    /// The number of bytes this term took in the text it was read from.
    pub fn len(&self) -> (r: usize)
        requires
            term_len(self@) <= usize::MAX,
        ensures
            r == term_len(self@),
        decreases self,
    {
        match self {
            Node::Variable(v) => v.len(),
            Node::Abstraction(ab) => ab.len(),
            Node::Application(ap) => ap.len(),
        }
    }

    /// Whether `len` is zero.
    pub fn is_empty(&self) -> (r: bool)
        requires
            term_len(self@) <= usize::MAX,
        ensures
            r == (term_len(self@) == 0),
    {
        self.len() == 0
    }
}

} // verus!
