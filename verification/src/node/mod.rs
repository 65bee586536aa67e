//! The first representation of terms: variables and abstractions, with applications only
//! named.

pub mod variable;
pub mod abstraction;
pub mod application;
pub mod node_ref;

use vstd::prelude::*;
use crate::ast::node::variable::VarV;
use crate::node::abstraction::Abstraction;
use crate::node::variable::{Variable, word_var_len};

verus! {

/// A term of this representation; an application carries nothing.
#[derive(Debug)]
pub enum Node {
    Application,
    Abstraction(Abstraction),
    Variable(Variable),
}

/// The value of a term of this representation.
pub enum Shape {
    Application,
    Abstraction(Box<Shape>, Box<Shape>),
    Variable(VarV),
}

/// The shape a node stands for.
pub open spec fn node_shape(n: &Node) -> Shape
    decreases n,
{
    match n {
        Node::Application => Shape::Application,
        Node::Abstraction(ab) => Shape::Abstraction(
            Box::new(node_shape(&*ab.bound.inner)),
            Box::new(node_shape(&*ab.body.inner)),
        ),
        Node::Variable(v) => Shape::Variable(v@),
    }
}

impl View for Node {
    type V = Shape;

    open spec fn view(&self) -> Shape {
        node_shape(self)
    }
}

/// Whether an application stands anywhere in `s` (taking its length stops the program there).
pub open spec fn shape_has_app(s: Shape) -> bool
    decreases s,
{
    match s {
        Shape::Application => true,
        Shape::Abstraction(b, body) => shape_has_app(*b) || shape_has_app(*body),
        Shape::Variable(_) => false,
    }
}

/// The length this representation gives a term without applications: a variable its own,
/// an abstraction its bound variable and body and two more.
pub open spec fn shape_len(s: Shape) -> nat
    decreases s,
{
    match s {
        Shape::Application => 0,
        Shape::Abstraction(b, body) => shape_len(*b) + shape_len(*body) + 2,
        Shape::Variable(v) => word_var_len(v),
    }
}

impl Node {
    /// The length this representation gives the term.
    pub fn len(&self) -> (r: usize)
        requires
            !shape_has_app(self@),
            shape_len(self@) <= usize::MAX,
        ensures
            r == shape_len(self@),
        decreases self,
    {
        match self {
            Node::Variable(v) => v.len(),
            Node::Abstraction(ab) => ab.len(),
            Node::Application => {
                proof {
                    assert(false);
                }
                0
            },
        }
    }

    /// Whether `len` is zero.
    pub fn is_empty(&self) -> (r: bool)
        requires
            !shape_has_app(self@),
            shape_len(self@) <= usize::MAX,
        ensures
            r == (shape_len(self@) == 0),
    {
        self.len() == 0
    }
}

} // verus!
