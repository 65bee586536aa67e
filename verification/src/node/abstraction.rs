//! Abstractions of the first term representation.

use vstd::prelude::*;
use crate::LAMBDA_CHAR;
use crate::error::ParseError;
use crate::text::{
    byte_len, find_char, find_in, lemma_byte_len_bounds, lemma_byte_len_split,
    lemma_find_char_facts, starts_with_char, str_len, str_starts_with,
};
use crate::ast::node::variable::lemma_byte_len_subrange;
use crate::node::{Node, Shape, shape_has_app, shape_len};
use crate::node::node_ref::NodeRef;
use crate::node::variable::{Variable, parse_word_variable, word_var_len, lemma_word_variable_len};

verus! {

/// An abstraction `Lx.body`; its bound variable is held as a node.
#[derive(Debug)]
pub struct Abstraction {
    pub bound: NodeRef<Node>,
    pub body: NodeRef<Node>,
}

impl View for Abstraction {
    type V = Shape;

    open spec fn view(&self) -> Shape {
        Shape::Abstraction(Box::new(self.bound@), Box::new(self.body@))
    }
}

/// How reading an abstraction from `s` ends: refused without the lambda character, without a
/// `.`, or where the text before the `.` is more than one variable. Past those checks reading
/// goes on to the body, which this representation cannot read: the program stops, and so it
/// does where reading the bound variable stops it. `None` stands for stopping.
pub open spec fn parse_word_abs(s: Seq<char>) -> Option<ParseError> {
    if !starts_with_char(s, 'L') {
        Some(ParseError::MissingLambda)
    } else {
        match find_char(s, '.') {
            None => Some(ParseError::MissingDot),
            Some(d) => match parse_word_variable(s.subrange(1, d)) {
                None => None,
                Some(v) => if word_var_len(v) != byte_len(s.take(d)) - 1 {
                    Some(ParseError::BoundNotSingleVariable)
                } else {
                    None
                },
            },
        }
    }
}

impl Abstraction {
    /// Reads an abstraction from `s`. Every text that reading does not refuse stops the program
    /// (the body cannot be read in this representation), so on the texts `requires` admits the
    /// result is the refusal.
    pub fn parse_str(s: &str) -> (r: Result<Abstraction, ParseError>)
        requires
            parse_word_abs(s@) is Some,
            12 * s@.len() <= usize::MAX,
        ensures
            r == Err::<Abstraction, ParseError>(parse_word_abs(s@)->0),
    {
        if !str_starts_with(s, LAMBDA_CHAR) {
            return Err(ParseError::MissingLambda);
        }
        let dot_idx = match find_in(s, '.') {
            Some(d) => d,
            None => {
                return Err(ParseError::MissingDot);
            },
        };
        proof {
            lemma_find_char_facts(s@, '.');
        }
        assert(s@[0] == 'L');
        assert(find_char(s@, '.') == Some(dot_idx as int));
        assert(s@[dot_idx as int] == '.');
        assert(dot_idx >= 1);
        let piece = s.substring_char(1, dot_idx);
        assert(piece@ =~= s@.subrange(1, dot_idx as int));
        proof {
            lemma_word_variable_len(piece@);
            lemma_byte_len_bounds(s@);
            lemma_byte_len_subrange(s@, 1, dot_idx as int);
        }
        let bound = match Variable::parse_str(piece) {
            Ok(v) => v,
            Err(e) => {
                return Err(e);
            },
        };
        let head = s.substring_char(0, dot_idx);
        assert(head@ =~= s@.take(dot_idx as int));
        proof {
            lemma_byte_len_split(s@, dot_idx as int);
            lemma_byte_len_bounds(head@);
        }
        if bound.len() != str_len(head) - 1 {
            return Err(ParseError::BoundNotSingleVariable);
        }
        proof {
            assert(false);
        }
        Err(ParseError::BoundNotSingleVariable)
    }

    /// The length this representation gives the abstraction: its bound variable and body and
    /// two more.
    pub fn len(&self) -> (r: usize)
        requires
            !shape_has_app(self@),
            shape_len(self@) <= usize::MAX,
        ensures
            r == shape_len(self@),
        decreases self,
    {
        self.bound.borrow().len() + self.body.borrow().len() + 2
    }

    /// Whether `len` is zero.
    pub fn is_empty(&self) -> (r: bool)
        requires
            !shape_has_app(self@),
            shape_len(self@) <= usize::MAX,
        ensures
            r == (shape_len(self@) == 0),
    {
        self.len() == 0
    }
}

} // verus!
