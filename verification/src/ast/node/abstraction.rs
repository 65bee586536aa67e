//! Abstractions `Lx.body`.

use vstd::prelude::*;
use crate::LAMBDA_CHAR;
use crate::error::{ParseError, Parsed};
use crate::text::{
    find_in, index_at_byte, lemma_byte_len_bounds, lemma_byte_len_split, lemma_char_index_at,
    lemma_find_char_facts, str_len, str_starts_with,
};
pub use crate::ast::node::Abstraction;
use crate::ast::node::{Node, Term, term_len};
use crate::ast::node::node_ref::NodeRef;
use crate::ast::node::reading::parse_abs;
use crate::ast::node::variable::{Variable, lemma_parsed_variable_len};

verus! {

impl Abstraction {
    /// Reads an abstraction from `s`. With `starts_with_lambda`, `s` must start with the lambda
    /// character; without it, `s` is the rest of a curried abstraction after its first bound
    /// variable.
    pub fn parse_str(s: &str, starts_with_lambda: bool) -> (r: Result<Abstraction, ParseError>)
        requires
            !(parse_abs(s@, starts_with_lambda) is Aborts),
            12 * s@.len() <= usize::MAX,
        ensures
            match parse_abs(s@, starts_with_lambda) {
                Parsed::Value((b, body, c)) => r matches Ok(a) && a@ == Term::Abs(
                    b,
                    Box::new(body),
                    c,
                ),
                Parsed::Refused(e) => r == Err::<Abstraction, ParseError>(e),
                Parsed::Aborts => false,
            },
    {
        match Abstraction::read(s, starts_with_lambda) {
            Parsed::Value(a) => Ok(a),
            Parsed::Refused(e) => Err(e),
            Parsed::Aborts => {
                proof {
                    assert(false);
                }
                Err(ParseError::MissingLambda)
            },
        }
    }

    /// Reads an abstraction as `parse_str` does, reporting as `Aborts` the text on which reading
    /// would stop the program.
    pub fn read(s: &str, starts_with_lambda: bool) -> (r: Parsed<Abstraction>)
        requires
            12 * s@.len() <= usize::MAX,
        ensures
            match parse_abs(s@, starts_with_lambda) {
                Parsed::Value((b, body, c)) => r matches Parsed::Value(a) && a@ == Term::Abs(
                    b,
                    Box::new(body),
                    c,
                ),
                Parsed::Refused(e) => r == Parsed::<Abstraction>::Refused(e),
                Parsed::Aborts => r is Aborts,
            },
        decreases s@.len(), 0int,
    {
        if !str_starts_with(s, LAMBDA_CHAR) && starts_with_lambda {
            return Parsed::Refused(ParseError::MissingLambda);
        }
        let dot_idx = match find_in(s, '.') {
            Some(d) => d,
            None => {
                return Parsed::Refused(ParseError::MissingDot);
            },
        };
        proof {
            lemma_find_char_facts(s@, '.');
        }
        let n = s.unicode_len();
        let start: usize = if starts_with_lambda { 1 } else { 0 };
        let piece = s.substring_char(start, dot_idx + start);
        proof {
            lemma_parsed_variable_len(piece@);
            lemma_byte_len_bounds(s@);
            lemma_byte_len_split(s@, dot_idx as int);
            lemma_byte_len_split(s@, dot_idx + start);
            lemma_byte_len_split(s@.take(dot_idx + start), start as int);
            assert(s@.take(dot_idx + start).skip(start as int) =~= piece@);
        }
        let bound = match Variable::read(piece) {
            Parsed::Value(v) => v,
            Parsed::Refused(e) => {
                return Parsed::Refused(e);
            },
            Parsed::Aborts => {
                return Parsed::Aborts;
            },
        };
        let bound_len = bound.len();
        let head = s.substring_char(0, dot_idx);
        assert(head@ =~= s@.take(dot_idx as int));
        let head_len = str_len(head);
        if bound_len + start < head_len {
            let i = match index_at_byte(s, bound_len + start) {
                Some(i) => i,
                None => {
                    return Parsed::Aborts;
                },
            };
            proof {
                lemma_char_index_at(s@, bound_len + start);
            }
            let rest = s.substring_char(i, n);
            assert(rest@ =~= s@.skip(i as int));
            let body = match Abstraction::read(rest, false) {
                Parsed::Value(b) => b,
                Parsed::Refused(e) => {
                    return Parsed::Refused(e);
                },
                Parsed::Aborts => {
                    return Parsed::Aborts;
                },
            };
            return Parsed::Value(
                Abstraction {
                    bound: NodeRef::new(bound),
                    body: NodeRef::new(Node::Abstraction(body)),
                    was_curried: true,
                },
            );
        }
        let rest = s.substring_char(dot_idx + 1, n);
        assert(rest@ =~= s@.skip(dot_idx + 1));
        let body = match Node::read(rest) {
            Parsed::Value(b) => b,
            Parsed::Refused(e) => {
                return Parsed::Refused(e);
            },
            Parsed::Aborts => {
                return Parsed::Aborts;
            },
        };
        Parsed::Value(
            Abstraction { bound: NodeRef::new(bound), body: NodeRef::new(body), was_curried: false },
        )
    }

    /// The number of bytes this abstraction took in the text it was read from.
    pub fn len(&self) -> (r: usize)
        requires
            term_len(self@) <= usize::MAX,
        ensures
            r == term_len(self@),
        decreases self,
    {
        self.bound.borrow().len() + self.body.borrow().len() + 2
    }

    /// Whether `len` is zero.
    pub fn is_empty(&self) -> (r: bool)
        requires
            term_len(self@) <= usize::MAX,
        ensures
            r == (term_len(self@) == 0),
    {
        self.len() == 0
    }
}

} // verus!
