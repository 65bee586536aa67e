//! Applications `MN`.

use vstd::prelude::*;
use crate::LAMBDA_CHAR;
use crate::error::{ParseError, Parsed};
use crate::text::{
    index_at_byte, lemma_byte_len_bounds, lemma_char_index_at, str_len, str_starts_with,
};
pub use crate::ast::node::Application;
use crate::ast::node::{Abstraction, Node, term_len};
use crate::ast::node::node_ref::NodeRef;
use crate::ast::node::reading::{parse_app, lemma_parse_abs_len};
use crate::ast::node::variable::{Variable, lemma_parsed_variable_len};

verus! {

impl Application {
    /// Reads an application from `s`: its first part is an abstraction (when `s` starts with the
    /// lambda character) or a variable, and the rest of the text is its argument.
    pub fn parse_str(s: &str) -> (r: Result<Application, ParseError>)
        requires
            !(parse_app(s@) is Aborts),
            12 * s@.len() <= usize::MAX,
        ensures
            match parse_app(s@) {
                Parsed::Value(t) => r matches Ok(a) && a@ == t,
                Parsed::Refused(e) => r == Err::<Application, ParseError>(e),
                Parsed::Aborts => false,
            },
    {
        match Application::read(s) {
            Parsed::Value(a) => Ok(a),
            Parsed::Refused(e) => Err(e),
            Parsed::Aborts => {
                proof {
                    assert(false);
                }
                Err(ParseError::InvalidApplication)
            },
        }
    }

    /// Reads an application as `parse_str` does, reporting as `Aborts` the text on which reading
    /// would stop the program.
    pub fn read(s: &str) -> (r: Parsed<Application>)
        requires
            12 * s@.len() <= usize::MAX,
        ensures
            r.agrees(parse_app(s@)),
        decreases s@.len(), 1int,
    {
        let n = s.unicode_len();
        if str_starts_with(s, LAMBDA_CHAR) {
            proof {
                lemma_parse_abs_len(s@, true);
            }
            let left = match Abstraction::read(s, true) {
                Parsed::Value(a) => a,
                Parsed::Refused(e) => {
                    return Parsed::Refused(e);
                },
                Parsed::Aborts => {
                    return Parsed::Aborts;
                },
            };
            proof {
                lemma_byte_len_bounds(s@);
            }
            let left_len = left.len();
            let i = match index_at_byte(s, left_len) {
                Some(i) => i,
                None => {
                    return Parsed::Aborts;
                },
            };
            proof {
                lemma_char_index_at(s@, left_len as int);
            }
            let rest = s.substring_char(i, n);
            assert(rest@ =~= s@.skip(i as int));
            let right = match Node::read(rest) {
                Parsed::Value(b) => b,
                Parsed::Refused(e) => {
                    return Parsed::Refused(e);
                },
                Parsed::Aborts => {
                    return Parsed::Aborts;
                },
            };
            return Parsed::Value(
                Application { left: NodeRef::new(Node::Abstraction(left)), right: NodeRef::new(right) },
            );
        }
        proof {
            lemma_parsed_variable_len(s@);
            lemma_byte_len_bounds(s@);
        }
        match Variable::read(s) {
            Parsed::Value(v) => {
                let v_len = v.len();
                if v_len == str_len(s) {
                    return Parsed::Refused(ParseError::VariableSpansInput);
                }
                let i = match index_at_byte(s, v_len) {
                    Some(i) => i,
                    None => {
                        return Parsed::Aborts;
                    },
                };
                proof {
                    lemma_char_index_at(s@, v_len as int);
                }
                let rest = s.substring_char(i, n);
                assert(rest@ =~= s@.skip(i as int));
                let right = match Node::read(rest) {
                    Parsed::Value(b) => b,
                    Parsed::Refused(e) => {
                        return Parsed::Refused(e);
                    },
                    Parsed::Aborts => {
                        return Parsed::Aborts;
                    },
                };
                Parsed::Value(
                    Application { left: NodeRef::new(Node::Variable(v)), right: NodeRef::new(right) },
                )
            },
            Parsed::Refused(_) => Parsed::Refused(ParseError::InvalidApplication),
            Parsed::Aborts => Parsed::Aborts,
        }
    }

    /// The number of bytes this application took in the text it was read from.
    pub fn len(&self) -> (r: usize)
        requires
            term_len(self@) <= usize::MAX,
        ensures
            r == term_len(self@),
        decreases self,
    {
        self.left.borrow().len() + self.right.borrow().len()
    }

    /// Whether `len` is zero.
    pub fn is_empty(&self) -> (r: bool)
        requires
            term_len(self@) <= usize::MAX,
        ensures
            r == (term_len(self@) == 0),
    {
        self.len() == 0
    }
}

} // verus!
