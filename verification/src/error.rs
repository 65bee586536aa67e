//! Why reading a text as a lambda term can fail.

use vstd::prelude::*;

verus! {

/// The ways reading text can be refused.
#[derive(Debug, Clone, Copy, PartialEq, Eq, Structural)]
pub enum ParseError {
    /// An abstraction must start with the lambda character.
    MissingLambda,
    /// An abstraction must hold a `.` between its bound variable and its body.
    MissingDot,
    /// Nothing but white space where a variable was expected.
    InvalidVariable,
    /// The text between the lambda and the `.` is more than one variable.
    BoundNotSingleVariable,
    /// The text read as an application is a single variable.
    VariableSpansInput,
    /// The text read as an application does not start with a variable or an abstraction.
    InvalidApplication,
    /// A line with `:=` has nothing on one of its sides.
    InvalidAssignment,
}

/// What reading a piece of text gives: a value, a refusal, or (where the reading would stop the
/// program) nothing.
pub enum Parsed<T> {
    Value(T),
    Refused(ParseError),
    Aborts,
}

impl<T: View> Parsed<T> {
    /// Whether this outcome of reading is `p`, the value taken by its view.
    pub open spec fn agrees(self, p: Parsed<T::V>) -> bool {
        match (self, p) {
            (Parsed::Value(x), Parsed::Value(v)) => x@ == v,
            (Parsed::Refused(e1), Parsed::Refused(e2)) => e1 == e2,
            (Parsed::Aborts, Parsed::Aborts) => true,
            _ => false,
        }
    }
}

} // verus!
