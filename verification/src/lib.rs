//! Reading, rewriting and writing out terms of the untyped lambda calculus.

pub mod text;
pub mod utils;
pub mod error;
pub mod ast;
pub mod cli;
pub mod stdlib;
pub mod interpreter;
pub mod node;

pub use crate::utils::find_closing_delim;

use vstd::prelude::*;

verus! {

/// The character that stands for the lambda in the text of a term.
pub const LAMBDA_CHAR: char = 'L';

} // verus!
