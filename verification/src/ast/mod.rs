//! Reading, rewriting and writing out lambda terms.

pub mod node;
pub mod expr;

pub use crate::ast::node::{Node, NodeVariant, Term};
pub use crate::ast::node::abstraction;
pub use crate::ast::node::application;
pub use crate::ast::node::assignments;
pub use crate::ast::node::node_ref;
pub use crate::ast::node::variable;
