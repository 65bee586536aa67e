//! Applications of the first term representation.

use vstd::prelude::*;
use crate::node::Node;
use crate::node::node_ref::NodeRef;

verus! {

/// An application: a function part applied to an argument. Reading one from text is not
/// provided by this representation.
#[derive(Debug)]
pub struct Application {
    pub left: NodeRef<Node>,
    pub right: NodeRef<Node>,
}

} // verus!
