//! A node of the document tree: literal text or a nested element.

use crate::element::{elem_v, ElemV, Element};
use vstd::prelude::*;

verus! {

/// Spec-level image of a [`Node`].
#[verifier::ext_equal]
pub enum NodeV {
    /// Literal character data between tags.
    Text(Seq<char>),
    /// A nested element.
    Element(ElemV),
}

/// Either literal text or a nested element, owned by its parent's
/// children list.
#[derive(Debug)]
pub enum Node {
    /// Literal character data between tags; never empty once materialized.
    Text(String),
    /// A nested element.
    Element(Element),
}

/// The mathematical value of a node.
pub open spec fn node_v(n: Node) -> NodeV
    decreases n,
{
    match n {
        Node::Text(s) => NodeV::Text(s@),
        Node::Element(e) => NodeV::Element(elem_v(e)),
    }
}

impl View for Node {
    type V = NodeV;

    open spec fn view(&self) -> NodeV {
        node_v(*self)
    }
}

/// A node is well formed when its text is nonempty and, for an element,
/// the element itself is well formed.
pub open spec fn wf_node(n: NodeV) -> bool
    decreases n,
{
    match n {
        NodeV::Text(s) => s.len() > 0,
        NodeV::Element(e) => crate::element::wf_elem(e),
    }
}

} // verus!
