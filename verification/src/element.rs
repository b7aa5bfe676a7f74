//! The element type: one XML tag together with its attributes and subtree.

use crate::builder::{build_spec, build_tree, res_v};
use crate::error::{ErrV, XmlError};
use crate::events::{events_v, lex, opt_msg_v, read_events, EventV, XmlEvent};
use crate::node::{node_v, wf_node, Node, NodeV};
use crate::writer::{emit_elem, emit_elem_events, render_events, serialize_spec};
use vstd::prelude::*;

verus! {

/// Spec-level image of an [`Element`].
#[verifier::ext_equal]
pub struct ElemV {
    /// The tag's local name.
    pub name: Seq<char>,
    /// Attribute pairs in first-occurrence order; keys unique.
    pub attrs: Seq<(Seq<char>, Seq<char>)>,
    /// The ordered children.
    pub children: Seq<NodeV>,
}

/// One XML tag and its subtree.
///
/// `attrs` is an association list from attribute name to attribute value,
/// both as raw text; a later attribute with the same name overwrites the
/// value of an earlier one, so keys are unique. Its order is the order of
/// first occurrence in the source, which callers should treat as
/// unspecified mapping order. `children` is the ordered child sequence,
/// and its order determines serialized output order.
#[derive(Debug)]
pub struct Element {
    /// The ordered children.
    pub children: Vec<Node>,
    /// The tag's local name.
    pub name: String,
    /// Attribute name/value pairs; keys unique.
    pub attrs: Vec<(String, String)>,
}

/// The pairwise view of an attribute list.
pub open spec fn attr_pairs_v(attrs: Seq<(String, String)>) -> Seq<(Seq<char>, Seq<char>)> {
    Seq::new(attrs.len(), |i: int| (attrs[i].0@, attrs[i].1@))
}

/// The mathematical values of a child list, in order.
pub open spec fn nodes_v(ns: Seq<Node>) -> Seq<NodeV>
    decreases ns,
{
    if ns.len() == 0 {
        Seq::empty()
    } else {
        seq![node_v(ns[0])] + nodes_v(ns.subrange(1, ns.len() as int))
    }
}

/// The mathematical value of an element.
pub open spec fn elem_v(e: Element) -> ElemV
    decreases e,
{
    ElemV { name: e.name@, attrs: attr_pairs_v(e.attrs@), children: nodes_v(e.children@) }
}

impl View for Element {
    type V = ElemV;

    open spec fn view(&self) -> ElemV {
        elem_v(*self)
    }
}

/// Attribute keys are pairwise distinct.
pub open spec fn unique_keys(attrs: Seq<(Seq<char>, Seq<char>)>) -> bool {
    forall|i: int, j: int|
        0 <= i < j < attrs.len() ==> (#[trigger] attrs[i]).0 != (#[trigger] attrs[j]).0
}

/// An element is well formed when its attribute keys are unique and all
/// its children are well formed. Trees built by the parser are well
/// formed, and well-formed trees round-trip through the serializer.
pub open spec fn wf_elem(e: ElemV) -> bool
    decreases e,
{
    &&& unique_keys(e.attrs)
    &&& forall|i: int| 0 <= i < e.children.len() ==> wf_node(#[trigger] e.children[i])
}

/// What parsing an input yields: the tokenizer's events, fed to the tree
/// builder, with the tokenizer's own failure surfacing only where the
/// builder still needed events.
pub open spec fn parse_spec(s: Seq<char>) -> Result<ElemV, ErrV> {
    build_spec(lex(s).0, lex(s).1)
}

impl Element {
    /// Parse an XML fragment into its root element.
    ///
    /// Skips leading non-tag content, builds the first top-level element
    /// completely, and ignores whatever follows it. Fails when the input
    /// holds no tag at all, when it ends while elements are open, when a
    /// nested end tag does not match the innermost open element, or when
    /// the tokenizer cannot make sense of the part of the input that was
    /// still needed.
    pub fn from(xml: &str) -> (r: Result<Element, XmlError>)
        ensures
            res_v(r) == parse_spec(xml@),
            r matches Ok(e) ==> wf_elem(e@),
    {
        let (events, lex_err) = read_events(xml);
        proof {
            assert(lex(xml@).0 == events_v(events@));
            assert(lex(xml@).1 == opt_msg_v(lex_err));
            crate::laws::lemma_build_wf(lex(xml@).0, lex(xml@).1);
        }
        build_tree(&events, lex_err)
    }

    /// Serialize the tree back to XML text.
    ///
    /// An element with no children is written in self-closing form; one
    /// with children is written as a start tag, its children in order,
    /// and a matching end tag.
    pub fn to_str(&self) -> (r: String)
        ensures
            r@ == serialize_spec(self@),
    {
        let mut events: Vec<XmlEvent> = Vec::new();
        emit_elem_events(self, &mut events);
        proof {
            assert(events_v(events@) =~= Seq::<EventV>::empty() + emit_elem(elem_v(*self)));
            assert(Seq::<EventV>::empty() + emit_elem(elem_v(*self)) =~= emit_elem(
                elem_v(*self),
            ));
        }
        render_events(&events)
    }
}

impl core::str::FromStr for Element {
    type Err = XmlError;

    fn from_str(s: &str) -> Result<Element, XmlError> {
        Element::from(s)
    }
}

} // verus!
