//! The serializer: a pre-order depth-first traversal of the tree that
//! first emits an event sequence and then renders each event as text,
//! with the writing of single events delegated to `quick_xml`.

use crate::element::{elem_v, nodes_v, ElemV, Element};
use crate::events::{events_v, EventV, Tag, TagV, XmlEvent};
use crate::node::{node_v, Node, NodeV};
use quick_xml::events::{BytesEnd, BytesStart, BytesText, Event as QxEvent};
use quick_xml::Writer;
use std::io::Cursor;
use vstd::prelude::*;
use vstd::string::StringExecFns;

verus! {

// ------------------------------------------------------------------
// What the writer makes of one event, as text.
// ------------------------------------------------------------------

/// One character of text content, as the writer escapes it.
pub open spec fn escape_text_char(c: char) -> Seq<char> {
    if c == '<' {
        seq!['&', 'l', 't', ';']
    } else if c == '>' {
        seq!['&', 'g', 't', ';']
    } else if c == '&' {
        seq!['&', 'a', 'm', 'p', ';']
    } else if c == '\'' {
        seq!['&', 'a', 'p', 'o', 's', ';']
    } else if c == '"' {
        seq!['&', 'q', 'u', 'o', 't', ';']
    } else if c == '\r' {
        seq!['&', '#', '1', '3', ';']
    } else {
        seq![c]
    }
}

/// Text content with every character escaped.
pub open spec fn escape_text(s: Seq<char>) -> Seq<char>
    decreases s.len(),
{
    if s.len() == 0 {
        Seq::empty()
    } else {
        escape_text_char(s[0]) + escape_text(s.subrange(1, s.len() as int))
    }
}

/// One character of an attribute value, as the writer escapes it: the
/// text escapes, and additionally tab and line feed.
pub open spec fn escape_attr_char(c: char) -> Seq<char> {
    if c == '\n' {
        seq!['&', '#', '1', '0', ';']
    } else if c == '\t' {
        seq!['&', '#', '9', ';']
    } else {
        escape_text_char(c)
    }
}

/// An attribute value with every character escaped.
pub open spec fn escape_attr(s: Seq<char>) -> Seq<char>
    decreases s.len(),
{
    if s.len() == 0 {
        Seq::empty()
    } else {
        escape_attr_char(s[0]) + escape_attr(s.subrange(1, s.len() as int))
    }
}

/// ` key="value"` for one attribute, the value escaped.
pub open spec fn attr_text(kv: (Seq<char>, Seq<char>)) -> Seq<char> {
    seq![' '] + kv.0 + seq!['=', '"'] + escape_attr(kv.1) + seq!['"']
}

/// The attribute list of a tag, rendered in order.
pub open spec fn attrs_text(attrs: Seq<(Seq<char>, Seq<char>)>) -> Seq<char>
    decreases attrs.len(),
{
    if attrs.len() == 0 {
        Seq::empty()
    } else {
        attr_text(attrs[0]) + attrs_text(attrs.subrange(1, attrs.len() as int))
    }
}

/// The text the writer emits for one event. An ignorable event carries no
/// payload here, so the serializer never hands one to the writer.
pub open spec fn event_text(ev: EventV) -> Seq<char> {
    match ev {
        EventV::Start(t) => seq!['<'] + t.name + attrs_text(t.attrs) + seq!['>'],
        EventV::Empty(t) => seq!['<'] + t.name + attrs_text(t.attrs) + seq!['/', '>'],
        EventV::End(n) => seq!['<', '/'] + n + seq!['>'],
        EventV::Text(s) => escape_text(s),
        EventV::Ignorable => Seq::empty(),
    }
}

/// The text of a whole event sequence.
pub open spec fn render_text(evs: Seq<EventV>) -> Seq<char>
    decreases evs.len(),
{
    if evs.len() == 0 {
        Seq::empty()
    } else {
        event_text(evs[0]) + render_text(evs.subrange(1, evs.len() as int))
    }
}

// ------------------------------------------------------------------
// The event sequence of a tree.
// ------------------------------------------------------------------

/// The tag event payload an element serializes with.
pub open spec fn tag_of_elem(e: ElemV) -> TagV {
    TagV { name: e.name, attrs: e.attrs }
}

/// The events of an element: a single empty tag when it has no children,
/// else a start tag, the events of the children in order, and an end tag
/// with the same name.
pub open spec fn emit_elem(e: ElemV) -> Seq<EventV>
    decreases e,
{
    if e.children.len() == 0 {
        seq![EventV::Empty(tag_of_elem(e))]
    } else {
        seq![EventV::Start(tag_of_elem(e))] + emit_nodes(e.children) + seq![
            EventV::End(e.name),
        ]
    }
}

/// The events of a child list, in order.
pub open spec fn emit_nodes(ns: Seq<NodeV>) -> Seq<EventV>
    decreases ns,
{
    if ns.len() == 0 {
        Seq::empty()
    } else {
        emit_node(ns[0]) + emit_nodes(ns.subrange(1, ns.len() as int))
    }
}

/// The events of one node.
pub open spec fn emit_node(n: NodeV) -> Seq<EventV>
    decreases n,
{
    match n {
        NodeV::Text(s) => seq![EventV::Text(s)],
        NodeV::Element(e) => emit_elem(e),
    }
}

/// The serialized text of a tree.
pub open spec fn serialize_spec(e: ElemV) -> Seq<char> {
    render_text(emit_elem(e))
}

/// Rendering one more event appends its text.
pub proof fn lemma_render_snoc(evs: Seq<EventV>, ev: EventV)
    ensures
        render_text(evs.push(ev)) == render_text(evs) + event_text(ev),
    decreases evs.len(),
{
    let p = evs.push(ev);
    if evs.len() == 0 {
        assert(p[0] == ev);
        assert(p.subrange(1, p.len() as int) =~= Seq::<EventV>::empty());
        assert(render_text(p) == event_text(ev) + render_text(p.subrange(1, p.len() as int)));
        assert(event_text(ev) + Seq::<char>::empty() =~= render_text(evs) + event_text(ev));
    } else {
        let sub = evs.subrange(1, evs.len() as int);
        assert(p[0] == evs[0]);
        assert(p.subrange(1, p.len() as int) =~= sub.push(ev));
        lemma_render_snoc(sub, ev);
        assert(render_text(p) == event_text(evs[0]) + (render_text(sub) + event_text(ev)));
        assert(render_text(evs) == event_text(evs[0]) + render_text(sub));
        assert(event_text(evs[0]) + (render_text(sub) + event_text(ev)) =~= (event_text(evs[0])
            + render_text(sub)) + event_text(ev));
    }
}

/// The view of a child list, taken pointwise.
pub proof fn lemma_nodes_v_index(ns: Seq<Node>)
    ensures
        nodes_v(ns).len() == ns.len(),
        forall|j: int| 0 <= j < ns.len() ==> nodes_v(ns)[j] == node_v(#[trigger] ns[j]),
    decreases ns.len(),
{
    if ns.len() > 0 {
        let sub = ns.subrange(1, ns.len() as int);
        lemma_nodes_v_index(sub);
        assert(forall|j: int| 0 <= j < sub.len() ==> sub[j] == ns[j + 1]);
        assert forall|j: int| 0 <= j < ns.len() implies nodes_v(ns)[j] == node_v(ns[j]) by {
            if j == 0 {
                assert(nodes_v(ns)[0] == node_v(ns[0]));
            } else {
                assert(nodes_v(ns)[j] == nodes_v(sub)[j - 1]);
                assert(sub[j - 1] == ns[j]);
            }
        }
    }
}

// ------------------------------------------------------------------
// Executable emission.
// ------------------------------------------------------------------

/// Copy an attribute list.
fn clone_attrs(attrs: &Vec<(String, String)>) -> (r: Vec<(String, String)>)
    ensures
        r@ == attrs@,
{
    let mut out: Vec<(String, String)> = Vec::new();
    let mut i: usize = 0;
    while i < attrs.len()
        invariant
            i <= attrs.len(),
            out@ =~= attrs@.take(i as int),
        decreases attrs.len() - i,
    {
        out.push((attrs[i].0.clone(), attrs[i].1.clone()));
        proof {
            assert(out@ =~= attrs@.take(i + 1));
        }
        i += 1;
    }
    proof {
        assert(attrs@.take(i as int) =~= attrs@);
    }
    out
}

/// The tag event payload of an element.
fn tag_from_elem(e: &Element) -> (t: Tag)
    ensures
        t@ == tag_of_elem(elem_v(*e)),
{
    let t = Tag { name: e.name.clone(), attrs: clone_attrs(&e.attrs) };
    proof {
        assert(t@ =~= tag_of_elem(elem_v(*e)));
    }
    t
}

/// One pending piece of serializer work: a node still to be emitted, or
/// the end tag of an element whose children are being emitted.
enum Work<'a> {
    /// A node whose events are still owed.
    Node(&'a Node),
    /// The end tag, with this name, of an element already opened.
    Close(&'a String),
}

/// The events one work item still owes.
spec fn work_ev(w: Work) -> Seq<EventV> {
    match w {
        Work::Node(n) => emit_node(node_v(*n)),
        Work::Close(s) => seq![EventV::End(s@)],
    }
}

/// The events a work stack still owes, top of the stack first.
spec fn pending_ev(ws: Seq<Work>) -> Seq<EventV>
    decreases ws.len(),
{
    if ws.len() == 0 {
        Seq::empty()
    } else {
        work_ev(ws.last()) + pending_ev(ws.drop_last())
    }
}

/// Emit the tag that opens `e`, and queue the events of its children and
/// of its end tag, so that the work stack owes the rest of `e`'s events.
fn schedule_elem<'a>(e: &'a Element, out: &mut Vec<XmlEvent>, work: &mut Vec<Work<'a>>)
    ensures
        events_v(final(out)@) + pending_ev(final(work)@) == events_v(old(out)@) + emit_elem(
            elem_v(*e),
        ) + pending_ev(old(work)@),
        final(out)@.len() == old(out)@.len() + 1,
{
    let ghost out0 = events_v(old(out)@);
    let ghost pend0 = pending_ev(old(work)@);
    let tag = tag_from_elem(e);
    proof {
        lemma_nodes_v_index(e.children@);
    }
    if e.children.len() == 0 {
        out.push(XmlEvent::Empty(tag));
        proof {
            assert(elem_v(*e).children.len() == 0);
            assert(events_v(out@) =~= out0 + seq![EventV::Empty(tag_of_elem(elem_v(*e)))]);
            assert(out0 + emit_elem(elem_v(*e)) + pend0 =~= (out0 + seq![
                EventV::Empty(tag_of_elem(elem_v(*e))),
            ]) + pend0);
        }
        return ;
    }
    out.push(XmlEvent::Start(tag));
    let ghost cs = elem_v(*e).children;
    let ghost w0 = work@;
    work.push(Work::Close(&e.name));
    proof {
        assert(work@.drop_last() =~= w0);
        assert(pending_ev(work@) == seq![EventV::End(elem_v(*e).name)] + pend0);
        assert(cs.subrange(cs.len() as int, cs.len() as int) =~= Seq::<NodeV>::empty());
        assert(emit_nodes(cs.subrange(cs.len() as int, cs.len() as int))
            =~= Seq::<EventV>::empty());
    }
    let mut j: usize = e.children.len();
    while j > 0
        invariant
            j <= e.children.len(),
            cs == elem_v(*e).children,
            cs.len() == e.children@.len(),
            forall|l: int| 0 <= l < cs.len() ==> cs[l] == node_v(#[trigger] e.children@[l]),
            pending_ev(work@) == emit_nodes(cs.subrange(j as int, cs.len() as int)) + seq![
                EventV::End(elem_v(*e).name),
            ] + pend0,
        decreases j,
    {
        j -= 1;
        let ghost w1 = work@;
        let child: &Node = &e.children[j];
        work.push(Work::Node(child));
        proof {
            assert(work@.drop_last() =~= w1);
            assert(work_ev(Work::Node(child)) == emit_node(cs[j as int]));
            let sub = cs.subrange(j as int, cs.len() as int);
            assert(sub[0] == cs[j as int]);
            assert(sub.subrange(1, sub.len() as int) =~= cs.subrange(j + 1, cs.len() as int));
            assert(emit_nodes(sub) == emit_node(cs[j as int]) + emit_nodes(
                cs.subrange(j + 1, cs.len() as int),
            ));
            assert(pending_ev(work@) == work_ev(Work::Node(child)) + (emit_nodes(
                cs.subrange(j + 1, cs.len() as int),
            ) + seq![EventV::End(elem_v(*e).name)] + pend0));
            assert(work_ev(Work::Node(child)) + (emit_nodes(cs.subrange(j + 1, cs.len() as int))
                + seq![EventV::End(elem_v(*e).name)] + pend0) =~= emit_nodes(sub) + seq![
                EventV::End(elem_v(*e).name),
            ] + pend0);
        }
    }
    proof {
        assert(cs.subrange(0, cs.len() as int) =~= cs);
        assert(elem_v(*e).children.len() != 0);
        assert(events_v(out@) =~= out0 + seq![EventV::Start(tag_of_elem(elem_v(*e)))]);
        assert(emit_elem(elem_v(*e)) == seq![EventV::Start(tag_of_elem(elem_v(*e)))]
            + emit_nodes(cs) + seq![EventV::End(elem_v(*e).name)]);
        assert((out0 + seq![EventV::Start(tag_of_elem(elem_v(*e)))]) + (emit_nodes(cs) + seq![
            EventV::End(elem_v(*e).name),
        ] + pend0) =~= out0 + emit_elem(elem_v(*e)) + pend0);
    }
}

/// Append the events of `e` to `out`, in pre-order: a single pass over
/// an explicit work stack, so that the depth of the tree never grows the
/// call stack.
pub fn emit_elem_events(e: &Element, out: &mut Vec<XmlEvent>)
    ensures
        events_v(final(out)@) == events_v(old(out)@) + emit_elem(elem_v(*e)),
{
    let ghost target = events_v(old(out)@) + emit_elem(elem_v(*e));
    let mut work: Vec<Work> = Vec::new();
    proof {
        assert(pending_ev(work@) =~= Seq::<EventV>::empty());
        assert(events_v(out@) + pending_ev(work@) =~= events_v(out@));
    }
    schedule_elem(e, out, &mut work);
    while work.len() > 0
        invariant
            events_v(out@) + pending_ev(work@) == target,
        decreases pending_ev(work@).len(),
    {
        let ghost w_pre = work@;
        let ghost out_pre = events_v(out@);
        let w = work.pop().unwrap();
        proof {
            assert(work@ =~= w_pre.drop_last());
            assert(w == w_pre.last());
            assert(pending_ev(w_pre) == work_ev(w) + pending_ev(work@));
        }
        match w {
            Work::Node(n) => match n {
                Node::Text(s) => {
                    out.push(XmlEvent::Text(s.clone()));
                    proof {
                        assert(work_ev(w) == seq![EventV::Text(s@)]);
                        assert(events_v(out@) =~= out_pre + work_ev(w));
                        assert(out_pre + (work_ev(w) + pending_ev(work@)) =~= (out_pre
                            + work_ev(w)) + pending_ev(work@));
                    }
                },
                Node::Element(el) => {
                    let ghost pend_pop = pending_ev(work@);
                    schedule_elem(el, out, &mut work);
                    proof {
                        assert(work_ev(w) == emit_elem(elem_v(*el)));
                        assert(out_pre + (work_ev(w) + pend_pop) =~= out_pre + emit_elem(
                            elem_v(*el),
                        ) + pend_pop);
                    }
                },
            },
            Work::Close(name) => {
                out.push(XmlEvent::End(name.clone()));
                proof {
                    assert(work_ev(w) == seq![EventV::End(name@)]);
                    assert(events_v(out@) =~= out_pre + work_ev(w));
                    assert(out_pre + (work_ev(w) + pending_ev(work@)) =~= (out_pre + work_ev(w))
                        + pending_ev(work@));
                }
            },
        }
    }
    proof {
        assert(pending_ev(work@) =~= Seq::<EventV>::empty());
        assert(events_v(out@) + pending_ev(work@) =~= events_v(out@));
    }
}

// ------------------------------------------------------------------
// Rendering through the outside writer.
// ------------------------------------------------------------------

/// Relies on `quick_xml::Writer::write_event` with `Event::Start`: it
/// writes `<`, the tag content, `>`; the content is the name followed by
/// each attribute as ` key="value"`, the value escaped by
/// `quick_xml::escape::escape_attribute` when the pair is turned into an
/// `Attribute`.
#[verifier::external_body]
fn start_tag_text(tag: &Tag) -> (r: String)
    ensures
        r@ == event_text(EventV::Start(tag@)),
{
    let mut writer = Writer::new(Cursor::new(Vec::new()));
    let mut bs = BytesStart::new(tag.name.clone());
    for a in tag.attrs.iter() {
        bs.push_attribute((a.0.as_str(), a.1.as_str()));
    }
    writer.write_event(QxEvent::Start(bs)).unwrap();
    String::from_utf8(writer.into_inner().into_inner()).unwrap()
}

/// Relies on `quick_xml::Writer::write_event` with `Event::Empty`: as a
/// start tag, but closed with `/>`.
#[verifier::external_body]
fn empty_tag_text(tag: &Tag) -> (r: String)
    ensures
        r@ == event_text(EventV::Empty(tag@)),
{
    let mut writer = Writer::new(Cursor::new(Vec::new()));
    let mut bs = BytesStart::new(tag.name.clone());
    for a in tag.attrs.iter() {
        bs.push_attribute((a.0.as_str(), a.1.as_str()));
    }
    writer.write_event(QxEvent::Empty(bs)).unwrap();
    String::from_utf8(writer.into_inner().into_inner()).unwrap()
}

/// Relies on `quick_xml::Writer::write_event` with `Event::End`: it
/// writes `</`, the name, `>`.
#[verifier::external_body]
fn end_tag_text(name: &String) -> (r: String)
    ensures
        r@ == event_text(EventV::End(name@)),
{
    let mut writer = Writer::new(Cursor::new(Vec::new()));
    writer.write_event(QxEvent::End(BytesEnd::new(name.as_str()))).unwrap();
    String::from_utf8(writer.into_inner().into_inner()).unwrap()
}

/// Relies on `quick_xml::Writer::write_event` with `Event::Text` and
/// `BytesText::new`: the content is escaped by `quick_xml::escape::escape`
/// and written as it stands.
#[verifier::external_body]
fn text_text(s: &String) -> (r: String)
    ensures
        r@ == event_text(EventV::Text(s@)),
{
    let mut writer = Writer::new(Cursor::new(Vec::new()));
    writer.write_event(QxEvent::Text(BytesText::new(s.as_str()))).unwrap();
    String::from_utf8(writer.into_inner().into_inner()).unwrap()
}

/// Render an event sequence as text, event by event.
pub fn render_events(events: &Vec<XmlEvent>) -> (r: String)
    ensures
        r@ == render_text(events_v(events@)),
{
    let ghost evs = events_v(events@);
    let mut out = String::new();
    let mut i: usize = 0;
    proof {
        assert(render_text(evs.take(0)) =~= Seq::<char>::empty()) by {
            assert(evs.take(0) =~= Seq::<EventV>::empty());
        }
    }
    while i < events.len()
        invariant
            i <= events.len(),
            evs == events_v(events@),
            out@ == render_text(evs.take(i as int)),
        decreases events.len() - i,
    {
        proof {
            assert(evs.take(i + 1) =~= evs.take(i as int).push(evs[i as int]));
            lemma_render_snoc(evs.take(i as int), evs[i as int]);
            assert(evs[i as int] == events@[i as int]@);
        }
        match &events[i] {
            XmlEvent::Start(t) => {
                let piece = start_tag_text(t);
                out.append(piece.as_str());
            },
            XmlEvent::Empty(t) => {
                let piece = empty_tag_text(t);
                out.append(piece.as_str());
            },
            XmlEvent::End(n) => {
                let piece = end_tag_text(n);
                out.append(piece.as_str());
            },
            XmlEvent::Text(s) => {
                let piece = text_text(s);
                out.append(piece.as_str());
            },
            XmlEvent::Ignorable => {
                proof {
                    assert(event_text(evs[i as int]) =~= Seq::<char>::empty());
                    assert(out@ =~= render_text(evs.take(i as int)) + event_text(
                        evs[i as int],
                    ));
                }
            },
        }
        i += 1;
    }
    proof {
        assert(evs.take(i as int) =~= evs);
    }
    out
}

} // verus!
