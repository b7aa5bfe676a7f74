//! The tree builder: a single linear pass over the event stream that turns
//! a flat sequence of start/end/empty tag events into a nested tree, using
//! an explicit stack of in-progress elements.

use crate::element::{attr_pairs_v, elem_v, nodes_v, ElemV, Element};
use crate::error::{ErrV, XmlError};
use crate::events::{events_v, EventV, Tag, TagV, XmlEvent};
use crate::node::{node_v, Node, NodeV};
use vstd::prelude::*;

verus! {

// ------------------------------------------------------------------
// Attribute lists: a later attribute with the same name overwrites the
// value of an earlier one (mapping semantics).
// ------------------------------------------------------------------

/// Replace the value at the first occurrence of `k` in `acc`, or append
/// the pair when `k` does not occur.
pub open spec fn upsert_attr(
    acc: Seq<(Seq<char>, Seq<char>)>,
    k: Seq<char>,
    v: Seq<char>,
) -> Seq<(Seq<char>, Seq<char>)>
    decreases acc.len(),
{
    if acc.len() == 0 {
        seq![(k, v)]
    } else if acc[0].0 == k {
        seq![(k, v)] + acc.subrange(1, acc.len() as int)
    } else {
        seq![acc[0]] + upsert_attr(acc.subrange(1, acc.len() as int), k, v)
    }
}

/// Resolve duplicate attribute names left to right: the result keeps the
/// first-occurrence order of the keys, each key once, with the value of
/// its last occurrence.
pub open spec fn dedup_attrs_spec(
    attrs: Seq<(Seq<char>, Seq<char>)>,
) -> Seq<(Seq<char>, Seq<char>)>
    decreases attrs.len(),
{
    if attrs.len() == 0 {
        Seq::empty()
    } else {
        upsert_attr(dedup_attrs_spec(attrs.drop_last()), attrs.last().0, attrs.last().1)
    }
}

/// The element a start or empty tag constructs: no children yet, and its
/// attribute list resolved to mapping semantics.
pub open spec fn elem_of_tag(t: TagV) -> ElemV {
    ElemV { name: t.name, attrs: dedup_attrs_spec(t.attrs), children: Seq::empty() }
}

// ------------------------------------------------------------------
// The builder as a state machine over events.
// ------------------------------------------------------------------

/// The builder's state between events.
#[verifier::ext_equal]
pub enum BState {
    /// Still skipping leading non-tag events; no element open yet.
    Seeking,
    /// The stack of open elements, outermost first; never empty.
    Open(Seq<ElemV>),
    /// The root element is complete; all further events are discarded.
    Done(ElemV),
    /// A structural error was found; all further events are discarded.
    Failed(ErrV),
}

/// `stack` with `n` appended to the children of its top element.
pub open spec fn append_child(stack: Seq<ElemV>, n: NodeV) -> Seq<ElemV>
    recommends
        stack.len() > 0,
{
    let last = stack.len() - 1;
    stack.update(
        last,
        ElemV {
            name: stack[last].name,
            attrs: stack[last].attrs,
            children: stack[last].children.push(n),
        },
    )
}

/// One step of the builder on one event.
pub open spec fn step(st: BState, ev: EventV) -> BState {
    match st {
        BState::Seeking => match ev {
            EventV::Start(t) => BState::Open(seq![elem_of_tag(t)]),
            EventV::Empty(t) => BState::Done(elem_of_tag(t)),
            _ => BState::Seeking,
        },
        BState::Open(stack) => {
            if stack.len() == 0 {
                // Unreachable from `Seeking`; kept only to make `step` total.
                BState::Open(stack)
            } else {
                match ev {
                    EventV::Start(t) => BState::Open(stack.push(elem_of_tag(t))),
                    EventV::Empty(t) => BState::Open(
                        append_child(stack, NodeV::Element(elem_of_tag(t))),
                    ),
                    EventV::End(name) => {
                        let top = stack.last();
                        let rest = stack.drop_last();
                        if rest.len() == 0 {
                            BState::Done(top)
                        } else if top.name != name {
                            BState::Failed(ErrV::Mismatch { expected: top.name, found: name })
                        } else {
                            BState::Open(append_child(rest, NodeV::Element(top)))
                        }
                    },
                    EventV::Text(s) => if s.len() == 0 {
                        BState::Open(stack)
                    } else {
                        BState::Open(append_child(stack, NodeV::Text(s)))
                    },
                    EventV::Ignorable => BState::Open(stack),
                }
            }
        },
        BState::Done(e) => BState::Done(e),
        BState::Failed(er) => BState::Failed(er),
    }
}

/// The builder run over a whole event sequence.
pub open spec fn run(st: BState, evs: Seq<EventV>) -> BState
    decreases evs.len(),
{
    if evs.len() == 0 {
        st
    } else {
        run(step(st, evs[0]), evs.subrange(1, evs.len() as int))
    }
}

/// What the tree builder returns for a finished event stream. `lex_err`
/// is the tokenizer's diagnostic when it stopped on input it could not
/// lex; it matters only when the builder was still consuming events at
/// that point, exactly as with a lazy event source.
pub open spec fn build_spec(evs: Seq<EventV>, lex_err: Option<Seq<char>>) -> Result<ElemV, ErrV> {
    match run(BState::Seeking, evs) {
        BState::Done(e) => Ok(e),
        BState::Failed(er) => Err(er),
        BState::Seeking => match lex_err {
            Some(m) => Err(ErrV::Syntax(m)),
            None => Err(ErrV::NoRoot),
        },
        BState::Open(_) => match lex_err {
            Some(m) => Err(ErrV::Syntax(m)),
            None => Err(ErrV::UnexpectedEof),
        },
    }
}

// ------------------------------------------------------------------
// Facts about `run`.
// ------------------------------------------------------------------

/// Running one more event is one more step.
pub proof fn lemma_run_snoc(st: BState, evs: Seq<EventV>, ev: EventV)
    ensures
        run(st, evs.push(ev)) == step(run(st, evs), ev),
    decreases evs.len(),
{
    let p = evs.push(ev);
    if evs.len() == 0 {
        assert(p[0] == ev);
        assert(p.subrange(1, p.len() as int) =~= Seq::<EventV>::empty());
        assert(run(st, p) == run(step(st, ev), p.subrange(1, p.len() as int)));
        assert(run(st, evs) == st);
    } else {
        let sub = evs.subrange(1, evs.len() as int);
        assert(p[0] == evs[0]);
        assert(p.subrange(1, p.len() as int) =~= sub.push(ev));
        lemma_run_snoc(step(st, evs[0]), sub, ev);
        assert(run(st, p) == run(step(st, p[0]), p.subrange(1, p.len() as int)));
        assert(run(st, evs) == run(step(st, evs[0]), sub));
    }
}

/// A run decomposes over concatenation.
pub proof fn lemma_run_append(st: BState, a: Seq<EventV>, b: Seq<EventV>)
    ensures
        run(st, a + b) == run(run(st, a), b),
    decreases a.len(),
{
    if a.len() == 0 {
        assert(a + b =~= b);
        assert(run(st, a) == st);
    } else {
        let sub = a.subrange(1, a.len() as int);
        assert((a + b)[0] == a[0]);
        assert((a + b).subrange(1, (a + b).len() as int) =~= sub + b);
        lemma_run_append(step(st, a[0]), sub, b);
        assert(run(st, a + b) == run(step(st, a[0]), (a + b).subrange(1, (a + b).len() as int)));
        assert(run(st, a) == run(step(st, a[0]), sub));
    }
}

/// Once the root is complete, every later event is discarded.
pub proof fn lemma_done_absorbs(e: ElemV, evs: Seq<EventV>)
    ensures
        run(BState::Done(e), evs) == BState::Done(e),
    decreases evs.len(),
{
    if evs.len() > 0 {
        lemma_done_absorbs(e, evs.subrange(1, evs.len() as int));
    }
}

/// Once the builder has failed, every later event is discarded.
pub proof fn lemma_failed_absorbs(er: ErrV, evs: Seq<EventV>)
    ensures
        run(BState::Failed(er), evs) == BState::Failed(er),
    decreases evs.len(),
{
    if evs.len() > 0 {
        lemma_failed_absorbs(er, evs.subrange(1, evs.len() as int));
    }
}

// ------------------------------------------------------------------
// Executable attribute resolution.
// ------------------------------------------------------------------

/// When `k` occurs first at `j`, the upsert replaces the pair at `j`.
proof fn lemma_upsert_found(s: Seq<(Seq<char>, Seq<char>)>, k: Seq<char>, v: Seq<char>, j: int)
    requires
        0 <= j < s.len(),
        s[j].0 == k,
        forall|l: int| 0 <= l < j ==> (#[trigger] s[l]).0 != k,
    ensures
        upsert_attr(s, k, v) == s.update(j, (k, v)),
    decreases j,
{
    if j == 0 {
        assert(upsert_attr(s, k, v) =~= s.update(0, (k, v)));
    } else {
        let rest = s.subrange(1, s.len() as int);
        assert(s[0].0 != k);
        assert(rest[j - 1] == s[j]);
        assert(forall|l: int| 0 <= l < j - 1 ==> (#[trigger] rest[l]).0 != k) by {
            assert(forall|l: int| 0 <= l < j - 1 ==> rest[l] == s[l + 1]);
        }
        lemma_upsert_found(rest, k, v, j - 1);
        assert(upsert_attr(s, k, v) == seq![s[0]] + rest.update(j - 1, (k, v)));
        assert(seq![s[0]] + rest.update(j - 1, (k, v)) =~= s.update(j, (k, v)));
    }
}

/// When `k` does not occur, the upsert appends the pair.
proof fn lemma_upsert_missing(s: Seq<(Seq<char>, Seq<char>)>, k: Seq<char>, v: Seq<char>)
    requires
        forall|l: int| 0 <= l < s.len() ==> (#[trigger] s[l]).0 != k,
    ensures
        upsert_attr(s, k, v) == s.push((k, v)),
    decreases s.len(),
{
    if s.len() == 0 {
        assert(upsert_attr(s, k, v) =~= s.push((k, v)));
    } else {
        let rest = s.subrange(1, s.len() as int);
        assert(s[0].0 != k);
        assert(forall|l: int| 0 <= l < rest.len() ==> (#[trigger] rest[l]).0 != k) by {
            assert(forall|l: int| 0 <= l < rest.len() ==> rest[l] == s[l + 1]);
        }
        lemma_upsert_missing(rest, k, v);
        assert(upsert_attr(s, k, v) == seq![s[0]] + rest.push((k, v)));
        assert(seq![s[0]] + rest.push((k, v)) =~= s.push((k, v)));
    }
}

/// String equality, reflected into specifications.
fn strings_equal(a: &String, b: &String) -> (r: bool)
    ensures
        r == (a@ == b@),
{
    a.eq(b)
}

/// Replace the value of `k` in `out`, or append the pair when `k` is not
/// yet there.
fn upsert(out: &mut Vec<(String, String)>, k: String, v: String)
    ensures
        attr_pairs_v(final(out)@) == upsert_attr(attr_pairs_v(old(out)@), k@, v@),
{
    let ghost s0 = attr_pairs_v(old(out)@);
    let mut j: usize = 0;
    while j < out.len()
        invariant
            j <= out.len(),
            out@ == old(out)@,
            s0 == attr_pairs_v(out@),
            forall|l: int| 0 <= l < j ==> (#[trigger] s0[l]).0 != k@,
        decreases out.len() - j,
    {
        proof {
            assert(s0[j as int] == (out@[j as int].0@, out@[j as int].1@));
        }
        let hit = strings_equal(&out[j].0, &k);
        if hit {
            proof {
                lemma_upsert_found(s0, k@, v@, j as int);
            }
            let ghost kv = (k@, v@);
            let _ = out.remove(j);
            out.insert(j, (k, v));
            proof {
                assert(attr_pairs_v(out@) =~= s0.update(j as int, kv));
            }
            return ;
        }
        j += 1;
    }
    proof {
        lemma_upsert_missing(s0, k@, v@);
    }
    let ghost kv = (k@, v@);
    out.push((k, v));
    proof {
        assert(attr_pairs_v(out@) =~= s0.push(kv));
    }
}

/// Resolve duplicate attribute names of a raw attribute list.
pub fn dedup_attrs(attrs: &Vec<(String, String)>) -> (r: Vec<(String, String)>)
    ensures
        attr_pairs_v(r@) == dedup_attrs_spec(attr_pairs_v(attrs@)),
{
    let ghost all = attr_pairs_v(attrs@);
    let mut out: Vec<(String, String)> = Vec::new();
    let mut i: usize = 0;
    proof {
        assert(attr_pairs_v(out@) =~= dedup_attrs_spec(all.take(0)));
    }
    while i < attrs.len()
        invariant
            i <= attrs.len(),
            all == attr_pairs_v(attrs@),
            attr_pairs_v(out@) == dedup_attrs_spec(all.take(i as int)),
        decreases attrs.len() - i,
    {
        let k = attrs[i].0.clone();
        let v = attrs[i].1.clone();
        proof {
            assert(all[i as int] == (attrs@[i as int].0@, attrs@[i as int].1@));
        }
        upsert(&mut out, k, v);
        proof {
            assert(all.take(i + 1).drop_last() =~= all.take(i as int));
            assert(all.take(i + 1).last() == all[i as int]);
        }
        i += 1;
    }
    proof {
        assert(all.take(i as int) =~= all);
    }
    out
}

/// Build the element a start or empty tag describes: name and resolved
/// attributes, no children.
pub fn elem_from_tag(t: &Tag) -> (e: Element)
    ensures
        elem_v(e) == elem_of_tag(t@),
{
    let e = Element { children: Vec::new(), name: t.name.clone(), attrs: dedup_attrs(&t.attrs) };
    proof {
        assert(nodes_v(e.children@) == Seq::<NodeV>::empty());
        assert(elem_v(e) =~= elem_of_tag(t@));
    }
    e
}

// ------------------------------------------------------------------
// The executable builder.
// ------------------------------------------------------------------

/// The views of a stack of open elements, in order.
pub open spec fn stack_v(s: Seq<Element>) -> Seq<ElemV> {
    Seq::new(s.len(), |i: int| elem_v(s[i]))
}

/// The builder state an executable stack stands for.
pub open spec fn st_of(s: Seq<Element>) -> BState {
    if s.len() == 0 {
        BState::Seeking
    } else {
        BState::Open(stack_v(s))
    }
}

/// Spec-level image of the builder's result.
pub open spec fn res_v(r: Result<Element, XmlError>) -> Result<ElemV, ErrV> {
    match r {
        Ok(e) => Ok(elem_v(e)),
        Err(er) => Err(er@),
    }
}

/// The view of a child list grows pointwise with a push.
pub proof fn lemma_nodes_v_push(ns: Seq<Node>, n: Node)
    ensures
        nodes_v(ns.push(n)) == nodes_v(ns).push(node_v(n)),
    decreases ns.len(),
{
    let p = ns.push(n);
    if ns.len() == 0 {
        assert(p[0] == n);
        assert(p.subrange(1, p.len() as int) =~= Seq::<Node>::empty());
        assert(nodes_v(p) == seq![node_v(n)] + nodes_v(p.subrange(1, p.len() as int)));
        assert(nodes_v(p) =~= nodes_v(ns).push(node_v(n)));
    } else {
        let sub = ns.subrange(1, ns.len() as int);
        assert(p[0] == ns[0]);
        assert(p.subrange(1, p.len() as int) =~= sub.push(n));
        lemma_nodes_v_push(sub, n);
        assert(nodes_v(p) == seq![node_v(p[0])] + nodes_v(p.subrange(1, p.len() as int)));
        assert(nodes_v(p) == seq![node_v(ns[0])] + nodes_v(sub).push(node_v(n)));
        assert(nodes_v(ns) == seq![node_v(ns[0])] + nodes_v(sub));
        assert(seq![node_v(ns[0])] + nodes_v(sub).push(node_v(n)) =~= (seq![node_v(ns[0])]
            + nodes_v(sub)).push(node_v(n)));
    }
}

/// Append `child` to the children of the element on top of the stack.
fn push_child(stack: &mut Vec<Element>, child: Node)
    requires
        old(stack).len() > 0,
    ensures
        stack_v(final(stack)@) == append_child(stack_v(old(stack)@), node_v(child)),
{
    let ghost s0 = stack_v(old(stack)@);
    let ghost child0 = child;
    let mut top = stack.pop().unwrap();
    let ghost top0 = top;
    top.children.push(child);
    proof {
        lemma_nodes_v_push(top0.children@, child0);
        assert(elem_v(top) =~= ElemV {
            name: elem_v(top0).name,
            attrs: elem_v(top0).attrs,
            children: elem_v(top0).children.push(node_v(child0)),
        });
    }
    stack.push(top);
    proof {
        assert(stack_v(stack@) =~= append_child(s0, node_v(child0)));
    }
}

/// Consume a finished event stream and build the single root element.
///
/// `lex_err` is the tokenizer's diagnostic when the stream ends on input
/// that could not be lexed; it surfaces only when the builder still
/// needed events at that point, exactly as with a lazy event source.
pub fn build_tree(events: &Vec<XmlEvent>, lex_err: Option<String>) -> (r: Result<
    Element,
    XmlError,
>)
    ensures
        res_v(r) == build_spec(events_v(events@), crate::events::opt_msg_v(lex_err)),
{
    let ghost evs = events_v(events@);
    let mut stack: Vec<Element> = Vec::new();
    let mut i: usize = 0;
    while i < events.len()
        invariant
            i <= events.len(),
            evs == events_v(events@),
            run(BState::Seeking, evs.take(i as int)) == st_of(stack@),
        decreases events.len() - i,
    {
        let ghost pre = run(BState::Seeking, evs.take(i as int));
        let ghost ev = evs[i as int];
        proof {
            assert(evs.take(i + 1) =~= evs.take(i as int).push(ev));
            lemma_run_snoc(BState::Seeking, evs.take(i as int), ev);
            assert(run(BState::Seeking, evs.take(i + 1)) == step(pre, ev));
            assert(ev == events@[i as int]@);
        }
        match &events[i] {
            XmlEvent::Start(t) => {
                let ghost st0 = stack@;
                let el = elem_from_tag(t);
                stack.push(el);
                proof {
                    assert(stack_v(stack@) =~= stack_v(st0).push(elem_v(el)));
                    if st0.len() == 0 {
                        assert(stack_v(st0).push(elem_v(el)) =~= seq![elem_of_tag(t@)]);
                    }
                    assert(st_of(stack@) == step(pre, ev));
                }
            },
            XmlEvent::Empty(t) => {
                let el = elem_from_tag(t);
                if stack.is_empty() {
                    proof {
                        assert(step(pre, ev) == BState::Done(elem_v(el)));
                        lemma_done_absorbs(elem_v(el), evs.subrange(i + 1, evs.len() as int));
                        lemma_run_append(
                            BState::Seeking,
                            evs.take(i + 1),
                            evs.subrange(i + 1, evs.len() as int),
                        );
                        assert(evs.take(i + 1) + evs.subrange(i + 1, evs.len() as int) =~= evs);
                    }
                    return Ok(el);
                } else {
                    let ghost st0 = stack@;
                    let ghost elv = elem_v(el);
                    push_child(&mut stack, Node::Element(el));
                    proof {
                        assert(stack_v(stack@) == append_child(
                            stack_v(st0),
                            NodeV::Element(elem_of_tag((*t)@)),
                        ));
                        assert(stack_v(stack@).len() == stack@.len());
                        assert(st_of(stack@) == step(pre, ev));
                    }
                }
            },
            XmlEvent::End(name) => {
                if stack.is_empty() {
                    proof {
                        assert(step(pre, ev) == BState::Seeking);
                    }
                } else {
                    let ghost st0 = stack@;
                    let top = stack.pop().unwrap();
                    proof {
                        assert(top == st0[st0.len() - 1]);
                        assert(stack_v(st0)[st0.len() - 1] == elem_v(top));
                        assert(stack_v(stack@) =~= stack_v(st0).drop_last());
                    }
                    if stack.is_empty() {
                        proof {
                            assert(step(pre, ev) == BState::Done(elem_v(top)));
                            lemma_done_absorbs(elem_v(top), evs.subrange(i + 1, evs.len() as int));
                            lemma_run_append(
                                BState::Seeking,
                                evs.take(i + 1),
                                evs.subrange(i + 1, evs.len() as int),
                            );
                            assert(evs.take(i + 1) + evs.subrange(i + 1, evs.len() as int)
                                =~= evs);
                        }
                        return Ok(top);
                    } else {
                        let same = strings_equal(&top.name, name);
                        if !same {
                            let er = XmlError::Mismatch {
                                expected: top.name,
                                found: name.clone(),
                            };
                            proof {
                                assert(step(pre, ev) == BState::Failed(er@));
                                lemma_failed_absorbs(er@, evs.subrange(i + 1, evs.len() as int));
                                lemma_run_append(
                                    BState::Seeking,
                                    evs.take(i + 1),
                                    evs.subrange(i + 1, evs.len() as int),
                                );
                                assert(evs.take(i + 1) + evs.subrange(i + 1, evs.len() as int)
                                    =~= evs);
                            }
                            return Err(er);
                        } else {
                            let ghost rest0 = stack@;
                            let ghost st_spec = stack_v(st0);
                            let ghost topv = elem_v(top);
                            push_child(&mut stack, Node::Element(top));
                            proof {
                                assert(topv == st_spec.last());
                                assert(stack_v(rest0) =~= st_spec.drop_last());
                                assert(stack_v(stack@) == append_child(
                                    stack_v(rest0),
                                    NodeV::Element(topv),
                                ));
                                assert(st_of(stack@) == step(pre, ev));
                            }
                        }
                    }
                }
            },
            XmlEvent::Text(s) => {
                if !stack.is_empty() {
                    let empty_text = s.as_str().is_empty();
                    if !empty_text {
                        let copy = s.clone();
                        push_child(&mut stack, Node::Text(copy));
                        proof {
                            assert(node_v(Node::Text(copy)) == NodeV::Text(s@));
                            assert(st_of(stack@) == step(pre, ev));
                        }
                    } else {
                        proof {
                            assert(step(pre, ev) == pre);
                        }
                    }
                } else {
                    proof {
                        assert(step(pre, ev) == BState::Seeking);
                    }
                }
            },
            XmlEvent::Ignorable => {
                proof {
                    assert(step(pre, ev) == pre);
                }
            },
        }
        i += 1;
    }
    proof {
        assert(evs.take(i as int) =~= evs);
    }
    if stack.is_empty() {
        match lex_err {
            Some(m) => Err(XmlError::Syntax(m)),
            None => Err(XmlError::NoRoot),
        }
    } else {
        match lex_err {
            Some(m) => Err(XmlError::Syntax(m)),
            None => Err(XmlError::UnexpectedEof),
        }
    }
}

} // verus!
